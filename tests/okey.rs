use fishing_jigsaw::mcts::Environment;
use fishing_jigsaw::minigames::okey::{Agents, Okey, FULL_DECK};

fn drawn(cards: &[u8]) -> Okey {
    let mut game = Okey::new();
    for &c in cards {
        game.perform_action(c);
    }
    game
}

#[test]
fn new_game() {
    let game = Okey::new();
    assert_eq!(game.deck(), FULL_DECK);
    assert!(game.board().is_empty());
    assert_eq!(game.agent(), Agents::Machine);
    assert_eq!(game.score(), 0);
    assert!(!game.has_finished());
    assert_eq!(game.eval(), 0);
    assert_eq!(game.legal_actions(), (0..24).collect::<Vec<u8>>());
}

#[test]
fn machine_draws_until_the_board_is_full() {
    let mut game = Okey::new();
    for (k, c) in [0u8, 1, 2, 8].into_iter().enumerate() {
        game.perform_action(c);
        assert_eq!(game.board().len(), k + 1);
        assert_eq!(game.agent(), Agents::Machine);
    }
    game.perform_action(16);
    assert_eq!(game.agent(), Agents::Human);
    assert_eq!(*game.board(), vec![0, 1, 2, 8, 16]);
    assert_eq!(game.deck(), FULL_DECK & !0b1_0000_0001_0000_0111);
}

#[test]
fn player_actions_list_combinations_then_discards() {
    let game = drawn(&[0, 1, 2, 8, 16]);
    assert_eq!(game.legal_actions(), vec![0, 5, 10, 11, 12, 13, 14]);
}

#[test]
fn combination_scores() {
    let game = drawn(&[0, 1, 2, 8, 16]);
    // A run of one colour: smallest number 0, plus 40.
    assert_eq!(game.compute_score((0, 1, 2)), 40);
    // Three zeros.
    assert_eq!(game.compute_score((0, 3, 4)), 10);
    let game = drawn(&[7, 15, 23, 5, 14]);
    // Three sevens.
    assert_eq!(game.compute_score((0, 1, 2)), 80);
    // 5, 6, 7 of mixed colours.
    assert_eq!(game.compute_score((3, 4, 2)), 50);
}

#[test]
fn playing_a_combination_scores_and_reorders() {
    let mut game = drawn(&[0, 1, 2, 8, 16]);
    game.perform_action(0);
    assert_eq!(game.score(), 40);
    assert_eq!(*game.board(), vec![16, 8]);
    assert_eq!(game.agent(), Agents::Machine);
}

#[test]
fn discarding_removes_one_card() {
    let mut game = drawn(&[3, 1, 2, 9, 20]);
    game.perform_action(11);
    // swap_remove(1) leaves [3, 20, 2, 9], then ordered by number.
    assert_eq!(*game.board(), vec![9, 2, 3, 20]);
    assert_eq!(game.score(), 0);
    assert_eq!(game.agent(), Agents::Machine);
}

#[test]
fn draw_fills_and_orders_the_board() {
    let mut game = Okey::new();
    game.draw();
    assert_eq!(game.agent(), Agents::Human);
    let board = game.board().clone();
    assert_eq!(board.len(), 5);
    assert!(board.windows(2).all(|w| w[0] % 8 <= w[1] % 8));
    assert_eq!(game.deck().count_ones(), 19);
    assert!(board.iter().all(|&c| game.deck() & (1 << c) == 0));
}

#[test]
fn clone_keeps_the_position() {
    let game = drawn(&[4, 12]);
    let copy = game.clone();
    assert_eq!(copy.deck(), game.deck());
    assert_eq!(*copy.board(), *game.board());
    assert_eq!(copy.agent(), game.agent());
}
