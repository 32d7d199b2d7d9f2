use fishing_jigsaw::mcts::{Config, Environment, Stats, Tree};
use fishing_jigsaw::minigames::jigsaw::{Jigsaw, FULL_BOARD, SKIP_ACTION, TOTAL_FIGURES};

fn at(board: u32, figure_index: u8) -> Jigsaw {
    Jigsaw { board, figure_index, quantity: 0 }
}

#[test]
fn cells_by_row_and_column() {
    assert_eq!(Jigsaw::index(0, 0), 0);
    assert_eq!(Jigsaw::index(2, 3), 15);
    assert_eq!(Jigsaw::index(3, 5), 23);
    let mut state = at(0, 0);
    state.toggle_coord(2, 3);
    assert_eq!(state.board, (1 << 23) >> 15);
    assert!(state.coord(2, 3));
    assert!(!state.coord(3, 2));
    state.toggle_coord(2, 3);
    assert_eq!(state.board, 0);
}

#[test]
fn vertical_bar_legal_actions() {
    let state = at(0, 1);
    let expected: Vec<u8> = (0..12).chain([SKIP_ACTION]).collect();
    assert_eq!(state.legal_actions(), expected);
    assert!(!state.is_legal(12));
}

#[test]
fn square_does_not_wrap_rows() {
    let state = at(0, 4);
    assert!(state.is_legal(4));
    assert!(!state.is_legal(5));
    assert!(!state.is_legal(11));
    assert!(state.is_legal(16));
    assert!(!state.is_legal(18));
}

#[test]
fn covered_cells_block_placement() {
    let state = at(0b100000_000000_000000_000000, 0);
    assert!(!state.is_legal(0));
    assert!(state.is_legal(1));
    assert!(state.in_figure(1, 1));
    assert!(!state.in_figure(1, 0));
}

#[test]
fn move_places_and_draws_a_new_piece() {
    let mut state = at(0, 2);
    assert_eq!(state.figure(), 0b100000_110000_000000_000000);
    state.perform_action(3);
    assert_eq!(state.board, 0b100000_110000_000000_000000 >> 3);
    assert_eq!(state.quantity, 1);
    assert!((state.figure_index) < TOTAL_FIGURES);
    let before = state.board;
    state.perform_action(SKIP_ACTION);
    assert_eq!(state.board, before);
    assert_eq!(state.quantity, 2);
}

#[test]
fn fresh_game_and_reward() {
    let state = Jigsaw::default();
    assert_eq!(state.board, 0);
    assert_eq!(state.quantity, 0);
    assert!(state.figure_index < TOTAL_FIGURES);
    assert_eq!(state.eval(), 0);
    let done = at(FULL_BOARD, 3);
    assert!(done.has_finished());
    assert_eq!(done.eval(), 1);
}

#[test]
fn search_on_a_nearly_full_board() {
    // Only the last cell is open; the single cell piece closes it.
    let state = at(FULL_BOARD ^ 1, 0);
    assert_eq!(state.legal_actions(), vec![23, SKIP_ACTION]);
    let mut last: Option<Stats<Jigsaw>> = None;
    let mut tree = Tree::new(state, Config { max_iters: 800, max_depth: 2, callback_interval: 1000 });
    tree.compute(
        |wins: i64, visits: u32, parent_visits: u32| {
            let score = wins as f64 / visits as f64
                + std::f64::consts::SQRT_2 * (parent_visits as f64).ln().sqrt() / visits as f64;
            (score * 1_000_000.0) as i64
        },
        |s: Stats<Jigsaw>| last = Some(s),
    );
    let stats = last.unwrap();
    assert_eq!(stats.iters, 800);
    assert_eq!(stats.best_action(), Some(23));
    assert_eq!(tree.node(0).visits, 800);
    assert!(tree.arena_len() <= 801);
}
