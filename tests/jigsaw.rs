use fishing_jigsaw::jigsaw::{
    figure_at, is_possible, Jigsaw, SKIP_ACTION, TERMINAL_STATE, TOTAL_ACTIONS, TOTAL_FIGURES,
};
use fishing_jigsaw::mcts::Environment;
use rand::SeedableRng;

#[test]
fn test_skip_action() {
    let mut state = Jigsaw::default();

    assert_eq!(state.round, 0);
    state.perform_action(SKIP_ACTION);
    assert_eq!(state.round, 1);
}

#[test]
fn test_overlap() {
    let mut state = Jigsaw::default();
    state.figure = 1;

    assert!(state.is_legal(0));
    state.perform_action(0);

    state.figure = 0;
    assert!(!state.is_legal(0));
    assert!(!state.is_legal(1));
    assert!(!state.is_legal(2));

    assert!(state.is_legal(3));
}

#[test]
fn placing_covers_the_figure_cells() {
    let mut state = Jigsaw::default();
    state.figure = 4;
    state.perform_action(5);
    assert_eq!(state.board, 0b1100_1100_0000_0000_0000_0000 >> 5);
    assert!(state.get_value((1, 1)));
    assert!(state.get_value((1, 2)));
    assert!(state.get_value((2, 1)));
    assert!(state.get_value((2, 2)));
    assert!(!state.get_value((1, 0)));
    assert!(!state.get_value((0, 0)));
}

#[test]
fn offsets_limit_the_legal_actions() {
    let state = Jigsaw { board: 0, figure: 1, round: 0 };
    // The vertical bar of three fits in rows 0 and 1 of every column.
    let expected: Vec<u8> = (0..6).flat_map(|x| vec![x * 4, x * 4 + 1]).chain([SKIP_ACTION]).collect();
    assert_eq!(state.legal_actions(), expected);

    let state = Jigsaw { board: 0, figure: 5, round: 0 };
    assert!(state.is_legal(0));
    assert!(state.is_legal(14));
    assert!(!state.is_legal(15));
    assert!(!state.is_legal(16));
}

#[test]
fn finished_board() {
    let state = Jigsaw { board: TERMINAL_STATE, figure: 0, round: 9 };
    assert!(state.has_finished());
    assert_eq!(state.eval(), 1);
    assert_eq!(state.legal_actions(), vec![SKIP_ACTION]);
    assert_eq!(Jigsaw::default().eval(), 0);
    assert!(!Jigsaw::default().has_finished());
}

#[test]
fn unknown_figure_fits_nowhere() {
    let state = Jigsaw { board: 0, figure: 9, round: 0 };
    assert_eq!(state.legal_actions(), vec![SKIP_ACTION]);
}

#[test]
fn every_skip_is_legal() {
    for figure in 0..TOTAL_FIGURES as u8 {
        let state = Jigsaw { board: 0x00f0_f0f0, figure, round: 0 };
        assert!(state.is_legal(SKIP_ACTION));
        assert_eq!(*state.legal_actions().last().unwrap(), SKIP_ACTION);
        assert!(state.legal_actions().iter().all(|&a| a < TOTAL_ACTIONS));
    }
}

#[test]
fn offsets_and_actions() {
    assert_eq!(Jigsaw::action_to_offsets(0), (0, 0));
    assert_eq!(Jigsaw::action_to_offsets(13), (3, 1));
    assert_eq!(Jigsaw::action_to_offsets(23), (5, 3));
    assert_eq!(Jigsaw::offset_to_action((3, 1)), 13);
    assert_eq!(Jigsaw::offset_to_action((5, 3)), 23);
}

#[test]
fn toggle_flips_one_cell() {
    let mut state = Jigsaw::default();
    state.toggle((2, 3));
    assert_eq!(state.board, (1 << 23) >> 11);
    assert!(state.get_value((2, 3)));
    state.toggle((2, 3));
    assert_eq!(state.board, 0);
}

#[test]
fn figure_cells_under_an_action() {
    let state = Jigsaw { board: 0, figure: 2, round: 0 };
    // Figure 2 at action 4 covers (1, 0), (1, 1) and (2, 1).
    assert!(state.fig_intesect(4, (1, 0)));
    assert!(state.fig_intesect(4, (1, 1)));
    assert!(state.fig_intesect(4, (2, 1)));
    assert!(!state.fig_intesect(4, (2, 0)));
    assert!(!state.fig_intesect(4, (0, 0)));
}

#[test]
fn figures_table() {
    assert_eq!(figure_at(0).size, 1);
    assert_eq!(figure_at(1).value, 0b1110_0000_0000_0000_0000_0000);
    assert_eq!(figure_at(5).max_offset, (3, 2));
    assert_eq!(state_figure_value(3), figure_at(3).value);
}

fn state_figure_value(index: u8) -> u32 {
    Jigsaw { board: 0, figure: index, round: 0 }.figure().value
}

#[test]
fn possible_only_on_covered_cells() {
    let f = figure_at(0);
    assert!(is_possible(TERMINAL_STATE, &f, 0, 0));
    assert!(!is_possible(0, &f, 0, 0));
    let bar = figure_at(1);
    assert!(is_possible(TERMINAL_STATE, &bar, 5, 1));
    assert!(!is_possible(TERMINAL_STATE, &bar, 5, 2));
}

#[test]
fn random_figure_is_a_known_piece() {
    let mut rng = rand::rngs::StdRng::seed_from_u64(2024);
    let mut state = Jigsaw { board: 0x0000_0f0f, figure: 0, round: 4 };
    for _ in 0..50 {
        state.set_random_figure(&mut rng);
        assert!((state.figure as usize) < TOTAL_FIGURES);
        assert_eq!(state.board, 0x0000_0f0f);
        assert_eq!(state.round, 4);
    }
}
