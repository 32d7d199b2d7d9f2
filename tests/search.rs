use fishing_jigsaw::jigsaw::{Jigsaw, SKIP_ACTION, TERMINAL_STATE};
use fishing_jigsaw::mcts::tree_search::playout;
use fishing_jigsaw::mcts::{Config, Environment, Stats, Tree};

/// The order key under which `f32::total_cmp` compares values.
fn total_key(x: f32) -> i64 {
    let bits = x.to_bits() as i32;
    (bits ^ (((bits >> 31) as u32) >> 1) as i32) as i64
}

/// UCB1 with exploration constant `c`, as an order key.
fn ucb(c: f32) -> impl Fn(i64, u32, u32) -> i64 {
    move |wins: i64, visits: u32, parent_visits: u32| {
        let exploitation = wins as f32 / visits as f32;
        let exploration = c * (parent_visits as f32).ln().sqrt() / visits as f32;
        total_key(exploitation + exploration)
    }
}

fn config(max_iters: u32, max_depth: u32, callback_interval: u32) -> Config {
    Config { max_iters, max_depth, callback_interval }
}

/// A board with only the cell of `action` uncovered, the single-cell piece
/// in hand.
fn one_hole(action: u8) -> Jigsaw {
    Jigsaw { board: TERMINAL_STATE ^ ((1 << 23) >> action), figure: 0, round: 0 }
}

fn run(state: Jigsaw, cfg: Config) -> (Tree<Jigsaw>, Vec<Stats<Jigsaw>>) {
    let mut reports: Vec<Stats<Jigsaw>> = Vec::new();
    let mut tree = Tree::new(state, cfg);
    tree.compute(ucb(2f32.sqrt()), |s: Stats<Jigsaw>| reports.push(s));
    (tree, reports)
}

#[test]
fn callbacks_fire_on_interval_and_last_iteration() {
    let (_, reports) = run(Jigsaw::default(), config(2500, 4, 1000));
    let iters: Vec<u32> = reports.iter().map(|s| s.iters).collect();
    assert_eq!(iters, vec![1000, 2000, 2500]);

    let (_, reports) = run(Jigsaw::default(), config(2300, 4, 1000));
    let iters: Vec<u32> = reports.iter().map(|s| s.iters).collect();
    assert_eq!(iters, vec![1000, 2000, 2300]);
}

#[test]
fn single_iteration_reports_once() {
    let (_, reports) = run(Jigsaw::default(), config(1, 4, 1000));
    assert_eq!(reports.len(), 1);
    assert_eq!(reports[0].iters, 1);
    // The report comes before the first iteration: nothing is expanded yet.
    assert!(reports[0].actions.is_empty());
}

#[test]
fn rewarding_move_is_preferred() {
    let state = one_hole(9);
    assert_eq!(state.legal_actions(), vec![9, SKIP_ACTION]);
    let (tree, reports) = run(state, config(1000, 1, 1000));
    let stats = reports.last().unwrap();
    assert_eq!(stats.iters, 1000);
    assert_eq!(stats.best_action(), Some(9));
    let visits_of = |a: u8| stats.actions.iter().find(|e| e.0 == a).unwrap().1;
    assert!(visits_of(9) > visits_of(SKIP_ACTION));
    assert_eq!(tree.node(0).visits, 1000);
}

#[test]
fn arena_and_root_visits_follow_iterations() {
    for n in [1u32, 2, 10, 300] {
        let (tree, _) = run(Jigsaw::default(), config(n, 6, 1000));
        assert!(tree.arena_len() <= n as usize + 1);
        assert_eq!(tree.node(0).visits, n);
    }
}

#[test]
fn parent_links_point_back_to_the_root() {
    let (tree, _) = run(Jigsaw::default(), config(500, 6, 1000));
    assert!(tree.node(0).parent.is_none());
    for i in 1..tree.arena_len() {
        let p = tree.node(i).parent.unwrap();
        assert!(p < i);
        assert!(tree.node(p).children.iter().any(|&(_, c)| c == i));
        let mut cursor = i;
        while let Some(p) = tree.node(cursor).parent {
            cursor = p;
        }
        assert_eq!(cursor, 0);
    }
}

#[test]
fn finished_root_is_never_expanded() {
    let state = Jigsaw { board: TERMINAL_STATE, figure: 2, round: 3 };
    let (tree, reports) = run(state, config(1500, 6, 1000));
    assert_eq!(tree.arena_len(), 1);
    assert!(tree.node(0).children.is_empty());
    assert_eq!(tree.node(0).visits, 1500);
    assert_eq!(tree.node(0).wins, 1500);
    assert!(reports.iter().all(|s| s.actions.is_empty()));
}

#[test]
fn same_root_gives_same_root_moves() {
    let state = Jigsaw { board: 0b1111_0000_1111_0000_0000_0000, figure: 4, round: 2 };
    let (a, _) = run(state, config(3, 6, 1000));
    let (b, _) = run(state, config(3, 6, 1000));
    let moves = |t: &Tree<Jigsaw>| t.node(0).children.iter().map(|e| e.0).collect::<Vec<u8>>();
    assert_eq!(moves(&a), moves(&b));
    assert_eq!(moves(&a), state.legal_actions()[..3].to_vec());
    assert_eq!(a.node(0).visits, b.node(0).visits);

    let (a, _) = run(state, config(400, 6, 1000));
    let (b, _) = run(state, config(400, 6, 1000));
    assert_eq!(moves(&a), moves(&b));
    assert_eq!(moves(&a), state.legal_actions());
}

#[test]
fn default_config() {
    let c = Config::default();
    assert_eq!(c.max_iters, 300_000);
    assert_eq!(c.max_depth, 10);
    assert_eq!(c.callback_interval, 1000);
}

#[test]
fn best_action_takes_the_first_of_equals() {
    let stats: Stats<Jigsaw> = Stats { iters: 5, actions: vec![(3, 2), (7, 5), (1, 5), (9, 4)] };
    assert_eq!(stats.best_action(), Some(7));
    let stats: Stats<Jigsaw> = Stats { iters: 5, actions: vec![(4, 1)] };
    assert_eq!(stats.best_action(), Some(4));
    let stats: Stats<Jigsaw> = Stats { iters: 0, actions: vec![] };
    assert_eq!(stats.best_action(), None);
}

#[test]
fn playout_follows_the_picks() {
    // One open cell: pick 0 fills it, pick 1 skips.
    assert_eq!(playout(one_hole(9), &vec![0, 0, 0], 3), 1);
    assert_eq!(playout(one_hole(9), &vec![1, 1, 1], 3), 0);
    assert_eq!(playout(one_hole(9), &vec![1, 0, 1], 3), 1);
    // Picks are taken modulo the number of legal moves.
    assert_eq!(playout(one_hole(9), &vec![1, 2, 7], 3), 1);
    // No moves allowed: the position itself.
    assert_eq!(playout(one_hole(9), &vec![], 0), 0);
    // A finished position stays put.
    let done = Jigsaw { board: TERMINAL_STATE, figure: 0, round: 0 };
    assert_eq!(playout(done, &vec![0, 0, 0, 0, 0], 5), 1);
    // Two single cells on an empty board do not finish it.
    assert_eq!(playout(Jigsaw::default(), &vec![0, 0], 2), 0);
}

#[test]
fn snapshots_are_due_on_the_cadence() {
    let tree = Tree::new(Jigsaw::default(), config(2500, 4, 1000));
    for (iter, due) in [(1, false), (999, false), (1000, true), (2000, true), (2499, false), (2500, true)] {
        let snap = tree.due_snapshot(iter);
        assert_eq!(snap.is_some(), due);
        if let Some(s) = snap {
            assert_eq!(s.iters, iter);
            assert!(s.actions.is_empty());
        }
    }
}

#[test]
fn snapshot_lists_root_children_in_order() {
    let (tree, _) = run(Jigsaw::default(), config(30, 4, 10));
    let s = tree.due_snapshot(30).unwrap();
    let root = tree.node(0);
    assert_eq!(s.actions.len(), root.children.len());
    for (k, &(a, c)) in root.children.iter().enumerate() {
        assert_eq!(s.actions[k], (a, tree.node(c).visits));
    }
    let total: u32 = s.actions.iter().map(|e| e.1).sum();
    assert_eq!(total, root.visits);
}

#[test]
fn finished_root_collects_its_reward_each_iteration() {
    let state = Jigsaw { board: TERMINAL_STATE, figure: 0, round: 0 };
    let (tree, reports) = run(state, config(2300, 4, 1000));
    assert_eq!(tree.node(0).wins, 2300 * state.eval() as i64);
    assert_eq!(reports.iter().map(|s| s.iters).collect::<Vec<u32>>(), vec![1000, 2000, 2300]);
    assert!(reports.iter().all(|s| s.actions.is_empty()));
    let fresh = Tree::new(state, config(1, 1, 1));
    assert_eq!(fresh.node(0).wins, 0);
    assert!(fresh.node(0).parent.is_none());
}

#[test]
fn one_iteration_expands_the_first_move_and_backpropagates() {
    let mut tree = Tree::new(one_hole(9), config(10, 1, 1000));
    tree.iterate(&ucb(2f32.sqrt()));
    assert_eq!(tree.arena_len(), 2);
    assert_eq!(tree.node(0).visits, 1);
    // Filling the last cell finishes the board: reward 1.
    assert_eq!(tree.node(0).wins, 1);
    assert_eq!(tree.node(0).children, vec![(9, 1)]);
    assert_eq!(tree.node(1).wins, 1);
    assert_eq!(tree.node(1).parent, Some(0));
    tree.iterate(&ucb(2f32.sqrt()));
    assert_eq!(tree.node(0).children, vec![(9, 1), (SKIP_ACTION, 2)]);
    assert_eq!(tree.node(0).visits, 2);
}
