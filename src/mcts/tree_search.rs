use super::environment::Environment;
use super::node::{Index, Node};
use crate::random::random_below;
use vstd::laws_eq::obeys_concrete_eq;
use vstd::prelude::*;

verus! {

broadcast use vstd::function::group_function_axioms;

/// A snapshot of the search: how many iterations have begun, and the visit
/// count of each action expanded at the root, in order of expansion.
#[derive(Clone)]
pub struct Stats<T: Environment> {
    pub iters: u32,
    pub actions: Vec<(T::Action, u32)>,
}

impl<T: Environment> Stats<T> {
    /// `i` is the first position of a largest visit count in `actions`.
    pub open spec fn is_first_max(&self, i: int) -> bool {
        &&& 0 <= i < self.actions@.len()
        &&& forall|j: int| 0 <= j < self.actions@.len() ==> self.actions@[j].1 <= self.actions@[i].1
        &&& forall|j: int| 0 <= j < i ==> self.actions@[j].1 < self.actions@[i].1
    }

    /// The action with the most visits; the earliest one where several tie.
    pub fn best_action(&self) -> (r: Option<T::Action>)
        ensures
            r is None <==> self.actions@.len() == 0,
            r matches Some(a) ==> exists|i: int| self.is_first_max(i) && self.actions@[i].0 == a,
    {
        if self.actions.len() == 0 {
            return None;
        }
        let mut best: usize = 0;
        let mut i: usize = 1;
        while i < self.actions.len()
            invariant
                1 <= i <= self.actions@.len(),
                best < i,
                forall|j: int| 0 <= j < i ==> self.actions@[j].1 <= self.actions@[best as int].1,
                forall|j: int| 0 <= j < best ==> self.actions@[j].1 < self.actions@[best as int].1,
            decreases self.actions@.len() - i,
        {
            if self.actions[i].1 > self.actions[best].1 {
                best = i;
            }
            i = i + 1;
        }
        assert(self.is_first_max(best as int));
        Some(self.actions[best].0)
    }
}

/// The search budget and its reporting cadence. The exploration constant
/// belongs to the scoring function handed to `Tree::compute`.
#[derive(Clone, Copy, Debug)]
pub struct Config {
    pub max_iters: u32,
    pub max_depth: u32,
    pub callback_interval: u32,
}

impl Default for Config {
    fn default() -> (r: Self)
        ensures
            r.max_iters == 300_000,
            r.max_depth == 10,
            r.callback_interval == 1000,
    {
        Config { max_iters: 300_000, max_depth: 10, callback_interval: 1000 }
    }
}

/// A snapshot is due before iteration `iter` (counted from 1): on each
/// multiple of the interval, and before the last iteration.
pub open spec fn report_due(iter: u32, config: Config) -> bool {
    iter % config.callback_interval == 0 || iter == config.max_iters
}

/// `s` is the snapshot of `nodes` at iteration `iter`: the root's expanded
/// actions in order of expansion, each with its child's visits.
pub open spec fn is_snapshot<T: Environment>(nodes: Seq<Node<T::Action>>, iter: u32, s: Stats<T>) -> bool {
    &&& s.iters == iter
    &&& s.actions@.len() == nodes[0].children@.len()
    &&& forall|k: int|
        0 <= k < s.actions@.len() ==> #[trigger] s.actions@[k] == (
            nodes[0].children@[k].0,
            nodes[nodes[0].children@[k].1 as int].visits,
        )
}

/// `end` is a position where a playout from `state` can stop: at each step
/// it plays the legal move at position `picks[k] % n` among the `n` legal
/// moves, and it stops only at a finished position or after `limit` moves.
/// Picks that run out before then end nothing.
pub open spec fn playout_ends<T: Environment>(state: T, picks: Seq<usize>, limit: nat, end: T) -> bool
    decreases limit,
{
    if state.finished() || limit == 0 {
        end == state
    } else if picks.len() == 0 {
        false
    } else {
        let legal = state.legal();
        let action = legal[(picks[0] as int) % (legal.len() as int)];
        exists|next: T|
            #[trigger] state.moves_to(action, next) && playout_ends(
                next,
                picks.drop_first(),
                (limit - 1) as nat,
                end,
            )
    }
}

proof fn lemma_playout_step<T: Environment>(prev: T, pick: usize, cur: T, limit: nat)
    requires
        !prev.finished(),
        limit > 0,
        prev.legal().len() > 0,
        prev.moves_to(prev.legal()[(pick as int) % (prev.legal().len() as int)], cur),
    ensures
        forall|rest: Seq<usize>, end: T|
            playout_ends(cur, rest, (limit - 1) as nat, end) ==> #[trigger] playout_ends(
                prev,
                seq![pick] + rest,
                limit,
                end,
            ),
{
    assert forall|rest: Seq<usize>, end: T|
        playout_ends(cur, rest, (limit - 1) as nat, end) implies #[trigger] playout_ends(
        prev,
        seq![pick] + rest,
        limit,
        end,
    ) by {
        let s = seq![pick] + rest;
        assert(s[0] == pick);
        assert(s.drop_first() =~= rest);
    }
}

/// Plays from `state` as `playout_ends` describes, with the given picks and
/// at most `max_depth` moves, and returns the reward of the position
/// reached.
pub fn playout<T: Environment>(state: T, picks: &Vec<usize>, max_depth: u32) -> (r: i32)
    requires
        picks@.len() >= max_depth,
    ensures
        exists|end: T| playout_ends(state, picks@, max_depth as nat, end) && r == end.reward(),
{
    let mut cur = state;
    let mut k: usize = 0;
    while (k as u64) < (max_depth as u64) && !cur.has_finished()
        invariant
            picks@.len() >= max_depth,
            k <= picks@.len(),
            k <= max_depth,
            forall|rest: Seq<usize>, end: T|
                playout_ends(cur, rest, (max_depth - k) as nat, end) ==> #[trigger] playout_ends(
                    state,
                    picks@.take(k as int) + rest,
                    max_depth as nat,
                    end,
                ),
        decreases max_depth - k,
    {
        let legal = cur.legal_actions();
        let pick = picks[k];
        let action = legal[pick % legal.len()];
        let ghost prev = cur;
        let ghost drawn = picks@.take(k as int);
        proof {
            assert(prev.legal()[(pick as int) % (prev.legal().len() as int)] == action);
        }
        cur.perform_action(action);
        proof {
            lemma_playout_step(prev, pick, cur, (max_depth - k) as nat);
            assert forall|rest: Seq<usize>, end: T|
                playout_ends(cur, rest, (max_depth - (k + 1)) as nat, end) implies #[trigger] playout_ends(
                state,
                picks@.take(k + 1) + rest,
                max_depth as nat,
                end,
            ) by {
                assert(playout_ends(prev, seq![pick] + rest, (max_depth - k) as nat, end));
                assert(drawn + (seq![pick] + rest) =~= picks@.take(k + 1) + rest);
            }
        }
        k = k + 1;
    }
    proof {
        let rest = picks@.skip(k as int);
        assert(playout_ends(cur, rest, (max_depth - k) as nat, cur));
        assert(picks@.take(k as int) + rest =~= picks@);
    }
    cur.eval()
}

/// `after` is `nodes` once `reward` and one visit have been added to every
/// node on the path of parent links from `from`; parents are unchanged.
pub open spec fn backed_up<A>(nodes: Seq<Node<A>>, after: Seq<Node<A>>, from: int, reward: int) -> bool {
    forall|j: int|
        0 <= j < nodes.len() ==> {
            &&& (#[trigger] after[j]).parent == nodes[j].parent
            &&& after[j].visits == nodes[j].visits + if is_ancestor(nodes, from, j) {
                1int
            } else {
                0int
            }
            &&& after[j].wins == nodes[j].wins + if is_ancestor(nodes, from, j) {
                reward
            } else {
                0int
            }
        }
}

/// One iteration turns the arena `nodes` into `after`. Selection runs from
/// the root at `root` to a node `path.last()`. When the position there is
/// finished or deeper than `max_depth`, its reward is backpropagated from
/// that node and no node is added. Otherwise its first untried move is
/// linked to a fresh node at index `nodes.len()`, a playout runs from a
/// position that move leads to, and the playout's reward is backpropagated
/// from the fresh node.
pub open spec fn iteration_step<T: Environment, S: Fn(i64, u32, u32) -> i64>(
    score: S,
    nodes: Seq<Node<T::Action>>,
    after: Seq<Node<T::Action>>,
    root: T,
    max_depth: u32,
) -> bool {
    exists|path: Seq<int>, states: Seq<T>|
        #[trigger] is_descent(score, nodes, path, states) && states[0] == root && select_stops(
            nodes,
            states.last(),
            path.last(),
        ) && {
            let s = states.last();
            let d = path.len() - 1;
            let at = path.last();
            if s.finished() || d > max_depth {
                &&& after.len() == nodes.len()
                &&& backed_up(nodes, after, at, s.reward() as int)
                &&& forall|j: int| 0 <= j < nodes.len() ==> (#[trigger] after[j]).children == nodes[j].children
            } else {
                exists|k: int, next: T, picks: Seq<usize>, end: T|
                    #![trigger s.moves_to(s.legal()[k], next), playout_ends(next, picks, (max_depth - d) as nat, end)]
                    0 <= k < s.legal().len() && !nodes[at].has_child(s.legal()[k]) && (forall|m: int|
                        0 <= m < k ==> nodes[at].has_child(s.legal()[m])) && s.moves_to(s.legal()[k], next)
                        && playout_ends(next, picks, (max_depth - d) as nat, end) && {
                        let leaf = nodes.len();
                        &&& after.len() == leaf + 1
                        &&& backed_up(nodes, after, at, end.reward() as int)
                        &&& forall|j: int|
                            0 <= j < leaf && j != at ==> (#[trigger] after[j]).children == nodes[j].children
                        &&& after[at].children@ == nodes[at].children@.push((s.legal()[k], leaf as usize))
                        &&& after[leaf as int].parent == Some(at as usize)
                        &&& after[leaf as int].visits == 1
                        &&& after[leaf as int].wins == end.reward()
                        &&& after[leaf as int].children@.len() == 0
                    }
            }
        }
}

/// The iterations from 1 to `n` before which a snapshot is due, in order.
pub open spec fn due_upto(n: nat, config: Config) -> Seq<u32>
    decreases n,
{
    if n == 0 {
        Seq::empty()
    } else {
        due_upto((n - 1) as nat, config) + if report_due(n as u32, config) {
            seq![n as u32]
        } else {
            Seq::empty()
        }
    }
}

/// A run of `n` iterations from the root at `root`: `history[i + 1]` is the
/// arena after iteration `i + 1`, one `iteration_step` after `history[i]`;
/// `log` holds the snapshots handed to `callback`, one for each due
/// iteration in order, each taken from the arena before that iteration.
/// A finished root keeps its children throughout.
pub open spec fn run_ok<T: Environment, S: Fn(i64, u32, u32) -> i64, F: FnMut(Stats<T>)>(
    score: S,
    callback: F,
    root: T,
    config: Config,
    history: Seq<Seq<Node<T::Action>>>,
    log: Seq<Stats<T>>,
    n: nat,
) -> bool {
    &&& history.len() == n + 1
    &&& forall|i: int|
        0 <= i < n ==> #[trigger] iteration_step(score, history[i], history[i + 1], root, config.max_depth)
    &&& log.len() == due_upto(n, config).len()
    &&& forall|j: int|
        0 <= j < log.len() ==> {
            &&& (#[trigger] log[j]).iters == due_upto(n, config)[j]
            &&& call_ensures(callback, (log[j],), ())
            &&& 1 <= log[j].iters <= n
            &&& is_snapshot(history[log[j].iters - 1], log[j].iters, log[j])
        }
    &&& forall|i: int|
        0 <= i <= n ==> #[trigger] history[i][0].children == history[0][0].children || !root.finished()
}

/// `j` lies on the path of parent links from `i` (both included).
pub open spec fn is_ancestor<A>(nodes: Seq<Node<A>>, i: int, j: int) -> bool
    decreases i,
{
    if i == j {
        true
    } else if i <= 0 || i >= nodes.len() {
        false
    } else {
        match nodes[i].parent {
            Some(p) => p < i && is_ancestor(nodes, p as int, j),
            None => false,
        }
    }
}

/// The shape of an arena: index 0 is the one node without a parent, each
/// other node's parent precedes it, and each child link points forward to a
/// node whose parent link points back.
pub open spec fn links_ok<A>(nodes: Seq<Node<A>>) -> bool {
    &&& nodes.len() >= 1
    &&& nodes[0].parent is None
    &&& forall|i: int| 0 < i < nodes.len() ==> (#[trigger] nodes[i].parent matches Some(p) && p < i)
    &&& forall|i: int| 0 <= i < nodes.len() ==> (#[trigger] nodes[i]).distinct_actions()
    &&& forall|i: int, k: int|
        0 <= i < nodes.len() && 0 <= k < nodes[i].children@.len() ==> {
            let c = #[trigger] nodes[i].children@[k].1;
            &&& i < c < nodes.len()
            &&& nodes[c as int].parent == Some(i as usize)
        }
    &&& forall|i: int, k: int, m: int|
        #![trigger nodes[i].children@[k], nodes[i].children@[m]]
        0 <= i < nodes.len() && 0 <= k < m < nodes[i].children@.len() ==> nodes[i].children@[k].1
            != nodes[i].children@[m].1
    &&& forall|c: int|
        0 < c < nodes.len() ==> (#[trigger] nodes[c].parent matches Some(p) && nodes[p as int].lists(c))
}

/// The visits of the children listed in `ch`, summed.
pub open spec fn child_visit_sum<A>(nodes: Seq<Node<A>>, ch: Seq<(A, Index)>) -> int
    decreases ch.len(),
{
    if ch.len() == 0 {
        0
    } else {
        child_visit_sum(nodes, ch.drop_last()) + nodes[ch.last().1 as int].visits
    }
}

proof fn lemma_sum_same<A>(a: Seq<Node<A>>, b: Seq<Node<A>>, ch: Seq<(A, Index)>)
    requires
        forall|k: int| 0 <= k < ch.len() ==> #[trigger] a[ch[k].1 as int].visits == b[ch[k].1 as int].visits,
    ensures
        child_visit_sum(a, ch) == child_visit_sum(b, ch),
    decreases ch.len(),
{
    if ch.len() > 0 {
        let d = ch.drop_last();
        assert forall|k: int| 0 <= k < d.len() implies #[trigger] a[d[k].1 as int].visits == b[d[k].1 as int].visits by {
            assert(d[k] == ch[k]);
        }
        lemma_sum_same(a, b, d);
        assert(a[ch[ch.len() - 1].1 as int].visits == b[ch[ch.len() - 1].1 as int].visits);
    }
}

proof fn lemma_sum_bump<A>(a: Seq<Node<A>>, b: Seq<Node<A>>, ch: Seq<(A, Index)>, p: int)
    requires
        0 <= p < ch.len(),
        b[ch[p].1 as int].visits == a[ch[p].1 as int].visits + 1,
        forall|k: int| 0 <= k < ch.len() && k != p ==> #[trigger] b[ch[k].1 as int].visits == a[ch[k].1 as int].visits,
    ensures
        child_visit_sum(b, ch) == child_visit_sum(a, ch) + 1,
    decreases ch.len(),
{
    let d = ch.drop_last();
    if p == ch.len() - 1 {
        assert forall|k: int| 0 <= k < d.len() implies #[trigger] a[d[k].1 as int].visits == b[d[k].1 as int].visits by {
            assert(d[k] == ch[k]);
        }
        lemma_sum_same(a, b, d);
    } else {
        assert(d[p] == ch[p]);
        assert forall|k: int| 0 <= k < d.len() && k != p implies #[trigger] b[d[k].1 as int].visits == a[d[k].1 as int].visits by {
            assert(d[k] == ch[k]);
        }
        lemma_sum_bump(a, b, d, p);
        assert(b[ch[ch.len() - 1].1 as int].visits == a[ch[ch.len() - 1].1 as int].visits);
    }
}

/// The largest reward of one iteration is 2^31 in absolute value.
pub open spec fn reward_bound(visits: u32) -> int {
    visits as int * 0x8000_0000
}

/// Visit counts and rewards: no node has more visits than the root, each
/// reward sum is bounded by its visits, every node but the root has been
/// visited, and each iteration added at most one node.
pub open spec fn counts_ok<A>(nodes: Seq<Node<A>>) -> bool {
    &&& forall|i: int| 0 <= i < nodes.len() ==> (#[trigger] nodes[i]).visits <= nodes[0].visits
    &&& forall|i: int| 0 <= i < nodes.len() ==>
        -reward_bound((#[trigger] nodes[i]).visits) <= nodes[i].wins <= reward_bound(nodes[i].visits)
    &&& forall|i: int| 0 < i < nodes.len() ==> (#[trigger] nodes[i]).visits >= 1
    &&& nodes.len() <= nodes[0].visits + 1
}

/// The root's children are the first legal moves of the root position, one
/// per completed iteration until all are expanded; a finished root has none.
pub open spec fn root_expansion_ok<T: Environment>(nodes: Seq<Node<T::Action>>, state: T) -> bool {
    let c = nodes[0].children@.len();
    &&& c == if state.finished() {
        0
    } else if state.legal().len() <= nodes[0].visits {
        state.legal().len()
    } else {
        nodes[0].visits as nat
    }
    &&& forall|k: int| 0 <= k < c ==> (#[trigger] nodes[0].children@[k]).0 == state.legal()[k]
}

/// `nodes[index]` after a reward and a visit count were added to it.
pub open spec fn updated<A>(n: Node<A>, wins: i32, visits: u32) -> Node<A> {
    Node { visits: (n.visits + visits) as u32, wins: (n.wins + wins) as i64, ..n }
}

/// The counts just before an iteration's backpropagation from `leaf`: as in
/// `counts_ok`, except that `leaf` may be unvisited and the arena may hold
/// the node this iteration added.
pub open spec fn counts_before_backprop<A>(nodes: Seq<Node<A>>, leaf: int) -> bool {
    &&& 0 <= leaf < nodes.len()
    &&& nodes[0].visits < u32::MAX
    &&& forall|i: int| 0 <= i < nodes.len() ==> (#[trigger] nodes[i]).visits <= nodes[0].visits
    &&& forall|i: int| 0 <= i < nodes.len() ==>
        -reward_bound((#[trigger] nodes[i]).visits) <= nodes[i].wins <= reward_bound(nodes[i].visits)
    &&& forall|i: int| 0 < i < nodes.len() && i != leaf ==> (#[trigger] nodes[i]).visits >= 1
    &&& nodes.len() <= nodes[0].visits + 2
}

/// Backpropagating one visit and a reward from `leaf` restores the counts
/// and keeps the links.
proof fn lemma_backprop_counts<A>(before: Seq<Node<A>>, after: Seq<Node<A>>, leaf: int, wins: i32)
    requires
        links_ok(before),
        counts_before_backprop(before, leaf),
        after.len() == before.len(),
        forall|j: int| 0 <= j < before.len() ==> #[trigger] after[j] == if is_ancestor(before, leaf, j) {
            updated(before[j], wins, 1)
        } else {
            before[j]
        },
    ensures
        links_ok(after),
        counts_ok(after),
        after[0].visits == before[0].visits + 1,
        forall|j: int| 0 <= j < before.len() ==> (#[trigger] after[j]).children == before[j].children,
{
    lemma_reaches_root(before, leaf);
    assert(after[0] == updated(before[0], wins, 1));
    assert forall|j: int| 0 <= j < before.len() implies (#[trigger] after[j]).children == before[j].children
        && after[j].parent == before[j].parent by {}
    assert forall|i: int| 0 < i < after.len() implies (#[trigger] after[i].parent matches Some(p) && p < i) by {
        assert(before[i].parent matches Some(p) && p < i);
    }
    assert forall|i: int| 0 <= i < after.len() implies (#[trigger] after[i]).distinct_actions() by {
        assert(before[i].distinct_actions());
    }
    assert forall|i: int, k: int, m: int|
        #![trigger after[i].children@[k], after[i].children@[m]]
        0 <= i < after.len() && 0 <= k < m < after[i].children@.len() implies after[i].children@[k].1
            != after[i].children@[m].1 by {
        assert(after[i].children == before[i].children);
        assert(before[i].children@[k].1 != before[i].children@[m].1);
    }
    assert forall|c: int| 0 < c < after.len() implies (#[trigger] after[c].parent matches Some(p)
        && after[p as int].lists(c)) by {
        assert(before[c].parent matches Some(p) && before[p as int].lists(c));
        let p = before[c].parent->Some_0;
        assert(after[p as int].children == before[p as int].children);
    }
    assert forall|i: int, k: int| 0 <= i < after.len() && 0 <= k < after[i].children@.len() implies {
        let c = #[trigger] after[i].children@[k].1;
        &&& i < c < after.len()
        &&& after[c as int].parent == Some(i as usize)
    } by {
        assert(after[i].children == before[i].children);
        let c = before[i].children@[k].1;
        assert(i < c < before.len() && before[c as int].parent == Some(i as usize));
    }
    assert forall|i: int| 0 <= i < after.len() implies {
        &&& (#[trigger] after[i]).visits <= after[0].visits
        &&& -reward_bound(after[i].visits) <= after[i].wins <= reward_bound(after[i].visits)
        &&& i > 0 ==> after[i].visits >= 1
    } by {
        assert(before[i].visits <= before[0].visits);
        assert(-reward_bound(before[i].visits) <= before[i].wins <= reward_bound(before[i].visits));
        if is_ancestor(before, leaf, i) {
            assert(after[i] == updated(before[i], wins, 1));
        } else {
            assert(i != leaf);
        }
    }
}

/// A root whose legal moves all have children has them all, in order.
proof fn lemma_root_full<T: Environment>(nodes: Seq<Node<T::Action>>, state: T)
    requires
        nodes.len() >= 1,
        root_expansion_ok(nodes, state),
        !state.finished(),
        state.legal().no_duplicates(),
        forall|k: int| 0 <= k < state.legal().len() ==> nodes[0].has_child(#[trigger] state.legal()[k]),
    ensures
        nodes[0].children@.len() == state.legal().len(),
{
    let c = nodes[0].children@.len();
    if c < state.legal().len() {
        assert(nodes[0].has_child(state.legal()[c as int]));
        let i = choose|i: int| 0 <= i < c && #[trigger] nodes[0].children@[i].0 == state.legal()[c as int];
        assert(nodes[0].children@[i].0 == state.legal()[i]);
    }
}

/// The first untried legal move of the root is the next one in order.
proof fn lemma_root_untried<T: Environment>(nodes: Seq<Node<T::Action>>, state: T, k: int)
    requires
        nodes.len() >= 1,
        root_expansion_ok(nodes, state),
        !state.finished(),
        state.legal().no_duplicates(),
        0 <= k < state.legal().len(),
        !nodes[0].has_child(state.legal()[k]),
        forall|m: int| 0 <= m < k ==> nodes[0].has_child(#[trigger] state.legal()[m]),
    ensures
        k == nodes[0].children@.len(),
{
    let c = nodes[0].children@.len();
    if k < c {
        assert(nodes[0].children@[k].0 == state.legal()[k]);
    }
    if c < k {
        assert(nodes[0].has_child(state.legal()[c as int]));
        let i = choose|i: int| 0 <= i < c && #[trigger] nodes[0].children@[i].0 == state.legal()[c as int];
        assert(nodes[0].children@[i].0 == state.legal()[i]);
    }
}

proof fn lemma_ancestor_same_parents<A>(a: Seq<Node<A>>, b: Seq<Node<A>>, i: int, j: int)
    requires
        0 <= i < a.len(),
        i < b.len(),
        forall|m: int| 0 <= m <= i ==> (#[trigger] a[m]).parent == b[m].parent,
    ensures
        is_ancestor(a, i, j) == is_ancestor(b, i, j),
    decreases i,
{
    if i != j && i > 0 {
        if let Some(p) = a[i].parent {
            if p < i {
                lemma_ancestor_same_parents(a, b, p as int, j);
            }
        }
    }
}

proof fn lemma_ancestor_chain<A>(nodes: Seq<Node<A>>, x: int, a: int, b: int)
    requires
        is_ancestor(nodes, x, a),
        is_ancestor(nodes, x, b),
    ensures
        is_ancestor(nodes, a, b) || is_ancestor(nodes, b, a),
    decreases x,
{
    if x != a && x != b {
        let p = nodes[x].parent->Some_0;
        lemma_ancestor_chain(nodes, p as int, a, b);
    }
}

/// Exactly one child of the root lies on the path of parent links from a
/// node other than the root.
proof fn lemma_one_root_child<A>(nodes: Seq<Node<A>>, x: int) -> (p: int)
    requires
        links_ok(nodes),
        0 < x < nodes.len(),
    ensures
        0 <= p < nodes[0].children@.len(),
        is_ancestor(nodes, x, nodes[0].children@[p].1 as int),
        forall|k: int|
            0 <= k < nodes[0].children@.len() && k != p ==> !is_ancestor(
                nodes,
                x,
                #[trigger] nodes[0].children@[k].1 as int,
            ),
    decreases x,
{
    let ch = nodes[0].children@;
    assert(nodes[x].parent matches Some(q) && q < x && nodes[q as int].lists(x));
    let q = nodes[x].parent->Some_0;
    let mut p: int = 0;
    if q == 0 {
        p = choose|k: int| 0 <= k < ch.len() && #[trigger] ch[k].1 as int == x;
        assert(ch[p].1 as int == x);
    } else {
        p = lemma_one_root_child(nodes, q as int);
        assert(is_ancestor(nodes, q as int, ch[p].1 as int));
    }
    assert(is_ancestor(nodes, x, ch[p].1 as int));
    assert forall|k: int| 0 <= k < ch.len() && k != p implies !is_ancestor(nodes, x, #[trigger] ch[k].1 as int) by {
        let a = ch[p].1 as int;
        let b = ch[k].1 as int;
        if is_ancestor(nodes, x, b) {
            assert(a != b) by {
                if k < p {
                    assert(ch[k].1 != ch[p].1);
                } else {
                    assert(ch[p].1 != ch[k].1);
                }
            }
            assert(0 < a && 0 < b);
            assert(nodes[a].parent == Some(0usize) && nodes[b].parent == Some(0usize));
            lemma_ancestor_chain(nodes, x, a, b);
            if is_ancestor(nodes, a, b) {
                assert(is_ancestor(nodes, 0, b));
            } else {
                assert(is_ancestor(nodes, 0, a));
            }
        }
    }
    p
}

/// Backpropagating from a node other than the root adds one visit to
/// exactly one of the root's children.
proof fn lemma_sum_after_backprop<A>(before: Seq<Node<A>>, after: Seq<Node<A>>, from: int, wins: i32)
    requires
        links_ok(before),
        counts_before_backprop(before, from),
        0 < from,
        after.len() == before.len(),
        forall|j: int| 0 <= j < before.len() ==> #[trigger] after[j] == if is_ancestor(before, from, j) {
            updated(before[j], wins, 1)
        } else {
            before[j]
        },
    ensures
        child_visit_sum(after, before[0].children@) == child_visit_sum(before, before[0].children@) + 1,
{
    let ch = before[0].children@;
    let p = lemma_one_root_child(before, from);
    assert forall|k: int| 0 <= k < ch.len() implies {
        let c = #[trigger] ch[k].1 as int;
        &&& 0 < c < before.len()
        &&& after[c].visits == before[c].visits + if k == p { 1int } else { 0int }
    } by {
        let c = ch[k].1 as int;
        assert(0 < c < before.len());
        assert(before[c].visits <= before[0].visits);
    }
    assert(after[ch[p].1 as int].visits == before[ch[p].1 as int].visits + 1);
    lemma_sum_bump(before, after, ch, p);
}

/// Expanding a new child of the root and backpropagating from it adds that
/// child, with one visit, and leaves the root's other children alone.
proof fn lemma_sum_after_root_expansion<A>(
    start: Seq<Node<A>>,
    mid: Seq<Node<A>>,
    after: Seq<Node<A>>,
    leaf: int,
    entry: (A, Index),
    wins: i32,
)
    requires
        links_ok(start),
        links_ok(mid),
        leaf == start.len(),
        mid.len() == leaf + 1,
        entry.1 as int == leaf,
        mid[leaf].parent == Some(0usize),
        mid[leaf].visits == 0,
        mid[0].children@ == start[0].children@.push(entry),
        forall|j: int| 0 < j < start.len() ==> #[trigger] mid[j] == start[j],
        after.len() == mid.len(),
        forall|j: int| 0 <= j < mid.len() ==> #[trigger] after[j] == if is_ancestor(mid, leaf, j) {
            updated(mid[j], wins, 1)
        } else {
            mid[j]
        },
    ensures
        child_visit_sum(after, mid[0].children@) == child_visit_sum(start, start[0].children@) + 1,
{
    let ch = start[0].children@;
    assert forall|k: int| 0 <= k < ch.len() implies #[trigger] after[ch[k].1 as int].visits
        == start[ch[k].1 as int].visits by {
        let c = ch[k].1 as int;
        assert(0 < c < start.len());
        assert(!is_ancestor(mid, 0, c));
        assert(!is_ancestor(mid, leaf, c));
        assert(mid[c] == start[c]);
    }
    lemma_sum_same(after, start, ch);
    assert(is_ancestor(mid, leaf, leaf));
    assert(mid[0].children@.drop_last() =~= ch);
}

proof fn lemma_ancestor_precedes<A>(nodes: Seq<Node<A>>, i: int, j: int)
    requires
        is_ancestor(nodes, i, j),
    ensures
        j <= i,
    decreases i,
{
    if i != j {
        let p = nodes[i].parent->Some_0;
        lemma_ancestor_precedes(nodes, p as int, j);
    }
}

proof fn lemma_ancestor_trans<A>(nodes: Seq<Node<A>>, i: int, k: int, j: int)
    requires
        is_ancestor(nodes, i, k),
        is_ancestor(nodes, k, j),
    ensures
        is_ancestor(nodes, i, j),
    decreases i,
{
    if i != k {
        let p = nodes[i].parent->Some_0;
        lemma_ancestor_trans(nodes, p as int, k, j);
    }
}

/// Following parent links from any node of a well-linked arena reaches the
/// root.
pub proof fn lemma_reaches_root<A>(nodes: Seq<Node<A>>, i: int)
    requires
        links_ok(nodes),
        0 <= i < nodes.len(),
    ensures
        is_ancestor(nodes, i, 0),
    decreases i,
{
    if i != 0 {
        assert(nodes[i].parent matches Some(p) && p < i);
        let p = nodes[i].parent->Some_0;
        lemma_reaches_root(nodes, p as int);
    }
}

/// `keys[m]` is a score that `score` may give the child of `nodes[index]`
/// reached by `legal[m]`, for each `m`.
pub open spec fn scores_ok<A, S: Fn(i64, u32, u32) -> i64>(
    score: S,
    nodes: Seq<Node<A>>,
    index: int,
    legal: Seq<A>,
    keys: Seq<i64>,
) -> bool {
    &&& keys.len() == legal.len()
    &&& forall|m: int|
        0 <= m < legal.len() ==> ((#[trigger] nodes[index].child_spec(legal[m])) matches Some(c)
            && score.ensures((nodes[c as int].wins, nodes[c as int].visits, nodes[index].visits), keys[m]))
}

/// `legal[k]` is the move selection takes at `nodes[index]`: the first one
/// of largest score among the children that the legal moves reach.
pub open spec fn is_best_move<A, S: Fn(i64, u32, u32) -> i64>(
    score: S,
    nodes: Seq<Node<A>>,
    index: int,
    legal: Seq<A>,
    k: int,
) -> bool {
    &&& 0 <= k < legal.len()
    &&& exists|keys: Seq<i64>|
        #[trigger] scores_ok(score, nodes, index, legal, keys) && (forall|m: int|
            0 <= m < legal.len() ==> keys[m] <= keys[k]) && (forall|m: int| 0 <= m < k ==> keys[m] < keys[k])
}

/// One step of selection: from the unfinished `state` at a node whose legal
/// moves are all expanded, take the best move to its child `next_index`,
/// reaching `next_state`.
pub open spec fn select_step<T: Environment, S: Fn(i64, u32, u32) -> i64>(
    score: S,
    nodes: Seq<Node<T::Action>>,
    state: T,
    index: int,
    next_state: T,
    next_index: int,
) -> bool {
    &&& !state.finished()
    &&& forall|m: int| 0 <= m < state.legal().len() ==> nodes[index].has_child(#[trigger] state.legal()[m])
    &&& exists|k: int|
        #[trigger] is_best_move(score, nodes, index, state.legal(), k) && nodes[index].child_spec(state.legal()[k])
            == Some(next_index as usize) && state.moves_to(state.legal()[k], next_state)
}

/// Selection stops at `nodes[index]` with `state`: the position is finished
/// or one of its legal moves is not expanded.
pub open spec fn select_stops<T: Environment>(nodes: Seq<Node<T::Action>>, state: T, index: int) -> bool {
    state.finished() || exists|m: int|
        0 <= m < state.legal().len() && !nodes[index].has_child(#[trigger] state.legal()[m])
}

/// `path` (node indices from the root) with `states` (the position at each)
/// is a run of selection steps.
pub open spec fn is_descent<T: Environment, S: Fn(i64, u32, u32) -> i64>(
    score: S,
    nodes: Seq<Node<T::Action>>,
    path: Seq<int>,
    states: Seq<T>,
) -> bool {
    &&& path.len() >= 1
    &&& states.len() == path.len()
    &&& path[0] == 0
    &&& forall|j: int|
        0 <= j < path.len() - 1 ==> #[trigger] select_step(score, nodes, states[j], path[j], states[j + 1], path[j + 1])
}

proof fn lemma_child_in_arena<A>(nodes: Seq<Node<A>>, i: int, action: A)
    requires
        links_ok(nodes),
        0 <= i < nodes.len(),
        nodes[i].has_child(action),
    ensures
        nodes[i].child_spec(action) matches Some(c) && i < c < nodes.len() && nodes[c as int].parent
            == Some(i as usize),
{
    let k = choose|k: int| 0 <= k < nodes[i].children@.len() && #[trigger] nodes[i].children@[k].0 == action;
    let c = nodes[i].children@[k].1;
}

/// A search tree over positions of `T`: an arena of nodes whose index 0 is
/// the root, the root's position, and the search settings.
pub struct Tree<T: Environment + Copy> {
    nodes: Vec<Node<T::Action>>,
    root_state: T,
    root_index: Index,
    config: Config,
}

impl<T: Environment + Copy> Tree<T> {
    /// The arena, root first.
    pub closed spec fn arena(&self) -> Seq<Node<T::Action>> {
        self.nodes@
    }

    /// The position at the root.
    pub closed spec fn root_position(&self) -> T {
        self.root_state
    }

    pub closed spec fn settings(&self) -> Config {
        self.config
    }

    /// The arena is well linked and its counts are consistent.
    pub closed spec fn wf(&self) -> bool {
        &&& self.root_index == 0
        &&& links_ok(self.nodes@)
        &&& counts_ok(self.nodes@)
        &&& root_expansion_ok(self.nodes@, self.root_state)
        &&& !self.root_state.finished() ==> child_visit_sum(self.nodes@, self.nodes@[0].children@)
            == self.nodes@[0].visits
    }

    /// Visits of the root: the number of completed iterations.
    pub open spec fn root_visits(&self) -> u32 {
        self.arena()[0].visits
    }

    /// Each iteration adds at most one node: the arena never holds more than
    /// one node beyond the number of completed iterations.
    pub proof fn lemma_arena_bound(&self)
        requires
            self.wf(),
        ensures
            1 <= self.arena().len() <= self.root_visits() + 1,
    {
    }

    /// With an unfinished root, each completed iteration passed through
    /// exactly one child of the root: the root's visits are the sum of its
    /// children's.
    pub proof fn lemma_root_visits_split(&self)
        requires
            self.wf(),
            !self.root_position().finished(),
        ensures
            child_visit_sum(self.arena(), self.arena()[0].children@) == self.root_visits(),
    {
    }

    /// Each child link points forward to a node whose parent link points
    /// back.
    pub proof fn lemma_child_links(&self, i: int, k: int)
        requires
            self.wf(),
            0 <= i < self.arena().len(),
            0 <= k < self.arena()[i].children@.len(),
        ensures
            i < self.arena()[i].children@[k].1 < self.arena().len(),
            self.arena()[self.arena()[i].children@[k].1 as int].parent == Some(i as usize),
    {
        let c = self.nodes@[i].children@[k].1;
        assert(i < c < self.nodes@.len());
    }

    /// Every node's parent precedes it, only the root has none, and
    /// following parent links from any node ends at the root.
    pub proof fn lemma_parent_links(&self, i: int)
        requires
            self.wf(),
            0 <= i < self.arena().len(),
        ensures
            self.arena()[i].parent is None <==> i == 0,
            self.arena()[i].parent matches Some(p) ==> p < i,
            is_ancestor(self.arena(), i, 0),
    {
        if i > 0 {
            assert(self.nodes@[i].parent matches Some(p) && p < i);
        }
        lemma_reaches_root(self.nodes@, i);
    }

    /// Every node linked as a child has been visited, so its mean reward is
    /// defined whenever selection reads it.
    pub proof fn lemma_children_visited(&self, i: int, k: int)
        requires
            self.wf(),
            0 <= i < self.arena().len(),
            0 <= k < self.arena()[i].children@.len(),
        ensures
            self.arena()[self.arena()[i].children@[k].1 as int].visits >= 1,
    {
        let c = self.nodes@[i].children@[k].1;
        assert(i < c < self.nodes@.len());
    }

    /// A tree whose root position is finished never expands its root.
    pub proof fn lemma_finished_root_unexpanded(&self)
        requires
            self.wf(),
            self.root_position().finished(),
        ensures
            self.arena()[0].children@.len() == 0,
    {
    }

    /// The root's expanded moves are the first legal moves of the root
    /// position, one per completed iteration until all are expanded.
    pub proof fn lemma_root_expansion(&self)
        requires
            self.wf(),
        ensures
            root_expansion_ok(self.arena(), self.root_position()),
    {
    }

    /// Two trees over the same root position with the same number of
    /// completed iterations have expanded the same root moves, in the same
    /// order, whatever their playouts returned.
    pub proof fn lemma_same_root_moves(a: &Self, b: &Self)
        requires
            a.wf(),
            b.wf(),
            a.root_position() == b.root_position(),
            a.root_visits() == b.root_visits(),
        ensures
            a.arena()[0].children@.map_values(|e: (T::Action, Index)| e.0)
                == b.arena()[0].children@.map_values(|e: (T::Action, Index)| e.0),
    {
        assert(a.arena()[0].children@.map_values(|e: (T::Action, Index)| e.0)
            =~= b.arena()[0].children@.map_values(|e: (T::Action, Index)| e.0));
    }

    /// Number of nodes in the arena.
    pub fn arena_len(&self) -> (r: usize)
        ensures
            r == self.arena().len(),
    {
        self.nodes.len()
    }

    /// The node at `index` of the arena; index 0 is the root.
    pub fn node(&self, index: Index) -> (r: &Node<T::Action>)
        requires
            index < self.arena().len(),
        ensures
            *r == self.arena()[index as int],
    {
        &self.nodes[index]
    }

    /// A tree with a single unvisited root at `state`.
    pub fn new(state: T, config: Config) -> (r: Self)
        ensures
            r.wf(),
            r.arena().len() == 1,
            r.root_visits() == 0,
            r.arena()[0].wins == 0,
            r.arena()[0].parent is None,
            r.arena()[0].children@.len() == 0,
            r.root_position() == state,
            r.settings() == config,
    {
        let mut result = Tree {
            nodes: Vec::with_capacity(config.max_iters as usize),
            root_state: state,
            root_index: 0,
            config,
        };
        result.create_node();
        result
    }

    /// Appends a fresh node and returns its index.
    fn create_node(&mut self) -> (r: Index)
        ensures
            r == old(self).nodes@.len(),
            final(self).nodes@.len() == old(self).nodes@.len() + 1,
            final(self).nodes@.drop_last() == old(self).nodes@,
            final(self).nodes@[r as int].visits == 0,
            final(self).nodes@[r as int].wins == 0,
            final(self).nodes@[r as int].parent is None,
            final(self).nodes@[r as int].children@.len() == 0,
            final(self).root_state == old(self).root_state,
            final(self).root_index == old(self).root_index,
            final(self).config == old(self).config,
    {
        let index = self.nodes.len();
        self.nodes.push(Node::new());
        assert(self.nodes@.drop_last() =~= old(self).nodes@);
        index
    }

    /// The snapshot of the root's expanded actions at iteration `iter`.
    fn snapshot(&self, iter: u32) -> (r: Stats<T>)
        requires
            self.wf(),
        ensures
            is_snapshot(self.nodes@, iter, r),
    {
        let root = &self.nodes[self.root_index];
        let mut actions: Vec<(T::Action, u32)> = Vec::new();
        let mut k: usize = 0;
        while k < root.children.len()
            invariant
                self.wf(),
                root == self.nodes@[0],
                k <= root.children@.len(),
                actions@.len() == k,
                forall|m: int| 0 <= m < k ==> #[trigger] actions@[m] == (
                    root.children@[m].0,
                    self.nodes@[root.children@[m].1 as int].visits,
                ),
            decreases root.children@.len() - k,
        {
            let (action, index) = root.children[k];
            proof {
                // Child links point into the arena.
                assert(self.nodes@[0].children@[k as int].1 < self.nodes@.len());
            }
            actions.push((action, self.nodes[index].visits));
            k = k + 1;
        }
        Stats { iters: iter, actions }
    }

    /// The snapshot due before iteration `iter`, if one is due.
    pub fn due_snapshot(&self, iter: u32) -> (r: Option<Stats<T>>)
        requires
            self.wf(),
            self.settings().callback_interval > 0,
        ensures
            (r is Some) == report_due(iter, self.settings()),
            r matches Some(s) ==> is_snapshot(self.arena(), iter, s),
    {
        if iter % self.config.callback_interval == 0 || iter == self.config.max_iters {
            Some(self.snapshot(iter))
        } else {
            None
        }
    }

    /// The position in `legal` of the first move whose child has the
    /// largest score.
    fn best_move<S: Fn(i64, u32, u32) -> i64>(
        &self,
        index: Index,
        legal: &Vec<T::Action>,
        kids: &Vec<Index>,
        score: &S,
    ) -> (r: usize)
        requires
            self.wf(),
            index < self.nodes@.len(),
            legal@.len() > 0,
            kids@.len() == legal@.len(),
            forall|m: int| 0 <= m < kids@.len() ==> #[trigger] kids@[m] < self.nodes@.len(),
            forall|m: int|
                0 <= m < legal@.len() ==> self.nodes@[index as int].child_spec(legal@[m]) == Some(
                    #[trigger] kids@[m],
                ),
            forall|w: i64, v: u32, p: u32| score.requires((w, v, p)),
        ensures
            is_best_move(*score, self.nodes@, index as int, legal@, r as int),
    {
        let parent_visits = self.nodes[index].visits;
        let mut best: usize = 0;
        let mut best_key = score(self.nodes[kids[0]].wins, self.nodes[kids[0]].visits, parent_visits);
        let ghost mut keys: Seq<i64> = seq![best_key];
        let mut k: usize = 1;
        while k < kids.len()
            invariant
                forall|m: int| 0 <= m < kids@.len() ==> #[trigger] kids@[m] < self.nodes@.len(),
                forall|w: i64, v: u32, p: u32| score.requires((w, v, p)),
                parent_visits == self.nodes@[index as int].visits,
                1 <= k <= kids@.len(),
                best < k,
                keys.len() == k,
                best_key == keys[best as int],
                forall|m: int| 0 <= m < k ==> keys[m] <= best_key,
                forall|m: int| 0 <= m < best ==> keys[m] < best_key,
                forall|m: int|
                    0 <= m < k ==> score.ensures(
                        (self.nodes@[kids@[m] as int].wins, self.nodes@[kids@[m] as int].visits, parent_visits),
                        #[trigger] keys[m],
                    ),
            decreases kids@.len() - k,
        {
            let key = score(self.nodes[kids[k]].wins, self.nodes[kids[k]].visits, parent_visits);
            proof {
                keys = keys.push(key);
            }
            if key > best_key {
                best = k;
                best_key = key;
            }
            k = k + 1;
        }
        proof {
            assert forall|m: int| 0 <= m < legal@.len() implies ((#[trigger] self.nodes@[index as int].child_spec(
                legal@[m])) matches Some(c) && score.ensures(
                (self.nodes@[c as int].wins, self.nodes@[c as int].visits, self.nodes@[index as int].visits),
                keys[m],
            )) by {
                assert(self.nodes@[index as int].child_spec(legal@[m]) == Some(kids@[m]));
                assert(score.ensures(
                    (self.nodes@[kids@[m] as int].wins, self.nodes@[kids@[m] as int].visits, parent_visits),
                    keys[m],
                ));
            }
            assert(scores_ok(*score, self.nodes@, index as int, legal@, keys));
        }
        best
    }

    /// Descends from the root, applying each move to `state`, while the
    /// position is unfinished and every legal move of the node has been
    /// expanded; at each step it takes the child with the largest score,
    /// the earliest legal move among equals. Returns the node reached;
    /// `state_depth` counts the steps.
    fn select<S: Fn(i64, u32, u32) -> i64>(&self, score: &S, state: &mut T, state_depth: &mut u32) -> (r: Index)
        requires
            self.wf(),
            *old(state_depth) == 0,
            forall|w: i64, v: u32, p: u32| score.requires((w, v, p)),
            obeys_concrete_eq::<T::Action>(),
        ensures
            exists|path: Seq<int>, states: Seq<T>|
                #[trigger] is_descent(*score, self.nodes@, path, states) && states[0] == *old(state)
                    && path.last() == r && states.last() == *final(state) && *final(state_depth) == path.len()
                    - 1,
            select_stops(self.nodes@, *final(state), r as int),
            r < self.nodes@.len(),
            *final(state_depth) <= r,
            !final(state).finished() ==> exists|k: int|
                0 <= k < final(state).legal().len() && !self.nodes@[r as int].has_child(
                    #[trigger] final(state).legal()[k],
                ),
            r == 0 ==> *final(state) == *old(state),
            old(state).finished() ==> r == 0,
            r != 0 ==> forall|k: int|
                0 <= k < old(state).legal().len() ==> self.nodes@[0].has_child(
                    #[trigger] old(state).legal()[k],
                ),
    {
        let mut index: usize = self.root_index;
        let ghost mut path: Seq<int> = seq![0int];
        let ghost mut states: Seq<T> = seq![*old(state)];
        loop
            invariant
                self.wf(),
                index < self.nodes@.len(),
                *state_depth <= index,
                forall|w: i64, v: u32, p: u32| score.requires((w, v, p)),
                obeys_concrete_eq::<T::Action>(),
                index == 0 ==> *state == *old(state),
                old(state).finished() ==> index == 0,
                index != 0 ==> forall|k: int|
                    0 <= k < old(state).legal().len() ==> self.nodes@[0].has_child(
                        #[trigger] old(state).legal()[k],
                    ),
                is_descent(*score, self.nodes@, path, states),
                states[0] == *old(state),
                path.last() == index,
                states.last() == *state,
                *state_depth == path.len() - 1,
            decreases self.nodes@.len() - index,
        {
            if state.has_finished() {
                return index;
            }
            let legal = state.legal_actions();
            let node = &self.nodes[index];
            proof {
                assert(node.distinct_actions());
            }
            // Children of the node along the legal moves, as long as each
            // move has been expanded.
            let mut kids: Vec<Index> = Vec::new();
            let mut k: usize = 0;
            while k < legal.len()
                invariant
                    self.wf(),
                    index < self.nodes@.len(),
                    node == self.nodes@[index as int],
                    node.distinct_actions(),
                    obeys_concrete_eq::<T::Action>(),
                    legal@ == state.legal(),
                    *state_depth <= index,
                    index == 0 ==> *state == *old(state),
                    old(state).finished() ==> index == 0,
                    index != 0 ==> forall|k: int|
                        0 <= k < old(state).legal().len() ==> self.nodes@[0].has_child(
                            #[trigger] old(state).legal()[k],
                        ),
                    is_descent(*score, self.nodes@, path, states),
                    states[0] == *old(state),
                    path.last() == index,
                    states.last() == *state,
                    *state_depth == path.len() - 1,
                    k <= legal@.len(),
                    kids@.len() == k,
                    forall|m: int| 0 <= m < k ==> node.child_spec(legal@[m]) == Some(#[trigger] kids@[m]),
                    forall|m: int| 0 <= m < k ==> index < #[trigger] kids@[m] < self.nodes@.len(),
                decreases legal@.len() - k,
            {
                match node.child(legal[k]) {
                    Some(c) => {
                        proof {
                            lemma_child_in_arena(self.nodes@, index as int, legal@[k as int]);
                        }
                        kids.push(c);
                    },
                    None => {
                        proof {
                            assert(!self.nodes@[index as int].has_child(state.legal()[k as int]));
                        }
                        return index;
                    },
                }
                k = k + 1;
            }
            // Every legal move has a child; an unfinished position has one.
            let best = self.best_move(index, &legal, &kids, score);
            let action = legal[best];
            let ghost prev = *state;
            proof {
                assert(index < kids@[best as int] < self.nodes@.len());
                assert(self.nodes@.len() <= self.nodes@[0].visits + 1);
                assert(state.legal()[best as int] == action);
                assert forall|m: int| 0 <= m < prev.legal().len() implies self.nodes@[index as int].has_child(
                    #[trigger] prev.legal()[m]) by {
                    assert(node.child_spec(legal@[m]) == Some(kids@[m]));
                }
                if index == 0 {
                    assert forall|k: int| 0 <= k < old(state).legal().len() implies self.nodes@[0].has_child(
                        #[trigger] old(state).legal()[k]) by {
                        assert(node.child_spec(legal@[k]) == Some(kids@[k]));
                    }
                }
            }
            state.perform_action(action);
            *state_depth = *state_depth + 1;
            proof {
                let next = kids@[best as int];
                assert(is_best_move(*score, self.nodes@, index as int, prev.legal(), best as int));
                assert(select_step(*score, self.nodes@, prev, index as int, *state, next as int));
                let old_path = path;
                let old_states = states;
                path = path.push(next as int);
                states = states.push(*state);
                assert forall|j: int| 0 <= j < path.len() - 1 implies #[trigger] select_step(
                    *score,
                    self.nodes@,
                    states[j],
                    path[j],
                    states[j + 1],
                    path[j + 1],
                ) by {
                    if j < old_path.len() - 1 {
                        assert(select_step(*score, self.nodes@, old_states[j], old_path[j], old_states[j + 1], old_path[j + 1]));
                    }
                }
            }
            index = kids[best];
        }
    }

    /// Expands the first legal move of `state` that the node at `index` has
    /// not tried: links a fresh node under it, applies the move to `state`,
    /// and returns the fresh node's index.
    fn expand(&mut self, index: Index, state: &mut T) -> (r: Index)
        requires
            links_ok(old(self).nodes@),
            index < old(self).nodes@.len(),
            obeys_concrete_eq::<T::Action>(),
            exists|k: int|
                0 <= k < old(state).legal().len() && !old(self).nodes@[index as int].has_child(
                    #[trigger] old(state).legal()[k],
                ),
        ensures
            r == old(self).nodes@.len(),
            final(self).nodes@.len() == old(self).nodes@.len() + 1,
            links_ok(final(self).nodes@),
            forall|j: int|
                0 <= j < old(self).nodes@.len() && j != index ==> #[trigger] final(self).nodes@[j]
                    == old(self).nodes@[j],
            final(self).nodes@[index as int].visits == old(self).nodes@[index as int].visits,
            final(self).nodes@[index as int].wins == old(self).nodes@[index as int].wins,
            final(self).nodes@[index as int].parent == old(self).nodes@[index as int].parent,
            exists|k: int|
                0 <= k < old(state).legal().len() && {
                    let a = #[trigger] old(state).legal()[k];
                    &&& !old(self).nodes@[index as int].has_child(a)
                    &&& old(state).moves_to(a, *final(state))
                    &&& forall|m: int| 0 <= m < k ==> old(self).nodes@[index as int].has_child(old(state).legal()[m])
                    &&& final(self).nodes@[index as int].children@ == old(self).nodes@[index as int].children@.push((a, r))
                },
            final(self).nodes@[r as int].visits == 0,
            final(self).nodes@[r as int].wins == 0,
            final(self).nodes@[r as int].parent == Some(index),
            final(self).nodes@[r as int].children@.len() == 0,
            final(self).root_state == old(self).root_state,
            final(self).root_index == old(self).root_index,
            final(self).config == old(self).config,
    {
        let legal = state.legal_actions();
        let ghost nodes0 = self.nodes@;
        proof {
            assert(nodes0[index as int].distinct_actions());
        }
        let mut k: usize = 0;
        while k < legal.len()
            invariant
                self.nodes@ == nodes0,
                links_ok(nodes0),
                index < nodes0.len(),
                obeys_concrete_eq::<T::Action>(),
                legal@ == old(state).legal(),
                k <= legal@.len(),
                forall|m: int| 0 <= m < k ==> nodes0[index as int].has_child(legal@[m]),
                exists|m: int| 0 <= m < legal@.len() && !nodes0[index as int].has_child(#[trigger] legal@[m]),
            ensures
                k < legal@.len(),
                !nodes0[index as int].has_child(legal@[k as int]),
            decreases legal@.len() - k,
        {
            if k + 1 == legal.len() {
                // The untried move exists, and all others have been tried.
                proof {
                    let m = choose|m: int| 0 <= m < legal@.len() && !nodes0[index as int].has_child(#[trigger] legal@[m]);
                    assert(m == k);
                }
                break;
            }
            if self.nodes[index].child(legal[k]).is_none() {
                break;
            }
            k = k + 1;
        }
        let action = legal[k];
        let new_index = self.create_node();
        self.nodes[new_index].set_parent(index);
        self.nodes[index].set_child(action, new_index);
        proof {
            let n = self.nodes@;
            assert(n[index as int].children@ =~= nodes0[index as int].children@.push((action, new_index)));
            assert forall|i: int| 0 < i < n.len() implies (#[trigger] n[i].parent matches Some(p) && p < i) by {
                if i < nodes0.len() {
                    assert(nodes0[i].parent matches Some(p) && p < i);
                }
            }
            assert forall|i: int| 0 <= i < n.len() implies (#[trigger] n[i]).distinct_actions() by {
                if i < nodes0.len() && i != index {
                    assert(nodes0[i].distinct_actions());
                }
            }
            assert forall|i: int, c: int| 0 <= i < n.len() && 0 <= c < n[i].children@.len() implies {
                let x = #[trigger] n[i].children@[c].1;
                &&& i < x < n.len()
                &&& n[x as int].parent == Some(i as usize)
            } by {
                if i < nodes0.len() && c < nodes0[i].children@.len() {
                    let x = nodes0[i].children@[c].1;
                    assert(i < x < nodes0.len() && nodes0[x as int].parent == Some(i as usize));
                    assert(x != new_index);
                }
            }
            assert forall|i: int, k: int, m: int|
                #![trigger n[i].children@[k], n[i].children@[m]]
                0 <= i < n.len() && 0 <= k < m < n[i].children@.len() implies n[i].children@[k].1
                    != n[i].children@[m].1 by {
                if i < nodes0.len() {
                    if m < nodes0[i].children@.len() {
                        assert(nodes0[i].children@[k].1 != nodes0[i].children@[m].1);
                    } else {
                        let x = nodes0[i].children@[k].1;
                        assert(x < nodes0.len());
                    }
                }
            }
            assert forall|x: int| 0 < x < n.len() implies (#[trigger] n[x].parent matches Some(p)
                && n[p as int].lists(x)) by {
                if x == new_index {
                    let m = nodes0[index as int].children@.len() as int;
                    assert(n[index as int].children@[m].1 == x);
                } else {
                    assert(nodes0[x].parent matches Some(p) && nodes0[p as int].lists(x));
                    let p = nodes0[x].parent->Some_0;
                    let k = choose|k: int| 0 <= k < nodes0[p as int].children@.len()
                        && #[trigger] nodes0[p as int].children@[k].1 as int == x;
                    if p == index {
                        assert(n[p as int].children@[k] == nodes0[p as int].children@[k]);
                    }
                }
            }
            assert(legal@[k as int] == old(state).legal()[k as int]);
        }
        state.perform_action(action);
        new_index
    }

    /// Plays uniformly random legal moves from `state`, at most `max_depth`
    /// of them or until the position is finished, and returns the reward of
    /// the position reached: a playout for some picks, whatever was drawn.
    fn simulation(&self, state: T, max_depth: u32) -> (r: i32)
        ensures
            exists|picks: Seq<usize>, end: T|
                playout_ends(state, picks, max_depth as nat, end) && r == end.reward(),
    {
        let mut cur = state;
        let mut depth: u32 = 0;
        let ghost drawn: Seq<usize> = Seq::empty();
        while !cur.has_finished() && depth < max_depth
            invariant
                depth <= max_depth,
                forall|rest: Seq<usize>, end: T|
                    playout_ends(cur, rest, (max_depth - depth) as nat, end) ==> #[trigger] playout_ends(
                        state,
                        drawn + rest,
                        max_depth as nat,
                        end,
                    ),
            decreases max_depth - depth,
        {
            let legal_actions = cur.legal_actions();
            let random_index = random_below(legal_actions.len());
            let action = legal_actions[random_index];
            let ghost prev = cur;
            proof {
                vstd::arithmetic::div_mod::lemma_small_mod(random_index as nat, legal_actions@.len());
                assert(prev.legal()[(random_index as int) % (prev.legal().len() as int)] == action);
            }
            cur.perform_action(action);
            proof {
                lemma_playout_step(prev, random_index, cur, (max_depth - depth) as nat);
                assert forall|rest: Seq<usize>, end: T|
                    playout_ends(cur, rest, (max_depth - (depth + 1)) as nat, end) implies #[trigger] playout_ends(
                    state,
                    drawn.push(random_index) + rest,
                    max_depth as nat,
                    end,
                ) by {
                    assert(playout_ends(prev, seq![random_index] + rest, (max_depth - depth) as nat, end));
                    assert(drawn + (seq![random_index] + rest) =~= drawn.push(random_index) + rest);
                }
                drawn = drawn.push(random_index);
            }
            depth = depth + 1;
        }
        proof {
            let none = Seq::<usize>::empty();
            assert(playout_ends(cur, none, (max_depth - depth) as nat, cur));
            assert(playout_ends(state, drawn + none, max_depth as nat, cur));
            assert(drawn + none =~= drawn);
        }
        let r = cur.eval();
        proof {
            assert(playout_ends(state, drawn, max_depth as nat, cur) && r == cur.reward());
        }
        r
    }

    /// Adds `wins` and `visits` to the node at `index` and to each node on
    /// its path of parent links, the root included.
    fn backpropagate(&mut self, wins: i32, visits: u32, index: Index)
        requires
            links_ok(old(self).nodes@),
            index < old(self).nodes@.len(),
            forall|j: int|
                0 <= j < old(self).nodes@.len() && is_ancestor(old(self).nodes@, index as int, j) ==> {
                    &&& (#[trigger] old(self).nodes@[j]).visits + visits <= u32::MAX
                    &&& i64::MIN <= old(self).nodes@[j].wins + wins <= i64::MAX
                },
        ensures
            final(self).nodes@.len() == old(self).nodes@.len(),
            forall|j: int|
                0 <= j < old(self).nodes@.len() ==> #[trigger] final(self).nodes@[j] == if is_ancestor(
                    old(self).nodes@,
                    index as int,
                    j,
                ) {
                    updated(old(self).nodes@[j], wins, visits)
                } else {
                    old(self).nodes@[j]
                },
            final(self).root_state == old(self).root_state,
            final(self).root_index == old(self).root_index,
            final(self).config == old(self).config,
    {
        let ghost nodes0 = self.nodes@;
        let mut cursor: usize = index;
        proof {
            assert forall|j: int| 0 <= j < nodes0.len() implies #[trigger] self.nodes@[j] == if is_ancestor(
                nodes0, index as int, j) && !is_ancestor(nodes0, cursor as int, j) {
                updated(nodes0[j], wins, visits)
            } else {
                nodes0[j]
            } by {}
        }
        loop
            invariant_except_break
                forall|j: int|
                    0 <= j < nodes0.len() ==> #[trigger] self.nodes@[j] == if is_ancestor(nodes0, index as int, j)
                        && !is_ancestor(nodes0, cursor as int, j) {
                        updated(nodes0[j], wins, visits)
                    } else {
                        nodes0[j]
                    },
            invariant
                links_ok(nodes0),
                cursor < nodes0.len(),
                self.nodes@.len() == nodes0.len(),
                is_ancestor(nodes0, index as int, cursor as int),
                forall|j: int|
                    0 <= j < nodes0.len() && is_ancestor(nodes0, index as int, j) ==> {
                        &&& (#[trigger] nodes0[j]).visits + visits <= u32::MAX
                        &&& i64::MIN <= nodes0[j].wins + wins <= i64::MAX
                    },
                self.root_state == old(self).root_state,
                self.root_index == old(self).root_index,
                self.config == old(self).config,
            ensures
                self.nodes@.len() == nodes0.len(),
                forall|j: int|
                    0 <= j < nodes0.len() ==> #[trigger] self.nodes@[j] == if is_ancestor(nodes0, index as int, j) {
                        updated(nodes0[j], wins, visits)
                    } else {
                        nodes0[j]
                    },
                self.root_state == old(self).root_state,
                self.root_index == old(self).root_index,
                self.config == old(self).config,
            decreases cursor,
        {
            let ghost before = self.nodes@;
            assert(self.nodes@[cursor as int] == nodes0[cursor as int]);
            self.nodes[cursor].update(wins, visits);
            match self.nodes[cursor].parent {
                Some(p) => {
                    proof {
                        assert(cursor != 0);
                        assert(p < cursor);
                        assert forall|j: int| 0 <= j < nodes0.len() implies #[trigger] self.nodes@[j]
                            == if is_ancestor(nodes0, index as int, j) && !is_ancestor(nodes0, p as int, j) {
                            updated(nodes0[j], wins, visits)
                        } else {
                            nodes0[j]
                        } by {
                            if is_ancestor(nodes0, p as int, j) {
                                lemma_ancestor_precedes(nodes0, p as int, j);
                            }
                        }
                        assert(nodes0[cursor as int].parent == Some(p));
                        assert(is_ancestor(nodes0, p as int, p as int));
                        assert(is_ancestor(nodes0, cursor as int, p as int));
                        lemma_ancestor_trans(nodes0, index as int, cursor as int, p as int);
                    }
                    cursor = p;
                },
                None => {
                    proof {
                        assert(cursor == 0);
                        assert forall|j: int| 0 <= j < nodes0.len() implies #[trigger] self.nodes@[j]
                            == if is_ancestor(nodes0, index as int, j) {
                            updated(nodes0[j], wins, visits)
                        } else {
                            nodes0[j]
                        } by {
                            if is_ancestor(nodes0, index as int, j) && j != 0 {
                                assert(!is_ancestor(nodes0, 0, j));
                            }
                        }
                    }
                    break;
                },
            }
        }
    }

    /// One iteration of the search: selection from the root, then, unless
    /// the position reached is finished or deeper than `max_depth`,
    /// expansion of its first untried move and a random playout; the reward
    /// obtained is backpropagated from the node reached to the root.
    #[verifier::rlimit(60)]
    pub fn iterate<S: Fn(i64, u32, u32) -> i64>(&mut self, score: &S)
        requires
            old(self).wf(),
            old(self).root_visits() < u32::MAX,
            forall|w: i64, v: u32, p: u32| score.requires((w, v, p)),
            obeys_concrete_eq::<T::Action>(),
        ensures
            final(self).wf(),
            final(self).root_position() == old(self).root_position(),
            final(self).settings() == old(self).settings(),
            final(self).root_visits() == old(self).root_visits() + 1,
            final(self).arena().len() <= old(self).arena().len() + 1,
            final(self).arena()[0].children@.len() >= old(self).arena()[0].children@.len(),
            old(self).root_position().finished() ==> {
                &&& final(self).arena().len() == old(self).arena().len()
                &&& final(self).arena()[0].children == old(self).arena()[0].children
                &&& final(self).arena()[0].wins == old(self).arena()[0].wins + old(self).root_position().reward()
            },
            iteration_step(
                *score,
                old(self).arena(),
                final(self).arena(),
                old(self).root_position(),
                old(self).settings().max_depth,
            ),
    {
        proof {
            self.root_state.lemma_legal_distinct();
        }
        let mut state = self.root_state;
        let mut state_depth: u32 = 0;
        let index = self.select(score, &mut state, &mut state_depth);
        if state.has_finished() || state_depth > self.config.max_depth {
            let reward = state.eval();
            let ghost before = self.nodes@;
            proof {
                assert(counts_before_backprop(before, index as int));
            }
            self.backpropagate(reward, 1, index);
            proof {
                lemma_backprop_counts(before, self.nodes@, index as int, reward);
                lemma_reaches_root(before, index as int);
                assert(self.nodes@[0] == updated(before[0], reward, 1));
                let (path, states) = choose|path: Seq<int>, states: Seq<T>|
                    #[trigger] is_descent(*score, before, path, states) && states[0] == self.root_state
                        && path.last() == index && states.last() == state && state_depth == path.len() - 1;
                assert(is_descent(*score, before, path, states));
                assert(self.nodes@[0].wins - before[0].wins == state.reward());
                assert(before == old(self).nodes@);
                let after = self.nodes@;
                assert forall|j: int| 0 <= j < before.len() implies {
                    &&& (#[trigger] after[j]).parent == before[j].parent
                    &&& after[j].visits == before[j].visits + if is_ancestor(before, index as int, j) {
                        1int
                    } else {
                        0int
                    }
                    &&& after[j].wins == before[j].wins + if is_ancestor(before, index as int, j) {
                        reward as int
                    } else {
                        0int
                    }
                    &&& after[j].children == before[j].children
                } by {}
                assert(backed_up(before, after, index as int, state.reward() as int));
                assert(iteration_step(*score, before, after, self.root_state, self.config.max_depth));
                if !self.root_state.finished() {
                    lemma_root_full(before, self.root_state);
                    lemma_sum_after_backprop(before, after, index as int, reward);
                }
                assert(self.nodes@[0].children == before[0].children);
            }
        } else {
            let ghost start = self.nodes@;
            let ghost pre_state = state;
            let leaf = self.expand(index, &mut state);
            let rollout_depth = self.config.max_depth - state_depth;
            let ghost leaf_state = state;
            let reward = self.simulation(state, rollout_depth);
            let ghost before = self.nodes@;
            proof {
                assert forall|i: int| 0 <= i < before.len() implies {
                    &&& (#[trigger] before[i]).visits <= before[0].visits
                    &&& -reward_bound(before[i].visits) <= before[i].wins <= reward_bound(before[i].visits)
                    &&& 0 < i && i != leaf ==> before[i].visits >= 1
                } by {
                    if i < start.len() {
                        assert(start[i].visits <= start[0].visits);
                        assert(-reward_bound(start[i].visits) <= start[i].wins <= reward_bound(start[i].visits));
                    }
                }
                assert(counts_before_backprop(before, leaf as int));
            }
            self.backpropagate(reward, 1, leaf);
            proof {
                lemma_backprop_counts(before, self.nodes@, leaf as int, reward);
                lemma_reaches_root(before, leaf as int);
                assert(self.nodes@[0] == updated(before[0], reward, 1));
                let (path, states) = choose|path: Seq<int>, states: Seq<T>|
                    #[trigger] is_descent(*score, start, path, states) && states[0] == self.root_state
                        && path.last() == index && states.last() == pre_state && state_depth == path.len()
                        - 1;
                assert(is_descent(*score, start, path, states));
                let k = choose|k: int|
                    0 <= k < pre_state.legal().len() && {
                        let a = #[trigger] pre_state.legal()[k];
                        &&& !start[index as int].has_child(a)
                        &&& pre_state.moves_to(a, leaf_state)
                        &&& forall|m: int| 0 <= m < k ==> start[index as int].has_child(pre_state.legal()[m])
                        &&& before[index as int].children@ == start[index as int].children@.push((a, leaf))
                    };
                let (picks, end) = choose|picks: Seq<usize>, end: T|
                    playout_ends(leaf_state, picks, rollout_depth as nat, end) && reward == end.reward();
                assert(pre_state.moves_to(pre_state.legal()[k], leaf_state));
                assert(playout_ends(leaf_state, picks, rollout_depth as nat, end));
                assert(start == old(self).nodes@);
                assert(self.nodes@[0].wins - start[0].wins == reward);
                let st = states.last();
                let d = path.len() - 1;
                assert(st == pre_state && path.last() == index as int);
                assert((self.config.max_depth - d) as nat == rollout_depth as nat);
                assert(!(st.finished() || d > self.config.max_depth));
                assert(forall|m: int| 0 <= m < k ==> start[path.last()].has_child(st.legal()[m]));
                assert(st.moves_to(st.legal()[k], leaf_state));
                assert(playout_ends(leaf_state, picks, (self.config.max_depth - d) as nat, end));
                let after = self.nodes@;
                let lf = leaf as int;
                assert(before[lf].parent == Some(index));
                assert forall|j: int| 0 <= j < start.len() implies {
                    &&& (#[trigger] after[j]).parent == start[j].parent
                    &&& after[j].visits == start[j].visits + if is_ancestor(start, index as int, j) {
                        1int
                    } else {
                        0int
                    }
                    &&& after[j].wins == start[j].wins + if is_ancestor(start, index as int, j) {
                        reward as int
                    } else {
                        0int
                    }
                    &&& j != index ==> after[j].children == start[j].children
                } by {
                    assert forall|m: int| 0 <= m <= index implies (#[trigger] before[m]).parent
                        == start[m].parent by {
                        if m != index {
                            assert(before[m] == start[m]);
                        }
                    }
                    lemma_ancestor_same_parents(before, start, index as int, j);
                    assert(is_ancestor(before, lf, j) == is_ancestor(before, index as int, j));
                    if j != index {
                        assert(before[j] == start[j]);
                    }
                }
                assert(backed_up(start, after, index as int, end.reward() as int));
                assert(after[lf] == updated(before[lf], reward, 1));
                assert(iteration_step(*score, start, after, self.root_state, self.config.max_depth));
                assert(self.nodes@[0].children == before[0].children);
                if index == 0 {
                    let k = choose|k: int|
                        0 <= k < pre_state.legal().len() && {
                            let a = #[trigger] pre_state.legal()[k];
                            &&& !start[0].has_child(a)
                            &&& forall|m: int| 0 <= m < k ==> start[0].has_child(pre_state.legal()[m])
                            &&& before[0].children@ == start[0].children@.push((a, leaf))
                        };
                    lemma_root_untried(start, self.root_state, k);
                    lemma_sum_after_root_expansion(
                        start,
                        before,
                        after,
                        lf,
                        (pre_state.legal()[k], leaf),
                        reward,
                    );
                    assert forall|m: int| 0 <= m < self.nodes@[0].children@.len() implies
                        (#[trigger] self.nodes@[0].children@[m]).0 == self.root_state.legal()[m] by {
                        if m < start[0].children@.len() {
                            assert(start[0].children@[m].0 == self.root_state.legal()[m]);
                        }
                    }
                } else {
                    lemma_root_full(start, self.root_state);
                    if !self.root_state.finished() {
                        lemma_sum_after_backprop(before, after, lf, reward);
                        let ch = start[0].children@;
                        assert(before[0] == start[0]);
                        assert forall|m: int| 0 <= m < ch.len() implies #[trigger] before[ch[m].1 as int].visits
                            == start[ch[m].1 as int].visits by {
                            let c = ch[m].1 as int;
                            assert(0 < c < start.len());
                            if c != index {
                                assert(before[c] == start[c]);
                            }
                        }
                        lemma_sum_same(before, start, ch);
                    }
                }
            }
        }
    }

    /// Runs the whole search budget: `max_iters` calls of `iterate`, each an
    /// `iteration_step` of the arena, as `run_ok` records. Before iteration
    /// `i`
    /// (from 1) it hands `callback` a snapshot when `i` is a multiple of
    /// `callback_interval` or the last iteration.
    /// `score(wins, visits, parent_visits)` ranks a child during selection;
    /// the largest score wins, the earliest legal move among equals.
    pub fn compute<S: Fn(i64, u32, u32) -> i64, F: FnMut(Stats<T>)>(&mut self, score: S, callback: F)
        requires
            old(self).wf(),
            old(self).settings().callback_interval > 0,
            old(self).root_visits() + old(self).settings().max_iters <= u32::MAX,
            forall|w: i64, v: u32, p: u32| score.requires((w, v, p)),
            forall|s: Stats<T>| callback.requires((s,)),
            obeys_concrete_eq::<T::Action>(),
        ensures
            final(self).wf(),
            final(self).root_position() == old(self).root_position(),
            final(self).settings() == old(self).settings(),
            final(self).root_visits() == old(self).root_visits() + old(self).settings().max_iters,
            final(self).arena().len() <= old(self).arena().len() + old(self).settings().max_iters,
            old(self).root_position().finished() ==> {
                &&& final(self).arena().len() == old(self).arena().len()
                &&& final(self).arena()[0].children == old(self).arena()[0].children
                &&& final(self).arena()[0].wins == old(self).arena()[0].wins + old(self).settings().max_iters
                    * old(self).root_position().reward()
            },
            exists|history: Seq<Seq<Node<T::Action>>>, log: Seq<Stats<T>>|
                #[trigger] run_ok(
                    score,
                    callback,
                    old(self).root_position(),
                    old(self).settings(),
                    history,
                    log,
                    old(self).settings().max_iters as nat,
                ) && history[0] == old(self).arena() && history.last() == final(self).arena(),
    {
        let ghost callback0 = callback;
        let ghost mut history: Seq<Seq<Node<T::Action>>> = seq![self.nodes@];
        let ghost mut log: Seq<Stats<T>> = Seq::empty();
        let mut callback = callback;
        let max_iters = self.config.max_iters;
        let mut done: u32 = 0;
        while done < max_iters
            invariant
                self.wf(),
                self.root_state == old(self).root_state,
                self.config == old(self).config,
                max_iters == self.config.max_iters,
                self.config.callback_interval > 0,
                done <= max_iters,
                self.nodes@[0].visits == old(self).root_visits() + done,
                old(self).root_visits() + max_iters <= u32::MAX,
                self.nodes@.len() <= old(self).arena().len() + done,
                self.root_state.finished() ==> {
                    &&& self.nodes@.len() == old(self).arena().len()
                    &&& self.nodes@[0].children == old(self).arena()[0].children
                    &&& self.nodes@[0].wins == old(self).arena()[0].wins + done * self.root_state.reward()
                },
                forall|w: i64, v: u32, p: u32| score.requires((w, v, p)),
                forall|s: Stats<T>| callback.requires((s,)),
                callback == callback0,
                obeys_concrete_eq::<T::Action>(),
                history[0] == old(self).arena(),
                history[done as int] == self.nodes@,
                run_ok(score, callback0, self.root_state, self.config, history, log, done as nat),
            decreases max_iters - done,
        {
            let iter = done + 1;
            proof {
                self.root_state.lemma_legal_distinct();
            }
            let ghost root_wins = self.nodes@[0].wins;
            let ghost log0 = log;
            match self.due_snapshot(iter) {
                Some(stats) => {
                    let ghost reported = stats;
                    callback(stats);
                    proof {
                        assert(call_ensures(callback0, (reported,), ()));
                        log = log.push(reported);
                    }
                },
                None => {},
            }
            self.iterate(&score);
            proof {
                let h = history.push(self.nodes@);
                let due = due_upto(iter as nat, self.config);
                assert(due == due_upto(done as nat, self.config) + if report_due(iter, self.config) {
                    seq![iter]
                } else {
                    Seq::empty()
                });
                assert forall|i: int| 0 <= i < iter implies #[trigger] iteration_step(
                    score,
                    h[i],
                    h[i + 1],
                    self.root_state,
                    self.config.max_depth,
                ) by {
                    if i < done {
                        assert(h[i] == history[i] && h[i + 1] == history[i + 1]);
                    }
                }
                assert forall|j: int| 0 <= j < log.len() implies {
                    &&& (#[trigger] log[j]).iters == due[j]
                    &&& call_ensures(callback0, (log[j],), ())
                    &&& 1 <= log[j].iters <= iter
                    &&& is_snapshot(h[log[j].iters - 1], log[j].iters, log[j])
                } by {
                    if j < log0.len() {
                        assert(log[j] == log0[j]);
                        assert(h[log[j].iters - 1] == history[log[j].iters - 1]);
                    }
                }
                assert forall|i: int| 0 <= i <= iter implies #[trigger] h[i][0].children == h[0][0].children
                    || !self.root_state.finished() by {
                    if i < iter {
                        assert(h[i] == history[i]);
                    }
                }
                history = h;
                assert(run_ok(score, callback0, self.root_state, self.config, history, log, iter as nat));
            }
            proof {
                if self.root_state.finished() {
                    assert(self.nodes@[0].wins == root_wins + self.root_state.reward());
                    assert((done + 1) * self.root_state.reward() == done * self.root_state.reward()
                        + self.root_state.reward()) by (nonlinear_arith);
                }
            }
            done = iter;
        }
    }
}

} // verus!
