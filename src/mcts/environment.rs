use vstd::prelude::*;

verus! {

/// A decision problem that the search explores: positions, the moves legal
/// in each, and the reward of a final position.
///
/// Implementations promise that an unfinished position has at least one
/// legal move, and that no move is listed twice.
pub trait Environment: Sized {
    /// A move: a small token, compared for equality.
    type Action: Copy + Eq + core::hash::Hash + core::fmt::Debug + Send + Sync;

    /// Whether no further move is to be made.
    spec fn finished(&self) -> bool;

    /// The legal moves, in the order in which the search tries them.
    spec fn legal(&self) -> Seq<Self::Action>;

    /// The reward of the position.
    spec fn reward(&self) -> i32;

    /// `next` is a position that `action` can lead to from this one: the
    /// only one where moves are deterministic, one of several where a move
    /// also draws at random.
    spec fn moves_to(&self, action: Self::Action, next: Self) -> bool;

    /// The legal moves are distinct.
    proof fn lemma_legal_distinct(&self)
        ensures
            self.legal().no_duplicates(),
    ;

    fn has_finished(&self) -> (r: bool)
        ensures
            r == self.finished(),
    ;

    /// Applies a legal move in place.
    fn perform_action(&mut self, action: Self::Action)
        requires
            old(self).legal().contains(action),
        ensures
            old(self).moves_to(action, *final(self)),
    ;

    fn legal_actions(&self) -> (r: Vec<Self::Action>)
        ensures
            r@ == self.legal(),
            !self.finished() ==> r@.len() > 0,
    ;

    /// The reward of the position, taken as it is by the search.
    fn eval(&self) -> (r: i32)
        ensures
            r == self.reward(),
    ;
}

} // verus!
