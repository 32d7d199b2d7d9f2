use vstd::laws_eq::obeys_concrete_eq;
use vstd::prelude::*;

verus! {

/// Index of a node in a search arena.
pub type Index = usize;

/// One vertex of a search tree: its statistics and its links, by arena index.
///
/// `children` pairs each expanded action with the arena index of the node it
/// leads to; no action occurs twice, and the order is the order of expansion.
/// A vector rather than a hash map: lookups scan a handful of moves, and the
/// order of expansion is what snapshots and tie-breaks follow.
pub struct Node<A> {
    pub visits: u32,
    /// The sum of the rewards backpropagated through the node; wide enough
    /// for `u32::MAX` rewards of any `i32`.
    pub wins: i64,
    pub parent: Option<Index>,
    pub children: Vec<(A, Index)>,
}

impl<A> Node<A> {
    /// No action labels two children.
    pub open spec fn distinct_actions(&self) -> bool {
        forall|i: int, j: int|
            0 <= i < j < self.children@.len() ==> self.children@[i].0 != self.children@[j].0
    }

    /// `action` labels one of the children.
    pub open spec fn has_child(&self, action: A) -> bool {
        exists|i: int| 0 <= i < self.children@.len() && #[trigger] self.children@[i].0 == action
    }

    /// Some child entry leads to the arena index `c`.
    pub open spec fn lists(&self, c: int) -> bool {
        exists|k: int| 0 <= k < self.children@.len() && #[trigger] self.children@[k].1 as int == c
    }

    /// The arena index reached through `action`, if it has been expanded.
    pub open spec fn child_spec(&self, action: A) -> Option<Index> {
        if self.has_child(action) {
            let i = choose|i: int| 0 <= i < self.children@.len() && #[trigger] self.children@[i].0 == action;
            Some(self.children@[i].1)
        } else {
            None
        }
    }
}

impl<A: Copy + PartialEq> Node<A> {
    /// A fresh node: never visited, no reward, no parent, no children.
    pub fn new() -> (r: Self)
        ensures
            r.visits == 0,
            r.wins == 0,
            r.parent is None,
            r.children@.len() == 0,
    {
        Node { visits: 0, wins: 0, parent: None, children: Vec::new() }
    }

    /// Links this node under the node at `parent`.
    pub fn set_parent(&mut self, parent: Index)
        ensures
            final(self).parent == Some(parent),
            final(self).visits == old(self).visits,
            final(self).wins == old(self).wins,
            final(self).children == old(self).children,
    {
        self.parent = Some(parent);
    }

    /// Position in `children` of the entry for `action`, if any.
    fn position(&self, action: A) -> (r: Option<usize>)
        requires
            obeys_concrete_eq::<A>(),
        ensures
            match r {
                Some(i) => i < self.children@.len() && self.children@[i as int].0 == action,
                None => !self.has_child(action),
            },
    {
        let mut i: usize = 0;
        while i < self.children.len()
            invariant
                obeys_concrete_eq::<A>(),
                i <= self.children@.len(),
                forall|k: int| 0 <= k < i ==> self.children@[k].0 != action,
            decreases self.children@.len() - i,
        {
            proof {
                reveal(obeys_concrete_eq);
            }
            if self.children[i].0.eq(&action) {
                return Some(i);
            }
            i = i + 1;
        }
        None
    }

    /// The arena index reached through `action`, if it has been expanded.
    pub fn child(&self, action: A) -> (r: Option<Index>)
        requires
            obeys_concrete_eq::<A>(),
            self.distinct_actions(),
        ensures
            r == self.child_spec(action),
    {
        match self.position(action) {
            Some(i) => {
                proof {
                    let j = choose|j: int| 0 <= j < self.children@.len() && #[trigger] self.children@[j].0 == action;
                    assert(self.children@[j].0 == self.children@[i as int].0);
                }
                Some(self.children[i].1)
            },
            None => None,
        }
    }

    /// Records that `action` leads to the node at `child`, replacing an
    /// earlier entry for the same action.
    pub fn set_child(&mut self, action: A, child: Index)
        requires
            obeys_concrete_eq::<A>(),
            old(self).distinct_actions(),
        ensures
            final(self).distinct_actions(),
            final(self).visits == old(self).visits,
            final(self).wins == old(self).wins,
            final(self).parent == old(self).parent,
            old(self).has_child(action) ==> final(self).children@.len() == old(self).children@.len(),
            !old(self).has_child(action) ==> final(self).children@ == old(self).children@.push((action, child)),
            forall|i: int| 0 <= i < old(self).children@.len() ==>
                #[trigger] final(self).children@[i] == if old(self).children@[i].0 == action {
                    (action, child)
                } else {
                    old(self).children@[i]
                },
    {
        match self.position(action) {
            Some(i) => {
                self.children.set(i, (action, child));
            },
            None => {
                self.children.push((action, child));
            },
        }
    }

    /// Adds `wins` to the accumulated reward and `visits` to the visit count.
    pub fn update(&mut self, wins: i32, visits: u32)
        requires
            old(self).visits + visits <= u32::MAX,
            i64::MIN <= old(self).wins + wins <= i64::MAX,
        ensures
            final(self).visits == old(self).visits + visits,
            final(self).wins == old(self).wins + wins,
            final(self).parent == old(self).parent,
            final(self).children == old(self).children,
    {
        self.wins = self.wins + wins as i64;
        self.visits = self.visits + visits;
    }
}

} // verus!
