use vstd::prelude::*;

verus! {

/// The state after feeding `bytes` to a hasher in state `state`: each byte
/// is shifted in at the low end, and high bits fall off.
pub open spec fn absorb(state: u64, bytes: Seq<u8>) -> u64
    decreases bytes.len(),
{
    if bytes.len() == 0 {
        state
    } else {
        (absorb(state, bytes.drop_last()) << 8u64) | (bytes.last() as u64)
    }
}

/// A hasher whose hash is the last eight bytes written, for keys that are
/// already small integers.
pub struct IdentityHasher {
    state: u64,
}

impl IdentityHasher {
    pub closed spec fn state_spec(&self) -> u64 {
        self.state
    }
}

impl std::hash::Hasher for IdentityHasher {
    fn write(&mut self, bytes: &[u8])
        ensures
            final(self).state_spec() == absorb(old(self).state_spec(), bytes@),
    {
        let mut i: usize = 0;
        while i < bytes.len()
            invariant
                i <= bytes@.len(),
                self.state == absorb(old(self).state, bytes@.take(i as int)),
            decreases bytes@.len() - i,
        {
            assert(bytes@.take(i + 1).drop_last() =~= bytes@.take(i as int));
            self.state = self.state << 8 | bytes[i] as u64;
            i = i + 1;
        }
        assert(bytes@.take(bytes@.len() as int) =~= bytes@);
    }

    fn finish(&self) -> (r: u64)
        ensures
            r == self.state_spec(),
    {
        self.state
    }
}

/// Builds identity hashers, for hash maps keyed by small integers.
pub struct BuildIdentityHasher;

impl std::hash::BuildHasher for BuildIdentityHasher {
    type Hasher = IdentityHasher;

    fn build_hasher(&self) -> (r: IdentityHasher)
        ensures
            r.state_spec() == 0,
    {
        IdentityHasher { state: 0 }
    }
}

} // verus!
