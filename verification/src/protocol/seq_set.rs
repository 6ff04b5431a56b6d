//! A set of sequence numbers.

use vstd::prelude::*;

verus! {

/// A set of sequence numbers, held in a `hashbrown::HashSet`.
#[verifier::external_body]
pub struct SeqSet {
    inner: hashbrown::HashSet<u32>,
}

/// The numbers in the set.
pub uninterp spec fn members(s: SeqSet) -> Set<u32>;

impl View for SeqSet {
    type V = Set<u32>;

    open spec fn view(&self) -> Set<u32> {
        members(*self)
    }
}

/// Whether `seq` is `bound` or more.
fn at_least(seq: u32, bound: u32) -> (b: bool)
    ensures
        b == (seq >= bound),
{
    seq >= bound
}

impl SeqSet {
    /// `HashSet::new`: the empty set.
    #[verifier::external_body]
    pub(crate) fn new() -> (s: Self)
        ensures
            members(s) == Set::<u32>::empty(),
    {
        SeqSet { inner: hashbrown::HashSet::new() }
    }

    /// `HashSet::insert`: adds `seq`, and tells whether it was not in the set before.
    #[verifier::external_body]
    pub(crate) fn insert(&mut self, seq: u32) -> (added: bool)
        ensures
            members(*final(self)) == members(*old(self)).insert(seq),
            added == !members(*old(self)).contains(seq),
    {
        self.inner.insert(seq)
    }

    /// `HashSet::contains`: whether `seq` is in the set.
    #[verifier::external_body]
    pub(crate) fn contains(&self, seq: u32) -> (b: bool)
        ensures
            b == members(*self).contains(seq),
    {
        self.inner.contains(&seq)
    }

    /// `HashSet::len`: how many numbers are in the set.
    #[verifier::external_body]
    pub(crate) fn len(&self) -> (n: usize)
        ensures
            n == members(*self).len(),
    {
        self.inner.len()
    }

    /// `HashSet::retain`: keeps the numbers from `bound` on.
    #[verifier::external_body]
    pub(crate) fn retain_from(&mut self, bound: u32)
        ensures
            members(*final(self)) == members(*old(self)).filter(|s: u32| s >= bound),
    {
        self.inner.retain(|s| at_least(*s, bound));
    }
}

} // verus!
