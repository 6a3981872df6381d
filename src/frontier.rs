//! The prefix frontier: valid prefixes with the number of times each was
//! taken out for extension.

use vstd::prelude::*;

verus! {

/// A prefix of a coloring and how often it has been extended.
pub struct Prefix {
    pub count: usize,
    pub content: Vec<u8>,
}

impl View for Prefix {
    type V = (nat, Seq<u8>);

    open spec fn view(&self) -> (nat, Seq<u8>) {
        (self.count as nat, self.content@)
    }
}

/// Entry `a` is taken out before entry `b`: it has been used fewer times,
/// or as often and is longer.
pub open spec fn goes_first(a: (nat, Seq<u8>), b: (nat, Seq<u8>)) -> bool {
    a.0 < b.0 || (a.0 == b.0 && a.1.len() > b.1.len())
}

/// A collection of prefixes from which the least used, longest one is
/// taken out first.
pub struct PrefixFrontier {
    entries: Vec<Prefix>,
}

impl View for PrefixFrontier {
    type V = Seq<(nat, Seq<u8>)>;

    closed spec fn view(&self) -> Seq<(nat, Seq<u8>)> {
        self.entries@.map_values(|p: Prefix| p@)
    }
}

impl PrefixFrontier {
    /// An empty frontier.
    pub fn new() -> (r: PrefixFrontier)
        ensures
            r@ == Seq::<(nat, Seq<u8>)>::empty(),
    {
        let r = PrefixFrontier { entries: Vec::new() };
        assert(r@ =~= Seq::<(nat, Seq<u8>)>::empty());
        r
    }

    pub fn len(&self) -> (r: usize)
        ensures
            r == self@.len(),
    {
        self.entries.len()
    }

    /// Adds an entry.
    pub fn push(&mut self, p: Prefix)
        ensures
            final(self)@ == old(self)@.push(p@),
    {
        self.entries.push(p);
        assert(self@ =~= old(self)@.push(p@));
    }

    /// Takes out an entry that no other entry goes before: the lowest use
    /// count, and among those the longest content.
    pub fn pop_best(&mut self) -> (r: Prefix)
        requires
            old(self)@.len() > 0,
        ensures
            exists|i: int|
                0 <= i < old(self)@.len() && r@ == old(self)@[i] && final(self)@ == old(self)@.remove(i)
                    && forall|j: int| 0 <= j < old(self)@.len() ==> !goes_first(#[trigger] old(self)@[j], old(self)@[i]),
    {
        let n = self.entries.len();
        let mut best: usize = 0;
        let mut i: usize = 1;
        while i < n
            invariant
                n == self@.len() > 0,
                *self == *old(self),
                1 <= i <= n,
                0 <= best < i,
                forall|j: int| 0 <= j < i ==> !goes_first(#[trigger] self@[j], self@[best as int]),
            decreases n - i,
        {
            let e = &self.entries[i];
            let b = &self.entries[best];
            if e.count < b.count || (e.count == b.count && e.content.len() > b.content.len()) {
                proof {
                    assert(self@[i as int] == e@);
                    assert(self@[best as int] == b@);
                    assert(goes_first(self@[i as int], self@[best as int]));
                }
                best = i;
            } else {
                proof {
                    assert(self@[i as int] == e@);
                    assert(self@[best as int] == b@);
                }
            }
            i += 1;
        }
        let r = self.entries.remove(best);
        proof {
            assert(self@ =~= old(self)@.remove(best as int));
            assert(r@ == old(self)@[best as int]);
        }
        r
    }
}

} // verus!
