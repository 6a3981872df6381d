//! The ban list: for each later position, the colors that would close a
//! monochromatic triple there, given the colors placed so far.

use vstd::prelude::*;

verus! {

/// Color `c` is banned at position `p` (0-indexed) after the colors `w`:
/// some placed position `cur` and some `n <= cur` both hold `c`, and their
/// 1-indexed sum is `p + 1`.
pub open spec fn banned_after(w: Seq<u8>, p: int, c: u8) -> bool {
    exists|n: int, cur: int|
        0 <= n <= cur < w.len() && cur + n + 1 == p && #[trigger] w[n] == c && #[trigger] w[cur] == c
}

/// The lowest color in `from..k` that is not banned right after `w`.
pub open spec fn lowest_free(w: Seq<u8>, k: u8, from: int) -> Option<u8>
    decreases k - from,
{
    if from < 0 || from >= k {
        None
    } else if !banned_after(w, w.len() as int, from as u8) {
        Some(from as u8)
    } else {
        lowest_free(w, k, from + 1)
    }
}

/// The color placed after `w` when `d` was drawn: `d` itself unless it is
/// banned, else the lowest free color, else `d` after all.
#[verifier::opaque]
pub open spec fn ban_choice(w: Seq<u8>, k: u8, d: u8) -> u8 {
    if banned_after(w, w.len() as int, d) {
        match lowest_free(w, k, 0) {
            Some(c) => c,
            None => d,
        }
    } else {
        d
    }
}

proof fn lemma_slot(k: int, p1: int, c1: int, p2: int, c2: int)
    requires
        0 <= c1 < k,
        0 <= c2 < k,
        0 <= p1,
        0 <= p2,
    ensures
        p1 * k + c1 == p2 * k + c2 <==> (p1 == p2 && c1 == c2),
{
    if p1 < p2 {
        assert(p1 * k + k <= p2 * k) by (nonlinear_arith)
            requires
                p1 < p2,
                k > 0,
        ;
    } else if p2 < p1 {
        assert(p2 * k + k <= p1 * k) by (nonlinear_arith)
            requires
                p2 < p1,
                k > 0,
        ;
    }
}

proof fn lemma_slot_bound(k: int, n: int, p: int, c: int)
    requires
        0 <= c < k,
        0 <= p < n,
    ensures
        0 <= p * k + c < n * k,
{
    assert(p * k + k <= n * k) by (nonlinear_arith)
        requires
            p < n,
            k > 0,
    ;
    assert(0 <= p * k) by (nonlinear_arith)
        requires
            p >= 0,
            k > 0,
    ;
}

/// Banned colors for each position below `target`, one flag per
/// (position, color) pair.
pub struct BanList {
    colors: u8,
    target: usize,
    flags: Vec<bool>,
}

impl BanList {
    pub closed spec fn colors(&self) -> u8 {
        self.colors
    }

    pub closed spec fn target(&self) -> nat {
        self.target as nat
    }

    /// Color `c` is banned at position `p`.
    pub closed spec fn has(&self, p: int, c: int) -> bool {
        self.flags@[p * self.colors + c]
    }

    pub closed spec fn wf(&self) -> bool {
        self.flags@.len() == self.target * self.colors
    }

    /// The list holds exactly the bans that the colors `w` give to the
    /// positions from `w.len()` up to the target.
    pub open spec fn tracks(&self, w: Seq<u8>) -> bool {
        forall|p: int, c: u8|
            w.len() <= p < self.target() && c < self.colors() ==> (#[trigger] self.has(p, c as int)
                <==> banned_after(w, p, c))
    }

    /// An empty ban list for colorings of length `target` over `colors` colors.
    pub fn new(colors: u8, target: usize) -> (r: BanList)
        requires
            target * colors <= usize::MAX,
        ensures
            r.wf(),
            r.colors() == colors,
            r.target() == target,
            r.tracks(Seq::empty()),
    {
        let size = target * colors as usize;
        let mut flags: Vec<bool> = Vec::new();
        let mut i: usize = 0;
        while i < size
            invariant
                0 <= i <= size,
                flags@.len() == i,
                forall|j: int| 0 <= j < i ==> !flags@[j],
            decreases size - i,
        {
            flags.push(false);
            i += 1;
        }
        let r = BanList { colors, target, flags };
        proof {
            assert forall|p: int, c: u8| 0 <= p < r.target() && c < r.colors() implies !#[trigger] r.has(
                p,
                c as int,
            ) by {
                lemma_slot_bound(colors as int, target as int, p, c as int);
            }
        }
        r
    }

    /// Color `c` is banned at position `p`.
    pub fn is_banned(&self, p: usize, c: u8) -> (r: bool)
        requires
            self.wf(),
            p < self.target(),
            c < self.colors(),
        ensures
            r == self.has(p as int, c as int),
    {
        let size = self.flags.len();
        proof {
            lemma_slot_bound(self.colors as int, self.target as int, p as int, c as int);
            assert(size == self.target * self.colors);
        }
        self.flags[p * self.colors as usize + c as usize]
    }

    /// Records the bans that the last color of `w` gives: for each `n` up to
    /// the last position `cur` whose color is the same, position
    /// `cur + n + 1` if it lies below the target. Bans are only ever added,
    /// and only at positions after `cur`.
    pub fn record(&mut self, w: &Vec<u8>)
        requires
            old(self).wf(),
            1 <= w@.len() <= old(self).target(),
            w@[w@.len() - 1] < old(self).colors(),
            old(self).tracks(w@.drop_last()),
        ensures
            final(self).wf(),
            final(self).colors() == old(self).colors(),
            final(self).target() == old(self).target(),
            final(self).tracks(w@),
            forall|p: int, c: int|
                0 <= p < w@.len() && 0 <= c < old(self).colors() ==> #[trigger] final(self).has(p, c) == old(self).has(p, c),
    {
        let current = w.len() - 1;
        let col = w[current];
        let ghost prefix = w@.drop_last();
        let ghost start = *self;
        let mut n: usize = 0;
        while n <= current && n < self.target - current - 1
            invariant
                self.wf(),
                self.colors == start.colors,
                self.target == start.target,
                start.wf(),
                current + 1 == w@.len() <= self.target,
                col == w@[current as int],
                col < self.colors,
                prefix == w@.drop_last(),
                start.tracks(prefix),
                0 <= n <= current + 1,
                forall|p: int, c: int| 0 <= p <= current && 0 <= c < self.colors ==> #[trigger] self.has(p, c) == start.has(p, c),
                forall|p: int, c: u8|
                    w@.len() <= p < self.target && c < self.colors ==> (#[trigger] self.has(p, c as int)
                        <==> (start.has(p, c as int) || (c == col && exists|n2: int|
                        0 <= n2 < n && current + n2 + 1 == p && #[trigger] w@[n2] == col))),
            decreases current + 1 - n,
        {
            if w[n] == col {
                let size = self.flags.len();
                proof {
                    lemma_slot_bound(self.colors as int, self.target as int, current + n + 1, col as int);
                    assert(size == self.target * self.colors);
                }
                let slot = (current + n + 1) * self.colors as usize + col as usize;
                let ghost before = *self;
                self.flags.set(slot, true);
                proof {
                    assert(self.flags@ == before.flags@.update(slot as int, true));
                    assert forall|p: int, c: int| 0 <= p <= current && 0 <= c < self.colors implies #[trigger] self.has(p, c)
                        == start.has(p, c) by {
                        lemma_slot(self.colors as int, p, c, current + n + 1, col as int);
                        lemma_slot_bound(self.colors as int, self.target as int, p, c);
                        assert(p * self.colors + c != slot as int);
                        assert(before.has(p, c) == start.has(p, c));
                    }
                    assert forall|p: int, c: u8|
                        w@.len() <= p < self.target && c < self.colors implies (#[trigger] self.has(p, c as int)
                            <==> (start.has(p, c as int) || (c == col && exists|n2: int|
                            0 <= n2 < n + 1 && current + n2 + 1 == p && #[trigger] w@[n2] == col))) by {
                        lemma_slot(self.colors as int, p, c as int, current + n + 1, col as int);
                        lemma_slot_bound(self.colors as int, self.target as int, p, c as int);
                        if p == current + n + 1 && c == col {
                            assert(p * self.colors + c == slot as int);
                        } else {
                            assert(p * self.colors + c != slot as int);
                            assert(before.has(p, c as int) == self.has(p, c as int));
                        }
                        if p == current + n + 1 && c == col {
                            assert(w@[n as int] == col);
                        }
                    }
                }
            } else {
                proof {
                    assert forall|p: int, c: u8|
                        w@.len() <= p < self.target && c < self.colors implies (#[trigger] self.has(p, c as int)
                            <==> (start.has(p, c as int) || (c == col && exists|n2: int|
                            0 <= n2 < n + 1 && current + n2 + 1 == p && #[trigger] w@[n2] == col))) by {
                        if c == col && (exists|n2: int| 0 <= n2 < n + 1 && current + n2 + 1 == p && #[trigger] w@[n2] == col) {
                            let n2 = choose|n2: int| 0 <= n2 < n + 1 && current + n2 + 1 == p && #[trigger] w@[n2] == col;
                            assert(n2 != n);
                        }
                    }
                }
            }
            n += 1;
        }
        proof {
            assert forall|p: int, c: u8|
                w@.len() <= p < self.target() && c < self.colors() implies (#[trigger] self.has(p, c as int)
                    <==> banned_after(w@, p, c)) by {
                assert(start.has(p, c as int) <==> banned_after(prefix, p, c));
                if banned_after(w@, p, c) {
                    let (n1, cur1) = choose|n1: int, cur1: int|
                        0 <= n1 <= cur1 < w@.len() && cur1 + n1 + 1 == p && #[trigger] w@[n1] == c
                            && #[trigger] w@[cur1] == c;
                    if cur1 < current {
                        assert(prefix[n1] == c && prefix[cur1] == c);
                    } else {
                        assert(w@[n1] == col);
                    }
                }
                if banned_after(prefix, p, c) {
                    let (n1, cur1) = choose|n1: int, cur1: int|
                        0 <= n1 <= cur1 < prefix.len() && cur1 + n1 + 1 == p && #[trigger] prefix[n1] == c
                            && #[trigger] prefix[cur1] == c;
                    assert(w@[n1] == c && w@[cur1] == c);
                }
                if c == col && exists|n2: int| 0 <= n2 < n && current + n2 + 1 == p && #[trigger] w@[n2] == col {
                    let n2 = choose|n2: int| 0 <= n2 < n && current + n2 + 1 == p && #[trigger] w@[n2] == col;
                    assert(w@[n2] == c && w@[current as int] == c);
                }
            }
        }
    }

    /// The color to place at position `w.len()` when `drawn` was drawn.
    pub fn choose_color(&self, w: &Vec<u8>, drawn: u8) -> (r: u8)
        requires
            self.wf(),
            w@.len() < self.target(),
            drawn < self.colors(),
            self.tracks(w@),
        ensures
            r == ban_choice(w@, self.colors(), drawn),
            r < self.colors(),
    {
        let p = w.len();
        proof {
            reveal(ban_choice);
        }
        if self.is_banned(p, drawn) {
            let mut c: u8 = 0;
            while c < self.colors
                invariant
                    self.wf(),
                    p == w@.len() < self.target(),
                    self.tracks(w@),
                    c <= self.colors,
                    drawn < self.colors,
                    self.has(p as int, drawn as int),
                    lowest_free(w@, self.colors, 0) == lowest_free(w@, self.colors, c as int),
                decreases self.colors - c,
            {
                if !self.is_banned(p, c) {
                    proof {
                        reveal(ban_choice);
                        assert(!banned_after(w@, p as int, c));
                        assert(lowest_free(w@, self.colors, c as int) == Some(c));
                        assert(banned_after(w@, p as int, drawn));
                    }
                    return c;
                }
                c += 1;
            }
        }
        drawn
    }
}

} // verus!
