//! Randomised strategies: plain random colorings, random colorings steered
//! by a ban list, and random extensions of a frontier of valid prefixes.

use vstd::prelude::*;
use crate::coloring::{check_coloring, copy_prefix, lemma_sum_free_take, mono, sum_free, sum_free_upto};
use crate::bans::{ban_choice, banned_after, lowest_free, BanList};
use crate::config::Args;
use crate::frontier::{Prefix, PrefixFrontier};
use crate::search::{candidate, seed, seed_vec};

verus! {

/// Relies on rand::random_range: a value drawn from the range `0..colors`
/// (it panics on an empty range).
#[verifier::external_body]
fn random_color(colors: u8) -> (r: u8)
    requires
        colors >= 1,
    ensures
        r < colors,
{
    rand::random_range(0..colors)
}

/// Every entry of `v` is a color below `k`.
pub open spec fn below(k: u8, v: Seq<u8>) -> bool {
    forall|i: int| 0 <= i < v.len() ==> #[trigger] v[i] < k
}

/// `n` colors drawn at random from `0..colors`.
pub fn random_fill(colors: u8, n: usize) -> (r: Vec<u8>)
    requires
        colors >= 1,
    ensures
        r@.len() == n,
        below(colors, r@),
{
    let mut vec: Vec<u8> = Vec::new();
    let mut i: usize = 0;
    while i < n
        invariant
            colors >= 1,
            0 <= i <= n,
            vec@.len() == i,
            below(colors, vec@),
        decreases n - i,
    {
        let color = random_color(colors);
        vec.push(color);
        i += 1;
    }
    vec
}

/// A coloring of length `n` that starts with 0, 1 and continues with
/// colors drawn at random from `0..colors`.
fn seeded_fill(colors: u8, n: usize) -> (r: Vec<u8>)
    requires
        colors >= 2,
        n >= 2,
    ensures
        r@.len() == n,
        r@[0] == 0,
        r@[1] == 1,
        below(colors, r@),
{
    let first = seed_vec(colors);
    let rest = random_fill(colors, n - 2);
    let r = concat(&first, &rest);
    proof {
        assert forall|i: int| 0 <= i < r@.len() implies #[trigger] r@[i] < colors by {
            if i >= 2 {
                assert(r@[i] == rest@[i - 2]);
            }
        }
    }
    r
}

/// The two-position coloring 0, 1 is sum-free.
proof fn lemma_seed_sum_free(v: Seq<u8>)
    requires
        v == seed(),
    ensures
        sum_free(v),
{
    assert(!mono(v, 2, 1));
}

/// Draws colorings that start with 0, 1 and continue at random until one
/// is sum-free, at most `attempts` times.
pub fn random_assignment(args: &Args) -> (r: Option<Vec<u8>>)
    requires
        args.target >= 2,
    ensures
        r is Some ==> r->Some_0@.len() == args.target && candidate(args.colors, r->Some_0@),
        r is Some ==> sum_free(r->Some_0@),
        args.attempts == 0 ==> r is None,
        args.colors < 2 ==> r is None,
        args.colors >= 2 && args.target == 2 && args.attempts >= 1 ==> r is Some && r->Some_0@
            == seed(),
{
    if args.colors < 2 {
        return None;
    }
    let mut i: usize = 0;
    while i < args.attempts
        invariant
            args.colors >= 2,
            args.target >= 2,
            0 <= i <= args.attempts,
            args.target == 2 ==> i == 0,
        decreases args.attempts - i,
    {
        let result = seeded_fill(args.colors, args.target);
        proof {
            if args.target == 2 {
                assert(result@ =~= seed());
                lemma_seed_sum_free(result@);
            }
        }
        if check_coloring(&result).is_ok() {
            proof {
                if args.target == 2 {
                    assert(result@ =~= seed());
                }
            }
            return Some(result);
        }
        i += 1;
    }
    None
}

/// `v` is what the ban list makes of the drawn colors `d`: each position
/// takes the choice that the colors before it leave for its draw.
pub open spec fn ban_filled(k: u8, d: Seq<u8>, v: Seq<u8>) -> bool {
    &&& v.len() == d.len()
    &&& forall|p: int| 0 <= p < v.len() ==> #[trigger] v[p] == ban_choice(v.take(p), k, d[p])
}

/// Places the drawn colors one by one, replacing a draw that the ban list
/// forbids by the lowest allowed color, and records the bans that each
/// placed color gives to later positions.
pub fn ban_fill(colors: u8, draws: &Vec<u8>) -> (r: Vec<u8>)
    requires
        colors >= 1,
        below(colors, draws@),
        draws@.len() * colors <= usize::MAX,
    ensures
        ban_filled(colors, draws@, r@),
        below(colors, r@),
{
    let target = draws.len();
    let mut bans = BanList::new(colors, target);
    let mut vec: Vec<u8> = Vec::new();
    let mut current: usize = 0;
    while current < target
        invariant
            target == draws@.len(),
            below(colors, draws@),
            bans.wf(),
            bans.colors() == colors,
            bans.target() == target,
            bans.tracks(vec@),
            0 <= current <= target,
            vec@.len() == current,
            below(colors, vec@),
            forall|p: int| 0 <= p < current ==> #[trigger] vec@[p] == ban_choice(vec@.take(p), colors, draws@[p]),
        decreases target - current,
    {
        let col = bans.choose_color(&vec, draws[current]);
        let ghost prev = vec@;
        vec.push(col);
        proof {
            assert(vec@.drop_last() =~= prev);
            assert(vec@.take(current as int) =~= prev);
            assert forall|p: int| 0 <= p < current + 1 implies #[trigger] vec@[p] == ban_choice(vec@.take(p), colors, draws@[p]) by {
                if p < current {
                    assert(vec@.take(p) =~= prev.take(p));
                    assert(prev[p] == ban_choice(prev.take(p), colors, draws@[p]));
                }
            }
        }
        bans.record(&vec);
        current += 1;
    }
    vec
}

/// The same draws give the same coloring: what the ban list makes of them
/// is determined position by position.
pub proof fn lemma_ban_fill_deterministic(k: u8, d: Seq<u8>, v1: Seq<u8>, v2: Seq<u8>)
    requires
        ban_filled(k, d, v1),
        ban_filled(k, d, v2),
    ensures
        v1 == v2,
{
    lemma_ban_fill_prefix(k, d, v1, v2, v1.len() as int);
    assert(v1.take(v1.len() as int) =~= v1);
    assert(v2.take(v2.len() as int) =~= v2);
}

proof fn lemma_ban_fill_prefix(k: u8, d: Seq<u8>, v1: Seq<u8>, v2: Seq<u8>, p: int)
    requires
        ban_filled(k, d, v1),
        ban_filled(k, d, v2),
        0 <= p <= v1.len(),
    ensures
        v1.take(p) == v2.take(p),
    decreases p,
{
    if p > 0 {
        lemma_ban_fill_prefix(k, d, v1, v2, p - 1);
        assert(v1[p - 1] == ban_choice(v1.take(p - 1), k, d[p - 1]));
        assert(v2[p - 1] == ban_choice(v2.take(p - 1), k, d[p - 1]));
        assert(v1.take(p) =~= v1.take(p - 1).push(v1[p - 1]));
        assert(v2.take(p) =~= v2.take(p - 1).push(v2[p - 1]));
    } else {
        assert(v1.take(0) =~= v2.take(0));
    }
}

proof fn lemma_lowest_free(w: Seq<u8>, k: u8, from: int)
    requires
        0 <= from,
    ensures
        lowest_free(w, k, from) is Some ==> from <= lowest_free(w, k, from)->Some_0 < k
            && !banned_after(w, w.len() as int, lowest_free(w, k, from)->Some_0),
        (exists|c: u8| from <= c < k && !#[trigger] banned_after(w, w.len() as int, c))
            ==> lowest_free(w, k, from) is Some,
    decreases k - from,
{
    if from < k {
        lemma_lowest_free(w, k, from + 1);
        if banned_after(w, w.len() as int, from as u8) {
            if exists|c: u8| from <= c < k && !#[trigger] banned_after(w, w.len() as int, c) {
                let c = choose|c: u8| from <= c < k && !#[trigger] banned_after(w, w.len() as int, c);
                assert(c != from);
            }
        }
    }
}

/// Draws that start with 0, 1 give a coloring that starts with 0, 1:
/// nothing is banned at the first position, and only color 0 at the second.
proof fn lemma_ban_fill_seed(k: u8, d: Seq<u8>, v: Seq<u8>)
    requires
        d.len() >= 2,
        d[0] == 0,
        d[1] == 1,
        ban_filled(k, d, v),
    ensures
        v[0] == 0,
        v[1] == 1,
{
    reveal(ban_choice);
    assert(v[0] == ban_choice(v.take(0), k, d[0]));
    assert(!banned_after(v.take(0), 0, 0));
    let w = v.take(1);
    assert(v[1] == ban_choice(w, k, d[1]));
    assert(w[0] == 0);
    if banned_after(w, 1, 1) {
        let (n, cur) = choose|n: int, cur: int|
            0 <= n <= cur < w.len() && cur + n + 1 == 1 && #[trigger] w[n] == 1u8 && #[trigger] w[cur] == 1u8;
        assert(w[0] == 1);
    }
}

/// The index at which the checker reports a failure is unique.
pub proof fn lemma_fails_at_unique(c: Seq<u8>, i: int, j: int)
    requires
        fails_at(c, i),
        fails_at(c, j),
    ensures
        i == j,
{
    if i < j {
        let b = choose|b: int| 1 <= b <= (i + 1) / 2 && #[trigger] mono(c, i + 1, b);
        assert(!mono(c, i + 1, b));
    } else if j < i {
        let b = choose|b: int| 1 <= b <= (j + 1) / 2 && #[trigger] mono(c, j + 1, b);
        assert(!mono(c, j + 1, b));
    }
}

/// Draws colorings that start with 0, 1 and whose later positions avoid
/// banned colors where they can, at most `attempts` times, and returns the
/// first sum-free one.
pub fn random_with_bannings(args: &Args) -> (r: Option<Vec<u8>>)
    requires
        args.target >= 2,
        args.target * args.colors <= usize::MAX,
    ensures
        r is Some ==> r->Some_0@.len() == args.target && candidate(args.colors, r->Some_0@),
        r is Some ==> sum_free(r->Some_0@),
        args.attempts == 0 ==> r is None,
        args.colors < 2 ==> r is None,
        args.colors >= 2 && args.target == 2 && args.attempts >= 1 ==> r is Some && r->Some_0@
            == seed(),
{
    if args.colors < 2 {
        return None;
    }
    let mut i: usize = 0;
    while i < args.attempts
        invariant
            args.colors >= 2,
            args.target >= 2,
            args.target * args.colors <= usize::MAX,
            0 <= i <= args.attempts,
            args.target == 2 ==> i == 0,
        decreases args.attempts - i,
    {
        let draws = seeded_fill(args.colors, args.target);
        let vec = ban_fill(args.colors, &draws);
        proof {
            lemma_ban_fill_seed(args.colors, draws@, vec@);
            if args.target == 2 {
                assert(vec@ =~= seed());
                lemma_seed_sum_free(vec@);
            }
        }
        if check_coloring(&vec).is_ok() {
            proof {
                if args.target == 2 {
                    assert(vec@ =~= seed());
                }
            }
            return Some(vec);
        }
        i += 1;
    }
    None
}

/// The checker reports index `i` for `c`: all triples with a sum up to `i`
/// are clean and one with sum `i + 1` is monochromatic.
pub open spec fn fails_at(c: Seq<u8>, i: int) -> bool {
    &&& 1 <= i < c.len()
    &&& sum_free_upto(c, i)
    &&& exists|b: int| 1 <= b <= (i + 1) / 2 && #[trigger] mono(c, i + 1, b)
}

/// What the frontier becomes after `cand`, an extension of the taken-out
/// entry `taken`, failed at index `i`: the valid part of `cand` is added as
/// a fresh entry when it is longer than `taken`, then `taken` goes back.
pub open spec fn after_failure(
    front: Seq<(nat, Seq<u8>)>,
    taken: (nat, Seq<u8>),
    cand: Seq<u8>,
    i: int,
) -> Seq<(nat, Seq<u8>)> {
    if i > taken.1.len() {
        front.push((0nat, cand.take(i))).push(taken)
    } else {
        front.push(taken)
    }
}

/// Judges one extension `candidate` of the entry `prefix` that was taken
/// out of `frontier`: a sum-free candidate is the answer; otherwise the
/// frontier learns from where it failed.
pub fn extend_prefix(frontier: &mut PrefixFrontier, prefix: Prefix, candidate: Vec<u8>) -> (r: Option<Vec<u8>>)
    ensures
        r is Some <==> sum_free(candidate@),
        r is Some ==> r->Some_0@ == candidate@ && final(frontier)@ == old(frontier)@,
        r is None ==> exists|i: int| #[trigger] fails_at(candidate@, i)
            && final(frontier)@ == after_failure(old(frontier)@, prefix@, candidate@, i),
{
    match check_coloring(&candidate) {
        Ok(_) => Some(candidate),
        Err(err) => {
            let i = err.index;
            let valid = copy_prefix(&candidate, i);
            let ghost taken = prefix@;
            if valid.len() > prefix.content.len() {
                frontier.push(Prefix { count: 0, content: valid });
            }
            frontier.push(prefix);
            proof {
                assert(fails_at(candidate@, i as int));
            }
            None
        }
    }
}

/// Appends `b` to a copy of `a`.
fn concat(a: &Vec<u8>, b: &Vec<u8>) -> (r: Vec<u8>)
    requires
        a@.len() + b@.len() <= usize::MAX,
    ensures
        r@ == a@ + b@,
{
    let mut r = copy_prefix(a, a.len());
    let mut i: usize = 0;
    while i < b.len()
        invariant
            0 <= i <= b@.len(),
            r@ =~= a@ + b@.take(i as int),
        decreases b@.len() - i,
    {
        r.push(b[i]);
        i += 1;
        assert(r@ =~= a@ + b@.take(i as int));
    }
    assert(b@.take(b@.len() as int) =~= b@);
    r
}

/// Every entry is a candidate of length at most `target`, used at most
/// `used` times.
pub open spec fn frontier_ok(k: u8, target: int, used: int, front: Seq<(nat, Seq<u8>)>) -> bool {
    forall|m: int| 0 <= m < front.len() ==> {
        let e = #[trigger] front[m];
        &&& e.1.len() <= target
        &&& candidate(k, e.1)
        &&& e.0 <= used
    }
}

/// Randomised backtracking: takes out the least used, longest prefix,
/// fills the rest at random and checks the result. A failure keeps its
/// valid part as a new prefix when that is longer, and the prefix taken
/// out goes back with its use count raised.
pub fn random_with_backtrack(args: &Args) -> (r: Option<Vec<u8>>)
    requires
        args.colors >= 1,
        args.target >= 2,
    ensures
        r is Some ==> r->Some_0@.len() == args.target && candidate(args.colors, r->Some_0@),
        r is Some ==> sum_free(r->Some_0@),
        args.attempts == 0 ==> r is None,
        args.colors >= 2 && args.target == 2 && args.attempts >= 1 ==> r is Some && r->Some_0@
            == seed(),
        args.colors < 2 ==> r is None,
{
    let k = args.colors;
    let target = args.target;
    if k < 2 {
        return None;
    }
    let mut frontier = PrefixFrontier::new();
    let first = seed_vec(k);
    frontier.push(Prefix { count: 0, content: first });
    let mut sentinel: usize = 0;
    while sentinel < args.attempts
        invariant
            k == args.colors >= 2,
            target == args.target >= 2,
            0 <= sentinel <= args.attempts,
            frontier@.len() >= 1,
            frontier_ok(k, target as int, sentinel as int, frontier@),
            sentinel == 0 ==> frontier@ == seq![(0nat, seed())],
            target == 2 ==> sentinel == 0,
        decreases args.attempts - sentinel,
    {
        let ghost before = frontier@;
        let mut prefix = frontier.pop_best();
        proof {
            let i = choose|i: int| 0 <= i < before.len() && prefix@ == before[i] && frontier@ == before.remove(i)
                && forall|j: int| 0 <= j < before.len() ==> !crate::frontier::goes_first(#[trigger] before[j], before[i]);
            assert(before[i] == prefix@);
            assert forall|m: int| 0 <= m < frontier@.len() implies #[trigger] frontier@[m] == before[if m < i { m } else { m + 1 }] by {}
        }
        prefix.count = prefix.count + 1;
        let remainder = random_fill(k, target - prefix.content.len());
        let cand = concat(&prefix.content, &remainder);
        let ghost taken = prefix@;
        let ghost mid = frontier@;
        proof {
            assert(cand@.take(taken.1.len() as int) =~= taken.1);
            assert forall|i: int| 0 <= i < cand@.len() implies #[trigger] cand@[i] < k by {
                if i >= taken.1.len() {
                    assert(cand@[i] == remainder@[i - taken.1.len()]);
                }
            }
        }
        match extend_prefix(&mut frontier, prefix, cand) {
            Some(found) => {
                proof {
                    if target == 2 && sentinel == 0 {
                        assert(taken.1 == seed());
                        assert(found@ =~= seed());
                    }
                }
                return Some(found);
            },
            None => {
                proof {
                    let i = choose|i: int| #[trigger] fails_at(cand@, i)
                        && frontier@ == after_failure(mid, taken, cand@, i);
                    let n = taken.1.len() as int;
                    if i < n {
                        let b = choose|b: int| 1 <= b <= (i + 1) / 2 && #[trigger] mono(cand@, i + 1, b);
                        assert(mono(taken.1, i + 1, b));
                    }
                    if i > n {
                        lemma_sum_free_take(cand@, i, i);
                        assert(cand@.take(i)[0] == 0 && cand@.take(i)[1] == 1);
                        assert(candidate(k, cand@.take(i)));
                    }
                    if target == 2 && sentinel == 0 {
                        assert(taken.1 == seed());
                        assert(cand@ =~= seed());
                        assert(!mono(cand@, 2, 1));
                        assert(sum_free(cand@));
                    }
                }
            },
        }
        sentinel += 1;
    }
    None
}

} // verus!
