//! Exhaustive searches over colorings that start with colors 0 and 1.

use vstd::prelude::*;
use crate::coloring::{copy_prefix, lemma_sum_free_take, mono, sum_free};
use crate::config::Args;

verus! {

/// Color `x` may follow `c`: no two positions of `c` whose 1-indexed sum is
/// the new position both hold `x`.
pub open spec fn fits(c: Seq<u8>, x: u8) -> bool {
    forall|i: int, j: int|
        0 <= i < c.len() && 0 <= j < c.len() && i + j + 1 == c.len() ==> !(#[trigger] c[i] == x
            && #[trigger] c[j] == x)
}

/// A sum-free coloring that starts with 0, 1 and uses only colors below `k`.
pub open spec fn candidate(k: u8, v: Seq<u8>) -> bool {
    &&& v.len() >= 2
    &&& v[0] == 0
    &&& v[1] == 1
    &&& forall|i: int| 0 <= i < v.len() ==> #[trigger] v[i] < k
    &&& sum_free(v)
}

/// Appending `x` keeps a coloring sum-free exactly when `x` fits.
pub proof fn lemma_push_sum_free(c: Seq<u8>, x: u8)
    ensures
        sum_free(c.push(x)) <==> (sum_free(c) && fits(c, x)),
{
    let d = c.push(x);
    let n = c.len() as int;
    assert forall|a: int, b: int| 2 <= a <= n && 1 <= b <= a / 2 implies mono(d, a, b) == mono(
        c,
        a,
        b,
    ) by {}
    if sum_free(d) {
        lemma_sum_free_take(d, n + 1, n);
        assert(d.take(n) =~= c);
        assert forall|i: int, j: int|
            0 <= i < c.len() && 0 <= j < c.len() && i + j + 1 == c.len() implies !(#[trigger] c[i]
            == x && #[trigger] c[j] == x) by {
            let b = if i <= j { i + 1 } else { j + 1 };
            assert(!mono(d, n + 1, b));
        }
    }
    if sum_free(c) && fits(c, x) {
        assert forall|a: int, b: int| 2 <= a <= n + 1 && 1 <= b <= a / 2 implies !#[trigger] mono(
            d,
            a,
            b,
        ) by {
            if a <= n {
                assert(!mono(c, a, b));
            } else {
                let i = b - 1;
                let j = a - b - 1;
                assert(c[i] == d[i] && c[j] == d[j]);
                assert(!(c[i] == x && c[j] == x));
            }
        }
    }
}

/// A candidate of length `n + 1` is a candidate of length `n` followed by a
/// color below `k` that fits.
pub proof fn lemma_candidate_push(k: u8, c: Seq<u8>, x: u8)
    requires
        c.len() >= 2,
    ensures
        candidate(k, c.push(x)) <==> (candidate(k, c) && fits(c, x) && x < k),
{
    lemma_push_sum_free(c, x);
    let d = c.push(x);
    if candidate(k, d) {
        assert(d[c.len() as int] == x);
        assert forall|i: int| 0 <= i < c.len() implies #[trigger] c[i] < k by {
            assert(d[i] == c[i]);
        }
    }
    if candidate(k, c) && fits(c, x) && x < k {
        assert forall|i: int| 0 <= i < d.len() implies #[trigger] d[i] < k by {
            if i < c.len() {
                assert(d[i] == c[i]);
            }
        }
    }
}

/// Number of `true` entries among the first `n` of `s`.
pub open spec fn count_true(s: Seq<bool>, n: int) -> nat
    decreases n,
{
    if n <= 0 {
        0
    } else {
        count_true(s, n - 1) + if s[n - 1] { 1nat } else { 0nat }
    }
}

proof fn lemma_count_true_set(s: Seq<bool>, n: int, x: int)
    requires
        0 <= x < s.len(),
        0 <= n <= s.len(),
        !s[x],
    ensures
        count_true(s.update(x, true), n) == count_true(s, n) + if x < n { 1nat } else { 0nat },
    decreases n,
{
    if n > 0 {
        lemma_count_true_set(s, n - 1, x);
    }
}

proof fn lemma_count_true_full(s: Seq<bool>, n: int)
    requires
        0 <= n <= s.len(),
        count_true(s, n) == n,
    ensures
        forall|i: int| 0 <= i < n ==> s[i],
    decreases n,
{
    if n > 0 {
        assert(count_true(s, n - 1) <= n - 1) by {
            lemma_count_true_le(s, n - 1);
        }
        lemma_count_true_full(s, n - 1);
    }
}

proof fn lemma_count_true_le(s: Seq<bool>, n: int)
    requires
        0 <= n <= s.len(),
    ensures
        count_true(s, n) <= n,
    decreases n,
{
    if n > 0 {
        lemma_count_true_le(s, n - 1);
    }
}

/// The colors below `colors` that may follow `c`, in ascending order.
pub fn find_next_colors(colors: u8, c: &Vec<u8>) -> (r: Vec<u8>)
    requires
        c@.len() >= 1,
    ensures
        forall|i: int, j: int| 0 <= i < j < r@.len() ==> r@[i] < r@[j],
        forall|i: int| 0 <= i < r@.len() ==> r@[i] < colors && fits(c@, r@[i]),
        forall|x: u8| x < colors && fits(c@, x) ==> r@.contains(x),
{
    let mut result: Vec<u8> = Vec::new();
    let mut banned: Vec<bool> = Vec::new();
    let mut x: u8 = 0;
    while x < colors
        invariant
            0 <= x <= colors,
            banned@.len() == x,
            forall|y: int| 0 <= y < x ==> !banned@[y],
        decreases colors - x,
    {
        banned.push(false);
        x += 1;
    }
    proof {
        assert(count_true(banned@, colors as int) == 0) by {
            lemma_count_none(banned@, colors as int);
        }
    }
    let mut count: u8 = 0;
    let target = c.len();
    let mut a: usize = 0;
    while a <= target / 2
        invariant
            target == c@.len() >= 1,
            0 <= a <= target / 2 + 1,
            banned@.len() == colors,
            result@.len() == 0,
            count == count_true(banned@, colors as int),
            forall|y: u8| #![trigger banned@[y as int]] y < colors ==> (banned@[y as int] <==> exists|i: int| #![trigger c@[i]]
                0 <= i < a && c@[i] == y && c@[target - 1 - i] == y),
        decreases target / 2 + 1 - a,
    {
        let b = target - a - 1;
        if c[a] == c[b] && c[a] < colors {
            let y = c[a];
            if !banned[y as usize] {
                proof {
                    lemma_count_true_set(banned@, colors as int, y as int);
                        }
                banned.set(y as usize, true);
                proof {
                    lemma_count_true_le(banned@, colors as int);
                }
                count += 1;
            }
            if count == colors {
                proof {
                    lemma_count_true_full(banned@, colors as int);
                    assert forall|z: u8| z < colors && fits(c@, z) implies result@.contains(z) by {
                        assert(banned@[z as int]);
                        let i = choose|i: int| #![trigger c@[i]] 0 <= i < a + 1 && c@[i] == z && c@[target - 1 - i] == z;
                        assert(c@[i] == z && c@[target - 1 - i] == z);
                    }
                }
                return result;
            }
        }
        proof {
            assert forall|y: u8| #![trigger banned@[y as int]] y < colors implies (banned@[y as int] <==> exists|i: int| #![trigger c@[i]]
                0 <= i < a + 1 && c@[i] == y && c@[target - 1 - i] == y) by {
                if banned@[y as int] && !(exists|i: int| #![trigger c@[i]] 0 <= i < a && c@[i] == y && c@[target - 1 - i] == y) {
                    assert(c@[a as int] == y && c@[target - 1 - a] == y);
                }
            }
        }
        a += 1;
    }
    let mut z: u8 = 0;
    while z < colors
        invariant
            target == c@.len() >= 1,
            a == target / 2 + 1,
            0 <= z <= colors,
            banned@.len() == colors,
            forall|y: u8| #![trigger banned@[y as int]] y < colors ==> (banned@[y as int] <==> exists|i: int| #![trigger c@[i]]
                0 <= i < a && c@[i] == y && c@[target - 1 - i] == y),
            forall|i: int, j: int| 0 <= i < j < result@.len() ==> result@[i] < result@[j],
            forall|i: int| 0 <= i < result@.len() ==> result@[i] < z && fits(c@, result@[i]),
            forall|y: u8| y < z && fits(c@, y) ==> result@.contains(y),
        decreases colors - z,
    {
        if !banned[z as usize] {
            proof {
                assert forall|i: int, j: int|
                    0 <= i < c@.len() && 0 <= j < c@.len() && i + j + 1 == c@.len() implies !(
                    #[trigger] c@[i] == z && #[trigger] c@[j] == z) by {
                    if c@[i] == z && c@[j] == z {
                        let m = if i <= j { i } else { j };
                        assert(c@[m] == z && c@[target - 1 - m] == z);
                    }
                }
            }
            let ghost prev = result@;
            result.push(z);
            proof {
                assert forall|y: u8| y < z + 1 && fits(c@, y) implies result@.contains(y) by {
                    if y < z {
                        let k = choose|k: int| 0 <= k < prev.len() && prev[k] == y;
                        assert(result@[k] == y);
                    } else {
                        assert(result@[result@.len() - 1] == z);
                    }
                }
            }
        } else {
            proof {
                let i = choose|i: int| #![trigger c@[i]] 0 <= i < a && c@[i] == z && c@[target - 1 - i] == z;
                assert(c@[i] == z && c@[target - 1 - i] == z);
                assert(!fits(c@, z));
            }
        }
        z += 1;
    }
    result
}

proof fn lemma_count_none(s: Seq<bool>, n: int)
    requires
        0 <= n <= s.len(),
        forall|i: int| 0 <= i < n ==> !s[i],
    ensures
        count_true(s, n) == 0,
    decreases n,
{
    if n > 0 {
        lemma_count_none(s, n - 1);
    }
}

/// Every search starts from colors 0 and 1 at the first two positions.
pub open spec fn seed() -> Seq<u8> {
    seq![0u8, 1u8]
}

/// Some candidate of length `n` exists.
pub open spec fn solvable(k: u8, n: int) -> bool {
    exists|v: Seq<u8>| v.len() == n && #[trigger] candidate(k, v)
}

/// Some entry of `vs` holds `v`.
pub open spec fn covers(vs: Seq<Vec<u8>>, v: Seq<u8>) -> bool {
    exists|m: int| 0 <= m < vs.len() && #[trigger] vs[m]@ == v
}

/// The entries of `vs` are in strict dictionary order.
pub open spec fn sorted(vs: Seq<Vec<u8>>) -> bool {
    forall|m1: int, m2: int| 0 <= m1 < m2 < vs.len() ==> lex_lt(#[trigger] vs[m1]@, #[trigger] vs[m2]@)
}

/// Every entry of `vs` is a candidate of length `n`.
pub open spec fn all_candidates(k: u8, vs: Seq<Vec<u8>>, n: int) -> bool {
    forall|m: int| 0 <= m < vs.len() ==> (#[trigger] vs[m])@.len() == n && candidate(k, vs[m]@)
}

pub(crate) fn seed_vec(k: u8) -> (r: Vec<u8>)
    requires
        k >= 2,
    ensures
        r@ == seed(),
        candidate(k, r@),
{
    let mut r: Vec<u8> = Vec::new();
    r.push(0);
    r.push(1);
    proof {
        assert(r@ =~= seed());
        assert(!mono(r@, 2, 1));
    }
    r
}

/// A prefix of length at least two of a candidate is a candidate.
pub proof fn lemma_candidate_take(k: u8, v: Seq<u8>, m: int)
    requires
        candidate(k, v),
        2 <= m <= v.len(),
    ensures
        candidate(k, v.take(m)),
{
    lemma_sum_free_take(v, v.len() as int, m);
}

/// Expands every coloring in `level` by every color that fits.
fn expand_level(k: u8, level: &Vec<Vec<u8>>, Ghost(n): Ghost<int>) -> (more: Vec<Vec<u8>>)
    requires
        n >= 2,
        all_candidates(k, level@, n),
        forall|v: Seq<u8>| v.len() == n && #[trigger] candidate(k, v) ==> covers(level@, v),
        sorted(level@),
    ensures
        all_candidates(k, more@, n + 1),
        forall|v: Seq<u8>| v.len() == n + 1 && #[trigger] candidate(k, v) ==> covers(more@, v),
        sorted(more@),
{
    let mut more: Vec<Vec<u8>> = Vec::new();
    let mut i: usize = 0;
    while i < level.len()
        invariant
            n >= 2,
            0 <= i <= level@.len(),
            all_candidates(k, level@, n),
            all_candidates(k, more@, n + 1),
            forall|v: Seq<u8>| v.len() == n + 1 && #[trigger] candidate(k, v) && (exists|i2: int|
                0 <= i2 < i && #[trigger] level@[i2]@ == v.take(n)) ==> covers(more@, v),
            sorted(level@),
            sorted(more@),
            forall|m: int, i2: int, y: u8| 0 <= m < more@.len() && i <= i2 < level@.len()
                ==> #[trigger] lex_lt(more@[m]@, level@[i2]@.push(y)),
        decreases level@.len() - i,
    {
        let cur = &level[i];
        let next = find_next_colors(k, cur);
        let mut j: usize = 0;
        while j < next.len()
            invariant
                n >= 2,
                0 <= i < level@.len(),
                cur == level@[i as int],
                0 <= j <= next@.len(),
                all_candidates(k, level@, n),
                all_candidates(k, more@, n + 1),
                forall|i: int| 0 <= i < next@.len() ==> next@[i] < k && fits(cur@, next@[i]),
                forall|v: Seq<u8>| v.len() == n + 1 && #[trigger] candidate(k, v) && (exists|i2: int|
                    0 <= i2 < i && #[trigger] level@[i2]@ == v.take(n)) ==> covers(more@, v),
                forall|v: Seq<u8>| v.len() == n + 1 && #[trigger] candidate(k, v) && cur@ == v.take(n)
                    && (exists|j2: int| 0 <= j2 < j && #[trigger] next@[j2] == v[n]) ==> covers(more@, v),
                sorted(level@),
                sorted(more@),
                forall|i: int, i2: int| 0 <= i < i2 < next@.len() ==> next@[i] < next@[i2],
                forall|m: int, i2: int, y: u8| 0 <= m < more@.len() && i < i2 < level@.len()
                    ==> #[trigger] lex_lt(more@[m]@, level@[i2]@.push(y)),
                forall|m: int, j2: int| 0 <= m < more@.len() && j <= j2 < next@.len()
                    ==> #[trigger] lex_lt(more@[m]@, cur@.push(next@[j2])),
            decreases next@.len() - j,
        {
            let mut e = copy_prefix(cur, cur.len());
            e.push(next[j]);
            proof {
                assert(cur@.take(cur@.len() as int) =~= cur@);
                lemma_candidate_push(k, cur@, next@[j as int]);
            }
            let ghost prev = more@;
            more.push(e);
            proof {
                let last = prev.len() as int;
                assert(more@[last] == e);
                assert(cur@.len() == n);
                assert forall|m1: int, m2: int| 0 <= m1 < m2 < more@.len() implies lex_lt(
                    #[trigger] more@[m1]@,
                    #[trigger] more@[m2]@,
                ) by {
                    assert(more@[m1] == prev[m1]);
                    if m2 < last {
                        assert(more@[m2] == prev[m2]);
                    } else {
                        assert(lex_lt(prev[m1]@, cur@.push(next@[j as int])));
                    }
                }
                assert forall|m: int, i2: int, y: u8| 0 <= m < more@.len() && i < i2 < level@.len()
                    implies #[trigger] lex_lt(more@[m]@, level@[i2]@.push(y)) by {
                    if m < last {
                        assert(more@[m] == prev[m]);
                    } else {
                        assert(lex_lt(level@[i as int]@, level@[i2]@));
                        lemma_lex_push(cur@, level@[i2]@, next@[j as int], y);
                    }
                }
                assert forall|m: int, j2: int| 0 <= m < more@.len() && j + 1 <= j2 < next@.len()
                    implies #[trigger] lex_lt(more@[m]@, cur@.push(next@[j2])) by {
                    if m < last {
                        assert(more@[m] == prev[m]);
                    } else {
                        assert(cur@.push(next@[j2]).take(n) =~= cur@);
                        lemma_lex_last(cur@, cur@.push(next@[j2]), next@[j as int]);
                    }
                }
                assert forall|v: Seq<u8>| v.len() == n + 1 && #[trigger] candidate(k, v) && (exists|i2: int|
                    0 <= i2 < i && #[trigger] level@[i2]@ == v.take(n)) implies covers(more@, v) by {
                    let m = choose|m: int| 0 <= m < prev.len() && #[trigger] prev[m]@ == v;
                    assert(more@[m]@ == v);
                }
                assert forall|v: Seq<u8>| v.len() == n + 1 && #[trigger] candidate(k, v) && cur@ == v.take(n)
                    && (exists|j2: int| 0 <= j2 < j + 1 && #[trigger] next@[j2] == v[n]) implies covers(more@, v) by {
                    if v[n] == next@[j as int] {
                        assert(v =~= e@);
                        assert(more@[prev.len() as int]@ == v);
                    } else {
                        let m = choose|m: int| 0 <= m < prev.len() && #[trigger] prev[m]@ == v;
                        assert(more@[m]@ == v);
                    }
                }
            }
            j += 1;
        }
        proof {
            assert forall|v: Seq<u8>| v.len() == n + 1 && #[trigger] candidate(k, v) && (exists|i2: int|
                0 <= i2 < i + 1 && #[trigger] level@[i2]@ == v.take(n)) implies covers(more@, v) by {
                if cur@ == v.take(n) {
                    assert(v.take(n).push(v[n]) =~= v);
                    lemma_candidate_push(k, v.take(n), v[n]);
                    assert(next@.contains(v[n]));
                    let j2 = choose|j2: int| 0 <= j2 < next@.len() && next@[j2] == v[n];
                    assert(next@[j2] == v[n]);
                }
            }
        }
        i += 1;
    }
    proof {
        assert forall|v: Seq<u8>| v.len() == n + 1 && #[trigger] candidate(k, v) implies covers(more@, v) by {
            lemma_candidate_take(k, v, n);
            let m = choose|m: int| 0 <= m < level@.len() && #[trigger] level@[m]@ == v.take(n);
            assert(level@[m]@ == v.take(n));
        }
    }
    more
}

/// Level-by-level search: each round replaces the current level, all the
/// candidates of one length, by all their one-longer candidates. Succeeds
/// with the first coloring of the level that reaches the target length.
pub fn breadth_first(args: &Args) -> (r: Option<Vec<u8>>)
    requires
        args.colors >= 1,
        args.target >= 2,
    ensures
        r is Some <==> (args.target - 2 <= args.attempts && solvable(args.colors, args.target as int)),
        r is Some ==> r->Some_0@.len() == args.target && candidate(args.colors, r->Some_0@),
        r is Some ==> sum_free(r->Some_0@),
        r is Some ==> least_candidate(args.colors, r->Some_0@),
        args.colors >= 2 && args.target == 2 ==> r is Some && r->Some_0@ == seed(),
        args.colors < 2 ==> r is None,
{
    let k = args.colors;
    let target = args.target;
    if k < 2 {
        proof {
            lemma_few_colors_unsolvable(k, target as int);
        }
        return None;
    }
    let mut level: Vec<Vec<u8>> = Vec::new();
    level.push(seed_vec(k));
    proof {
        assert forall|v: Seq<u8>| v.len() == 2 && #[trigger] candidate(k, v) implies covers(level@, v) by {
            assert(v =~= seed());
            assert(level@[0]@ == v);
        }
    }
    let mut len: usize = 2;
    let mut sentinel: usize = 0;
    while len < target && level.len() > 0 && sentinel < args.attempts
        invariant
            k == args.colors,
            target == args.target,
            2 <= len <= target,
            sentinel == len - 2,
            sentinel <= args.attempts,
            len == 2 ==> level@.len() == 1 && level@[0]@ == seed(),
            sorted(level@),
            all_candidates(k, level@, len as int),
            forall|v: Seq<u8>| v.len() == len && #[trigger] candidate(k, v) ==> covers(level@, v),
        decreases target - len,
    {
        level = expand_level(k, &level, Ghost(len as int));
        sentinel += 1;
        len += 1;
    }
    if len == target && level.len() > 0 {
        let found = copy_prefix(&level[0], level[0].len());
        proof {
            assert(level@[0]@.take(level@[0]@.len() as int) =~= level@[0]@);
            assert(solvable(k, target as int));
            assert forall|w: Seq<u8>| w.len() == found@.len() && #[trigger] candidate(k, w) implies w == found@
                || lex_lt(found@, w) by {
                let m = choose|m: int| 0 <= m < level@.len() && #[trigger] level@[m]@ == w;
                if m > 0 {
                    assert(lex_lt(level@[0]@, level@[m]@));
                }
            }
        }
        Some(found)
    } else {
        proof {
            if target - 2 <= args.attempts && solvable(k, target as int) {
                let v = choose|v: Seq<u8>| v.len() == target && #[trigger] candidate(k, v);
                lemma_candidate_take(k, v, len as int);
                assert(covers(level@, v.take(len as int)));
            }
        }
        None
    }
}

/// With fewer than two colors there is no candidate: the second position
/// holds color 1.
pub proof fn lemma_few_colors_unsolvable(k: u8, n: int)
    requires
        k < 2,
    ensures
        !solvable(k, n),
{
    assert forall|v: Seq<u8>| v.len() == n implies !#[trigger] candidate(k, v) by {
        if candidate(k, v) {
            assert(v[1] < k);
        }
    }
}

/// `a` comes before `b` in dictionary order: they agree up to some
/// position, where `a` holds the smaller color.
pub open spec fn lex_lt(a: Seq<u8>, b: Seq<u8>) -> bool {
    exists|i: int| 0 <= i < a.len() && i < b.len() && a.take(i) == b.take(i) && #[trigger] a[i] < #[trigger] b[i]
}

/// `a` is shorter than `b`, or as long and before it in dictionary order.
pub open spec fn shortlex_lt(a: Seq<u8>, b: Seq<u8>) -> bool {
    a.len() < b.len() || (a.len() == b.len() && lex_lt(a, b))
}

/// `v` comes first in dictionary order among the candidates of its length.
pub open spec fn least_candidate(k: u8, v: Seq<u8>) -> bool {
    &&& candidate(k, v)
    &&& forall|w: Seq<u8>| w.len() == v.len() && #[trigger] candidate(k, w) ==> w == v || lex_lt(v, w)
}

proof fn lemma_lex_push(a: Seq<u8>, b: Seq<u8>, x: u8, y: u8)
    requires
        a.len() == b.len(),
        lex_lt(a, b),
    ensures
        lex_lt(a.push(x), b.push(y)),
{
    let i = choose|i: int| 0 <= i < a.len() && i < b.len() && a.take(i) == b.take(i) && #[trigger] a[i] < #[trigger] b[i];
    assert(a.push(x).take(i) =~= a.take(i));
    assert(b.push(y).take(i) =~= b.take(i));
    assert(a.push(x)[i] == a[i] && b.push(y)[i] == b[i]);
}

proof fn lemma_lex_last(a: Seq<u8>, w: Seq<u8>, x: u8)
    requires
        w.len() == a.len() + 1,
        w.take(a.len() as int) == a,
        x < w[a.len() as int],
    ensures
        lex_lt(a.push(x), w),
{
    let i = a.len() as int;
    assert(a.push(x).take(i) =~= a);
    assert(a.push(x)[i] == x);
}

proof fn lemma_lex_extend(a: Seq<u8>, b: Seq<u8>, w: Seq<u8>, x: u8)
    requires
        a.len() == b.len(),
        lex_lt(a, b),
        w.len() == b.len() + 1,
        w.take(b.len() as int) == b,
    ensures
        lex_lt(a.push(x), w),
{
    let i = choose|i: int| 0 <= i < a.len() && i < b.len() && a.take(i) == b.take(i) && #[trigger] a[i] < #[trigger] b[i];
    assert(a.push(x).take(i) =~= a.take(i));
    assert(w.take(i) =~= b.take(i));
    assert(a.push(x)[i] == a[i]);
    assert(w[i] == w.take(b.len() as int)[i]);
}

/// Only one candidate of a given length comes first in dictionary order, so
/// a search that returns such a candidate always returns the same one.
pub proof fn lemma_least_candidate_unique(k: u8, v1: Seq<u8>, v2: Seq<u8>)
    requires
        least_candidate(k, v1),
        least_candidate(k, v2),
        v1.len() == v2.len(),
    ensures
        v1 == v2,
{
    if v1 != v2 {
        assert(lex_lt(v1, v2));
        assert(lex_lt(v2, v1));
        let i = choose|i: int| 0 <= i < v1.len() && i < v2.len() && v1.take(i) == v2.take(i) && #[trigger] v1[i] < #[trigger] v2[i];
        let i2 = choose|i2: int| 0 <= i2 < v2.len() && i2 < v1.len() && v2.take(i2) == v1.take(i2) && #[trigger] v2[i2] < #[trigger] v1[i2];
        if i < i2 {
            assert(v1.take(i2)[i] == v2.take(i2)[i]);
        } else if i2 < i {
            assert(v1.take(i)[i2] == v2.take(i)[i2]);
        }
    }
}

/// How an exhaustive search ended.
pub enum SearchEnd {
    /// A coloring of the target length.
    Found(Vec<u8>),
    /// Nothing was left to extend.
    Exhausted,
    /// The budget ran out first.
    BudgetSpent,
}

/// Some pending entry of `f`, at index `lo` or later, is a prefix of `v`.
pub open spec fn pending_prefix(f: Seq<Vec<u8>>, lo: int, v: Seq<u8>) -> bool {
    exists|m: int| lo <= m < f.len() && (#[trigger] f[m])@ == v.take(f[m]@.len() as int)
}

/// Number of entries among the first `n` of `f` whose length is at most `len`.
pub open spec fn count_upto(f: Seq<Vec<u8>>, n: int, len: int) -> nat
    decreases n,
{
    if n <= 0 {
        0
    } else {
        count_upto(f, n - 1, len) + if f[n - 1]@.len() <= len { 1nat } else { 0nat }
    }
}

/// Number of sequences that start with 0, 1, continue with colors below
/// `k`, and have a length from 2 to `len`.
pub open spec fn prefix_bound(k: nat, len: int) -> nat
    decreases len,
{
    if len < 2 {
        0
    } else {
        1 + k * prefix_bound(k, len - 1)
    }
}

proof fn lemma_count_push(f: Seq<Vec<u8>>, e: Vec<u8>, n: int, len: int)
    requires
        0 <= n <= f.len(),
    ensures
        count_upto(f.push(e), n, len) == count_upto(f, n, len),
    decreases n,
{
    if n > 0 {
        lemma_count_push(f, e, n - 1, len);
    }
}

proof fn lemma_count_all(f: Seq<Vec<u8>>, n: int, len: int)
    requires
        0 <= n <= f.len(),
        forall|m: int| 0 <= m < n ==> (#[trigger] f[m])@.len() <= len,
    ensures
        count_upto(f, n, len) == n,
    decreases n,
{
    if n > 0 {
        lemma_count_all(f, n - 1, len);
    }
}

proof fn lemma_count_short(f: Seq<Vec<u8>>, n: int)
    requires
        0 <= n <= f.len(),
        forall|m: int| 0 <= m < n ==> (#[trigger] f[m])@.len() >= 2,
    ensures
        count_upto(f, n, 1) == 0,
    decreases n,
{
    if n > 0 {
        lemma_count_short(f, n - 1);
    }
}

proof fn lemma_count_grows(f: Seq<Vec<u8>>, n1: int, n2: int, len: int)
    requires
        0 <= n1 <= n2,
    ensures
        count_upto(f, n1, len) <= count_upto(f, n2, len),
    decreases n2 - n1,
{
    if n1 < n2 {
        lemma_count_grows(f, n1, n2 - 1, len);
    }
}

/// With every entry of `f` at least two long, and the entries of length up
/// to `len + 1` at most one more than `k` per taken-out entry of length up
/// to `len`, the entries of length up to `len` number at most
/// `prefix_bound(k, len)`.
proof fn lemma_count_bound(f: Seq<Vec<u8>>, head: int, k: nat, len: int)
    requires
        0 <= head <= f.len(),
        len >= 1,
        forall|m: int| 0 <= m < f.len() ==> (#[trigger] f[m])@.len() >= 2,
        forall|l: int| l >= 1 ==> #[trigger] count_upto(f, f.len() as int, l + 1) <= 1 + k * count_upto(f, head, l),
    ensures
        count_upto(f, f.len() as int, len) <= prefix_bound(k, len),
    decreases len,
{
    if len == 1 {
        lemma_count_short(f, f.len() as int);
    } else {
        lemma_count_bound(f, head, k, len - 1);
        lemma_count_grows(f, head, f.len() as int, len - 1);
        let a = count_upto(f, head, len - 1);
        let b = prefix_bound(k, len - 1);
        let l = len - 1;
        assert(count_upto(f, f.len() as int, l + 1) <= 1 + k * count_upto(f, head, l));
        assert(l + 1 == len);
        assert(count_upto(f, f.len() as int, len) <= 1 + k * a);
        assert(k * a <= k * b) by (nonlinear_arith)
            requires
                a <= b,
        ;
    }
}

proof fn lemma_increasing_len(r: Seq<u8>, k: u8)
    requires
        forall|i: int, j: int| 0 <= i < j < r.len() ==> r[i] < r[j],
        forall|i: int| 0 <= i < r.len() ==> r[i] < k,
    ensures
        r.len() <= k,
{
    assert forall|i: int| 0 <= i < r.len() implies r[i] >= i by {
        lemma_increasing_at(r, i);
    }
    if r.len() > 0 {
        assert(r[r.len() - 1] >= r.len() - 1);
    }
}

proof fn lemma_increasing_at(r: Seq<u8>, i: int)
    requires
        forall|a: int, b: int| 0 <= a < b < r.len() ==> r[a] < r[b],
        0 <= i < r.len(),
    ensures
        r[i] >= i,
    decreases i,
{
    if i > 0 {
        lemma_increasing_at(r, i - 1);
    }
}

/// Frontier search that always extends a shortest pending coloring: each
/// step takes the oldest pending entry and appends each color that fits,
/// and ends with the first extension that reaches the target length.
/// Running out of entries proves that no candidate of that length exists.
pub fn depth_first_search(args: &Args) -> (r: SearchEnd)
    requires
        args.colors >= 1,
        args.target >= 2,
    ensures
        r is Found ==> r->Found_0@.len() == args.target && candidate(args.colors, r->Found_0@),
        r is Found ==> sum_free(r->Found_0@),
        r is Found ==> least_candidate(args.colors, r->Found_0@),
        r is Exhausted ==> !solvable(args.colors, args.target as int),
        args.colors >= 2 && args.target == 2 ==> r is Found && r->Found_0@ == seed(),
        args.colors < 2 ==> r is Exhausted,
        r is BudgetSpent ==> args.attempts < prefix_bound(args.colors as nat, args.target - 1),
        solvable(args.colors, args.target as int) && args.attempts >= prefix_bound(
            args.colors as nat,
            args.target - 1,
        ) ==> r is Found,
{
    let k = args.colors;
    let target = args.target;
    if k < 2 {
        proof {
            lemma_few_colors_unsolvable(k, target as int);
        }
        return SearchEnd::Exhausted;
    }
    let first = seed_vec(k);
    if target == 2 {
        proof {
            assert forall|w: Seq<u8>| w.len() == first@.len() && #[trigger] candidate(k, w) implies w == first@
                || lex_lt(first@, w) by {
                assert(w =~= first@);
            }
        }
        return SearchEnd::Found(first);
    }
    let mut frontier: Vec<Vec<u8>> = Vec::new();
    frontier.push(first);
    proof {
        assert forall|v: Seq<u8>| v.len() == target && #[trigger] candidate(k, v) implies pending_prefix(
            frontier@,
            0,
            v,
        ) by {
            assert(v.take(2) =~= seed());
            assert(frontier@[0]@ == v.take(frontier@[0]@.len() as int));
        }
        assert forall|l: int| l >= 1 implies #[trigger] count_upto(frontier@, frontier@.len() as int, l + 1)
            <= 1 + k * count_upto(frontier@, 0, l) by {
            assert(count_upto(frontier@, 0, l + 1) == 0);
        }
    }
    let mut head: usize = 0;
    let mut sentinel: usize = 0;
    while sentinel < args.attempts && head < frontier.len()
        invariant
            k == args.colors,
            target == args.target > 2,
            0 <= head <= frontier@.len(),
            sentinel == head,
            sentinel <= args.attempts,
            forall|m: int| 0 <= m < frontier@.len() ==> (#[trigger] frontier@[m])@.len() < target
                && candidate(k, frontier@[m]@),
            forall|v: Seq<u8>| v.len() == target && #[trigger] candidate(k, v) ==> pending_prefix(
                frontier@,
                head as int,
                v,
            ),
            forall|l: int| l >= 1 ==> #[trigger] count_upto(frontier@, frontier@.len() as int, l + 1)
                <= 1 + k * count_upto(frontier@, head as int, l),
            frontier@.len() >= 1,
            forall|m1: int, m2: int| 0 <= m1 < m2 < frontier@.len() ==> shortlex_lt(
                #[trigger] frontier@[m1]@,
                #[trigger] frontier@[m2]@,
            ),
            forall|m: int| 0 <= m < frontier@.len() ==> (#[trigger] frontier@[m])@.len()
                <= frontier@[frontier@.len() - 1]@.len(),
            forall|m: int, m2: int, y: u8| 0 <= m < frontier@.len() && head <= m2 < frontier@.len()
                ==> #[trigger] shortlex_lt(frontier@[m]@, frontier@[m2]@.push(y)),
        decreases args.attempts - sentinel,
    {
        let cur = copy_prefix(&frontier[head], frontier[head].len());
        proof {
            assert(frontier@[head as int]@.take(frontier@[head as int]@.len() as int) =~= frontier@[head as int]@);
        }
        let ghost lc = cur@.len() as int;
        let ghost popped = head as int;
        head += 1;
        proof {
            assert forall|l: int| l >= 1 implies #[trigger] count_upto(frontier@, frontier@.len() as int, l + 1)
                + (if l >= lc { k as int } else { 0 }) <= 1 + k * count_upto(frontier@, head as int, l) by {
                let c = count_upto(frontier@, head - 1, l);
                assert(frontier@[head - 1]@.len() == lc);
                assert(count_upto(frontier@, head as int, l) == c + if lc <= l { 1nat } else { 0nat });
                assert(count_upto(frontier@, frontier@.len() as int, l + 1) <= 1 + k * c);
                assert(k * (c + 1) == k * c + k) by (nonlinear_arith);
            }
        }
        let next = find_next_colors(k, &cur);
        proof {
            lemma_increasing_len(next@, k);
        }
        proof {
            assert forall|v: Seq<u8>| v.len() == target && #[trigger] candidate(k, v) && cur@ == v.take(cur@.len() as int)
                implies next@.contains(v[cur@.len() as int]) by {
                let n = cur@.len() as int;
                lemma_candidate_take(k, v, n + 1);
                assert(v.take(n + 1) =~= cur@.push(v[n]));
                lemma_candidate_push(k, cur@, v[n]);
            }
        }
        let mut j: usize = 0;
        while j < next.len()
            invariant
                k == args.colors,
                target == args.target > 2,
                cur@.len() < target,
                candidate(k, cur@),
                0 <= head <= frontier@.len(),
                0 <= j <= next@.len() <= k,
                lc == cur@.len(),
                forall|i: int| 0 <= i < next@.len() ==> next@[i] < k && fits(cur@, next@[i]),
                forall|m: int| 0 <= m < frontier@.len() ==> (#[trigger] frontier@[m])@.len() < target
                    && candidate(k, frontier@[m]@),
                forall|l: int| l >= 1 ==> #[trigger] count_upto(frontier@, frontier@.len() as int, l + 1)
                    + (if l >= lc { k - j } else { 0 }) <= 1 + k * count_upto(frontier@, head as int, l),
                forall|v: Seq<u8>| v.len() == target && #[trigger] candidate(k, v) ==> pending_prefix(
                    frontier@,
                    head as int,
                    v,
                ) || (cur@ == v.take(cur@.len() as int) && exists|j2: int|
                    j <= j2 < next@.len() && #[trigger] next@[j2] == v[cur@.len() as int]),
                0 <= popped,
                popped + 1 == head,
                cur@ == frontier@[popped]@,
                forall|i: int, i2: int| 0 <= i < i2 < next@.len() ==> next@[i] < next@[i2],
                j > 0 ==> cur@.len() + 1 < target,
                frontier@.len() >= 1,
                forall|m1: int, m2: int| 0 <= m1 < m2 < frontier@.len() ==> shortlex_lt(
                    #[trigger] frontier@[m1]@,
                    #[trigger] frontier@[m2]@,
                ),
                forall|m: int| 0 <= m < frontier@.len() ==> (#[trigger] frontier@[m])@.len()
                    <= frontier@[frontier@.len() - 1]@.len(),
                forall|m: int, m2: int, y: u8| 0 <= m < frontier@.len() && head <= m2 < frontier@.len()
                    ==> #[trigger] shortlex_lt(frontier@[m]@, frontier@[m2]@.push(y)),
                forall|m: int, j2: int| 0 <= m < frontier@.len() && j <= j2 < next@.len()
                    ==> #[trigger] shortlex_lt(frontier@[m]@, cur@.push(next@[j2])),
            decreases next@.len() - j,
        {
            let mut e = copy_prefix(&cur, cur.len());
            e.push(next[j]);
            proof {
                assert(cur@.take(cur@.len() as int) =~= cur@);
                lemma_candidate_push(k, cur@, next@[j as int]);
            }
            if e.len() == target {
                proof {
                    assert(j == 0);
                    assert forall|w: Seq<u8>| w.len() == e@.len() && #[trigger] candidate(k, w) implies w == e@
                        || lex_lt(e@, w) by {
                        if pending_prefix(frontier@, head as int, w) {
                            let m = choose|m: int| head <= m < frontier@.len() && (#[trigger] frontier@[m])@
                                == w.take(frontier@[m]@.len() as int);
                            let p = frontier@[m]@;
                            assert(shortlex_lt(frontier@[popped]@, frontier@[m]@));
                            assert(p.len() == lc);
                            lemma_lex_extend(cur@, p, w, next@[0]);
                        } else {
                            let j2 = choose|j2: int| 0 <= j2 < next@.len() && #[trigger] next@[j2] == w[cur@.len() as int];
                            if j2 == 0 {
                                assert(w =~= e@);
                            } else {
                                lemma_lex_last(cur@, w, next@[0]);
                            }
                        }
                    }
                }
                return SearchEnd::Found(e);
            }
            let ghost prev = frontier@;
            frontier.push(e);
            proof {
                let last = prev.len() as int;
                assert(frontier@[last] == e);
                assert forall|m: int| 0 <= m < last implies shortlex_lt(#[trigger] frontier@[m]@, e@) by {
                    assert(frontier@[m] == prev[m]);
                    assert(shortlex_lt(prev[m]@, cur@.push(next@[j as int])));
                }
                assert forall|m1: int, m2: int| 0 <= m1 < m2 < frontier@.len() implies shortlex_lt(
                    #[trigger] frontier@[m1]@,
                    #[trigger] frontier@[m2]@,
                ) by {
                    if m2 < last {
                        assert(frontier@[m1] == prev[m1] && frontier@[m2] == prev[m2]);
                    }
                }
                assert forall|m: int| 0 <= m < frontier@.len() implies (#[trigger] frontier@[m])@.len()
                    <= frontier@[frontier@.len() - 1]@.len() by {
                    if m < last {
                        assert(shortlex_lt(frontier@[m]@, e@));
                    }
                }
                assert forall|m: int, m2: int, y: u8| 0 <= m < frontier@.len() && head <= m2 < frontier@.len()
                    implies #[trigger] shortlex_lt(frontier@[m]@, frontier@[m2]@.push(y)) by {
                    if m2 == last {
                        if m < last {
                            assert(frontier@[m] == prev[m]);
                            assert(prev[m]@.len() <= prev[last - 1]@.len());
                            assert(shortlex_lt(prev[m]@, e@));
                        }
                    } else if m < last {
                        assert(frontier@[m] == prev[m] && frontier@[m2] == prev[m2]);
                        assert(shortlex_lt(prev[m]@, prev[m2]@.push(y)));
                    } else {
                        assert(frontier@[m2] == prev[m2]);
                        assert(shortlex_lt(prev[popped]@, prev[m2]@));
                        if prev[m2]@.len() == lc {
                            lemma_lex_push(cur@, prev[m2]@, next@[j as int], y);
                        }
                    }
                }
                assert forall|m: int, j2: int| 0 <= m < frontier@.len() && j + 1 <= j2 < next@.len()
                    implies #[trigger] shortlex_lt(frontier@[m]@, cur@.push(next@[j2])) by {
                    if m < last {
                        assert(frontier@[m] == prev[m]);
                    } else {
                        let i = lc;
                        assert(e@.take(i) =~= cur@);
                        assert(cur@.push(next@[j2]).take(i) =~= cur@);
                        assert(e@[i] < cur@.push(next@[j2])[i]);
                    }
                }
                assert forall|l: int| l >= 1 implies #[trigger] count_upto(frontier@, frontier@.len() as int, l + 1)
                    + (if l >= lc { k - (j + 1) } else { 0 }) <= 1 + k * count_upto(frontier@, head as int, l) by {
                    lemma_count_push(prev, e, prev.len() as int, l + 1);
                    lemma_count_push(prev, e, head as int, l);
                    assert(count_upto(frontier@, frontier@.len() as int, l + 1) == count_upto(frontier@, prev.len() as int, l + 1)
                        + if e@.len() <= l + 1 { 1nat } else { 0nat });
                    assert(frontier@[prev.len() as int] == e);
                }
                assert forall|v: Seq<u8>| v.len() == target && #[trigger] candidate(k, v) implies pending_prefix(
                    frontier@,
                    head as int,
                    v,
                ) || (cur@ == v.take(cur@.len() as int) && exists|j2: int|
                    j + 1 <= j2 < next@.len() && #[trigger] next@[j2] == v[cur@.len() as int]) by {
                    if pending_prefix(prev, head as int, v) {
                        let m = choose|m: int| head <= m < prev.len() && (#[trigger] prev[m])@ == v.take(prev[m]@.len() as int);
                        assert(frontier@[m] == prev[m]);
                    } else {
                        let j2 = choose|j2: int| j <= j2 < next@.len() && #[trigger] next@[j2] == v[cur@.len() as int];
                        if j2 == j {
                            let n = cur@.len() as int;
                            assert(v.take(n + 1) =~= e@);
                            assert(frontier@[prev.len() as int] == e);
                        }
                    }
                }
            }
            j += 1;
        }
        proof {
            assert forall|v: Seq<u8>| v.len() == target && #[trigger] candidate(k, v) implies pending_prefix(
                frontier@,
                head as int,
                v,
            ) by {
                if !pending_prefix(frontier@, head as int, v) {
                    assert(!(exists|j2: int| next@.len() <= j2 < next@.len() && #[trigger] next@[j2] == v[cur@.len() as int]));
                }
            }
        }
        sentinel += 1;
    }
    proof {
        lemma_count_all(frontier@, frontier@.len() as int, target - 1);
        lemma_count_bound(frontier@, head as int, k as nat, target - 1);
    }
    if head == frontier.len() {
        proof {
            assert forall|v: Seq<u8>| v.len() == target implies !#[trigger] candidate(k, v) by {
                if candidate(k, v) {
                    assert(pending_prefix(frontier@, head as int, v));
                }
            }
        }
        SearchEnd::Exhausted
    } else {
        SearchEnd::BudgetSpent
    }
}

/// The coloring that `depth_first_search` finds, if any.
pub fn depth_first(args: &Args) -> (r: Option<Vec<u8>>)
    requires
        args.colors >= 1,
        args.target >= 2,
    ensures
        r is Some ==> r->Some_0@.len() == args.target && candidate(args.colors, r->Some_0@),
        r is Some ==> sum_free(r->Some_0@),
        args.colors >= 2 && args.target == 2 ==> r is Some && r->Some_0@ == seed(),
        r is Some ==> least_candidate(args.colors, r->Some_0@),
        args.colors < 2 ==> r is None,
        solvable(args.colors, args.target as int) && args.attempts >= prefix_bound(
            args.colors as nat,
            args.target - 1,
        ) ==> r is Some,
{
    match depth_first_search(args) {
        SearchEnd::Found(v) => Some(v),
        _ => None,
    }
}

} // verus!
