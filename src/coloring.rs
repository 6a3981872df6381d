//! The validity predicate for colorings, and the letter short form.

use vstd::prelude::*;
use vstd::string::StrSliceExecFns;
use vstd::string::StringExecFns;

verus! {

/// The 1-indexed triple `b + (a - b) = a` is monochromatic in `c`.
pub open spec fn mono(c: Seq<u8>, a: int, b: int) -> bool {
    c[b - 1] == c[a - b - 1] && c[a - b - 1] == c[a - 1]
}

/// No monochromatic triple whose sum `a` is at most `m`.
pub open spec fn sum_free_upto(c: Seq<u8>, m: int) -> bool {
    forall|a: int, b: int| 2 <= a <= m && 1 <= b <= a / 2 ==> !#[trigger] mono(c, a, b)
}

/// The whole coloring is sum-free.
pub open spec fn sum_free(c: Seq<u8>) -> bool {
    sum_free_upto(c, c.len() as int)
}

/// Decimal digits of `n`, most significant first.
pub open spec fn decimal(n: nat) -> Seq<char>
    decreases n,
{
    if n < 10 {
        seq![digit(n)]
    } else {
        decimal(n / 10).push(digit(n % 10))
    }
}

pub open spec fn digit(d: nat) -> char {
    if d == 0 { '0' }
    else if d == 1 { '1' }
    else if d == 2 { '2' }
    else if d == 3 { '3' }
    else if d == 4 { '4' }
    else if d == 5 { '5' }
    else if d == 6 { '6' }
    else if d == 7 { '7' }
    else if d == 8 { '8' }
    else { '9' }
}

/// The text that describes the monochromatic triple `b + (a - b) = a` of `c`:
/// each position followed by its color in parentheses.
pub open spec fn violation_text(c: Seq<u8>, a: int, b: int) -> Seq<char> {
    "Invalid coloring: "@ + decimal(b as nat) + "("@ + decimal(c[b - 1] as nat) + ") + "@
        + decimal((a - b) as nat) + "("@ + decimal(c[a - b - 1] as nat) + ") = "@
        + decimal(a as nat) + "("@ + decimal(c[a - 1] as nat) + ")"@
}

/// Where and why a coloring is not sum-free.
pub struct InvalidOrdering {
    /// 0-indexed position of the sum of the first monochromatic triple.
    pub index: usize,
    pub message: String,
}

/// Relies on String::push: appends one character.
#[verifier::external_body]
fn push_char(s: &mut String, ch: char)
    ensures
        final(s)@ == old(s)@.push(ch),
{
    s.push(ch)
}

fn digit_char(d: u64) -> (r: char)
    requires
        d < 10,
    ensures
        r == digit(d as nat),
{
    if d == 0 { '0' }
    else if d == 1 { '1' }
    else if d == 2 { '2' }
    else if d == 3 { '3' }
    else if d == 4 { '4' }
    else if d == 5 { '5' }
    else if d == 6 { '6' }
    else if d == 7 { '7' }
    else if d == 8 { '8' }
    else { '9' }
}

/// Appends the decimal form of `n` to `s`.
pub fn push_decimal(s: &mut String, n: u64)
    ensures
        final(s)@ == old(s)@ + decimal(n as nat),
    decreases n,
{
    if n >= 10 {
        push_decimal(s, n / 10);
    }
    let ch = digit_char(n % 10);
    push_char(s, ch);
    assert(n >= 10 ==> (n as nat) / 10 == (n / 10) as nat);
    assert(final(s)@ =~= old(s)@ + decimal(n as nat));
}

fn describe(colors: &Vec<u8>, a: usize, b: usize) -> (r: String)
    requires
        1 <= b < a <= colors@.len(),
    ensures
        r@ == violation_text(colors@, a as int, b as int),
{
    let mut s = String::new();
    s.append("Invalid coloring: ");
    push_decimal(&mut s, b as u64);
    s.append("(");
    push_decimal(&mut s, colors[b - 1] as u64);
    s.append(") + ");
    push_decimal(&mut s, (a - b) as u64);
    s.append("(");
    push_decimal(&mut s, colors[a - b - 1] as u64);
    s.append(") = ");
    push_decimal(&mut s, a as u64);
    s.append("(");
    push_decimal(&mut s, colors[a - 1] as u64);
    s.append(")");
    assert(s@ =~= violation_text(colors@, a as int, b as int));
    s
}

/// Checks every triple `b + (a - b) = a` with `a` ascending from 2 and
/// `b` ascending from 1 to `a / 2`, and reports the first monochromatic one.
pub fn check_coloring(colors: &Vec<u8>) -> (r: Result<&'static str, InvalidOrdering>)
    ensures
        r is Ok <==> sum_free(colors@),
        r is Ok ==> r->Ok_0@ == "Coloring is valid"@,
        r is Err ==> ({
            let a = r->Err_0.index + 1;
            &&& 2 <= a <= colors@.len()
            &&& sum_free_upto(colors@, a - 1)
            &&& exists|b: int| #![trigger mono(colors@, a, b)]
                1 <= b <= a / 2 && mono(colors@, a, b)
                && (forall|b2: int| 1 <= b2 < b ==> !#[trigger] mono(colors@, a, b2))
                && r->Err_0.message@ == violation_text(colors@, a, b)
        }),
{
    let max = colors.len();
    let mut i: usize = 1;
    while i < max
        invariant
            max == colors@.len(),
            1 <= i,
            i <= max || max < 1,
            sum_free_upto(colors@, i as int),
        decreases max - i,
    {
        let a = i + 1;
        let mut b: usize = 1;
        while b <= a / 2
            invariant
                max == colors@.len(),
                2 <= a <= max,
                1 <= b <= a / 2 + 1,
                sum_free_upto(colors@, a - 1),
                forall|b2: int| 1 <= b2 < b ==> !#[trigger] mono(colors@, a as int, b2),
            decreases a / 2 + 1 - b,
        {
            if colors[b - 1] == colors[a - b - 1] && colors[a - b - 1] == colors[a - 1] {
                let message = describe(colors, a, b);
                let invalid = InvalidOrdering { index: a - 1, message };
                assert(mono(colors@, a as int, b as int));
                assert(invalid.index + 1 == a);
                assert(invalid.message@ == violation_text(colors@, a as int, b as int));
                assert(sum_free_upto(colors@, invalid.index as int));
                return Err(invalid);
            }
            b += 1;
        }
        i += 1;
    }
    assert(sum_free_upto(colors@, colors@.len() as int));
    Ok("Coloring is valid")
}

/// A failure reported at index `i` leaves every prefix of length at most `i`
/// sum-free: the checker visits sums in ascending order, so all triples with
/// a sum below the failing one were already found clean.
pub proof fn lemma_prefix_before_failure(c: Seq<u8>, i: int, k: int)
    requires
        1 <= i < c.len(),
        sum_free_upto(c, i),
        0 <= k <= i,
    ensures
        sum_free(c.take(k)),
{
    lemma_sum_free_take(c, i, k);
}

/// Taking a prefix keeps every triple inside it.
pub proof fn lemma_sum_free_take(c: Seq<u8>, m: int, k: int)
    requires
        0 <= k <= m <= c.len(),
        sum_free_upto(c, m),
    ensures
        sum_free(c.take(k)),
{
    assert forall|a: int, b: int| 2 <= a <= k && 1 <= b <= a / 2 implies !#[trigger] mono(
        c.take(k),
        a,
        b,
    ) by {
        assert(mono(c.take(k), a, b) == mono(c, a, b));
    }
}

/// The first `n` colors of `v`, as a new vector.
pub(crate) fn copy_prefix(v: &Vec<u8>, n: usize) -> (r: Vec<u8>)
    requires
        n <= v@.len(),
    ensures
        r@ == v@.take(n as int),
{
    let mut r: Vec<u8> = Vec::new();
    let mut i: usize = 0;
    while i < n
        invariant
            0 <= i <= n <= v@.len(),
            r@ =~= v@.take(i as int),
        decreases n - i,
    {
        r.push(v[i]);
        i += 1;
        assert(r@ =~= v@.take(i as int));
    }
    r
}

/// The letter that stands for a color in the short form.
pub open spec fn letter(color: u8) -> char {
    if color == 0 { 'a' }
    else if color == 1 { 'b' }
    else if color == 2 { 'c' }
    else if color == 3 { 'd' }
    else { 'e' }
}

/// Number of letters in the short form's alphabet.
pub const LETTER_COUNT: u8 = 5;

/// The human-readable short form: one letter per position, `a` for color 0.
pub fn short(solution: &Vec<u8>) -> (r: String)
    requires
        forall|i: int| 0 <= i < solution@.len() ==> solution@[i] < LETTER_COUNT,
    ensures
        r@ == solution@.map_values(|x: u8| letter(x)),
{
    let mut out = String::new();
    let mut i: usize = 0;
    while i < solution.len()
        invariant
            0 <= i <= solution@.len(),
            forall|j: int| 0 <= j < solution@.len() ==> solution@[j] < LETTER_COUNT,
            out@ =~= solution@.take(i as int).map_values(|x: u8| letter(x)),
        decreases solution@.len() - i,
    {
        let x = solution[i];
        let ch = if x == 0 {
            'a'
        } else if x == 1 {
            'b'
        } else if x == 2 {
            'c'
        } else if x == 3 {
            'd'
        } else {
            'e'
        };
        push_char(&mut out, ch);
        i += 1;
        assert(out@ =~= solution@.take(i as int).map_values(|x: u8| letter(x)));
    }
    assert(solution@.take(i as int) =~= solution@);
    out
}

/// The distinct characters of `s` in order of first appearance.
pub open spec fn first_seen(s: Seq<char>) -> Seq<char>
    decreases s.len(),
{
    if s.len() == 0 {
        Seq::empty()
    } else {
        let p = first_seen(s.drop_last());
        if p.contains(s.last()) {
            p
        } else {
            p.push(s.last())
        }
    }
}

proof fn lemma_first_seen_grows(s: Seq<char>, i: int, j: int)
    requires
        0 <= i <= j <= s.len(),
    ensures
        first_seen(s.take(i)).len() <= first_seen(s.take(j)).len(),
    decreases j - i,
{
    if i < j {
        lemma_first_seen_grows(s, i, j - 1);
        assert(s.take(j).drop_last() =~= s.take(j - 1));
    }
}

/// Decodes a short form: each character gets the color that is its rank
/// among the distinct characters in order of first appearance.
pub fn vec_from_coloring(s: &str) -> (r: Vec<u8>)
    requires
        first_seen(s@).len() <= 255,
    ensures
        r@.len() == s@.len(),
        forall|i: int| #![trigger r@[i]] 0 <= i < s@.len() ==> {
            let seen = first_seen(s@.take(i + 1));
            &&& r@[i] < seen.len()
            &&& seen[r@[i] as int] == s@[i]
        },
{
    let n = s.unicode_len();
    let mut result: Vec<u8> = Vec::new();
    let mut seen: Vec<char> = Vec::new();
    let mut i: usize = 0;
    while i < n
        invariant
            n == s@.len(),
            0 <= i <= n,
            first_seen(s@).len() <= 255,
            seen@ == first_seen(s@.take(i as int)),
            result@.len() == i,
            forall|k: int| #![trigger result@[k]] 0 <= k < i ==> {
                let fs = first_seen(s@.take(k + 1));
                &&& result@[k] < fs.len()
                &&& fs[result@[k] as int] == s@[k]
            },
        decreases n - i,
    {
        let ch = s.get_char(i);
        proof {
            assert(s@.take(i + 1).drop_last() =~= s@.take(i as int));
            assert(s@.take(n as int) =~= s@);
            lemma_first_seen_grows(s@, i + 1, n as int);
        }
        let mut j: usize = 0;
        while j < seen.len() && seen[j] != ch
            invariant
                0 <= j <= seen@.len(),
                forall|m: int| 0 <= m < j ==> seen@[m] != ch,
            decreases seen@.len() - j,
        {
            j += 1;
        }
        if j == seen.len() {
            proof {
                assert(!seen@.contains(ch));
            }
            seen.push(ch);
        }
        result.push(j as u8);
        i += 1;
    }
    assert(s@.take(n as int) =~= s@);
    result
}

/// Number of triples `b + (a - b) = a` with `2 <= a <= n` and `1 <= b <= a / 2`.
pub open spec fn pair_count(n: nat) -> nat
    decreases n,
{
    if n <= 1 {
        0
    } else {
        pair_count((n - 1) as nat) + n / 2
    }
}

proof fn lemma_pair_count_odd(m: nat)
    ensures
        pair_count(2 * m + 1) == m * (m + 1),
    decreases m,
{
    if m > 0 {
        lemma_pair_count_odd((m - 1) as nat);
        assert(pair_count(2 * m + 1) == pair_count(2 * m) + m);
        assert(pair_count(2 * m) == pair_count((2 * (m - 1) + 1) as nat) + m);
        let pm = (m - 1) as nat;
        assert(pair_count(2 * m + 1) == pm * (pm + 1) + 2 * m);
        assert(pm * (pm + 1) + 2 * m == m * (m + 1)) by (nonlinear_arith)
            requires
                pm + 1 == m,
        ;
        assert(pair_count(2 * m + 1) == m * (m + 1));
    } else {
        assert(pair_count(1) == 0);
        assert(m * (m + 1) == 0) by (nonlinear_arith)
            requires
                m == 0,
        ;
    }
}

proof fn lemma_product_even(k: nat)
    ensures
        (k * (k + 1)) % 2 == 0,
        k * (k + 1) <= 2 * (k * (k + 1) / 2) <= k * (k + 1),
    decreases k,
{
    if k > 0 {
        lemma_product_even((k - 1) as nat);
        assert(k * (k + 1) == (k - 1) * k + 2 * k) by (nonlinear_arith)
            requires
                k > 0,
        ;
    }
}

/// The triangular number `n * (n + 1) / 2`.
pub fn triangle(n: u64) -> (r: u64)
    requires
        n < 0x1_0000_0000,
    ensures
        r == n * (n + 1) / 2,
{
    assert(n * (n + 1) < 0x1_0000_0000 * 0x1_0000_0000) by (nonlinear_arith)
        requires
            n < 0x1_0000_0000,
    ;
    n * (n + 1) / 2
}

/// How many triples the checker examines for a coloring of length `n`.
pub fn num_checks(n: u64) -> (r: u64)
    requires
        1 <= n < 0x2_0000_0000,
    ensures
        r == pair_count(n as nat),
    decreases n,
{
    if n % 2 == 0 {
        let prev = num_checks(n - 1);
        proof {
            let k = ((n - 2) / 2) as nat;
            assert(n - 1 == 2 * k + 1);
            lemma_pair_count_odd(k);
            assert(k * (k + 1) + (k + 1) < 0x1_0000_0000 * 0x1_0000_0000) by (nonlinear_arith)
                requires
                    k + 1 < 0x1_0000_0000,
            ;
        }
        return prev + n / 2;
    }
    let k = (n - 1) / 2;
    let t_n = triangle(k);
    proof {
        lemma_pair_count_odd(k as nat);
        lemma_product_even(k as nat);
        assert(n == 2 * k + 1);
        assert(k * (k + 1) < 0x1_0000_0000 * 0x1_0000_0000) by (nonlinear_arith)
            requires
                k < 0x1_0000_0000,
        ;
    }
    2 * t_n
}

} // verus!
