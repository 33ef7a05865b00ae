use vstd::prelude::*;
use vstd::arithmetic::mul::lemma_mul_is_associative;

use crate::classify::{is_digit, is_finite_float_literal, is_float_literal, sign_start};
use crate::classify::{is_finite_float_str, is_float_literal_str};
use crate::classify::{spec_digits_range, spec_exp_tail, spec_mantissa, spec_number};
use crate::diagnose::NumCell;
use crate::fixed::Fx;
use crate::fixed::RAW_BOUND;

verus! {

/// The value of a decimal digit character; any other character counts
/// as zero.
pub open spec fn digit_val(c: char) -> int {
    if c == '1' {
        1
    } else if c == '2' {
        2
    } else if c == '3' {
        3
    } else if c == '4' {
        4
    } else if c == '5' {
        5
    } else if c == '6' {
        6
    } else if c == '7' {
        7
    } else if c == '8' {
        8
    } else if c == '9' {
        9
    } else {
        0
    }
}

/// Ten to the `n`.
pub open spec fn pow10(n: nat) -> int
    decreases n,
{
    if n == 0 {
        1
    } else {
        10 * pow10((n - 1) as nat)
    }
}

/// The number written by the digits `s[from .. to)`, most significant
/// first.
pub open spec fn dval(s: Seq<char>, from: int, to: int) -> int
    decreases to - from,
{
    if to <= from {
        0
    } else {
        dval(s, from, to - 1) * 10 + digit_val(s[to - 1])
    }
}

/// The first position in `s[from .. to)` holding `c1` or `c2`, or `to`
/// when none does.
pub open spec fn first_pos(s: Seq<char>, from: int, to: int, c1: char, c2: char) -> int
    decreases to - from,
{
    if from >= to {
        to
    } else if s[from] == c1 || s[from] == c2 {
        from
    } else {
        first_pos(s, from + 1, to, c1, c2)
    }
}

/// The signed value of an exponent tail: an optional sign, then digits.
pub open spec fn exp_val(s: Seq<char>, from: int, to: int) -> int {
    if from < to && s[from] == '-' {
        -dval(s, from + 1, to)
    } else if from < to && s[from] == '+' {
        dval(s, from + 1, to)
    } else {
        dval(s, from, to)
    }
}

/// The digits of a mantissa with the point taken out.
pub open spec fn mantissa_digits(s: Seq<char>, st: int, dot: int, e: int) -> Seq<char> {
    if dot < e {
        s.subrange(st, dot) + s.subrange(dot + 1, e)
    } else {
        s.subrange(st, e)
    }
}

/// The amount, in thousandths, that a finite numeric literal writes,
/// truncated towards zero: the mantissa digits shifted by the exponent
/// and by three decimal places, with the leading sign applied last.
pub open spec fn literal_milli(s: Seq<char>) -> int {
    let st = sign_start(s);
    let n = s.len() as int;
    let e = first_pos(s, st, n, 'e', 'E');
    let dot = first_pos(s, st, e, '.', '.');
    let md = mantissa_digits(s, st, dot, e);
    let f = if dot < e {
        e - dot - 1
    } else {
        0
    };
    let ex = if e < n {
        exp_val(s, e + 1, n)
    } else {
        0
    };
    let t = ex - f + 3;
    let dv = dval(md, 0, md.len() as int);
    let mag = if t >= 0 {
        dv * pow10(t as nat)
    } else {
        dv / pow10((-t) as nat)
    };
    if s.len() > 0 && s[0] == '-' {
        -mag
    } else {
        mag
    }
}

proof fn lemma_pow10_pos(n: nat)
    ensures
        pow10(n) >= 1,
    decreases n,
{
    if n > 0 {
        lemma_pow10_pos((n - 1) as nat);
    }
}

proof fn lemma_pow10_mono(a: nat, b: nat)
    requires
        a <= b,
    ensures
        pow10(a) <= pow10(b),
    decreases b,
{
    if a < b {
        lemma_pow10_mono(a, (b - 1) as nat);
        lemma_pow10_pos((b - 1) as nat);
    }
}

proof fn lemma_pow10_adds(a: nat, b: nat)
    ensures
        pow10(a + b) == pow10(a) * pow10(b),
    decreases a,
{
    if a == 0 {
    } else {
        lemma_pow10_adds((a - 1) as nat, b);
        assert(pow10(a + b) == 10 * pow10((a - 1) as nat + b));
        lemma_mul_is_associative(10, pow10((a - 1) as nat), pow10(b));
    }
}

proof fn lemma_pow10_13()
    ensures
        pow10(13) == 10_000_000_000_000,
{
    assert(pow10(0) == 1);
    assert(pow10(1) == 10);
    assert(pow10(2) == 100);
    assert(pow10(3) == 1000);
    assert(pow10(4) == 10000);
    assert(pow10(5) == 100000);
    assert(pow10(6) == 1000000);
    assert(pow10(7) == 10000000);
    assert(pow10(8) == 100000000);
    assert(pow10(9) == 1000000000);
    assert(pow10(10) == 10000000000);
    assert(pow10(11) == 100000000000);
    assert(pow10(12) == 1000000000000);
    assert(pow10(13) == 10000000000000);
}

proof fn lemma_pow10_20()
    ensures
        pow10(20) == 100_000_000_000_000_000_000,
{
    lemma_pow10_13();
    assert(pow10(14) == 10 * pow10(13));
    assert(pow10(15) == 10 * pow10(14));
    assert(pow10(16) == 10 * pow10(15));
    assert(pow10(17) == 10 * pow10(16));
    assert(pow10(18) == 10 * pow10(17));
    assert(pow10(19) == 10 * pow10(18));
    assert(pow10(20) == 10 * pow10(19));
}

proof fn lemma_dval_bounds(s: Seq<char>, from: int, to: int)
    requires
        from <= to,
    ensures
        0 <= dval(s, from, to) < pow10((to - from) as nat),
    decreases to - from,
{
    if to > from {
        lemma_dval_bounds(s, from, to - 1);
    }
}

proof fn lemma_dval_first_nonzero(s: Seq<char>, from: int, to: int)
    requires
        from < to,
        is_digit(s[from]),
        s[from] != '0',
    ensures
        dval(s, from, to) >= pow10((to - from - 1) as nat),
    decreases to - from,
{
    if to - 1 == from {
        assert(digit_val(s[from]) >= 1);
    } else {
        lemma_dval_first_nonzero(s, from, to - 1);
        lemma_pow10_pos((to - from - 2) as nat);
        assert(dval(s, from, to) == dval(s, from, to - 1) * 10 + digit_val(s[to - 1]));
        assert(dval(s, from, to - 1) >= pow10((to - from - 2) as nat));
        assert(pow10((to - from - 1) as nat) == 10 * pow10((to - from - 2) as nat));
        assert(digit_val(s[to - 1]) >= 0);
    }
}

proof fn lemma_dval_zeros(s: Seq<char>, from: int, to: int)
    requires
        forall|k: int| from <= k < to ==> s[k] == '0',
    ensures
        dval(s, from, to) == 0,
    decreases to - from,
{
    if to > from {
        lemma_dval_zeros(s, from, to - 1);
    }
}

proof fn lemma_dval_strip(s: Seq<char>, from: int, z: int, to: int)
    requires
        from <= z <= to,
        forall|k: int| from <= k < z ==> s[k] == '0',
    ensures
        dval(s, from, to) == dval(s, z, to),
    decreases to - z,
{
    if to == z {
        lemma_dval_zeros(s, from, to);
    } else {
        lemma_dval_strip(s, from, z, to - 1);
    }
}

proof fn lemma_dval_split(s: Seq<char>, from: int, mid: int, to: int)
    requires
        from <= mid <= to,
    ensures
        dval(s, from, to) == dval(s, from, mid) * pow10((to - mid) as nat) + dval(s, mid, to),
    decreases to - mid,
{
    if to == mid {
    } else {
        lemma_dval_split(s, from, mid, to - 1);
        let a = dval(s, from, mid);
        let p = pow10((to - 1 - mid) as nat);
        assert(dval(s, from, to) == (a * p + dval(s, mid, to - 1)) * 10 + digit_val(s[to - 1]));
        assert((a * p + dval(s, mid, to - 1)) * 10 == a * p * 10 + dval(s, mid, to - 1) * 10)
            by (nonlinear_arith);
        lemma_mul_is_associative(a, p, 10);
        assert(pow10((to - mid) as nat) == 10 * p);
        assert(a * (p * 10) == a * pow10((to - mid) as nat)) by (nonlinear_arith)
            requires
                p * 10 == 10 * p,
                pow10((to - mid) as nat) == 10 * p,
        ;
    }
}

/// The number written by the first `j` digits of `s[z ..)`, reading `0`
/// past the end of `s`.
pub open spec fn padded_val(s: Seq<char>, z: int, j: int) -> int
    decreases j,
{
    if j <= 0 {
        0
    } else {
        padded_val(s, z, j - 1) * 10 + (if z + j - 1 < s.len() {
            digit_val(s[z + j - 1])
        } else {
            0
        })
    }
}

proof fn lemma_padded_in_range(s: Seq<char>, z: int, j: int)
    requires
        0 <= z,
        0 <= j,
        z + j <= s.len(),
    ensures
        padded_val(s, z, j) == dval(s, z, z + j),
    decreases j,
{
    if j > 0 {
        lemma_padded_in_range(s, z, j - 1);
    }
}

proof fn lemma_padded_shifts(s: Seq<char>, z: int, t: int)
    requires
        0 <= z <= s.len(),
        0 <= t,
    ensures
        padded_val(s, z, s.len() - z + t) == dval(s, z, s.len() as int) * pow10(t as nat),
    decreases t,
{
    if t == 0 {
        lemma_padded_in_range(s, z, s.len() - z);
    } else {
        lemma_padded_shifts(s, z, t - 1);
        let dv = dval(s, z, s.len() as int);
        let p = pow10((t - 1) as nat);
        assert(padded_val(s, z, s.len() - z + t) == dv * p * 10);
        lemma_mul_is_associative(dv, p, 10);
        assert(dv * (p * 10) == dv * pow10(t as nat)) by (nonlinear_arith)
            requires
                p * 10 == 10 * p,
                pow10(t as nat) == 10 * p,
        ;
    }
}

proof fn lemma_padded_truncates(s: Seq<char>, z: int, keep: int)
    requires
        0 <= z,
        0 < keep,
        z + keep <= s.len(),
    ensures
        padded_val(s, z, keep) == dval(s, z, s.len() as int) / pow10((s.len() - z - keep) as nat),
{
    let len = s.len() as int;
    let m = (len - z - keep) as nat;
    lemma_padded_in_range(s, z, keep);
    lemma_dval_split(s, z, z + keep, len);
    lemma_dval_bounds(s, z + keep, len);
    lemma_pow10_pos(m);
    let q = dval(s, z, z + keep);
    let b = dval(s, z + keep, len);
    assert(q * pow10(m) == pow10(m) * q) by (nonlinear_arith);
    assert((pow10(m) * q + b) / pow10(m) == q) by {
        vstd::arithmetic::div_mod::lemma_div_multiples_vanish_fancy(q, b, pow10(m));
    }
}

proof fn lemma_first_pos_is(s: Seq<char>, from: int, to: int, c1: char, c2: char, i: int)
    requires
        from <= i <= to,
        forall|k: int| from <= k < i ==> !(s[k] == c1 || s[k] == c2),
        i == to || s[i] == c1 || s[i] == c2,
    ensures
        first_pos(s, from, to, c1, c2) == i,
    decreases i - from,
{
    if from < i {
        lemma_first_pos_is(s, from + 1, to, c1, c2, i);
    }
}

/// The first position in `s[from .. to)` holding `c1` or `c2`, or `to`.
fn find_char2(s: &str, from: usize, to: usize, c1: char, c2: char) -> (i: usize)
    requires
        from <= to <= s@.len(),
    ensures
        from <= i <= to,
        i as int == first_pos(s@, from as int, to as int, c1, c2),
        i < to ==> (s@[i as int] == c1 || s@[i as int] == c2),
        forall|k: int| from <= k < i ==> !(s@[k] == c1 || s@[k] == c2),
{
    let mut i: usize = from;
    let mut found = false;
    while i < to && !found
        invariant
            from <= i <= to <= s@.len(),
            forall|k: int| from <= k < i ==> !(s@[k] == c1 || s@[k] == c2),
            found ==> i < to && (s@[i as int] == c1 || s@[i as int] == c2),
        decreases 2 * (to - i) + (if found {
            0int
        } else {
            1int
        }),
    {
        let c = s.get_char(i);
        if c == c1 || c == c2 {
            found = true;
        } else {
            i = i + 1;
        }
    }
    proof {
        lemma_first_pos_is(s@, from as int, to as int, c1, c2, i as int);
    }
    i
}

fn digit_of(c: char) -> (v: u64)
    ensures
        v == digit_val(c),
{
    match c {
        '1' => 1,
        '2' => 2,
        '3' => 3,
        '4' => 4,
        '5' => 5,
        '6' => 6,
        '7' => 7,
        '8' => 8,
        '9' => 9,
        _ => 0,
    }
}

/// Copies the mantissa digits of `s[st .. e)`, leaving out the point at
/// `dot` when there is one.
fn collect_mantissa(s: &str, st: usize, dot: usize, e: usize) -> (d: Vec<char>)
    requires
        st <= dot <= e <= s@.len(),
    ensures
        d@ == mantissa_digits(s@, st as int, dot as int, e as int),
{
    let mut d: Vec<char> = Vec::new();
    if dot < e {
        let mut i: usize = st;
        while i < dot
            invariant
                st <= i <= dot < e <= s@.len(),
                d@ == s@.subrange(st as int, i as int),
            decreases dot - i,
        {
            d.push(s.get_char(i));
            proof {
                assert(d@ =~= s@.subrange(st as int, i as int + 1));
            }
            i = i + 1;
        }
        let mut j: usize = dot + 1;
        while j < e
            invariant
                dot < j <= e <= s@.len(),
                st <= dot,
                d@ == s@.subrange(st as int, dot as int) + s@.subrange(dot as int + 1, j as int),
            decreases e - j,
        {
            d.push(s.get_char(j));
            proof {
                assert(d@ =~= s@.subrange(st as int, dot as int) + s@.subrange(
                    dot as int + 1,
                    j as int + 1,
                ));
            }
            j = j + 1;
        }
        proof {
            assert(d@ =~= mantissa_digits(s@, st as int, dot as int, e as int));
        }
    } else {
        let mut i: usize = st;
        while i < e
            invariant
                st <= i <= e <= s@.len(),
                d@ == s@.subrange(st as int, i as int),
            decreases e - i,
        {
            d.push(s.get_char(i));
            proof {
                assert(d@ =~= s@.subrange(st as int, i as int + 1));
            }
            i = i + 1;
        }
        proof {
            assert(d@ =~= mantissa_digits(s@, st as int, dot as int, e as int));
        }
    }
    d
}

/// A number splits at the first exponent mark: everything before it is
/// the mantissa, everything after it the exponent tail.
proof fn lemma_number_decomposition(s: Seq<char>, st: int, n: int, e0: int)
    requires
        spec_number(s, st, n),
        st <= e0 <= n,
        forall|k: int| st <= k < e0 ==> !(s[k] == 'e' || s[k] == 'E'),
        e0 == n || s[e0] == 'e' || s[e0] == 'E',
    ensures
        spec_mantissa(s, st, e0),
        e0 < n ==> spec_exp_tail(s, e0 + 1, n),
{
    if spec_mantissa(s, st, n) {
        if e0 < n {
            if spec_digits_range(s, st, n) {
                assert(is_digit(s[e0]));
                assert(false);
            } else {
                let k = choose|k: int|
                    st <= k < n && s[k] == '.' && n - st >= 2 && (forall|i: int|
                        st <= i < n && i != k ==> is_digit(#[trigger] s[i]));
                if k == e0 {
                    assert(false);
                } else {
                    assert(is_digit(s[e0]));
                    assert(false);
                }
            }
        }
    } else {
        let e = choose|e: int|
            st <= e < n && (s[e] == 'e' || s[e] == 'E') && spec_mantissa(s, st, e)
                && spec_exp_tail(s, e + 1, n);
        if e > e0 {
            assert(e0 < n);
            if spec_digits_range(s, st, e) {
                assert(is_digit(s[e0]));
                assert(false);
            } else {
                let k = choose|k: int|
                    st <= k < e && s[k] == '.' && e - st >= 2 && (forall|i: int|
                        st <= i < e && i != k ==> is_digit(#[trigger] s[i]));
                if k == e0 {
                    assert(false);
                } else {
                    assert(is_digit(s[e0]));
                    assert(false);
                }
            }
        }
        assert(e == e0);
    }
}

/// A mantissa splits at its first point, when it has one: the other
/// characters are digits.
proof fn lemma_mantissa_decomposition(s: Seq<char>, st: int, e0: int, dot0: int)
    requires
        spec_mantissa(s, st, e0),
        st <= dot0 <= e0,
        forall|k: int| st <= k < dot0 ==> s[k] != '.',
        dot0 == e0 || s[dot0] == '.',
    ensures
        dot0 == e0 ==> spec_digits_range(s, st, e0),
        dot0 < e0 ==> (forall|i: int| st <= i < e0 && i != dot0 ==> is_digit(#[trigger] s[i])),
        st < e0,
{
    if dot0 == e0 {
        if !spec_digits_range(s, st, e0) {
            let k = choose|k: int|
                st <= k < e0 && s[k] == '.' && e0 - st >= 2 && (forall|i: int|
                    st <= i < e0 && i != k ==> is_digit(#[trigger] s[i]));
            assert(false);
        }
    } else {
        assert(!is_digit('.'));
        if spec_digits_range(s, st, e0) {
            assert(is_digit(s[dot0]));
            assert(false);
        }
        let k = choose|k: int|
            st <= k < e0 && s[k] == '.' && e0 - st >= 2 && (forall|i: int|
                st <= i < e0 && i != k ==> is_digit(#[trigger] s[i]));
        if k != dot0 {
            assert(is_digit(s[dot0]));
            assert(false);
        }
    }
}

/// An exponent tail splits behind its sign, when it has one: the rest
/// is digits.
proof fn lemma_exp_decomposition(s: Seq<char>, es: int, n: int)
    requires
        spec_exp_tail(s, es, n),
    ensures
        es < n,
        (s[es] == '+' || s[es] == '-') ==> spec_digits_range(s, es + 1, n),
        !(s[es] == '+' || s[es] == '-') ==> spec_digits_range(s, es, n),
{
    if s[es] == '+' || s[es] == '-' {
        if spec_digits_range(s, es, n) {
            assert(is_digit(s[es]));
            assert(false);
        }
    }
}

/// Reads one raw cell that follows the numeric literal grammar as a
/// fixed-point cell, exactly: the amount the text writes, truncated
/// towards zero to the nearest thousandth.  A special word (an infinity
/// or a not-a-number) and an amount beyond the engine's range both give
/// a missing cell; text outside the grammar gives nothing.
#[verifier::rlimit(100)]
#[verifier::spinoff_prover]
pub fn parse_cell(s: &str) -> (r: Option<NumCell>)
    ensures
        r is Some <==> is_float_literal(s@),
        (is_float_literal(s@) && !is_finite_float_literal(s@)) ==> r == Some(NumCell::Missing),
        is_finite_float_literal(s@) ==> {
            let m = literal_milli(s@);
            &&& (-RAW_BOUND <= m <= RAW_BOUND ==> (r matches Some(c) && c matches NumCell::Value(v)
                && v.raw == m))
            &&& !(-RAW_BOUND <= m <= RAW_BOUND) ==> r == Some(NumCell::Missing)
        },
{
    let ghost gs = s@;
    if !is_finite_float_str(s) {
        if is_float_literal_str(s) {
            return Some(NumCell::Missing);
        }
        return None;
    }
    let n = s.unicode_len();
    let start: usize = if n > 0 {
        let c = s.get_char(0);
        if c == '+' || c == '-' {
            1
        } else {
            0
        }
    } else {
        0
    };
    let neg = n > 0 && s.get_char(0) == '-';
    proof {
        assert(start as int == crate::classify::sign_start(gs));
    }
    let e0 = find_char2(s, start, n, 'e', 'E');
    let dot0 = find_char2(s, start, e0, '.', '.');
    proof {
        lemma_number_decomposition(gs, start as int, n as int, e0 as int);
        lemma_mantissa_decomposition(gs, start as int, e0 as int, dot0 as int);
    }
    let d = collect_mantissa(s, start, dot0, e0);
    let ghost md = mantissa_digits(gs, start as int, dot0 as int, e0 as int);
    proof {
        assert forall|j: int| 0 <= j < md.len() implies is_digit(#[trigger] md[j]) by {
            if dot0 < e0 {
                if j < dot0 - start {
                    assert(md[j] == gs[start + j]);
                } else {
                    assert(md[j] == gs[dot0 as int + 1 + (j - (dot0 - start))]);
                }
            } else {
                assert(md[j] == gs[start + j]);
            }
        };
    }
    // Strip the leading zeros of the mantissa digits.
    let mut zm: usize = 0;
    while zm < d.len() && d[zm] == '0'
        invariant
            zm <= d@.len(),
            d@ == md,
            forall|k: int| 0 <= k < zm ==> md[k] == '0',
        decreases d@.len() - zm,
    {
        zm = zm + 1;
    }
    let ghost dv = dval(md, 0, md.len() as int);
    proof {
        lemma_dval_strip(md, 0, zm as int, md.len() as int);
    }
    if zm == d.len() {
        // Every mantissa digit is zero: the amount is exactly zero.
        proof {
            lemma_dval_zeros(md, zm as int, md.len() as int);
            if literal_milli(gs) != 0 {
                let t = (if e0 < n {
                    exp_val(gs, e0 as int + 1, n as int)
                } else {
                    0
                }) - (if dot0 < e0 {
                    e0 - dot0 - 1
                } else {
                    0int
                }) + 3;
                if t >= 0 {
                } else {
                    lemma_pow10_pos((-t) as nat);
                    vstd::arithmetic::div_mod::lemma_div_of0(pow10((-t) as nat));
                }
                assert(false);
            }
        }
        return Some(NumCell::Value(Fx { raw: 0 }));
    }
    let ghost sig = md.len() - zm;
    proof {
        assert(is_digit(md[zm as int]) && md[zm as int] != '0');
        lemma_dval_first_nonzero(md, zm as int, md.len() as int);
        lemma_dval_bounds(md, zm as int, md.len() as int);
    }
    let f: usize = if dot0 < e0 {
        e0 - dot0 - 1
    } else {
        0
    };
    // Read the exponent, if any, saturating on absurd sizes.
    let mut neg_exp = false;
    let mut exp_huge = false;
    let mut exp_mag: i128 = 0;
    if e0 < n {
        proof {
            lemma_exp_decomposition(gs, e0 as int + 1, n as int);
        }
        let es = e0 + 1;
        let c = s.get_char(es);
        let ds: usize = if c == '-' {
            neg_exp = true;
            es + 1
        } else if c == '+' {
            es + 1
        } else {
            es
        };
        let mut ez: usize = ds;
        let mut stop = false;
        while ez < n && !stop
            invariant
                gs == s@,
                ds <= ez <= n == gs.len(),
                forall|k: int| ds <= k < ez ==> gs[k] == '0',
                stop ==> ez < n && gs[ez as int] != '0',
            decreases 2 * (n - ez) + (if stop {
                0int
            } else {
                1int
            }),
        {
            if s.get_char(ez) == '0' {
                ez = ez + 1;
            } else {
                stop = true;
            }
        }
        proof {
            lemma_dval_strip(gs, ds as int, ez as int, n as int);
        }
        if n - ez > 20 {
            exp_huge = true;
            proof {
                assert(is_digit(gs[ez as int]) && gs[ez as int] != '0');
                lemma_dval_first_nonzero(gs, ez as int, n as int);
                lemma_pow10_mono(20, (n - ez - 1) as nat);
                lemma_pow10_20();
            }
        } else {
            let mut i: usize = ez;
            while i < n
                invariant
                    gs == s@,
                    ez <= i <= n == gs.len(),
                    n - ez <= 20,
                    forall|k: int| ez <= k < n ==> is_digit(#[trigger] gs[k]),
                    exp_mag == dval(gs, ez as int, i as int),
                    0 <= exp_mag < pow10((i - ez) as nat),
                decreases n - i,
            {
                proof {
                    lemma_pow10_mono((i - ez) as nat, 20);
                    lemma_pow10_20();
                }
                let dig = digit_of(s.get_char(i));
                exp_mag = exp_mag * 10 + dig as i128;
                i = i + 1;
            }
            proof {
                lemma_pow10_mono((n - ez) as nat, 20);
                lemma_pow10_20();
            }
        }
        proof {
            if !(gs[es as int] == '+' || gs[es as int] == '-') {
                assert(dval(gs, es as int, n as int) == dval(gs, ds as int, n as int));
            }
        }
    }
    let ghost ex = if e0 < n {
        exp_val(gs, e0 as int + 1, n as int)
    } else {
        0int
    };
    let ghost t = ex - f + 3;
    let ghost mag = if t >= 0 {
        dv * pow10(t as nat)
    } else {
        dv / pow10((-t) as nat)
    };
    proof {
        assert(literal_milli(gs) == if neg {
            -mag
        } else {
            mag
        });
    }
    if exp_huge {
        if neg_exp {
            // The amount is smaller than any thousandth: it truncates
            // to zero.
            proof {
                assert(ex <= -pow10(20) + 0);
                assert(t < 0 && -t >= pow10(20) - 3);
                assert(md.len() < pow10(20) - 3);
                lemma_pow10_mono(sig as nat, (-t) as nat);
                lemma_pow10_mono((md.len() - zm) as nat, (-t) as nat);
                vstd::arithmetic::div_mod::lemma_basic_div(dv, pow10((-t) as nat));
            }
            return Some(NumCell::Value(Fx { raw: 0 }));
        }
        // The amount dwarfs the engine's range.
        proof {
            assert(ex >= pow10(20));
            assert(f < pow10(20) - 17);
            assert(t >= 14);
            lemma_pow10_mono(14, t as nat);
            lemma_pow10_13();
            assert(pow10(14) == 10 * pow10(13));
            assert(dv >= 1);
            assert(mag >= pow10(t as nat)) by (nonlinear_arith)
                requires
                    dv >= 1,
                    pow10(t as nat) >= 0,
                    mag == dv * pow10(t as nat),
            ;
        }
        return Some(NumCell::Missing);
    }
    let exv: i128 = if neg_exp {
        -exp_mag
    } else {
        exp_mag
    };
    proof {
        assert(exv == ex);
    }
    let t_ex: i128 = exv - f as i128 + 3;
    proof {
        assert(t_ex == t);
    }
    let sig_ex: i128 = (d.len() - zm) as i128;
    let keep: i128 = sig_ex + t_ex;
    if keep <= 0 {
        proof {
            assert(t < 0);
            lemma_pow10_mono(sig as nat, (-t) as nat);
            vstd::arithmetic::div_mod::lemma_basic_div(dv, pow10((-t) as nat));
        }
        return Some(NumCell::Value(Fx { raw: 0 }));
    }
    if keep > 13 {
        proof {
            lemma_pow10_13();
            if t >= 0 {
                lemma_pow10_adds((sig - 1) as nat, t as nat);
                lemma_pow10_pos(t as nat);
                lemma_pow10_pos((sig - 1) as nat);
                assert(mag >= pow10((sig - 1) as nat) * pow10(t as nat)) by (nonlinear_arith)
                    requires
                        dv >= pow10((sig - 1) as nat),
                        pow10(t as nat) >= 1,
                        mag == dv * pow10(t as nat),
                ;
                lemma_pow10_mono(13, (sig - 1 + t) as nat);
            } else {
                let b = pow10((-t) as nat);
                lemma_pow10_pos((-t) as nat);
                vstd::arithmetic::div_mod::lemma_div_is_ordered(
                    pow10((sig - 1) as nat),
                    dv,
                    b,
                );
                lemma_pow10_adds((sig - 1 + t) as nat, (-t) as nat);
                assert(pow10((sig - 1) as nat) == b * pow10((sig - 1 + t) as nat))
                    by (nonlinear_arith)
                    requires
                        pow10((sig - 1) as nat) == pow10((sig - 1 + t) as nat) * b,
                ;
                vstd::arithmetic::div_mod::lemma_div_multiples_vanish(
                    pow10((sig - 1 + t) as nat),
                    b,
                );
                lemma_pow10_mono(13, (sig - 1 + t) as nat);
            }
        }
        return Some(NumCell::Missing);
    }
    let keep_u: usize = keep as usize;
    let mut acc: i64 = 0;
    let mut j: usize = 0;
    while j < keep_u
        invariant
            j <= keep_u <= 13,
            zm <= d@.len(),
            d@ == md,
            acc == padded_val(md, zm as int, j as int),
            0 <= acc < pow10(j as nat),
        decreases keep_u - j,
    {
        proof {
            lemma_pow10_mono(j as nat, 13);
            lemma_pow10_13();
        }
        let dig: u64 = if j < d.len() - zm {
            digit_of(d[zm + j])
        } else {
            0
        };
        acc = acc * 10 + dig as i64;
        j = j + 1;
    }
    proof {
        if t >= 0 {
            lemma_padded_shifts(md, zm as int, t);
        } else {
            lemma_padded_truncates(md, zm as int, keep as int);
        }
        assert(acc == mag);
    }
    if acc > RAW_BOUND {
        return Some(NumCell::Missing);
    }
    if neg {
        Some(NumCell::Value(Fx { raw: -acc }))
    } else {
        Some(NumCell::Value(Fx { raw: acc }))
    }
}

} // verus!
