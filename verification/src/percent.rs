use vstd::prelude::*;

use crate::json::{
    all_digits, at, count_digits, decimal_value, digit_count, is_ascii_digit, is_number_text,
    spec_number,
};
use crate::text::slice_to_vec;

verus! {

pub open spec fn pow10(e: nat) -> int
    decreases e,
{
    if e == 0 { 1 } else { 10 * pow10((e - 1) as nat) }
}

/// The parts of a JSON number literal: its sign, the digits of its mantissa
/// (integer and fraction digits together) and the power of ten that scales
/// them.
pub open spec fn number_parts(t: Seq<char>) -> Option<(bool, Seq<char>, int)> {
    if spec_number(t, 0) != Some(t.len() as int) {
        None
    } else {
        let negative = at(t, 0, '-');
        let p1: int = if negative { 1 } else { 0 };
        let p2 = p1 + digit_count(t, p1);
        let has_fraction = at(t, p2, '.');
        let fraction_len: int = if has_fraction { digit_count(t, p2 + 1) as int } else { 0 };
        let p3 = if has_fraction { p2 + 1 + fraction_len } else { p2 };
        let exponent: int = if at(t, p3, 'e') || at(t, p3, 'E') {
            let negative_exponent = at(t, p3 + 1, '-');
            let p4 = if at(t, p3 + 1, '+') || negative_exponent { p3 + 2 } else { p3 + 1 };
            let v = decimal_value(t.subrange(p4, t.len() as int));
            if negative_exponent { -v } else { v }
        } else {
            0
        };
        let mantissa = t.subrange(p1, p2) + if has_fraction { t.subrange(p2 + 1, p3) } else { Seq::empty() };
        Some((negative, mantissa, exponent - fraction_len))
    }
}

/// `m * 10^e <= 100`.
pub open spec fn scaled_at_most_100(m: int, e: int) -> bool {
    if e >= 0 {
        m * pow10(e as nat) <= 100
    } else {
        m <= 100 * pow10((-e) as nat)
    }
}

/// A JSON number literal whose exact value lies between 0 and 100.
pub open spec fn spec_percent_in_range(t: Seq<char>) -> bool {
    match number_parts(t) {
        None => false,
        Some((negative, mantissa, e)) => decimal_value(mantissa) == 0 || (!negative
            && scaled_at_most_100(decimal_value(mantissa), e)),
    }
}

// --- Facts about decimal digits and powers of ten ---------------------------

proof fn lemma_pow10_positive(e: nat)
    ensures
        pow10(e) >= 1,
    decreases e,
{
    if e > 0 {
        lemma_pow10_positive((e - 1) as nat);
    }
}

proof fn lemma_pow10_add(a: nat, b: nat)
    ensures
        pow10(a + b) == pow10(a) * pow10(b),
    decreases a,
{
    if a > 0 {
        lemma_pow10_add((a - 1) as nat, b);
        let x = pow10((a - 1) as nat);
        let y = pow10(b);
        assert(pow10(a + b) == 10 * pow10((a - 1 + b) as nat));
        assert(10 * (x * y) == (10 * x) * y) by (nonlinear_arith);
    }
}

proof fn lemma_pow10_monotone(a: nat, b: nat)
    requires
        a <= b,
    ensures
        pow10(a) <= pow10(b),
{
    lemma_pow10_add(a, (b - a) as nat);
    lemma_pow10_positive((b - a) as nat);
    lemma_pow10_positive(a);
    let x = pow10(a);
    let y = pow10((b - a) as nat);
    assert(x <= x * y) by (nonlinear_arith)
        requires
            x >= 1,
            y >= 1,
    ;
}

pub open spec fn all_zeros(d: Seq<char>) -> bool {
    forall|i: int| 0 <= i < d.len() ==> #[trigger] d[i] == '0'
}

proof fn lemma_zeros_value(d: Seq<char>)
    requires
        all_zeros(d),
    ensures
        decimal_value(d) == 0,
    decreases d.len(),
{
    if d.len() > 0 {
        let e = d.subrange(0, d.len() - 1);
        assert(all_zeros(e)) by {
            assert forall|i: int| 0 <= i < e.len() implies #[trigger] e[i] == '0' by {
                assert(e[i] == d[i]);
            }
        }
        lemma_zeros_value(e);
    }
}

proof fn lemma_leading_zeros(d: Seq<char>, z: int)
    requires
        0 <= z <= d.len(),
        all_zeros(d.subrange(0, z)),
    ensures
        decimal_value(d) == decimal_value(d.subrange(z, d.len() as int)),
    decreases d.len(),
{
    if d.len() == z {
        assert(d.subrange(0, z) =~= d);
        lemma_zeros_value(d);
        assert(d.subrange(z, d.len() as int) =~= Seq::<char>::empty());
    } else {
        let e = d.subrange(0, d.len() - 1);
        assert(e.subrange(0, z) =~= d.subrange(0, z));
        lemma_leading_zeros(e, z);
        let tail = d.subrange(z, d.len() as int);
        assert(tail.subrange(0, tail.len() - 1) =~= e.subrange(z, e.len() as int));
        assert(tail[tail.len() - 1] == d[d.len() - 1]);
    }
}

/// The digits of `d`, the first not zero, spell a number with exactly
/// `d.len()` digits.
proof fn lemma_significant_bounds(d: Seq<char>)
    requires
        d.len() >= 1,
        crate::json::all_digits(d),
        d[0] != '0',
    ensures
        pow10((d.len() - 1) as nat) <= decimal_value(d) < pow10(d.len() as nat),
        (decimal_value(d) == pow10((d.len() - 1) as nat)) <==> (d[0] == '1' && all_zeros(d.subrange(1, d.len() as int))),
    decreases d.len(),
{
    let n = d.len();
    assert(crate::json::is_ascii_digit(d[n - 1]));
    if n == 1 {
        assert(d.subrange(0, 0) =~= Seq::<char>::empty());
        assert(decimal_value(Seq::<char>::empty()) == 0);
        assert(decimal_value(d) == decimal_value(d.subrange(0, 0)) * 10 + crate::json::digit_value(d[0]));
        assert(pow10(0) == 1);
        assert(pow10(1) == 10) by {
            reveal_with_fuel(pow10, 2);
        }
        assert(all_zeros(d.subrange(1, 1)));
    } else {
        let e = d.subrange(0, n - 1);
        assert(crate::json::all_digits(e)) by {
            assert forall|i: int| 0 <= i < e.len() implies crate::json::is_ascii_digit(#[trigger] e[i]) by {
                assert(e[i] == d[i]);
            }
        }
        lemma_significant_bounds(e);
        assert(crate::json::is_ascii_digit(d[n - 1]));
        let last = d[n - 1];
        assert(pow10((n - 1) as nat) == 10 * pow10((n - 2) as nat));
        assert(pow10(n as nat) == 10 * pow10((n - 1) as nat));
        let rest = d.subrange(1, n as int);
        let erest = e.subrange(1, n - 1);
        assert(erest =~= rest.subrange(0, rest.len() - 1));
        assert(rest[rest.len() - 1] == last);
        assert(e[0] == d[0]);
        assert(decimal_value(d) == decimal_value(e) * 10 + crate::json::digit_value(last));
        if all_zeros(rest) {
            assert(all_zeros(erest)) by {
                assert forall|i: int| 0 <= i < erest.len() implies #[trigger] erest[i] == '0' by {
                    assert(erest[i] == rest[i]);
                }
            }
        }
        if all_zeros(erest) && last == '0' {
            assert(all_zeros(rest)) by {
                assert forall|i: int| 0 <= i < rest.len() implies #[trigger] rest[i] == '0' by {
                    if i < rest.len() - 1 {
                        assert(rest[i] == erest[i]);
                    }
                }
            }
        }
    }
}

/// The first index of `m` that holds a digit other than zero, or its length.
pub open spec fn leading_zero_count(m: Seq<char>) -> nat
    decreases m.len(),
{
    if m.len() > 0 && m[0] == '0' {
        1 + leading_zero_count(m.subrange(1, m.len() as int))
    } else {
        0
    }
}

/// The decision, for a mantissa `m` with a digit other than zero whose
/// significant digits number `n`, and a power `e`: `m * 10^e <= 100`.
proof fn lemma_scaled_decision(m: int, n: nat, e: int, is_power: bool)
    requires
        n >= 1,
        pow10((n - 1) as nat) <= m < pow10(n),
        is_power == (m == pow10((n - 1) as nat)),
    ensures
        scaled_at_most_100(m, e) == if n - 1 + e < 2 { true } else if n - 1 + e > 2 { false } else { is_power },
{
    let mag = n - 1 + e;
    assert(pow10(2) == 100) by {
        reveal_with_fuel(pow10, 3);
    }
    if e >= 0 {
        let en = e as nat;
        let lo = pow10((n - 1) as nat);
        let hi = pow10(n);
        let s = pow10(en);
        lemma_pow10_positive(en);
        lemma_pow10_add((n - 1) as nat, en);
        lemma_pow10_add(n, en);
        assert(lo * s <= m * s < hi * s) by (nonlinear_arith)
            requires
                lo <= m < hi,
                s >= 1,
        ;
        if mag < 2 {
            lemma_pow10_monotone((n + en) as nat, 2);
        } else if mag > 2 {
            lemma_pow10_monotone(3, (n - 1 + en) as nat);
            assert(pow10(3) == 1000) by {
                reveal_with_fuel(pow10, 4);
            }
        } else {
            assert((n - 1 + en) as nat == 2);
            if m * s == 100 {
                assert(m == lo) by (nonlinear_arith)
                    requires
                        m * s == lo * s,
                        s >= 1,
                ;
            }
        }
    } else {
        let f = (-e) as nat;
        let lo = pow10((n - 1) as nat);
        let hi = pow10(n);
        let bound = 100 * pow10(f);
        lemma_pow10_add(2, f);
        if mag < 2 {
            lemma_pow10_monotone(n, 2 + f);
        } else if mag > 2 {
            lemma_pow10_monotone(3 + f, (n - 1) as nat);
            lemma_pow10_add(3, f);
            lemma_pow10_positive(f);
            assert(pow10(3) == 1000) by {
                reveal_with_fuel(pow10, 4);
            }
        } else {
            assert((n - 1) as nat == 2 + f);
        }
    }
}

/// A run of digits, as `digit_count` measures it, stays inside the text and
/// holds digits only.
proof fn lemma_digit_run(s: Seq<char>, p: int)
    requires
        0 <= p <= s.len(),
    ensures
        p + digit_count(s, p) <= s.len(),
        all_digits(s.subrange(p, p + digit_count(s, p))),
    decreases s.len() - p,
{
    if p < s.len() && is_ascii_digit(s[p]) {
        lemma_digit_run(s, p + 1);
        let r = s.subrange(p, p + digit_count(s, p));
        let q = s.subrange(p + 1, p + 1 + digit_count(s, p + 1));
        assert forall|i: int| 0 <= i < r.len() implies is_ascii_digit(#[trigger] r[i]) by {
            if i > 0 {
                assert(r[i] == q[i - 1]);
            }
        }
    } else {
        assert(s.subrange(p, p) =~= Seq::<char>::empty());
    }
}

/// Where the parts of a JSON number literal that fills the whole text lie.
proof fn lemma_number_layout(s: Seq<char>, p1: int, p2: int, p3: int, p4: int)
    requires
        spec_number(s, 0) == Some(s.len() as int),
        p1 == if at(s, 0, '-') { 1int } else { 0int },
        p2 == p1 + digit_count(s, p1),
        p3 == if at(s, p2, '.') { p2 + 1 + digit_count(s, p2 + 1) } else { p2 },
        p4 == if at(s, p3 + 1, '+') || at(s, p3 + 1, '-') { p3 + 2 } else { p3 + 1 },
    ensures
        p1 < p2 <= p3 <= s.len(),
        all_digits(s.subrange(p1, p2)),
        at(s, p2, '.') ==> all_digits(s.subrange(p2 + 1, p3)),
        !(at(s, p3, 'e') || at(s, p3, 'E')) ==> p3 == s.len(),
        (at(s, p3, 'e') || at(s, p3, 'E')) ==> p4 < s.len() && all_digits(
            s.subrange(p4, s.len() as int),
        ),
{
    if at(s, p1, '0') {
        assert(digit_count(s, p1) == 1 + digit_count(s, p1 + 1));
        assert(digit_count(s, p1 + 1) == 0);
    }
    lemma_digit_run(s, p1);
    if at(s, p2, '.') {
        lemma_digit_run(s, p2 + 1);
    }
    if at(s, p3, 'e') || at(s, p3, 'E') {
        if p4 > s.len() {
            assert(digit_count(s, p4) == 0);
        }
        lemma_digit_run(s, p4);
    }
}

/// Past this, the digits of an exponent are not read further: any exponent
/// this large already decides how the number compares with 100.
pub const EXPONENT_CAP: u128 = 1_000_000_000_000_000_000_000_000_000_000;

pub open spec fn capped(x: int) -> int {
    if x < EXPONENT_CAP {
        x
    } else {
        EXPONENT_CAP as int
    }
}

/// The number that the digits `t[start..]` spell, or `EXPONENT_CAP` where
/// that number is larger.
fn capped_decimal(t: &[char], start: usize) -> (r: u128)
    requires
        start <= t@.len(),
        all_digits(t@.subrange(start as int, t@.len() as int)),
    ensures
        r == capped(decimal_value(t@.subrange(start as int, t@.len() as int))),
        decimal_value(t@.subrange(start as int, t@.len() as int)) >= 0,
{
    let ghost d = t@.subrange(start as int, t@.len() as int);
    let mut v: u128 = 0;
    let mut i = start;
    proof {
        assert(d.subrange(0, 0) =~= Seq::<char>::empty());
    }
    while i < t.len()
        invariant
            start <= i <= t@.len(),
            d == t@.subrange(start as int, t@.len() as int),
            all_digits(d),
            decimal_value(d.subrange(0, i - start)) >= 0,
            v == capped(decimal_value(d.subrange(0, i - start))),
        decreases t@.len() - i,
    {
        let c = t[i];
        let ghost k = i - start;
        proof {
            assert(d.subrange(0, k + 1).subrange(0, k) =~= d.subrange(0, k));
            assert(d.subrange(0, k + 1)[k] == c);
            assert(is_ascii_digit(d[k]));
        }
        let digit = ((c as u32) - ('0' as u32)) as u128;
        if v < EXPONENT_CAP {
            let w = v * 10 + digit;
            v = if w < EXPONENT_CAP { w } else { EXPONENT_CAP };
        }
        i = i + 1;
    }
    proof {
        assert(d.subrange(0, d.len() as int) =~= d);
    }
    v
}

/// Whether the characters of `v` from `from` on are all `'0'`.
fn zeros_from(v: &Vec<char>, from: usize) -> (b: bool)
    requires
        from <= v@.len(),
    ensures
        b == all_zeros(v@.subrange(from as int, v@.len() as int)),
{
    let mut k = from;
    while k < v.len()
        invariant
            from <= k <= v@.len(),
            all_zeros(v@.subrange(from as int, k as int)),
        decreases v@.len() - k,
    {
        if v[k] != '0' {
            proof {
                assert(v@.subrange(from as int, v@.len() as int)[k - from] == v@[k as int]);
            }
            return false;
        }
        k = k + 1;
        proof {
            let r = v@.subrange(from as int, k as int);
            assert forall|i: int| 0 <= i < r.len() implies #[trigger] r[i] == '0' by {
                if i < r.len() - 1 {
                    assert(r[i] == v@.subrange(from as int, k - 1)[i]);
                }
            }
        }
    }
    true
}

/// Whether the characters form a JSON number literal whose exact value lies
/// between 0 and 100.
#[verifier::rlimit(50)]
pub fn percent_in_range(t: &[char]) -> (b: bool)
    ensures
        b == spec_percent_in_range(t@),
{
    if !is_number_text(t) {
        return false;
    }
    let ghost s = t@;
    let n = t.len();
    let negative = n > 0 && t[0] == '-';
    let p1: usize = if negative { 1 } else { 0 };
    let p2 = p1 + count_digits(t, p1);
    let has_fraction = p2 < n && t[p2] == '.';
    let fraction_len: usize = if has_fraction { count_digits(t, p2 + 1) } else { 0 };
    let p3: usize = if has_fraction { p2 + 1 + fraction_len } else { p2 };
    let has_exponent = p3 < n && (t[p3] == 'e' || t[p3] == 'E');
    let ghost p4: int = if at(s, p3 + 1, '+') || at(s, p3 + 1, '-') { p3 + 2 } else { p3 + 1 };
    proof {
        lemma_number_layout(s, p1 as int, p2 as int, p3 as int, p4);
    }
    let mut negative_exponent = false;
    let mut exponent: u128 = 0;
    if has_exponent {
        negative_exponent = p3 + 1 < n && t[p3 + 1] == '-';
        let start = if p3 + 1 < n && (t[p3 + 1] == '+' || t[p3 + 1] == '-') {
            p3 + 2
        } else {
            p3 + 1
        };
        exponent = capped_decimal(t, start);
    }
    let ghost v: int = if has_exponent { decimal_value(s.subrange(p4, s.len() as int)) } else { 0 };
    let ghost e: int = (if negative_exponent { -v } else { v }) - fraction_len;
    // The mantissa: integer digits, then fraction digits.
    let mut mantissa = slice_to_vec(t, p1, p2);
    if has_fraction {
        let mut fraction = slice_to_vec(t, p2 + 1, p3);
        mantissa.append(&mut fraction);
    } else {
        proof {
            assert(mantissa@ =~= mantissa@ + Seq::<char>::empty());
        }
    }
    let ghost m = mantissa@;
    proof {
        assert(number_parts(s) == Some((negative, m, e)));
        assert(all_digits(m)) by {
            let a = s.subrange(p1 as int, p2 as int);
            assert forall|i: int| 0 <= i < m.len() implies is_ascii_digit(#[trigger] m[i]) by {
                if i < a.len() {
                    assert(m[i] == a[i]);
                } else {
                    assert(m[i] == s.subrange(p2 + 1, p3 as int)[i - a.len()]);
                }
            }
        }
    }
    let ml = mantissa.len();
    let mut z: usize = 0;
    while z < ml && mantissa[z] == '0'
        invariant
            z <= ml,
            ml == mantissa@.len(),
            mantissa@ == m,
            all_zeros(m.subrange(0, z as int)),
        decreases ml - z,
    {
        z = z + 1;
        proof {
            let r = m.subrange(0, z as int);
            assert forall|i: int| 0 <= i < r.len() implies #[trigger] r[i] == '0' by {
                if i < r.len() - 1 {
                    assert(r[i] == m.subrange(0, z - 1)[i]);
                }
            }
        }
    }
    if z == ml {
        proof {
            assert(m.subrange(0, z as int) =~= m);
            lemma_zeros_value(m);
        }
        return true;
    }
    let ghost d = m.subrange(z as int, ml as int);
    proof {
        lemma_leading_zeros(m, z as int);
        assert(all_digits(d)) by {
            assert forall|i: int| 0 <= i < d.len() implies is_ascii_digit(#[trigger] d[i]) by {
                assert(d[i] == m[z + i]);
            }
        }
        lemma_significant_bounds(d);
        lemma_pow10_positive((d.len() - 1) as nat);
    }
    if negative {
        return false;
    }
    let power = mantissa[z] == '1' && zeros_from(&mantissa, z + 1);
    proof {
        assert(d.subrange(1, d.len() as int) =~= m.subrange(z + 1, ml as int));
        lemma_scaled_decision(decimal_value(d), d.len(), e, power);
    }
    let significant = (ml - z) as i128;
    let scale: i128 = if negative_exponent { 0 - (exponent as i128) } else { exponent as i128 };
    let magnitude: i128 = significant - 1 + scale - (fraction_len as i128);
    if magnitude < 2 {
        true
    } else if magnitude > 2 {
        false
    } else {
        power
    }
}

} // verus!
