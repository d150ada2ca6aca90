//! Numbers in text: reading them as `str::parse::<f64>` does, into exact fractions or
//! rounded to a given number of decimals, and writing integers and fixed-point figures
//! back as text.
use vstd::prelude::*;
use crate::text::{is_digit, digit_value, all_digits, decimal_value, slice, append, ascii_lower, lower_ascii_char};
use crate::reading::Quantity;

verus! {

/// The value of `t` read as an unsigned decimal integer: one or more digits.
pub open spec fn unsigned_value(t: Seq<char>) -> Option<nat> {
    if t.len() > 0 && all_digits(t) {
        Some(decimal_value(t))
    } else {
        None
    }
}

/// The value of `t` read as a decimal integer with an optional `+` or `-` sign.
pub open spec fn signed_value(t: Seq<char>) -> Option<int> {
    if t.len() > 0 && (t[0] == '-' || t[0] == '+') {
        match unsigned_value(t.drop_first()) {
            Some(v) => Some(if t[0] == '-' {
                -v
            } else {
                v as int
            }),
            None => None,
        }
    } else {
        match unsigned_value(t) {
            Some(v) => Some(v as int),
            None => None,
        }
    }
}

/// A prefix of a run of digits is worth no more than the whole run.
pub proof fn lemma_decimal_value_prefix(t: Seq<char>, k: int)
    requires
        0 <= k <= t.len(),
        all_digits(t),
    ensures
        decimal_value(t.take(k)) <= decimal_value(t),
    decreases t.len(),
{
    if k < t.len() {
        assert(t.drop_last().take(k) == t.take(k));
        lemma_decimal_value_prefix(t.drop_last(), k);
    } else {
        assert(t.take(k) == t);
    }
}

/// The character of a digit value below ten.
pub open spec fn digit_char(d: nat) -> char {
    if d == 0 {
        '0'
    } else if d == 1 {
        '1'
    } else if d == 2 {
        '2'
    } else if d == 3 {
        '3'
    } else if d == 4 {
        '4'
    } else if d == 5 {
        '5'
    } else if d == 6 {
        '6'
    } else if d == 7 {
        '7'
    } else if d == 8 {
        '8'
    } else {
        '9'
    }
}

/// The decimal digits of `n`, most significant first, with no leading zeros.
pub open spec fn decimal_text(n: nat) -> Seq<char>
    decreases n,
{
    if n < 10 {
        seq![digit_char(n)]
    } else {
        decimal_text(n / 10).push(digit_char(n % 10))
    }
}

/// `decimal_text(n)` padded on the left with zeros to at least `width` characters.
pub open spec fn padded_text(n: nat, width: nat) -> Seq<char> {
    let t = decimal_text(n);
    if t.len() >= width {
        t
    } else {
        Seq::new((width - t.len()) as nat, |i: int| '0') + t
    }
}

fn digit_of(d: u32) -> (c: char)
    requires
        d < 10,
    ensures
        c == digit_char(d as nat),
{
    if d == 0 {
        '0'
    } else if d == 1 {
        '1'
    } else if d == 2 {
        '2'
    } else if d == 3 {
        '3'
    } else if d == 4 {
        '4'
    } else if d == 5 {
        '5'
    } else if d == 6 {
        '6'
    } else if d == 7 {
        '7'
    } else if d == 8 {
        '8'
    } else {
        '9'
    }
}

/// Writes `n` in decimal.
pub fn decimal(n: u128) -> (v: Vec<char>)
    ensures
        v@ == decimal_text(n as nat),
    decreases n,
{
    if n < 10 {
        let mut v = Vec::new();
        v.push(digit_of(n as u32));
        v
    } else {
        let mut v = decimal(n / 10);
        v.push(digit_of((n % 10) as u32));
        v
    }
}

pub proof fn lemma_decimal_text_len(n: nat)
    ensures
        decimal_text(n).len() >= 1,
        n < 10 ==> decimal_text(n).len() == 1,
        n < 100 ==> decimal_text(n).len() <= 2,
        n < 1000 ==> decimal_text(n).len() <= 3,
    decreases n,
{
    if n >= 10 {
        lemma_decimal_text_len(n / 10);
    }
}

/// Writes `n` in decimal, zero-padded on the left to at least `width` characters.
pub fn padded(n: u128, width: usize) -> (v: Vec<char>)
    requires
        width <= 64,
    ensures
        v@ == padded_text(n as nat, width as nat),
{
    let digits = decimal(n);
    if digits.len() >= width {
        return digits;
    }
    let mut v: Vec<char> = Vec::new();
    let fill = width - digits.len();
    while v.len() < fill
        invariant
            fill == width - digits@.len(),
            v@.len() <= fill,
            v@ == Seq::new(v@.len(), |i: int| '0'),
        decreases fill - v@.len(),
    {
        v.push('0');
    }
    let mut k: usize = 0;
    let ghost zeros = v@;
    while k < digits.len()
        invariant
            k <= digits@.len(),
            zeros.len() == fill,
            zeros == Seq::new(fill as nat, |i: int| '0'),
            v@ == zeros + digits@.take(k as int),
        decreases digits@.len() - k,
    {
        v.push(digits[k]);
        assert(digits@.take(k + 1) == digits@.take(k as int).push(digits@[k as int]));
        k = k + 1;
    }
    assert(digits@.take(digits@.len() as int) == digits@);
    v
}

pub open spec fn pow10(p: nat) -> nat
    decreases p,
{
    if p == 0 {
        1
    } else {
        10 * pow10((p - 1) as nat)
    }
}

/// `num / den` scaled by `10^places` and rounded to the nearest integer, ties to even.
pub open spec fn rounded_scaled(num: nat, den: nat, places: nat) -> nat
    recommends
        den > 0,
{
    let s = num * pow10(places);
    let q = s / den;
    let r = s % den;
    if 2 * r > den || (2 * r == den && q % 2 == 1) {
        q + 1
    } else {
        q
    }
}

/// The text `format!("{:.p$}", x)` gives for the exact value `x = num / den`:
/// the integer part, a point, and `places` digits, rounded half to even.
pub open spec fn fixed_text(num: nat, den: nat, places: nat) -> Seq<char> {
    let n = rounded_scaled(num, den, places);
    decimal_text(n / pow10(places)) + seq!['.'] + padded_text(n % pow10(places), places)
}

proof fn lemma_round_split(q: nat, r: nat, den: nat, m: nat)
    requires
        den > 0,
        r < den,
        m == 10 || m == 100 || m == 1000,
    ensures
        ({
            let s = (q * den + r) * m;
            let f = (r * m) / den;
            let g = (r * m) % den;
            &&& s / den == q * m + f
            &&& s % den == g
            &&& f < m
            &&& (q * m + f) % 2 == f % 2
        }),
{
    let s = (q * den + r) * m;
    let f = (r * m) / den;
    let g = (r * m) % den;
    assert(s == (q * m) * den + r * m) by (nonlinear_arith)
        requires
            s == (q * den + r) * m,
    ;
    assert(r * m == f * den + g && 0 <= g < den) by (nonlinear_arith)
        requires
            den > 0,
            f == (r * m) / den,
            g == (r * m) % den,
    ;
    assert(s == (q * m + f) * den + g) by (nonlinear_arith)
        requires
            s == (q * m) * den + r * m,
            r * m == f * den + g,
    ;
    vstd::arithmetic::div_mod::lemma_fundamental_div_mod_converse(
        s as int,
        den as int,
        (q * m + f) as int,
        g as int,
    );
    assert(r * m < den * m) by (nonlinear_arith)
        requires
            r < den,
            m > 0,
    ;
    if f >= m {
        assert(f * den >= m * den) by (nonlinear_arith)
            requires
                f >= m,
                den > 0,
        ;
    }
    assert(f < m) by (nonlinear_arith)
        requires
            r * m < den * m,
            f >= m ==> f * den >= m * den,
            r < den,
            r * m == f * den + g,
            0 <= g,
            den > 0,
    ;
    assert((q * m + f) % 2 == f % 2) by (nonlinear_arith)
        requires
            m == 10 || m == 100 || m == 1000,
    ;
}

/// `(r * m) / d` and `(r * m) % d` for `r < d`, by adding `r` up `m` times, so that no
/// product is formed.
fn scaled_remainder(r: u128, m: u128, d: u128) -> (res: (u128, u128))
    requires
        r < d,
        m <= 1000,
    ensures
        res.0 == (r * m) / (d as int),
        res.1 == (r * m) % (d as int),
        res.0 <= m,
{
    let mut acc: u128 = 0;
    let mut f: u128 = 0;
    let mut i: u128 = 0;
    while i < m
        invariant
            i <= m <= 1000,
            r < d,
            acc < d,
            acc + f * d == i * r,
            f <= i,
        decreases m - i,
    {
        proof {
            assert((i + 1) * r == i * r + r) by (nonlinear_arith);
            assert((f + 1) * d == f * d + d) by (nonlinear_arith);
        }
        if acc >= d - r {
            acc = acc - (d - r);
            f = f + 1;
        } else {
            acc = acc + r;
        }
        i = i + 1;
    }
    proof {
        assert(r * m == f * d + acc) by (nonlinear_arith)
            requires
                acc + f * d == m * r,
        ;
        assert(f * d == d * f) by (nonlinear_arith);
        vstd::arithmetic::div_mod::lemma_fundamental_div_mod_converse(
            (r * m) as int,
            d as int,
            f as int,
            acc as int,
        );
    }
    (f, acc)
}

/// Writes the exact value `num / den` with `places` decimals, rounded half to even.
pub fn fixed(num: u128, den: u128, places: usize) -> (v: Vec<char>)
    requires
        den > 0,
        1 <= places <= 3,
    ensures
        v@ == fixed_text(num as nat, den as nat, places as nat),
{
    let m: u128 = if places == 1 {
        10
    } else if places == 2 {
        100
    } else {
        1000
    };
    assert(pow10(places as nat) == m) by {
        reveal_with_fuel(pow10, 4);
    }
    let d = den;
    let q = num / d;
    let r = num % d;
    let (f, g) = scaled_remainder(r, m, d);
    proof {
        assert(num == q * d + r) by (nonlinear_arith)
            requires
                d > 0,
                q == num / d,
                r == num % d,
        ;
        lemma_round_split(q as nat, r as nat, d as nat, m as nat);
    }
    let up = g > d - g || (g == d - g && f % 2 == 1);
    assert(up ==> d >= 2);
    let (whole, frac) = if up {
        if f + 1 == m {
            assert(q < u128::MAX) by (nonlinear_arith)
                requires
                    q == num / d,
                    d >= 2,
            ;
            (q + 1, 0u128)
        } else {
            (q, f + 1)
        }
    } else {
        (q, f)
    };
    proof {
        let n = rounded_scaled(num as nat, d as nat, places as nat);
        assert(n == whole * m + frac);
        assert(frac < m);
        vstd::arithmetic::div_mod::lemma_fundamental_div_mod_converse(
            n as int,
            m as int,
            whole as int,
            frac as int,
        );
    }
    let mut v = decimal(whole);
    v.push('.');
    let tail = padded(frac, places);
    let mut k: usize = 0;
    let ghost head = v@;
    while k < tail.len()
        invariant
            k <= tail@.len(),
            v@ == head + tail@.take(k as int),
        decreases tail@.len() - k,
    {
        v.push(tail[k]);
        assert(tail@.take(k + 1) == tail@.take(k as int).push(tail@[k as int]));
        k = k + 1;
    }
    assert(tail@.take(tail@.len() as int) == tail@);
    v
}

/// Index of the first character at or after `i` that is not a decimal digit.
pub open spec fn digits_end(t: Seq<char>, i: int) -> int
    decreases t.len() - i,
{
    if i < 0 || i >= t.len() || !is_digit(t[i]) {
        i
    } else {
        digits_end(t, i + 1)
    }
}

pub proof fn lemma_digits_end(t: Seq<char>, i: int)
    requires
        0 <= i <= t.len(),
    ensures
        i <= digits_end(t, i) <= t.len(),
        forall|k: int| i <= k < digits_end(t, i) ==> #[trigger] is_digit(t[k]),
        digits_end(t, i) < t.len() ==> !is_digit(t[digits_end(t, i)]),
    decreases t.len() - i,
{
    if i < t.len() && is_digit(t[i]) {
        lemma_digits_end(t, i + 1);
    }
}

/// How a decimal number is written: an optional sign, digits with an optional point
/// among or after them (at least one digit in all), and an optional exponent (`e` or
/// `E`, an optional sign, one or more digits). Gives whether it is negative, its digits
/// without the point, and the power of ten they are to be scaled by.
pub open spec fn decimal_parts(t: Seq<char>) -> Option<(bool, Seq<char>, int)> {
    let s0: int = if t.len() > 0 && (t[0] == '+' || t[0] == '-') {
        1
    } else {
        0
    };
    let p = digits_end(t, s0);
    let dot = p < t.len() && t[p] == '.';
    let f0 = if dot {
        p + 1
    } else {
        p
    };
    let q = if dot {
        digits_end(t, f0)
    } else {
        p
    };
    if (p - s0) + (q - f0) == 0 {
        None
    } else {
        let exp: Option<int> = if q == t.len() {
            Some(0)
        } else if t[q] == 'e' || t[q] == 'E' {
            signed_value(t.subrange(q + 1, t.len() as int))
        } else {
            None
        };
        match exp {
            None => None,
            Some(e) => Some(
                (s0 == 1 && t[0] == '-', t.subrange(s0, p) + t.subrange(f0, q), e - (q - f0)),
            ),
        }
    }
}

/// The value of a decimal number as the fraction its writing gives: its digits times a
/// power of ten, over one, or over a power of ten when the scale is negative. This is
/// what `str::parse::<f64>` reads, exactly and without rounding, for numbers written with
/// digits (`inf` and `nan` have no such value).
pub open spec fn decimal_fraction(t: Seq<char>) -> Option<(int, nat)> {
    match decimal_parts(t) {
        None => None,
        Some((neg, ds, x)) => {
            let m = decimal_value(ds);
            let n: int = if x >= 0 {
                (m * pow10(x as nat)) as int
            } else {
                m as int
            };
            Some(
                (
                    if neg {
                        -n
                    } else {
                        n
                    },
                    if x >= 0 {
                        1nat
                    } else {
                        pow10((-x) as nat)
                    },
                ),
            )
        },
    }
}

/// A decimal fraction that fits in a `Quantity`.
pub open spec fn fits(v: (int, nat)) -> bool {
    i128::MIN <= v.0 <= i128::MAX && v.1 <= u128::MAX
}

/// `s[lo..hi]` is one or more digits.
pub fn digits_only(s: &Vec<char>, lo: usize, hi: usize) -> (b: bool)
    requires
        lo <= hi <= s@.len(),
    ensures
        b == (hi > lo && all_digits(s@.subrange(lo as int, hi as int))),
{
    if lo == hi {
        return false;
    }
    let mut i = lo;
    while i < hi
        invariant
            lo <= i <= hi <= s@.len(),
            forall|k: int| lo <= k < i ==> is_digit(#[trigger] s@[k]),
        decreases hi - i,
    {
        if !('0' <= s[i] && s[i] <= '9') {
            assert(!is_digit(s@.subrange(lo as int, hi as int)[i - lo]));
            return false;
        }
        i = i + 1;
    }
    assert forall|k: int| 0 <= k < hi - lo implies #[trigger] is_digit(
        s@.subrange(lo as int, hi as int)[k],
    ) by {
        assert(s@.subrange(lo as int, hi as int)[k] == s@[lo + k]);
    }
    true
}

/// The value of a run of digits, when it fits in a `u128`.
fn digits_value(d: &Vec<char>) -> (r: Option<u128>)
    requires
        all_digits(d@),
    ensures
        r matches Some(v) ==> v == decimal_value(d@),
        r is None ==> decimal_value(d@) > u128::MAX,
{
    let mut acc: u128 = 0;
    let mut i: usize = 0;
    while i < d.len()
        invariant
            i <= d@.len(),
            all_digits(d@),
            acc == decimal_value(d@.take(i as int)),
        decreases d@.len() - i,
    {
        let c = d[i];
        assert(is_digit(d@[i as int]));
        let v = (c as u32 - '0' as u32) as u128;
        let ghost prefix = d@.take(i + 1);
        assert(prefix.drop_last() == d@.take(i as int));
        assert(prefix.last() == c);
        if acc > (u128::MAX - v) / 10 {
            proof {
                assert(decimal_value(prefix) == acc * 10 + v);
                assert(acc * 10 + v > u128::MAX) by (nonlinear_arith)
                    requires
                        acc > (u128::MAX - v) / 10,
                        v <= 9,
                ;
                lemma_decimal_value_prefix(d@, i + 1);
            }
            return None;
        }
        proof {
            assert(acc * 10 + v <= u128::MAX) by (nonlinear_arith)
                requires
                    acc <= (u128::MAX - v) / 10,
                    v <= 9,
            ;
        }
        acc = acc * 10 + v;
        i = i + 1;
    }
    assert(d@.take(d@.len() as int) == d@);
    Some(acc)
}

proof fn lemma_pow10_grows(a: nat, b: nat)
    requires
        a <= b,
    ensures
        pow10(a) <= pow10(b),
        pow10(a) >= 1,
    decreases b,
{
    if a < b {
        lemma_pow10_grows(a, (b - 1) as nat);
    } else if a > 0 {
        lemma_pow10_grows((a - 1) as nat, (a - 1) as nat);
    }
}

proof fn lemma_pow10_39()
    ensures
        pow10(39) > u128::MAX,
        pow10(38) <= i128::MAX,
{
    reveal_with_fuel(pow10, 40);
    assert(pow10(39) == 1000000000000000000000000000000000000000nat);
    assert(pow10(38) == 100000000000000000000000000000000000000nat);
}

/// Ten to the power `k`, for `k` up to 38.
fn pow10_of(k: u32) -> (p: u128)
    requires
        k <= 38,
    ensures
        p == pow10(k as nat),
        p >= 1,
{
    proof {
        lemma_pow10_grows(0, k as nat);
        lemma_pow10_39();
        lemma_pow10_grows(k as nat, 38);
    }
    let mut p: u128 = 1;
    let mut i: u32 = 0;
    while i < k
        invariant
            i <= k <= 38,
            p == pow10(i as nat),
            pow10(k as nat) <= pow10(38),
            pow10(38) <= i128::MAX,
        decreases k - i,
    {
        proof {
            lemma_pow10_grows((i + 1) as nat, k as nat);
        }
        p = p * 10;
        i = i + 1;
    }
    p
}

/// The sign and magnitude of a signed exponent written `t[k..]`, the magnitude when it
/// fits in a `u128`; nothing when `t[k..]` is not an exponent.
fn exponent(t: &Vec<char>, k: usize) -> (r: Option<(bool, Option<u128>)>)
    requires
        k <= t@.len(),
    ensures
        match signed_value(t@.subrange(k as int, t@.len() as int)) {
            None => r is None,
            Some(e) => r matches Some((neg, mag)) && match mag {
                Some(v) => e == if neg {
                    -v
                } else {
                    v as int
                },
                None => if neg {
                    e < -u128::MAX
                } else {
                    e > u128::MAX
                },
            },
        },
{
    let n = t.len();
    let ghost u = t@.subrange(k as int, n as int);
    let signed = k < n && (t[k] == '-' || t[k] == '+');
    let start = if signed {
        k + 1
    } else {
        k
    };
    if !digits_only(t, start, n) {
        proof {
            if signed {
                assert(u[0] == t@[k as int]);
                assert(u.drop_first() == t@.subrange(start as int, n as int));
            }
        }
        return None;
    }
    let ds = slice(t, start, n);
    let neg = signed && t[k] == '-';
    proof {
        if signed {
            assert(u[0] == t@[k as int]);
            assert(u.drop_first() == ds@);
        } else {
            assert(u == ds@);
        }
    }
    Some((neg, digits_value(&ds)))
}

/// The fraction a number written with sign `neg`, digits of value `m` and scale `x` has.
pub open spec fn fraction_of(neg: bool, m: nat, x: int) -> (int, nat) {
    let n: int = if x >= 0 {
        (m * pow10(x as nat)) as int
    } else {
        m as int
    };
    (
        if neg {
            -n
        } else {
            n
        },
        if x >= 0 {
            1nat
        } else {
            pow10((-x) as nat)
        },
    )
}

/// The denominator a decimal number is written over is at least one.
pub proof fn lemma_fraction_den(t: Seq<char>)
    ensures
        decimal_fraction(t) matches Some(v) ==> v.1 >= 1,
{
    match decimal_parts(t) {
        Some((neg, ds, x)) => {
            if x < 0 {
                lemma_pow10_grows(0, (-x) as nat);
            }
        },
        None => {},
    }
}

proof fn lemma_fraction(t: Seq<char>)
    ensures
        decimal_fraction(t) == match decimal_parts(t) {
            None => None,
            Some((neg, ds, x)) => Some(fraction_of(neg, decimal_value(ds), x)),
        },
{
}

/// The parts of a decimal number: its sign, its digits without the point, the sign and
/// magnitude of its exponent (the magnitude when it fits in a `u128`), and how many digits
/// follow the point.
fn parts_of(t: &Vec<char>) -> (r: Option<(bool, Vec<char>, bool, Option<u128>, usize)>)
    ensures
        match decimal_parts(t@) {
            None => r is None,
            Some((neg, ds, x)) => r matches Some((n2, d, en, em, nf)) && n2 == neg && d@ == ds
                && all_digits(ds) && match em {
                Some(v) => x + nf == if en {
                    -v
                } else {
                    v as int
                },
                None => if en {
                    x + nf < -u128::MAX
                } else {
                    x + nf > u128::MAX
                },
            },
        },
{
    let n = t.len();
    let s0: usize = if n > 0 && (t[0] == '+' || t[0] == '-') {
        1
    } else {
        0
    };
    let mut p = s0;
    proof {
        lemma_digits_end(t@, s0 as int);
    }
    while p < n && '0' <= t[p] && t[p] <= '9'
        invariant
            s0 <= p <= n == t@.len(),
            digits_end(t@, s0 as int) == digits_end(t@, p as int),
        decreases n - p,
    {
        p = p + 1;
    }
    let dot = p < n && t[p] == '.';
    let f0 = if dot {
        p + 1
    } else {
        p
    };
    let mut q = f0;
    proof {
        lemma_digits_end(t@, s0 as int);
        lemma_digits_end(t@, f0 as int);
    }
    if dot {
        while q < n && '0' <= t[q] && t[q] <= '9'
            invariant
                f0 <= q <= n == t@.len(),
                digits_end(t@, f0 as int) == digits_end(t@, q as int),
            decreases n - q,
        {
            q = q + 1;
        }
    }
    proof {
        lemma_digits_end(t@, s0 as int);
        lemma_digits_end(t@, f0 as int);
    }
    if (p - s0) + (q - f0) == 0 {
        return None;
    }
    let exp: Option<(bool, Option<u128>)> = if q == n {
        Some((false, Some(0)))
    } else if t[q] == 'e' || t[q] == 'E' {
        exponent(t, q + 1)
    } else {
        None
    };
    let (eneg, emag) = match exp {
        None => return None,
        Some(e) => e,
    };
    let mut ds = slice(t, s0, p);
    let tail = slice(t, f0, q);
    append(&mut ds, &tail);
    assert(all_digits(ds@)) by {
        assert forall|k: int| 0 <= k < ds@.len() implies #[trigger] is_digit(ds@[k]) by {
            if k < p - s0 {
                assert(ds@[k] == t@[s0 + k]);
            } else {
                assert(ds@[k] == t@[f0 + k - (p - s0)]);
            }
        }
    }
    let negative = s0 == 1 && t[0] == '-';
    Some((negative, ds, eneg, emag, q - f0))
}

/// The fraction with sign `neg`, digits of value `m` (given as `mv` when it fits in a
/// `u128`) and scale `x`, where `x + nf` has the sign `en` and the magnitude `em`.
fn build(neg: bool, mv: Option<u128>, en: bool, em: Option<u128>, nf: usize, m: Ghost<nat>, x: Ghost<int>) -> (r: Option<Quantity>)
    requires
        mv matches Some(v) ==> v == m@,
        mv is None ==> m@ > u128::MAX,
        match em {
            Some(v) => x@ + nf == if en {
                -v
            } else {
                v as int
            },
            None => if en {
                x@ + nf < -u128::MAX
            } else {
                x@ + nf > u128::MAX
            },
        },
    ensures
        if fits(fraction_of(neg, m@, x@)) {
            r matches Some(q) && q.num == fraction_of(neg, m@, x@).0 && q.den == fraction_of(neg, m@, x@).1
        } else {
            r is None
        },
        r matches Some(q) ==> q.den >= 1,
{
    proof {
        lemma_pow10_39();
        lemma_pow10_grows(0, 0);
        if x@ >= 0 {
            lemma_pow10_grows(0, x@ as nat);
            assert(m@ * pow10(x@ as nat) >= m@) by (nonlinear_arith)
                requires
                    pow10(x@ as nat) >= 1,
            ;
            if x@ >= 39 {
                lemma_pow10_grows(39, x@ as nat);
                assert(m@ >= 1 ==> m@ * pow10(x@ as nat) >= pow10(x@ as nat)) by (nonlinear_arith);
            }
            assert(m@ == 0 ==> m@ * pow10(x@ as nat) == 0) by (nonlinear_arith);
        } else if x@ <= -39 {
            lemma_pow10_grows(39, (-x@) as nat);
        }
    }
    let m = match mv {
        None => return None,
        Some(m) => m,
    };
    let big = match em {
        Some(v) => v > 0x1_0000_0000_0000_0000_0000_0000,
        None => true,
    };
    if big {
        if en || m != 0 {
            return None;
        }
        return Some(Quantity { num: 0, den: 1 });
    }
    let mag = match em {
        Some(v) => v,
        None => 0,
    };
    let x: i128 = if en {
        0 - mag as i128 - nf as i128
    } else {
        mag as i128 - nf as i128
    };
    assert(x == x@);
    let (magnitude, den): (u128, u128) = if x >= 0 {
        if m == 0 {
            return Some(Quantity { num: 0, den: 1 });
        }
        if x > 38 {
            return None;
        }
        let f = pow10_of(x as u32);
        if m > u128::MAX / f {
            proof {
                assert(m * f > u128::MAX) by (nonlinear_arith)
                    requires
                        f > 0,
                        m > u128::MAX / f,
                ;
            }
            return None;
        }
        proof {
            assert(m * f <= u128::MAX) by (nonlinear_arith)
                requires
                    f > 0,
                    m <= u128::MAX / f,
            ;
        }
        (m * f, 1)
    } else {
        if x < -38 {
            return None;
        }
        (m, pow10_of((0 - x) as u32))
    };
    if neg {
        if magnitude > 0x8000_0000_0000_0000_0000_0000_0000_0000 {
            return None;
        }
        let num: i128 = if magnitude == 0x8000_0000_0000_0000_0000_0000_0000_0000 {
            i128::MIN
        } else {
            0 - magnitude as i128
        };
        Some(Quantity { num, den })
    } else {
        if magnitude > 0x7fff_ffff_ffff_ffff_ffff_ffff_ffff_ffff {
            return None;
        }
        Some(Quantity { num: magnitude as i128, den })
    }
}

/// Whether `t` is a decimal number, written as `str::parse::<f64>` accepts one with digits.
pub fn is_decimal(t: &Vec<char>) -> (b: bool)
    ensures
        b == (decimal_fraction(t@) is Some),
{
    parts_of(t).is_some()
}

/// Reads a decimal number, as `str::parse::<f64>` accepts one written with digits, into
/// the exact fraction it writes. Gives nothing for text that is not such a number, and
/// for a number whose numerator (its digits times the power of ten of a non-negative
/// scale) does not fit in an `i128`, or whose denominator (the power of ten of a negative
/// scale) does not fit in a `u128`.
pub fn parse_decimal(t: &Vec<char>) -> (r: Option<Quantity>)
    ensures
        match decimal_fraction(t@) {
            Some(v) => if fits(v) {
                r matches Some(q) && q.num == v.0 && q.den == v.1
            } else {
                r is None
            },
            None => r is None,
        },
        r matches Some(q) ==> q.den >= 1,
{
    proof {
        lemma_fraction(t@);
    }
    let ghost parts = decimal_parts(t@);
    match parts_of(t) {
        None => None,
        Some((neg, ds, en, em, nf)) => {
            let ghost x = parts.unwrap().2;
            build(neg, digits_value(&ds), en, em, nf, Ghost(decimal_value(ds@)), Ghost(x))
        },
    }
}

/// The rest of `t` after an optional `+` or `-` sign.
pub open spec fn unsigned_part(t: Seq<char>) -> Seq<char> {
    if t.len() > 0 && (t[0] == '+' || t[0] == '-') {
        t.drop_first()
    } else {
        t
    }
}

/// `t` is the word `w`, in any case.
pub open spec fn word_is(t: Seq<char>, w: Seq<char>) -> bool {
    t.len() == w.len() && forall|i: int| 0 <= i < t.len() ==> ascii_lower(#[trigger] t[i]) == w[i]
}

/// The values a float's writing may name without digits, as `str::parse::<f64>` takes
/// them: `inf` or `infinity`, and `nan`, in any case and after an optional sign. An
/// infinity is kept as a fraction over zero with the sign in its numerator, and `nan` as
/// zero over zero.
pub open spec fn special_value(t: Seq<char>) -> Option<(int, nat)> {
    let u = unsigned_part(t);
    let neg = t.len() > 0 && t[0] == '-';
    if word_is(u, seq!['i', 'n', 'f']) || word_is(u, seq!['i', 'n', 'f', 'i', 'n', 'i', 't', 'y']) {
        Some((if neg {
            -1int
        } else {
            1int
        }, 0nat))
    } else if word_is(u, seq!['n', 'a', 'n']) {
        Some((0int, 0nat))
    } else {
        None
    }
}

/// What `str::parse::<f64>` reads `t` as: a decimal number as its exact fraction, or an
/// infinity or `nan` as `special_value` keeps them.
pub open spec fn float_fraction(t: Seq<char>) -> Option<(int, nat)> {
    match decimal_fraction(t) {
        Some(v) => Some(v),
        None => special_value(t),
    }
}

fn is_word(t: &Vec<char>, k: usize, w: &str) -> (b: bool)
    requires
        k <= t@.len(),
        w@.len() <= 8,
    ensures
        b == word_is(t@.subrange(k as int, t@.len() as int), w@),
{
    let ghost u = t@.subrange(k as int, t@.len() as int);
    let wc = crate::text::chars_of(w);
    if t.len() - k != wc.len() {
        return false;
    }
    let mut i: usize = 0;
    while i < wc.len()
        invariant
            i <= wc@.len() == u.len(),
            wc@ == w@,
            u == t@.subrange(k as int, t@.len() as int),
            k + wc@.len() == t@.len(),
            t@.len() == t.len(),
            forall|j: int| 0 <= j < i ==> ascii_lower(#[trigger] u[j]) == wc@[j],
        decreases wc@.len() - i,
    {
        assert(k + i < t.len());
        assert(u[i as int] == t@[k + i]);
        if lower_ascii_char(t[k + i]) != wc[i] {
            return false;
        }
        i = i + 1;
    }
    true
}

/// Reads `t` as `str::parse::<f64>` does when it names an infinity or `nan`.
pub fn parse_special(t: &Vec<char>) -> (r: Option<Quantity>)
    ensures
        match special_value(t@) {
            Some(v) => r matches Some(q) && q.num == v.0 && q.den == v.1,
            None => r is None,
        },
{
    let signed = t.len() > 0 && (t[0] == '+' || t[0] == '-');
    let k: usize = if signed {
        1
    } else {
        0
    };
    assert(unsigned_part(t@) == t@.subrange(k as int, t@.len() as int));
    proof {
        reveal_strlit("inf");
        reveal_strlit("infinity");
        reveal_strlit("nan");
    }
    let neg = t.len() > 0 && t[0] == '-';
    if is_word(t, k, "inf") || is_word(t, k, "infinity") {
        Some(Quantity { num: if neg {
            -1
        } else {
            1
        }, den: 0 })
    } else if is_word(t, k, "nan") {
        Some(Quantity { num: 0, den: 0 })
    } else {
        None
    }
}

/// Reads `t` as `str::parse::<f64>` reads it, into an exact fraction: a decimal number as
/// `parse_decimal` does, and an infinity or `nan` as `special_value` keeps them.
pub fn parse_float(t: &Vec<char>) -> (r: Option<Quantity>)
    ensures
        match float_fraction(t@) {
            Some(v) => if fits(v) {
                r matches Some(q) && q.num == v.0 && q.den == v.1
            } else {
                r is None
            },
            None => r is None,
        },
{
    if is_decimal(t) {
        parse_decimal(t)
    } else {
        parse_special(t)
    }
}

/// `m` scaled by `10^s` and rounded to the nearest whole number, halves away from zero.
pub open spec fn scaled_round(m: nat, s: int) -> nat {
    if s >= 0 {
        m * pow10(s as nat)
    } else {
        ((2 * m + pow10((-s) as nat)) / (2 * pow10((-s) as nat))) as nat
    }
}

/// A decimal number scaled by `10^places` and rounded to the nearest whole number,
/// halves away from zero.
pub open spec fn rounded_units(t: Seq<char>, places: nat) -> Option<int> {
    match decimal_parts(t) {
        None => None,
        Some((neg, ds, x)) => {
            let u = scaled_round(decimal_value(ds), x + places) as int;
            Some(if neg {
                -u
            } else {
                u
            })
        },
    }
}

proof fn lemma_value_below(d: Seq<char>)
    requires
        all_digits(d),
    ensures
        decimal_value(d) < pow10(d.len()),
    decreases d.len(),
{
    if d.len() > 0 {
        lemma_value_below(d.drop_last());
        assert(is_digit(d[d.len() - 1]));
        assert(decimal_value(d) < pow10(d.len())) by (nonlinear_arith)
            requires
                decimal_value(d) == decimal_value(d.drop_last()) * 10 + digit_value(d.last()),
                decimal_value(d.drop_last()) < pow10((d.len() - 1) as nat),
                digit_value(d.last()) <= 9,
                pow10(d.len()) == 10 * pow10((d.len() - 1) as nat),
        ;
    }
}

proof fn lemma_value_split(d: Seq<char>, j: int)
    requires
        all_digits(d),
        0 <= j <= d.len(),
    ensures
        decimal_value(d) == decimal_value(d.take(j)) * pow10((d.len() - j) as nat) + decimal_value(
            d.skip(j),
        ),
        decimal_value(d.skip(j)) < pow10((d.len() - j) as nat),
    decreases d.len() - j,
{
    assert(all_digits(d.skip(j)));
    lemma_value_below(d.skip(j));
    if j == d.len() {
        assert(d.take(j) == d);
        assert(d.skip(j).len() == 0);
        assert(decimal_value(d.skip(j)) == 0);
        assert(pow10(0) == 1);
        assert(decimal_value(d) * 1 == decimal_value(d));
    } else {
        let e = d.drop_last();
        assert(all_digits(e));
        lemma_value_split(e, j);
        assert(e.take(j) == d.take(j));
        assert(d.skip(j).drop_last() == e.skip(j));
        assert(d.skip(j).last() == d.last());
        let a = decimal_value(d.take(j));
        let p = pow10((e.len() - j) as nat);
        let b = decimal_value(e.skip(j));
        assert(pow10((d.len() - j) as nat) == 10 * p);
        assert(decimal_value(d) == a * (10 * p) + (b * 10 + digit_value(d.last()))) by (nonlinear_arith)
            requires
                decimal_value(d) == decimal_value(e) * 10 + digit_value(d.last()),
                decimal_value(e) == a * p + b,
        ;
    }
}

proof fn lemma_lead_digit(t: Seq<char>)
    requires
        all_digits(t),
        t.len() >= 1,
    ensures
        (2 * decimal_value(t) >= pow10(t.len())) == (digit_value(t[0]) >= 5),
{
    lemma_value_split(t, 1);
    let h = t.take(1);
    reveal_with_fuel(decimal_value, 2);
    assert(h.drop_last().len() == 0);
    assert(h.last() == t[0]);
    assert(decimal_value(h) == digit_value(t[0]));
    assert(is_digit(t[0]));
    let p = pow10((t.len() - 1) as nat);
    lemma_pow10_grows(0, (t.len() - 1) as nat);
    assert(pow10(t.len()) == 10 * p);
    let d = digit_value(t[0]);
    let r = decimal_value(t.skip(1));
    assert((2 * (d * p + r) >= 10 * p) == (d >= 5)) by (nonlinear_arith)
        requires
            p >= 1,
            0 <= r < p,
            0 <= d <= 9,
    ;
}

proof fn lemma_round_half_up(u: nat, r: nat, p: nat)
    requires
        p >= 1,
        r < p,
    ensures
        (2 * (u * p + r) + p) / (2 * p) == u + if 2 * r >= p {
            1nat
        } else {
            0nat
        },
{
    let c: nat = if 2 * r >= p {
        1
    } else {
        0
    };
    assert(2 * (u * p + r) + p == (u + c) * (2 * p) + (2 * r + p - c * 2 * p)) by (nonlinear_arith);
    if c == 1 {
        assert(c * 2 * p == 2 * p);
    } else {
        assert(c * 2 * p == 0) by (nonlinear_arith)
            requires
                c == 0,
        ;
    }
    assert(0 <= 2 * r + p - c * 2 * p < 2 * p);
    vstd::arithmetic::div_mod::lemma_fundamental_div_mod_converse(
        (2 * (u * p + r) + p) as int,
        (2 * p) as int,
        (u + c) as int,
        (2 * r + p - c * 2 * p) as int,
    );
}

/// `t` read as a decimal number, scaled by `10^places` and rounded to the nearest whole
/// number, halves away from zero: nothing when `t` is not a decimal number, and nothing
/// inside when the result lies further than `limit` from zero.
pub fn parse_rounded(t: &Vec<char>, places: u32, limit: u128) -> (r: Option<Option<i128>>)
    requires
        places <= 38,
        limit <= i128::MAX,
    ensures
        match rounded_units(t@, places as nat) {
            None => r is None,
            Some(u) => if -limit <= u <= limit {
                r == Some(Some(u as i128))
            } else {
                r == Some(None::<i128>)
            },
        },
{
    let ghost parts = decimal_parts(t@);
    let (neg, ds, en, em, nf) = match parts_of(t) {
        None => return None,
        Some(p) => p,
    };
    let ghost x = parts.unwrap().2;
    let ghost m = decimal_value(ds@);
    let ghost s: int = x + places;
    proof {
        lemma_pow10_39();
        lemma_value_below(ds@);
    }
    let u: u128 = match magnitude_units(&ds, en, em, nf, places, limit, Ghost(x)) {
        Some(u) => u,
        None => return Some(None),
    };
    if neg {
        Some(Some(0 - u as i128))
    } else {
        Some(Some(u as i128))
    }
}

/// `scaled_round` of the digits `ds` at the scale `x + places`, where `x + nf` has the
/// sign `en` and the magnitude `em`: nothing when that lies beyond `limit`.
fn magnitude_units(ds: &Vec<char>, en: bool, em: Option<u128>, nf: usize, places: u32, limit: u128, x: Ghost<int>) -> (r: Option<u128>)
    requires
        all_digits(ds@),
        places <= 38,
        limit <= i128::MAX,
        match em {
            Some(v) => x@ + nf == if en {
                -v
            } else {
                v as int
            },
            None => if en {
                x@ + nf < -u128::MAX
            } else {
                x@ + nf > u128::MAX
            },
        },
    ensures
        match r {
            Some(u) => u == scaled_round(decimal_value(ds@), x@ + places) && u <= limit,
            None => scaled_round(decimal_value(ds@), x@ + places) > limit,
        },
{
    let ghost m = decimal_value(ds@);
    let ghost s: int = x@ + places;
    proof {
        lemma_pow10_39();
        lemma_value_below(ds@);
        lemma_pow10_grows(0, 0);
    }
    let n = ds.len();
    let big = match em {
        Some(v) => v > 0x1_0000_0000_0000_0000_0000_0000,
        None => true,
    };
    let mv = digits_value(ds);
    if big {
        if en {
            // far below one unit: rounds to zero
            proof {
                let k = (-s) as nat;
                lemma_pow10_grows((n + 1) as nat, k);
                lemma_pow10_grows(0, n as nat);
                assert(pow10((n + 1) as nat) == 10 * pow10(n as nat));
                assert((2 * m + pow10(k)) / (2 * pow10(k)) == 0) by (nonlinear_arith)
                    requires
                        m < pow10(n as nat),
                        pow10(k) >= 10 * pow10(n as nat),
                        pow10(n as nat) >= 1,
                ;
            }
            return Some(0);
        }
        match mv {
            Some(0) => {
                assert(m * pow10(s as nat) == 0) by (nonlinear_arith)
                    requires
                        m == 0,
                ;
                return Some(0);
            },
            _ => {
                proof {
                    lemma_pow10_grows(39, s as nat);
                    assert(m >= 1);
                    assert(m * pow10(s as nat) >= pow10(s as nat)) by (nonlinear_arith)
                        requires
                            m >= 1,
                    ;
                }
                return None;
            },
        }
    }
    let mag = match em {
        Some(v) => v,
        None => 0,
    };
    let sx: i128 = if en {
        0 - mag as i128 - nf as i128 + places as i128
    } else {
        mag as i128 - nf as i128 + places as i128
    };
    assert(sx == s);
    if sx >= 0 {
        let mm = match mv {
            None => {
                proof {
                    lemma_pow10_grows(0, s as nat);
                    assert(m * pow10(s as nat) >= m) by (nonlinear_arith)
                        requires
                            pow10(s as nat) >= 1,
                    ;
                }
                return None;
            },
            Some(v) => v,
        };
        if mm == 0 {
            assert(m * pow10(s as nat) == 0) by (nonlinear_arith)
                requires
                    m == 0,
            ;
            return Some(0);
        }
        if sx > 38 {
            proof {
                lemma_pow10_grows(39, s as nat);
                assert(m * pow10(s as nat) >= pow10(s as nat)) by (nonlinear_arith)
                    requires
                        m >= 1,
                ;
            }
            return None;
        }
        let f = pow10_of(sx as u32);
        if mm > limit / f {
            assert(mm * f > limit) by (nonlinear_arith)
                requires
                    f > 0,
                    mm > limit / f,
            ;
            return None;
        }
        assert(mm * f <= limit) by (nonlinear_arith)
            requires
                f > 0,
                mm <= limit / f,
        ;
        return Some(mm * f);
    }
    let k = (0 - sx) as u128;
    if k > n as u128 {
        proof {
            let kk = k as nat;
            lemma_pow10_grows((n + 1) as nat, kk);
            lemma_pow10_grows(0, n as nat);
            assert(pow10((n + 1) as nat) == 10 * pow10(n as nat));
            assert((2 * m + pow10(kk)) / (2 * pow10(kk)) == 0) by (nonlinear_arith)
                requires
                    m < pow10(n as nat),
                    pow10(kk) >= 10 * pow10(n as nat),
                    pow10(n as nat) >= 1,
            ;
        }
        return Some(0);
    }
    let j = n - k as usize;
    let kept = slice(ds, 0, j);
    proof {
        assert(kept@ == ds@.take(j as int));
        assert(all_digits(kept@));
        lemma_value_split(ds@, j as int);
        assert(all_digits(ds@.skip(j as int)));
        lemma_lead_digit(ds@.skip(j as int));
        assert(ds@.skip(j as int)[0] == ds@[j as int]);
        lemma_pow10_grows(0, k as nat);
        lemma_round_half_up(decimal_value(ds@.take(j as int)), decimal_value(ds@.skip(j as int)), pow10(k as nat));
        assert(is_digit(ds@[j as int]));
    }
    let u0 = match digits_value(&kept) {
        None => return None,
        Some(v) => v,
    };
    let up: u128 = if ds[j] >= '5' {
        1
    } else {
        0
    };
    assert((ds[j as int] >= '5') == (digit_value(ds@[j as int]) >= 5));
    if u0 > limit || (up == 1 && u0 == limit) {
        return None;
    }
    Some(u0 + up)
}

} // verus!
