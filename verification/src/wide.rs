//! Exact comparisons of products of 128-bit figures, worked in 256-bit halves.
use vstd::prelude::*;

verus! {

/// `2^64`, the base of the limbs a 128-bit figure is split into.
pub open spec fn limb() -> u128 {
    0x1_0000_0000_0000_0000
}

/// `2^128`, the base of the halves a product is kept in.
pub open spec fn half() -> int {
    0x1_0000_0000_0000_0000_0000_0000_0000_0000int
}

/// `a * b` as a high and a low half.
pub fn wide_product(a: u128, b: u128) -> (r: (u128, u128))
    ensures
        r.0 * half() + r.1 == a * b,
{
    let a1 = a / 0x1_0000_0000_0000_0000u128;
    let a0 = a % 0x1_0000_0000_0000_0000u128;
    let b1 = b / 0x1_0000_0000_0000_0000u128;
    let b0 = b % 0x1_0000_0000_0000_0000u128;
    assert(a1 < limb() && b1 < limb());
    assert(a0 * b0 < half() && a0 * b1 < half() && a1 * b0 < half() && a1 * b1 < half()) by (nonlinear_arith)
        requires
            a0 < limb(),
            b0 < limb(),
            a1 < limb(),
            b1 < limb(),
            limb() * limb() == half(),
    ;
    let p00 = a0 * b0;
    let p01 = a0 * b1;
    let p10 = a1 * b0;
    let p11 = a1 * b1;
    let m = p00 / 0x1_0000_0000_0000_0000u128 + p01 % 0x1_0000_0000_0000_0000u128 + p10
        % 0x1_0000_0000_0000_0000u128;
    let lo = (m % 0x1_0000_0000_0000_0000u128) * 0x1_0000_0000_0000_0000u128 + p00
        % 0x1_0000_0000_0000_0000u128;
    let ghost h: int = p11 + p01 / 0x1_0000_0000_0000_0000u128 + p10 / 0x1_0000_0000_0000_0000u128 + m
        / 0x1_0000_0000_0000_0000u128;
    assert(a * b == p11 * half() + (p01 + p10) * limb() + p00) by (nonlinear_arith)
        requires
            a == a1 * limb() + a0,
            b == b1 * limb() + b0,
            p00 == a0 * b0,
            p01 == a0 * b1,
            p10 == a1 * b0,
            p11 == a1 * b1,
            limb() * limb() == half(),
    ;
    assert(a * b == h * half() + lo) by (nonlinear_arith)
        requires
            a * b == p11 * half() + (p01 + p10) * limb() + p00,
            p00 == (p00 / limb()) * limb() + p00 % limb(),
            p01 == (p01 / limb()) * limb() + p01 % limb(),
            p10 == (p10 / limb()) * limb() + p10 % limb(),
            m == p00 / limb() + p01 % limb() + p10 % limb(),
            m == (m / limb()) * limb() + m % limb(),
            lo == (m % limb()) * limb() + p00 % limb(),
            h == p11 + p01 / limb() + p10 / limb() + m / limb(),
            limb() * limb() == half(),
    ;
    assert(h < half()) by (nonlinear_arith)
        requires
            a * b == h * half() + lo,
            0 <= lo,
            a < half(),
            b < half(),
            h >= 0,
    ;
    let hi = p11 + p01 / 0x1_0000_0000_0000_0000u128 + p10 / 0x1_0000_0000_0000_0000u128 + m
        / 0x1_0000_0000_0000_0000u128;
    (hi, lo)
}

/// Three digits in base `b` compare as the numbers they write compare: by the first digit
/// that differs.
proof fn lemma_digits_less(b: int, x2: int, x1: int, x0: int, y2: int, y1: int, y0: int)
    requires
        b > 0,
        0 <= x1 < b,
        0 <= x0 < b,
        0 <= y1 < b,
        0 <= y0 < b,
    ensures
        (x2 * b * b + x1 * b + x0 < y2 * b * b + y1 * b + y0) == (x2 < y2 || (x2 == y2 && (x1 < y1
            || (x1 == y1 && x0 < y0)))),
{
    if x2 < y2 {
        assert(x2 * b * b + x1 * b + x0 < y2 * b * b + y1 * b + y0) by (nonlinear_arith)
            requires
                b > 0,
                x2 + 1 <= y2,
                0 <= x1 < b,
                0 <= x0 < b,
                0 <= y1,
                0 <= y0,
        ;
    } else if x2 > y2 {
        assert(y2 * b * b + y1 * b + y0 < x2 * b * b + x1 * b + x0) by (nonlinear_arith)
            requires
                b > 0,
                y2 + 1 <= x2,
                0 <= y1 < b,
                0 <= y0 < b,
                0 <= x1,
                0 <= x0,
        ;
    } else if x1 < y1 {
        assert(x1 * b + x0 < y1 * b + y0) by (nonlinear_arith)
            requires
                b > 0,
                x1 + 1 <= y1,
                0 <= x0 < b,
                0 <= y0,
        ;
    } else if x1 > y1 {
        assert(y1 * b + y0 < x1 * b + x0) by (nonlinear_arith)
            requires
                b > 0,
                y1 + 1 <= x1,
                0 <= y0 < b,
                0 <= x0,
        ;
    }
}

/// `k` times the figure `hi * 2^128 + lo`, as three digits in base `2^128`, the first of
/// them at most `k`.
fn scaled(hi: u128, lo: u128, k: u128) -> (r: (u128, u128, u128))
    requires
        k <= 100,
    ensures
        r.0 * half() * half() + r.1 * half() + r.2 == k * (hi * half() + lo),
        r.0 <= k,
{
    let (c1, l) = wide_product(lo, k);
    let (c2, h0) = wide_product(hi, k);
    assert(c1 < k || k == 0) by (nonlinear_arith)
        requires
            c1 * half() + l == lo * k,
            0 <= l,
            lo < half(),
            k >= 0,
            c1 >= 0,
    ;
    assert(c2 < k || k == 0) by (nonlinear_arith)
        requires
            c2 * half() + h0 == hi * k,
            0 <= h0,
            hi < half(),
            k >= 0,
            c2 >= 0,
    ;
    assert(k * (hi * half() + lo) == c2 * half() * half() + (h0 + c1) * half() + l) by (nonlinear_arith)
        requires
            c1 * half() + l == lo * k,
            c2 * half() + h0 == hi * k,
    ;
    if h0 > u128::MAX - c1 {
        let h = h0 - (u128::MAX - c1) - 1;
        assert(c2 * half() * half() + (h0 + c1) * half() + l == (c2 + 1) * half() * half() + h * half() + l)
            by (nonlinear_arith)
            requires
                h == h0 + c1 - half(),
        ;
        (c2 + 1, h, l)
    } else {
        (c2, h0 + c1, l)
    }
}

/// Whether `k * (a * b) < m * (c * d)`, exactly.
pub fn products_less(a: u128, b: u128, k: u128, c: u128, d: u128, m: u128) -> (r: bool)
    requires
        k <= 100,
        m <= 100,
    ensures
        r == (k * (a * b) < m * (c * d)),
{
    let (xh, xl) = wide_product(a, b);
    let (yh, yl) = wide_product(c, d);
    let (x2, x1, x0) = scaled(xh, xl, k);
    let (y2, y1, y0) = scaled(yh, yl, m);
    proof {
        lemma_digits_less(half(), x2 as int, x1 as int, x0 as int, y2 as int, y1 as int, y0 as int);
        assert(k * (a * b) == k * (xh * half() + xl));
        assert(m * (c * d) == m * (yh * half() + yl));
    }
    x2 < y2 || (x2 == y2 && (x1 < y1 || (x1 == y1 && x0 < y0)))
}

} // verus!
