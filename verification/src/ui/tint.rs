//! The tints tiles and borders are drawn in: the colour names the configuration
//! accepts, which tints need dark text, and the scale usage figures are coloured on.
use vstd::prelude::*;
use crate::reading::{is_less, less, Quantity};
use crate::wide::products_less;
use crate::text::{chars_of, lowercase, same_text, to_lowercase};

verus! {

/// A terminal colour.
#[derive(Clone, Copy, Debug, PartialEq, Eq, Structural)]
pub enum Tint {
    Black,
    Red,
    Green,
    Yellow,
    Blue,
    Magenta,
    Cyan,
    White,
    DarkGray,
    Rgb(u8, u8, u8),
}

/// The tint a lowercase colour name stands for; names it does not know give cyan.
pub open spec fn tint_named(name: Seq<char>) -> Tint {
    if name == seq!['c', 'y', 'a', 'n'] {
        Tint::Cyan
    } else if name == seq!['b', 'l', 'u', 'e'] {
        Tint::Blue
    } else if name == seq!['g', 'r', 'e', 'e', 'n'] {
        Tint::Green
    } else if name == seq!['y', 'e', 'l', 'l', 'o', 'w'] {
        Tint::Yellow
    } else if name == seq!['r', 'e', 'd'] {
        Tint::Red
    } else if name == seq!['m', 'a', 'g', 'e', 'n', 't', 'a'] {
        Tint::Magenta
    } else if name == seq!['w', 'h', 'i', 't', 'e'] {
        Tint::White
    } else {
        Tint::Cyan
    }
}

/// The tint a colour name from the configuration stands for, whatever its case.
pub fn parse_color(color: &str) -> (t: Tint)
    ensures
        t == tint_named(lowercase(color@)),
{
    let lower = to_lowercase(color);
    let name = chars_of(lower.as_str());
    if same_text(&name, &vec!['c', 'y', 'a', 'n']) {
        Tint::Cyan
    } else if same_text(&name, &vec!['b', 'l', 'u', 'e']) {
        Tint::Blue
    } else if same_text(&name, &vec!['g', 'r', 'e', 'e', 'n']) {
        Tint::Green
    } else if same_text(&name, &vec!['y', 'e', 'l', 'l', 'o', 'w']) {
        Tint::Yellow
    } else if same_text(&name, &vec!['r', 'e', 'd']) {
        Tint::Red
    } else if same_text(&name, &vec!['m', 'a', 'g', 'e', 'n', 't', 'a']) {
        Tint::Magenta
    } else if same_text(&name, &vec!['w', 'h', 'i', 't', 'e']) {
        Tint::White
    } else {
        Tint::Cyan
    }
}

/// Whether a tint is light enough to need dark text on it.
pub fn is_color_light(color: Tint) -> (b: bool)
    ensures
        b == (color is Cyan || color is Yellow || color is Green || color is White),
{
    match color {
        Tint::Cyan | Tint::Yellow | Tint::Green | Tint::White => true,
        _ => false,
    }
}

/// `q` is below the whole number `k`, as a float compares: a negative infinity is below
/// every `k`, and a positive infinity and `nan` below none.
pub open spec fn below(q: Quantity, k: int) -> bool {
    if q.den == 0 {
        q.num < 0
    } else {
        q.num < k * q.den
    }
}

fn is_below(q: Quantity, k: u128) -> (b: bool)
    requires
        0 < k <= 100,
    ensures
        b == below(q, k as int),
{
    if q.den == 0 {
        return q.num < 0;
    }
    if q.num < 0 {
        assert(k * q.den >= 0) by (nonlinear_arith)
            requires
                k > 0,
                q.den > 0,
        ;
        return true;
    }
    if q.den > 0xffff_ffff_ffff_ffff_ffff_ffff_ffff_ffffu128 / k {
        assert(k * q.den > 0xffff_ffff_ffff_ffff_ffff_ffff_ffff_ffff) by (nonlinear_arith)
            requires
                k > 0,
                q.den > 0xffff_ffff_ffff_ffff_ffff_ffff_ffff_ffffu128 / k,
        ;
        return true;
    }
    assert(k * q.den <= 0xffff_ffff_ffff_ffff_ffff_ffff_ffff_ffff) by (nonlinear_arith)
        requires
            k > 0,
            q.den <= 0xffff_ffff_ffff_ffff_ffff_ffff_ffff_ffffu128 / k,
    ;
    (q.num as u128) < k * q.den
}

/// The tint of a usage figure in percent: near black under 10, dark gray under 30, then
/// blue, green and yellow under 50, 70 and 85, and red from 85 on.
pub open spec fn usage_tint_of(usage: Quantity) -> Tint {
    if below(usage, 10) {
        Tint::Rgb(20, 20, 20)
    } else if below(usage, 30) {
        Tint::DarkGray
    } else if below(usage, 50) {
        Tint::Blue
    } else if below(usage, 70) {
        Tint::Green
    } else if below(usage, 85) {
        Tint::Yellow
    } else {
        Tint::Red
    }
}

pub fn get_usage_color(usage: Quantity) -> (t: Tint)
    ensures
        t == usage_tint_of(usage),
{
    if is_below(usage, 10) {
        Tint::Rgb(20, 20, 20)
    } else if is_below(usage, 30) {
        Tint::DarkGray
    } else if is_below(usage, 50) {
        Tint::Blue
    } else if is_below(usage, 70) {
        Tint::Green
    } else if is_below(usage, 85) {
        Tint::Yellow
    } else {
        Tint::Red
    }
}

/// The usage scale never goes back down: a figure at least as high as another is drawn
/// in a tint at least as far along the scale.
pub open spec fn tint_rank(t: Tint) -> int {
    match t {
        Tint::Rgb(_, _, _) => 0,
        Tint::DarkGray => 1,
        Tint::Blue => 2,
        Tint::Green => 3,
        Tint::Yellow => 4,
        _ => 5,
    }
}

pub proof fn usage_tint_monotonic(a: Quantity, b: Quantity)
    requires
        a.den > 0,
        b.den > 0,
        a.num * b.den <= b.num * a.den,
    ensures
        tint_rank(usage_tint_of(a)) <= tint_rank(usage_tint_of(b)),
{
    assert forall|k: int| k > 0 && below(b, k) implies below(a, k) by {
        assert(a.num < k * a.den) by (nonlinear_arith)
            requires
                a.den > 0,
                b.den > 0,
                a.num * b.den <= b.num * a.den,
                b.num < k * b.den,
        ;
    }
    assert(below(b, 10) ==> below(a, 10));
    assert(below(b, 30) ==> below(a, 30));
    assert(below(b, 50) ==> below(a, 50));
    assert(below(b, 70) ==> below(a, 70));
    assert(below(b, 85) ==> below(a, 85));
}

/// The tint of a voltage rail: red once it leaves the window its chip publishes, green
/// while it stays inside, and blue when the chip publishes no window to judge it by.
pub open spec fn volt_tint_of(volts: Quantity, min: Option<Quantity>, max: Option<Quantity>) -> Tint {
    let below_min = match min {
        Some(lo) => less(volts, lo),
        None => false,
    };
    let above_max = match max {
        Some(hi) => less(hi, volts),
        None => false,
    };
    if below_min || above_max {
        Tint::Red
    } else if min is Some || max is Some {
        Tint::Green
    } else {
        Tint::Blue
    }
}

pub fn get_volt_color(volts: Quantity, min: Option<Quantity>, max: Option<Quantity>) -> (t: Tint)
    ensures
        t == volt_tint_of(volts, min, max),
{
    let below_min = match min {
        Some(lo) => is_less(volts, lo),
        None => false,
    };
    let above_max = match max {
        Some(hi) => is_less(hi, volts),
        None => false,
    };
    if below_min || above_max {
        Tint::Red
    } else if min.is_some() || max.is_some() {
        Tint::Green
    } else {
        Tint::Blue
    }
}

/// A rail inside its window is green, and one outside it is red, whichever side of
/// it the rail left by.
pub proof fn volt_window_decides(volts: Quantity, min: Quantity, max: Quantity)
    ensures
        !less(volts, min) && !less(max, volts) ==> volt_tint_of(volts, Some(min), Some(max)) == Tint::Green,
        less(volts, min) || less(max, volts) ==> volt_tint_of(volts, Some(min), Some(max)) == Tint::Red,
{
}

/// `q` is above zero, as a float compares.
pub open spec fn positive(q: Quantity) -> bool {
    less(Quantity { num: 0, den: 1 }, q)
}

/// The share `v / m * 100` of a positive ceiling `m` is below the whole number `k`, as
/// floats work it out: a negative infinity's share of a finite ceiling is below every
/// `k`; a positive infinity's and `nan`'s, and any infinity's share of an infinite
/// ceiling, below none; and a finite figure's share of an infinite ceiling is zero.
pub open spec fn share_below(v: Quantity, m: Quantity, k: int) -> bool {
    if v.den == 0 {
        v.num < 0 && m.den != 0
    } else if m.den == 0 {
        true
    } else {
        100 * (v.num * m.den) < k * (m.num * v.den)
    }
}

fn is_share_below(v: Quantity, m: Quantity, k: u128) -> (b: bool)
    requires
        positive(m),
        0 < k <= 100,
    ensures
        b == share_below(v, m, k as int),
{
    if v.den == 0 {
        return v.num < 0 && m.den != 0;
    }
    if m.den == 0 {
        return true;
    }
    if v.num < 0 {
        assert(100 * (v.num * m.den) < 0 && k * (m.num * v.den) > 0) by (nonlinear_arith)
            requires
                v.num < 0,
                m.den > 0,
                m.num > 0,
                v.den > 0,
                k > 0,
        ;
        return true;
    }
    products_less(v.num as u128, m.den, 100, m.num as u128, v.den, k)
}

/// The tint of a figure by its share of a positive ceiling, on the usage scale.
pub open spec fn share_tint_of(v: Quantity, m: Quantity) -> Tint {
    if share_below(v, m, 10) {
        Tint::Rgb(20, 20, 20)
    } else if share_below(v, m, 30) {
        Tint::DarkGray
    } else if share_below(v, m, 50) {
        Tint::Blue
    } else if share_below(v, m, 70) {
        Tint::Green
    } else if share_below(v, m, 85) {
        Tint::Yellow
    } else {
        Tint::Red
    }
}

fn share_color(v: Quantity, m: Quantity) -> (t: Tint)
    requires
        positive(m),
    ensures
        t == share_tint_of(v, m),
{
    if is_share_below(v, m, 10) {
        Tint::Rgb(20, 20, 20)
    } else if is_share_below(v, m, 30) {
        Tint::DarkGray
    } else if is_share_below(v, m, 50) {
        Tint::Blue
    } else if is_share_below(v, m, 70) {
        Tint::Green
    } else if is_share_below(v, m, 85) {
        Tint::Yellow
    } else {
        Tint::Red
    }
}

/// The tint of a fan: red when it stands still, coloured by its share of `fanN_max` when
/// the chip publishes a positive one, and blue when it does not.
pub open spec fn fan_tint_of(rpm: Quantity, max: Option<Quantity>) -> Tint {
    if !positive(rpm) {
        Tint::Red
    } else {
        match max {
            Some(m) => if positive(m) {
                share_tint_of(rpm, m)
            } else {
                Tint::Blue
            },
            None => Tint::Blue,
        }
    }
}

pub fn get_fan_color(rpm: Quantity, max: Option<Quantity>) -> (t: Tint)
    ensures
        t == fan_tint_of(rpm, max),
{
    let zero = Quantity { num: 0, den: 1 };
    if !is_less(zero, rpm) {
        return Tint::Red;
    }
    match max {
        Some(m) => if is_less(zero, m) {
            share_color(rpm, m)
        } else {
            Tint::Blue
        },
        None => Tint::Blue,
    }
}

/// The tint of a clock: coloured by its share of its top state when one is known and
/// positive, and blue otherwise.
pub open spec fn clock_tint_of(mhz: Quantity, max: Option<Quantity>) -> Tint {
    match max {
        Some(m) => if positive(m) {
            share_tint_of(mhz, m)
        } else {
            Tint::Blue
        },
        None => Tint::Blue,
    }
}

pub fn get_clock_color(mhz: Quantity, max: Option<Quantity>) -> (t: Tint)
    ensures
        t == clock_tint_of(mhz, max),
{
    match max {
        Some(m) => if is_less(Quantity { num: 0, den: 1 }, m) {
            share_color(mhz, m)
        } else {
            Tint::Blue
        },
        None => Tint::Blue,
    }
}

/// A fan at a standstill is drawn red, whatever ceiling its chip publishes.
pub proof fn stopped_fans_are_red(rpm: Quantity, max: Option<Quantity>)
    requires
        rpm.den > 0,
        rpm.num <= 0,
    ensures
        fan_tint_of(rpm, max) == Tint::Red,
{
}

/// A figure's share tint never goes back down as the figure grows against the same
/// ceiling.
pub proof fn share_tint_monotonic(a: Quantity, b: Quantity, m: Quantity)
    requires
        a.den > 0,
        b.den > 0,
        m.den > 0,
        positive(m),
        a.num * b.den <= b.num * a.den,
    ensures
        tint_rank(share_tint_of(a, m)) <= tint_rank(share_tint_of(b, m)),
{
    assert forall|k: int| k > 0 && share_below(b, m, k) implies share_below(a, m, k) by {
        assert(100 * (a.num * m.den) < k * (m.num * a.den)) by (nonlinear_arith)
            requires
                a.den > 0,
                b.den > 0,
                m.den > 0,
                m.num > 0,
                k > 0,
                a.num * b.den <= b.num * a.den,
                100 * (b.num * m.den) < k * (m.num * b.den),
        ;
    }
    assert(share_below(b, m, 10) ==> share_below(a, m, 10));
    assert(share_below(b, m, 30) ==> share_below(a, m, 30));
    assert(share_below(b, m, 50) ==> share_below(a, m, 50));
    assert(share_below(b, m, 70) ==> share_below(a, m, 70));
    assert(share_below(b, m, 85) ==> share_below(a, m, 85));
}

} // verus!
