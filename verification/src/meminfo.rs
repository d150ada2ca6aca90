//! RAM and swap pressure from the text of `/proc/meminfo`.
use vstd::prelude::*;
use crate::number::{decimal_fraction, fits, fixed, fixed_text, parse_decimal};
use crate::sysfs::{fitting, is_value};
use crate::reading::{Quantity, Reading};
use crate::text::{token_spans, line_spans, tokens, lines, text_of, chars_of, slice};

verus! {

/// `line` begins with `name` followed by a colon.
pub open spec fn names_field(line: Seq<char>, name: Seq<char>) -> bool {
    line.len() > name.len() && line.take(name.len() as int) == name && line[name.len() as int]
        == ':'
}

/// Index of the first of the lines `ls[i..]` of `s` that names the field `name`.
pub open spec fn field_line(s: Seq<char>, ls: Seq<(int, int)>, name: Seq<char>, i: int) -> Option<
    int,
>
    decreases ls.len() - i,
{
    if i < 0 || i >= ls.len() {
        None
    } else if names_field(s.subrange(ls[i].0, ls[i].1), name) {
        Some(i)
    } else {
        field_line(s, ls, name, i + 1)
    }
}

/// The number of kilobytes `/proc/meminfo` gives for `name`: the first word after the
/// colon on the first line that names the field, when it is a decimal number (as
/// `str::parse::<f32>` takes one with digits) whose fraction fits in a `Quantity`.
pub open spec fn field_value(s: Seq<char>, name: Seq<char>) -> Option<(int, nat)> {
    let ls = line_spans(s, 0, s.len() as int);
    match field_line(s, ls, name, 0) {
        None => None,
        Some(j) => {
            let words = token_spans(s, ls[j].0 + name.len() + 1, ls[j].1);
            if words.len() == 0 {
                None
            } else {
                fitting(decimal_fraction(s.subrange(words[0].0, words[0].1)))
            }
        },
    }
}

fn names_field_at(s: &Vec<char>, a: usize, b: usize, name: &Vec<char>) -> (r: bool)
    requires
        a <= b <= s@.len(),
    ensures
        r == names_field(s@.subrange(a as int, b as int), name@),
{
    let ghost line = s@.subrange(a as int, b as int);
    if b - a <= name.len() {
        return false;
    }
    let mut k: usize = 0;
    while k < name.len()
        invariant
            k <= name@.len() < b - a,
            a <= b <= s@.len(),
            line == s@.subrange(a as int, b as int),
            line.take(k as int) == name@.take(k as int),
        decreases name@.len() - k,
    {
        if s[a + k] != name[k] {
            assert(line.take(name@.len() as int)[k as int] != name@[k as int]);
            return false;
        }
        assert(line.take(k + 1) == line.take(k as int).push(line[k as int]));
        assert(name@.take(k + 1) == name@.take(k as int).push(name@[k as int]));
        k = k + 1;
    }
    assert(name@.take(name@.len() as int) == name@);
    s[a + name.len()] == ':'
}

/// The kilobytes given for `name` in the text `s`.
pub fn field(s: &Vec<char>, name: &Vec<char>) -> (r: Option<Quantity>)
    ensures
        match field_value(s@, name@) {
            Some(v) => r matches Some(q) && is_value(q, v),
            None => r is None,
        },
        r matches Some(q) ==> q.den >= 1,
{
    let ls = lines(s);
    let ghost sp = line_spans(s@, 0, s@.len() as int);
    let mut i: usize = 0;
    while i < ls.len()
        invariant
            i <= ls@.len() == sp.len(),
            sp == line_spans(s@, 0, s@.len() as int),
            forall|j: int|
                0 <= j < ls@.len() ==> (#[trigger] ls@[j]).0 as int == sp[j].0 && ls@[j].1 as int
                    == sp[j].1,
            forall|j: int| 0 <= j < ls@.len() ==> (#[trigger] ls@[j]).0 <= ls@[j].1 <= s@.len(),
            field_line(s@, sp, name@, 0) == field_line(s@, sp, name@, i as int),
        decreases ls@.len() - i,
    {
        let (a, b) = ls[i];
        if names_field_at(s, a, b, name) {
            let start = a + name.len() + 1;
            let words = tokens(s, start, b);
            if words.len() == 0 {
                return None;
            }
            let (x, y) = words[0];
            let word = slice(s, x, y);
            return parse_decimal(&word);
        }
        i = i + 1;
    }
    None
}

/// ` GB`
pub open spec fn gb_suffix() -> Seq<char> {
    seq![' ', 'G', 'B']
}

/// The label of a pool of `total` kilobytes: its name, then its size in gigabytes with
/// one decimal.
pub open spec fn pool_label(name: Seq<char>, total: (int, nat)) -> Seq<char> {
    name + seq![' '] + fixed_text(total.0 as nat, total.1 * 1048576, 1) + gb_suffix()
}

/// The share of a pool of `total` kilobytes that `used` kilobytes take, in percent, a
/// negative figure counting as none in use: `max(used, 0) / total * 100` as a fraction.
pub open spec fn pool_share(total: (int, nat), used: (int, nat)) -> (int, nat) {
    let u: int = if used.0 > 0 {
        used.0
    } else {
        0
    };
    (u * 100 * total.1, (used.1 * total.0) as nat)
}

/// What `pool` makes of a pool of `total` kilobytes of which `used` are in use: nothing
/// for a pool of no size; else a reading labelled with the size and valued at the share
/// in use. The label's denominator and the share must fit in a `Quantity`, or there is
/// no reading.
pub open spec fn pool_matches(name: Seq<char>, total: (int, nat), used: (int, nat), r: Option<Reading>) -> bool {
    if total.0 <= 0 || total.1 * 1048576 > u128::MAX || !fits(pool_share(total, used)) {
        r is None
    } else {
        r matches Some(p) && p.label@ == pool_label(name, total) && is_value(p.value, pool_share(total, used))
            && p.min is None && p.max is None && p.note is None
    }
}

fn append(v: &mut Vec<char>, tail: &Vec<char>)
    ensures
        final(v)@ == old(v)@ + tail@,
{
    let mut k: usize = 0;
    let ghost head = v@;
    while k < tail.len()
        invariant
            k <= tail@.len(),
            v@ == head + tail@.take(k as int),
        decreases tail@.len() - k,
    {
        v.push(tail[k]);
        assert(tail@.take(k + 1) == tail@.take(k as int).push(tail@[k as int]));
        k = k + 1;
    }
    assert(tail@.take(tail@.len() as int) == tail@);
}

/// A pool of `total` kilobytes with `used` of them in use.
pub fn pool(name: &Vec<char>, total: Quantity, used: Quantity) -> (r: Option<Reading>)
    requires
        total.den >= 1,
        used.den >= 1,
    ensures
        pool_matches(name@, (total.num as int, total.den as nat), (used.num as int, used.den as nat), r),
{
    if total.num <= 0 {
        return None;
    }
    let gd = match total.den.checked_mul(1048576) {
        Some(d) => d,
        None => return None,
    };
    let u: i128 = if used.num > 0 {
        used.num
    } else {
        0
    };
    if total.den > i128::MAX as u128 && u > 0 {
        proof {
            assert(u * 100 * total.den > i128::MAX) by (nonlinear_arith)
                requires
                    u >= 1,
                    total.den > i128::MAX,
            ;
        }
        return None;
    }
    let num = match u.checked_mul(100) {
        Some(a) => match a.checked_mul(total.den as i128) {
            Some(b) => b,
            None => {
                proof {
                    assert(u * 100 * total.den > i128::MAX || u * 100 * total.den < i128::MIN);
                    if total.den > i128::MAX {
                        assert(u * 100 * total.den >= 0) by (nonlinear_arith)
                            requires
                                u >= 0,
                                total.den >= 0,
                        ;
                        if u > 0 {
                            assert(u * 100 * total.den >= total.den) by (nonlinear_arith)
                                requires
                                    u >= 1,
                                    total.den >= 0,
                            ;
                        }
                    }
                }
                return None;
            },
        },
        None => {
            proof {
                assert(u * 100 * total.den >= u * 100) by (nonlinear_arith)
                    requires
                        u >= 0,
                        total.den >= 1,
                ;
            }
            return None;
        },
    };
    let den = match used.den.checked_mul(total.num as u128) {
        Some(d) => d,
        None => return None,
    };
    let mut label = name.clone();
    label.push(' ');
    let size = fixed(total.num as u128, gd, 1);
    append(&mut label, &size);
    label.push(' ');
    label.push('G');
    label.push('B');
    assert(label@ == pool_label(name@, (total.num as int, total.den as nat)));
    Some(Reading::new(text_of(label.as_slice()), Quantity { num, den }))
}

pub open spec fn mem_total() -> Seq<char> {
    seq!['M', 'e', 'm', 'T', 'o', 't', 'a', 'l']
}

pub open spec fn mem_available() -> Seq<char> {
    seq!['M', 'e', 'm', 'A', 'v', 'a', 'i', 'l', 'a', 'b', 'l', 'e']
}

pub open spec fn swap_total() -> Seq<char> {
    seq!['S', 'w', 'a', 'p', 'T', 'o', 't', 'a', 'l']
}

pub open spec fn swap_free() -> Seq<char> {
    seq!['S', 'w', 'a', 'p', 'F', 'r', 'e', 'e']
}

/// What is in use of `t` kilobytes of which `f` are free, `t - f` as a fraction over the
/// product of their denominators, when each cross product and the result fit.
pub open spec fn used_of(t: (int, nat), f: (int, nat)) -> Option<(int, nat)> {
    let a = t.0 * f.1;
    let b = f.0 * t.1;
    if f.1 <= i128::MAX && t.1 <= i128::MAX && i128::MIN <= a <= i128::MAX && i128::MIN <= b
        <= i128::MAX && i128::MIN <= a - b <= i128::MAX && t.1 * f.1 <= u128::MAX {
        Some((a - b, t.1 * f.1))
    } else {
        None
    }
}

/// What `/proc/meminfo` says of a pool whose size is under `total` and whose free room
/// is under `free`, when both are there.
pub open spec fn pool_of(s: Seq<char>, name: Seq<char>, total: Seq<char>, free: Seq<char>, r: Option<
    Reading,
>) -> bool {
    match (field_value(s, total), field_value(s, free)) {
        (Some(t), Some(f)) => match used_of(t, f) {
            Some(u) => pool_matches(name, t, u, r),
            None => r is None,
        },
        _ => r is None,
    }
}

fn pool_from(s: &Vec<char>, name: Vec<char>, total: Vec<char>, free: Vec<char>) -> (r: Option<Reading>)
    ensures
        pool_of(s@, name@, total@, free@, r),
{
    let t = match field(s, &total) {
        Some(t) => t,
        None => return None,
    };
    let f = match field(s, &free) {
        Some(f) => f,
        None => return None,
    };
    if f.den > i128::MAX as u128 || t.den > i128::MAX as u128 {
        return None;
    }
    let a = match t.num.checked_mul(f.den as i128) {
        Some(a) => a,
        None => return None,
    };
    let b = match f.num.checked_mul(t.den as i128) {
        Some(b) => b,
        None => return None,
    };
    let used_num = match a.checked_sub(b) {
        Some(n) => n,
        None => return None,
    };
    let used_den = match t.den.checked_mul(f.den) {
        Some(d) => d,
        None => return None,
    };
    proof {
        assert(used_den >= 1) by (nonlinear_arith)
            requires
                used_den == t.den * f.den,
                t.den >= 1,
                f.den >= 1,
        ;
    }
    pool(&name, t, Quantity { num: used_num, den: used_den })
}

/// RAM pressure: measured against `MemAvailable`, the kernel's estimate of what a new
/// allocation could take, not against `MemFree`, which leaves out the page cache.
pub fn ram(s: &Vec<char>) -> (r: Option<Reading>)
    ensures
        pool_of(s@, seq!['R', 'A', 'M'], mem_total(), mem_available(), r),
{
    pool_from(
        s,
        vec!['R', 'A', 'M'],
        vec!['M', 'e', 'm', 'T', 'o', 't', 'a', 'l'],
        vec!['M', 'e', 'm', 'A', 'v', 'a', 'i', 'l', 'a', 'b', 'l', 'e'],
    )
}

/// Swap pressure: `SwapTotal` less `SwapFree`; no reading on a machine with no swap.
pub fn swap(s: &Vec<char>) -> (r: Option<Reading>)
    ensures
        pool_of(s@, seq!['S', 'w', 'a', 'p'], swap_total(), swap_free(), r),
{
    pool_from(
        s,
        vec!['S', 'w', 'a', 'p'],
        vec!['S', 'w', 'a', 'p', 'T', 'o', 't', 'a', 'l'],
        vec!['S', 'w', 'a', 'p', 'F', 'r', 'e', 'e'],
    )
}

/// The memory pools in the text of `/proc/meminfo`: RAM, then swap, each when present.
pub fn parse(text: &str) -> (r: Vec<Reading>)
    ensures
        ({
            let s = text@;
            exists|ram: Option<Reading>, swap: Option<Reading>|
                pool_of(s, seq!['R', 'A', 'M'], mem_total(), mem_available(), ram) && pool_of(
                    s,
                    seq!['S', 'w', 'a', 'p'],
                    swap_total(),
                    swap_free(),
                    swap,
                ) && r@ == (match ram {
                    Some(p) => seq![p],
                    None => seq![],
                }) + (match swap {
                    Some(p) => seq![p],
                    None => seq![],
                })
        }),
{
    let s = chars_of(text);
    let ram = ram(&s);
    let swap = swap(&s);
    let ghost ram_view = ram;
    let ghost swap_view = swap;
    let mut r: Vec<Reading> = Vec::new();
    match ram {
        Some(p) => r.push(p),
        None => {},
    }
    match swap {
        Some(p) => r.push(p),
        None => {},
    }
    assert(r@ == (match ram_view {
        Some(p) => seq![p],
        None => seq![],
    }) + (match swap_view {
        Some(p) => seq![p],
        None => seq![],
    }));
    r
}

/// The label of a pool depends on its size alone, not on how much of it is in use, so
/// successive readings of a pool of unchanged size carry the same label and merge.
pub proof fn pool_label_is_stable(name: Seq<char>, total: (int, nat), used_a: (int, nat), used_b: (int, nat), a: Option<Reading>, b: Option<Reading>)
    requires
        pool_matches(name, total, used_a, a),
        pool_matches(name, total, used_b, b),
        a is Some,
        b is Some,
    ensures
        a.unwrap().label@ == b.unwrap().label@,
{
}

} // verus!
