//! Batteries under `/sys/class/power_supply`: charge with a note of what the battery
//! is doing, and battery temperature.
use vstd::prelude::*;
use crate::number::{fixed, fixed_text};
use crate::order::{sorted_order, is_permutation, sorted_stably, key_of};
use crate::reading::{Quantity, Reading};
use crate::sysfs::{file_float, file_text, file_value, fitting, is_value, lemma_value_den, read_float, read_number, read_text, scaled_float, scaled_value, trimmed_text};
use crate::text::{chars_of, text_of, append};

verus! {

/// What a power supply directory holds, as read: `None` where a file could not be read.
pub struct SupplyFiles {
    /// The directory's name, such as `BAT0`.
    pub name: String,
    pub kind: Option<String>,
    pub capacity: Option<String>,
    pub status: Option<String>,
    pub power_now: Option<String>,
    pub current_now: Option<String>,
    pub voltage_now: Option<String>,
    pub temp: Option<String>,
}

/// `Battery`
pub open spec fn battery_text() -> Seq<char> {
    seq!['B', 'a', 't', 't', 'e', 'r', 'y']
}

/// A supply is a battery when its `type` reads `Battery`.
pub open spec fn is_battery_spec(kind: Option<String>) -> bool {
    match kind {
        Some(t) => file_text(t@) == battery_text(),
        None => false,
    }
}

pub fn is_battery(kind: &Option<String>) -> (b: bool)
    ensures
        b == is_battery_spec(*kind),
{
    match kind {
        Some(t) => {
            let v = trimmed_text(t);
            let battery = vec!['B', 'a', 't', 't', 'e', 'r', 'y'];
            crate::order::compare_text(&v, &battery) == 0
        },
        None => false,
    }
}

/// The product of two fractions, divided by `scale`, when it fits in a `Quantity`.
pub open spec fn product_of(c: (int, nat), v: (int, nat), scale: nat) -> Option<(int, nat)> {
    fitting(Some((c.0 * v.0, c.1 * v.1 * scale)))
}

/// The power a battery is moving, in watts, as a fraction: `power_now` in microwatts
/// when it holds a number, else `current_now` in microamps times `voltage_now` in
/// microvolts.
pub open spec fn draw_of(s: SupplyFiles) -> Option<(int, nat)> {
    match scaled_value(s.power_now, 1000000) {
        Some(p) => Some(p),
        None => match (file_value(s.current_now), file_value(s.voltage_now)) {
            (Some(c), Some(v)) => product_of(c, v, 1000000000000),
            _ => None,
        },
    }
}

/// A battery's draw is its power in watts: `power_now` holds microwatts, so the draw
/// is that figure over a million; and when `power_now` holds no number, the draw is
/// `current_now` microamps times `voltage_now` microvolts over `10^12`, the same power
/// reckoned from its current and voltage.
pub proof fn draw_is_power_in_watts(s: SupplyFiles)
    ensures
        match file_value(s.power_now) {
            Some(p) => p.1 * 1000000 <= u128::MAX ==> (draw_of(s) matches Some(w) && w.1 > 0 && w.0 * (
            1000000 * p.1) == p.0 * w.1),
            None => match draw_of(s) {
                Some(w) => (file_value(s.current_now), file_value(s.voltage_now)) matches (Some(c), Some(v))
                    && w.0 * (1000000000000 * c.1 * v.1) == c.0 * v.0 * w.1,
                None => true,
            },
        },
{
    lemma_value_den(s.power_now, 1000000);
    match file_value(s.power_now) {
        Some(p) => {
            if p.1 * 1000000 <= u128::MAX {
                let w = draw_of(s).unwrap();
                assert(w == (p.0, p.1 * 1000000));
                assert(w.0 * (1000000 * p.1) == p.0 * w.1) by (nonlinear_arith)
                    requires
                        w.0 == p.0,
                        w.1 == p.1 * 1000000,
                ;
            }
        },
        None => {
            match draw_of(s) {
                Some(w) => {
                    let c = file_value(s.current_now).unwrap();
                    let v = file_value(s.voltage_now).unwrap();
                    assert(w.0 * (1000000000000 * c.1 * v.1) == c.0 * v.0 * w.1) by (nonlinear_arith)
                        requires
                            w.0 == c.0 * v.0,
                            w.1 == c.1 * v.1 * 1000000000000,
                    ;
                },
                None => {},
            }
        },
    }
}

pub fn draw(s: &SupplyFiles) -> (r: Option<Quantity>)
    ensures
        match draw_of(*s) {
            Some(v) => r matches Some(q) && is_value(q, v),
            None => r is None,
        },
        r matches Some(q) ==> q.den >= 1,
{
    proof {
        lemma_value_den(s.power_now, 1000000);
        lemma_value_den(s.current_now, 1);
        lemma_value_den(s.voltage_now, 1);
    }
    let power = match read_number(&s.power_now) {
        Some(p) => p.divided(1000000),
        None => None,
    };
    match power {
        Some(p) => Some(p),
        None => match (read_number(&s.current_now), read_number(&s.voltage_now)) {
            (Some(c), Some(v)) => {
                let num = match c.num.checked_mul(v.num) {
                    Some(n) => n,
                    None => return None,
                };
                let den = match c.den.checked_mul(v.den) {
                    Some(d) => match d.checked_mul(1000000000000) {
                        Some(d) => d,
                        None => {
                            proof {
                                assert(c.den * v.den * 1000000000000 > u128::MAX);
                            }
                            return None;
                        },
                    },
                    None => {
                        proof {
                            assert(c.den * v.den * 1000000000000 >= c.den * v.den) by (nonlinear_arith)
                                requires
                                    c.den * v.den >= 0,
                            ;
                        }
                        return None;
                    },
                };
                proof {
                    assert(den >= 1) by (nonlinear_arith)
                        requires
                            c.den >= 1,
                            v.den >= 1,
                            den == c.den * v.den * 1000000000000,
                    ;
                }
                Some(Quantity { num, den })
            },
            _ => None,
        },
    }
}

/// ` W`
pub open spec fn watt_suffix() -> Seq<char> {
    seq![' ', 'W']
}

/// What the battery is doing: its `status`, followed by the power it moves in watts with
/// one decimal when that is above zero; nothing when the status cannot be read.
pub open spec fn note_of(s: SupplyFiles) -> Option<Seq<char>> {
    match s.status {
        None => None,
        Some(st) => {
            let status = file_text(st@);
            match draw_of(s) {
                Some((n, d)) => if n > 0 {
                    Some(status + seq![' '] + fixed_text(n as nat, d, 1) + watt_suffix())
                } else {
                    Some(status)
                },
                None => Some(status),
            }
        },
    }
}

pub fn note(s: &SupplyFiles) -> (r: Option<String>)
    ensures
        match note_of(*s) {
            Some(t) => r matches Some(n) && n@ == t,
            None => r is None,
        },
{
    let status = match &s.status {
        Some(st) => trimmed_text(st),
        None => return None,
    };
    match draw(s) {
        Some(q) => {
            if q.num > 0 {
                let mut t = status;
                t.push(' ');
                let w = fixed(q.num as u128, q.den, 1);
                append(&mut t, &w);
                t.push(' ');
                t.push('W');
                Some(text_of(t.as_slice()))
            } else {
                Some(text_of(status.as_slice()))
            }
        },
        None => Some(text_of(status.as_slice())),
    }
}

/// The charge reading of a battery: its capacity in percent under its name, with the
/// note of what it is doing; nothing when the capacity cannot be read.
pub open spec fn charge_view(s: SupplyFiles) -> Option<(Seq<char>, (int, nat), Option<Seq<char>>)> {
    match file_float(s.capacity) {
        Some(c) => Some((s.name@, c, note_of(s))),
        None => None,
    }
}

/// ` temp`
pub open spec fn temp_suffix() -> Seq<char> {
    seq![' ', 't', 'e', 'm', 'p']
}

/// The temperature reading of a battery, in degrees from tenths of a degree, under its
/// name followed by `temp`; nothing when the temperature cannot be read.
pub open spec fn temp_view(s: SupplyFiles) -> Option<(Seq<char>, (int, nat), Option<Seq<char>>)> {
    match scaled_float(s.temp, 10) {
        Some(t) => Some((s.name@ + temp_suffix(), t, None)),
        None => None,
    }
}

/// A reading as label, value and note.
pub open spec fn reading_view(r: Reading) -> (Seq<char>, (int, nat), Option<Seq<char>>) {
    (r.label@, (r.value.num as int, r.value.den as nat), match r.note {
        Some(n) => Some(n@),
        None => None,
    })
}

fn charge_of(s: &SupplyFiles) -> (r: Option<Reading>)
    ensures
        match charge_view(*s) {
            Some(v) => r matches Some(x) && reading_view(x) == v && x.min is None && x.max is None,
            None => r is None,
        },
{
    let capacity = match read_float(&s.capacity) {
        Some(c) => c,
        None => return None,
    };
    let mut r = Reading::new(s.name.clone(), capacity);
    r.note = note(s);
    Some(r)
}

fn temp_of(s: &SupplyFiles) -> (r: Option<Reading>)
    ensures
        match temp_view(*s) {
            Some(v) => r matches Some(x) && reading_view(x) == v && x.min is None && x.max is None,
            None => r is None,
        },
{
    let t = match read_float(&s.temp) {
        Some(t) => match t.divided(10) {
            Some(t) => t,
            None => return None,
        },
        None => return None,
    };
    let mut label = chars_of(s.name.as_str());
    label.push(' ');
    label.push('t');
    label.push('e');
    label.push('m');
    label.push('p');
    Some(Reading::new(text_of(label.as_slice()), t))
}

/// The views of the batteries' readings in the supplies `perm[..upto]`, in that order.
pub open spec fn battery_views(
    supplies: Seq<SupplyFiles>,
    perm: Seq<usize>,
    upto: int,
    temps: bool,
) -> Seq<(Seq<char>, (int, nat), Option<Seq<char>>)>
    decreases upto,
{
    if upto <= 0 {
        seq![]
    } else {
        let init = battery_views(supplies, perm, upto - 1, temps);
        let s = supplies[perm[upto - 1] as int];
        let v = if temps {
            temp_view(s)
        } else {
            charge_view(s)
        };
        if is_battery_spec(s.kind) && v is Some {
            init.push(v.unwrap())
        } else {
            init
        }
    }
}

/// The supplies are visited in the order of their names.
pub open spec fn by_name(supplies: Seq<SupplyFiles>, perm: Seq<usize>) -> bool {
    &&& is_permutation(perm, supplies.len())
    &&& forall|i: int, j: int|
        0 <= i < j < perm.len() ==> crate::order::text_le(
            #[trigger] supplies[perm[i] as int].name@,
            #[trigger] supplies[perm[j] as int].name@,
        )
}

fn batteries(supplies: &Vec<SupplyFiles>, temps: bool) -> (r: Vec<Reading>)
    ensures
        exists|perm: Seq<usize>|
            #![trigger perm.len()]
            by_name(supplies@, perm) && r@.len() == battery_views(
                supplies@,
                perm,
                perm.len() as int,
                temps,
            ).len() && forall|i: int|
                0 <= i < r@.len() ==> reading_view(#[trigger] r@[i]) == battery_views(
                    supplies@,
                    perm,
                    perm.len() as int,
                    temps,
                )[i] && r@[i].min is None && r@[i].max is None,
{
    let mut keys: Vec<(Vec<char>, Vec<char>)> = Vec::new();
    let mut i: usize = 0;
    while i < supplies.len()
        invariant
            i <= supplies@.len(),
            keys@.len() == i,
            forall|k: int| 0 <= k < i ==> #[trigger] key_of(keys@, k) == (supplies@[k].name@, Seq::<char>::empty()),
        decreases supplies@.len() - i,
    {
        let e: Vec<char> = Vec::new();
        assert(e@ =~= Seq::<char>::empty());
        let ghost old = keys@;
        keys.push((chars_of(supplies[i].name.as_str()), e));
        assert forall|k: int| 0 <= k < i implies #[trigger] key_of(keys@, k) == (supplies@[k].name@, Seq::<char>::empty()) by {
            assert(keys@[k] == old[k]);
            assert(key_of(old, k) == (supplies@[k].name@, Seq::<char>::empty()));
        }
        i = i + 1;
    }
    let perm = sorted_order(&keys);
    proof {
        crate::order::lemma_pair_facts();
        assert forall|i: int, j: int|
            0 <= i < j < perm@.len() implies crate::order::text_le(
            #[trigger] supplies@[perm@[i] as int].name@,
            #[trigger] supplies@[perm@[j] as int].name@,
        ) by {
            let ki = key_of(keys@, perm@[i] as int);
            let kj = key_of(keys@, perm@[j] as int);
            assert(crate::order::pair_le(ki, kj));
            crate::order::lemma_text_lt_irreflexive(ki.1);
        }
    }
    let mut r: Vec<Reading> = Vec::new();
    let mut k: usize = 0;
    while k < perm.len()
        invariant
            k <= perm@.len() == supplies@.len(),
            is_permutation(perm@, supplies@.len()),
            r@.len() == battery_views(supplies@, perm@, k as int, temps).len(),
            forall|i: int|
                0 <= i < r@.len() ==> reading_view(#[trigger] r@[i]) == battery_views(
                    supplies@,
                    perm@,
                    k as int,
                    temps,
                )[i] && r@[i].min is None && r@[i].max is None,
        decreases perm@.len() - k,
    {
        let s = &supplies[perm[k]];
        let ghost before = battery_views(supplies@, perm@, k as int, temps);
        let ghost after = battery_views(supplies@, perm@, k + 1, temps);
        if is_battery(&s.kind) {
            let made = if temps {
                temp_of(s)
            } else {
                charge_of(s)
            };
            match made {
                Some(x) => {
                    r.push(x);
                    assert(after == before.push(reading_view(x)));
                },
                None => {
                    assert(after == before);
                },
            }
        } else {
            assert(after == before);
        }
        k = k + 1;
    }
    r
}

/// The charge of every battery, in the order of the supplies' names: supplies that are
/// not batteries are skipped, and so are batteries whose capacity cannot be read.
pub fn charge(supplies: &Vec<SupplyFiles>) -> (r: Vec<Reading>)
    ensures
        exists|perm: Seq<usize>|
            #![trigger perm.len()]
            by_name(supplies@, perm) && r@.len() == battery_views(
                supplies@,
                perm,
                perm.len() as int,
                false,
            ).len() && forall|i: int|
                0 <= i < r@.len() ==> reading_view(#[trigger] r@[i]) == battery_views(
                    supplies@,
                    perm,
                    perm.len() as int,
                    false,
                )[i] && r@[i].min is None && r@[i].max is None,
{
    batteries(supplies, false)
}

/// The temperature of every battery that reports one, in the order of the supplies' names.
pub fn temperatures(supplies: &Vec<SupplyFiles>) -> (r: Vec<Reading>)
    ensures
        exists|perm: Seq<usize>|
            #![trigger perm.len()]
            by_name(supplies@, perm) && r@.len() == battery_views(
                supplies@,
                perm,
                perm.len() as int,
                true,
            ).len() && forall|i: int|
                0 <= i < r@.len() ==> reading_view(#[trigger] r@[i]) == battery_views(
                    supplies@,
                    perm,
                    perm.len() as int,
                    true,
                )[i] && r@[i].min is None && r@[i].max is None,
{
    batteries(supplies, true)
}

} // verus!
