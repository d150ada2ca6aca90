//! Power draw from the RAPL energy counters under `/sys/class/powercap`: the energy
//! a zone used between two snapshots over the time between them.
use vstd::prelude::*;
use crate::order::{sorted_order, is_permutation, sorted_stably, key_of, pair_le};
use crate::number::{parse_rounded, rounded_units};
use crate::reading::{Quantity, Reading};
use crate::sysfs::{file_text, is_value, read_number, scaled_value, trimmed_text};
use crate::text::{chars_of, text_of};

verus! {

/// What a powercap directory holds, as read from its files. Texts are the files'
/// contents, `None` where a file could not be read.
pub struct ZoneEntry {
    /// The directory's own name, such as `intel-rapl:0:1`.
    pub dir_name: String,
    /// Whether `energy_uj` is a regular file.
    pub has_energy: bool,
    pub energy: Option<String>,
    /// The zone's `name`.
    pub name: Option<String>,
    /// Whether the directory's real path and its parent could be resolved.
    pub resolved: bool,
    /// The `name` of the directory the zone really sits in, when it has one.
    pub parent_name: Option<String>,
    pub range: Option<String>,
    pub limit: Option<String>,
}

/// One zone: its label, the energy counter and the value at which it wraps, both in
/// picojoules (millionths of the microjoules the files count in), and the long term
/// power limit in watts.
pub struct Zone {
    pub label: String,
    pub energy: i128,
    pub range: Option<i128>,
    pub limit: Option<Quantity>,
}

/// The characters of `s` up to its first `:`, and those after it (empty when there is none).
pub open spec fn split_colon(s: Seq<char>) -> (Seq<char>, Seq<char>) {
    if exists|i: int| 0 <= i < s.len() && s[i] == ':' {
        let i = choose|i: int|
            0 <= i < s.len() && s[i] == ':' && forall|k: int| 0 <= k < i ==> s[k] != ':';
        (s.take(i), s.skip(i + 1))
    } else {
        (s, seq![])
    }
}

/// The sort key of a powercap directory: its driver, then its zone.
pub fn order(dir_name: &Vec<char>) -> (r: (Vec<char>, Vec<char>))
    ensures
        (r.0@, r.1@) == split_colon(dir_name@),
{
    let mut i: usize = 0;
    while i < dir_name.len()
        invariant
            i <= dir_name@.len(),
            forall|k: int| 0 <= k < i ==> dir_name@[k] != ':',
        decreases dir_name@.len() - i,
    {
        if dir_name[i] == ':' {
            let mut driver: Vec<char> = Vec::new();
            let mut zone: Vec<char> = Vec::new();
            let mut k: usize = 0;
            while k < i
                invariant
                    k <= i < dir_name@.len(),
                    driver@ == dir_name@.take(k as int),
                decreases i - k,
            {
                driver.push(dir_name[k]);
                assert(dir_name@.take(k + 1) == dir_name@.take(k as int).push(dir_name@[k as int]));
                k = k + 1;
            }
            k = i + 1;
            while k < dir_name.len()
                invariant
                    i < k <= dir_name@.len(),
                    zone@ == dir_name@.subrange(i + 1, k as int),
                decreases dir_name@.len() - k,
            {
                zone.push(dir_name[k]);
                assert(dir_name@.subrange(i + 1, k + 1) == dir_name@.subrange(i + 1, k as int).push(
                    dir_name@[k as int],
                ));
                k = k + 1;
            }
            proof {
                let w = choose|w: int|
                    0 <= w < dir_name@.len() && dir_name@[w] == ':' && forall|k: int|
                        0 <= k < w ==> dir_name@[k] != ':';
                assert(0 <= w < dir_name@.len() && dir_name@[w] == ':' && forall|k: int|
                    0 <= k < w ==> dir_name@[k] != ':');
                if w < i {
                    assert(dir_name@[w] != ':');
                } else if w > i {
                    assert(dir_name@[i as int] != ':');
                }
                assert(dir_name@.skip(i + 1) == dir_name@.subrange(i + 1, dir_name@.len() as int));
            }
            return (driver, zone);
        }
        i = i + 1;
    }
    (dir_name.clone(), Vec::new())
}

/// The label of a zone: its name, behind the name of the zone it belongs to when it is
/// a subzone (`package-0 core`); no label when the name cannot be read or the
/// directory cannot be resolved.
pub open spec fn zone_label(e: ZoneEntry) -> Option<Seq<char>> {
    match e.name {
        None => None,
        Some(n) => if !e.resolved {
            None
        } else {
            match e.parent_name {
                Some(p) => Some(file_text(p@) + seq![' '] + file_text(n@)),
                None => Some(file_text(n@)),
            }
        },
    }
}

pub fn label(e: &ZoneEntry) -> (r: Option<String>)
    ensures
        match zone_label(*e) {
            Some(l) => r matches Some(s) && s@ == l,
            None => r is None,
        },
{
    match &e.name {
        None => None,
        Some(n) => {
            if !e.resolved {
                return None;
            }
            let name = trimmed_text(n);
            match &e.parent_name {
                Some(p) => {
                    let mut l = trimmed_text(p);
                    l.push(' ');
                    let ghost head = l@;
                    let mut k: usize = 0;
                    while k < name.len()
                        invariant
                            k <= name@.len(),
                            l@ == head + name@.take(k as int),
                        decreases name@.len() - k,
                    {
                        l.push(name[k]);
                        assert(name@.take(k + 1) == name@.take(k as int).push(name@[k as int]));
                        k = k + 1;
                    }
                    assert(name@.take(name@.len() as int) == name@);
                    Some(text_of(l.as_slice()))
                },
                None => Some(text_of(name.as_slice())),
            }
        },
    }
}

/// The long term power limit of a zone in watts, from microwatts; none unless positive.
pub open spec fn limit_of(text: Option<String>) -> Option<(int, nat)> {
    match scaled_value(text, 1000000) {
        Some(w) => if w.0 > 0 {
            Some(w)
        } else {
            None
        },
        None => None,
    }
}

pub fn limit(text: &Option<String>) -> (r: Option<Quantity>)
    ensures
        match limit_of(*text) {
            Some(v) => r matches Some(q) && is_value(q, v),
            None => r is None,
        },
{
    match read_number(text) {
        Some(uw) => match uw.divided(1000000) {
            Some(w) => if w.num > 0 {
                Some(w)
            } else {
                None
            },
            None => None,
        },
        None => None,
    }
}

/// How far from zero an energy figure may lie, in picojoules: `2^100`, some `10^24`
/// microjoules, beyond any counter a kernel keeps.
pub open spec fn energy_bound() -> int {
    0x10000000000000000000000000
}

/// The figure a file counting microjoules holds, in picojoules, rounded to the nearest
/// picojoule with halves away from zero: nothing when it holds no decimal number (an
/// infinity or `nan` has no count of picojoules), or when the figure lies beyond the
/// energy bound.
pub open spec fn picojoules(text: Option<String>) -> Option<int> {
    match text {
        None => None,
        Some(t) => match rounded_units(file_text(t@), 6) {
            Some(u) => if -energy_bound() <= u <= energy_bound() {
                Some(u)
            } else {
                None
            },
            None => None,
        },
    }
}

fn read_picojoules(text: &Option<String>) -> (r: Option<i128>)
    ensures
        match picojoules(*text) {
            Some(v) => r == Some(v as i128),
            None => r is None,
        },
{
    match text {
        None => None,
        Some(t) => {
            let s = trimmed_text(t);
            match parse_rounded(&s, 6, 0x10000000000000000000000000) {
                Some(Some(v)) => Some(v),
                _ => None,
            }
        },
    }
}

/// The zone an entry makes, if it is a readable zone with a label.
pub open spec fn entry_zone(e: ZoneEntry, z: Zone) -> bool {
    &&& zone_label(e) == Some(z.label@)
    &&& picojoules(e.energy) == Some(z.energy as int)
    &&& match z.range {
        Some(r) => picojoules(e.range) == Some(r as int),
        None => picojoules(e.range) is None,
    }
    &&& match z.limit {
        Some(q) => limit_of(e.limit) == Some((q.num as int, q.den as nat)),
        None => limit_of(e.limit) is None,
    }
}

/// The counter of an entry, when it can be read and held; one that cannot is taken as
/// readable only by root.
pub open spec fn counter(e: ZoneEntry) -> Option<int> {
    picojoules(e.energy)
}

/// The sort key of an entry.
pub open spec fn entry_key(e: ZoneEntry) -> (Seq<char>, Seq<char>) {
    split_colon(e.dir_name@)
}

/// One of the entries `kept` carries the label `l`.
pub open spec fn label_kept(entries: Seq<ZoneEntry>, kept: Seq<int>, l: Seq<char>) -> bool {
    exists|i: int| 0 <= i < kept.len() && zone_label(entries[#[trigger] kept[i]]) == Some(l)
}

/// Visiting the entries in the order `order`, up to `k`: the entries that make a zone,
/// in the order they were visited, and the number of counters that could not be read.
/// An entry without an energy counter is passed over; one whose counter cannot be read
/// is counted; one without a label is passed over; and one whose label an earlier
/// entry already gave is dropped.
pub open spec fn visit(entries: Seq<ZoneEntry>, order: Seq<usize>, k: int) -> (Seq<int>, nat)
    decreases k,
{
    if k <= 0 {
        (seq![], 0)
    } else {
        let (kept, locked) = visit(entries, order, k - 1);
        let j = order[k - 1] as int;
        let e = entries[j];
        if !e.has_energy {
            (kept, locked)
        } else if counter(e) is None {
            (kept, locked + 1)
        } else {
            match zone_label(e) {
                None => (kept, locked),
                Some(l) => if label_kept(entries, kept, l) {
                    (kept, locked)
                } else {
                    (kept.push(j), locked)
                },
            }
        }
    }
}

/// `order` lists the entries sorted by driver and then zone, entries with equal keys in
/// the order they came.
pub open spec fn in_key_order(entries: Seq<ZoneEntry>, order: Seq<usize>) -> bool {
    &&& is_permutation(order, entries.len())
    &&& forall|i: int, j: int|
        0 <= i < j < order.len() ==> pair_le(
            entry_key(entries[#[trigger] order[i] as int]),
            entry_key(entries[#[trigger] order[j] as int]),
        )
    &&& forall|i: int, j: int|
        0 <= i < j < order.len() && entry_key(entries[order[i] as int]) == entry_key(entries[order[j] as int])
            ==> #[trigger] order[i] < #[trigger] order[j]
}

/// `r` is the scan of the entries visited in the order `order`.
pub open spec fn scanned(entries: Seq<ZoneEntry>, order: Seq<usize>, r: ZoneScan) -> bool {
    let (kept, locked) = visit(entries, order, order.len() as int);
    &&& r.locked == locked
    &&& r.zones@.len() == kept.len()
    &&& forall|i: int| 0 <= i < kept.len() ==> entry_zone(entries[#[trigger] kept[i]], r.zones@[i])
}

fn has_label(zones: &Vec<Zone>, l: &String) -> (seen: bool)
    ensures
        seen == exists|i: int| 0 <= i < zones@.len() && (#[trigger] zones@[i]).label@ == l@,
{
    let mut z: usize = 0;
    while z < zones.len()
        invariant
            z <= zones@.len(),
            forall|i: int| 0 <= i < z ==> (#[trigger] zones@[i]).label@ != l@,
        decreases zones@.len() - z,
    {
        if zones[z].label == *l {
            return true;
        }
        z = z + 1;
    }
    false
}

/// Result of scanning the powercap entries: the zones in directory order, every label
/// once (the first zone carrying it is kept), and how many counters were unreadable.
pub struct ZoneScan {
    pub zones: Vec<Zone>,
    pub locked: usize,
}

/// The zones among the powercap entries: entries are visited sorted by driver and then
/// by zone; an entry without an energy counter is skipped; one whose counter cannot be
/// read counts as locked; one without a label is skipped; and a zone whose label was
/// already seen is dropped, so the same package read through two drivers appears once.
pub fn zones(entries: &Vec<ZoneEntry>) -> (r: ZoneScan)
    ensures
        exists|order: Seq<usize>| #[trigger] in_key_order(entries@, order) && scanned(entries@, order, r),
        forall|i: int| 0 <= i < r.zones@.len() ==> zone_in_range(#[trigger] r.zones@[i]),
{
    let mut keys: Vec<(Vec<char>, Vec<char>)> = Vec::new();
    let mut i: usize = 0;
    while i < entries.len()
        invariant
            i <= entries@.len(),
            keys@.len() == i,
            forall|k: int|
                0 <= k < i ==> key_of(keys@, k) == #[trigger] entry_key(entries@[k]),
        decreases entries@.len() - i,
    {
        let name = chars_of(entries[i].dir_name.as_str());
        let ghost before = keys@;
        keys.push(order(&name));
        assert forall|k: int| 0 <= k < i + 1 implies key_of(keys@, k) == #[trigger] entry_key(entries@[k]) by {
            if k < i {
                assert(keys@[k] == before[k]);
            }
        }
        i = i + 1;
    }
    let perm = sorted_order(&keys);
    proof {
        assert forall|a: int, b: int| 0 <= a < b < perm@.len() implies pair_le(
            entry_key(entries@[#[trigger] perm@[a] as int]),
            entry_key(entries@[#[trigger] perm@[b] as int]),
        ) by {
            assert(pair_le(key_of(keys@, perm@[a] as int), key_of(keys@, perm@[b] as int)));
        }
        assert forall|a: int, b: int|
            0 <= a < b < perm@.len() && entry_key(entries@[perm@[a] as int]) == entry_key(
                entries@[perm@[b] as int],
            ) implies #[trigger] perm@[a] < #[trigger] perm@[b] by {
            assert(key_of(keys@, perm@[a] as int) == key_of(keys@, perm@[b] as int));
        }
        assert(in_key_order(entries@, perm@));
    }
    let r = gather(entries, &perm);
    proof {
        let kept = visit(entries@, perm@, perm@.len() as int).0;
        assert forall|i: int| 0 <= i < r.zones@.len() implies zone_in_range(#[trigger] r.zones@[i]) by {
            assert(entry_zone(entries@[kept[i]], r.zones@[i]));
        }
    }
    r
}

fn gather(entries: &Vec<ZoneEntry>, perm: &Vec<usize>) -> (r: ZoneScan)
    requires
        is_permutation(perm@, entries@.len()),
    ensures
        scanned(entries@, perm@, r),
{
    let mut zones: Vec<Zone> = Vec::new();
    let mut locked: usize = 0;
    let mut k: usize = 0;
    let ghost mut kept: Seq<int> = seq![];
    while k < perm.len()
        invariant
            k <= perm@.len() == entries@.len(),
            is_permutation(perm@, entries@.len()),
            (kept, locked as nat) == visit(entries@, perm@, k as int),
            locked <= k,
            zones@.len() == kept.len(),
            forall|i: int| 0 <= i < kept.len() ==> entry_zone(entries@[#[trigger] kept[i]], zones@[i]),
        decreases perm@.len() - k,
    {
        let e = &entries[perm[k]];
        let ghost j = perm@[k as int] as int;
        let ghost ek = entries@[j];
        assert(ek == *e);
        if e.has_energy {
            match read_picojoules(&e.energy) {
                None => {
                    locked = locked + 1;
                },
                Some(energy) => {
                    match label(e) {
                        None => {},
                        Some(l) => {
                            let seen = has_label(&zones, &l);
                            proof {
                                assert(seen == label_kept(entries@, kept, l@)) by {
                                    if seen {
                                        let i = choose|i: int| 0 <= i < zones@.len() && (#[trigger] zones@[i]).label@ == l@;
                                        assert(entry_zone(entries@[kept[i]], zones@[i]));
                                    }
                                    if label_kept(entries@, kept, l@) {
                                        let i = choose|i: int| 0 <= i < kept.len() && zone_label(entries@[#[trigger] kept[i]]) == Some(l@);
                                        assert(entry_zone(entries@[kept[i]], zones@[i]));
                                        assert(zones@[i].label@ == l@);
                                    }
                                }
                            }
                            if !seen {
                                let zone = Zone {
                                    label: l,
                                    energy,
                                    range: read_picojoules(&e.range),
                                    limit: limit(&e.limit),
                                };
                                assert(entry_zone(ek, zone));
                                let ghost before = zones@;
                                zones.push(zone);
                                proof {
                                    kept = kept.push(j);
                                    assert forall|i: int| 0 <= i < kept.len() implies entry_zone(
                                        entries@[#[trigger] kept[i]],
                                        zones@[i],
                                    ) by {
                                        if i < kept.len() - 1 {
                                            assert(zones@[i] == before[i]);
                                        }
                                    }
                                }
                            }
                        },
                    }
                },
            }
        }
        k = k + 1;
    }
    ZoneScan { zones, locked }
}

/// The power a zone drew between two snapshots `nanos` nanoseconds apart, in watts, as
/// `num / den`: the energy used in picojoules, over a counter that wrapped adding the
/// wrap value back (without one a wrapped counter gives a figure with no bound), over
/// the time in thousandths of a nanosecond; zero when no time passed.
pub open spec fn draw_value(zone: Zone, before: Zone, nanos: nat) -> (int, int) {
    if nanos == 0 {
        (0, 1)
    } else {
        let used = zone.energy - before.energy;
        if used < 0 {
            match zone.range {
                Some(r) => (used + r, (nanos * 1000) as int),
                None => (1, 0),
            }
        } else {
            (used, (nanos * 1000) as int)
        }
    }
}

/// A zone's draw times the time between the snapshots is the energy it used: with the
/// draw `num / den` watts and `nanos` nanoseconds between snapshots, `num / den *
/// nanos / 10^9` joules is what the counter moved by in picojoules over `10^12`. A
/// counter that did not go down moved by its difference alone, so an unchanged counter
/// draws nothing; one that went down wrapped once and moved by its difference plus its
/// wrap value.
pub proof fn draw_is_energy_over_time(zone: Zone, before: Zone, nanos: nat)
    requires
        nanos > 0,
    ensures
        ({
            let v = draw_value(zone, before, nanos);
            let used = zone.energy - before.energy;
            &&& used >= 0 ==> v.1 > 0 && v.0 * ((nanos * 1000) as int) == used * v.1
            &&& used == 0 ==> v.0 == 0
            &&& used < 0 ==> match zone.range {
                Some(r) => v.1 > 0 && v.0 * ((nanos * 1000) as int) == (used + r) * v.1,
                None => v.1 == 0,
            }
        }),
{
    let v = draw_value(zone, before, nanos);
    let used = zone.energy - before.energy;
    let d: int = (nanos * 1000) as int;
    assert(d > 0);
    if used >= 0 {
        assert(v.0 * d == used * v.1) by (nonlinear_arith)
            requires
                v.0 == used,
                v.1 == d,
        ;
    } else {
        match zone.range {
            Some(r) => {
                assert(v.0 * d == (used + r) * v.1) by (nonlinear_arith)
                    requires
                        v.0 == used + r,
                        v.1 == d,
                ;
            },
            None => {},
        }
    }
}

/// A zone's figures lie within the energy bound, as every zone read from its files does.
pub open spec fn zone_in_range(z: Zone) -> bool {
    &&& -energy_bound() <= z.energy <= energy_bound()
    &&& z.range matches Some(r) ==> -energy_bound() <= r <= energy_bound()
}

pub fn draw(zone: &Zone, before: &Zone, nanos: u64) -> (q: Quantity)
    requires
        zone_in_range(*zone),
        zone_in_range(*before),
    ensures
        (q.num as int, q.den as int) == draw_value(*zone, *before, nanos as nat),
{
    if nanos == 0 {
        return Quantity::zero();
    }
    let used: i128 = zone.energy - before.energy;
    let den = nanos as u128 * 1000;
    if used < 0 {
        match zone.range {
            Some(r) => Quantity { num: used + r, den },
            None => Quantity { num: 1, den: 0 },
        }
    } else {
        Quantity { num: used, den }
    }
}

/// Index of the first zone in `zones` with the given label.
pub open spec fn first_zone(zones: Seq<Zone>, label: Seq<char>) -> Option<int> {
    if exists|j: int| 0 <= j < zones.len() && (#[trigger] zones[j]).label@ == label {
        Some(
            choose|j: int|
                0 <= j < zones.len() && (#[trigger] zones[j]).label@ == label && forall|k: int|
                    0 <= k < j ==> (#[trigger] zones[k]).label@ != label,
        )
    } else {
        None
    }
}

/// What `watts` reports for `zone`: a reading under its label, capped at its limit,
/// valued at the draw since the same zone's previous snapshot, or zero for a zone that
/// just appeared.
pub open spec fn zone_power(zone: Zone, before: Seq<Zone>, nanos: nat, r: Reading) -> bool {
    &&& r.label@ == zone.label@
    &&& r.max == zone.limit
    &&& r.min is None && r.note is None
    &&& match first_zone(before, zone.label@) {
        Some(j) => (r.value.num as int, r.value.den as int) == draw_value(zone, before[j], nanos),
        None => r.value.num == 0 && r.value.den == 1,
    }
}

fn find_zone(zones: &Vec<Zone>, label: &String) -> (r: Option<usize>)
    ensures
        r matches Some(j) ==> j < zones@.len(),
        match r {
            Some(j) => first_zone(zones@, label@) == Some(j as int),
            None => first_zone(zones@, label@) is None,
        },
{
    let mut j: usize = 0;
    while j < zones.len()
        invariant
            j <= zones@.len(),
            forall|k: int| 0 <= k < j ==> (#[trigger] zones@[k]).label@ != label@,
        decreases zones@.len() - j,
    {
        if zones[j].label == *label {
            proof {
                let w = choose|i: int|
                    0 <= i < zones@.len() && (#[trigger] zones@[i]).label@ == label@ && forall|
                        k: int,
                    | 0 <= k < i ==> (#[trigger] zones@[k]).label@ != label@;
                assert(0 <= w < zones@.len() && zones@[w].label@ == label@ && forall|k: int|
                    0 <= k < w ==> (#[trigger] zones@[k]).label@ != label@);
                if w < j {
                    assert(zones@[w].label@ != label@);
                } else if w > j {
                    assert(zones@[j as int].label@ != label@);
                }
            }
            return Some(j);
        }
        j = j + 1;
    }
    None
}

fn reading(zone: &Zone, value: Quantity) -> (r: Reading)
    ensures
        r.label@ == zone.label@,
        r.value == value,
        r.max == zone.limit,
        r.min is None,
        r.note is None,
{
    let mut r = Reading::new(zone.label.clone(), value);
    r.max = zone.limit;
    r
}

/// One reading per current zone, in order: the draw since the previous snapshot taken
/// `nanos` nanoseconds earlier.
pub fn watts(current: &Vec<Zone>, before: &Vec<Zone>, nanos: u64) -> (r: Vec<Reading>)
    requires
        forall|i: int| 0 <= i < current@.len() ==> zone_in_range(#[trigger] current@[i]),
        forall|i: int| 0 <= i < before@.len() ==> zone_in_range(#[trigger] before@[i]),
    ensures
        r@.len() == current@.len(),
        forall|i: int|
            0 <= i < r@.len() ==> zone_power(current@[i], before@, nanos as nat, #[trigger] r@[i]),
{
    let mut r: Vec<Reading> = Vec::new();
    let mut i: usize = 0;
    while i < current.len()
        invariant
            i <= current@.len(),
            r@.len() == i,
            forall|k: int| 0 <= k < current@.len() ==> zone_in_range(#[trigger] current@[k]),
            forall|k: int| 0 <= k < before@.len() ==> zone_in_range(#[trigger] before@[k]),
            forall|k: int|
                0 <= k < i ==> zone_power(current@[k], before@, nanos as nat, #[trigger] r@[k]),
        decreases current@.len() - i,
    {
        let zone = &current[i];
        let value = match find_zone(before, &zone.label) {
            Some(j) => draw(zone, &before[j], nanos),
            None => Quantity::zero(),
        };
        r.push(reading(zone, value));
        i = i + 1;
    }
    r
}

/// Power measured between consecutive samples of the zones.
pub struct PowerSampler {
    pub previous: Option<Vec<Zone>>,
}

impl PowerSampler {
    pub fn new() -> (p: PowerSampler)
        ensures
            p.previous is None,
    {
        PowerSampler { previous: None }
    }

    /// The draw of every zone since the previous sample, taken `nanos` nanoseconds ago;
    /// the first sample has nothing to compare against and reads zero everywhere.
    pub fn sample(&mut self, current: Vec<Zone>, nanos: u64) -> (r: Vec<Reading>)
        requires
            forall|i: int| 0 <= i < current@.len() ==> zone_in_range(#[trigger] current@[i]),
            old(self).previous matches Some(p) ==> forall|i: int| 0 <= i < p@.len() ==> zone_in_range(#[trigger] p@[i]),
        ensures
            r@.len() == current@.len(),
            final(self).previous == Some(current),
            match old(self).previous {
                Some(before) => forall|i: int|
                    0 <= i < r@.len() ==> zone_power(
                        current@[i],
                        before@,
                        nanos as nat,
                        #[trigger] r@[i],
                    ),
                None => forall|i: int|
                    0 <= i < r@.len() ==> zone_power(current@[i], seq![], nanos as nat, #[trigger] r@[i]),
            },
    {
        let r = match &self.previous {
            Some(before) => watts(&current, before, nanos),
            None => {
                let empty: Vec<Zone> = Vec::new();
                watts(&current, &empty, nanos)
            },
        };
        self.previous = Some(current);
        r
    }
}

} // verus!
