//! Per core usage from `/proc/stat`: the jiffies each core has spent in each state
//! since boot, and the share of them spent busy between two snapshots.
use vstd::prelude::*;
use crate::number::{digits_only, is_decimal, parse_rounded, parse_special, rounded_units, special_value};
use crate::reading::{Quantity, Reading};
use crate::text::{all_digits, is_digit, token_spans, line_spans, tokens, lines, text_of, slice};

verus! {

/// The counters of one core: time spent busy and in total, in units of a quadrillionth
/// of a jiffy.
pub struct Times {
    pub name: String,
    pub busy: i128,
    pub total: i128,
}

/// `Core ` followed by the core number.
pub open spec fn core_label(id: Seq<char>) -> Seq<char> {
    seq!['C', 'o', 'r', 'e', ' '] + id
}

/// The core number of a field such as `cpu3`: `cpu` followed by one or more digits.
/// The aggregate `cpu` field has none and is not a core.
pub open spec fn cpu_id(field: Seq<char>) -> Option<Seq<char>> {
    if field.len() > 3 && field[0] == 'c' && field[1] == 'p' && field[2] == 'u' && all_digits(
        field.skip(3),
    ) {
        Some(field.skip(3))
    } else {
        None
    }
}

/// Counters are kept in units of a quadrillionth of a jiffy: a counter written with up
/// to fifteen decimals is held exactly, and one written with more is rounded to the
/// nearest unit, halves away from zero.
pub open spec fn unit() -> int {
    1000000000000000
}

/// How far from zero a counter, a running total of counters, or a busy figure may lie:
/// `2^119` units, some `6.6 * 10^20` jiffies, beyond what any kernel counts.
pub open spec fn bound() -> int {
    0x800000000000000000000000000000
}

/// What a field of a line says: nothing when it is not a number as `str::parse::<f64>`
/// reads one; else the number in units, rounded to the nearest unit; and nothing in
/// units for an infinity or `nan`, which no count of units holds.
pub open spec fn field_of(t: Seq<char>) -> Option<Option<int>> {
    match rounded_units(t, 15) {
        Some(u) => Some(Some(u)),
        None => if special_value(t) is Some {
            Some(None)
        } else {
            None
        },
    }
}

/// The numbers among the fields `spans[from..to]` of `s`, in order, in units; fields
/// that are not numbers are skipped.
pub open spec fn numeric_fields(s: Seq<char>, spans: Seq<(int, int)>, from: int, to: int) -> Seq<
    Option<int>,
>
    decreases to - from,
{
    if to <= from {
        seq![]
    } else {
        let init = numeric_fields(s, spans, from, to - 1);
        match field_of(s.subrange(spans[to - 1].0, spans[to - 1].1)) {
            Some(v) => init.push(v),
            None => init,
        }
    }
}

pub open spec fn sum(v: Seq<int>) -> int
    decreases v.len(),
{
    if v.len() == 0 {
        0
    } else {
        sum(v.drop_last()) + v.last()
    }
}

/// Every running total of `v` lies within the bound.
pub open spec fn totals_held(v: Seq<int>) -> bool
    decreases v.len(),
{
    if v.len() == 0 {
        true
    } else {
        totals_held(v.drop_last()) && -bound() <= sum(v) <= bound()
    }
}

/// Every field could be held in units.
pub open spec fn all_held(v: Seq<Option<int>>) -> bool {
    forall|i: int| 0 <= i < v.len() ==> (#[trigger] v[i]) is Some
}

/// The values of fields that could all be held.
pub open spec fn values(v: Seq<Option<int>>) -> Seq<int> {
    Seq::new(v.len(), |i: int| v[i].unwrap())
}

/// What a line `s[lo..hi]` of `/proc/stat` says of one core: its label, the time spent
/// busy and the time in total, in units. Total is the sum of every number on the line,
/// and busy is total less idle and iowait (the fourth and fifth numbers): a core waiting
/// on the disk is not doing work. Lines that are not per core, or that carry fewer than
/// five numbers, say nothing; so do lines with an infinity or `nan` among their numbers,
/// which no count of units holds, and lines whose running totals or busy time leave the
/// bound.
pub open spec fn line_times(s: Seq<char>, lo: int, hi: int) -> Option<(Seq<char>, int, int)> {
    let spans = token_spans(s, lo, hi);
    if spans.len() == 0 {
        None
    } else {
        match cpu_id(s.subrange(spans[0].0, spans[0].1)) {
            None => None,
            Some(id) => {
                let fields = numeric_fields(s, spans, 1, spans.len() as int);
                if fields.len() < 5 || !all_held(fields) {
                    None
                } else {
                    let vals = values(fields);
                    let total = sum(vals);
                    let busy = total - (vals[3] + vals[4]);
                    if !totals_held(vals) || busy < -bound() || busy > bound() {
                        None
                    } else {
                        Some((core_label(id), busy, total))
                    }
                }
            },
        }
    }
}

/// `t` holds what `line_times` says.
pub open spec fn times_match(t: Times, v: (Seq<char>, int, int)) -> bool {
    t.name@ == v.0 && t.busy as int == v.1 && t.total as int == v.2
}

/// A core's counters lie within the bound, as every core read from a line does.
pub open spec fn in_range(t: Times) -> bool {
    -bound() <= t.busy <= bound() && -bound() <= t.total <= bound()
}

proof fn lemma_fields_prefix(s: Seq<char>, sp: Seq<(int, int)>, k: int, n: int)
    requires
        1 <= k <= n,
    ensures
        numeric_fields(s, sp, 1, k).len() <= numeric_fields(s, sp, 1, n).len(),
        numeric_fields(s, sp, 1, n).take(numeric_fields(s, sp, 1, k).len() as int) == numeric_fields(
            s,
            sp,
            1,
            k,
        ),
    decreases n - k,
{
    if k < n {
        lemma_fields_prefix(s, sp, k, n - 1);
        let init = numeric_fields(s, sp, 1, n - 1);
        let full = numeric_fields(s, sp, 1, n);
        if full != init {
            assert(full.drop_last() == init);
            assert(full.take(init.len() as int) == init);
        }
        let pre = numeric_fields(s, sp, 1, k);
        assert(full.take(pre.len() as int) == init.take(pre.len() as int));
    }
}

proof fn lemma_totals_prefix(v: Seq<int>, j: int)
    requires
        0 <= j <= v.len(),
        totals_held(v),
    ensures
        totals_held(v.take(j)),
        -bound() <= sum(v.take(j)) <= bound(),
    decreases v.len(),
{
    if j < v.len() {
        assert(v.drop_last().take(j) == v.take(j));
        lemma_totals_prefix(v.drop_last(), j);
    } else {
        assert(v.take(j) == v);
    }
}

proof fn lemma_unheld(full: Seq<Option<int>>, after: Seq<Option<int>>)
    requires
        after.len() > 0,
        after.len() <= full.len(),
        full.take(after.len() as int) == after,
        after.last() is None,
    ensures
        !all_held(full),
{
    assert(full[after.len() - 1] == after.last());
}

proof fn lemma_total_leaves(full: Seq<Option<int>>, after: Seq<Option<int>>)
    requires
        after.len() <= full.len(),
        full.take(after.len() as int) == after,
        all_held(after),
        sum(values(after)) > bound() || sum(values(after)) < -bound(),
    ensures
        !(all_held(full) && totals_held(values(full))),
{
    if all_held(full) && totals_held(values(full)) {
        assert(values(full).take(after.len() as int) =~= values(after));
        lemma_totals_prefix(values(full), after.len() as int);
    }
}

/// The counters of the core described by the line `s[lo..hi]`, if it describes one.
pub fn times(s: &Vec<char>, lo: usize, hi: usize) -> (r: Option<Times>)
    requires
        lo <= hi <= s@.len(),
    ensures
        match line_times(s@, lo as int, hi as int) {
            None => r is None,
            Some(v) => r matches Some(t) && times_match(t, v),
        },
{
    let spans = tokens(s, lo, hi);
    let ghost sp = token_spans(s@, lo as int, hi as int);
    if spans.len() == 0 {
        return None;
    }
    let (a, b) = spans[0];
    assert(s@.subrange(a as int, b as int) == s@.subrange(sp[0].0, sp[0].1));
    if !(b - a > 3 && s[a] == 'c' && s[a + 1] == 'p' && s[a + 2] == 'u' && digits_only(
        s,
        a + 3,
        b,
    )) {
        proof {
            let f = s@.subrange(a as int, b as int);
            if f.len() > 3 {
                assert(f.skip(3) == s@.subrange(a + 3, b as int));
                assert(f[0] == s@[a as int] && f[1] == s@[a + 1] && f[2] == s@[a + 2]);
            }
        }
        return None;
    }
    let ghost id = s@.subrange(a + 3, b as int);
    assert(s@.subrange(a as int, b as int).skip(3) == id);
    let ghost n = spans@.len() as int;
    let mut vals: Vec<i128> = Vec::new();
    let mut total: i128 = 0;
    let mut k: usize = 1;
    while k < spans.len()
        invariant
            1 <= k <= spans@.len() == sp.len(),
            n == sp.len(),
            sp == token_spans(s@, lo as int, hi as int),
            lo <= hi <= s@.len(),
            forall|j: int|
                0 <= j < spans@.len() ==> (#[trigger] spans@[j]).0 as int == sp[j].0 && spans@[j].1
                    as int == sp[j].1,
            forall|j: int| 0 <= j < spans@.len() ==> lo <= (#[trigger] spans@[j]).0 < spans@[j].1 <= hi,
            all_held(numeric_fields(s@, sp, 1, k as int)),
            vals@.len() == numeric_fields(s@, sp, 1, k as int).len(),
            forall|j: int|
                0 <= j < vals@.len() ==> (#[trigger] vals@[j]) as int == values(numeric_fields(
                    s@,
                    sp,
                    1,
                    k as int,
                ))[j],
            totals_held(values(numeric_fields(s@, sp, 1, k as int))),
            total as int == sum(values(numeric_fields(s@, sp, 1, k as int))),
            -bound() <= total <= bound(),
            forall|j: int| 0 <= j < vals@.len() ==> -2 * bound() <= #[trigger] vals@[j] <= 2 * bound(),
        decreases spans@.len() - k,
    {
        let (x, y) = spans[k];
        let tok = slice(s, x, y);
        assert(tok@ == s@.subrange(sp[k as int].0, sp[k as int].1));
        let ghost before = numeric_fields(s@, sp, 1, k as int);
        let ghost after = numeric_fields(s@, sp, 1, k + 1);
        proof {
            crate::number::lemma_fraction_den(tok@);
            lemma_fields_prefix(s@, sp, k as int + 1, n);
        }
        if is_decimal(&tok) {
            let ghost fv = field_of(tok@).unwrap();
            assert(after == before.push(fv));
            assert(after.drop_last() == before);
            let ghost full = numeric_fields(s@, sp, 1, n);
            assert(full.take(after.len() as int) == after);
            let v = match parse_rounded(&tok, 15, 0x1000000000000000000000000000000) {
                Some(Some(v)) => v,
                _ => {
                    proof {
                        assert(values(after).drop_last() == values(before));
                        assert(values(after).last() == fv.unwrap());
                        assert forall|j: int| 0 <= j < after.len() implies (#[trigger] after[j]) is Some by {
                            if j < before.len() {
                                assert(after[j] == before[j]);
                            }
                        }
                        lemma_total_leaves(full, after);
                    }
                    return None;
                },
            };
            let next = total + v;
            if next > 0x800000000000000000000000000000 || next < -0x800000000000000000000000000000 {
                proof {
                    assert(values(after).drop_last() == values(before));
                    lemma_total_leaves(full, after);
                }
                return None;
            }
            total = next;
            vals.push(v);
            assert(values(after).drop_last() == values(before));
            assert forall|j: int| 0 <= j < after.len() implies (#[trigger] after[j]) is Some by {
                if j < before.len() {
                    assert(after[j] == before[j]);
                }
            }
        } else if parse_special(&tok).is_some() {
            proof {
                let full = numeric_fields(s@, sp, 1, n);
                assert(after == before.push(None::<int>));
                assert(full.take(after.len() as int) == after);
                lemma_unheld(full, after);
            }
            return None;
        } else {
            assert(after == before);
        }
        k = k + 1;
    }
    let ghost fields = numeric_fields(s@, sp, 1, n);
    if vals.len() < 5 {
        return None;
    }
    let idle = vals[3] + vals[4];
    let busy = total - idle;
    if busy > 0x800000000000000000000000000000 || busy < -0x800000000000000000000000000000 {
        return None;
    }
    let mut label: Vec<char> = Vec::new();
    label.push('C');
    label.push('o');
    label.push('r');
    label.push('e');
    label.push(' ');
    let mut c = a + 3;
    let ghost head = label@;
    while c < b
        invariant
            a + 3 <= c <= b <= s@.len(),
            head == seq!['C', 'o', 'r', 'e', ' '],
            label@ == head + s@.subrange(a + 3, c as int),
        decreases b - c,
    {
        label.push(s[c]);
        assert(s@.subrange(a + 3, c + 1) == s@.subrange(a + 3, c as int).push(s@[c as int]));
        c = c + 1;
    }
    Some(Times { name: text_of(label.as_slice()), busy, total })
}

/// The per core counters found in the lines `lines[..upto]` of `s`, in line order,
/// leaving out a line that says nothing.
pub open spec fn stat_times(s: Seq<char>, lines: Seq<(int, int)>, upto: int) -> Seq<
    (Seq<char>, int, int),
>
    decreases upto,
{
    if upto <= 0 {
        seq![]
    } else {
        let init = stat_times(s, lines, upto - 1);
        match line_times(s, lines[upto - 1].0, lines[upto - 1].1) {
            Some(v) => init.push(v),
            None => init,
        }
    }
}

/// The per core counters in the whole text `s` of `/proc/stat`.
pub open spec fn all_times(s: Seq<char>) -> Seq<(Seq<char>, int, int)> {
    let ls = line_spans(s, 0, s.len() as int);
    stat_times(s, ls, ls.len() as int)
}

/// The counters of every core in the text of `/proc/stat`, in the order of its lines.
/// Lines other than the per core ones, such as the aggregate `cpu` line and
/// everything after the per core lines, are skipped; so is a core whose counters
/// cannot be held (see `line_times`).
pub fn parse(s: &Vec<char>) -> (r: Vec<Times>)
    ensures
        r@.len() == all_times(s@).len(),
        forall|k: int| 0 <= k < r@.len() ==> times_match(#[trigger] r@[k], all_times(s@)[k]),
        forall|k: int| 0 <= k < r@.len() ==> in_range(#[trigger] r@[k]),
{
    let ls = lines(s);
    let ghost sp = line_spans(s@, 0, s@.len() as int);
    let mut r: Vec<Times> = Vec::new();
    let mut k: usize = 0;
    while k < ls.len()
        invariant
            forall|q: int| 0 <= q < r@.len() ==> in_range(#[trigger] r@[q]),
            k <= ls@.len() == sp.len(),
            sp == line_spans(s@, 0, s@.len() as int),
            forall|j: int|
                0 <= j < ls@.len() ==> (#[trigger] ls@[j]).0 as int == sp[j].0 && ls@[j].1 as int
                    == sp[j].1,
            forall|j: int| 0 <= j < ls@.len() ==> (#[trigger] ls@[j]).0 <= ls@[j].1 <= s@.len(),
            r@.len() == stat_times(s@, sp, k as int).len(),
            forall|j: int|
                0 <= j < r@.len() ==> times_match(#[trigger] r@[j], stat_times(s@, sp, k as int)[j]),
        decreases ls@.len() - k,
    {
        let (a, b) = ls[k];
        let ghost before = stat_times(s@, sp, k as int);
        let ghost after = stat_times(s@, sp, k + 1);
        let t = times(s, a, b);
        match t {
            Some(t) => {
                r.push(t);
                assert(after == before.push(after[after.len() - 1]));
            },
            None => {
                assert(after == before);
            },
        }
        k = k + 1;
    }
    r
}

/// `num / den` of the busy share of a core between two snapshots, in percent: busy
/// jiffies over total jiffies since `before`, times a hundred; nothing (zero) when no
/// jiffies passed.
pub open spec fn delta_value(core: Times, before: Times) -> (int, int) {
    let total = core.total - before.total;
    if total <= 0 {
        (0, 1)
    } else {
        ((core.busy - before.busy) * 100, total)
    }
}

/// Usage of a core between the snapshot `before` and the snapshot `core`.
pub fn delta(core: &Times, before: &Times) -> (q: Quantity)
    requires
        in_range(*core),
        in_range(*before),
    ensures
        q.num == delta_value(*core, *before).0,
        q.den == delta_value(*core, *before).1,
{
    if core.total <= before.total {
        Quantity::zero()
    } else {
        let total = (core.total - before.total) as u128;
        let busy = core.busy - before.busy;
        Quantity { num: busy * 100, den: total }
    }
}

/// A core's usage between two snapshots is its busy time over its total time, in
/// percent: when the total moved forward by `t`, a core busy for `b` of it reads exactly
/// `100 * b / t`, whatever share of `t` that is; when the total did not move forward, it
/// reads zero.
pub proof fn usage_is_busy_share(core: Times, before: Times)
    ensures
        ({
            let v = delta_value(core, before);
            let t = core.total - before.total;
            let b = core.busy - before.busy;
            &&& v.1 > 0
            &&& t > 0 ==> v.0 * t == 100 * b * v.1
            &&& t <= 0 ==> v.0 == 0
        }),
{
    let v = delta_value(core, before);
    let t = core.total - before.total;
    let b = core.busy - before.busy;
    if t > 0 {
        assert(v.0 * t == 100 * b * v.1) by (nonlinear_arith)
            requires
                v.0 == b * 100,
                v.1 == t,
        ;
    }
}

/// Index of the first snapshot in `previous` with the given name.
pub open spec fn first_named(previous: Seq<Times>, name: Seq<char>) -> Option<int> {
    if exists|j: int| 0 <= j < previous.len() && (#[trigger] previous[j]).name@ == name {
        Some(
            choose|j: int|
                0 <= j < previous.len() && (#[trigger] previous[j]).name@ == name && forall|k: int|
                    0 <= k < j ==> (#[trigger] previous[k]).name@ != name,
        )
    } else {
        None
    }
}

/// What `usage` reports for `core` given the previous snapshots: the delta against the
/// first previous snapshot of the same core, or zero when there is none.
pub open spec fn core_usage(core: Times, previous: Seq<Times>, r: Reading) -> bool {
    &&& r.label@ == core.name@
    &&& r.min is None && r.max is None && r.note is None
    &&& match first_named(previous, core.name@) {
        Some(j) => r.value.num == delta_value(core, previous[j]).0 && r.value.den
            == delta_value(core, previous[j]).1,
        None => r.value.num == 0 && r.value.den == 1,
    }
}

fn find_named(previous: &Vec<Times>, name: &String) -> (r: Option<usize>)
    ensures
        r matches Some(j) ==> j < previous@.len(),
        match r {
            Some(j) => first_named(previous@, name@) == Some(j as int),
            None => first_named(previous@, name@) is None,
        },
{
    let mut j: usize = 0;
    while j < previous.len()
        invariant
            j <= previous@.len(),
            forall|k: int| 0 <= k < j ==> (#[trigger] previous@[k]).name@ != name@,
        decreases previous@.len() - j,
    {
        if previous[j].name == *name {
            proof {
                let w = choose|i: int|
                    0 <= i < previous@.len() && (#[trigger] previous@[i]).name@ == name@ && forall|
                        k: int,
                    | 0 <= k < i ==> (#[trigger] previous@[k]).name@ != name@;
                assert(0 <= w < previous@.len() && previous@[w].name@ == name@ && forall|k: int|
                    0 <= k < w ==> (#[trigger] previous@[k]).name@ != name@);
                if w < j {
                    assert(previous@[w].name@ != name@);
                } else if w > j {
                    assert(previous@[j as int].name@ != name@);
                }
            }
            return Some(j);
        }
        j = j + 1;
    }
    None
}

/// One reading per core of `current`, in its order and under its name: the usage since
/// the same core's previous snapshot, or zero for a core seen for the first time.
pub fn usage(current: &Vec<Times>, previous: &Vec<Times>) -> (r: Vec<Reading>)
    requires
        forall|k: int| 0 <= k < current@.len() ==> in_range(#[trigger] current@[k]),
        forall|k: int| 0 <= k < previous@.len() ==> in_range(#[trigger] previous@[k]),
    ensures
        r@.len() == current@.len(),
        forall|i: int| 0 <= i < r@.len() ==> core_usage(current@[i], previous@, #[trigger] r@[i]),
        previous@.len() == 0 ==> forall|i: int|
            0 <= i < r@.len() ==> (#[trigger] r@[i]).value.num == 0,
{
    let mut r: Vec<Reading> = Vec::new();
    let mut i: usize = 0;
    while i < current.len()
        invariant
            i <= current@.len(),
            r@.len() == i,
            forall|k: int| 0 <= k < i ==> core_usage(current@[k], previous@, #[trigger] r@[k]),
            forall|k: int| 0 <= k < current@.len() ==> in_range(#[trigger] current@[k]),
            forall|k: int| 0 <= k < previous@.len() ==> in_range(#[trigger] previous@[k]),
        decreases current@.len() - i,
    {
        let core = &current[i];
        let value = match find_named(previous, &core.name) {
            Some(j) => delta(core, &previous[j]),
            None => Quantity::zero(),
        };
        r.push(Reading::new(core.name.clone(), value));
        i = i + 1;
    }
    r
}

/// Per core usage measured between consecutive calls: each call hands in the current
/// text of `/proc/stat` and gets the usage since the previous call.
pub struct CoreSampler {
    pub previous: Vec<Times>,
}

impl CoreSampler {
    /// A sampler with no snapshot yet.
    pub fn new() -> (c: CoreSampler)
        ensures
            c.previous@.len() == 0,
    {
        CoreSampler { previous: Vec::new() }
    }

    /// Usage of every core since the last sample, and the current snapshot kept for the next one.
    pub fn sample(&mut self, text: &str) -> (r: Vec<Reading>)
        requires
            forall|k: int| 0 <= k < old(self).previous@.len() ==> in_range(#[trigger] old(self).previous@[k]),
        ensures
            forall|k: int| 0 <= k < final(self).previous@.len() ==> in_range(#[trigger] final(self).previous@[k]),
            final(self).previous@.len() == all_times(text@).len(),
            forall|k: int|
                0 <= k < all_times(text@).len() ==> times_match(
                    #[trigger] final(self).previous@[k],
                    all_times(text@)[k],
                ),
            r@.len() == final(self).previous@.len(),
            forall|i: int|
                0 <= i < r@.len() ==> core_usage(
                    final(self).previous@[i],
                    old(self).previous@,
                    #[trigger] r@[i],
                ),
    {
        let chars = crate::text::chars_of(text);
        let current = parse(&chars);
        let r = usage(&current, &self.previous);
        self.previous = current;
        r
    }
}

/// A core's usage lies between 0 and 100 percent whenever its counters moved forward:
/// busy time did not go back and neither did idle time.
pub proof fn usage_within_percent(core: Times, before: Times)
    requires
        before.busy <= core.busy,
        before.total - before.busy <= core.total - core.busy,
    ensures
        0 <= delta_value(core, before).0 <= 100 * delta_value(core, before).1,
        delta_value(core, before).1 > 0,
{
}

/// Until there is a snapshot to compare against, every core reads 0%: the first sample
/// after `CoreSampler::new` reports no usage at all.
pub proof fn first_sample_reads_zero(current: Seq<Times>, r: Seq<Reading>)
    requires
        r.len() == current.len(),
        forall|i: int| 0 <= i < r.len() ==> core_usage(current[i], Seq::<Times>::empty(), #[trigger] r[i]),
    ensures
        forall|i: int| 0 <= i < r.len() ==> (#[trigger] r[i]).value.num == 0,
{
    assert forall|i: int| 0 <= i < r.len() implies (#[trigger] r[i]).value.num == 0 by {
        assert(core_usage(current[i], Seq::<Times>::empty(), r[i]));
        assert(first_named(Seq::<Times>::empty(), current[i].name@) is None);
    }
}

} // verus!
