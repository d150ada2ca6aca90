//! The primitive every row is built from: a labelled figure, an optional window
//! and an optional note, and the merge that refreshes a row without reordering it.
use vstd::prelude::*;
use crate::sysfs::{read_float, scaled_float};

verus! {

/// An exact figure `num / den`. A zero `den` stands for what a float holds beyond the
/// finite numbers: an infinity with the sign of `num`, or `nan` when `num` is zero.
#[derive(Clone, Copy, Debug, PartialEq, Eq, Structural)]
pub struct Quantity {
    pub num: i128,
    pub den: u128,
}

impl Quantity {
    /// The whole number `n`.
    pub fn whole(n: i64) -> (q: Quantity)
        ensures
            q.num == n as int,
            q.den == 1,
    {
        Quantity { num: n as i128, den: 1 }
    }

    /// `n` divided by a positive `scale`.
    pub fn scaled(n: i64, scale: u64) -> (q: Quantity)
        requires
            scale > 0,
        ensures
            q.num == n as int,
            q.den == scale as int,
    {
        Quantity { num: n as i128, den: scale as u128 }
    }

    /// This figure divided by a positive `scale`, when the denominator that takes still
    /// fits in a `u128`.
    pub fn divided(self, scale: u64) -> (q: Option<Quantity>)
        requires
            scale > 0,
        ensures
            match divided(self.num as int, self.den as nat, scale as nat) {
                Some(v) => q matches Some(x) && x.num == v.0 && x.den == v.1,
                None => q is None,
            },
    {
        if self.den > u128::MAX / scale as u128 {
            proof {
                assert(self.den * scale > u128::MAX) by (nonlinear_arith)
                    requires
                        scale > 0,
                        self.den > u128::MAX / (scale as u128),
                ;
            }
            None
        } else {
            proof {
                assert(self.den * scale <= u128::MAX) by (nonlinear_arith)
                    requires
                        scale > 0,
                        self.den <= u128::MAX / (scale as u128),
                ;
            }
            Some(Quantity { num: self.num, den: self.den * scale as u128 })
        }
    }

    /// Zero.
    pub fn zero() -> (q: Quantity)
        ensures
            q.num == 0,
            q.den == 1,
    {
        Quantity { num: 0, den: 1 }
    }
}

/// `q` stands for `nan`.
pub open spec fn is_nan(q: Quantity) -> bool {
    q.den == 0 && q.num == 0
}

/// `x` is less than `y`, as floats compare: an infinity lies beyond every finite figure
/// on its side, and `nan` is neither less nor greater than anything.
pub open spec fn less(x: Quantity, y: Quantity) -> bool {
    if is_nan(x) || is_nan(y) {
        false
    } else if x.den == 0 {
        x.num < 0 && !(y.den == 0 && y.num < 0)
    } else if y.den == 0 {
        y.num > 0
    } else {
        x.num * y.den < y.num * x.den
    }
}

/// Whether `a / b < c / d` for whole numbers, by comparing integer parts and then, when
/// they agree, the inverted remainders, so that no product is ever formed.
fn fraction_less(a: u128, b: u128, c: u128, d: u128) -> (r: bool)
    requires
        b > 0,
        d > 0,
    ensures
        r == (a * d < c * b),
    decreases b + d,
{
    let qa = a / b;
    let ra = a % b;
    let qc = c / d;
    let rc = c % d;
    assert(a == qa * b + ra && c == qc * d + rc) by (nonlinear_arith)
        requires
            b > 0,
            d > 0,
            qa == a / b,
            ra == a % b,
            qc == c / d,
            rc == c % d,
    ;
    if qa < qc {
        assert(a * d < c * b) by (nonlinear_arith)
            requires
                a == qa * b + ra,
                c == qc * d + rc,
                ra < b,
                qa + 1 <= qc,
                b > 0,
                d > 0,
        ;
        return true;
    }
    if qa > qc {
        assert(c * b < a * d) by (nonlinear_arith)
            requires
                a == qa * b + ra,
                c == qc * d + rc,
                rc < d,
                qc + 1 <= qa,
                b > 0,
                d > 0,
        ;
        return false;
    }
    assert(a * d - c * b == ra * d - rc * b) by (nonlinear_arith)
        requires
            a == qa * b + ra,
            c == qc * d + rc,
            qa == qc,
    ;
    if ra == 0 {
        assert(ra * d == 0) by (nonlinear_arith)
            requires
                ra == 0,
        ;
        assert((rc > 0) == (rc * b > 0)) by (nonlinear_arith)
            requires
                b > 0,
                rc >= 0,
        ;
        return rc > 0;
    }
    if rc == 0 {
        assert(rc * b == 0) by (nonlinear_arith)
            requires
                rc == 0,
        ;
        assert(ra * d > 0) by (nonlinear_arith)
            requires
                ra > 0,
                d > 0,
        ;
        return false;
    }
    fraction_less(d, rc, b, ra)
}

/// The magnitude of a negative number.
fn magnitude(n: i128) -> (m: u128)
    requires
        n < 0,
    ensures
        m == -n,
{
    ((-(n + 1)) as u128) + 1
}

/// Compares two figures exactly.
pub fn is_less(x: Quantity, y: Quantity) -> (r: bool)
    ensures
        r == less(x, y),
{
    if (x.den == 0 && x.num == 0) || (y.den == 0 && y.num == 0) {
        return false;
    }
    if x.den == 0 {
        return x.num < 0 && !(y.den == 0 && y.num < 0);
    }
    if y.den == 0 {
        return y.num > 0;
    }
    if x.num < 0 && y.num >= 0 {
        assert(x.num * y.den < 0 && y.num * x.den >= 0) by (nonlinear_arith)
            requires
                x.num < 0,
                y.num >= 0,
                x.den > 0,
                y.den > 0,
        ;
        true
    } else if x.num >= 0 && y.num < 0 {
        assert(x.num * y.den >= 0 && y.num * x.den < 0) by (nonlinear_arith)
            requires
                x.num >= 0,
                y.num < 0,
                x.den > 0,
                y.den > 0,
        ;
        false
    } else if x.num >= 0 {
        fraction_less(x.num as u128, x.den, y.num as u128, y.den)
    } else {
        let r = fraction_less(magnitude(y.num), y.den, magnitude(x.num), x.den);
        assert((-y.num) * x.den < (-x.num) * y.den <==> x.num * y.den < y.num * x.den) by (nonlinear_arith);
        r
    }
}

/// The fraction `num / den` divided by `scale`, when its denominator fits in a `u128`.
pub open spec fn divided(num: int, den: nat, scale: nat) -> Option<(int, nat)> {
    if den * scale <= u128::MAX {
        Some((num, den * scale))
    } else {
        None
    }
}

pub struct Reading {
    pub label: String,
    pub value: Quantity,
    pub min: Option<Quantity>,
    pub max: Option<Quantity>,
    pub note: Option<String>,
}

impl Reading {
    /// A reading with a label and a value, and no window and no note.
    pub fn new(label: String, value: Quantity) -> (r: Reading)
        ensures
            r.label == label,
            r.value == value,
            r.min is None,
            r.max is None,
            r.note is None,
    {
        Reading { label, value, min: None, max: None, note: None }
    }

    /// Takes a value reread from the reading's source; a failed read leaves it as it was.
    pub fn refresh(&mut self, fresh: Option<Quantity>)
        ensures
            final(self).label == old(self).label,
            final(self).min == old(self).min,
            final(self).max == old(self).max,
            final(self).note == old(self).note,
            final(self).value == match fresh {
                Some(v) => v,
                None => old(self).value,
            },
    {
        if let Some(v) = fresh {
            self.value = v;
        }
    }
}

/// A read that took longer than this, in nanoseconds, makes a sensor a slow one.
pub const SLOW_READ_NANOS: u64 = 1_000_000;

/// A slow sensor is read again no sooner than this after its last read, in nanoseconds.
pub const SLOW_INTERVAL_NANOS: u64 = 2_000_000_000;

/// Whether a sensor backed by a file is to be read again at this refresh: always, unless
/// its last read was slow and happened less than the slow interval ago.
pub fn reread_due(cost_nanos: u128, since_nanos: u128) -> (due: bool)
    ensures
        due == !(cost_nanos > SLOW_READ_NANOS && since_nanos < SLOW_INTERVAL_NANOS),
{
    !(cost_nanos > SLOW_READ_NANOS as u128 && since_nanos < SLOW_INTERVAL_NANOS as u128)
}

/// Index of the first reading in `fresh` whose label is `label`, if any.
pub open spec fn first_match(fresh: Seq<Reading>, label: Seq<char>) -> Option<int> {
    if exists|j: int| 0 <= j < fresh.len() && (#[trigger] fresh[j]).label@ == label {
        Some(
            choose|j: int|
                0 <= j < fresh.len() && (#[trigger] fresh[j]).label@ == label && forall|k: int|
                    0 <= k < j ==> (#[trigger] fresh[k]).label@ != label,
        )
    } else {
        None
    }
}

proof fn lemma_first_match(fresh: Seq<Reading>, label: Seq<char>, j: int)
    requires
        0 <= j < fresh.len(),
        fresh[j].label@ == label,
        forall|k: int| 0 <= k < j ==> (#[trigger] fresh[k]).label@ != label,
    ensures
        first_match(fresh, label) == Some(j),
{
    let w = choose|i: int|
        0 <= i < fresh.len() && (#[trigger] fresh[i]).label@ == label && forall|k: int|
            0 <= k < i ==> (#[trigger] fresh[k]).label@ != label;
    assert(0 <= w < fresh.len() && fresh[w].label@ == label && forall|k: int|
        0 <= k < w ==> (#[trigger] fresh[k]).label@ != label);
    if w < j {
        assert(fresh[w].label@ != label);
    } else if w > j {
        assert(fresh[j].label@ != label);
    }
}

/// What `update` leaves in place of `old` given the fresh set: the same reading
/// with the value and note of the first fresh reading that carries its label.
pub open spec fn merged(old: Reading, fresh: Seq<Reading>, new: Reading) -> bool {
    &&& new.label == old.label
    &&& new.min == old.min
    &&& new.max == old.max
    &&& match first_match(fresh, old.label@) {
        Some(j) => new.value == fresh[j].value && new.note == fresh[j].note,
        None => new.value == old.value && new.note == old.note,
    }
}

fn find_label(fresh: &Vec<Reading>, label: &String) -> (r: Option<usize>)
    ensures
        r matches Some(j) ==> j < fresh@.len(),
        match r {
            Some(j) => first_match(fresh@, label@) == Some(j as int),
            None => first_match(fresh@, label@) is None,
        },
{
    let mut j: usize = 0;
    while j < fresh.len()
        invariant
            j <= fresh@.len(),
            forall|k: int| 0 <= k < j ==> (#[trigger] fresh@[k]).label@ != label@,
        decreases fresh@.len() - j,
    {
        if fresh[j].label == *label {
            proof {
                lemma_first_match(fresh@, label@, j as int);
            }
            return Some(j);
        }
        j = j + 1;
    }
    None
}

fn clone_note(note: &Option<String>) -> (r: Option<String>)
    ensures
        r == *note,
{
    match note {
        Some(s) => Some(s.clone()),
        None => None,
    }
}

/// Refreshes a row from a freshly produced set, matching by label: every reading
/// keeps its label, window and place, and takes the value and note of the first
/// fresh reading with the same label; a reading with no counterpart is left alone,
/// and fresh readings with no counterpart are not added.
pub fn update(readings: &mut Vec<Reading>, fresh: &Vec<Reading>)
    ensures
        final(readings)@.len() == old(readings)@.len(),
        forall|i: int|
            0 <= i < final(readings)@.len() ==> merged(
                #[trigger] old(readings)@[i],
                fresh@,
                final(readings)@[i],
            ),
{
    let n = readings.len();
    let mut i: usize = 0;
    while i < n
        invariant
            i <= n == readings@.len() == old(readings)@.len(),
            forall|k: int|
                0 <= k < i ==> merged(#[trigger] old(readings)@[k], fresh@, readings@[k]),
            forall|k: int| i <= k < n ==> #[trigger] readings@[k] == old(readings)@[k],
        decreases n - i,
    {
        let found = find_label(fresh, &readings[i].label);
        match found {
            Some(j) => {
                let value = fresh[j].value;
                let note = clone_note(&fresh[j].note);
                let mut r = readings.remove(i);
                r.value = value;
                r.note = note;
                readings.insert(i, r);
            },
            None => {},
        }
        i = i + 1;
    }
}

/// Merging the same fresh set twice changes nothing the first merge did not: a row
/// refreshed from a set is left as it is by a second refresh from that set.
pub proof fn update_is_idempotent(old: Seq<Reading>, fresh: Seq<Reading>, once: Seq<Reading>, twice: Seq<Reading>)
    requires
        once.len() == old.len(),
        forall|i: int| 0 <= i < once.len() ==> merged(#[trigger] old[i], fresh, once[i]),
        twice.len() == once.len(),
        forall|i: int| 0 <= i < twice.len() ==> merged(#[trigger] once[i], fresh, twice[i]),
    ensures
        twice == once,
{
    assert forall|i: int| 0 <= i < twice.len() implies #[trigger] twice[i] == once[i] by {
        assert(merged(old[i], fresh, once[i]));
        assert(merged(once[i], fresh, twice[i]));
    }
    assert(twice =~= once);
}

/// When a sensor backed by a file was last read and how long that read took, in
/// nanoseconds from the same start as every `now` handed in.
pub struct ReadTimes {
    pub cost: u128,
    pub last: u128,
}

/// Nanoseconds from `last` to `now`, none when `now` is earlier.
pub open spec fn elapsed(last: u128, now: u128) -> int {
    if now >= last {
        now - last
    } else {
        0
    }
}

/// The sensor is to be read again at `now`: always, unless its last read was slow and
/// began less than the slow interval ago.
pub open spec fn due_at(t: ReadTimes, now: u128) -> bool {
    !(t.cost > SLOW_READ_NANOS && elapsed(t.last, now) < SLOW_INTERVAL_NANOS)
}

/// The value a reading holds once it has taken a read of its file that gave `text`: the
/// float the file holds divided by `divisor`, or the old value when it holds none.
pub open spec fn read_value(old: Quantity, text: Option<String>, divisor: nat) -> Quantity {
    match scaled_float(text, divisor) {
        Some(v) => Quantity { num: v.0 as i128, den: v.1 as u128 },
        None => old,
    }
}

/// The value a reading holds after a refresh at `now`, when its last read is described by
/// `t` and a read at `now` would give `text`: the sensor is read only when it is due.
pub open spec fn refreshed_value(
    value: Quantity,
    t: ReadTimes,
    now: u128,
    text: Option<String>,
    divisor: nat,
) -> Quantity {
    if due_at(t, now) {
        read_value(value, text, divisor)
    } else {
        value
    }
}

impl ReadTimes {
    /// Whether the sensor is to be read again at `now`, as `reread_due` decides.
    pub fn due(&self, now: u128) -> (d: bool)
        ensures
            d == due_at(*self, now),
    {
        let since = if now >= self.last {
            now - self.last
        } else {
            0
        };
        reread_due(self.cost, since)
    }

    /// Records a read that began at `started` and took `took` nanoseconds.
    pub fn record(&mut self, started: u128, took: u128)
        ensures
            final(self).cost == took,
            final(self).last == started,
    {
        self.cost = took;
        self.last = started;
    }

    /// Takes a read of the sensor's file that began at `started`, took `took` nanoseconds
    /// and gave `text`: `reading` takes the float the file holds divided by `divisor`, and
    /// keeps its value when it holds none; the read is recorded.
    pub fn take(&mut self, reading: &mut Reading, text: &Option<String>, divisor: u64, started: u128, took: u128)
        requires
            divisor > 0,
        ensures
            final(self).cost == took,
            final(self).last == started,
            final(reading).label == old(reading).label,
            final(reading).min == old(reading).min,
            final(reading).max == old(reading).max,
            final(reading).note == old(reading).note,
            final(reading).value == read_value(old(reading).value, *text, divisor as nat),
    {
        let fresh = match read_float(text) {
            Some(v) => v.divided(divisor),
            None => None,
        };
        reading.refresh(fresh);
        self.record(started, took);
    }
}

/// A file-backed reading whose last read was slow keeps the value that read gave until
/// the slow interval has passed since the read began, and takes its file's figure at the
/// first refresh after; one whose last read was cheap takes its file's figure at every
/// refresh.
pub proof fn slow_sensors_wait_cheap_ones_do_not(
    value: Quantity,
    first: Option<String>,
    second: Option<String>,
    divisor: nat,
    started: u128,
    took: u128,
    now: u128,
)
    requires
        now >= started,
    ensures
        ({
            let t = ReadTimes { cost: took, last: started };
            let read = read_value(value, first, divisor);
            &&& took > SLOW_READ_NANOS && now - started < SLOW_INTERVAL_NANOS ==> refreshed_value(
                read,
                t,
                now,
                second,
                divisor,
            ) == read
            &&& now - started >= SLOW_INTERVAL_NANOS ==> refreshed_value(read, t, now, second, divisor)
                == read_value(read, second, divisor)
            &&& took <= SLOW_READ_NANOS ==> refreshed_value(read, t, now, second, divisor)
                == read_value(read, second, divisor)
        }),
{
}

/// The largest value among the first `k` readings, and zero when none is above zero.
pub open spec fn top_value(readings: Seq<Reading>, k: int) -> Quantity
    decreases k,
{
    if k <= 0 {
        Quantity { num: 0, den: 1 }
    } else {
        let rest = top_value(readings, k - 1);
        if less(rest, readings[k - 1].value) {
            readings[k - 1].value
        } else {
            rest
        }
    }
}

/// The highest of the readings' values, never below zero: what the header reports as
/// the hottest sensor.
pub fn max_value(readings: &Vec<Reading>) -> (m: Quantity)
    ensures
        m == top_value(readings@, readings@.len() as int),
{
    let mut m = Quantity::zero();
    let mut k: usize = 0;
    while k < readings.len()
        invariant
            k <= readings@.len(),
            m == top_value(readings@, k as int),
        decreases readings@.len() - k,
    {
        if is_less(m, readings[k].value) {
            m = readings[k].value;
        }
        k = k + 1;
    }
    m
}

/// Nothing above `r` and something above `r` leave the one above `r` not below the other.
proof fn lemma_not_below_chain(x: Quantity, r: Quantity, y: Quantity)
    requires
        !less(r, x),
        less(r, y),
    ensures
        !less(y, x),
{
    if !is_nan(x) && !is_nan(y) && !is_nan(r) && x.den != 0 && y.den != 0 && r.den != 0 {
        assert(!(y.num * x.den < x.num * y.den)) by (nonlinear_arith)
            requires
                x.den > 0,
                y.den > 0,
                r.den > 0,
                !(r.num * x.den < x.num * r.den),
                r.num * y.den < y.num * r.den,
        ;
    }
}

/// The header's figure is the hottest reading or zero: no reading lies above it, it is
/// not below zero, and it is zero or the value of one of the readings.
pub proof fn max_value_is_the_hottest(readings: Seq<Reading>)
    ensures
        ({
            let m = top_value(readings, readings.len() as int);
            &&& forall|i: int| 0 <= i < readings.len() ==> !less(m, #[trigger] readings[i].value)
            &&& !less(m, Quantity { num: 0, den: 1 })
            &&& m == Quantity { num: 0, den: 1 } || exists|i: int|
                0 <= i < readings.len() && m == #[trigger] readings[i].value
        }),
{
    lemma_top_value(readings, readings.len() as int);
}

proof fn lemma_top_value(readings: Seq<Reading>, k: int)
    requires
        0 <= k <= readings.len(),
    ensures
        ({
            let m = top_value(readings, k);
            &&& forall|i: int| 0 <= i < k ==> !less(m, #[trigger] readings[i].value)
            &&& !less(m, Quantity { num: 0, den: 1 })
            &&& m == Quantity { num: 0, den: 1 } || exists|i: int| 0 <= i < k && m == #[trigger] readings[i].value
        }),
    decreases k,
{
    let zero = Quantity { num: 0, den: 1 };
    if k > 0 {
        lemma_top_value(readings, k - 1);
        let rest = top_value(readings, k - 1);
        let x = readings[k - 1].value;
        if less(rest, x) {
            assert forall|i: int| 0 <= i < k implies !less(x, #[trigger] readings[i].value) by {
                if i < k - 1 {
                    lemma_not_below_chain(readings[i].value, rest, x);
                }
            }
            lemma_not_below_chain(zero, rest, x);
        } else {
            assert forall|i: int| 0 <= i < k implies !less(rest, #[trigger] readings[i].value) by {
            }
        }
    }
}

} // verus!
