//! Which row each discovered temperature sensor is drawn in. The disk filter is checked
//! first, then the chipset filter, then the CPU filter, and what is left is the other
//! row; when the CPU filter claims none of what is left, it is ignored and the CPU row
//! takes all of it. Tiles inside a row are sorted by label.
use vstd::prelude::*;
use crate::config::StyleConfig;
use crate::order::{
    is_permutation, key_of, lemma_pair_facts, lemma_text_lt_irreflexive, lists, pair_le,
    sorted_order, sorted_stably, text_le,
};
use crate::text::{chars_of, find, find_first, lowercase, occurs_at, to_lowercase};

verus! {

/// `pat` occurs somewhere in `s`, as `str::contains` finds it.
pub open spec fn contains_text(s: Seq<char>, pat: Seq<char>) -> bool {
    exists|i: int| occurs_at(s, pat, i)
}

/// One of the filters occurs in the lowercase form of `label`.
pub open spec fn claimed(filters: Seq<String>, label: Seq<char>) -> bool {
    exists|k: int| 0 <= k < filters.len() && #[trigger] filter_in(filters[k]@, label)
}

/// The filter `f` occurs in the lowercase form of `label`.
pub open spec fn filter_in(f: Seq<char>, label: Seq<char>) -> bool {
    contains_text(lowercase(label), f)
}

/// The rows a temperature sensor can be drawn in.
#[derive(Clone, Copy, Debug, PartialEq, Eq, Structural)]
pub enum SensorRow {
    Disk,
    Board,
    Cpu,
    Other,
}

/// The sensor with this label is claimed by neither the disk nor the chipset filter.
pub open spec fn unclaimed(style: StyleConfig, label: Seq<char>) -> bool {
    !claimed(style.disk_label_contains@, label) && !claimed(style.board_label_contains@, label)
}

/// The CPU filter claims none of the sensors the narrower filters left.
pub open spec fn cpu_filter_idle(style: StyleConfig, labels: Seq<String>) -> bool {
    forall|j: int|
        0 <= j < labels.len() && unclaimed(style, #[trigger] labels[j]@) ==> !claimed(
            style.sensor_label_contains@,
            labels[j]@,
        )
}

/// The row the sensor `labels[i]` belongs to.
pub open spec fn row_of(style: StyleConfig, labels: Seq<String>, i: int) -> SensorRow {
    if claimed(style.disk_label_contains@, labels[i]@) {
        SensorRow::Disk
    } else if claimed(style.board_label_contains@, labels[i]@) {
        SensorRow::Board
    } else if cpu_filter_idle(style, labels) || claimed(style.sensor_label_contains@, labels[i]@) {
        SensorRow::Cpu
    } else {
        SensorRow::Other
    }
}

/// The tiles of each row, as indices into the list of sensors found.
pub struct SensorRows {
    pub disk: Vec<usize>,
    pub board: Vec<usize>,
    pub cpu: Vec<usize>,
    pub other: Vec<usize>,
}

/// `v` holds the index `i`.
pub open spec fn listed(v: Seq<usize>, i: int) -> bool {
    exists|q: int| 0 <= q < v.len() && v[q] == i
}

/// `v` lists exactly the sensors `member` picks, each once, sorted by label, sensors with
/// the same label in the order they were found.
pub open spec fn sorted_listing(v: Seq<usize>, labels: Seq<String>, member: spec_fn(int) -> bool) -> bool {
    &&& forall|q: int| 0 <= q < v.len() ==> (#[trigger] v[q]) < labels.len() && member(v[q] as int)
    &&& forall|i: int| 0 <= i < labels.len() && member(i) ==> #[trigger] listed(v, i)
    &&& forall|a: int, b: int|
        0 <= a < b < v.len() ==> text_le(labels[#[trigger] v[a] as int]@, labels[#[trigger] v[b] as int]@)
    &&& forall|a: int, b: int|
        0 <= a < b < v.len() && labels[v[a] as int]@ == labels[v[b] as int]@ ==> #[trigger] v[a]
            < #[trigger] v[b]
}

/// Whether one of the filters occurs in `lower`, the lowercase form of a label.
fn claims(lower: &Vec<char>, filters: &Vec<String>, label: Ghost<Seq<char>>) -> (b: bool)
    requires
        lower@ == lowercase(label@),
    ensures
        b == claimed(filters@, label@),
{
    let mut k: usize = 0;
    while k < filters.len()
        invariant
            k <= filters@.len(),
            lower@ == lowercase(label@),
            forall|j: int| 0 <= j < k ==> !#[trigger] filter_in(filters@[j]@, label@),
        decreases filters@.len() - k,
    {
        let f = chars_of(filters[k].as_str());
        match find(lower, &f) {
            Some(_) => {
                assert(filter_in(filters@[k as int]@, label@));
                return true;
            },
            None => {
                proof {
                    reveal(find_first);
                }
                assert(!filter_in(filters@[k as int]@, label@));
            },
        }
        k = k + 1;
    }
    false
}

/// Puts `idx`, a strictly increasing list of sensors, in order of label.
fn sort_by_label(idx: &Vec<usize>, labels: &Vec<String>, member: Ghost<spec_fn(int) -> bool>) -> (r: Vec<usize>)
    requires
        forall|q: int| 0 <= q < idx@.len() ==> (#[trigger] idx@[q]) < labels@.len() && member@(idx@[q] as int),
        forall|a: int, b: int| 0 <= a < b < idx@.len() ==> #[trigger] idx@[a] < #[trigger] idx@[b],
        forall|i: int| 0 <= i < labels@.len() && member@(i) ==> #[trigger] listed(idx@, i),
    ensures
        sorted_listing(r@, labels@, member@),
{
    let mut keys: Vec<(Vec<char>, Vec<char>)> = Vec::new();
    let mut q: usize = 0;
    while q < idx.len()
        invariant
            q <= idx@.len(),
            keys@.len() == q,
            forall|j: int| 0 <= j < idx@.len() ==> (#[trigger] idx@[j]) < labels@.len(),
            forall|j: int|
                0 <= j < q ==> #[trigger] key_of(keys@, j) == (labels@[idx@[j] as int]@, Seq::<char>::empty()),
        decreases idx@.len() - q,
    {
        let e: Vec<char> = Vec::new();
        assert(e@ =~= Seq::<char>::empty());
        let ghost before = keys@;
        keys.push((chars_of(labels[idx[q]].as_str()), e));
        assert forall|j: int| 0 <= j < q implies #[trigger] key_of(keys@, j) == (
            labels@[idx@[j] as int]@,
            Seq::<char>::empty(),
        ) by {
            assert(keys@[j] == before[j]);
            assert(key_of(before, j) == (labels@[idx@[j] as int]@, Seq::<char>::empty()));
        }
        assert(key_of(keys@, q as int) == (labels@[idx@[q as int] as int]@, Seq::<char>::empty()));
        q = q + 1;
    }
    let perm = sorted_order(&keys);
    let mut r: Vec<usize> = Vec::new();
    let mut k: usize = 0;
    while k < perm.len()
        invariant
            k <= perm@.len() == idx@.len() == keys@.len(),
            is_permutation(perm@, idx@.len()),
            r@.len() == k,
            forall|j: int| 0 <= j < k ==> (#[trigger] r@[j]) == idx@[perm@[j] as int],
        decreases perm@.len() - k,
    {
        r.push(idx[perm[k]]);
        k = k + 1;
    }
    proof {
        lemma_pair_facts();
        assert forall|j: int| 0 <= j < r@.len() implies (#[trigger] r@[j]) < labels@.len() && member@(
            r@[j] as int,
        ) by {
            assert(r@[j] == idx@[perm@[j] as int]);
        }
        assert forall|i: int| 0 <= i < labels@.len() && member@(i) implies #[trigger] listed(r@, i) by {
            assert(listed(idx@, i));
            let p = choose|p: int| 0 <= p < idx@.len() && idx@[p] == i;
            assert(lists(perm@, p));
            let w = choose|w: int| 0 <= w < perm@.len() && perm@[w] == p;
            assert(r@[w] == i);
        }
        assert forall|a: int, b: int| 0 <= a < b < r@.len() implies text_le(
            labels@[#[trigger] r@[a] as int]@,
            labels@[#[trigger] r@[b] as int]@,
        ) by {
            let ka = key_of(keys@, perm@[a] as int);
            let kb = key_of(keys@, perm@[b] as int);
            assert(pair_le(ka, kb));
            lemma_text_lt_irreflexive(ka.1);
        }
        assert forall|a: int, b: int|
            0 <= a < b < r@.len() && labels@[r@[a] as int]@ == labels@[r@[b] as int]@ implies #[trigger] r@[a]
            < #[trigger] r@[b] by {
            let ka = key_of(keys@, perm@[a] as int);
            let kb = key_of(keys@, perm@[b] as int);
            assert(ka == kb);
            assert(perm@[a] < perm@[b]);
        }
    }
    r
}

/// Sorts the sensors found, by their labels, into the disk, chipset, CPU and other rows.
/// The other row is left empty unless `style.show_other_sensors` is set.
pub fn sensor_rows(labels: &Vec<String>, style: &StyleConfig) -> (rows: SensorRows)
    ensures
        sorted_listing(rows.disk@, labels@, |i: int| row_of(*style, labels@, i) == SensorRow::Disk),
        sorted_listing(rows.board@, labels@, |i: int| row_of(*style, labels@, i) == SensorRow::Board),
        sorted_listing(rows.cpu@, labels@, |i: int| row_of(*style, labels@, i) == SensorRow::Cpu),
        sorted_listing(
            rows.other@,
            labels@,
            |i: int| style.show_other_sensors && row_of(*style, labels@, i) == SensorRow::Other,
        ),
{
    let n = labels.len();
    let mut disk: Vec<bool> = Vec::new();
    let mut board: Vec<bool> = Vec::new();
    let mut cpu: Vec<bool> = Vec::new();
    let mut idle = true;
    let mut i: usize = 0;
    while i < n
        invariant
            i <= n == labels@.len(),
            disk@.len() == i && board@.len() == i && cpu@.len() == i,
            forall|j: int| 0 <= j < i ==> #[trigger] disk@[j] == claimed(style.disk_label_contains@, labels@[j]@),
            forall|j: int| 0 <= j < i ==> #[trigger] board@[j] == claimed(style.board_label_contains@, labels@[j]@),
            forall|j: int| 0 <= j < i ==> #[trigger] cpu@[j] == claimed(style.sensor_label_contains@, labels@[j]@),
            idle == forall|j: int|
                0 <= j < i && unclaimed(*style, #[trigger] labels@[j]@) ==> !claimed(
                    style.sensor_label_contains@,
                    labels@[j]@,
                ),
        decreases n - i,
    {
        let lower_text = to_lowercase(labels[i].as_str());
        let lower = chars_of(lower_text.as_str());
        let d = claims(&lower, &style.disk_label_contains, Ghost(labels@[i as int]@));
        let b = claims(&lower, &style.board_label_contains, Ghost(labels@[i as int]@));
        let c = claims(&lower, &style.sensor_label_contains, Ghost(labels@[i as int]@));
        if !d && !b && c {
            idle = false;
        }
        disk.push(d);
        board.push(b);
        cpu.push(c);
        i = i + 1;
    }
    assert(idle == cpu_filter_idle(*style, labels@));
    let mut vd: Vec<usize> = Vec::new();
    let mut vb: Vec<usize> = Vec::new();
    let mut vc: Vec<usize> = Vec::new();
    let mut vo: Vec<usize> = Vec::new();
    let mut k: usize = 0;
    while k < n
        invariant
            k <= n == labels@.len() == disk@.len() == board@.len() == cpu@.len(),
            forall|j: int| 0 <= j < n ==> #[trigger] disk@[j] == claimed(style.disk_label_contains@, labels@[j]@),
            forall|j: int| 0 <= j < n ==> #[trigger] board@[j] == claimed(style.board_label_contains@, labels@[j]@),
            forall|j: int| 0 <= j < n ==> #[trigger] cpu@[j] == claimed(style.sensor_label_contains@, labels@[j]@),
            idle == cpu_filter_idle(*style, labels@),
            forall|q: int| 0 <= q < vd@.len() ==> (#[trigger] vd@[q]) < k && row_of(*style, labels@, vd@[q] as int) == SensorRow::Disk,
            forall|a: int, b: int| 0 <= a < b < vd@.len() ==> #[trigger] vd@[a] < #[trigger] vd@[b],
            forall|j: int| 0 <= j < k && row_of(*style, labels@, j) == SensorRow::Disk ==> #[trigger] listed(vd@, j),
            forall|q: int| 0 <= q < vb@.len() ==> (#[trigger] vb@[q]) < k && row_of(*style, labels@, vb@[q] as int) == SensorRow::Board,
            forall|a: int, b: int| 0 <= a < b < vb@.len() ==> #[trigger] vb@[a] < #[trigger] vb@[b],
            forall|j: int| 0 <= j < k && row_of(*style, labels@, j) == SensorRow::Board ==> #[trigger] listed(vb@, j),
            forall|q: int| 0 <= q < vc@.len() ==> (#[trigger] vc@[q]) < k && row_of(*style, labels@, vc@[q] as int) == SensorRow::Cpu,
            forall|a: int, b: int| 0 <= a < b < vc@.len() ==> #[trigger] vc@[a] < #[trigger] vc@[b],
            forall|j: int| 0 <= j < k && row_of(*style, labels@, j) == SensorRow::Cpu ==> #[trigger] listed(vc@, j),
            forall|q: int| 0 <= q < vo@.len() ==> (#[trigger] vo@[q]) < k && style.show_other_sensors && row_of(*style, labels@, vo@[q] as int) == SensorRow::Other,
            forall|a: int, b: int| 0 <= a < b < vo@.len() ==> #[trigger] vo@[a] < #[trigger] vo@[b],
            forall|j: int| 0 <= j < k && style.show_other_sensors && row_of(*style, labels@, j) == SensorRow::Other ==> #[trigger] listed(vo@, j),
        decreases n - k,
    {
        let ghost od = vd@;
        let ghost ob = vb@;
        let ghost oc = vc@;
        let ghost oo = vo@;
        assert(disk@[k as int] == claimed(style.disk_label_contains@, labels@[k as int]@));
        assert(board@[k as int] == claimed(style.board_label_contains@, labels@[k as int]@));
        assert(cpu@[k as int] == claimed(style.sensor_label_contains@, labels@[k as int]@));
        if disk[k] {
            assert(row_of(*style, labels@, k as int) == SensorRow::Disk);
            vd.push(k);
            assert(vd@[vd@.len() - 1] == k);
        } else if board[k] {
            assert(row_of(*style, labels@, k as int) == SensorRow::Board);
            vb.push(k);
            assert(vb@[vb@.len() - 1] == k);
        } else if idle || cpu[k] {
            assert(row_of(*style, labels@, k as int) == SensorRow::Cpu);
            vc.push(k);
            assert(vc@[vc@.len() - 1] == k);
        } else if style.show_other_sensors {
            assert(row_of(*style, labels@, k as int) == SensorRow::Other);
            vo.push(k);
            assert(vo@[vo@.len() - 1] == k);
        }
        assert forall|j: int| 0 <= j < k + 1 && row_of(*style, labels@, j) == SensorRow::Disk implies #[trigger] listed(vd@, j) by {
            if j < k {
                assert(listed(od, j));
                let q = choose|q: int| 0 <= q < od.len() && od[q] == j;
                assert(vd@[q] == j);
            } else {
                assert(vd@[vd@.len() - 1] == k);
            }
        }
        assert forall|j: int| 0 <= j < k + 1 && row_of(*style, labels@, j) == SensorRow::Board implies #[trigger] listed(vb@, j) by {
            if j < k {
                assert(listed(ob, j));
                let q = choose|q: int| 0 <= q < ob.len() && ob[q] == j;
                assert(vb@[q] == j);
            } else {
                assert(vb@[vb@.len() - 1] == k);
            }
        }
        assert forall|j: int| 0 <= j < k + 1 && row_of(*style, labels@, j) == SensorRow::Cpu implies #[trigger] listed(vc@, j) by {
            if j < k {
                assert(listed(oc, j));
                let q = choose|q: int| 0 <= q < oc.len() && oc[q] == j;
                assert(vc@[q] == j);
            } else {
                assert(vc@[vc@.len() - 1] == k);
            }
        }
        assert forall|j: int| 0 <= j < k + 1 && style.show_other_sensors && row_of(*style, labels@, j) == SensorRow::Other implies #[trigger] listed(vo@, j) by {
            if j < k {
                assert(listed(oo, j));
                let q = choose|q: int| 0 <= q < oo.len() && oo[q] == j;
                assert(vo@[q] == j);
            } else {
                assert(vo@[vo@.len() - 1] == k);
            }
        }
        k = k + 1;
    }
    let ghost is_disk = |j: int| row_of(*style, labels@, j) == SensorRow::Disk;
    let ghost is_board = |j: int| row_of(*style, labels@, j) == SensorRow::Board;
    let ghost is_cpu = |j: int| row_of(*style, labels@, j) == SensorRow::Cpu;
    let ghost is_other = |j: int| style.show_other_sensors && row_of(*style, labels@, j) == SensorRow::Other;
    SensorRows {
        disk: sort_by_label(&vd, labels, Ghost(is_disk)),
        board: sort_by_label(&vb, labels, Ghost(is_board)),
        cpu: sort_by_label(&vc, labels, Ghost(is_cpu)),
        other: sort_by_label(&vo, labels, Ghost(is_other)),
    }
}

/// 1 when `v` holds the index `i`, else 0.
pub open spec fn count_listed(v: Seq<usize>, i: int) -> int {
    if listed(v, i) {
        1
    } else {
        0
    }
}

/// With the other row shown, every sensor found is drawn in exactly one row.
pub proof fn every_sensor_in_one_row(labels: Seq<String>, style: StyleConfig, rows: SensorRows, i: int)
    requires
        0 <= i < labels.len(),
        style.show_other_sensors,
        sorted_listing(rows.disk@, labels, |j: int| row_of(style, labels, j) == SensorRow::Disk),
        sorted_listing(rows.board@, labels, |j: int| row_of(style, labels, j) == SensorRow::Board),
        sorted_listing(rows.cpu@, labels, |j: int| row_of(style, labels, j) == SensorRow::Cpu),
        sorted_listing(
            rows.other@,
            labels,
            |j: int| style.show_other_sensors && row_of(style, labels, j) == SensorRow::Other,
        ),
    ensures
        count_listed(rows.disk@, i) + count_listed(rows.board@, i) + count_listed(rows.cpu@, i)
            + count_listed(rows.other@, i) == 1,
{
    let r = row_of(style, labels, i);
    if listed(rows.disk@, i) {
        let q = choose|q: int| 0 <= q < rows.disk@.len() && rows.disk@[q] == i;
        assert(rows.disk@[q] < labels.len());
    }
    if listed(rows.board@, i) {
        let q = choose|q: int| 0 <= q < rows.board@.len() && rows.board@[q] == i;
        assert(rows.board@[q] < labels.len());
    }
    if listed(rows.cpu@, i) {
        let q = choose|q: int| 0 <= q < rows.cpu@.len() && rows.cpu@[q] == i;
        assert(rows.cpu@[q] < labels.len());
    }
    if listed(rows.other@, i) {
        let q = choose|q: int| 0 <= q < rows.other@.len() && rows.other@[q] == i;
        assert(rows.other@[q] < labels.len());
    }
    if r == SensorRow::Disk {
        assert(listed(rows.disk@, i));
    } else if r == SensorRow::Board {
        assert(listed(rows.board@, i));
    } else if r == SensorRow::Cpu {
        assert(listed(rows.cpu@, i));
    } else {
        assert(listed(rows.other@, i));
    }
}

/// When the CPU filter claims none of the sensors the disk and chipset filters left, it
/// is ignored: no sensor falls to the other row, so none is hidden.
pub proof fn idle_cpu_filter_hides_nothing(labels: Seq<String>, style: StyleConfig, i: int)
    requires
        0 <= i < labels.len(),
        cpu_filter_idle(style, labels),
    ensures
        row_of(style, labels, i) != SensorRow::Other,
{
}

/// A sensor the disk filter claims is drawn in the disk row whatever else its label
/// holds; one the chipset filter claims and the disk filter does not is drawn in the
/// chipset row.
pub proof fn narrow_filters_come_first(labels: Seq<String>, style: StyleConfig, i: int)
    requires
        0 <= i < labels.len(),
    ensures
        claimed(style.disk_label_contains@, labels[i]@) ==> row_of(style, labels, i) == SensorRow::Disk,
        !claimed(style.disk_label_contains@, labels[i]@) && claimed(style.board_label_contains@, labels[i]@)
            ==> row_of(style, labels, i) == SensorRow::Board,
{
}

} // verus!
