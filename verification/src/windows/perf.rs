//! GPU usage from the `\GPU Engine(*)\Utilization Percentage` counter instances: summed
//! per engine, with the busiest engine standing for its adapter, as Task Manager shows it.
use vstd::prelude::*;
use crate::number::{decimal, decimal_text};
use crate::order::{pair_le, pair_lt, sorted_order, key_of, lemma_pair_facts, lists};
use crate::reading::{Quantity, Reading};
use crate::text::{
    ascii_lower, lower_ascii_char, find, find_first, occurs_at, slice, append, text_of, chars_of,
};

verus! {

pub open spec fn luid_mark() -> Seq<char> {
    seq!['l', 'u', 'i', 'd', '_']
}

pub open spec fn phys_mark() -> Seq<char> {
    seq!['_', 'p', 'h', 'y', 's', '_']
}

pub open spec fn eng_mark() -> Seq<char> {
    seq!['_', 'e', 'n', 'g', '_']
}

pub open spec fn engtype_mark() -> Seq<char> {
    seq!['_', 'e', 'n', 'g', 't', 'y', 'p', 'e', '_']
}

/// The adapter and the engine type an instance name carries: from `luid_` up to
/// `_phys_` (or `_eng_` when there is no `_phys_`), and everything after `_engtype_`.
pub open spec fn split_of(s: Seq<char>) -> Option<(Seq<char>, Seq<char>)> {
    match find_first(s, luid_mark()) {
        None => None,
        Some(a) => {
            let end = match find_first(s, phys_mark()) {
                Some(e) => Some(e),
                None => find_first(s, eng_mark()),
            };
            match end {
                None => None,
                Some(e) => match find_first(s, engtype_mark()) {
                    None => None,
                    Some(g) => if e <= a {
                        None
                    } else {
                        Some((s.subrange(a, e), s.subrange(g + 9, s.len() as int)))
                    },
                },
            }
        },
    }
}

/// Splits a counter instance into its adapter and engine type.
pub fn split_instance(instance: &str) -> (r: Option<(String, String)>)
    ensures
        match split_of(instance@) {
            Some((a, e)) => r matches Some(p) && p.0@ == a && p.1@ == e,
            None => r is None,
        },
{
    let s = chars_of(instance);
    let luid = vec!['l', 'u', 'i', 'd', '_'];
    let phys = vec!['_', 'p', 'h', 'y', 's', '_'];
    let eng = vec!['_', 'e', 'n', 'g', '_'];
    let engtype = vec!['_', 'e', 'n', 'g', 't', 'y', 'p', 'e', '_'];
    let a = match find(&s, &luid) {
        Some(a) => a,
        None => return None,
    };
    let end = match find(&s, &phys) {
        Some(e) => e,
        None => match find(&s, &eng) {
            Some(e) => e,
            None => return None,
        },
    };
    let g = match find(&s, &engtype) {
        Some(g) => g,
        None => return None,
    };
    if end <= a {
        return None;
    }
    assert(engtype@.len() == 9);
    let n = s.len();
    let adapter = slice(&s, a, end);
    let engine = slice(&s, g + 9, n);
    Some((text_of(adapter.as_slice()), text_of(engine.as_slice())))
}

/// Text with every ASCII capital turned into its small letter.
pub open spec fn lower_text(s: Seq<char>) -> Seq<char> {
    Seq::new(s.len(), |i: int| ascii_lower(s[i]))
}

fn lower(s: &String) -> (r: Vec<char>)
    ensures
        r@ == lower_text(s@),
{
    let c = chars_of(s.as_str());
    let mut r: Vec<char> = Vec::new();
    let mut k: usize = 0;
    while k < c.len()
        invariant
            k <= c@.len(),
            r@.len() == k,
            forall|j: int| 0 <= j < k ==> r@[j] == ascii_lower(#[trigger] c@[j]),
        decreases c@.len() - k,
    {
        r.push(lower_ascii_char(c[k]));
        k = k + 1;
    }
    r
}

/// Index of the first name pair with the given key.
pub open spec fn name_index(names: Seq<(String, String)>, key: Seq<char>) -> Option<int> {
    if exists|j: int| 0 <= j < names.len() && (#[trigger] names[j]).0@ == key {
        Some(
            choose|j: int|
                0 <= j < names.len() && (#[trigger] names[j]).0@ == key && forall|k: int|
                    0 <= k < j ==> (#[trigger] names[k]).0@ != key,
        )
    } else {
        None
    }
}

fn name_of(names: &Vec<(String, String)>, key: &Vec<char>) -> (r: Option<usize>)
    ensures
        r matches Some(j) ==> j < names@.len(),
        match r {
            Some(j) => name_index(names@, key@) == Some(j as int),
            None => name_index(names@, key@) is None,
        },
{
    let mut j: usize = 0;
    while j < names.len()
        invariant
            j <= names@.len(),
            forall|k: int| 0 <= k < j ==> (#[trigger] names@[k]).0@ != key@,
        decreases names@.len() - j,
    {
        let k = chars_of(names[j].0.as_str());
        if crate::order::compare_text(&k, key) == 0 {
            proof {
                let w = choose|i: int|
                    0 <= i < names@.len() && (#[trigger] names@[i]).0@ == key@ && forall|q: int|
                        0 <= q < i ==> (#[trigger] names@[q]).0@ != key@;
                assert(0 <= w < names@.len() && names@[w].0@ == key@ && forall|q: int|
                    0 <= q < w ==> (#[trigger] names@[q]).0@ != key@);
                if w < j {
                    assert(names@[w].0@ != key@);
                } else if w > j {
                    assert(names@[j as int].0@ != key@);
                }
            }
            return Some(j);
        }
        j = j + 1;
    }
    None
}

/// What a sample contributes: its adapter and engine, in lowercase, and its value; nothing
/// when the instance does not split, or when adapters are named and this one is not.
pub open spec fn item_of(sample: (String, i64), names: Seq<(String, String)>) -> Option<
    (Seq<char>, Seq<char>, int),
> {
    match split_of(sample.0@) {
        None => None,
        Some((a, e)) => {
            let key = lower_text(a);
            if names.len() > 0 && name_index(names, key) is None {
                None
            } else {
                Some((key, lower_text(e), sample.1 as int))
            }
        },
    }
}

/// The contributions of the samples `samples[..upto]`, in order.
pub open spec fn items_of(samples: Seq<(String, i64)>, names: Seq<(String, String)>, upto: int) -> Seq<
    (Seq<char>, Seq<char>, int),
>
    decreases upto,
{
    if upto <= 0 {
        seq![]
    } else {
        let init = items_of(samples, names, upto - 1);
        match item_of(samples[upto - 1], names) {
            Some(it) => init.push(it),
            None => init,
        }
    }
}

/// The summed value of engine `e` of adapter `a` over `items[..upto]`.
pub open spec fn engine_total(items: Seq<(Seq<char>, Seq<char>, int)>, a: Seq<char>, e: Seq<char>, upto: int) -> int
    decreases upto,
{
    if upto <= 0 {
        0
    } else {
        engine_total(items, a, e, upto - 1) + if items[upto - 1].0 == a && items[upto - 1].1 == e {
            items[upto - 1].2
        } else {
            0
        }
    }
}

/// The highest engine total of adapter `a` among the engines seen in `items[..upto]`,
/// and zero when none is higher.
pub open spec fn busiest(items: Seq<(Seq<char>, Seq<char>, int)>, a: Seq<char>, upto: int) -> int
    decreases upto,
{
    if upto <= 0 {
        0
    } else {
        let b = busiest(items, a, upto - 1);
        if items[upto - 1].0 == a {
            let t = engine_total(items, a, items[upto - 1].1, items.len() as int);
            if t > b {
                t
            } else {
                b
            }
        } else {
            b
        }
    }
}

/// `GPU n`, then the adapter's name when it has one.
pub open spec fn gpu_label(index: nat, name: Option<Seq<char>>) -> Seq<char> {
    let head = seq!['G', 'P', 'U', ' '] + decimal_text(index);
    match name {
        Some(n) => head + seq![' '] + n,
        None => head,
    }
}

/// The readings `usage` makes: one per adapter key of `keys`, which lists the adapters
/// of `items` once each in sorted order, labelled with its place and name and valued
/// at its busiest engine.
pub open spec fn usage_matches(
    items: Seq<(Seq<char>, Seq<char>, int)>,
    names: Seq<(String, String)>,
    keys: Seq<Seq<char>>,
    r: Seq<Reading>,
) -> bool {
    &&& forall|i: int, j: int|
        0 <= i < j < keys.len() ==> crate::order::text_lt(#[trigger] keys[i], #[trigger] keys[j])
    &&& forall|i: int| 0 <= i < keys.len() ==> adapter_seen(items, #[trigger] keys[i])
    &&& forall|k: int| 0 <= k < items.len() ==> key_in(keys, #[trigger] items[k].0)
    &&& r.len() == keys.len()
    &&& forall|i: int|
        0 <= i < r.len() ==> {
            &&& (#[trigger] r[i]).label@ == gpu_label(
                i as nat,
                match name_index(names, keys[i]) {
                    Some(j) => Some(names[j].1@),
                    None => None,
                },
            )
            &&& r[i].value.num == busiest(items, keys[i], items.len() as int)
            &&& r[i].value.den == 1000000
            &&& r[i].min is None && r[i].max is None && r[i].note is None
        }
}

proof fn lemma_engine_total_bound(items: Seq<(Seq<char>, Seq<char>, int)>, a: Seq<char>, e: Seq<char>, upto: int)
    requires
        0 <= upto <= items.len(),
        forall|k: int| 0 <= k < items.len() ==> i64::MIN <= #[trigger] items[k].2 <= i64::MAX,
    ensures
        -upto * 0x8000_0000_0000_0000 <= engine_total(items, a, e, upto) <= upto * 0x8000_0000_0000_0000,
    decreases upto,
{
    if upto > 0 {
        lemma_engine_total_bound(items, a, e, upto - 1);
    }
}

fn total_of(items: &Vec<(Vec<char>, Vec<char>, i64)>, a: &Vec<char>, e: &Vec<char>) -> (t: i128)
    ensures
        t == engine_total(item_views(items@), a@, e@, items@.len() as int),
{
    let ghost iv = item_views(items@);
    let mut t: i128 = 0;
    let mut k: usize = 0;
    while k < items.len()
        invariant
            k <= items@.len() == iv.len(),
            iv == item_views(items@),
            t == engine_total(iv, a@, e@, k as int),
        decreases items@.len() - k,
    {
        proof {
            assert(forall|q: int| 0 <= q < iv.len() ==> i64::MIN <= #[trigger] iv[q].2 <= i64::MAX);
            lemma_engine_total_bound(iv, a@, e@, k + 1);
            assert(k + 1 <= usize::MAX);
        }
        let same = crate::order::compare_text(&items[k].0, a) == 0 && crate::order::compare_text(
            &items[k].1,
            e,
        ) == 0;
        if same {
            t = t + items[k].2 as i128;
        }
        k = k + 1;
    }
    t
}

/// The spec view of the exec contributions.
pub open spec fn item_views(items: Seq<(Vec<char>, Vec<char>, i64)>) -> Seq<(Seq<char>, Seq<char>, int)> {
    Seq::new(items.len(), |k: int| (items[k].0@, items[k].1@, items[k].2 as int))
}

fn busiest_of(items: &Vec<(Vec<char>, Vec<char>, i64)>, a: &Vec<char>) -> (b: i128)
    ensures
        b == busiest(item_views(items@), a@, items@.len() as int),
{
    let ghost iv = item_views(items@);
    let mut b: i128 = 0;
    let mut k: usize = 0;
    while k < items.len()
        invariant
            k <= items@.len() == iv.len(),
            iv == item_views(items@),
            b == busiest(iv, a@, k as int),
        decreases items@.len() - k,
    {
        if crate::order::compare_text(&items[k].0, a) == 0 {
            let t = total_of(items, a, &items[k].1);
            if t > b {
                b = t;
            }
        }
        k = k + 1;
    }
    b
}

fn collect_items(samples: &Vec<(String, i64)>, names: &Vec<(String, String)>) -> (items: Vec<
    (Vec<char>, Vec<char>, i64),
>)
    ensures
        item_views(items@) == items_of(samples@, names@, samples@.len() as int),
{
    let mut items: Vec<(Vec<char>, Vec<char>, i64)> = Vec::new();
    let mut i: usize = 0;
    while i < samples.len()
        invariant
            i <= samples@.len(),
            item_views(items@) == items_of(samples@, names@, i as int),
        decreases samples@.len() - i,
    {
        let ghost before = items@;
        match split_instance(samples[i].0.as_str()) {
            Some((adapter, engine)) => {
                let key = lower(&adapter);
                let known = names.len() == 0 || name_of(names, &key).is_some();
                if known {
                    items.push((key, lower(&engine), samples[i].1));
                    assert(item_views(items@) == item_views(before).push(
                        (key@, lower_text(engine@), samples@[i as int].1 as int),
                    ));
                } else {
                    assert(item_views(items@) == item_views(before));
                }
            },
            None => {},
        }
        i = i + 1;
    }
    items
}

/// One of the keys is `a`.
pub open spec fn key_listed(keys: Seq<(Vec<char>, Vec<char>)>, a: Seq<char>) -> bool {
    exists|p: int| 0 <= p < keys.len() && keys[p].0@ == a
}

/// One of the contributions comes from adapter `a`.
pub open spec fn adapter_seen(iv: Seq<(Seq<char>, Seq<char>, int)>, a: Seq<char>) -> bool {
    exists|q: int| 0 <= q < iv.len() && iv[q].0 == a
}

/// `a` is one of `ks`.
pub open spec fn key_in(ks: Seq<Seq<char>>, a: Seq<char>) -> bool {
    exists|i: int| 0 <= i < ks.len() && ks[i] == a
}

/// The keys list every adapter of `iv` once, each with an empty second key.
pub open spec fn distinct_adapters(iv: Seq<(Seq<char>, Seq<char>, int)>, keys: Seq<(Vec<char>, Vec<char>)>) -> bool {
    &&& forall|p: int, q: int| 0 <= p < q < keys.len() ==> keys[p].0@ != keys[q].0@
    &&& forall|p: int| 0 <= p < keys.len() ==> (#[trigger] keys[p]).1@.len() == 0
    &&& forall|p: int| 0 <= p < keys.len() ==> adapter_seen(iv, (#[trigger] keys[p]).0@)
    &&& forall|q: int| 0 <= q < iv.len() ==> key_listed(keys, #[trigger] iv[q].0)
}

fn has_key(keys: &Vec<(Vec<char>, Vec<char>)>, key: &Vec<char>) -> (seen: bool)
    ensures
        seen == exists|x: int| 0 <= x < keys@.len() && (#[trigger] keys@[x]).0@ == key@,
{
    let mut p: usize = 0;
    while p < keys.len()
        invariant
            p <= keys@.len(),
            forall|x: int| 0 <= x < p ==> (#[trigger] keys@[x]).0@ != key@,
        decreases keys@.len() - p,
    {
        if crate::order::compare_text(&keys[p].0, key) == 0 {
            return true;
        }
        p = p + 1;
    }
    false
}

fn adapter_keys(items: &Vec<(Vec<char>, Vec<char>, i64)>) -> (keys: Vec<(Vec<char>, Vec<char>)>)
    ensures
        distinct_adapters(item_views(items@), keys@),
{
    let ghost iv = item_views(items@);
    let mut keys: Vec<(Vec<char>, Vec<char>)> = Vec::new();
    let mut k: usize = 0;
    while k < items.len()
        invariant
            k <= items@.len() == iv.len(),
            iv == item_views(items@),
            forall|p: int, q: int| 0 <= p < q < keys@.len() ==> keys@[p].0@ != keys@[q].0@,
            forall|p: int| 0 <= p < keys@.len() ==> (#[trigger] keys@[p]).1@.len() == 0,
            forall|p: int| 0 <= p < keys@.len() ==> adapter_seen(iv, (#[trigger] keys@[p]).0@),
            forall|q: int| 0 <= q < k ==> key_listed(keys@, #[trigger] iv[q].0),
        decreases items@.len() - k,
    {
        let seen = has_key(&keys, &items[k].0);
        let ghost old_keys = keys@;
        assert(iv[k as int].0 == items@[k as int].0@);
        if seen {
            assert(key_listed(keys@, iv[k as int].0));
        } else {
            keys.push((items[k].0.clone(), Vec::new()));
            proof {
                assert forall|q: int| 0 <= q < k + 1 implies key_listed(keys@, #[trigger] iv[q].0) by {
                    if q < k {
                        assert(key_listed(old_keys, iv[q].0));
                        let p = choose|p: int| 0 <= p < old_keys.len() && old_keys[p].0@ == iv[q].0;
                        assert(keys@[p] == old_keys[p]);
                    } else {
                        assert(keys@[old_keys.len() as int].0@ == iv[q].0);
                    }
                }
                assert forall|p: int| 0 <= p < keys@.len() implies adapter_seen(iv, (#[trigger] keys@[p]).0@) by {
                    if p < old_keys.len() {
                        assert(keys@[p] == old_keys[p]);
                    } else {
                        assert(iv[k as int].0 == keys@[p].0@);
                    }
                }
            }
        }
        k = k + 1;
    }
    keys
}

/// The reading for the adapter `key` at place `n`.
pub open spec fn adapter_reading(
    iv: Seq<(Seq<char>, Seq<char>, int)>,
    names: Seq<(String, String)>,
    key: Seq<char>,
    n: nat,
    r: Reading,
) -> bool {
    &&& r.label@ == gpu_label(
        n,
        match name_index(names, key) {
            Some(j) => Some(names[j].1@),
            None => None,
        },
    )
    &&& r.value.num == busiest(iv, key, iv.len() as int)
    &&& r.value.den == 1000000
    &&& r.min is None && r.max is None && r.note is None
}

fn adapter_usage(
    items: &Vec<(Vec<char>, Vec<char>, i64)>,
    names: &Vec<(String, String)>,
    key: &Vec<char>,
    n: usize,
) -> (r: Reading)
    ensures
        adapter_reading(item_views(items@), names@, key@, n as nat, r),
{
    let b = busiest_of(items, key);
    let mut label: Vec<char> = vec!['G', 'P', 'U', ' '];
    let number = decimal(n as u128);
    append(&mut label, &number);
    let ghost head = label@;
    assert(head == seq!['G', 'P', 'U', ' '] + decimal_text(n as nat));
    match name_of(names, key) {
        Some(j) => {
            label.push(' ');
            let name = chars_of(names[j].1.as_str());
            append(&mut label, &name);
            assert(label@ == head + seq![' '] + names@[j as int].1@);
        },
        None => {},
    }
    Reading::new(text_of(label.as_slice()), Quantity { num: b, den: 1000000 })
}

/// GPU usage per adapter from the counter samples. `samples` pairs each counter instance
/// with its value in millionths of a percent; `names` holds the adapter names by key.
/// Values are summed per engine across processes, and each adapter reads the total of
/// its busiest engine (zero at least). Adapters come in the order of their keys and are
/// labelled `GPU n` with their place, followed by their name; when names are known,
/// adapters without one are left out.
pub fn usage(samples: &Vec<(String, i64)>, names: &Vec<(String, String)>) -> (r: Vec<Reading>)
    ensures
        exists|keys: Seq<Seq<char>>|
            usage_matches(items_of(samples@, names@, samples@.len() as int), names@, keys, r@),
{
    let items = collect_items(samples, names);
    let ghost iv = item_views(items@);
    let keys = adapter_keys(&items);
    let perm = sorted_order(&keys);
    let mut r: Vec<Reading> = Vec::new();
    let mut n: usize = 0;
    let ghost sorted_keys = Seq::new(perm@.len(), |x: int| keys@[perm@[x] as int].0@);
    while n < perm.len()
        invariant
            n <= perm@.len() == keys@.len(),
            iv == item_views(items@),
            crate::order::is_permutation(perm@, keys@.len()),
            sorted_keys == Seq::new(perm@.len(), |x: int| keys@[perm@[x] as int].0@),
            r@.len() == n,
            forall|x: int| 0 <= x < n ==> adapter_reading(iv, names@, sorted_keys[x], x as nat, #[trigger] r@[x]),
        decreases perm@.len() - n,
    {
        r.push(adapter_usage(&items, names, &keys[perm[n]].0, n));
        n = n + 1;
    }
    proof {
        lemma_usage(iv, names@, keys@, perm@, sorted_keys, r@);
    }
    r
}

proof fn lemma_sorted_keys(
    keys: Seq<(Vec<char>, Vec<char>)>,
    perm: Seq<usize>,
    sorted_keys: Seq<Seq<char>>,
)
    requires
        forall|p: int, q: int| 0 <= p < q < keys.len() ==> keys[p].0@ != keys[q].0@,
        forall|p: int| 0 <= p < keys.len() ==> (#[trigger] keys[p]).1@.len() == 0,
        crate::order::is_permutation(perm, keys.len()),
        crate::order::sorted_stably(keys, perm),
        sorted_keys == Seq::new(perm.len(), |x: int| keys[perm[x] as int].0@),
    ensures
        forall|i: int, j: int|
            0 <= i < j < sorted_keys.len() ==> crate::order::text_lt(
                #[trigger] sorted_keys[i],
                #[trigger] sorted_keys[j],
            ),
{
    lemma_pair_facts();
    assert forall|i: int, j: int|
        0 <= i < j < sorted_keys.len() implies crate::order::text_lt(
        #[trigger] sorted_keys[i],
        #[trigger] sorted_keys[j],
    ) by {
        let ki = key_of(keys, perm[i] as int);
        let kj = key_of(keys, perm[j] as int);
        assert(pair_le(ki, kj));
        assert(perm[i] != perm[j]);
        if perm[i] < perm[j] {
            assert(ki.0 != kj.0);
        } else {
            assert(ki.0 != kj.0);
        }
        assert(ki.1.len() == 0 && kj.1.len() == 0);
        assert(ki.1 == kj.1);
        assert(pair_lt(ki, kj));
        crate::order::lemma_text_lt_irreflexive(ki.1);
    }
}

proof fn lemma_usage(
    iv: Seq<(Seq<char>, Seq<char>, int)>,
    names: Seq<(String, String)>,
    keys: Seq<(Vec<char>, Vec<char>)>,
    perm: Seq<usize>,
    sorted_keys: Seq<Seq<char>>,
    r: Seq<Reading>,
)
    requires
        distinct_adapters(iv, keys),
        crate::order::is_permutation(perm, keys.len()),
        crate::order::sorted_stably(keys, perm),
        sorted_keys == Seq::new(perm.len(), |x: int| keys[perm[x] as int].0@),
        r.len() == perm.len(),
        forall|x: int| 0 <= x < r.len() ==> adapter_reading(iv, names, sorted_keys[x], x as nat, #[trigger] r[x]),
    ensures
        usage_matches(iv, names, sorted_keys, r),
{
    lemma_sorted_keys(keys, perm, sorted_keys);
    assert forall|i: int| 0 <= i < sorted_keys.len() implies adapter_seen(iv, #[trigger] sorted_keys[i]) by {
        assert(sorted_keys[i] == keys[perm[i] as int].0@);
    }
    assert forall|q: int| 0 <= q < iv.len() implies key_in(sorted_keys, #[trigger] iv[q].0) by {
        assert(key_listed(keys, iv[q].0));
        let p = choose|p: int| 0 <= p < keys.len() && keys[p].0@ == iv[q].0;
        assert(lists(perm, p));
        let i = choose|i: int| 0 <= i < perm.len() && perm[i] == p;
        assert(sorted_keys[i] == iv[q].0);
    }
    assert forall|i: int| 0 <= i < r.len() implies {
        &&& (#[trigger] r[i]).label@ == gpu_label(
            i as nat,
            match name_index(names, sorted_keys[i]) {
                Some(j) => Some(names[j].1@),
                None => None,
            },
        )
        &&& r[i].value.num == busiest(iv, sorted_keys[i], iv.len() as int)
        &&& r[i].value.den == 1000000
        &&& r[i].min is None && r[i].max is None && r[i].note is None
    } by {
        assert(adapter_reading(iv, names, sorted_keys[i], i as nat, r[i]));
    }
}

} // verus!
