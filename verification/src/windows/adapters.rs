//! GPU adapter names from `HKLM\SOFTWARE\Microsoft\DirectX`.
use vstd::prelude::*;
use crate::text::{text_of, trimmed, trim_span, append};

verus! {

/// The character of a hexadecimal digit, in lowercase.
pub open spec fn hex_char(d: nat) -> char {
    if d < 10 {
        crate::number::digit_char(d)
    } else if d == 10 {
        'a'
    } else if d == 11 {
        'b'
    } else if d == 12 {
        'c'
    } else if d == 13 {
        'd'
    } else if d == 14 {
        'e'
    } else {
        'f'
    }
}

/// The last `count` hexadecimal digits of `n`, most significant first.
pub open spec fn hex_digits(n: nat, count: nat) -> Seq<char>
    decreases count,
{
    if count == 0 {
        seq![]
    } else {
        hex_digits(n / 16, (count - 1) as nat).push(hex_char(n % 16))
    }
}

/// The key under which the GPU counters name an adapter:
/// `luid_0x` and the high half, `_0x` and the low half, each as eight hex digits.
pub open spec fn luid_text(luid: nat) -> Seq<char> {
    seq!['l', 'u', 'i', 'd', '_', '0', 'x'] + hex_digits(luid / 0x1_0000_0000, 8) + seq![
        '_',
        '0',
        'x',
    ] + hex_digits(luid % 0x1_0000_0000, 8)
}

pub open spec fn pow16(k: nat) -> nat
    decreases k,
{
    if k == 0 {
        1
    } else {
        16 * pow16((k - 1) as nat)
    }
}

proof fn lemma_hex_len(n: nat, k: nat)
    ensures
        hex_digits(n, k).len() == k,
    decreases k,
{
    if k > 0 {
        lemma_hex_len(n / 16, (k - 1) as nat);
    }
}

proof fn lemma_hex_char_injective(x: nat, y: nat)
    requires
        x < 16,
        y < 16,
        hex_char(x) == hex_char(y),
    ensures
        x == y,
{
}

proof fn lemma_hex_injective(n: nat, m: nat, k: nat)
    requires
        n < pow16(k),
        m < pow16(k),
        hex_digits(n, k) == hex_digits(m, k),
    ensures
        n == m,
    decreases k,
{
    if k > 0 {
        let p = pow16((k - 1) as nat);
        let a = hex_digits(n / 16, (k - 1) as nat);
        let b = hex_digits(m / 16, (k - 1) as nat);
        assert(hex_digits(n, k) == a.push(hex_char(n % 16)));
        assert(hex_digits(m, k) == b.push(hex_char(m % 16)));
        assert(a == hex_digits(n, k).drop_last());
        assert(b == hex_digits(m, k).drop_last());
        assert(hex_char(n % 16) == hex_digits(n, k).last());
        lemma_hex_char_injective(n % 16, m % 16);
        assert(n / 16 < p && m / 16 < p) by (nonlinear_arith)
            requires
                n < 16 * p,
                m < 16 * p,
        ;
        lemma_hex_injective(n / 16, m / 16, (k - 1) as nat);
        assert(n == m) by (nonlinear_arith)
            requires
                n / 16 == m / 16,
                n % 16 == m % 16,
        ;
    }
}

/// A counter key is twenty-six characters long, and two LUIDs with the same key are the
/// same LUID: the key names one adapter.
pub proof fn luid_keys_are_distinct(a: u64, b: u64)
    ensures
        luid_text(a as nat).len() == 26,
        luid_text(a as nat) == luid_text(b as nat) ==> a == b,
{
    lemma_hex_len(a as nat / 0x1_0000_0000, 8);
    lemma_hex_len(a as nat % 0x1_0000_0000, 8);
    lemma_hex_len(b as nat / 0x1_0000_0000, 8);
    lemma_hex_len(b as nat % 0x1_0000_0000, 8);
    if luid_text(a as nat) == luid_text(b as nat) {
        let ta = luid_text(a as nat);
        let tb = luid_text(b as nat);
        let ha = hex_digits(a as nat / 0x1_0000_0000, 8);
        let hb = hex_digits(b as nat / 0x1_0000_0000, 8);
        let la = hex_digits(a as nat % 0x1_0000_0000, 8);
        let lb = hex_digits(b as nat % 0x1_0000_0000, 8);
        assert(ta.subrange(7, 15) =~= ha);
        assert(tb.subrange(7, 15) =~= hb);
        assert(ta.subrange(18, 26) =~= la);
        assert(tb.subrange(18, 26) =~= lb);
        assert(pow16(8) == 0x1_0000_0000) by {
            reveal_with_fuel(pow16, 9);
        }
        assert(a as nat / 0x1_0000_0000 < 0x1_0000_0000);
        assert(b as nat / 0x1_0000_0000 < 0x1_0000_0000);
        lemma_hex_injective(a as nat / 0x1_0000_0000, b as nat / 0x1_0000_0000, 8);
        lemma_hex_injective(a as nat % 0x1_0000_0000, b as nat % 0x1_0000_0000, 8);
    }
}

fn hex_of(d: u64) -> (c: char)
    requires
        d < 16,
    ensures
        c == hex_char(d as nat),
{
    if d < 10 {
        crate::number::decimal(d as u128)[0]
    } else if d == 10 {
        'a'
    } else if d == 11 {
        'b'
    } else if d == 12 {
        'c'
    } else if d == 13 {
        'd'
    } else if d == 14 {
        'e'
    } else {
        'f'
    }
}

fn hex(n: u64, count: usize) -> (v: Vec<char>)
    requires
        count <= 16,
    ensures
        v@ == hex_digits(n as nat, count as nat),
    decreases count,
{
    if count == 0 {
        Vec::new()
    } else {
        let mut v = hex(n / 16, count - 1);
        v.push(hex_of(n % 16));
        v
    }
}

/// The counter key of the adapter with the given LUID.
pub fn luid_key(luid: u64) -> (s: String)
    ensures
        s@ == luid_text(luid as nat),
{
    let mut v: Vec<char> = vec!['l', 'u', 'i', 'd', '_', '0', 'x'];
    let high = hex(luid / 0x1_0000_0000, 8);
    append(&mut v, &high);
    v.push('_');
    v.push('0');
    v.push('x');
    let low = hex(luid % 0x1_0000_0000, 8);
    append(&mut v, &low);
    text_of(v.as_slice())
}

/// What the registry holds for one adapter: its LUID, description and type, each
/// `None` where the value could not be read.
pub struct AdapterEntry {
    pub luid: Option<u64>,
    pub description: Option<String>,
    pub kind: Option<u32>,
}

/// The `AdapterType` bit of a software device, such as the Basic Render Driver.
pub open spec fn software(kind: Option<u32>) -> bool {
    (match kind {
        Some(k) => k,
        None => 0u32,
    }) & 4u32 != 0
}

/// An adapter that gets a name: it has a LUID and a description and is not software.
pub open spec fn named(e: AdapterEntry) -> bool {
    e.luid is Some && e.description is Some && !software(e.kind)
}

/// The names the adapters `a` give, by counter key; a later adapter with the same key
/// replaces an earlier one.
pub open spec fn name_map(a: Seq<AdapterEntry>) -> Map<Seq<char>, Seq<char>>
    decreases a.len(),
{
    if a.len() == 0 {
        Map::empty()
    } else {
        let m = name_map(a.drop_last());
        let e = a.last();
        if named(e) {
            m.insert(luid_text(e.luid.unwrap() as nat), e.description.unwrap()@)
        } else {
            m
        }
    }
}

/// The pairs `r` list the map `m`: one pair per key, with its value.
pub open spec fn lists_map(r: Seq<(String, String)>, m: Map<Seq<char>, Seq<char>>) -> bool {
    &&& forall|i: int, j: int| 0 <= i < j < r.len() ==> r[i].0@ != r[j].0@
    &&& forall|i: int|
        0 <= i < r.len() ==> m.contains_key(#[trigger] r[i].0@) && m[r[i].0@] == r[i].1@
    &&& forall|k: Seq<char>| #[trigger] m.contains_key(k) ==> exists|i: int| 0 <= i < r.len() && r[i].0@ == k
}

/// An adapter with the counter key `key`: it has a LUID that writes `key`, a description,
/// and an `AdapterType` without the software bit (`0x4`) when it reports one.
pub open spec fn hardware_keyed(e: AdapterEntry, key: Seq<char>) -> bool {
    &&& e.luid is Some
    &&& luid_text(e.luid.unwrap() as nat) == key
    &&& e.description is Some
    &&& match e.kind {
        Some(k) => k & 4u32 == 0,
        None => true,
    }
}

/// Every name listed is that of a hardware adapter: each key comes from an adapter with
/// that LUID, a description, and an `AdapterType` without the software bit (`0x4`), so
/// an adapter with that bit set, whatever its other bits, names nothing of its own; the
/// name is the description of the last such adapter with that key; and every such
/// hardware adapter has its key listed.
pub proof fn names_are_hardware_adapters(adapters: Seq<AdapterEntry>, r: Seq<(String, String)>)
    requires
        lists_map(r, name_map(adapters)),
    ensures
        forall|q: int|
            0 <= q < r.len() ==> exists|i: int|
                0 <= i < adapters.len() && hardware_keyed(#[trigger] adapters[i], (#[trigger] r[q]).0@)
                    && adapters[i].description.unwrap()@ == r[q].1@ && forall|j: int|
                    i < j < adapters.len() ==> !hardware_keyed(#[trigger] adapters[j], r[q].0@),
        forall|i: int, key: Seq<char>|
            0 <= i < adapters.len() && #[trigger] hardware_keyed(adapters[i], key) ==> exists|q: int|
                0 <= q < r.len() && (#[trigger] r[q]).0@ == key,
{
    lemma_name_keys(adapters);
    assert forall|q: int| 0 <= q < r.len() implies exists|i: int|
        0 <= i < adapters.len() && hardware_keyed(#[trigger] adapters[i], (#[trigger] r[q]).0@)
            && adapters[i].description.unwrap()@ == r[q].1@ && forall|j: int|
            i < j < adapters.len() ==> !hardware_keyed(#[trigger] adapters[j], r[q].0@) by {
        assert(name_map(adapters).contains_key(r[q].0@));
    }
    assert forall|i: int, key: Seq<char>|
        0 <= i < adapters.len() && #[trigger] hardware_keyed(adapters[i], key) implies exists|q: int|
            0 <= q < r.len() && (#[trigger] r[q]).0@ == key by {
        assert(name_map(adapters).contains_key(key));
    }
}

proof fn lemma_name_keys(a: Seq<AdapterEntry>)
    ensures
        forall|key: Seq<char>|
            #[trigger] name_map(a).contains_key(key) ==> exists|i: int|
                0 <= i < a.len() && hardware_keyed(#[trigger] a[i], key) && a[i].description.unwrap()@
                    == name_map(a)[key] && forall|j: int| i < j < a.len() ==> !hardware_keyed(#[trigger] a[j], key),
        forall|i: int, key: Seq<char>|
            0 <= i < a.len() && #[trigger] hardware_keyed(a[i], key) ==> name_map(a).contains_key(key),
    decreases a.len(),
{
    if a.len() > 0 {
        let b = a.drop_last();
        lemma_name_keys(b);
        let e = a.last();
        assert forall|key: Seq<char>| #[trigger] name_map(a).contains_key(key) implies exists|i: int|
            0 <= i < a.len() && hardware_keyed(#[trigger] a[i], key) && a[i].description.unwrap()@
                == name_map(a)[key] && forall|j: int| i < j < a.len() ==> !hardware_keyed(#[trigger] a[j], key) by {
            if named(e) && key == luid_text(e.luid.unwrap() as nat) {
                assert(a[a.len() - 1] == e);
                assert(hardware_keyed(a[a.len() - 1], key));
            } else {
                assert(name_map(b).contains_key(key));
                assert(name_map(a)[key] == name_map(b)[key]);
                let i = choose|i: int|
                    0 <= i < b.len() && hardware_keyed(#[trigger] b[i], key) && b[i].description.unwrap()@
                        == name_map(b)[key] && forall|j: int| i < j < b.len() ==> !hardware_keyed(#[trigger] b[j], key);
                assert(a[i] == b[i]);
                assert forall|j: int| i < j < a.len() implies !hardware_keyed(#[trigger] a[j], key) by {
                    if j < a.len() - 1 {
                        assert(a[j] == b[j]);
                    } else {
                        assert(a[j] == e);
                        if hardware_keyed(e, key) {
                            if e.kind is None {
                                assert(0u32 & 4u32 == 0u32) by (bit_vector);
                            }
                            assert(named(e));
                        }
                    }
                }
            }
        }
        assert forall|i: int, key: Seq<char>|
            0 <= i < a.len() && #[trigger] hardware_keyed(a[i], key) implies name_map(a).contains_key(key) by {
            if i < a.len() - 1 {
                assert(a[i] == b[i]);
                assert(name_map(b).contains_key(key));
            } else {
                assert(a[i] == e);
                assert(0u32 & 4u32 == 0u32) by (bit_vector);
                assert(named(e));
            }
        }
    }
}

fn find_key(r: &Vec<(String, String)>, key: &String) -> (place: Option<usize>)
    ensures
        match place {
            Some(j) => j < r@.len() && r@[j as int].0@ == key@,
            None => forall|k: int| 0 <= k < r@.len() ==> (#[trigger] r@[k]).0@ != key@,
        },
{
    let mut j: usize = 0;
    while j < r.len()
        invariant
            j <= r@.len(),
            forall|k: int| 0 <= k < j ==> (#[trigger] r@[k]).0@ != key@,
        decreases r@.len() - j,
    {
        if r[j].0 == *key {
            return Some(j);
        }
        j = j + 1;
    }
    None
}

/// Names of the hardware adapters, keyed the way the GPU counters name them. Adapters
/// without a LUID or a description are left out, and so are software adapters (bit 2
/// of the type), which keeps the Basic Render Driver from showing up as an idle GPU.
pub fn names(adapters: &Vec<AdapterEntry>) -> (r: Vec<(String, String)>)
    ensures
        lists_map(r@, name_map(adapters@)),
{
    let mut r: Vec<(String, String)> = Vec::new();
    let mut i: usize = 0;
    while i < adapters.len()
        invariant
            i <= adapters@.len(),
            lists_map(r@, name_map(adapters@.take(i as int))),
        decreases adapters@.len() - i,
    {
        let e = &adapters[i];
        assert(adapters@.take(i + 1).drop_last() == adapters@.take(i as int));
        let kind: u32 = match e.kind {
            Some(k) => k,
            None => 0,
        };
        match (e.luid, &e.description) {
            (Some(luid), Some(d)) => {
                if kind & 4 == 0 {
                    let key = luid_key(luid);
                    let ghost m = name_map(adapters@.take(i as int));
                    let ghost m2 = m.insert(key@, d@);
                    assert(name_map(adapters@.take(i + 1)) == m2);
                    let place = find_key(&r, &key);
                    let ghost old_r = r@;
                    if let Some(j) = place {
                        let (k, _) = r.remove(j);
                        let nd = d.clone();
                        let ghost pair = (k, nd);
                        r.insert(j, (k, nd));
                        proof {
                            assert(r@ == old_r.update(j as int, pair));
                            assert forall|k: Seq<char>| #[trigger] m2.contains_key(k) implies exists|q: int|
                                0 <= q < r@.len() && r@[q].0@ == k by {
                                if k != key@ {
                                    let q = choose|q: int| 0 <= q < old_r.len() && old_r[q].0@ == k;
                                    assert(r@[q].0@ == k);
                                } else {
                                    assert(r@[j as int].0@ == k);
                                }
                            }
                        }
                    } else {
                        r.push((key, d.clone()));
                        proof {
                            assert forall|k: Seq<char>| #[trigger] m2.contains_key(k) implies exists|q: int|
                                0 <= q < r@.len() && r@[q].0@ == k by {
                                if k != key@ {
                                    let q = choose|q: int| 0 <= q < old_r.len() && old_r[q].0@ == k;
                                    assert(r@[q].0@ == k);
                                } else {
                                    assert(r@[old_r.len() as int].0@ == k);
                                }
                            }
                        }
                    }
                } else {
                    assert(name_map(adapters@.take(i + 1)) == name_map(adapters@.take(i as int)));
                }
            },
            _ => {
                assert(name_map(adapters@.take(i + 1)) == name_map(adapters@.take(i as int)));
            },
        }
        i = i + 1;
    }
    assert(adapters@.take(adapters@.len() as int) == adapters@);
    r
}

/// The text that lossy UTF-16 decoding gives for `units`: a high surrogate followed by a
/// low one decodes to the character the pair encodes; any other surrogate to U+FFFD; and
/// every other unit to the character with its code.
pub open spec fn utf16_lossy(units: Seq<u16>) -> Seq<char>
    decreases units.len(),
{
    if units.len() == 0 {
        seq![]
    } else if 0xD800 <= units[0] < 0xDC00 && units.len() >= 2 && 0xDC00 <= units[1] < 0xE000 {
        seq![(0x10000 + (units[0] - 0xD800) * 0x400 + (units[1] - 0xDC00)) as char] + utf16_lossy(
            units.skip(2),
        )
    } else if 0xD800 <= units[0] < 0xE000 {
        seq!['\u{FFFD}'] + utf16_lossy(units.skip(1))
    } else {
        seq![units[0] as char] + utf16_lossy(units.skip(1))
    }
}

/// `String::from_utf16_lossy`: decodes UTF-16, putting U+FFFD in place of each surrogate
/// that is not part of a pair, as its documentation states; `utf16_lossy` writes that out.
#[verifier::external_body]
fn decode_utf16(units: &[u16]) -> (s: String)
    ensures
        s@ == utf16_lossy(units@),
{
    String::from_utf16_lossy(units)
}

/// Index one past the last character in `s[..hi]` that is not a NUL.
pub open spec fn strip_nul(s: Seq<char>, hi: int) -> int
    decreases hi,
{
    if hi > 0 && s[hi - 1] == '\0' {
        strip_nul(s, hi - 1)
    } else {
        hi
    }
}

/// What a `REG_SZ` value reads as: its UTF-16 text without the trailing NULs and the
/// surrounding whitespace; nothing when that leaves it empty.
pub open spec fn registry_text_of(units: Seq<u16>) -> Option<Seq<char>> {
    let t = utf16_lossy(units);
    let (a, b) = trimmed(t, 0, strip_nul(t, t.len() as int));
    if a < b {
        Some(t.subrange(a, b))
    } else {
        None
    }
}

pub fn registry_text(units: &Vec<u16>) -> (r: Option<String>)
    ensures
        match registry_text_of(units@) {
            Some(t) => r matches Some(s) && s@ == t,
            None => r is None,
        },
{
    let s = decode_utf16(units.as_slice());
    let t = crate::text::chars_of(s.as_str());
    let mut end = t.len();
    while end > 0 && t[end - 1] == '\0'
        invariant
            end <= t@.len(),
            strip_nul(t@, t@.len() as int) == strip_nul(t@, end as int),
        decreases end,
    {
        end = end - 1;
    }
    let (a, b) = trim_span(&t, 0, end);
    if a < b {
        let v = crate::text::slice(&t, a, b);
        Some(text_of(v.as_slice()))
    } else {
        None
    }
}

} // verus!
