//! Drive temperatures from `IOCTL_STORAGE_QUERY_PROPERTY`: naming a drive from its
//! device descriptor and turning its temperature descriptor into readings.
use vstd::prelude::*;
use vstd::utf8::{valid_utf8, decode_utf8};
use crate::number::{decimal, decimal_text};
use crate::reading::{Quantity, Reading};
use crate::text::{trimmed, trim_span, chars_of, text_of, slice, append};

verus! {

/// `String::from_utf8`: the text the bytes encode, when they are valid UTF-8.
#[verifier::external_body]
fn utf8_text(bytes: &[u8]) -> (r: Option<String>)
    ensures
        r matches Some(s) ==> valid_utf8(bytes@) && s@ == decode_utf8(bytes@),
        r is None ==> !valid_utf8(bytes@),
{
    String::from_utf8(bytes.to_vec()).ok()
}

/// Index of the first zero byte in `bytes[from..]`.
pub open spec fn zero_at(bytes: Seq<u8>, from: int) -> Option<int>
    decreases bytes.len() - from,
{
    if from < 0 || from >= bytes.len() {
        None
    } else if bytes[from] == 0 {
        Some(from)
    } else {
        zero_at(bytes, from + 1)
    }
}

/// The string the descriptor holds at `offset`: the UTF-8 text up to the next zero
/// byte, without surrounding whitespace; nothing for offset zero, an offset past the
/// end, text with no terminator, text that is not UTF-8 or text that is blank.
pub open spec fn text_at_offset(bytes: Seq<u8>, offset: nat) -> Option<Seq<char>> {
    if offset == 0 || offset >= bytes.len() {
        None
    } else {
        match zero_at(bytes, offset as int) {
            None => None,
            Some(z) => {
                let raw = bytes.subrange(offset as int, z);
                if !valid_utf8(raw) {
                    None
                } else {
                    let t = decode_utf8(raw);
                    let (a, b) = trimmed(t, 0, t.len() as int);
                    if a < b {
                        Some(t.subrange(a, b))
                    } else {
                        None
                    }
                }
            },
        }
    }
}

proof fn lemma_text_nonempty(bytes: Seq<u8>, offset: nat)
    ensures
        text_at_offset(bytes, offset) matches Some(t) ==> t.len() > 0,
{
    if let Some(z) = zero_at(bytes, offset as int) {
        let raw = bytes.subrange(offset as int, z);
        if offset != 0 && offset < bytes.len() && valid_utf8(raw) {
            let t = decode_utf8(raw);
            crate::text::lemma_skip_space_bounds(t, 0, t.len() as int);
            let a = crate::text::skip_space(t, 0, t.len() as int);
            crate::text::lemma_skip_space_back_bounds(t, a, t.len() as int);
        }
    }
}

pub fn text_at(bytes: &Vec<u8>, offset: u32) -> (r: Option<String>)
    ensures
        match text_at_offset(bytes@, offset as nat) {
            Some(t) => r matches Some(s) && s@ == t,
            None => r is None,
        },
{
    let start = offset as usize;
    if start == 0 || start >= bytes.len() {
        return None;
    }
    let mut end = start;
    while end < bytes.len() && bytes[end] != 0
        invariant
            start <= end <= bytes@.len(),
            zero_at(bytes@, start as int) == zero_at(bytes@, end as int),
        decreases bytes@.len() - end,
    {
        end = end + 1;
    }
    if end == bytes.len() {
        return None;
    }
    let mut raw: Vec<u8> = Vec::new();
    let mut k = start;
    while k < end
        invariant
            start <= k <= end < bytes@.len(),
            raw@ == bytes@.subrange(start as int, k as int),
        decreases end - k,
    {
        raw.push(bytes[k]);
        assert(bytes@.subrange(start as int, k + 1) == bytes@.subrange(start as int, k as int).push(
            bytes@[k as int],
        ));
        k = k + 1;
    }
    let text = match utf8_text(raw.as_slice()) {
        Some(t) => t,
        None => return None,
    };
    let t = chars_of(text.as_str());
    let (a, b) = trim_span(&t, 0, t.len());
    if a < b {
        let v = slice(&t, a, b);
        Some(text_of(v.as_slice()))
    } else {
        None
    }
}

/// `disk` and the drive number.
pub open spec fn disk_text(index: nat) -> Seq<char> {
    seq!['d', 'i', 's', 'k'] + decimal_text(index)
}

/// The model of a drive: vendor and product, each when present, joined by a space.
pub open spec fn model_text(vendor: Option<Seq<char>>, product: Option<Seq<char>>) -> Seq<char> {
    match (vendor, product) {
        (Some(v), Some(p)) => v + seq![' '] + p,
        (Some(v), None) => v,
        (None, Some(p)) => p,
        (None, None) => seq![],
    }
}

/// The label of a drive: `diskN` followed by its model, or `diskN` alone when the
/// descriptor could not be read or names no model.
pub open spec fn drive_label(index: nat, descriptor: Option<(Seq<u8>, nat, nat)>) -> Seq<char> {
    match descriptor {
        None => disk_text(index),
        Some((bytes, vendor, product)) => {
            let model = model_text(text_at_offset(bytes, vendor), text_at_offset(bytes, product));
            if model.len() == 0 {
                disk_text(index)
            } else {
                disk_text(index) + seq![' '] + model
            }
        },
    }
}

/// The view of a device descriptor: its bytes and the vendor and product offsets.
pub open spec fn descriptor_view(d: Option<(Vec<u8>, u32, u32)>) -> Option<(Seq<u8>, nat, nat)> {
    match d {
        None => None,
        Some((b, v, p)) => Some((b@, v as nat, p as nat)),
    }
}

/// Names drive `index` from its device descriptor, when it could be read.
pub fn drive_name(index: u32, descriptor: &Option<(Vec<u8>, u32, u32)>) -> (s: String)
    ensures
        s@ == drive_label(index as nat, descriptor_view(*descriptor)),
{
    let mut label: Vec<char> = vec!['d', 'i', 's', 'k'];
    let number = decimal(index as u128);
    append(&mut label, &number);
    match descriptor {
        None => text_of(label.as_slice()),
        Some((bytes, vendor, product)) => {
            let v = text_at(bytes, *vendor);
            let p = text_at(bytes, *product);
            let mut model: Vec<char> = Vec::new();
            match &v {
                Some(v) => {
                    let c = chars_of(v.as_str());
                    append(&mut model, &c);
                },
                None => {},
            }
            match &p {
                Some(p) => {
                    if v.is_some() {
                        model.push(' ');
                    }
                    let c = chars_of(p.as_str());
                    append(&mut model, &c);
                },
                None => {},
            }
            proof {
                let tv = text_at_offset(bytes@, *vendor as nat);
                let tp = text_at_offset(bytes@, *product as nat);
                assert(model@ == model_text(tv, tp));
                lemma_text_nonempty(bytes@, *vendor as nat);
                lemma_text_nonempty(bytes@, *product as nat);
            }
            if model.len() == 0 {
                text_of(label.as_slice())
            } else {
                label.push(' ');
                append(&mut label, &model);
                text_of(label.as_slice())
            }
        },
    }
}

/// The readings of a drive named `name` whose temperature descriptor reports
/// `info_count` sensors, of which the buffer held room for `room`: one per sensor
/// that has a reading (not `i16::MIN`), labelled with the drive's name alone when it
/// is the drive's only sensor and with `temp` and the sensor's index otherwise.
pub open spec fn drive_readings(name: Seq<char>, count: nat, slots: Seq<(u16, i16)>, r: Seq<Reading>) -> bool {
    &&& r.len() <= count
    &&& exists|picked: Seq<int>| {
        &&& picked.len() == r.len()
        &&& forall|i: int, j: int| 0 <= i < j < picked.len() ==> picked[i] < picked[j]
        &&& forall|i: int| 0 <= i < picked.len() ==> 0 <= #[trigger] picked[i] < count
        &&& forall|k: int|
            0 <= k < count && slots[k].1 != i16::MIN ==> exists|i: int|
                0 <= i < picked.len() && #[trigger] picked[i] == k
        &&& forall|i: int|
            0 <= i < picked.len() ==> {
                let slot = slots[picked[i]];
                &&& slot.1 != i16::MIN
                &&& (#[trigger] r[i]).label@ == if count == 1 {
                    name
                } else {
                    name + seq![' ', 't', 'e', 'm', 'p'] + decimal_text(slot.0 as nat)
                }
                &&& r[i].value.num == slot.1 as int && r[i].value.den == 1
                &&& r[i].min is None && r[i].max is None && r[i].note is None
            }
    }
}

/// How many sensors to read: what the descriptor reports, up to what the buffer holds.
pub open spec fn sensor_count(info_count: nat, room: nat, slots: nat) -> nat {
    let c = if info_count < room {
        info_count
    } else {
        room
    };
    if c < slots {
        c
    } else {
        slots
    }
}

pub fn drive_temperatures(name: &String, info_count: u16, room: usize, slots: &Vec<(u16, i16)>) -> (r: Vec<
    Reading,
>)
    ensures
        drive_readings(
            name@,
            sensor_count(info_count as nat, room as nat, slots@.len()),
            slots@,
            r@,
        ),
{
    let mut count = if (info_count as usize) < room {
        info_count as usize
    } else {
        room
    };
    if count > slots.len() {
        count = slots.len();
    }
    let ghost c = count as nat;
    let mut r: Vec<Reading> = Vec::new();
    let ghost mut picked: Seq<int> = seq![];
    let base = chars_of(name.as_str());
    let mut k: usize = 0;
    while k < count
        invariant
            k <= count <= slots@.len(),
            c == count,
            base@ == name@,
            picked.len() == r@.len() <= k,
            forall|i: int, j: int| 0 <= i < j < picked.len() ==> picked[i] < picked[j],
            forall|i: int| 0 <= i < picked.len() ==> 0 <= #[trigger] picked[i] < k,
            forall|q: int|
                0 <= q < k && slots@[q].1 != i16::MIN ==> exists|i: int|
                    0 <= i < picked.len() && #[trigger] picked[i] == q,
            forall|i: int|
                0 <= i < picked.len() ==> {
                    let slot = slots@[picked[i]];
                    &&& slot.1 != i16::MIN
                    &&& (#[trigger] r@[i]).label@ == if c == 1 {
                        name@
                    } else {
                        name@ + seq![' ', 't', 'e', 'm', 'p'] + decimal_text(slot.0 as nat)
                    }
                    &&& r@[i].value.num == slot.1 as int && r@[i].value.den == 1
                    &&& r@[i].min is None && r@[i].max is None && r@[i].note is None
                },
        decreases count - k,
    {
        let (index, temp) = slots[k];
        if temp != i16::MIN {
            let label = if count == 1 {
                name.clone()
            } else {
                let mut l = chars_of(name.as_str());
                l.push(' ');
                l.push('t');
                l.push('e');
                l.push('m');
                l.push('p');
                let n = decimal(index as u128);
                append(&mut l, &n);
                text_of(l.as_slice())
            };
            r.push(Reading::new(label, Quantity::whole(temp as i64)));
            proof {
                let old_picked = picked;
                picked = picked.push(k as int);
                assert forall|q: int|
                    0 <= q < k + 1 && slots@[q].1 != i16::MIN implies exists|i: int|
                        0 <= i < picked.len() && #[trigger] picked[i] == q by {
                    if q < k {
                        let i = choose|i: int| 0 <= i < old_picked.len() && old_picked[i] == q;
                        assert(picked[i] == q);
                    } else {
                        assert(picked[picked.len() - 1] == q);
                    }
                }
            }
        }
        k = k + 1;
    }
    r
}

} // verus!
