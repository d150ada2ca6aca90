//! The `hwmon` scanner: which files of a chip directory are input channels, and what
//! reading each channel makes from its `_input`, `_label`, `_min` and `_max` files.
use vstd::prelude::*;
use crate::order::text_le;
use crate::reading::{Quantity, Reading};
use crate::sysfs::{file_text, is_value, read_float, read_text, scaled_float, sorted, trimmed_text};
use crate::text::{chars_of, text_of, append, slice};

verus! {

/// `_input`
pub open spec fn input_suffix() -> Seq<char> {
    seq!['_', 'i', 'n', 'p', 'u', 't']
}

pub open spec fn starts_with(s: Seq<char>, p: Seq<char>) -> bool {
    s.len() >= p.len() && s.take(p.len() as int) == p
}

pub open spec fn ends_with(s: Seq<char>, p: Seq<char>) -> bool {
    s.len() >= p.len() && s.skip(s.len() - p.len()) == p
}

pub fn has_prefix(s: &Vec<char>, p: &Vec<char>) -> (b: bool)
    ensures
        b == starts_with(s@, p@),
{
    if s.len() < p.len() {
        return false;
    }
    let mut k: usize = 0;
    while k < p.len()
        invariant
            k <= p@.len() <= s@.len(),
            s@.take(k as int) == p@.take(k as int),
        decreases p@.len() - k,
    {
        if s[k] != p[k] {
            assert(s@.take(p@.len() as int)[k as int] != p@[k as int]);
            return false;
        }
        assert(s@.take(k + 1) == s@.take(k as int).push(s@[k as int]));
        assert(p@.take(k + 1) == p@.take(k as int).push(p@[k as int]));
        k = k + 1;
    }
    assert(p@.take(p@.len() as int) == p@);
    true
}

pub fn has_suffix(s: &Vec<char>, p: &Vec<char>) -> (b: bool)
    ensures
        b == ends_with(s@, p@),
{
    if s.len() < p.len() {
        return false;
    }
    let n = s.len();
    let off = n - p.len();
    let mut k: usize = 0;
    while k < p.len()
        invariant
            k <= p@.len(),
            n == s@.len(),
            off + p@.len() == n,
            forall|j: int| 0 <= j < k ==> s@[off + j] == p@[j],
        decreases p@.len() - k,
    {
        if s[off + k] != p[k] {
            assert(s@.skip(off as int)[k as int] != p@[k as int]);
            return false;
        }
        k = k + 1;
    }
    assert(s@.skip(off as int) == p@);
    true
}

/// A file of a chip directory that is an input channel of the kind `prefix`
/// (`temp`, `fan`, `in`, `freq`): its name begins with the prefix and ends in `_input`.
pub open spec fn is_input_name(file: Seq<char>, prefix: Seq<char>) -> bool {
    starts_with(file, prefix) && ends_with(file, input_suffix())
}

pub fn is_input(file: &String, prefix: &str) -> (b: bool)
    ensures
        b == is_input_name(file@, prefix@),
{
    let f = chars_of(file.as_str());
    let p = chars_of(prefix);
    let suffix = vec!['_', 'i', 'n', 'p', 'u', 't'];
    has_prefix(&f, &p) && has_suffix(&f, &suffix)
}

/// The files that are inputs of kind `prefix`, in the order they came.
pub open spec fn input_files(files: Seq<String>, prefix: Seq<char>) -> Seq<String> {
    files.filter(|f: String| is_input_name(f@, prefix))
}

/// The input files of kind `prefix` among the files of a chip, in sorted order.
pub fn inputs(files: &Vec<String>, prefix: &str) -> (r: Vec<String>)
    ensures
        forall|i: int| 0 <= i < r@.len() ==> is_input_name((#[trigger] r@[i])@, prefix@),
        forall|i: int| 0 <= i < r@.len() ==> files@.contains(#[trigger] r@[i]),
        forall|j: int|
            0 <= j < files@.len() && is_input_name((#[trigger] files@[j])@, prefix@) ==> r@.contains(
                files@[j],
            ),
        forall|i: int, j: int| 0 <= i < j < r@.len() ==> text_le(#[trigger] r@[i]@, #[trigger] r@[j]@),
        exists|perm: Seq<usize>|
            #![trigger perm.len()]
            crate::order::is_permutation(perm, input_files(files@, prefix@).len()) && r@.len() == perm.len() && forall|i: int|
                0 <= i < r@.len() ==> (#[trigger] r@[i]) == input_files(files@, prefix@)[perm[i] as int],
{
    let mut picked: Vec<String> = Vec::new();
    let mut i: usize = 0;
    while i < files.len()
        invariant
            i <= files@.len(),
            picked@ == files@.take(i as int).filter(|f: String| is_input_name(f@, prefix@)),
            forall|k: int| 0 <= k < picked@.len() ==> is_input_name((#[trigger] picked@[k])@, prefix@),
            forall|k: int| 0 <= k < picked@.len() ==> files@.contains(#[trigger] picked@[k]),
            forall|j: int|
                0 <= j < i && is_input_name((#[trigger] files@[j])@, prefix@) ==> picked@.contains(
                    files@[j],
                ),
        decreases files@.len() - i,
    {
        let ghost t1 = files@.take(i + 1);
        assert(t1.drop_last() == files@.take(i as int));
        assert(t1.last() == files@[i as int]);
        let ghost pred = |f: String| is_input_name(f@, prefix@);
        reveal_with_fuel(Seq::<_>::filter, 1);
        assert(t1.filter(pred) == if pred(t1.last()) { t1.drop_last().filter(pred).push(t1.last()) } else { t1.drop_last().filter(pred) });
        if is_input(&files[i], prefix) {
            let ghost old = picked@;
            picked.push(files[i].clone());
            proof {
                assert(picked@[picked@.len() - 1] == files@[i as int]);
                assert forall|j: int|
                    0 <= j < i + 1 && is_input_name((#[trigger] files@[j])@, prefix@) implies picked@.contains(
                        files@[j],
                    ) by {
                    if j < i {
                        assert(old.contains(files@[j]));
                        let q = choose|q: int| 0 <= q < old.len() && old[q] == files@[j];
                        assert(picked@[q] == files@[j]);
                    } else {
                        assert(picked@[picked@.len() - 1] == files@[j]);
                    }
                }
                assert forall|k: int| 0 <= k < picked@.len() implies files@.contains(#[trigger] picked@[k]) by {
                    if k < old.len() {
                        assert(picked@[k] == old[k]);
                    } else {
                        assert(files@[i as int] == picked@[k]);
                    }
                }
            }
        }
        i = i + 1;
    }
    assert(files@.take(files@.len() as int) == files@);
    let r = sorted(&picked);
    proof {
        let perm = choose|perm: Seq<usize>|
            #![trigger perm.len()]
            crate::order::is_permutation(perm, picked@.len()) && forall|i: int|
                0 <= i < r@.len() ==> (#[trigger] r@[i]) == picked@[perm[i] as int];
        assert(picked@ == input_files(files@, prefix@));
        assert forall|i: int| 0 <= i < r@.len() implies is_input_name((#[trigger] r@[i])@, prefix@) by {
            assert(r@[i] == picked@[perm[i] as int]);
        }
        assert forall|i: int| 0 <= i < r@.len() implies files@.contains(#[trigger] r@[i]) by {
            assert(r@[i] == picked@[perm[i] as int]);
        }
        assert forall|j: int|
            0 <= j < files@.len() && is_input_name((#[trigger] files@[j])@, prefix@) implies r@.contains(
                files@[j],
            ) by {
            let k = choose|k: int| 0 <= k < picked@.len() && picked@[k] == files@[j];
            assert(crate::order::lists(perm, k));
            let q = choose|q: int| 0 <= q < perm.len() && perm[q] == k;
            assert(r@[q] == files@[j]);
        }
    }
    r
}

/// What `str::trim_end_matches("_input")` leaves of a file name: every trailing
/// `_input` removed.
pub open spec fn channel_name(file: Seq<char>) -> Seq<char>
    decreases file.len(),
{
    if file.len() >= 6 && ends_with(file, input_suffix()) {
        channel_name(file.take(file.len() - 6))
    } else {
        file
    }
}

/// The channel an input file belongs to: `temp1` for `temp1_input`.
pub fn channel(file: &String) -> (c: String)
    ensures
        c@ == channel_name(file@),
{
    let f = chars_of(file.as_str());
    let suffix = vec!['_', 'i', 'n', 'p', 'u', 't'];
    let mut end = f.len();
    let mut cur = slice(&f, 0, end);
    assert(cur@ == f@);
    while has_suffix(&cur, &suffix)
        invariant
            end <= f@.len(),
            cur@ == f@.take(end as int),
            channel_name(f@) == channel_name(cur@),
            suffix@ == input_suffix(),
        decreases end,
    {
        end = end - 6;
        assert(cur@.take(cur@.len() - 6) == f@.take(end as int));
        cur = slice(&f, 0, end);
    }
    text_of(cur.as_slice())
}

/// The label of a channel: the chip's name followed by the channel's own label when
/// the chip publishes a non-empty one, and by the channel's name otherwise.
pub open spec fn channel_label_text(chip: Seq<char>, channel: Seq<char>, label: Option<String>) -> Seq<char> {
    match label {
        Some(l) => if file_text(l@).len() > 0 {
            chip + seq![' '] + file_text(l@)
        } else {
            chip + seq![' '] + channel
        },
        None => chip + seq![' '] + channel,
    }
}

pub fn channel_label(chip: &String, channel: &String, label: &Option<String>) -> (s: String)
    ensures
        s@ == channel_label_text(chip@, channel@, *label),
{
    let mut l = chars_of(chip.as_str());
    l.push(' ');
    let own = match label {
        Some(t) => {
            let v = trimmed_text(t);
            if v.len() > 0 {
                Some(v)
            } else {
                None
            }
        },
        None => None,
    };
    match own {
        Some(v) => append(&mut l, &v),
        None => {
            let c = chars_of(channel.as_str());
            append(&mut l, &c);
        },
    }
    text_of(l.as_slice())
}

/// A channel label followed by the model of the device the chip hangs off, when the
/// device publishes a non-empty one (`nvme Composite KINGSTON SNV2S1000G`).
pub open spec fn model_label_text(label: Seq<char>, model: Option<String>) -> Seq<char> {
    match model {
        Some(m) => if file_text(m@).len() > 0 {
            label + seq![' '] + file_text(m@)
        } else {
            label
        },
        None => label,
    }
}

pub fn with_model(label: &String, model: &Option<String>) -> (s: String)
    ensures
        s@ == model_label_text(label@, *model),
{
    match model {
        Some(m) => {
            let v = trimmed_text(m);
            if v.len() > 0 {
                let mut l = chars_of(label.as_str());
                l.push(' ');
                append(&mut l, &v);
                text_of(l.as_slice())
            } else {
                label.clone()
            }
        },
        None => label.clone(),
    }
}

/// The files of one channel, as read: `None` where a file could not be read.
pub struct ChannelFiles {
    pub input: Option<String>,
    pub label: Option<String>,
    pub min: Option<String>,
    pub max: Option<String>,
}

/// A scaled bound of a channel, from the file that holds it.
pub open spec fn bound_of(text: Option<String>, scale: nat, q: Option<Quantity>) -> bool {
    match scaled_float(text, scale) {
        Some(v) => q matches Some(b) && is_value(b, v),
        None => q is None,
    }
}

/// The reading of a channel: no reading unless its input holds a number; else one
/// labelled as `channel_label_text` says, valued at the input divided by `scale`
/// (1000 for millidegrees and millivolts), and bounded by `_min` and `_max` when they
/// hold numbers, divided the same way. Numbers are what `str::parse::<f32>` takes: decimal,
/// with a sign, a point and an exponent, kept exactly, or an infinity or `nan`; one whose
/// fraction does not fit in a `Quantity` is taken as no number.
pub open spec fn channel_matches(
    chip: Seq<char>,
    channel: Seq<char>,
    files: ChannelFiles,
    scale: nat,
    r: Option<Reading>,
) -> bool {
    match scaled_float(files.input, scale) {
        Some(v) => r matches Some(reading) && reading.label@ == channel_label_text(chip, channel, files.label)
            && is_value(reading.value, v) && bound_of(files.min, scale, reading.min) && bound_of(
            files.max,
            scale,
            reading.max,
        ) && reading.note is None,
        None => r is None,
    }
}

fn read_scaled(text: &Option<String>, scale: u64) -> (q: Option<Quantity>)
    requires
        scale > 0,
    ensures
        bound_of(*text, scale as nat, q),
{
    match read_float(text) {
        Some(v) => v.divided(scale),
        None => None,
    }
}

pub fn channel_reading(chip: &String, channel: &String, files: &ChannelFiles, scale: u64) -> (r: Option<Reading>)
    requires
        scale > 0,
    ensures
        channel_matches(chip@, channel@, *files, scale as nat, r),
{
    let value = match read_scaled(&files.input, scale) {
        Some(v) => v,
        None => return None,
    };
    let mut reading = Reading::new(channel_label(chip, channel, &files.label), value);
    reading.min = read_scaled(&files.min, scale);
    reading.max = read_scaled(&files.max, scale);
    Some(reading)
}

/// `hwmon`
pub open spec fn default_chip_name() -> Seq<char> {
    seq!['h', 'w', 'm', 'o', 'n']
}

/// The name of a chip: its `name` file, or `hwmon` when that cannot be read.
pub fn chip_name(text: &Option<String>) -> (s: String)
    ensures
        match *text {
            Some(t) => s@ == file_text(t@),
            None => s@ == default_chip_name(),
        },
{
    match read_text(text) {
        Some(s) => s,
        None => {
            let d = vec!['h', 'w', 'm', 'o', 'n'];
            text_of(d.as_slice())
        },
    }
}

/// One of the entries is a directory named `n`.
pub open spec fn dir_entry(entries: Seq<(String, bool)>, n: String) -> bool {
    exists|j: int| 0 <= j < entries.len() && entries[j].1 && entries[j].0 == n
}

/// The hwmon chip of a device: the first, in sorted order, of the entries of its
/// `hwmon` directory that are directories.
pub fn chip_dir(entries: &Vec<(String, bool)>) -> (r: Option<String>)
    ensures
        match r {
            Some(n) => dir_entry(entries@, n) && forall|j: int| 0 <= j < entries@.len() && (#[trigger] entries@[j]).1 ==> text_le(n@, entries@[j].0@),
            None => forall|j: int| 0 <= j < entries@.len() ==> !(#[trigger] entries@[j]).1,
        },
{
    let mut dirs: Vec<String> = Vec::new();
    let mut i: usize = 0;
    while i < entries.len()
        invariant
            i <= entries@.len(),
            forall|k: int| 0 <= k < dirs@.len() ==> dir_entry(entries@, #[trigger] dirs@[k]),
            forall|j: int| 0 <= j < i && (#[trigger] entries@[j]).1 ==> dirs@.contains(entries@[j].0),
        decreases entries@.len() - i,
    {
        if entries[i].1 {
            let ghost old = dirs@;
            dirs.push(entries[i].0.clone());
            proof {
                assert forall|j: int| 0 <= j < i + 1 && (#[trigger] entries@[j]).1 implies dirs@.contains(entries@[j].0) by {
                    if j < i {
                        let q = choose|q: int| 0 <= q < old.len() && old[q] == entries@[j].0;
                        assert(dirs@[q] == entries@[j].0);
                    } else {
                        assert(dirs@[old.len() as int] == entries@[j].0);
                    }
                }
                assert forall|k: int| 0 <= k < dirs@.len() implies dir_entry(entries@, #[trigger] dirs@[k]) by {
                    if k < old.len() {
                        assert(dirs@[k] == old[k]);
                    } else {
                        assert(entries@[i as int].0 == dirs@[k]);
                    }
                }
            }
        }
        i = i + 1;
    }
    if dirs.len() == 0 {
        proof {
            assert forall|j: int| 0 <= j < entries@.len() implies !(#[trigger] entries@[j]).1 by {
                if entries@[j].1 {
                    assert(dirs@.contains(entries@[j].0));
                }
            }
        }
        return None;
    }
    let s = sorted(&dirs);
    let first = s[0].clone();
    proof {
        let perm = choose|perm: Seq<usize>|
            #![trigger perm.len()]
            crate::order::is_permutation(perm, dirs@.len()) && forall|i: int|
                0 <= i < s@.len() ==> (#[trigger] s@[i]) == dirs@[perm[i] as int];
        assert(s@[0] == dirs@[perm[0] as int]);
        assert(dir_entry(entries@, dirs@[perm[0] as int]));
        assert forall|j: int| 0 <= j < entries@.len() && (#[trigger] entries@[j]).1 implies text_le(first@, entries@[j].0@) by {
            let k = choose|k: int| 0 <= k < dirs@.len() && dirs@[k] == entries@[j].0;
            assert(crate::order::lists(perm, k));
            let q = choose|q: int| 0 <= q < perm.len() && perm[q] == k;
            assert(s@[q] == entries@[j].0);
            if q > 0 {
                assert(text_le(s@[0]@, s@[q]@));
            } else {
                crate::order::lemma_text_lt_irreflexive(first@);
            }
        }
    }
    Some(first)
}

} // verus!
