//! What the sysfs files read as: text without its surrounding whitespace, and
//! the decimal numbers they hold; and where a `/sys/class` directory lives.
use vstd::prelude::*;
use crate::number::{parse_decimal, parse_float, decimal_fraction, float_fraction, fits};
use crate::reading::{divided, Quantity};
use crate::order::{sorted_order, is_permutation, sorted_stably, key_of, text_le};
use crate::text::{chars_of, text_of, trim_span, trimmed, slice, append};

verus! {

/// `/sys/class/`
pub open spec fn class_root() -> Seq<char> {
    seq!['/', 's', 'y', 's', '/', 'c', 'l', 'a', 's', 's', '/']
}

/// The path of `/sys/class/<name>`; a name that is itself an absolute path stands for itself.
pub open spec fn class_path_of(name: Seq<char>) -> Seq<char> {
    if name.len() > 0 && name[0] == '/' {
        name
    } else {
        class_root() + name
    }
}

pub fn class_path(name: &str) -> (p: String)
    ensures
        p@ == class_path_of(name@),
{
    let n = chars_of(name);
    if n.len() > 0 && n[0] == '/' {
        return text_of(n.as_slice());
    }
    let mut p: Vec<char> = vec!['/', 's', 'y', 's', '/', 'c', 'l', 'a', 's', 's', '/'];
    append(&mut p, &n);
    text_of(p.as_slice())
}

/// The directory `/sys/class/<name>`, when `is_dir` says that path is a directory:
/// a kernel without the class yields nothing rather than a path that is not there.
pub fn class_dir(name: &str, is_dir: bool) -> (r: Option<String>)
    ensures
        is_dir ==> (r matches Some(p) && p@ == class_path_of(name@)),
        !is_dir ==> r is None,
{
    if is_dir {
        Some(class_path(name))
    } else {
        None
    }
}

/// The text a sysfs file holds, surrounding whitespace aside.
pub open spec fn file_text(t: Seq<char>) -> Seq<char> {
    let (a, b) = trimmed(t, 0, t.len() as int);
    t.subrange(a, b)
}

/// Reads the text of a sysfs file without its surrounding whitespace.
pub fn trimmed_text(t: &String) -> (r: Vec<char>)
    ensures
        r@ == file_text(t@),
{
    let s = chars_of(t.as_str());
    let (a, b) = trim_span(&s, 0, s.len());
    slice(&s, a, b)
}

/// The text of a file that could be read, surrounding whitespace aside.
pub fn read_text(text: &Option<String>) -> (r: Option<String>)
    ensures
        match *text {
            Some(t) => r matches Some(s) && s@ == file_text(t@),
            None => r is None,
        },
{
    match text {
        Some(t) => {
            let v = trimmed_text(t);
            Some(text_of(v.as_slice()))
        },
        None => None,
    }
}

/// A fraction, when it fits in a `Quantity`.
pub open spec fn fitting(v: Option<(int, nat)>) -> Option<(int, nat)> {
    match v {
        Some(f) => if fits(f) {
            Some(f)
        } else {
            None
        },
        None => None,
    }
}

/// The number a sysfs file holds, surrounding whitespace aside, as the exact fraction
/// its decimal writing gives, when it fits in a `Quantity`.
pub open spec fn file_value(text: Option<String>) -> Option<(int, nat)> {
    match text {
        None => None,
        Some(t) => fitting(decimal_fraction(file_text(t@))),
    }
}

/// What a file holding a figure in units of `1 / scale` reads as: the number it holds,
/// divided by `scale`, when that fits in a `Quantity`.
pub open spec fn scaled_value(text: Option<String>, scale: nat) -> Option<(int, nat)> {
    match file_value(text) {
        Some(v) => divided(v.0, v.1, scale),
        None => None,
    }
}

/// The fraction a file holds has a denominator of at least one.
pub proof fn lemma_value_den(text: Option<String>, scale: nat)
    requires
        scale >= 1,
    ensures
        file_value(text) matches Some(v) ==> v.1 >= 1,
        scaled_value(text, scale) matches Some(v) ==> v.1 >= 1,
{
    match text {
        Some(t) => {
            crate::number::lemma_fraction_den(file_text(t@));
            match file_value(text) {
                Some(v) => {
                    assert(v.1 * scale >= 1) by (nonlinear_arith)
                        requires
                            v.1 >= 1,
                            scale >= 1,
                    ;
                },
                None => {},
            }
        },
        None => {},
    }
}

/// A figure read as `v`.
pub open spec fn is_value(q: Quantity, v: (int, nat)) -> bool {
    q.num == v.0 && q.den == v.1
}

/// Reads the number a sysfs file holds: a decimal number, with a sign, a point and an
/// exponent as `str::parse::<f64>` takes them, kept as an exact fraction.
pub fn read_number(text: &Option<String>) -> (r: Option<Quantity>)
    ensures
        match file_value(*text) {
            Some(v) => r matches Some(q) && is_value(q, v),
            None => r is None,
        },
        r matches Some(q) ==> q.den >= 1,
{
    match text {
        None => None,
        Some(t) => {
            let s = trimmed_text(t);
            parse_decimal(&s)
        },
    }
}

/// The number a sysfs file holds as `str::parse::<f32>` reads it, surrounding whitespace
/// aside: a decimal number as its exact fraction, an infinity as one over zero with its
/// sign, and `nan` as zero over zero; when it fits in a `Quantity`.
pub open spec fn file_float(text: Option<String>) -> Option<(int, nat)> {
    match text {
        None => None,
        Some(t) => fitting(float_fraction(file_text(t@))),
    }
}

/// What a file holding a float in units of `1 / scale` reads as: the float divided by
/// `scale`, when that fits in a `Quantity`. An infinity or `nan` stays what it is.
pub open spec fn scaled_float(text: Option<String>, scale: nat) -> Option<(int, nat)> {
    match file_float(text) {
        Some(v) => divided(v.0, v.1, scale),
        None => None,
    }
}

/// Reads the float a sysfs file holds, as `str::parse::<f32>` takes one, kept exactly.
pub fn read_float(text: &Option<String>) -> (r: Option<Quantity>)
    ensures
        match file_float(*text) {
            Some(v) => r matches Some(q) && is_value(q, v),
            None => r is None,
        },
{
    match text {
        None => None,
        Some(t) => {
            let s = trimmed_text(t);
            parse_float(&s)
        },
    }
}

/// `names` in sorted order, the order of directory entries once sorted by path.
pub fn sorted(names: &Vec<String>) -> (r: Vec<String>)
    ensures
        r@.len() == names@.len(),
        exists|perm: Seq<usize>|
            #![trigger perm.len()]
            is_permutation(perm, names@.len()) && forall|i: int|
                0 <= i < r@.len() ==> (#[trigger] r@[i]) == names@[perm[i] as int],
        forall|i: int, j: int|
            0 <= i < j < r@.len() ==> text_le(#[trigger] r@[i]@, #[trigger] r@[j]@),
{
    let mut keys: Vec<(Vec<char>, Vec<char>)> = Vec::new();
    let mut i: usize = 0;
    while i < names.len()
        invariant
            i <= names@.len(),
            keys@.len() == i,
            forall|k: int| 0 <= k < i ==> #[trigger] key_of(keys@, k) == (names@[k]@, Seq::<char>::empty()),
        decreases names@.len() - i,
    {
        let e: Vec<char> = Vec::new();
        assert(e@ =~= Seq::<char>::empty());
        let ghost old = keys@;
        keys.push((chars_of(names[i].as_str()), e));
        assert forall|k: int| 0 <= k < i implies #[trigger] key_of(keys@, k) == (names@[k]@, Seq::<char>::empty()) by {
            assert(keys@[k] == old[k]);
            assert(key_of(old, k) == (names@[k]@, Seq::<char>::empty()));
        }
        assert(key_of(keys@, i as int) == (names@[i as int]@, Seq::<char>::empty()));
        i = i + 1;
    }
    let perm = sorted_order(&keys);
    let mut r: Vec<String> = Vec::new();
    let mut k: usize = 0;
    while k < perm.len()
        invariant
            k <= perm@.len() == names@.len() == keys@.len(),
            is_permutation(perm@, names@.len()),
            r@.len() == k,
            forall|q: int| 0 <= q < k ==> (#[trigger] r@[q]) == names@[perm@[q] as int],
        decreases perm@.len() - k,
    {
        r.push(names[perm[k]].clone());
        k = k + 1;
    }
    proof {
        crate::order::lemma_pair_facts();
        assert forall|i: int, j: int| 0 <= i < j < r@.len() implies text_le(
            #[trigger] r@[i]@,
            #[trigger] r@[j]@,
        ) by {
            let ki = key_of(keys@, perm@[i] as int);
            let kj = key_of(keys@, perm@[j] as int);
            assert(crate::order::pair_le(ki, kj));
            crate::order::lemma_text_lt_irreflexive(ki.1);
        }
    }
    r
}

} // verus!
