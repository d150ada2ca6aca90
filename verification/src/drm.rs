//! GPUs under `/sys/class/drm`: which entries are cards, how a card is labelled, and
//! the top DPM clock state a card publishes.
use vstd::prelude::*;
use crate::number::{decimal_fraction, parse_decimal};
use crate::order::text_le;
use crate::reading::{is_less, Quantity};
use crate::sysfs::{file_text, fitting, is_value, sorted, trimmed_text};
use crate::text::{
    all_digits, is_digit, ascii_lower, lower_ascii_char, chars_of, text_of, append, slice, tokens,
    token_spans, lines, line_spans,
};

verus! {

/// A DRM entry that is a card node: `card` followed by one or more digits, which
/// leaves out connectors such as `card0-eDP-1`.
pub open spec fn is_card_name(name: Seq<char>) -> bool {
    name.len() > 4 && name[0] == 'c' && name[1] == 'a' && name[2] == 'r' && name[3] == 'd'
        && all_digits(name.skip(4))
}

pub fn is_card(name: &String) -> (b: bool)
    ensures
        b == is_card_name(name@),
{
    let n = chars_of(name.as_str());
    if !(n.len() > 4 && n[0] == 'c' && n[1] == 'a' && n[2] == 'r' && n[3] == 'd') {
        return false;
    }
    let mut k: usize = 4;
    while k < n.len()
        invariant
            4 <= k <= n@.len(),
            n@ == name@,
            forall|j: int| 4 <= j < k ==> is_digit(#[trigger] n@[j]),
        decreases n@.len() - k,
    {
        if !('0' <= n[k] && n[k] <= '9') {
            assert(!is_digit(n@.skip(4)[k - 4]));
            return false;
        }
        k = k + 1;
    }
    assert forall|j: int| 0 <= j < n@.skip(4).len() implies #[trigger] is_digit(n@.skip(4)[j]) by {
        assert(n@.skip(4)[j] == n@[j + 4]);
    }
    true
}

/// The entries that are card nodes, in the order they came.
pub open spec fn card_entries(entries: Seq<String>) -> Seq<String> {
    entries.filter(|e: String| is_card_name(e@))
}

/// The card nodes among the entries of `/sys/class/drm`, in sorted order.
pub fn cards(entries: &Vec<String>) -> (r: Vec<String>)
    ensures
        forall|i: int| 0 <= i < r@.len() ==> is_card_name((#[trigger] r@[i])@),
        forall|i: int| 0 <= i < r@.len() ==> entries@.contains(#[trigger] r@[i]),
        forall|j: int|
            0 <= j < entries@.len() && is_card_name((#[trigger] entries@[j])@) ==> r@.contains(
                entries@[j],
            ),
        forall|i: int, j: int| 0 <= i < j < r@.len() ==> text_le(#[trigger] r@[i]@, #[trigger] r@[j]@),
        exists|perm: Seq<usize>|
            #![trigger perm.len()]
            crate::order::is_permutation(perm, card_entries(entries@).len()) && r@.len() == perm.len() && forall|i: int|
                0 <= i < r@.len() ==> (#[trigger] r@[i]) == card_entries(entries@)[perm[i] as int],
{
    let mut picked: Vec<String> = Vec::new();
    let mut i: usize = 0;
    while i < entries.len()
        invariant
            i <= entries@.len(),
            picked@ == entries@.take(i as int).filter(|e: String| is_card_name(e@)),
            forall|k: int| 0 <= k < picked@.len() ==> is_card_name((#[trigger] picked@[k])@),
            forall|k: int| 0 <= k < picked@.len() ==> entries@.contains(#[trigger] picked@[k]),
            forall|j: int|
                0 <= j < i && is_card_name((#[trigger] entries@[j])@) ==> picked@.contains(entries@[j]),
        decreases entries@.len() - i,
    {
        let ghost t1 = entries@.take(i + 1);
        assert(t1.drop_last() == entries@.take(i as int));
        assert(t1.last() == entries@[i as int]);
        let ghost pred = |e: String| is_card_name(e@);
        reveal_with_fuel(Seq::<_>::filter, 1);
        assert(t1.filter(pred) == if pred(t1.last()) { t1.drop_last().filter(pred).push(t1.last()) } else { t1.drop_last().filter(pred) });
        if is_card(&entries[i]) {
            let ghost old = picked@;
            picked.push(entries[i].clone());
            proof {
                assert forall|j: int|
                    0 <= j < i + 1 && is_card_name((#[trigger] entries@[j])@) implies picked@.contains(
                        entries@[j],
                    ) by {
                    if j < i {
                        let q = choose|q: int| 0 <= q < old.len() && old[q] == entries@[j];
                        assert(picked@[q] == entries@[j]);
                    } else {
                        assert(picked@[picked@.len() - 1] == entries@[j]);
                    }
                }
                assert forall|k: int| 0 <= k < picked@.len() implies entries@.contains(#[trigger] picked@[k]) by {
                    if k < old.len() {
                        assert(picked@[k] == old[k]);
                    } else {
                        assert(entries@[i as int] == picked@[k]);
                    }
                }
            }
        }
        i = i + 1;
    }
    assert(entries@.take(entries@.len() as int) == entries@);
    let r = sorted(&picked);
    proof {
        let perm = choose|perm: Seq<usize>|
            #![trigger perm.len()]
            crate::order::is_permutation(perm, picked@.len()) && forall|i: int|
                0 <= i < r@.len() ==> (#[trigger] r@[i]) == picked@[perm[i] as int];
        assert(picked@ == card_entries(entries@));
        assert forall|i: int| 0 <= i < r@.len() implies is_card_name((#[trigger] r@[i])@) by {
            assert(r@[i] == picked@[perm[i] as int]);
        }
        assert forall|i: int| 0 <= i < r@.len() implies entries@.contains(#[trigger] r@[i]) by {
            assert(r@[i] == picked@[perm[i] as int]);
        }
        assert forall|j: int|
            0 <= j < entries@.len() && is_card_name((#[trigger] entries@[j])@) implies r@.contains(
                entries@[j],
            ) by {
            let k = choose|k: int| 0 <= k < picked@.len() && picked@[k] == entries@[j];
            assert(crate::order::lists(perm, k));
            let q = choose|q: int| 0 <= q < perm.len() && perm[q] == k;
            assert(r@[q] == entries@[j]);
        }
    }
    r
}

/// `DRIVER=`
pub open spec fn driver_mark() -> Seq<char> {
    seq!['D', 'R', 'I', 'V', 'E', 'R', '=']
}

/// Index of the first of the lines `ls[i..]` that begins with `DRIVER=`.
pub open spec fn driver_line(s: Seq<char>, ls: Seq<(int, int)>, i: int) -> Option<int>
    decreases ls.len() - i,
{
    if i < 0 || i >= ls.len() {
        None
    } else if crate::hwmon::starts_with(s.subrange(ls[i].0, ls[i].1), driver_mark()) {
        Some(i)
    } else {
        driver_line(s, ls, i + 1)
    }
}

/// The driver a card's `device/uevent` names: what follows `DRIVER=` on the first line
/// that begins with it.
pub open spec fn driver_of(uevent: Option<String>) -> Option<Seq<char>> {
    match uevent {
        None => None,
        Some(u) => {
            let s = file_text(u@);
            let ls = line_spans(s, 0, s.len() as int);
            match driver_line(s, ls, 0) {
                None => None,
                Some(j) => Some(s.subrange(ls[j].0 + 7, ls[j].1)),
            }
        },
    }
}

pub fn driver(uevent: &Option<String>) -> (r: Option<String>)
    ensures
        match driver_of(*uevent) {
            Some(d) => r matches Some(s) && s@ == d,
            None => r is None,
        },
{
    let u = match uevent {
        Some(u) => u,
        None => return None,
    };
    let s = trimmed_text(u);
    let ls = lines(&s);
    let ghost sp = line_spans(s@, 0, s@.len() as int);
    let mark = vec!['D', 'R', 'I', 'V', 'E', 'R', '='];
    let mut i: usize = 0;
    while i < ls.len()
        invariant
            i <= ls@.len() == sp.len(),
            sp == line_spans(s@, 0, s@.len() as int),
            s@ == file_text(u@),
            *uevent == Some(*u),
            mark@ == driver_mark(),
            forall|j: int|
                0 <= j < ls@.len() ==> (#[trigger] ls@[j]).0 as int == sp[j].0 && ls@[j].1 as int
                    == sp[j].1,
            forall|j: int| 0 <= j < ls@.len() ==> (#[trigger] ls@[j]).0 <= ls@[j].1 <= s@.len(),
            driver_line(s@, sp, 0) == driver_line(s@, sp, i as int),
        decreases ls@.len() - i,
    {
        let (a, b) = ls[i];
        let line = slice(&s, a, b);
        if crate::hwmon::has_prefix(&line, &mark) {
            assert(line@ == s@.subrange(sp[i as int].0, sp[i as int].1));
            assert(driver_line(s@, sp, i as int) == Some(i as int));
            let d = slice(&s, a + 7, b);
            assert(d@ == s@.subrange(sp[i as int].0 + 7, sp[i as int].1));
            assert(*uevent == Some(*u));
            assert(driver_of(*uevent) == Some(d@));
            return Some(text_of(d.as_slice()));
        }
        i = i + 1;
    }
    None
}

/// The label of a card's usage tile: its node, then its driver when the card names one.
pub open spec fn usage_label_text(node: Seq<char>, driver: Option<Seq<char>>) -> Seq<char> {
    match driver {
        Some(d) => node + seq![' '] + d,
        None => node,
    }
}

pub fn usage_label(node: &String, uevent: &Option<String>) -> (s: String)
    ensures
        s@ == usage_label_text(node@, driver_of(*uevent)),
{
    match driver(uevent) {
        Some(d) => {
            let mut l = chars_of(node.as_str());
            l.push(' ');
            let dc = chars_of(d.as_str());
            append(&mut l, &dc);
            text_of(l.as_slice())
        },
        None => node.clone(),
    }
}

/// A token that ends in `mhz`, in any case.
pub open spec fn ends_mhz(t: Seq<char>) -> bool {
    t.len() >= 3 && ascii_lower(t[t.len() - 3]) == 'm' && ascii_lower(t[t.len() - 2]) == 'h'
        && ascii_lower(t[t.len() - 1]) == 'z'
}

/// Index of the first of the tokens `toks[i..]` of `s` that ends in `mhz`.
pub open spec fn mhz_token(s: Seq<char>, toks: Seq<(int, int)>, i: int) -> Option<int>
    decreases toks.len() - i,
{
    if i < 0 || i >= toks.len() {
        None
    } else if ends_mhz(s.subrange(toks[i].0, toks[i].1)) {
        Some(i)
    } else {
        mhz_token(s, toks, i + 1)
    }
}

/// The clock in MHz a line of a `pp_dpm_*` table states: the number in front of the
/// first word ending in `mhz`, as the exact fraction its decimal writing gives, when it is
/// a number that fits in a `Quantity`.
pub open spec fn line_clock(s: Seq<char>, lo: int, hi: int) -> Option<(int, nat)> {
    let toks = token_spans(s, lo, hi);
    match mhz_token(s, toks, 0) {
        None => None,
        Some(j) => fitting(decimal_fraction(s.subrange(toks[j].0, toks[j].1 - 3))),
    }
}

/// `x` is below `y`, both fractions with a positive denominator.
pub open spec fn below(x: (int, nat), y: (int, nat)) -> bool {
    x.0 * y.1 < y.0 * x.1
}

/// The highest clock stated by the lines `ls[..upto]` of the table; of equal clocks, the
/// one stated last.
pub open spec fn top_clock(s: Seq<char>, ls: Seq<(int, int)>, upto: int) -> Option<(int, nat)>
    decreases upto,
{
    if upto <= 0 {
        None
    } else {
        let best = top_clock(s, ls, upto - 1);
        match line_clock(s, ls[upto - 1].0, ls[upto - 1].1) {
            Some(v) => match best {
                Some(b) => Some(if below(v, b) {
                    b
                } else {
                    v
                }),
                None => Some(v),
            },
            None => best,
        }
    }
}

/// The top DPM state of a card, in MHz: the highest clock its `pp_dpm_*` table states,
/// whichever state is current; nothing when the table states none.
pub open spec fn top_state_of(table: Option<String>) -> Option<(int, nat)> {
    match table {
        None => None,
        Some(t) => {
            let s = file_text(t@);
            let ls = line_spans(s, 0, s.len() as int);
            top_clock(s, ls, ls.len() as int)
        },
    }
}

fn clock_of_line(s: &Vec<char>, a: usize, b: usize) -> (r: Option<Quantity>)
    requires
        a <= b <= s@.len(),
    ensures
        match line_clock(s@, a as int, b as int) {
            Some(v) => r matches Some(q) && is_value(q, v),
            None => r is None,
        },
        r matches Some(q) ==> q.den >= 1,
{
    let toks = tokens(s, a, b);
    let ghost ts = token_spans(s@, a as int, b as int);
    let mut j: usize = 0;
    while j < toks.len()
        invariant
            j <= toks@.len() == ts.len(),
            ts == token_spans(s@, a as int, b as int),
            a <= b <= s@.len(),
            forall|k: int|
                0 <= k < toks@.len() ==> (#[trigger] toks@[k]).0 as int == ts[k].0 && toks@[k].1 as int
                    == ts[k].1,
            forall|k: int| 0 <= k < toks@.len() ==> a <= (#[trigger] toks@[k]).0 < toks@[k].1 <= b,
            mhz_token(s@, ts, 0) == mhz_token(s@, ts, j as int),
        decreases toks@.len() - j,
    {
        let (x, y) = toks[j];
        assert(s@.subrange(x as int, y as int) == s@.subrange(ts[j as int].0, ts[j as int].1));
        if y - x >= 3 && lower_ascii_char(s[y - 3]) == 'm' && lower_ascii_char(s[y - 2]) == 'h'
            && lower_ascii_char(s[y - 1]) == 'z' {
            let t = slice(s, x, y - 3);
            return parse_decimal(&t);
        }
        j = j + 1;
    }
    None
}

/// The top DPM state a card's `pp_dpm_*` table states, in MHz.
pub fn top_state(table: &Option<String>) -> (r: Option<Quantity>)
    ensures
        match top_state_of(*table) {
            Some(v) => r matches Some(q) && is_value(q, v),
            None => r is None,
        },
{
    let t = match table {
        Some(t) => t,
        None => return None,
    };
    let s = trimmed_text(t);
    let ls = lines(&s);
    let ghost sp = line_spans(s@, 0, s@.len() as int);
    let mut best: Option<Quantity> = None;
    let mut i: usize = 0;
    while i < ls.len()
        invariant
            i <= ls@.len() == sp.len(),
            sp == line_spans(s@, 0, s@.len() as int),
            forall|j: int|
                0 <= j < ls@.len() ==> (#[trigger] ls@[j]).0 as int == sp[j].0 && ls@[j].1 as int
                    == sp[j].1,
            forall|j: int| 0 <= j < ls@.len() ==> (#[trigger] ls@[j]).0 <= ls@[j].1 <= s@.len(),
            match top_clock(s@, sp, i as int) {
                Some(v) => best matches Some(q) && is_value(q, v) && q.den >= 1,
                None => best is None,
            },
        decreases ls@.len() - i,
    {
        let (a, b) = ls[i];
        match clock_of_line(&s, a, b) {
            Some(v) => {
                best = match best {
                    Some(b) => Some(if is_less(v, b) {
                        b
                    } else {
                        v
                    }),
                    None => Some(v),
                };
            },
            None => {},
        }
        i = i + 1;
    }
    best
}

/// The clock domain of a clock reading: the last word of its label (`sclk` in `card1 sclk`).
pub open spec fn last_word(label: Seq<char>) -> Seq<char> {
    if exists|i: int| 0 <= i < label.len() && label[i] == ' ' {
        let i = choose|i: int|
            0 <= i < label.len() && label[i] == ' ' && forall|k: int| i < k < label.len() ==> label[k] != ' ';
        label.skip(i + 1)
    } else {
        label
    }
}

/// `device/pp_dpm_`
pub open spec fn dpm_prefix() -> Seq<char> {
    seq!['d', 'e', 'v', 'i', 'c', 'e', '/', 'p', 'p', '_', 'd', 'p', 'm', '_']
}

/// The DPM table of a clock reading's domain, relative to its card:
/// `device/pp_dpm_` followed by the last word of the label.
pub fn dpm_table(label: &String) -> (p: String)
    ensures
        p@ == dpm_prefix() + last_word(label@),
{
    let l = chars_of(label.as_str());
    let mut i = l.len();
    while i > 0 && l[i - 1] != ' '
        invariant
            i <= l@.len(),
            forall|k: int| i <= k < l@.len() ==> l@[k] != ' ',
        decreases i,
    {
        i = i - 1;
    }
    let word = slice(&l, i, l.len());
    proof {
        if i > 0 {
            let w = choose|w: int|
                0 <= w < l@.len() && l@[w] == ' ' && forall|k: int| w < k < l@.len() ==> l@[k] != ' ';
            assert(0 <= w < l@.len() && l@[w] == ' ' && forall|k: int| w < k < l@.len() ==> l@[k] != ' ');
            if w < i - 1 {
                assert(l@[i - 1] != ' ');
            } else if w > i - 1 {
                assert(l@[w] != ' ');
            }
            assert(word@ == l@.skip(i as int));
        } else {
            assert forall|k: int| 0 <= k < l@.len() implies l@[k] != ' ' by {}
            assert(word@ == l@);
        }
    }
    let mut p: Vec<char> = vec!['d', 'e', 'v', 'i', 'c', 'e', '/', 'p', 'p', '_', 'd', 'p', 'm', '_'];
    append(&mut p, &word);
    text_of(p.as_slice())
}

} // verus!
