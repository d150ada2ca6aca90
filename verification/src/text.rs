//! Character-level text handling shared by every parser: whitespace, lines,
//! tokens, decimal numbers and the conversions between `str`, `Vec<char>` and `String`.
use vstd::prelude::*;

verus! {

/// Unicode `White_Space`, which is what `char::is_whitespace` tests.
pub open spec fn is_space(c: char) -> bool {
    let u = c as u32;
    ||| 0x09 <= u <= 0x0d
    ||| u == 0x20
    ||| u == 0x85
    ||| u == 0xa0
    ||| u == 0x1680
    ||| 0x2000 <= u <= 0x200a
    ||| u == 0x2028
    ||| u == 0x2029
    ||| u == 0x202f
    ||| u == 0x205f
    ||| u == 0x3000
}

pub fn char_is_space(c: char) -> (b: bool)
    ensures
        b == is_space(c),
{
    let u = c as u32;
    (0x09 <= u && u <= 0x0d) || u == 0x20 || u == 0x85 || u == 0xa0 || u == 0x1680 || (0x2000
        <= u && u <= 0x200a) || u == 0x2028 || u == 0x2029 || u == 0x202f || u == 0x205f || u
        == 0x3000
}

pub open spec fn is_digit(c: char) -> bool {
    '0' <= c && c <= '9'
}

pub open spec fn digit_value(c: char) -> nat {
    (c as u32 - '0' as u32) as nat
}

pub open spec fn all_digits(s: Seq<char>) -> bool {
    forall|i: int| 0 <= i < s.len() ==> #[trigger] is_digit(s[i])
}

/// The number written by a run of decimal digits.
pub open spec fn decimal_value(s: Seq<char>) -> nat
    decreases s.len(),
{
    if s.len() == 0 {
        0
    } else {
        decimal_value(s.drop_last()) * 10 + digit_value(s.last())
    }
}

/// The characters of `s`, one per element.
pub fn chars_of(s: &str) -> (v: Vec<char>)
    ensures
        v@ == s@,
{
    let mut v: Vec<char> = Vec::new();
    for c in it: s.chars()
        invariant
            v@ == it.seq().take(it.index() as int),
            it.seq() == s@,
    {
        v.push(c);
        assert(v@ == it.seq().take(it.index() + 1));
    }
    assert(v@ == s@);
    v
}

/// `String` collected from the given characters (the `FromIterator<&char>` impl of `String`).
#[verifier::external_body]
pub fn text_of(v: &[char]) -> (s: String)
    ensures
        s@ == v@,
{
    v.iter().collect()
}

/// Index of the first character in `[lo, hi)` that is not whitespace, or `hi`.
pub open spec fn skip_space(s: Seq<char>, lo: int, hi: int) -> int
    decreases hi - lo,
{
    if lo < hi && is_space(s[lo]) {
        skip_space(s, lo + 1, hi)
    } else {
        lo
    }
}

/// One past the last character in `[lo, hi)` that is not whitespace, or `lo`.
pub open spec fn skip_space_back(s: Seq<char>, lo: int, hi: int) -> int
    decreases hi - lo,
{
    if lo < hi && is_space(s[hi - 1]) {
        skip_space_back(s, lo, hi - 1)
    } else {
        hi
    }
}

/// Index of the first whitespace character in `[lo, hi)`, or `hi`.
pub open spec fn token_end(s: Seq<char>, lo: int, hi: int) -> int
    decreases hi - lo,
{
    if lo < hi && !is_space(s[lo]) {
        token_end(s, lo + 1, hi)
    } else {
        lo
    }
}

/// What `str::trim` leaves of `s[lo..hi]`, as a span.
pub open spec fn trimmed(s: Seq<char>, lo: int, hi: int) -> (int, int) {
    let a = skip_space(s, lo, hi);
    (a, skip_space_back(s, a, hi))
}

/// The whitespace-separated tokens of `s[lo..hi]`, as spans, in the order
/// `str::split_whitespace` yields them.
pub open spec fn token_spans(s: Seq<char>, lo: int, hi: int) -> Seq<(int, int)>
    decreases hi - lo,
{
    if lo >= hi {
        seq![]
    } else if is_space(s[lo]) {
        token_spans(s, lo + 1, hi)
    } else {
        let e = token_end(s, lo, hi);
        if e <= lo || e > hi {
            seq![]
        } else {
            seq![(lo, e)] + token_spans(s, e, hi)
        }
    }
}

pub proof fn lemma_skip_space_bounds(s: Seq<char>, lo: int, hi: int)
    requires
        lo <= hi,
    ensures
        lo <= skip_space(s, lo, hi) <= hi,
        forall|k: int| lo <= k < skip_space(s, lo, hi) ==> is_space(#[trigger] s[k]),
        skip_space(s, lo, hi) < hi ==> !is_space(s[skip_space(s, lo, hi)]),
    decreases hi - lo,
{
    if lo < hi && is_space(s[lo]) {
        lemma_skip_space_bounds(s, lo + 1, hi);
    }
}

pub proof fn lemma_skip_space_back_bounds(s: Seq<char>, lo: int, hi: int)
    requires
        lo <= hi,
    ensures
        lo <= skip_space_back(s, lo, hi) <= hi,
        forall|k: int| skip_space_back(s, lo, hi) <= k < hi ==> is_space(#[trigger] s[k]),
        lo < skip_space_back(s, lo, hi) ==> !is_space(s[skip_space_back(s, lo, hi) - 1]),
    decreases hi - lo,
{
    if lo < hi && is_space(s[hi - 1]) {
        lemma_skip_space_back_bounds(s, lo, hi - 1);
    }
}

pub proof fn lemma_token_end_bounds(s: Seq<char>, lo: int, hi: int)
    requires
        lo <= hi,
    ensures
        lo <= token_end(s, lo, hi) <= hi,
        forall|k: int| lo <= k < token_end(s, lo, hi) ==> !is_space(#[trigger] s[k]),
        token_end(s, lo, hi) < hi ==> is_space(s[token_end(s, lo, hi)]),
    decreases hi - lo,
{
    if lo < hi && !is_space(s[lo]) {
        lemma_token_end_bounds(s, lo + 1, hi);
    }
}

/// The span of `s[lo..hi]` with leading and trailing whitespace removed.
pub fn trim_span(s: &Vec<char>, lo: usize, hi: usize) -> (r: (usize, usize))
    requires
        lo <= hi <= s@.len(),
    ensures
        r.0 as int == trimmed(s@, lo as int, hi as int).0,
        r.1 as int == trimmed(s@, lo as int, hi as int).1,
        lo <= r.0 <= r.1 <= hi,
{
    let mut a = lo;
    while a < hi && char_is_space(s[a])
        invariant
            lo <= a <= hi <= s@.len(),
            skip_space(s@, lo as int, hi as int) == skip_space(s@, a as int, hi as int),
        decreases hi - a,
    {
        a = a + 1;
    }
    let mut b = hi;
    while a < b && char_is_space(s[b - 1])
        invariant
            lo <= a <= b <= hi <= s@.len(),
            skip_space_back(s@, a as int, hi as int) == skip_space_back(s@, a as int, b as int),
        decreases b - a,
    {
        b = b - 1;
    }
    (a, b)
}

/// Spans of the whitespace-separated tokens of `s[lo..hi]`.
pub fn tokens(s: &Vec<char>, lo: usize, hi: usize) -> (r: Vec<(usize, usize)>)
    requires
        lo <= hi <= s@.len(),
    ensures
        r@.len() == token_spans(s@, lo as int, hi as int).len(),
        forall|k: int|
            0 <= k < r@.len() ==> (#[trigger] r@[k]).0 as int == token_spans(
                s@,
                lo as int,
                hi as int,
            )[k].0 && r@[k].1 as int == token_spans(s@, lo as int, hi as int)[k].1,
        forall|k: int| 0 <= k < r@.len() ==> lo <= (#[trigger] r@[k]).0 < r@[k].1 <= hi,
{
    let mut r: Vec<(usize, usize)> = Vec::new();
    let mut i = lo;
    let ghost whole = token_spans(s@, lo as int, hi as int);
    while i < hi
        invariant
            lo <= i <= hi <= s@.len(),
            whole == token_spans(s@, lo as int, hi as int),
            whole.len() == r@.len() + token_spans(s@, i as int, hi as int).len(),
            forall|k: int|
                0 <= k < r@.len() ==> (#[trigger] r@[k]).0 as int == whole[k].0 && r@[k].1 as int
                    == whole[k].1,
            forall|k: int|
                0 <= k < token_spans(s@, i as int, hi as int).len() ==> #[trigger] token_spans(
                    s@,
                    i as int,
                    hi as int,
                )[k] == whole[r@.len() + k],
            forall|k: int| 0 <= k < r@.len() ==> lo <= (#[trigger] r@[k]).0 < r@[k].1 <= i,
        decreases hi - i,
    {
        if char_is_space(s[i]) {
            i = i + 1;
        } else {
            let start = i;
            let mut e = i;
            while e < hi && !char_is_space(s[e])
                invariant
                    start <= e <= hi <= s@.len(),
                    token_end(s@, start as int, hi as int) == token_end(s@, e as int, hi as int),
                decreases hi - e,
            {
                e = e + 1;
            }
            proof {
                lemma_token_end_bounds(s@, start as int, hi as int);
                let rest = token_spans(s@, e as int, hi as int);
                assert(token_spans(s@, start as int, hi as int) == seq![(start as int, e as int)]
                    + rest);
                assert forall|k: int| 0 <= k < rest.len() implies #[trigger] rest[k] == whole[r@.len()
                    + 1 + k] by {
                    assert(token_spans(s@, start as int, hi as int)[k + 1] == rest[k]);
                }
                assert(token_spans(s@, start as int, hi as int)[0] == whole[r@.len() as int]);
            }
            r.push((start, e));
            i = e;
        }
    }
    r
}

/// The spans of the lines of `s[lo..hi]`, the way `str::lines` cuts them: at each
/// `\n`, with a `\r` just before it dropped, and no empty line after a final `\n`.
pub open spec fn line_spans(s: Seq<char>, lo: int, hi: int) -> Seq<(int, int)>
    decreases hi - lo,
{
    if lo >= hi {
        seq![]
    } else {
        let j = newline_at(s, lo, hi);
        if j < lo || j > hi {
            seq![]
        } else if j == hi {
            seq![(lo, j)]
        } else {
            let e = if lo < j && s[j - 1] == '\r' {
                j - 1
            } else {
                j
            };
            seq![(lo, e)] + line_spans(s, j + 1, hi)
        }
    }
}

/// Index of the first `\n` in `[lo, hi)`, or `hi`.
pub open spec fn newline_at(s: Seq<char>, lo: int, hi: int) -> int
    decreases hi - lo,
{
    if lo < hi && s[lo] != '\n' {
        newline_at(s, lo + 1, hi)
    } else {
        lo
    }
}

pub proof fn lemma_newline_at_bounds(s: Seq<char>, lo: int, hi: int)
    requires
        lo <= hi,
    ensures
        lo <= newline_at(s, lo, hi) <= hi,
        forall|k: int| lo <= k < newline_at(s, lo, hi) ==> #[trigger] s[k] != '\n',
        newline_at(s, lo, hi) < hi ==> s[newline_at(s, lo, hi)] == '\n',
    decreases hi - lo,
{
    if lo < hi && s[lo] != '\n' {
        lemma_newline_at_bounds(s, lo + 1, hi);
    }
}

/// Spans of the lines of the whole of `s`.
pub fn lines(s: &Vec<char>) -> (r: Vec<(usize, usize)>)
    ensures
        r@.len() == line_spans(s@, 0, s@.len() as int).len(),
        forall|k: int|
            0 <= k < r@.len() ==> (#[trigger] r@[k]).0 as int == line_spans(
                s@,
                0,
                s@.len() as int,
            )[k].0 && r@[k].1 as int == line_spans(s@, 0, s@.len() as int)[k].1,
        forall|k: int| 0 <= k < r@.len() ==> (#[trigger] r@[k]).0 <= r@[k].1 <= s@.len(),
{
    let hi = s.len();
    let mut r: Vec<(usize, usize)> = Vec::new();
    let mut i: usize = 0;
    let ghost whole = line_spans(s@, 0, hi as int);
    while i < hi
        invariant
            i <= hi == s@.len(),
            whole == line_spans(s@, 0, hi as int),
            whole.len() == r@.len() + line_spans(s@, i as int, hi as int).len(),
            forall|k: int|
                0 <= k < r@.len() ==> (#[trigger] r@[k]).0 as int == whole[k].0 && r@[k].1 as int
                    == whole[k].1,
            forall|k: int|
                0 <= k < line_spans(s@, i as int, hi as int).len() ==> #[trigger] line_spans(
                    s@,
                    i as int,
                    hi as int,
                )[k] == whole[r@.len() + k],
            forall|k: int| 0 <= k < r@.len() ==> (#[trigger] r@[k]).0 <= r@[k].1 <= hi,
        decreases hi - i,
    {
        let start = i;
        let mut j = i;
        while j < hi && s[j] != '\n'
            invariant
                start <= j <= hi == s@.len(),
                newline_at(s@, start as int, hi as int) == newline_at(s@, j as int, hi as int),
            decreases hi - j,
        {
            j = j + 1;
        }
        proof {
            lemma_newline_at_bounds(s@, start as int, hi as int);
        }
        let e = if j < hi && start < j && s[j - 1] == '\r' {
            j - 1
        } else {
            j
        };
        proof {
            let rest = line_spans(s@, j as int + 1, hi as int);
            assert(line_spans(s@, start as int, hi as int) == seq![(start as int, e as int)] + rest);
            assert forall|k: int| 0 <= k < rest.len() implies #[trigger] rest[k] == whole[r@.len() + 1
                + k] by {
                assert(line_spans(s@, start as int, hi as int)[k + 1] == rest[k]);
            }
            assert(line_spans(s@, start as int, hi as int)[0] == whole[r@.len() as int]);
        }
        r.push((start, e));
        i = if j < hi {
            j + 1
        } else {
            hi
        };
    }
    r
}

/// `pat` occurs in `s` at index `i`.
pub open spec fn occurs_at(s: Seq<char>, pat: Seq<char>, i: int) -> bool {
    0 <= i && i + pat.len() <= s.len() && s.subrange(i, i + pat.len()) == pat
}

/// Index of the first occurrence of `pat` in `s`, as `str::find` gives it.
#[verifier::opaque]
pub open spec fn find_first(s: Seq<char>, pat: Seq<char>) -> Option<int> {
    if exists|i: int| occurs_at(s, pat, i) {
        Some(choose|i: int| occurs_at(s, pat, i) && forall|k: int| 0 <= k < i ==> !occurs_at(s, pat, k))
    } else {
        None
    }
}

fn occurs(s: &Vec<char>, pat: &Vec<char>, i: usize) -> (b: bool)
    requires
        i <= s@.len(),
    ensures
        b == occurs_at(s@, pat@, i as int),
{
    let n = s.len();
    if pat.len() > n - i {
        return false;
    }
    let mut k: usize = 0;
    while k < pat.len()
        invariant
            k <= pat@.len(),
            n == s@.len(),
            i + pat@.len() <= n,
            forall|j: int| 0 <= j < k ==> s@[i + j] == pat@[j],
        decreases pat@.len() - k,
    {
        if s[i + k] != pat[k] {
            assert(s@.subrange(i as int, i + pat@.len())[k as int] != pat@[k as int]);
            return false;
        }
        k = k + 1;
    }
    assert(s@.subrange(i as int, i + pat@.len()) == pat@);
    true
}

/// Where `pat` first occurs in `s`.
pub fn find(s: &Vec<char>, pat: &Vec<char>) -> (r: Option<usize>)
    ensures
        r matches Some(i) ==> occurs_at(s@, pat@, i as int),
        match r {
            Some(i) => find_first(s@, pat@) == Some(i as int),
            None => find_first(s@, pat@) is None,
        },
{
    let n = s.len();
    let mut i: usize = 0;
    loop
        invariant
            i <= n == s@.len(),
            forall|k: int| 0 <= k < i ==> !occurs_at(s@, pat@, k),
        decreases n - i,
    {
        if occurs(s, pat, i) {
            proof {
                reveal(find_first);
                let w = choose|w: int| occurs_at(s@, pat@, w) && forall|k: int| 0 <= k < w ==> !occurs_at(s@, pat@, k);
                assert(occurs_at(s@, pat@, w) && forall|k: int| 0 <= k < w ==> !occurs_at(s@, pat@, k));
                if w < i {
                    assert(!occurs_at(s@, pat@, w));
                } else if w > i {
                    assert(!occurs_at(s@, pat@, i as int));
                }
            }
            return Some(i);
        }
        if i == n {
            reveal(find_first);
            assert forall|k: int| !occurs_at(s@, pat@, k) by {
                if 0 <= k && k + pat@.len() <= s@.len() {
                    assert(k <= i);
                }
            }
            return None;
        }
        i = i + 1;
    }
}

/// The characters `s[a..b]`.
pub fn slice(s: &Vec<char>, a: usize, b: usize) -> (r: Vec<char>)
    requires
        a <= b <= s@.len(),
    ensures
        r@ == s@.subrange(a as int, b as int),
{
    let mut r: Vec<char> = Vec::new();
    let mut k = a;
    while k < b
        invariant
            a <= k <= b <= s@.len(),
            r@ == s@.subrange(a as int, k as int),
        decreases b - k,
    {
        r.push(s[k]);
        assert(s@.subrange(a as int, k + 1) == s@.subrange(a as int, k as int).push(s@[k as int]));
        k = k + 1;
    }
    r
}

/// Appends `tail` to `v`.
pub fn append(v: &mut Vec<char>, tail: &Vec<char>)
    ensures
        final(v)@ == old(v)@ + tail@,
{
    let mut k: usize = 0;
    let ghost head = v@;
    while k < tail.len()
        invariant
            k <= tail@.len(),
            v@ == head + tail@.take(k as int),
        decreases tail@.len() - k,
    {
        v.push(tail[k]);
        assert(tail@.take(k + 1) == tail@.take(k as int).push(tail@[k as int]));
        k = k + 1;
    }
    assert(tail@.take(tail@.len() as int) == tail@);
}

/// `c` with an ASCII capital turned into its small letter, as `char::to_ascii_lowercase` does.
pub open spec fn ascii_lower(c: char) -> char {
    if 'A' <= c && c <= 'Z' {
        (((c as u32) + 32) as u8) as char
    } else {
        c
    }
}

pub fn lower_ascii_char(c: char) -> (r: char)
    ensures
        r == ascii_lower(c),
{
    if 'A' <= c && c <= 'Z' {
        (((c as u32) + 32) as u8) as char
    } else {
        c
    }
}

/// Whether every character of `s` is ASCII.
pub open spec fn all_ascii(s: Seq<char>) -> bool {
    forall|i: int| 0 <= i < s.len() ==> (#[trigger] s[i] as u32) < 128
}

/// What `str::to_lowercase` gives for `s`: the lowercase mapping of the Unicode
/// character database, which may change the length of the text.
pub uninterp spec fn lowercase(s: Seq<char>) -> Seq<char>;

/// `s` in lowercase, by `str::to_lowercase`.
///
/// Its result is named `lowercase`; the one fact stated of it is the one the standard
/// library documents for ASCII: a text of ASCII characters comes back with each capital
/// turned into its small letter and everything else as it was.
#[verifier::external_body]
pub fn to_lowercase(s: &str) -> (r: String)
    ensures
        r@ == lowercase(s@),
        all_ascii(s@) ==> r@ == Seq::new(s@.len(), |i: int| ascii_lower(s@[i])),
{
    s.to_lowercase()
}

/// Whether two texts are the same.
pub fn same_text(a: &Vec<char>, b: &Vec<char>) -> (r: bool)
    ensures
        r == (a@ == b@),
{
    crate::order::compare_text(a, b) == 0
}

} // verus!
