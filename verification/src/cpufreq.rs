//! Core clocks from `cpufreq`: the note under each core tile that says how fast the
//! core is running, read from `cpuN/cpufreq/scaling_cur_freq` in kilohertz.
use vstd::prelude::*;
use crate::number::{fixed, fixed_text};
use crate::reading::Reading;
use crate::sysfs::{lemma_value_den, read_number, scaled_value};
use crate::text::{append, chars_of, slice, text_of};

verus! {

/// `Core `
pub open spec fn core_prefix() -> Seq<char> {
    seq!['C', 'o', 'r', 'e', ' ']
}

/// The core number of a core tile's label: what follows `Core `. Other labels have none.
pub open spec fn core_id_of(label: Seq<char>) -> Option<Seq<char>> {
    if label.len() >= 5 && label.take(5) == core_prefix() {
        Some(label.skip(5))
    } else {
        None
    }
}

/// The core number of a core tile's label, as `strip_prefix("Core ")` gives it.
pub fn core_id(label: &String) -> (r: Option<String>)
    ensures
        match core_id_of(label@) {
            Some(t) => r matches Some(x) && x@ == t,
            None => r is None,
        },
{
    let s = chars_of(label.as_str());
    let n = s.len();
    if n < 5 {
        return None;
    }
    if s[0] == 'C' && s[1] == 'o' && s[2] == 'r' && s[3] == 'e' && s[4] == ' ' {
        assert(s@.take(5) =~= core_prefix());
        let rest = slice(&s, 5, n);
        assert(rest@ =~= s@.skip(5));
        Some(text_of(rest.as_slice()))
    } else {
        assert(s@.take(5)[0] == s@[0]);
        assert(s@.take(5)[1] == s@[1]);
        assert(s@.take(5)[2] == s@[2]);
        assert(s@.take(5)[3] == s@[3]);
        assert(s@.take(5)[4] == s@[4]);
        None
    }
}

/// ` GHz`
pub open spec fn ghz_suffix() -> Seq<char> {
    seq![' ', 'G', 'H', 'z']
}

/// A clock of `v` gigahertz, as a fraction, written with two decimals: `3.60 GHz`.
pub open spec fn clock_text(v: (int, nat)) -> Seq<char> {
    let magnitude: nat = if v.0 < 0 {
        (-v.0) as nat
    } else {
        v.0 as nat
    };
    (if v.0 < 0 {
        seq!['-']
    } else {
        seq![]
    }) + fixed_text(magnitude, v.1, 2) + ghz_suffix()
}

/// The note a core gets from the text of its `scaling_cur_freq`, which holds kilohertz:
/// its clock in gigahertz when the file holds a number, nothing when it could not be
/// read, holds something else, or holds a number too finely written to fit once divided.
pub open spec fn clock_note_of(text: Option<String>) -> Option<Seq<char>> {
    match scaled_value(text, 1000000) {
        Some(v) => Some(clock_text(v)),
        None => None,
    }
}

/// Writes the note for a core from the text of its `scaling_cur_freq`.
pub fn clock_note(text: &Option<String>) -> (r: Option<String>)
    ensures
        match clock_note_of(*text) {
            Some(t) => r matches Some(x) && x@ == t,
            None => r is None,
        },
{
    proof {
        lemma_value_den(*text, 1000000);
    }
    let ghz = match read_number(text) {
        Some(k) => match k.divided(1000000) {
            Some(g) => g,
            None => return None,
        },
        None => return None,
    };
    let mut t: Vec<char> = Vec::new();
    let magnitude: u128 = if ghz.num < 0 {
        t.push('-');
        ((-(ghz.num + 1)) as u128) + 1
    } else {
        ghz.num as u128
    };
    let digits = fixed(magnitude, ghz.den, 2);
    append(&mut t, &digits);
    t.push(' ');
    t.push('G');
    t.push('H');
    t.push('z');
    proof {
        let v = (ghz.num as int, ghz.den as nat);
        let m: nat = if v.0 < 0 {
            (-v.0) as nat
        } else {
            v.0 as nat
        };
        assert(magnitude as nat == m);
        let sign: Seq<char> = if v.0 < 0 {
            seq!['-']
        } else {
            seq![]
        };
        assert(t@ =~= sign + fixed_text(m, v.1, 2) + ghz_suffix());
    }
    Some(text_of(t.as_slice()))
}

/// What `annotate` leaves of one core tile: a core tile gets the note its clock file
/// gives, any other tile is left as it was.
pub open spec fn annotated(old: Reading, text: Option<String>, new: Reading) -> bool {
    &&& new.label == old.label
    &&& new.value == old.value
    &&& new.min == old.min
    &&& new.max == old.max
    &&& match core_id_of(old.label@) {
        Some(_) => match clock_note_of(text) {
            Some(t) => new.note matches Some(n) && n@ == t,
            None => new.note is None,
        },
        None => new.note == old.note,
    }
}

/// Writes the clock of each core under its tile. `texts[i]` is what the clock file of
/// the core behind `cores[i]` held at this refresh, `None` where it could not be read.
pub fn annotate(cores: &mut Vec<Reading>, texts: &Vec<Option<String>>)
    requires
        texts@.len() == old(cores)@.len(),
    ensures
        final(cores)@.len() == old(cores)@.len(),
        forall|i: int|
            0 <= i < final(cores)@.len() ==> annotated(
                #[trigger] old(cores)@[i],
                texts@[i],
                final(cores)@[i],
            ),
{
    let n = cores.len();
    let mut i: usize = 0;
    while i < n
        invariant
            i <= n == cores@.len() == old(cores)@.len() == texts@.len(),
            forall|k: int|
                0 <= k < i ==> annotated(#[trigger] old(cores)@[k], texts@[k], cores@[k]),
            forall|k: int| i <= k < n ==> #[trigger] cores@[k] == old(cores)@[k],
        decreases n - i,
    {
        let id = core_id(&cores[i].label);
        if id.is_some() {
            let note = clock_note(&texts[i]);
            let mut r = cores.remove(i);
            r.note = note;
            cores.insert(i, r);
        }
        i = i + 1;
    }
}

/// The cores whose clock files are open, by core number, in the order they were first
/// met; slot `i` of the caller's open files belongs to `ids[i]`.
pub struct ClockFiles {
    pub ids: Vec<String>,
}

/// Index of the slot of core `id`, if it has one.
pub open spec fn slot_of(ids: Seq<String>, id: Seq<char>) -> Option<int> {
    if exists|j: int| 0 <= j < ids.len() && (#[trigger] ids[j])@ == id {
        Some(choose|j: int| 0 <= j < ids.len() && (#[trigger] ids[j])@ == id)
    } else {
        None
    }
}

impl ClockFiles {
    pub fn new() -> (c: ClockFiles)
        ensures
            c.ids@.len() == 0,
    {
        ClockFiles { ids: Vec::new() }
    }

    /// The slot of the clock file of core `id`, and whether the file is to be opened now:
    /// a core met before keeps its slot and its file is not opened again; a new core
    /// gets the next slot, and its file is opened once.
    pub fn slot(&mut self, id: &String) -> (r: (usize, bool))
        ensures
            r.0 < final(self).ids@.len(),
            final(self).ids@[r.0 as int]@ == id@,
            match slot_of(old(self).ids@, id@) {
                Some(_) => !r.1 && final(self).ids@ == old(self).ids@,
                None => r.1 && r.0 == old(self).ids@.len() && final(self).ids@.len() == old(self).ids@.len()
                    + 1 && final(self).ids@.take(r.0 as int) == old(self).ids@,
            },
    {
        let mut j: usize = 0;
        while j < self.ids.len()
            invariant
                j <= self.ids@.len(),
                forall|k: int| 0 <= k < j ==> (#[trigger] self.ids@[k])@ != id@,
            decreases self.ids@.len() - j,
        {
            if self.ids[j] == *id {
                proof {
                    let w = choose|w: int| 0 <= w < self.ids@.len() && (#[trigger] self.ids@[w])@ == id@;
                }
                return (j, false);
            }
            j = j + 1;
        }
        let ghost before = self.ids@;
        let copy = id.clone();
        self.ids.push(copy);
        assert(self.ids@.take(j as int) =~= before);
        (j, true)
    }
}

/// A core's clock file is opened once across refreshes: once `slot` has given core `id` a
/// slot, every later `slot` for it finds that slot, so it opens nothing and leaves the
/// slots as they are, and `annotate` writes each refresh's note from the text of that
/// same file.
pub proof fn clock_files_open_once(ids: Seq<String>, id: Seq<char>, j: int)
    requires
        0 <= j < ids.len(),
        ids[j]@ == id,
    ensures
        slot_of(ids, id) is Some,
{
    assert(0 <= j < ids.len() && ids[j]@ == id);
}

} // verus!
