//! What the event loop decides: which keys end the program, how long to wait for input
//! before the next refresh, and when a refresh is due.
use vstd::prelude::*;

verus! {

/// Whether a key press ends the program: `q`, or `Ctrl+C`, which raw mode delivers as a
/// key rather than as a signal. `key` is the character the key types, if any.
pub fn quits(key: Option<char>, control: bool) -> (q: bool)
    ensures
        q == (key == Some('q') || (control && key == Some('c'))),
{
    match key {
        Some(c) => c == 'q' || (control && c == 'c'),
        None => false,
    }
}

/// What the loop does after waiting for input.
#[derive(Clone, Copy, Debug, PartialEq, Eq, Structural)]
pub enum Step {
    /// End the program.
    Quit,
    /// Refresh every row, then draw.
    Refresh,
    /// Draw, and wait for input again.
    Wait,
}

/// The refresh clock of the loop: the tick in nanoseconds, and when the last tick
/// began, in nanoseconds from the same start as every `now` handed in.
pub struct Ticker {
    pub tick: u128,
    pub last: u128,
}

/// Nanoseconds from `last` to `now`, none when `now` is earlier.
pub open spec fn since(last: u128, now: u128) -> int {
    if now >= last {
        now - last
    } else {
        0
    }
}

impl Ticker {
    /// A clock whose first tick begins at `now`, ticking every `tick_ms` milliseconds.
    pub fn new(tick_ms: u64, now: u128) -> (t: Ticker)
        ensures
            t.tick == tick_ms as int * 1000000,
            t.last == now,
    {
        Ticker { tick: tick_ms as u128 * 1000000, last: now }
    }

    /// How long to wait for input at `now`: whatever is left of the tick, so that keys
    /// answer at once whatever the refresh rate.
    pub fn wait(&self, now: u128) -> (w: u128)
        ensures
            w == if since(self.last, now) >= self.tick {
                0
            } else {
                self.tick - since(self.last, now)
            },
    {
        let elapsed = if now >= self.last {
            now - self.last
        } else {
            0
        };
        if elapsed >= self.tick {
            0
        } else {
            self.tick - elapsed
        }
    }

    /// What to do at `now`, after the wait ended with the key `key` (the character it
    /// types, if any, and whether Control was held) or with none: quit on `q` or
    /// `Ctrl+C`; else refresh when a whole tick has passed since the last one began,
    /// starting the next tick now; else wait again.
    pub fn step(&mut self, key: Option<(Option<char>, bool)>, now: u128) -> (s: Step)
        ensures
            s == Step::Quit <==> (key matches Some((c, control)) && (c == Some('q') || (control && c
                == Some('c')))),
            s == Step::Refresh <==> (s != Step::Quit && since(old(self).last, now) >= old(self).tick),
            final(self).tick == old(self).tick,
            final(self).last == if s == Step::Refresh {
                now
            } else {
                old(self).last
            },
    {
        if let Some((c, control)) = key {
            if quits(c, control) {
                return Step::Quit;
            }
        }
        let elapsed = if now >= self.last {
            now - self.last
        } else {
            0
        };
        if elapsed >= self.tick {
            self.last = now;
            Step::Refresh
        } else {
            Step::Wait
        }
    }
}

/// Two refreshes are at least a tick apart: after a refresh at `now`, no step before
/// `now + tick` refreshes again.
pub proof fn refreshes_are_a_tick_apart(t: Ticker, now: u128, later: u128)
    requires
        t.last == now,
        now <= later,
        later - now < t.tick,
    ensures
        since(t.last, later) < t.tick,
{
}

} // verus!
