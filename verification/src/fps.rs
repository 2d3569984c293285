//! Frames-per-second, averaged over ~1 second windows (recomputed once that
//! window elapses, rather than every frame: a per-frame instantaneous value
//! jitters too much to be readable).

use crate::clock::{duration_as_nanos, instant_elapsed, instant_now};
use std::time::Instant;
use vstd::prelude::*;

verus! {

/// Length of one averaging window, in nanoseconds.
pub const WINDOW_NANOS: u128 = 1_000_000_000;

/// `frames` frames over `nanos` nanoseconds, in frames per second, rounded
/// to the nearest integer (halves up).
pub open spec fn rate(frames: nat, nanos: nat) -> nat
    recommends
        nanos > 0,
{
    ((2 * frames * WINDOW_NANOS + nanos) as int / (2 * nanos) as int) as nat
}

pub struct FpsCounter {
    frames_this_window: u32,
    /// The instant clock readings are taken from.
    origin: Instant,
    /// When the current window began, in nanoseconds after `origin`.
    window_start: u128,
    pub current: u32,
    /// Software frame-rate cap (see `/settings fps max`). `None` (the
    /// default) means uncapped: render as fast as the GPU/event loop allow.
    pub cap: Option<u32>,
    /// Whether the on-screen counter is drawn (see `/settings fps counter`).
    pub show: bool,
}

impl FpsCounter {
    /// Frames counted in the current window.
    pub closed spec fn frames(&self) -> nat {
        self.frames_this_window as nat
    }

    /// When the current window began, in nanoseconds after the counter's
    /// clock origin.
    pub closed spec fn window_start_at(&self) -> u128 {
        self.window_start
    }

    /// The instant the counter's clock readings are measured from.
    pub closed spec fn origin_spec(&self) -> Instant {
        self.origin
    }

    /// The last computed rate.
    pub closed spec fn rate_shown(&self) -> u32 {
        self.current
    }

    pub closed spec fn cap_spec(&self) -> Option<u32> {
        self.cap
    }

    pub closed spec fn shown(&self) -> bool {
        self.show
    }

    /// This counter with its cap set to `cap`, all else as it is.
    pub closed spec fn with_cap(self, cap: Option<u32>) -> Self {
        FpsCounter { cap, ..self }
    }

    /// This counter shown or hidden as `show` says, all else as it is.
    pub closed spec fn with_show(self, show: bool) -> Self {
        FpsCounter { show, ..self }
    }

    pub fn new() -> (r: Self)
        ensures
            r.frames() == 0,
            r.rate_shown() == 0,
            r.cap_spec() is None,
            r.shown(),
            r.window_start_at() == 0,
    {
        FpsCounter { frames_this_window: 0, origin: instant_now(), window_start: 0, current: 0, cap: None, show: true }
    }

    /// Sets the software frame-rate cap (`None`: uncapped).
    pub fn set_cap(&mut self, cap: Option<u32>)
        ensures
            *final(self) == old(self).with_cap(cap),
            final(self).cap_spec() == cap,
            final(self).shown() == old(self).shown(),
            final(self).frames() == old(self).frames(),
            final(self).rate_shown() == old(self).rate_shown(),
    {
        self.cap = cap;
    }

    /// Shows or hides the on-screen counter.
    pub fn set_show(&mut self, show: bool)
        ensures
            *final(self) == old(self).with_show(show),
            final(self).shown() == show,
            final(self).cap_spec() == old(self).cap_spec(),
            final(self).frames() == old(self).frames(),
            final(self).rate_shown() == old(self).rate_shown(),
    {
        self.show = show;
    }

    /// Frames counted in the current window.
    pub fn frames_in_window(&self) -> (r: u32)
        ensures
            r == self.frames(),
    {
        self.frames_this_window
    }

    /// Counts one frame, `elapsed_nanos` into the current window. Once the
    /// window has lasted a second, the rate over it becomes the shown rate
    /// and a new window begins (the result says so).
    pub fn advance(&mut self, elapsed_nanos: u128) -> (rolled: bool)
        requires
            old(self).frames() < u32::MAX,
        ensures
            rolled == (elapsed_nanos >= WINDOW_NANOS),
            rolled ==> final(self).frames() == 0 && final(self).rate_shown() == rate(
                old(self).frames() + 1,
                elapsed_nanos as nat,
            ),
            !rolled ==> final(self).frames() == old(self).frames() + 1 && final(self).rate_shown()
                == old(self).rate_shown(),
            final(self).cap_spec() == old(self).cap_spec(),
            final(self).shown() == old(self).shown(),
            final(self).window_start_at() == old(self).window_start_at(),
            final(self).origin_spec() == old(self).origin_spec(),
    {
        self.frames_this_window = self.frames_this_window + 1;
        if elapsed_nanos < WINDOW_NANOS {
            return false;
        }
        let f = self.frames_this_window as u128;
        let e = elapsed_nanos;
        // Rounded f * 1e9 / e, computed without overflow as quotient plus a
        // half-up correction from the remainder.
        let num = f * WINDOW_NANOS;
        let q = num / e;
        let rem = num % e;
        let rounded = if rem >= e - rem {
            q + 1
        } else {
            q
        };
        proof {
            let fi = f as int;
            let ei = e as int;
            let n = num as int;
            assert(n == fi * 1_000_000_000);
            vstd::arithmetic::div_mod::lemma_fundamental_div_mod(n, ei);
            assert(q as int * ei + rem as int == n);
            assert(q as int <= fi) by (nonlinear_arith)
                requires
                    q as int * ei + rem as int == n,
                    n == fi * 1_000_000_000,
                    ei >= 1_000_000_000,
                    0 <= rem,
                    0 <= q,
            ;
            assert(rounded as int == (2 * n + ei) / (2 * ei)) by {
                if rem >= e - rem {
                    assert(2 * n + ei == (q + 1) * (2 * ei) + (2 * rem as int - ei)) by (nonlinear_arith)
                        requires
                            q as int * ei + rem as int == n,
                    ;
                    vstd::arithmetic::div_mod::lemma_fundamental_div_mod_converse(
                        2 * n + ei,
                        2 * ei,
                        q + 1,
                        2 * rem as int - ei,
                    );
                } else {
                    assert(2 * n + ei == q * (2 * ei) + (2 * rem as int + ei)) by (nonlinear_arith)
                        requires
                            q as int * ei + rem as int == n,
                    ;
                    vstd::arithmetic::div_mod::lemma_fundamental_div_mod_converse(
                        2 * n + ei,
                        2 * ei,
                        q as int,
                        2 * rem as int + ei,
                    );
                }
            }
            if rounded as int > fi {
                assert(q as int == fi && rem > 0);
                assert(false) by (nonlinear_arith)
                    requires
                        q as int == fi,
                        q as int * ei + rem as int == fi * 1_000_000_000,
                        ei >= 1_000_000_000,
                        rem > 0,
                        fi >= 1,
                ;
            }
        }
        self.current = rounded as u32;
        self.frames_this_window = 0;
        true
    }

    /// Counts one frame, recomputing the shown rate once a second has passed
    /// since the window began, and then starting a new window. The clock
    /// decides whether that happened: `ticked` holds for the clock reading
    /// taken (see there).
    pub fn tick(&mut self)
        requires
            old(self).frames() < u32::MAX,
        ensures
            exists|now: u128| #[trigger] ticked(*old(self), *final(self), now),
            final(self).cap_spec() == old(self).cap_spec(),
            final(self).shown() == old(self).shown(),
            final(self).frames() == 0 ==> exists|e: nat|
                #![trigger rate(old(self).frames() + 1, e)]
                e >= WINDOW_NANOS && final(self).rate_shown() == rate(old(self).frames() + 1, e),
            final(self).frames() != 0 ==> final(self).frames() == old(self).frames() + 1
                && final(self).rate_shown() == old(self).rate_shown(),
    {
        let now = duration_as_nanos(&instant_elapsed(&self.origin));
        let elapsed = if now >= self.window_start {
            now - self.window_start
        } else {
            0
        };
        let ghost before = *self;
        if self.advance(elapsed) {
            assert(rate(before.frames() + 1, elapsed as nat) == self.rate_shown());
            self.window_start = now;
        }
        assert(ticked(before, *self, now));
    }
}

/// One `tick` of `before` that read the clock at `now` (nanoseconds after
/// the counter's clock origin) leaves `after`: the frame counts, and once
/// the window that began at `before`'s window start has lasted a second,
/// the shown rate is that of its frames over its length and a new window
/// begins at `now`; otherwise the window and the shown rate stay.
pub open spec fn ticked(before: FpsCounter, after: FpsCounter, now: u128) -> bool {
    let e: int = if now >= before.window_start_at() {
        now - before.window_start_at()
    } else {
        0
    };
    &&& after.origin_spec() == before.origin_spec()
    &&& after.cap_spec() == before.cap_spec()
    &&& after.shown() == before.shown()
    &&& if e >= WINDOW_NANOS {
        &&& after.frames() == 0
        &&& after.rate_shown() == rate(before.frames() + 1, e as nat)
        &&& after.window_start_at() == now
    } else {
        &&& after.frames() == before.frames() + 1
        &&& after.rate_shown() == before.rate_shown()
        &&& after.window_start_at() == before.window_start_at()
    }
}

/// A rollover starts a new window: a tick that reads the clock less than a
/// second after a tick that rolled over counts one frame into the new
/// window and keeps the rate just shown.
pub proof fn law_rollover_starts_new_window(a: FpsCounter, b: FpsCounter, c: FpsCounter, t1: u128, t2: u128)
    requires
        ticked(a, b, t1),
        ticked(b, c, t2),
        b.frames() == 0,
        t1 <= t2 < t1 + WINDOW_NANOS,
    ensures
        c.frames() == 1,
        c.rate_shown() == b.rate_shown(),
        c.window_start_at() == t1,
{
}

/// Frames are averaged over the whole window: when a tick rolls over, the
/// shown rate is the rate of every frame since the previous rollover (the
/// frames counted in between and this one) over the time since it.
pub proof fn law_rate_spans_the_window(a: FpsCounter, b: FpsCounter, t: u128)
    requires
        ticked(a, b, t),
        b.frames() == 0,
    ensures
        t >= a.window_start_at() + WINDOW_NANOS,
        b.rate_shown() == rate(a.frames() + 1, (t - a.window_start_at()) as nat),
        b.window_start_at() == t,
{
}

impl Default for FpsCounter {
    fn default() -> (r: Self)
        ensures
            r.frames() == 0,
            r.rate_shown() == 0,
            r.cap_spec() is None,
            r.shown(),
    {
        Self::new()
    }
}

} // verus!
