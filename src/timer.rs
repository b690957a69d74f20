//! Edge-triggered countdown timers, one-shot or repeating.

use vstd::arithmetic::div_mod::{lemma_fundamental_div_mod, lemma_fundamental_div_mod_converse};
use vstd::prelude::*;

verus! {

/// Whether a timer stops after it fires or starts over.
#[derive(Clone, Copy, Debug, PartialEq, Eq, Structural)]
pub enum TimerMode {
    Once,
    Repeating,
}

/// A countdown of `duration` milliseconds that has run for `elapsed` of them.
#[derive(Clone, Copy, Debug, PartialEq, Eq, Structural)]
pub struct Timer {
    pub duration: u64,
    pub elapsed: u64,
    pub mode: TimerMode,
    pub finished: bool,
}

/// Sum of a sequence of tick lengths.
pub open spec fn total(ds: Seq<u64>) -> int
    decreases ds.len(),
{
    if ds.len() == 0 {
        0
    } else {
        total(ds.drop_last()) + ds.last()
    }
}

/// Advancing a well-formed timer by a non-negative time keeps it well formed.
pub proof fn lemma_ticked_wf(t: Timer, dt: int)
    requires
        t.wf(),
        dt >= 0,
    ensures
        t.ticked(dt).wf(),
{
    if t.mode == TimerMode::Repeating && t.duration > 0 {
        vstd::arithmetic::div_mod::lemma_mod_bound(t.elapsed + dt, t.duration as int);
    }
}

/// A well-formed one-shot timer that has not yet run its whole duration
/// fires on the tick that brings it there.
pub proof fn lemma_once_fires_on_reaching(t: Timer, dt: int)
    requires
        t.wf(),
        t.mode == TimerMode::Once,
        t.elapsed < t.duration,
        t.elapsed + dt >= t.duration,
    ensures
        t.fires(dt),
        t.ticked(dt).finished,
        !t.ticked(dt).fires(0),
{
}

/// Over any run of ticks a timer keeps its duration and mode and stays well
/// formed.
pub proof fn lemma_run_keeps_shape(t: Timer, ds: Seq<u64>)
    requires
        t.wf(),
    ensures
        t.run(ds).0.wf(),
        t.run(ds).0.duration == t.duration,
        t.run(ds).0.mode == t.mode,
    decreases ds.len(),
{
    if ds.len() > 0 {
        lemma_run_keeps_shape(t, ds.drop_last());
        lemma_ticked_wf(t.run(ds.drop_last()).0, ds.last() as int);
    }
}

/// A repeating timer whose ticks are each at most one period long fires once
/// for every full period of accumulated time (and never twice in a tick),
/// whatever the lengths of the ticks; what is left over stays elapsed.
pub proof fn lemma_repeating_fires_every_period(t: Timer, ds: Seq<u64>)
    requires
        t.wf(),
        t.mode == TimerMode::Repeating,
        t.duration > 0,
        forall|i: int| 0 <= i < ds.len() ==> ds[i] <= t.duration,
    ensures
        t.run(ds).1 == (t.elapsed + total(ds)) / (t.duration as int),
        t.run(ds).0.elapsed == (t.elapsed + total(ds)) % (t.duration as int),
    decreases ds.len(),
{
    let d = t.duration as int;
    if ds.len() == 0 {
        lemma_fundamental_div_mod_converse(t.elapsed as int, d, 0, t.elapsed as int);
    } else {
        let pre = ds.drop_last();
        assert forall|i: int| 0 <= i < pre.len() implies pre[i] <= t.duration by {
            assert(pre[i] == ds[i]);
        }
        lemma_repeating_fires_every_period(t, pre);
        lemma_run_keeps_shape(t, pre);
        let (u, n) = t.run(pre);
        let a = t.elapsed + total(pre);
        let dt = ds.last() as int;
        lemma_fundamental_div_mod(a, d);
        assert(a == n * d + u.elapsed) by (nonlinear_arith)
            requires
                a == d * (a / d) + a % d,
                n == a / d,
                u.elapsed == a % d,
        ;
        assert(total(ds) == total(pre) + dt);
        if u.elapsed + dt >= d {
            assert((n + 1) * d == n * d + d) by (nonlinear_arith);
            lemma_fundamental_div_mod_converse(a + dt, d, n + 1 as int, u.elapsed + dt - d);
            lemma_fundamental_div_mod_converse(u.elapsed + dt, d, 1, u.elapsed + dt - d);
        } else {
            lemma_fundamental_div_mod_converse(a + dt, d, n as int, u.elapsed + dt);
            lemma_fundamental_div_mod_converse(u.elapsed + dt, d, 0, u.elapsed + dt);
        }
    }
}

/// A one-shot timer that has not fired yet fires at most once over any run
/// of ticks: exactly once when its accumulated time reaches its duration,
/// after which it stays finished.
pub proof fn lemma_once_fires_once(t: Timer, ds: Seq<u64>)
    requires
        t.wf(),
        t.mode == TimerMode::Once,
        !t.finished,
    ensures
        t.run(ds).1 <= 1,
        t.run(ds).1 == 1 <==> (ds.len() > 0 && t.elapsed + total(ds) >= t.duration),
        t.run(ds).0.finished <==> t.run(ds).1 == 1,
        t.run(ds).0.elapsed == if t.elapsed + total(ds) >= t.duration {
            t.duration as int
        } else {
            t.elapsed + total(ds)
        },
    decreases ds.len(),
{
    if ds.len() > 0 {
        let pre = ds.drop_last();
        lemma_once_fires_once(t, pre);
        lemma_run_keeps_shape(t, pre);
        assert(total(ds) == total(pre) + ds.last());
    }
}

/// A repeating timer of positive period always holds the remainder of its
/// accumulated time by the period, whatever the lengths of its ticks, and a
/// tick fires it exactly when the accumulated time crosses a multiple of
/// the period.
pub proof fn lemma_repeating_fires_on_crossing(t: Timer, ds: Seq<u64>)
    requires
        t.wf(),
        t.mode == TimerMode::Repeating,
        t.duration > 0,
    ensures
        t.run(ds).0.elapsed == (t.elapsed + total(ds)) % (t.duration as int),
        ds.len() > 0 ==> (t.run(ds.drop_last()).0.fires(ds.last() as int) <==> (t.elapsed
            + total(ds)) / (t.duration as int) > (t.elapsed + total(ds.drop_last())) / (
        t.duration as int)),
    decreases ds.len(),
{
    let d = t.duration as int;
    if ds.len() == 0 {
        lemma_fundamental_div_mod_converse(t.elapsed as int, d, 0, t.elapsed as int);
    } else {
        let pre = ds.drop_last();
        lemma_repeating_fires_on_crossing(t, pre);
        lemma_run_keeps_shape(t, pre);
        let u = t.run(pre).0;
        let a = t.elapsed + total(pre);
        let dt = ds.last() as int;
        assert(total(ds) == total(pre) + dt);
        lemma_fundamental_div_mod(a, d);
        let q = a / d;
        let r = a % d;
        assert(u.elapsed == r);
        let w = r + dt;
        lemma_fundamental_div_mod(w, d);
        let q2 = w / d;
        let r2 = w % d;
        vstd::arithmetic::div_mod::lemma_mod_bound(w, d);
        assert(a + dt == (q + q2) * d + r2) by (nonlinear_arith)
            requires
                a == d * q + r,
                w == d * q2 + r2,
                w == r + dt,
        ;
        lemma_fundamental_div_mod_converse(a + dt, d, q + q2, r2);
        assert(q2 >= 0) by (nonlinear_arith)
            requires
                w >= 0,
                d > 0,
                q2 == w / d,
        ;
        assert(q2 >= 1 <==> w >= d) by (nonlinear_arith)
            requires
                w == d * q2 + r2,
                0 <= r2 < d,
                q2 >= 0,
        ;
    }
}

impl Timer {
    /// A running timer never holds more than its duration; a repeating one
    /// with a positive period holds strictly less; a one-shot timer that has
    /// fired holds its whole duration.
    pub open spec fn wf(self) -> bool {
        &&& self.elapsed <= self.duration
        &&& (self.mode == TimerMode::Repeating && self.duration > 0) ==> self.elapsed
            < self.duration
        &&& (self.mode == TimerMode::Once && self.finished) ==> self.elapsed == self.duration
    }

    /// Whether advancing by `dt` fires the timer: it reaches its duration on
    /// this tick (and, for a one-shot timer, has not fired before).
    pub open spec fn fires(self, dt: int) -> bool {
        match self.mode {
            TimerMode::Once => !self.finished && self.elapsed + dt >= self.duration,
            TimerMode::Repeating => self.elapsed + dt >= self.duration,
        }
    }

    /// The elapsed time after advancing by `dt`: a one-shot timer saturates
    /// at its duration, a repeating one wraps around its period.
    pub open spec fn elapsed_after(self, dt: int) -> int {
        match self.mode {
            TimerMode::Once => if self.elapsed + dt >= self.duration {
                self.duration as int
            } else {
                self.elapsed + dt
            },
            TimerMode::Repeating => if self.duration == 0 {
                0
            } else {
                (self.elapsed + dt) % (self.duration as int)
            },
        }
    }

    /// The timer after advancing by `dt`.
    pub open spec fn ticked(self, dt: int) -> Timer {
        Timer {
            elapsed: self.elapsed_after(dt) as u64,
            finished: match self.mode {
                TimerMode::Once => self.finished || self.fires(dt),
                TimerMode::Repeating => self.fires(dt),
            },
            ..self
        }
    }

    /// The timer after a run of ticks, and how many of them fired it.
    pub open spec fn run(self, ds: Seq<u64>) -> (Timer, nat)
        decreases ds.len(),
    {
        if ds.len() == 0 {
            (self, 0)
        } else {
            let (t, n) = self.run(ds.drop_last());
            (t.ticked(ds.last() as int), if t.fires(ds.last() as int) {
                n + 1
            } else {
                n
            })
        }
    }

    /// A fresh timer of `duration` milliseconds.
    pub fn new(duration: u64, mode: TimerMode) -> (r: Timer)
        ensures
            r == (Timer { duration, elapsed: 0, mode, finished: false }),
            r.wf(),
    {
        Timer { duration, elapsed: 0, mode, finished: false }
    }

    /// Advances the timer by `dt` milliseconds and tells whether it fired on
    /// this tick.
    pub fn tick(&mut self, dt: u64) -> (fired: bool)
        requires
            old(self).wf(),
        ensures
            fired == old(self).fires(dt as int),
            *final(self) == old(self).ticked(dt as int),
            final(self).wf(),
    {
        let left = self.duration - self.elapsed;
        let reached = dt >= left;
        match self.mode {
            TimerMode::Once => {
                let fired = !self.finished && reached;
                self.elapsed = if reached {
                    self.duration
                } else {
                    self.elapsed + dt
                };
                self.finished = self.finished || fired;
                fired
            },
            TimerMode::Repeating => {
                if self.duration == 0 {
                    self.elapsed = 0;
                } else {
                    let d = self.duration;
                    let e = self.elapsed;
                    let r = dt % d;
                    let new_e = if r >= d - e {
                        r - (d - e)
                    } else {
                        e + r
                    };
                    proof {
                        let q = dt as int / d as int;
                        assert(dt as int == q * d + r) by (nonlinear_arith)
                            requires
                                q == dt as int / d as int,
                                r == dt as int % d as int,
                                d > 0,
                        ;
                        if r >= d - e {
                            assert((q + 1) * d == q * d + d) by (nonlinear_arith);
                            lemma_fundamental_div_mod_converse(
                                e + dt,
                                d as int,
                                q + 1,
                                new_e as int,
                            );
                        } else {
                            lemma_fundamental_div_mod_converse(e + dt, d as int, q, new_e as int);
                        }
                    }
                    self.elapsed = new_e;
                }
                self.finished = reached;
                reached
            },
        }
    }

    /// Whether the timer fired on its last tick (one-shot: whether it has
    /// ever fired).
    pub fn finished(&self) -> (r: bool)
        ensures
            r == self.finished,
    {
        self.finished
    }
}

} // verus!
