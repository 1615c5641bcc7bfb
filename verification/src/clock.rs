//! A tick limiter: ready once the configured tick interval has passed
//! since the last tick. What the wall clock reads is outside any contract;
//! what the limiter's own state does is not.
use vstd::prelude::*;

verus! {

fn wall_clock_nanos() -> u128 {
    let (_, nanos) = crate::utils::wall_clock_millis_nanos();
    nanos
}

pub struct Clock {
    pub last_tick: u128,
    pub tick_nanos: u64,
    pub enabled: bool,
}

impl Clock {
    /// The tick length for a given rate, in nanoseconds.
    pub open spec fn nanos_for_tps(tps: u16) -> u64 {
        ((1000000u64 / tps as u64) * 1000) as u64
    }

    /// An enabled clock ticking `tps` times per second.
    pub fn new(tps: u16) -> (r: Clock)
        requires
            tps > 0,
        ensures
            r.tick_nanos == Self::nanos_for_tps(tps),
            r.enabled,
    {
        Clock { last_tick: wall_clock_nanos(), tick_nanos: (1000000u64 / tps as u64) * 1000, enabled: true }
    }

    /// The same clock, but starting disabled.
    pub fn new_disabled(tps: u16) -> (r: Clock)
        requires
            tps > 0,
        ensures
            r.tick_nanos == Self::nanos_for_tps(tps),
            !r.enabled,
    {
        Clock { last_tick: wall_clock_nanos(), tick_nanos: (1000000u64 / tps as u64) * 1000, enabled: false }
    }

    pub fn set_tps(&mut self, tps: u16)
        requires
            tps > 0,
        ensures
            final(self).tick_nanos == Self::nanos_for_tps(tps),
            final(self).enabled == old(self).enabled,
            final(self).last_tick == old(self).last_tick,
    {
        self.tick_nanos = (1000000u64 / tps as u64) * 1000;
    }

    pub fn is_enabled(&self) -> (r: bool)
        ensures
            r == self.enabled,
    {
        self.enabled
    }

    pub fn enable(&mut self)
        ensures
            final(self).enabled,
            final(self).tick_nanos == old(self).tick_nanos,
            final(self).last_tick == old(self).last_tick,
    {
        self.enabled = true;
    }

    pub fn disable(&mut self)
        ensures
            !final(self).enabled,
            final(self).tick_nanos == old(self).tick_nanos,
            final(self).last_tick == old(self).last_tick,
    {
        self.enabled = false;
    }

    /// Whether a reading of the wall clock says the interval has passed
    /// since the last tick.
    pub open spec fn elapsed_at(&self, now: u128) -> bool {
        now >= self.last_tick && now - self.last_tick >= self.tick_nanos
    }

    /// The readiness decision as a function of a clock reading: ready iff
    /// enabled and a full interval lies between the last tick and `now`.
    pub fn is_ready_at(&self, now: u128) -> (r: bool)
        ensures
            r == (self.enabled && self.elapsed_at(now)),
    {
        self.enabled && now >= self.last_tick && now - self.last_tick >= self.tick_nanos as u128
    }

    /// Whether a full tick has passed. A disabled clock is never ready;
    /// when the clock runs, the answer is `is_ready_at` applied to the
    /// reading the wall clock gives, which no contract can pin down.
    pub fn ready(&self) -> (r: bool)
        ensures
            !self.enabled ==> r == false,
    {
        let now = wall_clock_nanos();
        self.is_ready_at(now)
    }

    /// Restarts the interval at the present moment; a disabled clock is
    /// left untouched.
    pub fn tick(&mut self)
        ensures
            final(self).enabled == old(self).enabled,
            final(self).tick_nanos == old(self).tick_nanos,
            !old(self).enabled ==> *final(self) == *old(self),
    {
        if !self.enabled {
            return ;
        }
        self.last_tick = wall_clock_nanos();
    }

    /// Ticks when ready; says whether it did.
    pub fn ready_and_tick(&mut self) -> (r: bool)
        ensures
            final(self).enabled == old(self).enabled,
            final(self).tick_nanos == old(self).tick_nanos,
            !old(self).enabled ==> r == false && *final(self) == *old(self),
    {
        if self.ready() {
            self.tick();
            true
        } else {
            false
        }
    }
}

} // verus!
