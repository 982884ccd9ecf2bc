//! The clock module's ticks: a numbered tick per period, on a configurable topic.
use vstd::prelude::*;

verus! {

/// The topic ticks go out on: the configured one, else `clock.tick`.
pub fn clock_topic(configured: Option<String>) -> (topic: String)
    ensures
        topic@ == (match configured {
            Some(t) => t@,
            None => "clock.tick"@,
        }),
{
    match configured {
        Some(t) => t,
        None => "clock.tick".to_owned(),
    }
}

/// One clock tick: its number (from zero) and how long after the clock's start
/// it was scheduled.
#[derive(Clone, Copy)]
pub struct ClockTickMessage {
    pub number: u64,
    pub elapsed_micros: u64,
}

/// The clock between ticks: the number the next tick gets.
pub struct ClockState {
    next: u64,
}

impl ClockState {
    /// The number the next tick gets.
    pub closed spec fn next_number(&self) -> u64 {
        self.next
    }

    /// A clock that has not ticked yet.
    pub fn new() -> (c: Self)
        ensures
            c.next_number() == 0,
    {
        ClockState { next: 0 }
    }

    /// The number the next tick gets.
    pub fn next(&self) -> (n: u64)
        ensures
            n == self.next_number(),
    {
        self.next
    }

    /// The tick scheduled `elapsed_micros` after the start: it carries the next
    /// number, which then goes up by one.
    pub fn tick(&mut self, elapsed_micros: u64) -> (m: ClockTickMessage)
        requires
            old(self).next_number() < u64::MAX,
        ensures
            m.number == old(self).next_number(),
            m.elapsed_micros == elapsed_micros,
            final(self).next_number() == old(self).next_number() + 1,
    {
        let m = ClockTickMessage { number: self.next, elapsed_micros };
        self.next = self.next + 1;
        m
    }
}

} // verus!
