use vstd::prelude::*;

verus! {

/// Relies on `chrono::Utc::now` and `DateTime::timestamp`: the current time in
/// whole seconds since the Unix epoch. Nothing is promised of its value.
#[verifier::external_body]
pub(crate) fn unix_time_now() -> (r: i64) {
    chrono::Utc::now().timestamp()
}

/// A source of the current time, in seconds.
pub trait Clock {
    fn timestamp(&self) -> (r: i64);
}

/// The system clock.
pub struct TrueTime {}

impl Clock for TrueTime {
    fn timestamp(&self) -> (r: i64) {
        unix_time_now()
    }
}

/// A clock that moves only when told to. `current_time` is what it reads;
/// `wake_up_time` is where the last completed wait ended.
pub struct MockTime {
    pub current_time: i64,
    pub wake_up_time: i64,
}

impl MockTime {
    /// A mock clock that reads zero and has completed no wait.
    pub fn new() -> (r: MockTime)
        ensures
            r.current_time == 0,
            r.wake_up_time == 0,
    {
        MockTime { current_time: 0, wake_up_time: 0 }
    }

    /// Decides one step of a wait of `milliseconds`: when at least that much time has
    /// passed since the end of the last completed wait, that wait completes, its end
    /// moves forward by `milliseconds`, and `true` comes back; otherwise nothing changes
    /// and the waiter is to sleep until the clock moves again.
    pub fn poll_wait(&mut self, milliseconds: u64) -> (done: bool)
        requires
            old(self).wake_up_time <= old(self).current_time,
        ensures
            done == (old(self).current_time - old(self).wake_up_time >= milliseconds),
            done ==> final(self).wake_up_time == old(self).wake_up_time + milliseconds,
            !done ==> final(self).wake_up_time == old(self).wake_up_time,
            final(self).current_time == old(self).current_time,
            final(self).wake_up_time <= final(self).current_time,
    {
        let difference: u64 = (self.current_time as i128 - self.wake_up_time as i128) as u64;
        if difference >= milliseconds {
            self.wake_up_time = (self.wake_up_time as i128 + milliseconds as i128) as i64;
            true
        } else {
            false
        }
    }
}

impl Default for MockTime {
    fn default() -> (r: MockTime)
        ensures
            r.current_time == 0,
            r.wake_up_time == 0,
    {
        MockTime::new()
    }
}

impl Clock for MockTime {
    fn timestamp(&self) -> (r: i64) {
        self.current_time
    }
}

/// A clock that can be moved forward by hand.
pub trait Advance {
    /// Whether moving forward by `milliseconds` stays within the clock's range.
    spec fn can_advance(&self, milliseconds: u64) -> bool;

    fn advance(&mut self, milliseconds: u64)
        requires
            old(self).can_advance(milliseconds),
    ;
}

impl Advance for MockTime {
    open spec fn can_advance(&self, milliseconds: u64) -> bool {
        self.current_time + milliseconds <= i64::MAX
    }

    fn advance(&mut self, milliseconds: u64)
        ensures
            final(self).current_time == old(self).current_time + milliseconds,
            final(self).wake_up_time == old(self).wake_up_time,
    {
        self.current_time = (self.current_time as i128 + milliseconds as i128) as i64;
    }
}

} // verus!
