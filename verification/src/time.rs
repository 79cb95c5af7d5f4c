//! Points in time, counted in seconds since the Unix epoch.

use vstd::prelude::*;

verus! {

/// Number of seconds in a day.
pub open spec fn seconds_in_a_day() -> int {
    86_400
}

/// Whether `v` is the value of some `i64`.
pub open spec fn fits_i64(v: int) -> bool {
    i64::MIN <= v <= i64::MAX
}

/// The second reached `days` days after second `seconds`, where both the
/// span in seconds and the sum are values of an `i64`.
pub open spec fn days_after(seconds: int, days: int) -> Option<int> {
    if fits_i64(days * seconds_in_a_day()) && fits_i64(seconds + days * seconds_in_a_day()) {
        Some(seconds + days * seconds_in_a_day())
    } else {
        None
    }
}

/// The start of the minute that second `seconds` lies in.
pub open spec fn minute_of(seconds: int) -> int {
    seconds - seconds % 60
}

/// A Unix timestamp.
#[derive(Clone, Copy, Debug, PartialEq, Eq, Structural)]
pub struct Instant {
    pub seconds_since_unix_epoch: i64,
}

impl View for Instant {
    type V = int;

    open spec fn view(&self) -> int {
        self.seconds_since_unix_epoch as int
    }
}

impl Instant {
    /// The instant that many seconds after the Unix epoch.
    pub fn new(seconds_since_unix_epoch: i64) -> (r: Instant)
        ensures
            r@ == seconds_since_unix_epoch,
    {
        Instant { seconds_since_unix_epoch }
    }

    /// The instant `days` days later, or `None` on overflow.
    pub fn add_days(&self, days: i64) -> (r: Option<Instant>)
        ensures
            r.is_some() <==> days_after(self@, days as int).is_some(),
            r.is_some() ==> r.unwrap()@ == days_after(self@, days as int).unwrap(),
    {
        match outside_add_days(self.seconds_since_unix_epoch, days) {
            Some(seconds) => Some(Instant { seconds_since_unix_epoch: seconds }),
            None => None,
        }
    }

    /// This instant rounded down to the whole minute, or `None` where that
    /// lies before the first instant there is.
    pub fn floor_to_minute(&self) -> (r: Option<Instant>)
        ensures
            r is Some <==> fits_i64(minute_of(self@)),
            r is Some ==> r.unwrap()@ == minute_of(self@),
    {
        let seconds = self.seconds_since_unix_epoch;
        let past: i64 = if seconds >= 0 {
            seconds % 60
        } else {
            59 - (-(seconds + 1)) % 60
        };
        assert(past == self@ % 60);
        match seconds.checked_sub(past) {
            Some(minute) => Some(Instant { seconds_since_unix_epoch: minute }),
            None => None,
        }
    }

    /// Whether this instant is `other` or later.
    pub fn is_at_or_after(&self, other: Instant) -> (r: bool)
        ensures
            r == (self@ >= other@),
    {
        self.seconds_since_unix_epoch >= other.seconds_since_unix_epoch
    }
}

/// `Instant::add_days` of scrypto: multiplies the days by 86 400 and adds the
/// result to the timestamp, both checked in `i64`; `None` when either
/// overflows.
#[verifier::external_body]
fn outside_add_days(seconds: i64, days: i64) -> (r: Option<i64>)
    ensures
        r.is_some() <==> days_after(seconds as int, days as int).is_some(),
        r.is_some() ==> r.unwrap() == days_after(seconds as int, days as int).unwrap(),
{
    match scrypto::time::Instant::new(seconds).add_days(days) {
        Some(later) => Some(later.seconds_since_unix_epoch),
        None => None,
    }
}

} // verus!
