use vstd::prelude::*;

verus! {

/// A non-negative span of time: whole seconds plus a nanosecond remainder.
///
/// This is the unit in which a clock reports elapsed time; the logical
/// calendar date of the stream advances by exactly these spans.
#[derive(Clone, Copy, PartialEq, Eq, Structural, Debug)]
pub struct Duration {
    pub secs: u64,
    pub nanos: u32,
}

impl Duration {
    /// A duration is well formed when the nanosecond part is a proper remainder
    /// of a second.
    pub open spec fn wf(self) -> bool {
        self.nanos < 1_000_000_000
    }

    /// Total length in nanoseconds.
    pub open spec fn total_nanos(self) -> int {
        self.secs * 1_000_000_000 + self.nanos
    }

    pub fn from_secs(secs: u64) -> (d: Duration)
        ensures
            d.wf(),
            d.total_nanos() == secs * 1_000_000_000,
    {
        Duration { secs, nanos: 0 }
    }

    pub fn from_nanos(nanos: u32) -> (d: Duration)
        requires
            nanos < 1_000_000_000,
        ensures
            d.wf(),
            d.total_nanos() == nanos,
    {
        Duration { secs: 0, nanos }
    }

    pub fn from_millis(millis: u32) -> (d: Duration)
        ensures
            d.wf(),
            d.total_nanos() == millis * 1_000_000,
    {
        let secs = (millis / 1000) as u64;
        let nanos = (millis % 1000) * 1_000_000;
        Duration { secs, nanos }
    }

    pub fn from_hours(hours: u32) -> (d: Duration)
        ensures
            d.wf(),
            d.total_nanos() == hours * 3_600_000_000_000i64,
    {
        Duration { secs: (hours as u64) * 3600, nanos: 0 }
    }
}

/// A point of logical time: seconds since the epoch plus a nanosecond
/// remainder.  The calendar day a timestamp falls on is its second count
/// divided by the number of seconds in a day.
#[derive(Clone, Copy, PartialEq, Eq, Structural, Debug)]
pub struct Timestamp {
    pub secs: u64,
    pub nanos: u32,
}

impl Timestamp {
    pub open spec fn wf(self) -> bool {
        self.nanos < 1_000_000_000
    }

    /// Total distance from the epoch in nanoseconds.
    pub open spec fn total_nanos(self) -> int {
        self.secs * 1_000_000_000 + self.nanos
    }

    /// The calendar day this timestamp falls on, counted from the epoch.
    pub open spec fn day(self) -> u64 {
        self.secs / 86400
    }

    pub fn from_secs(secs: u64) -> (t: Timestamp)
        ensures
            t.wf(),
            t.secs == secs,
            t.nanos == 0,
    {
        Timestamp { secs, nanos: 0 }
    }

    /// Computes the calendar day of this timestamp.
    pub fn compute_day(&self) -> (d: u64)
        ensures
            d == self.day(),
    {
        self.secs / 86400
    }

    /// Advances the timestamp by a duration; `None` when the result does not
    /// fit in the representation.
    pub fn checked_add(self, d: Duration) -> (r: Option<Timestamp>)
        requires
            self.wf(),
            d.wf(),
        ensures
            match r {
                Some(t) => {
                    &&& t.wf()
                    &&& t.total_nanos() == self.total_nanos() + d.total_nanos()
                    &&& t.day() >= self.day()
                },
                None => self.total_nanos() + d.total_nanos() > u64::MAX * 1_000_000_000
                    + 999_999_999,
            },
    {
        let nano_sum: u32 = self.nanos + d.nanos;
        let (carry, nanos): (u64, u32) = if nano_sum >= 1_000_000_000 {
            (1, nano_sum - 1_000_000_000)
        } else {
            (0, nano_sum)
        };
        match self.secs.checked_add(d.secs) {
            None => None,
            Some(s) => match s.checked_add(carry) {
                None => None,
                Some(secs) => {
                    let t = Timestamp { secs, nanos };
                    proof {
                        vstd::arithmetic::div_mod::lemma_div_is_ordered(
                            self.secs as int,
                            t.secs as int,
                            86400,
                        );
                    }
                    Some(t)
                },
            },
        }
    }
}

/// A source of elapsed time.  `now` captures a checkpoint; `elapsed` reports
/// the time passed since the checkpoint and advances the checkpoint by
/// exactly the reported span, so no elapsed time is counted twice or lost.
pub trait Clock: Sized {
    type Instant;

    /// Whatever the implementation needs to keep true between calls.
    spec fn inv(&self) -> bool;

    /// The implementation's transition relation: what one `elapsed` call may
    /// do, relating the state before, the reported duration, and the state
    /// after.  A wall clock promises nothing here; a deterministic clock
    /// pins the duration and the next state exactly, which is what makes
    /// replayed runs derivable from the contracts.
    spec fn elapsed_rel(self, d: Duration, next: Self) -> bool;

    /// Capturing a checkpoint is side-effect-free: it never changes the
    /// time source itself.
    fn now(&mut self) -> (i: Self::Instant)
        requires
            old(self).inv(),
        ensures
            *final(self) == *old(self),
    ;

    fn elapsed(&mut self, instant: &mut Self::Instant) -> (d: Duration)
        requires
            old(self).inv(),
        ensures
            final(self).inv(),
            d.wf(),
            (*old(self)).elapsed_rel(d, *final(self)),
    ;
}

/// Relies on std::time::Instant, an opaque monotonic clock reading.
#[verifier::external_type_specification]
#[verifier::external_body]
pub struct ExInstant(std::time::Instant);

/// Relies on std::time::Instant::now: captures the current monotonic time.
/// Nothing can be promised about the captured value.
#[verifier::external_body]
fn instant_now() -> std::time::Instant {
    std::time::Instant::now()
}

/// Relies on std::time::Instant::elapsed: the time passed since the instant.
/// The result depends on when the call happens, so nothing is promised of it.
#[verifier::external_body]
fn instant_elapsed(i: &std::time::Instant) -> core::time::Duration {
    i.elapsed()
}

/// Relies on std::time::Instant::checked_add: `None` instead of a panic when
/// the sum cannot be represented.
pub assume_specification[ std::time::Instant::checked_add ](
    i: &std::time::Instant,
    d: core::time::Duration,
) -> Option<std::time::Instant>;

/// Relies on core::time::Duration::as_secs: the whole-second part.
pub assume_specification[ core::time::Duration::as_secs ](d: &core::time::Duration) -> u64;

/// Relies on core::time::Duration::subsec_nanos: the fractional part in
/// nanoseconds, documented to be less than one billion.
pub assume_specification[ core::time::Duration::subsec_nanos ](d: &core::time::Duration) -> (n:
    u32)
    ensures
        n < 1_000_000_000,
;

/// The production clock: reads real monotonic time through std.
pub struct StdClock;

impl Clock for StdClock {
    type Instant = std::time::Instant;

    open spec fn inv(&self) -> bool {
        true
    }

    /// The wall clock's steps depend on real time, so nothing can be pinned.
    open spec fn elapsed_rel(self, d: Duration, next: StdClock) -> bool {
        true
    }

    fn now(&mut self) -> std::time::Instant {
        instant_now()
    }

    fn elapsed(&mut self, instant: &mut std::time::Instant) -> (d: Duration) {
        let e = instant_elapsed(instant);
        match instant.checked_add(e) {
            Some(advanced) => {
                *instant = advanced;
            },
            None => {},
        }
        let secs = e.as_secs();
        let nanos = e.subsec_nanos();
        Duration { secs, nanos }
    }
}

/// A deterministic clock that steps through the given increments in order and,
/// once they are exhausted, jumps 24 hours at a time.
pub struct FixedClock {
    /// The increments still to serve, in reverse order, so that popping the
    /// last element yields them in the order given.
    pub increments: Vec<Duration>,
}

impl FixedClock {
    pub fn new(increments: Vec<Duration>) -> (c: FixedClock)
        requires
            forall|i: int| 0 <= i < increments@.len() ==> (#[trigger] increments@[i]).wf(),
        ensures
            c.inv(),
            c.increments@ == increments@.reverse(),
    {
        let n = increments.len();
        let mut rev: Vec<Duration> = Vec::new();
        let mut i: usize = 0;
        while i < n
            invariant
                n == increments@.len(),
                i <= n,
                rev@.len() == i,
                forall|j: int| 0 <= j < i ==> rev@[j] == increments@[n - 1 - j],
                forall|j: int| 0 <= j < n ==> (#[trigger] increments@[j]).wf(),
            decreases n - i,
        {
            rev.push(increments[n - 1 - i]);
            i = i + 1;
        }
        let c = FixedClock { increments: rev };
        proof {
            assert(c.increments@ =~= increments@.reverse());
        }
        c
    }
}

impl Clock for FixedClock {
    type Instant = ();

    open spec fn inv(&self) -> bool {
        forall|i: int| 0 <= i < self.increments@.len() ==> (#[trigger] self.increments@[i]).wf()
    }

    /// Each step serves the next prearranged increment and drops it from the
    /// queue; an exhausted queue serves 24 hours and stays exhausted.
    open spec fn elapsed_rel(self, d: Duration, next: FixedClock) -> bool {
        if self.increments@.len() > 0 {
            d == self.increments@.last() && next.increments@ == self.increments@.drop_last()
        } else {
            d == (Duration { secs: 86400, nanos: 0 }) && next.increments@ == self.increments@
        }
    }

    fn now(&mut self) -> () {
        ()
    }

    fn elapsed(&mut self, _instant: &mut ()) -> (d: Duration) {
        let r = match self.increments.pop() {
            Some(d) => d,
            None => Duration { secs: 86400, nanos: 0 },
        };
        proof {
            if old(self).increments@.len() > 0 {
                assert(self.increments@ =~= old(self).increments@.drop_last());
            }
        }
        r
    }
}

} // verus!
