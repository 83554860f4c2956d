//! Readings of the monotonic clock and of the wall clock, as plain numbers.
use vstd::prelude::*;

verus! {

/// The monotonic clock's own reading, from which a [`Clock`] counts.
#[verifier::external_type_specification]
#[verifier::external_body]
pub struct ExInstant(std::time::Instant);

/// A moment on the monotonic clock: the time since its [`Clock`] was started.
#[derive(Clone, Copy, Debug, PartialEq, Eq)]
pub struct Instant {
    secs: u64,
    nanos: u32,
}

impl Instant {
    /// The nanoseconds that have passed since the clock was started.
    pub closed spec fn nanos_since_start(self) -> int {
        self.secs * 1_000_000_000 + self.nanos
    }

    #[verifier::type_invariant]
    closed spec fn normal(self) -> bool {
        self.nanos < 1_000_000_000
    }

    /// The moment `secs` seconds and `nanos` nanoseconds after the clock's start. The nanoseconds
    /// do not fill a second.
    pub fn new(secs: u64, nanos: u32) -> (r: Instant)
        requires
            nanos < 1_000_000_000,
        ensures
            r.nanos_since_start() == secs * 1_000_000_000 + nanos,
    {
        Instant { secs, nanos }
    }

    /// The whole seconds from `earlier` to this moment; zero if `earlier` is later.
    pub fn secs_since(&self, earlier: Instant) -> (r: u64)
        ensures
            r == elapsed_secs(*self, earlier),
    {
        proof {
            use_type_invariant(self);
            use_type_invariant(&earlier);
        }
        if self.secs < earlier.secs {
            0
        } else if self.nanos >= earlier.nanos {
            self.secs - earlier.secs
        } else if self.secs == earlier.secs {
            0
        } else {
            self.secs - earlier.secs - 1
        }
    }
}

/// The whole seconds from `earlier` to `later`; zero if `earlier` is the later one.
pub open spec fn elapsed_secs(later: Instant, earlier: Instant) -> nat {
    if later.nanos_since_start() >= earlier.nanos_since_start() {
        ((later.nanos_since_start() - earlier.nanos_since_start()) / 1_000_000_000) as nat
    } else {
        0
    }
}

/// A monotonic clock that counts from the moment at which it was started.
#[derive(Clone, Copy)]
pub struct Clock {
    start: std::time::Instant,
}

impl Clock {
    /// Whether this clock counts from a reading of the machine's monotonic clock.
    pub closed spec fn was_started(&self) -> bool {
        call_ensures(monotonic_now, (), self.start)
    }

    /// Whether `now` is what this clock shows: the time since its start, as the machine's monotonic
    /// clock tells it.
    pub closed spec fn reads(&self, now: Instant) -> bool {
        call_ensures(time_since, (&self.start,), (now.secs, now.nanos))
    }

    /// Starts a clock. From which moment it counts is the machine's to say.
    pub fn start() -> (r: Clock)
        ensures
            r.was_started(),
    {
        Clock { start: monotonic_now() }
    }

    /// The current moment on this clock. How much time has passed is the machine's to say.
    pub fn now(&self) -> (r: Instant)
        ensures
            self.reads(r),
    {
        let (secs, nanos) = time_since(&self.start);
        Instant { secs, nanos }
    }
}

/// Whether the machine's wall clock shows `secs` seconds and `nanos` nanoseconds since the start of
/// 1970.
pub closed spec fn wall_clock_reads(secs: u64, nanos: u32) -> bool {
    call_ensures(unix_time, (), (secs, nanos))
}

/// The wall clock's time since the start of 1970, in seconds and nanoseconds. What time it is is the
/// machine's to say.
pub(crate) fn wall_clock() -> (r: (u64, u32))
    ensures
        wall_clock_reads(r.0, r.1),
        r.1 < 1_000_000_000,
{
    unix_time()
}

/// Reads the monotonic clock: `std::time::Instant::now`. Nothing is claimed of the reading.
#[verifier::external_body]
fn monotonic_now() -> std::time::Instant {
    std::time::Instant::now()
}

/// The time that has passed since `start`, in seconds and nanoseconds, from
/// `std::time::Instant::elapsed`. How much has passed is the clock's to say; claimed is only that
/// the nanoseconds do not fill a second.
#[verifier::external_body]
fn time_since(start: &std::time::Instant) -> (r: (u64, u32))
    ensures
        r.1 < 1_000_000_000,
{
    let passed = start.elapsed();
    (passed.as_secs(), passed.subsec_nanos())
}

/// The wall clock's time since the start of 1970, in seconds and nanoseconds, from
/// `std::time::SystemTime::now`; zero if the clock stands before 1970. What time it is is the
/// clock's to say; claimed is only that the nanoseconds do not fill a second.
#[verifier::external_body]
fn unix_time() -> (r: (u64, u32))
    ensures
        r.1 < 1_000_000_000,
{
    let passed = std::time::SystemTime::now()
        .duration_since(std::time::UNIX_EPOCH)
        .unwrap_or_default();
    (passed.as_secs(), passed.subsec_nanos())
}

/// The seconds from one moment to another are the whole ones: as many as have passed, and less than
/// one more. None have passed to a moment that is not later.
pub proof fn whole_seconds_are_counted(later: Instant, earlier: Instant, r: u64)
    requires
        call_ensures(Instant::secs_since, (&later, earlier), r),
    ensures
        later.nanos_since_start() >= earlier.nanos_since_start() ==> r * 1_000_000_000
            <= later.nanos_since_start() - earlier.nanos_since_start() < (r + 1) * 1_000_000_000,
        later.nanos_since_start() < earlier.nanos_since_start() ==> r == 0,
        r == elapsed_secs(later, earlier),
{
}

/// A moment is as many nanoseconds after the start as were asked for.
pub proof fn moments_are_counted_in_nanoseconds(secs: u64, nanos: u32, r: Instant)
    requires
        nanos < 1_000_000_000,
        call_ensures(Instant::new, (secs, nanos), r),
    ensures
        r.nanos_since_start() == secs * 1_000_000_000 + nanos,
{
}

/// What a clock shows is the time since its start, neither shifted nor scaled; and likewise the wall
/// clock since 1970.
proof fn clocks_show_what_the_machine_tells(clock: Clock, now: Instant, secs: u64, nanos: u32)
    requires
        clock.reads(now),
        wall_clock_reads(secs, nanos),
    ensures
        exists|t: (u64, u32)| #[trigger]
            call_ensures(time_since, (&clock.start,), t) && now.nanos_since_start() == t.0
                * 1_000_000_000 + t.1,
        call_ensures(unix_time, (), (secs, nanos)),
        nanos < 1_000_000_000,
{
}

} // verus!
