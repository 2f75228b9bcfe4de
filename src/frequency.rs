use vstd::prelude::*;

verus! {

/// One event per microsecond, in micro-hertz. Timestamps are given in
/// microseconds, so an elapsed time of `e` is an instant rate of
/// `RATE_SCALE / e` micro-hertz.
pub const RATE_SCALE: u64 = 1_000_000_000_000;

/// Arrival statistics of one message type.
///
/// `rate` is the smoothed frequency in micro-hertz. Each arrival after the
/// first with a positive elapsed time `e` (in microseconds) gives the
/// instant rate `RATE_SCALE / e`. The first such interval sets the estimate
/// to its instant rate; every later one blends its instant rate into the
/// estimate with the fixed weight one half, `(instant + old) / 2` rounded
/// down. `rated` records whether that first interval has been seen.
#[derive(Clone, Copy, Debug, PartialEq, Eq)]
pub struct FrequencyBlock {
    pub count: u64,
    pub previous: Option<u64>,
    pub rate: u64,
    pub rated: bool,
}

/// The estimate before any arrival.
pub open spec fn initial_block() -> FrequencyBlock {
    FrequencyBlock { count: 0, previous: None, rate: 0, rated: false }
}

/// The rate, in micro-hertz, of one arrival `elapsed` microseconds after
/// the one before.
pub open spec fn instant_rate(elapsed: nat) -> nat
    recommends
        elapsed > 0,
{
    RATE_SCALE as nat / elapsed
}

/// The new estimate from the old one and an instant rate: the instant rate
/// itself where no estimate was made yet, else their mean rounded down.
pub open spec fn blended(old: nat, instant: nat, rated: bool) -> nat {
    if rated {
        (instant + old) / 2
    } else {
        instant
    }
}

/// The count after one more arrival; it stays at the largest `u64`.
pub open spec fn next_count(count: u64) -> u64 {
    if count < u64::MAX {
        (count + 1) as u64
    } else {
        count
    }
}

/// The block after an arrival at time `now`.
pub open spec fn updated(b: FrequencyBlock, now: u64) -> FrequencyBlock {
    let (rate, rated) = match b.previous {
        Some(prev) if now > prev => (
            blended(b.rate as nat, instant_rate((now - prev) as nat), b.rated) as u64,
            true,
        ),
        _ => (b.rate, b.rated),
    };
    FrequencyBlock { count: next_count(b.count), previous: Some(now), rate, rated }
}

impl FrequencyBlock {
    /// A block with no arrival seen.
    pub fn new() -> (r: FrequencyBlock)
        ensures
            r == initial_block(),
    {
        FrequencyBlock { count: 0, previous: None, rate: 0, rated: false }
    }

    /// Records an arrival at time `now` (microseconds).
    pub fn update(&mut self, now: u64)
        ensures
            *final(self) == updated(*old(self), now),
    {
        match self.previous {
            None => {},
            Some(prev) => {
                if now > prev {
                    let instant: u64 = RATE_SCALE / (now - prev);
                    if self.rated {
                        let sum: u128 = instant as u128 + self.rate as u128;
                        self.rate = (sum / 2) as u64;
                    } else {
                        self.rate = instant;
                        self.rated = true;
                    }
                }
            },
        }
        if self.count < u64::MAX {
            self.count = self.count + 1;
        }
        self.previous = Some(now);
    }
}

/// The first arrival leaves the rate at zero; a second one after a positive
/// elapsed time sets it to exactly the instant rate of that interval.
pub proof fn law_first_rate_is_instant(t1: u64, t2: u64)
    requires
        t2 > t1,
    ensures
        updated(initial_block(), t1).rate == 0,
        updated(updated(initial_block(), t1), t2).rate == instant_rate((t2 - t1) as nat),
{
}

/// Once an estimate has been made, every later arrival after a positive
/// elapsed time blends its instant rate in with the weight one half,
/// whatever the estimate is, zero included.
pub proof fn law_later_rates_blend(b: FrequencyBlock, prev: u64, now: u64)
    requires
        b.rated,
        b.previous == Some(prev),
        now > prev,
    ensures
        updated(b, now).rate == (instant_rate((now - prev) as nat) + b.rate) / 2,
        updated(b, now).rated,
{
}

} // verus!
