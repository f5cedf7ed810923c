//! Integer random number generators and trigger counters.
use vstd::prelude::*;

verus! {

/// `a + b` modulo `2^64`.
pub open spec fn add_mod64(a: u64, b: u64) -> u64 {
    ((a + b) % 0x1_0000_0000_0000_0000) as u64
}

/// `a * b` modulo `2^64`.
pub open spec fn mul_mod64(a: u64, b: u64) -> u64 {
    ((a * b) % 0x1_0000_0000_0000_0000) as u64
}

/// `x` rotated left by `k` bits, `0 < k < 64`.
pub open spec fn rotl64(x: u64, k: u64) -> u64 {
    (x << k) | (x >> ((64 - k) as u64))
}

/// The state after one step of xoroshiro128, and the number it yields.
pub open spec fn xoroshiro_step(s: [u64; 2]) -> ([u64; 2], u64) {
    let s0 = s[0];
    let s1 = s[1] ^ s0;
    ([rotl64(s0, 55) ^ s1 ^ (s1 << 14u64), rotl64(s1, 36)], add_mod64(s[0], s[1]))
}

/// `a + b`, wrapping around.
fn wrapping_add64(a: u64, b: u64) -> (r: u64)
    ensures
        r == add_mod64(a, b),
{
    let r = a.wrapping_add(b);
    proof {
        if a + b > u64::MAX {
            assert((a + b) % 0x1_0000_0000_0000_0000 == a + b - 0x1_0000_0000_0000_0000);
        } else {
            assert((a + b) % 0x1_0000_0000_0000_0000 == a + b);
        }
    }
    r
}

/// `x` rotated left by `k` bits.
fn rotl(x: u64, k: u64) -> (r: u64)
    requires
        0 < k < 64,
    ensures
        r == rotl64(x, k),
{
    (x << k) | (x >> (64 - k))
}

/// Advances the xoroshiro128 state and returns the next pseudo random number.
pub fn next_xoroshiro128(state: &mut [u64; 2]) -> (r: u64)
    ensures
        (*final(state), r) == xoroshiro_step(*old(state)),
{
    let s0: u64 = state[0];
    let mut s1: u64 = state[1];
    let result: u64 = wrapping_add64(s0, s1);
    s1 = s1 ^ s0;
    state.set(0, rotl(s0, 55) ^ s1 ^ (s1 << 14u64));
    state.set(1, rotl(s1, 36));
    proof {
        assert(state@ =~= xoroshiro_step(*old(state)).0@);
    }
    result
}

/// A random number generator based on xoroshiro128.
#[derive(Debug, Copy, Clone, PartialEq)]
pub struct RandGen {
    r: [u64; 2],
}

impl View for RandGen {
    type V = [u64; 2];

    closed spec fn view(&self) -> [u64; 2] {
        self.r
    }
}

impl RandGen {
    /// A generator with the fixed start state.
    pub fn new() -> (r: Self)
        ensures
            r@ == [0x193a6754a8a7d469u64, 0x97830e05113ba7bbu64],
    {
        RandGen { r: [0x193a6754a8a7d469, 0x97830e05113ba7bb] }
    }

    /// The next random unsigned 64 bit number.
    pub fn next(&mut self) -> (r: u64)
        ensures
            (final(self)@, r) == xoroshiro_step(old(self)@),
    {
        next_xoroshiro128(&mut self.r)
    }
}

/// The number splitmix64 yields for the (already advanced) state `z`.
pub open spec fn splitmix_mix(z: u64) -> u64 {
    let z1 = mul_mod64(z ^ (z >> 30u64), 0xbf58476d1ce4e5b9);
    let z2 = mul_mod64(z1 ^ (z1 >> 27u64), 0x94d049bb133111eb);
    z2 ^ (z2 >> 31u64)
}

/// The increment of the splitmix64 state.
pub open spec fn splitmix_phi() -> u64 {
    0x9e3779b97f4a7c15
}

/// `a * b`, wrapping around.
fn wrapping_mul64(a: u64, b: u64) -> (r: u64)
    ensures
        r == mul_mod64(a, b),
{
    a.wrapping_mul(b)
}

/// The seconds since the Unix epoch from the system clock, if the clock is
/// after it. Its contract states nothing: the value depends on the time.
#[verifier::external_body]
fn unix_secs() -> (r: Option<u64>) {
    match std::time::SystemTime::now().duration_since(std::time::SystemTime::UNIX_EPOCH) {
        Ok(n) => Some(n.as_secs()),
        Err(_) => None,
    }
}

/// A splitmix64 random number generator.
#[derive(Debug, Copy, Clone)]
pub struct SplitMix64(pub u64);

impl SplitMix64 {
    /// A generator with the given state.
    pub fn new(seed: u64) -> (r: Self)
        ensures
            r.0 == seed,
    {
        Self(seed)
    }

    /// A generator whose state has the bits of `seed`.
    pub fn new_from_i64(seed: i64) -> (r: Self)
        ensures
            r.0 == seed as u64,
    {
        Self::new(seed as u64)
    }

    /// A generator seeded from the seconds on the clock; 123456789 for a clock
    /// before the Unix epoch.
    pub fn new_time_seed() -> (r: Self) {
        Self::seed_from_clock(unix_secs())
    }

    /// A generator seeded with the seconds read from the clock, or 123456789
    /// without a reading.
    pub fn seed_from_clock(secs: Option<u64>) -> (r: Self)
        ensures
            r.0 == match secs {
                Some(n) => n,
                None => 123456789u64,
            },
    {
        match secs {
            Some(n) => Self::new(n),
            None => Self::new(123456789),
        }
    }

    /// Advances the state and returns the next random unsigned 64 bit number.
    pub fn next_u64(&mut self) -> (r: u64)
        ensures
            final(self).0 == add_mod64(old(self).0, splitmix_phi()),
            r == splitmix_mix(final(self).0),
    {
        self.0 = wrapping_add64(self.0, 0x9e3779b97f4a7c15);
        let z = self.0;
        let z1 = wrapping_mul64(z ^ (z >> 30u64), 0xbf58476d1ce4e5b9);
        let z2 = wrapping_mul64(z1 ^ (z1 >> 27u64), 0x94d049bb133111eb);
        z2 ^ (z2 >> 31u64)
    }

    /// The next random signed 64 bit number: the bits of [`SplitMix64::next_u64`].
    pub fn next_i64(&mut self) -> (r: i64)
        ensures
            final(self).0 == add_mod64(old(self).0, splitmix_phi()),
            r == splitmix_mix(final(self).0) as i64,
    {
        let u = self.next_u64();
        u as i64
    }
}

/// A random number generator based on splitmix64.
#[derive(Debug, Copy, Clone)]
pub struct Rng {
    sm: SplitMix64,
}

impl View for Rng {
    type V = u64;

    closed spec fn view(&self) -> u64 {
        self.sm.0
    }
}

impl Rng {
    /// A generator with the fixed start state.
    pub fn new() -> (r: Self)
        ensures
            r@ == 0x193a67f4a8a6d769u64,
    {
        Self { sm: SplitMix64::new(0x193a67f4a8a6d769) }
    }

    /// Restarts the generator from `seed`.
    pub fn seed(&mut self, seed: u64)
        ensures
            final(self)@ == seed,
    {
        self.sm = SplitMix64::new(seed);
    }

    /// The next random unsigned 64 bit number.
    pub fn next_u64(&mut self) -> (r: u64)
        ensures
            final(self)@ == add_mod64(old(self)@, splitmix_phi()),
            r == splitmix_mix(final(self)@),
    {
        self.sm.next_u64()
    }
}

/// The length of a trigger at 44.1 kHz: 2 milliseconds, rounded up to whole samples.
pub const TRIG_SIGNAL_LENGTH_SAMPLES: u32 = 89;

/// A trigger signal generator: after [`TrigSignal::trigger`] it sends a pulse
/// of `length` samples.
#[derive(Debug, Clone, Copy)]
pub struct TrigSignal {
    length: u32,
    scount: u32,
}

impl View for TrigSignal {
    type V = (u32, u32);

    closed spec fn view(&self) -> (u32, u32) {
        (self.length, self.scount)
    }
}

impl TrigSignal {
    /// A generator for 2 millisecond pulses at 44.1 kHz, with no pulse pending.
    pub fn new() -> (r: Self)
        ensures
            r@ == (TRIG_SIGNAL_LENGTH_SAMPLES, 0u32),
    {
        Self { length: TRIG_SIGNAL_LENGTH_SAMPLES, scount: 0 }
    }

    /// Drops a pending pulse.
    pub fn reset(&mut self)
        ensures
            final(self)@ == (old(self)@.0, 0u32),
    {
        self.scount = 0;
    }

    /// Starts a pulse.
    pub fn trigger(&mut self)
        ensures
            final(self)@ == (old(self)@.0, old(self)@.0),
    {
        self.scount = self.length;
    }

    /// Sets the pulse length in samples and drops a pending pulse.
    pub fn set_length(&mut self, samples: u32)
        ensures
            final(self)@ == (samples, 0u32),
    {
        self.length = samples;
        self.scount = 0;
    }

    /// Whether the pulse is high at this sample; a pending pulse counts one
    /// sample down.
    pub fn next(&mut self) -> (r: bool)
        ensures
            r == (old(self)@.1 > 0),
            final(self)@ == (old(self)@.0, if r { (old(self)@.1 - 1) as u32 } else { 0u32 }),
    {
        if self.scount > 0 {
            self.scount -= 1;
            true
        } else {
            false
        }
    }
}

/// Where an input sample lies against the trigger thresholds: at or below
/// the low one, above the high one, or between them.
#[derive(Debug, Clone, Copy, PartialEq, Eq, Structural)]
pub enum TrigLevel {
    Low,
    Mid,
    High,
}

/// A trigger detector: it remembers whether the input is in the triggered state.
#[derive(Debug, Clone, Copy)]
pub struct Trigger {
    triggered: bool,
}

impl View for Trigger {
    type V = bool;

    closed spec fn view(&self) -> bool {
        self.triggered
    }
}

impl Trigger {
    /// A detector that is not triggered.
    pub fn new() -> (r: Self)
        ensures
            !r@,
    {
        Self { triggered: false }
    }

    /// Leaves the triggered state.
    pub fn reset(&mut self)
        ensures
            !final(self)@,
    {
        self.triggered = false;
    }

    /// Whether an input sample at `level` is a new trigger: it rises above the
    /// high threshold while the detector is not triggered. A triggered
    /// detector leaves that state at or below the low threshold.
    pub fn check_trigger(&mut self, level: TrigLevel) -> (r: bool)
        ensures
            old(self)@ ==> !r && final(self)@ == (level != TrigLevel::Low),
            !old(self)@ ==> r == (level == TrigLevel::High) && final(self)@ == r,
    {
        if self.triggered {
            if level == TrigLevel::Low {
                self.triggered = false;
            }
            false
        } else if level == TrigLevel::High {
            self.triggered = true;
            true
        } else {
            false
        }
    }
}

/// What a trigger sample clock holds: whether the last input was a trigger,
/// the samples between the last two triggers and the samples since the last one.
pub ghost struct SampleClockSpec {
    pub prev_trigger: bool,
    pub clock_samples: u32,
    pub counter: u32,
}

/// Counts the samples between triggers.
#[derive(Debug, Clone, Copy)]
pub struct TriggerSampleClock {
    prev_trigger: bool,
    clock_samples: u32,
    counter: u32,
}

impl View for TriggerSampleClock {
    type V = SampleClockSpec;

    closed spec fn view(&self) -> SampleClockSpec {
        SampleClockSpec { prev_trigger: self.prev_trigger, clock_samples: self.clock_samples, counter: self.counter }
    }
}

impl TriggerSampleClock {
    /// A clock that has seen a trigger and counted nothing.
    pub fn new() -> (r: Self)
        ensures
            r@ == (SampleClockSpec { prev_trigger: true, clock_samples: 0, counter: 0 }),
    {
        Self { prev_trigger: true, clock_samples: 0, counter: 0 }
    }

    /// Forgets the counted samples.
    pub fn reset(&mut self)
        ensures
            final(self)@ == (SampleClockSpec { clock_samples: 0, counter: 0, ..old(self)@ }),
    {
        self.clock_samples = 0;
        self.counter = 0;
    }

    /// Counts one sample at `level` and returns the samples between the last
    /// two triggers: a rise above the high threshold after the input fell to
    /// or below the low one is a trigger.
    pub fn next(&mut self, level: TrigLevel) -> (r: u32)
        requires
            old(self)@.counter < u32::MAX,
        ensures
            final(self)@ == sample_clock_step(old(self)@, level),
            r == final(self)@.clock_samples,
    {
        if self.prev_trigger {
            if level == TrigLevel::Low {
                self.prev_trigger = false;
            }
        } else if level == TrigLevel::High {
            self.prev_trigger = true;
            self.clock_samples = self.counter;
            self.counter = 0;
        }
        self.counter += 1;
        self.clock_samples
    }
}

/// The state of a trigger sample clock after one sample at `level`.
pub open spec fn sample_clock_step(c: SampleClockSpec, level: TrigLevel) -> SampleClockSpec {
    if c.prev_trigger {
        SampleClockSpec { prev_trigger: level != TrigLevel::Low, counter: (c.counter + 1) as u32, ..c }
    } else if level == TrigLevel::High {
        SampleClockSpec { prev_trigger: true, clock_samples: c.counter, counter: 1 }
    } else {
        SampleClockSpec { counter: (c.counter + 1) as u32, ..c }
    }
}

} // verus!
