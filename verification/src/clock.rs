//! The step clock. Driven by the sample count, because that is the only honest clock.
//!
//! A wall clock timer drifts against the audio device and a timer thread can be late by
//! whole milliseconds. Counting the frames the callback has actually rendered cannot drift,
//! because it *is* what the speaker heard.
//!
//! A step is rarely a whole number of frames, so time is counted in ticks, of which both a frame
//! and a step hold a whole number. A frame is as many ticks as the tempo has units of 2^-19 BPM,
//! which is every bit of any tempo between [`SLOWEST`] and [`FASTEST`]; a step is then the sample
//! rate times fifteen (the seconds in a minute over the steps in a beat) times 2^19.

use vstd::arithmetic::div_mod::{
    lemma_add_mod_noop, lemma_fundamental_div_mod, lemma_fundamental_div_mod_converse,
    lemma_small_mod,
};
use vstd::arithmetic::power2::{lemma2_to64, pow2};
use vstd::prelude::*;

use crate::single::Single;

verus! {

/// The slowest the clock will go: 20 beats a minute. Below that the maths still works but the
/// UI has no business asking.
pub const SLOWEST: u32 = 0x41a0_0000;

/// The fastest the clock will go: 400 beats a minute.
pub const FASTEST: u32 = 0x43c8_0000;

/// Ticks in a step for each frame in a second.
pub const TICKS_PER_STEP: u64 = 0x78_0000;

/// A tempo the clock can keep.
pub open spec fn keepable(bpm: Single) -> bool {
    SLOWEST <= bpm.bits <= FASTEST
}

/// A tempo the clock can keep, in units of 2^-19 beats a minute.
pub open spec fn tempo(bpm: Single) -> int {
    let fraction = bpm.bits % 0x80_0000 + 0x80_0000;
    let exponent = bpm.bits / 0x80_0000;
    if exponent <= 131 {
        fraction
    } else if exponent == 132 {
        fraction * 2
    } else if exponent == 133 {
        fraction * 4
    } else if exponent == 134 {
        fraction * 8
    } else {
        fraction * 16
    }
}

/// The tempo the clock keeps when asked for one.
pub open spec fn kept(bpm: Single) -> Single {
    bpm.clamped(Single { bits: SLOWEST }, Single { bits: FASTEST })
}

/// Where the clock is, and what it is counting.
#[verifier::ext_equal]
pub struct ClockModel {
    pub rate: u32,
    pub bpm: Single,
    /// Ticks since the current step started.
    pub ticks: int,
    pub step: u32,
    pub steps: u32,
    /// A step boundary has been reached and nothing has triggered it yet.
    pub due: bool,
    /// The last step of the pattern has gone by since anyone asked.
    pub wrapped: bool,
}

impl ClockModel {
    pub open spec fn frame_ticks(self) -> int {
        tempo(self.bpm)
    }

    pub open spec fn step_ticks(self) -> int {
        self.rate * TICKS_PER_STEP
    }

    pub open spec fn wf(self) -> bool {
        &&& self.rate >= 1
        &&& keepable(self.bpm)
        &&& 0 <= self.ticks <= self.step_ticks()
        &&& self.step < self.steps
    }

    /// How many steps go by in so many frames.
    pub open spec fn steps_gone(self, frames: int) -> int {
        (self.ticks + frames * self.frame_ticks()) / self.step_ticks()
    }

    /// The clock so many frames later.
    pub open spec fn advanced(self, frames: int) -> ClockModel {
        let gone = self.steps_gone(frames);
        ClockModel {
            ticks: (self.ticks + frames * self.frame_ticks()) % self.step_ticks(),
            step: ((self.step + gone) % (self.steps as int)) as u32,
            due: self.due || gone > 0,
            wrapped: self.wrapped || self.step + gone >= self.steps,
            ..self
        }
    }

    /// Whole frames, one at the least, before the next step is due.
    pub open spec fn frames_left(self) -> int {
        let left = self.step_ticks() - self.ticks;
        if left <= self.frame_ticks() {
            1
        } else {
            (left + self.frame_ticks() - 1) / self.frame_ticks()
        }
    }

    pub open spec fn with_steps(self, steps: u32) -> ClockModel {
        let steps: u32 = if steps < 1 { 1 } else { steps };
        if self.step >= steps {
            ClockModel { steps, step: 0, due: true, ..self }
        } else {
            ClockModel { steps, ..self }
        }
    }

    pub open spec fn jumped(self, step: u32) -> ClockModel {
        ClockModel {
            step: if step < self.steps { step } else { (self.steps - 1) as u32 },
            ticks: 0,
            due: true,
            wrapped: false,
            ..self
        }
    }

    /// The clock at a new tempo. As many frames into its step as it was, to the tick, and no
    /// further into it than its end.
    pub open spec fn retimed(self, bpm: Single) -> ClockModel {
        let next = kept(bpm);
        let moved = self.ticks * tempo(next) / tempo(self.bpm);
        ClockModel {
            bpm: next,
            ticks: if moved > self.step_ticks() { self.step_ticks() } else { moved },
            ..self
        }
    }

    pub open spec fn taken(self) -> ClockModel {
        ClockModel { due: false, ..self }
    }

    pub open spec fn unwrapped(self) -> ClockModel {
        ClockModel { wrapped: false, ..self }
    }

    pub open spec fn started(rate: u32, bpm: Single, steps: u32) -> ClockModel {
        ClockModel {
            rate: if rate < 1 { 1 } else { rate },
            bpm: kept(bpm),
            ticks: 0,
            step: 0,
            steps: if steps < 1 { 1 } else { steps },
            due: true,
            wrapped: false,
        }
    }
}

/// Where the pattern is up to, in frames.
#[derive(Debug)]
pub struct StepClock {
    rate: u32,
    bpm: Single,
    ticks: u128,
    step: u32,
    steps: u32,
    pending: bool,
    wrapped: bool,
}

impl View for StepClock {
    type V = ClockModel;

    closed spec fn view(&self) -> ClockModel {
        ClockModel {
            rate: self.rate,
            bpm: self.bpm,
            ticks: self.ticks as int,
            step: self.step,
            steps: self.steps,
            due: self.pending,
            wrapped: self.wrapped,
        }
    }
}

fn tempo_of(bpm: Single) -> (r: u64)
    requires
        keepable(bpm),
    ensures
        r == tempo(bpm),
        0xa0_0000 <= r <= 0xc80_0000,
{
    let fraction: u64 = (bpm.bits % 0x80_0000 + 0x80_0000) as u64;
    let exponent: u32 = bpm.bits / 0x80_0000;
    if exponent <= 131 {
        fraction
    } else if exponent == 132 {
        fraction * 2
    } else if exponent == 133 {
        fraction * 4
    } else if exponent == 134 {
        fraction * 8
    } else {
        fraction * 16
    }
}

/// A tempo the clock keeps is between 20 and 400 beats a minute.
pub proof fn lemma_tempo(bpm: Single)
    requires
        keepable(bpm),
    ensures
        0xa0_0000 <= tempo(bpm) <= 0xc80_0000,
{
}

impl StepClock {
    pub fn new(sample_rate: u32, bpm: Single, steps: u32) -> (r: Self)
        requires
            !bpm.nan(),
        ensures
            r@ == ClockModel::started(sample_rate, bpm, steps),
            r@.wf(),
    {
        StepClock {
            rate: if sample_rate < 1 {
                1
            } else {
                sample_rate
            },
            bpm: bpm.clamp(Single { bits: SLOWEST }, Single { bits: FASTEST }),
            ticks: 0,
            step: 0,
            steps: if steps < 1 {
                1
            } else {
                steps
            },
            pending: true,
            wrapped: false,
        }
    }

    /// Frames in one step at the current tempo, as the ticks in a step and the ticks in a
    /// frame. Fractional on purpose: rounding here is where "my loop drifts against the
    /// metronome" comes from.
    pub fn samples_per_step(&self) -> (r: (u64, u64))
        requires
            self@.wf(),
        ensures
            r.0 == self@.step_ticks(),
            r.1 == self@.frame_ticks(),
            r.1 > 0,
    {
        (self.rate as u64 * TICKS_PER_STEP, tempo_of(self.bpm))
    }

    /// Frames a second.
    pub fn rate(&self) -> (r: u32)
        ensures
            r == self@.rate,
    {
        self.rate
    }

    pub fn bpm(&self) -> (r: Single)
        ensures
            r == self@.bpm,
    {
        self.bpm
    }

    pub fn step(&self) -> (r: u32)
        ensures
            r == self@.step,
    {
        self.step
    }

    pub fn steps(&self) -> (r: u32)
        ensures
            r == self@.steps,
    {
        self.steps
    }

    /// How far through the current step, as ticks gone and ticks in a step. The first is never
    /// more than the second.
    pub fn progress(&self) -> (r: (u64, u64))
        requires
            self@.wf(),
        ensures
            r.0 == self@.ticks,
            r.1 == self@.step_ticks(),
            r.0 <= r.1,
    {
        (self.ticks as u64, self.rate as u64 * TICKS_PER_STEP)
    }

    pub fn set_bpm(&mut self, bpm: Single)
        requires
            old(self)@.wf(),
            !bpm.nan(),
        ensures
            final(self)@ == old(self)@.retimed(bpm),
            final(self)@.wf(),
    {
        let next = bpm.clamp(Single { bits: SLOWEST }, Single { bits: FASTEST });
        let was: u128 = tempo_of(self.bpm) as u128;
        let now: u128 = tempo_of(next) as u128;
        let step: u128 = (self.rate as u64 * TICKS_PER_STEP) as u128;
        proof {
            let ticks = self.ticks as int;
            assert(0 <= ticks * now <= 0x80_0000_0000_0000 * 0xc80_0000) by (nonlinear_arith)
                requires
                    0 <= ticks <= 0x80_0000_0000_0000,
                    0 <= now <= 0xc80_0000,
            ;
            assert(ticks * now / (was as int) >= 0) by (nonlinear_arith)
                requires
                    ticks * now >= 0,
                    was > 0,
            ;
        }
        // Keep the position within the new, possibly shorter, step.
        let moved: u128 = self.ticks * now / was;
        self.bpm = next;
        self.ticks = if moved > step {
            step
        } else {
            moved
        };
    }

    pub fn set_steps(&mut self, steps: u32)
        requires
            old(self)@.wf(),
        ensures
            final(self)@ == old(self)@.with_steps(steps),
            final(self)@.wf(),
    {
        self.steps = if steps < 1 {
            1
        } else {
            steps
        };
        if self.step >= self.steps {
            self.step = 0;
            self.pending = true;
        }
    }

    /// Back to the top of the pattern, with step 0 due to fire immediately.
    pub fn rewind(&mut self)
        requires
            old(self)@.wf(),
        ensures
            final(self)@ == old(self)@.jumped(0),
            final(self)@.wf(),
    {
        self.jump_to(0);
    }

    /// Straight to a step, with that step due to fire immediately. Anything past the end
    /// lands on the last step rather than wrapping round to somewhere unexpected.
    pub fn jump_to(&mut self, step: u32)
        requires
            old(self)@.wf(),
        ensures
            final(self)@ == old(self)@.jumped(step),
            final(self)@.wf(),
    {
        self.step = if step < self.steps {
            step
        } else {
            self.steps - 1
        };
        self.ticks = 0;
        self.pending = true;
        self.wrapped = false;
    }

    /// True when a step should be triggered before rendering another frame.
    pub fn due(&self) -> (r: bool)
        ensures
            r == self@.due,
    {
        self.pending
    }

    /// Take the step that is due, so it only triggers once.
    pub fn take_step(&mut self) -> (r: u32)
        ensures
            r == old(self)@.step,
            final(self)@ == old(self)@.taken(),
    {
        self.pending = false;
        self.step
    }

    /// Frames that can be rendered before the next step boundary. Never zero, so a render
    /// loop built on this always makes progress.
    pub fn frames_to_next_step(&self) -> (r: usize)
        requires
            self@.wf(),
        ensures
            r == self@.frames_left(),
            r >= 1,
    {
        let frame: u128 = tempo_of(self.bpm) as u128;
        let left: u128 = (self.rate as u64 * TICKS_PER_STEP) as u128 - self.ticks;
        if left <= frame {
            1
        } else {
            let frames: u128 = (left + frame - 1) / frame;
            proof {
                lemma_frames(left as int, frame as int, self.rate as int);
            }
            frames as usize
        }
    }

    /// True once when the pattern has just come round to the top, and false until it
    /// happens again. Taking it means the caller has dealt with it.
    pub fn take_wrapped(&mut self) -> (r: bool)
        ensures
            r == old(self)@.wrapped,
            final(self)@ == old(self)@.unwrapped(),
    {
        let was: bool = self.wrapped;
        self.wrapped = false;
        was
    }

    /// Move the clock on by frames that have been rendered.
    pub fn advance(&mut self, frames: usize)
        requires
            old(self)@.wf(),
        ensures
            final(self)@ == old(self)@.advanced(frames as int),
            final(self)@.wf(),
    {
        let frame: u128 = tempo_of(self.bpm) as u128;
        let length: u128 = (self.rate as u64 * TICKS_PER_STEP) as u128;
        proof {
            let n = frames as int;
            let f = frame as int;
            assert(0 <= n * f <= 0x1_0000_0000_0000_0000 * 0xc80_0000) by (nonlinear_arith)
                requires
                    0 <= n <= 0x1_0000_0000_0000_0000,
                    0 <= f <= 0xc80_0000,
            ;
        }
        let total: u128 = self.ticks + frames as u128 * frame;
        let gone: u128 = total / length;
        proof {
            lemma_fundamental_div_mod(total as int, length as int);
            assert(gone <= total) by (nonlinear_arith)
                requires
                    gone == total / length,
                    length >= 1,
            ;
        }
        let reached: u128 = self.step as u128 + gone;
        if gone > 0 {
            self.pending = true;
        }
        if reached >= self.steps as u128 {
            self.wrapped = true;
        }
        self.ticks = total % length;
        self.step = (reached % (self.steps as u128)) as u32;
    }
}

/// A step is never so long that its frames cannot be counted.
proof fn lemma_frames(left: int, frame: int, rate: int)
    requires
        1 <= rate <= u32::MAX,
        0xa0_0000 <= frame,
        frame < left <= rate * TICKS_PER_STEP,
    ensures
        1 <= (left + frame - 1) / frame <= u32::MAX,
{
    let frames = (left + frame - 1) / frame;
    lemma_fundamental_div_mod(left + frame - 1, frame);
    assert((frames - 1) * frame < left) by (nonlinear_arith)
        requires
            left + frame - 1 == frame * frames + (left + frame - 1) % frame,
            0 <= (left + frame - 1) % frame,
    ;
    assert(frames >= 1) by (nonlinear_arith)
        requires
            frame * frames + (left + frame - 1) % frame == left + frame - 1,
            (left + frame - 1) % frame < frame,
            left > frame,
            frame > 0,
    ;
    assert((frames - 1) * 0xa0_0000 <= (frames - 1) * frame) by (nonlinear_arith)
        requires
            frames >= 1,
            frame >= 0xa0_0000,
    ;
}

/// No drift: however the frames are divided up among callbacks, the clock ends up in the same
/// place.
pub proof fn the_clock_does_not_drift(c: ClockModel, a: int, b: int)
    requires
        c.wf(),
        a >= 0,
        b >= 0,
    ensures
        c.advanced(a).wf(),
        c.advanced(a).advanced(b) == c.advanced(a + b),
{
    lemma_tempo(c.bpm);
    let frame = c.frame_ticks();
    let length = c.step_ticks();
    let n = c.steps as int;
    let first = c.ticks + a * frame;
    let mid = c.advanced(a);
    let second = mid.ticks + b * frame;
    let whole = c.ticks + (a + b) * frame;
    assert(a * frame >= 0) by (nonlinear_arith)
        requires
            a >= 0,
            frame >= 0,
    ;
    assert(b * frame >= 0) by (nonlinear_arith)
        requires
            b >= 0,
            frame >= 0,
    ;
    lemma_fundamental_div_mod(first, length);
    lemma_fundamental_div_mod(second, length);
    let g1 = first / length;
    let g2 = second / length;
    lemma_quotient(first, length);
    lemma_quotient(second, length);
    assert(whole == length * (g1 + g2) + second % length) by (nonlinear_arith)
        requires
            first == c.ticks + a * frame,
            whole == c.ticks + (a + b) * frame,
            second == first % length + b * frame,
            first == length * g1 + first % length,
            second == length * g2 + second % length,
    ;
    lemma_fundamental_div_mod_converse(whole, length, g1 + g2, second % length);
    lemma_add_mod_noop(c.step + g1, g2, n);
    if c.step + g1 < n {
        lemma_small_mod((c.step + g1) as nat, n as nat);
        if c.step + g1 + g2 < n {
            lemma_small_mod((c.step + g1 + g2) as nat, n as nat);
        }
    }
    assert(((c.step + g1) % n + g2) % n == (c.step + g1 + g2) % n) by {
        vstd::arithmetic::div_mod::lemma_add_mod_noop_right(g2, c.step + g1, n);
    }
    assert(c.advanced(a).advanced(b) =~= c.advanced(a + b));
}

/// A positive number over a positive number is not negative.
proof fn lemma_quotient(x: int, d: int)
    requires
        x >= 0,
        d > 0,
    ensures
        x / d >= 0,
        0 <= x % d < d,
{
    assert(x / d >= 0) by (nonlinear_arith)
        requires
            x >= 0,
            d > 0,
    ;
}

/// Steps land where the tempo says, not a frame either side: counting from the start of a step,
/// the next steps have gone by after so many frames exactly when that many times the length of a
/// step has.
pub proof fn steps_land_on_their_frames(c: ClockModel, frames: int, gone: int)
    requires
        c.wf(),
        c.ticks == 0,
        frames >= 0,
        gone >= 0,
    ensures
        c.steps_gone(frames) == gone <==> gone * c.step_ticks() <= frames * c.frame_ticks() < (gone
            + 1) * c.step_ticks(),
{
    let total = frames * c.frame_ticks();
    let length = c.step_ticks();
    lemma_fundamental_div_mod(total, length);
    let q = total / length;
    assert(q * length <= total < (q + 1) * length) by (nonlinear_arith)
        requires
            total == length * q + total % length,
            0 <= total % length < length,
    ;
    if gone * length <= total < (gone + 1) * length {
        assert(q == gone) by (nonlinear_arith)
            requires
                q * length <= total < (q + 1) * length,
                gone * length <= total < (gone + 1) * length,
                length > 0,
        ;
    }
}

/// Nothing happens before the next step is due, and it is due exactly when the clock said it
/// would be.
pub proof fn the_next_step_comes_when_it_was_said_to(c: ClockModel, frames: int)
    requires
        c.wf(),
        c.ticks < c.step_ticks(),
        frames >= 0,
    ensures
        c.frames_left() >= 1,
        frames < c.frames_left() ==> c.steps_gone(frames) == 0,
        frames == c.frames_left() ==> c.steps_gone(frames) >= 1,
        frames == c.frames_left() && c.frame_ticks() <= c.step_ticks() ==> c.steps_gone(frames) == 1,
{
    lemma_tempo(c.bpm);
    let frame = c.frame_ticks();
    let length = c.step_ticks();
    let left = length - c.ticks;
    let f = c.frames_left();
    let total = c.ticks + frames * frame;
    assert(frames * frame >= 0) by (nonlinear_arith)
        requires
            frames >= 0,
            frame >= 0,
    ;
    lemma_quotient(total, length);
    lemma_fundamental_div_mod(total, length);
    if left > frame {
        lemma_fundamental_div_mod(left + frame - 1, frame);
        assert((f - 1) * frame < left <= f * frame) by (nonlinear_arith)
            requires
                left + frame - 1 == frame * f + (left + frame - 1) % frame,
                0 <= (left + frame - 1) % frame < frame,
        ;
        assert(f >= 1) by (nonlinear_arith)
            requires
                left <= f * frame,
                left > 0,
                frame > 0,
        ;
    } else {
        assert((f - 1) * frame == 0 && f * frame == frame) by (nonlinear_arith)
            requires
                f == 1,
        ;
    }
    let q = total / length;
    if frames < f {
        assert(frames * frame <= (f - 1) * frame) by (nonlinear_arith)
            requires
                frames <= f - 1,
                frame > 0,
        ;
        assert(q == 0) by (nonlinear_arith)
            requires
                0 <= total < length,
                q == total / length,
        ;
    } else if frames == f {
        assert(q >= 1) by (nonlinear_arith)
            requires
                total >= length,
                length > 0,
                q == total / length,
        ;
        if frame <= length {
            assert(f * frame == (f - 1) * frame + frame) by (nonlinear_arith);
            assert(q < 2) by (nonlinear_arith)
                requires
                    total < 2 * length,
                    length > 0,
                    q == total / length,
            ;
        }
    }
}

/// The playhead never leaves the pattern, whatever is done to the clock.
pub proof fn the_playhead_stays_in_the_pattern(
    c: ClockModel,
    frames: int,
    steps: u32,
    step: u32,
    bpm: Single,
)
    requires
        c.wf(),
        frames >= 0,
        !bpm.nan(),
    ensures
        c.advanced(frames).step < c.steps,
        c.with_steps(steps).step < c.with_steps(steps).steps,
        c.jumped(step).step < c.steps,
        c.retimed(bpm).step == c.step,
        c.retimed(bpm).ticks <= c.retimed(bpm).step_ticks(),
{
    the_clock_does_not_drift(c, frames, 0);
}

// --- what the numbers mean --------------------------------------------------------

/// A tempo is the number that its bits are: one and a fraction of so many parts in 2^23, times the
/// power of two that the exponent says. It is counted in units of 2^-19 beats a minute.
pub proof fn a_tempo_is_the_number_its_bits_are(bpm: Single)
    requires
        0x41a0_0000 <= bpm.bits <= 0x43c8_0000,
    ensures
        keepable(bpm),
        ({
            let exponent = bpm.bits as int / 0x80_0000;
            let fraction = bpm.bits as int % 0x80_0000;
            tempo(bpm) == (0x80_0000 + fraction) * pow2((exponent - 131) as nat)
        }),
        bpm.bits == 0x41a0_0000 ==> tempo(bpm) == 20 * 0x8_0000,
        bpm.bits == 0x42f0_0000 ==> tempo(bpm) == 120 * 0x8_0000,
        bpm.bits == 0x43c8_0000 ==> tempo(bpm) == 400 * 0x8_0000,
{
    lemma2_to64();
    let exponent = bpm.bits as int / 0x80_0000;
    let fraction = 0x80_0000 + bpm.bits as int % 0x80_0000;
    assert(131 <= exponent <= 135);
    assert(pow2(0) == 1 && pow2(1) == 2 && pow2(2) == 4 && pow2(3) == 8 && pow2(4) == 16);
    let power = pow2((exponent - 131) as nat) as int;
    assert(power == 1 ==> fraction * power == fraction) by (nonlinear_arith);
    assert(power == 2 ==> fraction * power == fraction * 2) by (nonlinear_arith);
    assert(power == 4 ==> fraction * power == fraction * 4) by (nonlinear_arith);
    assert(power == 8 ==> fraction * power == fraction * 8) by (nonlinear_arith);
    assert(power == 16 ==> fraction * power == fraction * 16) by (nonlinear_arith);
}

/// The clock keeps any tempo from twenty to four hundred beats a minute as it is, and keeps to the
/// nearer of the two for one outside them.
pub proof fn the_clock_keeps_to_twenty_and_four_hundred(bpm: Single)
    requires
        !bpm.nan(),
    ensures
        keepable(kept(bpm)),
        0x41a0_0000 <= bpm.bits <= 0x43c8_0000 ==> kept(bpm) == bpm,
        bpm.bits < 0x41a0_0000 || bpm.bits >= 0x8000_0000 ==> kept(bpm).bits == 0x41a0_0000,
        0x43c8_0000 < bpm.bits < 0x8000_0000 ==> kept(bpm).bits == 0x43c8_0000,
{
}

/// Moving on so many frames moves the clock on by that many frames and no less: what is left of
/// them once the steps that have gone by are counted off is how far into its step it is. It comes
/// round to the top after the last step and says so, and a step that was reached is due.
pub proof fn moving_on_counts_every_frame(c: ClockModel, frames: int)
    requires
        c.wf(),
        frames >= 0,
    ensures
        ({
            let now = c.advanced(frames);
            let length = c.rate * 0x78_0000;
            let gone = c.steps_gone(frames);
            &&& gone >= 0
            &&& gone * length + now.ticks == c.ticks + frames * tempo(c.bpm)
            &&& 0 <= now.ticks < length
            &&& now.step == (c.step + gone) % (c.steps as int)
            &&& now.step < c.steps
            &&& now.due == (c.due || gone >= 1)
            &&& now.wrapped == (c.wrapped || c.step + gone >= c.steps)
            &&& now.rate == c.rate && now.bpm == c.bpm && now.steps == c.steps
        }),
{
    lemma_tempo(c.bpm);
    let total = c.ticks + frames * tempo(c.bpm);
    let length = c.step_ticks();
    assert(frames * tempo(c.bpm) >= 0) by (nonlinear_arith)
        requires
            frames >= 0,
            tempo(c.bpm) >= 0,
    ;
    lemma_quotient(total, length);
    lemma_fundamental_div_mod(total, length);
    let gone = total / length;
    assert(length * gone == gone * length) by (nonlinear_arith);
    lemma_quotient(c.step + gone, c.steps as int);
}

/// The frames the clock says are left are the fewest, one at the least, that reach the next step.
pub proof fn the_frames_left_are_the_fewest_that_reach(c: ClockModel)
    requires
        c.wf(),
    ensures
        ({
            let f = c.frames_left();
            let length = c.rate * 0x78_0000;
            &&& f >= 1
            &&& c.ticks + f * tempo(c.bpm) >= length
            &&& f > 1 ==> c.ticks + (f - 1) * tempo(c.bpm) < length
        }),
{
    lemma_tempo(c.bpm);
    let frame = c.frame_ticks();
    let left = c.step_ticks() - c.ticks;
    let f = c.frames_left();
    if left > frame {
        lemma_fundamental_div_mod(left + frame - 1, frame);
        assert((f - 1) * frame < left <= f * frame) by (nonlinear_arith)
            requires
                left + frame - 1 == frame * f + (left + frame - 1) % frame,
                0 <= (left + frame - 1) % frame < frame,
        ;
        assert(f >= 1) by (nonlinear_arith)
            requires
                left <= f * frame,
                left > 0,
                frame > 0,
        ;
    } else {
        assert(f * frame == frame) by (nonlinear_arith)
            requires
                f == 1,
        ;
    }
}

/// A jump lands on the step asked for, or the last there is, at the start of it, with it due, and
/// nothing has come round.
pub proof fn a_jump_lands_on_its_step(c: ClockModel, step: u32)
    requires
        c.wf(),
    ensures
        ({
            let now = c.jumped(step);
            &&& step < c.steps ==> now.step == step
            &&& step >= c.steps ==> now.step == c.steps - 1
            &&& now.ticks == 0
            &&& now.due
            &&& !now.wrapped
            &&& now.rate == c.rate && now.bpm == c.bpm && now.steps == c.steps
        }),
{
}

/// A new length is kept, one step at the least. A playhead past its end goes to the top, which is
/// then due; any other stays where it is.
pub proof fn a_new_length_leaves_the_playhead_inside(c: ClockModel, steps: u32)
    requires
        c.wf(),
    ensures
        ({
            let now = c.with_steps(steps);
            &&& steps >= 1 ==> now.steps == steps
            &&& steps == 0 ==> now.steps == 1
            &&& c.step < now.steps ==> now.step == c.step && now.due == c.due
            &&& c.step >= now.steps ==> now.step == 0 && now.due
            &&& now.ticks == c.ticks && now.wrapped == c.wrapped
            &&& now.rate == c.rate && now.bpm == c.bpm
        }),
{
}

/// A new tempo leaves the clock as many frames into its step as it was, to the tick below, and at
/// the end of the step when that is past it. Nothing else moves.
pub proof fn a_new_tempo_keeps_the_frames_that_have_gone(c: ClockModel, bpm: Single)
    requires
        c.wf(),
        !bpm.nan(),
    ensures
        ({
            let now = c.retimed(bpm);
            let length = c.rate * 0x78_0000;
            &&& now.bpm == kept(bpm)
            &&& now.ticks <= length
            &&& now.ticks < length ==> now.ticks * tempo(c.bpm) <= c.ticks * tempo(now.bpm) < (
            now.ticks + 1) * tempo(c.bpm)
            &&& now.ticks == length ==> length * tempo(c.bpm) <= c.ticks * tempo(now.bpm)
            &&& now.step == c.step && now.steps == c.steps && now.rate == c.rate
            &&& now.due == c.due && now.wrapped == c.wrapped
        }),
{
    lemma_tempo(c.bpm);
    the_clock_keeps_to_twenty_and_four_hundred(bpm);
    lemma_tempo(kept(bpm));
    let was = tempo(c.bpm);
    let is = tempo(kept(bpm));
    let total = c.ticks * is;
    assert(total >= 0) by (nonlinear_arith)
        requires
            total == c.ticks * is,
            c.ticks >= 0,
            is >= 0,
    ;
    lemma_fundamental_div_mod(total, was);
    lemma_quotient(total, was);
    let moved = total / was;
    assert(moved * was <= total < (moved + 1) * was) by (nonlinear_arith)
        requires
            total == was * moved + total % was,
            0 <= total % was < was,
    ;
    let length = c.step_ticks();
    if moved >= length {
        assert(length * was <= moved * was) by (nonlinear_arith)
            requires
                moved >= length,
                was > 0,
        ;
    }
}

/// A clock starts at the top, with the first step due and nothing gone by.
pub proof fn a_clock_starts_at_the_top(rate: u32, bpm: Single, steps: u32)
    ensures
        ({
            let c = ClockModel::started(rate, bpm, steps);
            &&& rate >= 1 ==> c.rate == rate
            &&& rate == 0 ==> c.rate == 1
            &&& steps >= 1 ==> c.steps == steps
            &&& steps == 0 ==> c.steps == 1
            &&& c.bpm == kept(bpm)
            &&& c.step == 0 && c.ticks == 0 && c.due && !c.wrapped
        }),
{
}

/// Taking the step that is due, or being told that the clock came round, changes nothing else.
pub proof fn being_told_is_all_that_changes(c: ClockModel)
    ensures
        !c.taken().due,
        c.taken().step == c.step && c.taken().ticks == c.ticks && c.taken().steps == c.steps,
        c.taken().rate == c.rate && c.taken().bpm == c.bpm && c.taken().wrapped == c.wrapped,
        !c.unwrapped().wrapped,
        c.unwrapped().step == c.step && c.unwrapped().ticks == c.ticks,
        c.unwrapped().steps == c.steps && c.unwrapped().rate == c.rate,
        c.unwrapped().bpm == c.bpm && c.unwrapped().due == c.due,
{
}

} // verus!
