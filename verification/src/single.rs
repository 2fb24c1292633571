//! A single precision number, carried by its bit pattern.
//!
//! A fader and a tempo are numbers the library keeps, limits and hands on, and never adds or
//! multiplies. The order of two of them can be read off their bits, which is all that limiting
//! one takes.

use vstd::prelude::*;

verus! {

/// An IEEE 754 single precision number, as its bits.
#[derive(Clone, Copy, Debug, PartialEq, Eq, Structural)]
pub struct Single {
    pub bits: u32,
}

/// Nought, as bits.
pub const ZERO: u32 = 0x0000_0000;

/// One and a half, the top of a track's fader.
pub const ONE_AND_A_HALF: u32 = 0x3fc0_0000;

/// Two, the most gain the engine will apply.
pub const TWO: u32 = 0x4000_0000;

/// The gain a new track has: 0.8.
pub const DEFAULT_GAIN: u32 = 0x3f4c_cccd;

/// The master gain of a new project: 0.9.
pub const DEFAULT_MASTER_GAIN: u32 = 0x3f66_6666;

/// The tempo of a new project: 120.
pub const DEFAULT_BPM: u32 = 0x42f0_0000;

/// The slowest tempo the window offers: 40.
pub const SLOWEST_OFFERED: u32 = 0x4220_0000;

/// The fastest tempo the window offers: 240.
pub const FASTEST_OFFERED: u32 = 0x4370_0000;

impl Single {
    /// Not a number: every exponent bit set, and something in the fraction.
    pub open spec fn nan(self) -> bool {
        0x7f80_0000 < self.bits <= 0x7fff_ffff || 0xff80_0000 < self.bits
    }

    /// Where a number stands among the others. Sign and magnitude, so both noughts are level.
    pub open spec fn place(self) -> int {
        if self.bits < 0x8000_0000 {
            self.bits as int
        } else {
            0x8000_0000 - self.bits
        }
    }

    /// This number, or the end of the range it is past. A number that is not one stays as it is.
    pub open spec fn clamped(self, low: Single, high: Single) -> Single {
        if self.nan() {
            self
        } else if self.place() < low.place() {
            low
        } else if self.place() > high.place() {
            high
        } else {
            self
        }
    }

    pub fn is_nan(&self) -> (r: bool)
        ensures
            r == self.nan(),
    {
        (0x7f80_0000 < self.bits && self.bits <= 0x7fff_ffff) || 0xff80_0000 < self.bits
    }

    fn order(&self) -> (r: i64)
        ensures
            r == self.place(),
    {
        if self.bits < 0x8000_0000 {
            self.bits as i64
        } else {
            0x8000_0000i64 - self.bits as i64
        }
    }

    /// This number, held between two others.
    pub fn clamp(self, low: Single, high: Single) -> (r: Single)
        ensures
            r == self.clamped(low, high),
    {
        if self.is_nan() {
            self
        } else if self.order() < low.order() {
            low
        } else if self.order() > high.order() {
            high
        } else {
            self
        }
    }
}

/// A number that is one lands inside the range, and one inside the range already is left alone.
pub proof fn clamping_lands_inside(x: Single, low: Single, high: Single)
    requires
        !x.nan(),
        low.place() <= high.place(),
    ensures
        low.place() <= x.clamped(low, high).place() <= high.place(),
        low.place() <= x.place() <= high.place() ==> x.clamped(low, high) == x,
        x.clamped(low, high).clamped(low, high).place() == x.clamped(low, high).place(),
{
}

/// A number is not one exactly when its exponent is all ones and its fraction is not nought.
/// Numbers above nought stand in the order of their bits, those below it the other way about, and
/// the two noughts are level.
pub proof fn the_bits_say_where_a_number_stands(x: Single, y: Single)
    ensures
        x.nan() <==> (x.bits as int / 0x80_0000) % 256 == 255 && x.bits as int % 0x80_0000 != 0,
        x.bits < 0x8000_0000 && y.bits < 0x8000_0000 ==> (x.place() <= y.place() <==> x.bits
            <= y.bits),
        x.bits >= 0x8000_0000 && y.bits >= 0x8000_0000 ==> (x.place() <= y.place() <==> x.bits
            >= y.bits),
        x.bits >= 0x8000_0000 && y.bits < 0x8000_0000 ==> x.place() <= y.place() && (x.place()
            == y.place() <==> x.bits == 0x8000_0000 && y.bits == 0),
{
}

/// Holding a number between two others gives the number when it is between them, the lower when it
/// is below it, the higher when it is above that; what is not a number stays what it is.
pub proof fn clamping_gives_the_nearest(x: Single, low: Single, high: Single)
    requires
        low.place() <= high.place(),
    ensures
        x.nan() ==> x.clamped(low, high) == x,
        !x.nan() && x.place() < low.place() ==> x.clamped(low, high) == low,
        !x.nan() && x.place() > high.place() ==> x.clamped(low, high) == high,
        !x.nan() && low.place() <= x.place() <= high.place() ==> x.clamped(low, high) == x,
{
}

} // verus!
