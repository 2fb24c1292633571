//! A block of the song: which pattern, where it starts, and how long it fills.

use vstd::prelude::*;

use crate::seqs::{by_rank, Ranked};

verus! {

/// One pattern in the song.
///
/// A placement starts wherever it was put. `length` starts out as the pattern's own length and
/// can be dragged: longer and the pattern comes round again inside it, shorter and it is cut
/// off. Two placements of the same pattern never overlap, because putting one down takes out
/// whatever it lands on.
#[derive(Clone, Copy, Debug, PartialEq, Eq, PartialOrd, Ord, Structural)]
pub struct Placement {
    pub step: u32,
    pub pattern: u16,
    /// Steps of song it fills. Zero means "as long as the pattern", which is what a project
    /// written before placements could be dragged has.
    pub length: u32,
}

impl Placement {
    /// One past the last step it covers. A block is one step long at the least.
    pub open spec fn stop(self) -> int {
        self.step + (if self.length < 1 {
            1
        } else {
            self.length as int
        })
    }

    /// Whether a step of the song falls inside it.
    pub open spec fn spans(self, step: int) -> bool {
        self.step <= step < self.stop()
    }

    /// Whether some step falls inside both.
    pub open spec fn meets(self, other: Placement) -> bool {
        self.step < other.stop() && other.step < self.stop()
    }

    /// One past the last step it covers.
    pub fn end(&self) -> (r: u32)
        requires
            self.stop() <= u32::MAX,
        ensures
            r == self.stop(),
    {
        self.step + (if self.length < 1 {
            1
        } else {
            self.length
        })
    }

    fn wide_end(&self) -> (r: u64)
        ensures
            r == self.stop(),
    {
        self.step as u64 + (if self.length < 1 {
            1
        } else {
            self.length as u64
        })
    }

    pub fn covers(&self, step: u32) -> (r: bool)
        ensures
            r == self.spans(step as int),
    {
        step >= self.step && (step as u64) < self.wide_end()
    }

    /// True if the two would sound over the top of each other.
    pub fn overlaps(&self, other: &Placement) -> (r: bool)
        ensures
            r == self.meets(*other),
    {
        (self.step as u64) < other.wide_end() && (other.step as u64) < self.wide_end()
    }

    /// Whether it ends no later than a step.
    pub fn ends_by(&self, step: u32) -> (r: bool)
        ensures
            r == (self.stop() <= step),
    {
        self.wide_end() <= step as u64
    }
}

/// Blocks go in order of step, those at one step in order of pattern, and those of one pattern
/// there in order of length.
impl Ranked for Placement {
    open spec fn rank_of(self) -> int {
        self.step * 0x1_0000_0000_0000 + self.pattern * 0x1_0000_0000 + self.length
    }

    fn rank(&self) -> (r: u128) {
        self.step as u128 * 0x1_0000_0000_0000 + self.pattern as u128 * 0x1_0000_0000
            + self.length as u128
    }
}

/// Two blocks that overlap share a step, and two that share a step overlap.
pub proof fn overlapping_is_sharing_a_step(a: Placement, b: Placement)
    ensures
        a.meets(b) <==> exists|s: int| #[trigger] a.spans(s) && b.spans(s),
        a.meets(b) == b.meets(a),
        a.meets(a),
{
    if a.meets(b) {
        let s = if a.step < b.step { b.step as int } else { a.step as int };
        assert(a.spans(s) && b.spans(s));
    }
}

/// The order of the song is a total one: step first, and nothing ties but a block and itself.
pub proof fn song_order()
    ensures
        vstd::relations::total_ordering(by_rank::<Placement>()),
        forall|a: Placement, b: Placement|
            #![trigger by_rank::<Placement>()(a, b)]
            by_rank::<Placement>()(a, b) <==> (a.step < b.step || (a.step == b.step && (a.pattern
                < b.pattern || (a.pattern == b.pattern && a.length <= b.length)))),
{
    assert forall|a: Placement, b: Placement|
        #![trigger by_rank::<Placement>()(a, b)]
        by_rank::<Placement>()(a, b) <==> (a.step < b.step || (a.step == b.step && (a.pattern
            < b.pattern || (a.pattern == b.pattern && a.length <= b.length)))) by {}
}

/// A block covers the steps from the one it starts at, as many as it is long and one at the least.
pub proof fn a_block_covers_its_length(p: Placement, step: int)
    ensures
        p.spans(step) <==> p.step <= step && (step < p.step + p.length || step == p.step),
        p.stop() == (if p.length == 0 {
            p.step + 1
        } else {
            p.step + p.length
        }),
{
}

} // verus!
