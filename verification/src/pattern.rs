//! A pattern: a grid of notes over the project's instruments, and how long it is.

use vstd::prelude::*;

use crate::bits;
use crate::lane::{Lane, LaneModel, Note};
use crate::seqs::{
    by_rank, first_where, lemma_filter_map, lemma_first_where, lemma_first_where_bounds, retain,
    sort,
};
use crate::{DEFAULT_PITCH, DEFAULT_STEPS, MAX_STEPS, MAX_TRACKS};

verus! {

/// A pattern: a name, a length in steps, and the notes played in it.
#[derive(Debug)]
pub struct Pattern {
    /// Unique among live patterns, and also the pattern's slot in the audio engine. The
    /// song refers to patterns by this, so it survives renaming and reordering.
    pub id: u16,
    pub name: String,
    /// How many boxes a row has. Patterns in one song need not agree.
    pub steps: u32,
    /// Which of the song view's colours its blocks are. `None` means nobody chose.
    pub colour: Option<u8>,
    /// The tracks played as instruments *in this pattern*: pitched across the keyboard, with
    /// each note stopping when it ends. Everything else is a one-shot here.
    pub pitched: Vec<u16>,
    pub lanes: Vec<Lane>,
}

/// A pattern, as mathematics has it.
#[verifier::ext_equal]
pub struct PatternModel {
    pub id: u16,
    pub name: Seq<char>,
    pub steps: u32,
    pub colour: Option<u8>,
    pub pitched: Seq<u16>,
    pub lanes: Seq<LaneModel>,
}

pub open spec fn lane_view() -> spec_fn(Lane) -> LaneModel {
    |l: Lane| l@
}

impl View for Pattern {
    type V = PatternModel;

    open spec fn view(&self) -> PatternModel {
        PatternModel {
            id: self.id,
            name: self.name@,
            steps: self.steps,
            colour: self.colour,
            pitched: self.pitched@,
            lanes: self.lanes@.map_values(lane_view()),
        }
    }
}

/// The test for a track's lane.
pub open spec fn on_track(track: u16) -> spec_fn(LaneModel) -> bool {
    |l: LaneModel| l.track == track
}

/// The test for any lane but a track's.
pub open spec fn off_track(track: u16) -> spec_fn(LaneModel) -> bool {
    |l: LaneModel| l.track != track
}

/// The test for a lane with something in it.
pub open spec fn not_empty() -> spec_fn(LaneModel) -> bool {
    |l: LaneModel| l.notes.len() != 0
}

/// The test for one track.
pub open spec fn just(track: u16) -> spec_fn(u16) -> bool {
    |t: u16| t == track
}

/// The test for any track but one.
pub open spec fn other_than(track: u16) -> spec_fn(u16) -> bool {
    |t: u16| t != track
}

/// A length, as long as the engine will play it.
pub open spec fn playable(steps: u32) -> u32 {
    if steps < 1 {
        1
    } else if steps > MAX_STEPS {
        MAX_STEPS as u32
    } else {
        steps
    }
}

/// How many notes there are in some lanes.
pub open spec fn notes_in(lanes: Seq<LaneModel>) -> nat
    decreases lanes.len(),
{
    if lanes.len() == 0 {
        0
    } else {
        notes_in(lanes.drop_last()) + lanes.last().notes.len()
    }
}

impl PatternModel {
    /// Where a track's lane is, or the end when it has none.
    pub open spec fn lane_at(self, track: u16) -> int {
        first_where(self.lanes, on_track(track))
    }

    pub open spec fn has_lane(self, track: u16) -> bool {
        self.lane_at(track) < self.lanes.len()
    }

    /// A track's lane: an empty one when nothing has been drawn for it.
    pub open spec fn lane_of(self, track: u16) -> LaneModel {
        if self.has_lane(track) {
            self.lanes[self.lane_at(track)]
        } else {
            LaneModel { track, notes: Seq::empty() }
        }
    }

    /// The pattern with a track's lane replaced, or added when it had none.
    pub open spec fn with_lane(self, track: u16, lane: LaneModel) -> PatternModel {
        PatternModel {
            lanes: if self.has_lane(track) {
                self.lanes.update(self.lane_at(track), lane)
            } else {
                self.lanes.push(lane)
            },
            ..self
        }
    }

    /// The pattern without its empty lanes.
    pub open spec fn swept(self) -> PatternModel {
        PatternModel { lanes: self.lanes.filter(not_empty()), ..self }
    }

    pub open spec fn with_step(self, track: u16, step: u32, on: bool) -> (PatternModel, bool) {
        let (lane, now) = self.lane_of(track).with_step(step, on);
        (self.with_lane(track, lane).swept(), now)
    }

    pub open spec fn with_note(self, track: u16, note: Note) -> (PatternModel, bool) {
        let (lane, fits) = self.lane_of(track).with_note(note);
        (self.with_lane(track, lane).swept(), fits)
    }

    pub open spec fn without_note(self, track: u16, step: u32, pitch: u8) -> (PatternModel, bool) {
        let (lane, gone) = self.lane_of(track).without(step, pitch);
        (self.with_lane(track, lane).swept(), gone)
    }

    /// The pattern with every lane cut to its length, and the empty ones gone.
    pub open spec fn fitted(self) -> PatternModel {
        PatternModel {
            lanes: self.lanes.map_values(|l: LaneModel| l.trimmed(self.steps)),
            ..self
        }.swept()
    }

    pub open spec fn with_steps(self, steps: u32) -> PatternModel {
        PatternModel { steps: playable(steps), ..self }.fitted()
    }

    /// The pattern with a track made an instrument, or a one-shot again.
    pub open spec fn with_pitched(self, track: u16, pitched: bool) -> PatternModel {
        if pitched && !self.pitched.contains(track) {
            PatternModel { pitched: self.pitched.push(track).sort_by(by_rank::<u16>()), ..self }
        } else if !pitched && self.pitched.contains(track) {
            PatternModel {
                pitched: self.pitched.remove(first_where(self.pitched, just(track))),
                ..self
            }
        } else {
            self
        }
    }

    pub open spec fn without_track(self, track: u16) -> PatternModel {
        PatternModel {
            lanes: self.lanes.filter(off_track(track)),
            pitched: self.pitched.filter(other_than(track)),
            ..self
        }
    }

    /// What every editor keeps true of a pattern: a length the engine will play, one lane to a
    /// track, nothing in any lane that the lane would not have put there, and no empty lanes.
    pub open spec fn tidy(self) -> bool {
        &&& 1 <= self.steps <= MAX_STEPS
        &&& forall|i: int| 0 <= i < self.lanes.len() ==> (#[trigger] self.lanes[i]).tidy()
        &&& forall|i: int| 0 <= i < self.lanes.len() ==> (#[trigger] self.lanes[i]).notes.len() != 0
        &&& forall|i: int, j: int|
            0 <= i < j < self.lanes.len() ==> (#[trigger] self.lanes[i]).track != (
            #[trigger] self.lanes[j]).track
    }
}

/// Tracks in order of number are in a total order.
proof fn lemma_track_order()
    ensures
        vstd::relations::total_ordering(by_rank::<u16>()),
{
}

impl Pattern {
    pub fn new(id: u16, name: String) -> (r: Self)
        ensures
            r@ == (PatternModel {
                id,
                name: name@,
                steps: DEFAULT_STEPS,
                colour: None,
                pitched: Seq::empty(),
                lanes: Seq::empty(),
            }),
    {
        let r = Pattern {
            id,
            name,
            steps: DEFAULT_STEPS,
            colour: None,
            pitched: Vec::new(),
            lanes: Vec::new(),
        };
        proof {
            assert(r@.lanes =~= Seq::empty());
        }
        r
    }

    fn pitched_position(&self, track: u16) -> (r: Option<usize>)
        ensures
            r == (if self.pitched@.contains(track) {
                Some(first_where(self.pitched@, just(track)) as usize)
            } else {
                None
            }),
            r matches Some(i) ==> i < self.pitched@.len() && i == first_where(self.pitched@, just(track)),
    {
        let ghost p = just(track);
        let n: usize = self.pitched.len();
        let mut i: usize = 0;
        while i < n
            invariant
                i <= n == self.pitched@.len(),
                p == just(track),
                forall|j: int| 0 <= j < i ==> !p(#[trigger] self.pitched@[j]),
            decreases n - i,
        {
            if self.pitched[i] == track {
                proof {
                    lemma_first_where(self.pitched@, p, i as int);
                    assert(self.pitched@.contains(track));
                }
                return Some(i);
            }
            i = i + 1;
        }
        None
    }

    /// True if this track is an instrument in this pattern rather than a one-shot.
    pub fn is_pitched(&self, track: u16) -> (r: bool)
        ensures
            r == self@.pitched.contains(track),
    {
        self.pitched_position(track).is_some()
    }

    /// Make a track an instrument in this pattern, or a one-shot again. Returns what it is
    /// now. Nothing is thrown away either way: the notes are the same notes.
    pub fn set_pitched(&mut self, track: u16, pitched: bool) -> (now: bool)
        ensures
            final(self)@ == old(self)@.with_pitched(track, pitched),
            now == pitched,
    {
        match (pitched, self.pitched_position(track)) {
            (true, None) => {
                self.pitched.push(track);
                let ghost loose = self.pitched@;
                sort(&mut self.pitched);
                proof {
                    lemma_track_order();
                    loose.lemma_sort_by_ensures(by_rank::<u16>());
                    vstd::seq_lib::lemma_sorted_unique(
                        self.pitched@,
                        loose.sort_by(by_rank::<u16>()),
                        by_rank::<u16>(),
                    );
                }
            },
            (false, Some(i)) => {
                self.pitched.remove(i);
            },
            _ => {},
        }
        pitched
    }

    /// The instruments, as one bit per track, which is how the audio thread holds them.
    pub fn pitched_mask(&self) -> (mask: u32)
        ensures
            forall|t: u32|
                t < MAX_TRACKS ==> #[trigger] bits::bit(mask, t) == self@.pitched.contains(t as u16),
    {
        let mut mask: u32 = 0;
        let n: usize = self.pitched.len();
        let mut i: usize = 0;
        proof {
            bits::lemma_none_and_all();
        }
        while i < n
            invariant
                i <= n == self.pitched@.len(),
                forall|t: u32|
                    t < 32 ==> #[trigger] bits::bit(mask, t) == self.pitched@.take(i as int).contains(
                        t as u16,
                    ),
            decreases n - i,
        {
            let track: u16 = self.pitched[i];
            let ghost before = mask;
            if (track as usize) < MAX_TRACKS {
                mask = bits::with(mask, track as u32);
            }
            proof {
                let seen = self.pitched@.take(i as int);
                let now = self.pitched@.take(i as int + 1);
                assert(now =~= seen.push(track));
                assert forall|t: u32| t < 32 implies #[trigger] bits::bit(mask, t) == now.contains(t as u16) by {
                    assert(bits::bit(before, t) == seen.contains(t as u16));
                    if seen.contains(t as u16) {
                        let k = choose|k: int| 0 <= k < seen.len() && seen[k] == t as u16;
                        assert(now[k] == t as u16);
                    }
                    if now.contains(t as u16) && !seen.contains(t as u16) {
                        let k = choose|k: int| 0 <= k < now.len() && now[k] == t as u16;
                        if k < seen.len() {
                            assert(seen[k] == t as u16);
                        }
                    }
                    assert(now[i as int] == track);
                }
            }
            i = i + 1;
        }
        proof {
            assert(self.pitched@.take(n as int) =~= self.pitched@);
        }
        mask
    }

    fn lane_position(&self, track: u16) -> (r: Option<usize>)
        ensures
            r == (if self@.has_lane(track) {
                Some(self@.lane_at(track) as usize)
            } else {
                None
            }),
            r matches Some(i) ==> i < self.lanes@.len() && i == self@.lane_at(track),
            r is None ==> self@.lane_at(track) == self.lanes@.len(),
    {
        let n: usize = self.lanes.len();
        let mut i: usize = 0;
        while i < n
            invariant
                i <= n == self.lanes@.len(),
                forall|j: int| 0 <= j < i ==> !on_track(track)(#[trigger] self@.lanes[j]),
            decreases n - i,
        {
            if self.lanes[i].track == track {
                proof {
                    lemma_first_where(self@.lanes, on_track(track), i as int);
                }
                return Some(i);
            }
            i = i + 1;
        }
        proof {
            lemma_first_where(self@.lanes, on_track(track), n as int);
        }
        None
    }

    pub fn lane(&self, track: u16) -> (r: Option<&Lane>)
        ensures
            match r {
                Some(lane) => self@.has_lane(track) && lane@ == self@.lane_of(track),
                None => !self@.has_lane(track),
            },
    {
        match self.lane_position(track) {
            Some(i) => Some(&self.lanes[i]),
            None => None,
        }
    }

    /// The lane for a track, made on the spot if the track has no notes here yet.
    pub fn lane_mut(&mut self, track: u16) -> (lane: &mut Lane)
        ensures
            lane@ == old(self)@.lane_of(track),
            final(self)@ == old(self)@.with_lane(track, final(lane)@),
    {
        let i: usize = match self.lane_position(track) {
            Some(i) => i,
            None => {
                self.lanes.push(Lane::new(track));
                self.lanes.len() - 1
            },
        };
        let ghost before = self.lanes@;
        let ghost was = old(self)@;
        proof {
            lemma_first_where_bounds(was.lanes, on_track(track));
            assert forall|l: Lane| (#[trigger] before.update(i as int, l)).map_values(lane_view())
                =~= was.with_lane(track, l@).lanes by {}
        }
        &mut self.lanes[i]
    }

    /// Empty lanes are not kept around: a pattern nobody has drawn in has none at all.
    fn sweep(&mut self)
        ensures
            final(self)@ == old(self)@.swept(),
    {
        let keep = |l: &Lane| -> (r: bool)
            ensures
                r == (l@.notes.len() != 0),
            { !l.notes.is_empty() };
        let ghost p = |l: Lane| l@.notes.len() != 0;
        retain(&mut self.lanes, keep, Ghost(p));
        proof {
            lemma_filter_map(old(self).lanes@, lane_view(), p, not_empty());
        }
    }

    pub fn has_step(&self, track: u16, step: u32) -> (r: bool)
        ensures
            r == self@.lane_of(track).holds(step, DEFAULT_PITCH),
    {
        match self.lane(track) {
            Some(lane) => lane.has_step(step),
            None => false,
        }
    }

    /// Add or replace a note, at any pitch and any length. What the piano roll draws with.
    pub fn set_note(&mut self, track: u16, note: Note) -> (fits: bool)
        ensures
            (final(self)@, fits) == old(self)@.with_note(track, note),
    {
        let fits = self.lane_mut(track).set_note(note);
        self.sweep();
        fits
    }

    /// Take a note out, wherever it is.
    pub fn clear_note(&mut self, track: u16, step: u32, pitch: u8) -> (gone: bool)
        ensures
            (final(self)@, gone) == old(self)@.without_note(track, step, pitch),
    {
        let gone = self.lane_mut(track).clear_note(step, pitch);
        self.sweep();
        gone
    }

    /// Tick or untick a box. Returns what the box now is.
    pub fn set_step(&mut self, track: u16, step: u32, on: bool) -> (now: bool)
        ensures
            (final(self)@, now) == old(self)@.with_step(track, step, on),
    {
        let now = self.lane_mut(track).set_step(step, on);
        self.sweep();
        now
    }

    /// How many notes this pattern holds, across every lane.
    pub fn note_count(&self) -> (count: usize)
        requires
            notes_in(self@.lanes) <= usize::MAX,
        ensures
            count == notes_in(self@.lanes),
    {
        let mut count: usize = 0;
        let n: usize = self.lanes.len();
        let mut i: usize = 0;
        proof {
            assert(self@.lanes.take(0) =~= Seq::empty());
        }
        while i < n
            invariant
                i <= n == self.lanes@.len(),
                notes_in(self@.lanes) <= usize::MAX,
                count == notes_in(self@.lanes.take(i as int)),
            decreases n - i,
        {
            proof {
                lemma_notes_in_take(self@.lanes, i as int + 1);
                assert(self@.lanes.take(i as int + 1).drop_last() =~= self@.lanes.take(i as int));
                assert(self@.lanes.take(i as int + 1).last() == self.lanes@[i as int]@);
            }
            count = count + self.lanes[i].notes.len();
            i = i + 1;
        }
        proof {
            assert(self@.lanes.take(n as int) =~= self@.lanes);
        }
        count
    }

    /// Cut every lane to the pattern's length.
    pub(crate) fn fit(&mut self)
        ensures
            final(self)@ == old(self)@.fitted(),
    {
        let steps: u32 = self.steps;
        let n: usize = self.lanes.len();
        let mut i: usize = 0;
        while i < n
            invariant
                i <= n == self.lanes@.len() == old(self).lanes@.len(),
                self.id == old(self).id,
                self.name == old(self).name,
                self.steps == old(self).steps == steps,
                self.colour == old(self).colour,
                self.pitched == old(self).pitched,
                forall|k: int|
                    0 <= k < i ==> (#[trigger] self.lanes@[k])@ == old(self).lanes@[k]@.trimmed(steps),
                forall|k: int| i <= k < n ==> #[trigger] self.lanes@[k] == old(self).lanes@[k],
            decreases n - i,
        {
            self.lanes[i].trim_to(steps);
            i = i + 1;
        }
        proof {
            let trim = |l: LaneModel| l.trimmed(steps);
            assert(self@.lanes =~= old(self)@.lanes.map_values(trim));
        }
        self.sweep();
    }

    /// Change the length, dropping any notes that fall off the end. Returns the length
    /// actually set, which the engine and the UI both have to agree on.
    pub fn set_steps(&mut self, steps: u32) -> (now: u32)
        ensures
            final(self)@ == old(self)@.with_steps(steps),
            now == playable(steps),
    {
        self.steps = if steps < 1 {
            1
        } else if steps > MAX_STEPS as u32 {
            MAX_STEPS as u32
        } else {
            steps
        };
        self.fit();
        self.steps
    }

    /// Forget a track that has been deleted from the project.
    pub fn forget_track(&mut self, track: u16)
        ensures
            final(self)@ == old(self)@.without_track(track),
    {
        let keep_lane = |l: &Lane| -> (r: bool)
            ensures
                r == (l.track != track),
            { l.track != track };
        let ghost p = |l: Lane| l.track != track;
        retain(&mut self.lanes, keep_lane, Ghost(p));
        let keep_track = |t: &u16| -> (r: bool)
            ensures
                r == (*t != track),
            { *t != track };
        retain(&mut self.pitched, keep_track, Ghost(other_than(track)));
        proof {
            lemma_filter_map(old(self).lanes@, lane_view(), p, off_track(track));
        }
    }

    /// A copy, notes and all.
    pub fn copy(&self) -> (r: Pattern)
        ensures
            r@ == self@,
    {
        let mut lanes: Vec<Lane> = Vec::new();
        let n: usize = self.lanes.len();
        let mut i: usize = 0;
        while i < n
            invariant
                i <= n == self.lanes@.len(),
                lanes@.len() == i,
                forall|k: int| 0 <= k < i ==> (#[trigger] lanes@[k])@ == self.lanes@[k]@,
            decreases n - i,
        {
            lanes.push(self.lanes[i].copy());
            i = i + 1;
        }
        let mut pitched: Vec<u16> = Vec::new();
        let m: usize = self.pitched.len();
        let mut j: usize = 0;
        while j < m
            invariant
                j <= m == self.pitched@.len(),
                pitched@.len() == j,
                forall|k: int| 0 <= k < j ==> #[trigger] pitched@[k] == self.pitched@[k],
            decreases m - j,
        {
            pitched.push(self.pitched[j]);
            j = j + 1;
        }
        let r = Pattern {
            id: self.id,
            name: self.name.clone(),
            steps: self.steps,
            colour: self.colour,
            pitched,
            lanes,
        };
        proof {
            assert(r@ =~~= self@);
        }
        r
    }
}

impl Clone for Pattern {
    fn clone(&self) -> (r: Self)
        ensures
            r@ == self@,
    {
        self.copy()
    }
}

/// The first few lanes hold no more notes than all of them.
proof fn lemma_notes_in_take(lanes: Seq<LaneModel>, k: int)
    requires
        0 <= k <= lanes.len(),
    ensures
        notes_in(lanes.take(k)) <= notes_in(lanes),
    decreases lanes.len(),
{
    if k < lanes.len() {
        assert(lanes.drop_last().take(k) =~= lanes.take(k));
        lemma_notes_in_take(lanes.drop_last(), k);
    } else {
        assert(lanes.take(k) =~= lanes);
    }
}

} // verus!
