//! What the engine holds of a pattern: how long it is, and what every track plays in it.

use vstd::prelude::*;

use crate::bits::{self, bit, minus, plus};
use crate::command::EngineNote;
use crate::pattern::playable;
use crate::seqs::{first_where, lemma_first_where, lemma_first_where_bounds};
use crate::{MAX_NOTES_PER_TRACK, MAX_STEPS, MAX_TRACKS};

verus! {

/// The test for the note at a step and pitch.
pub open spec fn note_at(step: u16, pitch: u8) -> spec_fn(EngineNote) -> bool {
    |n: EngineNote| n.step == step && n.pitch == pitch
}

/// Notes with one added, or put in the place of the one at its step and pitch. A full list
/// takes no more.
pub open spec fn notes_with(notes: Seq<EngineNote>, note: EngineNote) -> Seq<EngineNote> {
    let i = first_where(notes, note_at(note.step, note.pitch));
    if i < notes.len() {
        notes.update(i, note)
    } else if notes.len() < MAX_NOTES_PER_TRACK {
        notes.push(note)
    } else {
        notes
    }
}

/// Notes without the one at a step and pitch. Order does not matter, so the last one fills the
/// hole.
pub open spec fn notes_without(notes: Seq<EngineNote>, step: u16, pitch: u8) -> Seq<EngineNote> {
    let i = first_where(notes, note_at(step, pitch));
    if i < notes.len() {
        notes.update(i, notes.last()).drop_last()
    } else {
        notes
    }
}

/// One track's notes in one pattern.
#[derive(Debug)]
pub struct NoteList {
    notes: Vec<EngineNote>,
}

impl View for NoteList {
    type V = Seq<EngineNote>;

    closed spec fn view(&self) -> Seq<EngineNote> {
        self.notes@
    }
}

impl NoteList {
    fn empty() -> (r: Self)
        ensures
            r@ == Seq::<EngineNote>::empty(),
    {
        NoteList { notes: Vec::with_capacity(MAX_NOTES_PER_TRACK) }
    }

    pub fn count(&self) -> (r: usize)
        ensures
            r == self@.len(),
    {
        self.notes.len()
    }

    pub fn get(&self, i: usize) -> (r: EngineNote)
        requires
            i < self@.len(),
        ensures
            r == self@[i as int],
    {
        self.notes[i]
    }

    fn find(&self, step: u16, pitch: u8) -> (r: Option<usize>)
        ensures
            match r {
                Some(i) => i == first_where(self@, note_at(step, pitch)) && i < self@.len(),
                None => first_where(self@, note_at(step, pitch)) == self@.len(),
            },
    {
        let mut i: usize = 0;
        while i < self.notes.len()
            invariant
                i <= self.notes@.len(),
                forall|j: int| 0 <= j < i ==> !note_at(step, pitch)(#[trigger] self.notes@[j]),
            decreases self.notes@.len() - i,
        {
            if self.notes[i].step == step && self.notes[i].pitch == pitch {
                proof {
                    lemma_first_where(self.notes@, note_at(step, pitch), i as int);
                }
                return Some(i);
            }
            i = i + 1;
        }
        proof {
            lemma_first_where(self.notes@, note_at(step, pitch), i as int);
        }
        None
    }

    pub fn set(&mut self, note: EngineNote)
        ensures
            final(self)@ == notes_with(old(self)@, note),
    {
        match self.find(note.step, note.pitch) {
            Some(i) => {
                self.notes.set(i, note);
            },
            None => {
                if self.notes.len() < MAX_NOTES_PER_TRACK {
                    self.notes.push(note);
                }
            },
        }
    }

    pub fn clear_one(&mut self, step: u16, pitch: u8)
        ensures
            final(self)@ == notes_without(old(self)@, step, pitch),
    {
        match self.find(step, pitch) {
            Some(i) => {
                let last: EngineNote = self.notes[self.notes.len() - 1];
                self.notes.set(i, last);
                self.notes.pop();
                assert(self@ =~= notes_without(old(self)@, step, pitch));
            },
            None => {},
        }
    }

    pub fn clear(&mut self)
        ensures
            final(self)@ == Seq::<EngineNote>::empty(),
    {
        self.notes.clear();
    }
}

/// A pattern as the engine holds it.
#[verifier::ext_equal]
pub struct ScoreModel {
    pub steps: u32,
    /// The tracks that are instruments here, one bit each.
    pub pitched: u32,
    pub tracks: Seq<Seq<EngineNote>>,
}

pub open spec fn notes_view() -> spec_fn(NoteList) -> Seq<EngineNote> {
    |l: NoteList| l@
}

impl ScoreModel {
    pub open spec fn wf(self) -> bool {
        &&& 1 <= self.steps <= MAX_STEPS
        &&& self.tracks.len() == MAX_TRACKS
        &&& forall|t: int|
            0 <= t < self.tracks.len() ==> (#[trigger] self.tracks[t]).len() <= MAX_NOTES_PER_TRACK
    }

    pub open spec fn fresh(steps: u32) -> ScoreModel {
        ScoreModel {
            steps,
            pitched: 0,
            tracks: Seq::new(MAX_TRACKS as nat, |t: int| Seq::<EngineNote>::empty()),
        }
    }

    pub open spec fn with_note(self, track: int, note: EngineNote) -> ScoreModel {
        ScoreModel {
            tracks: self.tracks.update(track, notes_with(self.tracks[track], note)),
            ..self
        }
    }

    pub open spec fn without_note(self, track: int, step: u16, pitch: u8) -> ScoreModel {
        ScoreModel {
            tracks: self.tracks.update(track, notes_without(self.tracks[track], step, pitch)),
            ..self
        }
    }

    pub open spec fn without_notes(self, track: int) -> ScoreModel {
        ScoreModel { tracks: self.tracks.update(track, Seq::<EngineNote>::empty()), ..self }
    }

    pub open spec fn with_pitched(self, track: u32, pitched: bool) -> ScoreModel {
        ScoreModel {
            pitched: if pitched { plus(self.pitched, track) } else { minus(self.pitched, track) },
            ..self
        }
    }

    /// Everything in the pattern forgotten but how long it is.
    pub open spec fn emptied(self) -> ScoreModel {
        ScoreModel::fresh(self.steps)
    }

    /// A track forgotten: no notes, and no longer an instrument.
    pub open spec fn without_track(self, track: u32) -> ScoreModel {
        self.without_notes(track as int).with_pitched(track, false)
    }
}

/// One pattern, on the audio thread.
#[derive(Debug)]
pub struct Score {
    steps: u32,
    pitched: u32,
    /// Allocated once, on the app thread, and only ever indexed after that.
    tracks: Vec<NoteList>,
}

impl View for Score {
    type V = ScoreModel;

    closed spec fn view(&self) -> ScoreModel {
        ScoreModel {
            steps: self.steps,
            pitched: self.pitched,
            tracks: self.tracks@.map_values(notes_view()),
        }
    }
}

impl Score {
    pub fn new(steps: u32) -> (r: Self)
        requires
            1 <= steps <= MAX_STEPS,
        ensures
            r@ == ScoreModel::fresh(steps),
            r@.wf(),
    {
        let mut tracks: Vec<NoteList> = Vec::with_capacity(MAX_TRACKS);
        let mut i: usize = 0;
        while i < MAX_TRACKS
            invariant
                i <= MAX_TRACKS,
                tracks@.len() == i,
                forall|k: int|
                    0 <= k < i ==> (#[trigger] tracks@[k])@ == Seq::<EngineNote>::empty(),
            decreases MAX_TRACKS - i,
        {
            tracks.push(NoteList::empty());
            i = i + 1;
        }
        let r = Score { steps, pitched: 0, tracks };
        assert(r@.tracks =~= ScoreModel::fresh(steps).tracks);
        r
    }

    pub fn steps(&self) -> (r: u32)
        ensures
            r == self@.steps,
    {
        self.steps
    }

    /// Whether a track is an instrument here.
    pub fn is_pitched(&self, track: usize) -> (r: bool)
        requires
            track < MAX_TRACKS,
        ensures
            r == bit(self@.pitched, track as u32),
    {
        bits::test(self.pitched, track as u32)
    }

    pub fn count(&self, track: usize) -> (r: usize)
        requires
            track < self@.tracks.len(),
        ensures
            r == self@.tracks[track as int].len(),
    {
        self.tracks[track].count()
    }

    pub fn note(&self, track: usize, i: usize) -> (r: EngineNote)
        requires
            track < self@.tracks.len(),
            i < self@.tracks[track as int].len(),
        ensures
            r == self@.tracks[track as int][i as int],
    {
        self.tracks[track].get(i)
    }

    pub fn set_steps(&mut self, steps: u32)
        requires
            old(self)@.wf(),
        ensures
            final(self)@ == (ScoreModel { steps: playable(steps), ..old(self)@ }),
            final(self)@.wf(),
    {
        self.steps = if steps < 1 {
            1
        } else if steps > MAX_STEPS as u32 {
            MAX_STEPS as u32
        } else {
            steps
        };
    }

    pub fn set_pitched(&mut self, track: usize, pitched: bool)
        requires
            old(self)@.wf(),
            track < MAX_TRACKS,
        ensures
            final(self)@ == old(self)@.with_pitched(track as u32, pitched),
            final(self)@.wf(),
    {
        self.pitched = if pitched {
            bits::with(self.pitched, track as u32)
        } else {
            bits::without(self.pitched, track as u32)
        };
    }

    pub fn set_note(&mut self, track: usize, note: EngineNote)
        requires
            old(self)@.wf(),
            track < MAX_TRACKS,
        ensures
            final(self)@ == old(self)@.with_note(track as int, note),
            final(self)@.wf(),
    {
        proof {
            lemma_first_where_bounds(
                self@.tracks[track as int],
                note_at(note.step, note.pitch),
            );
        }
        self.tracks[track].set(note);
        assert(self@.tracks =~= old(self)@.with_note(track as int, note).tracks);
    }

    pub fn clear_note(&mut self, track: usize, step: u16, pitch: u8)
        requires
            old(self)@.wf(),
            track < MAX_TRACKS,
        ensures
            final(self)@ == old(self)@.without_note(track as int, step, pitch),
            final(self)@.wf(),
    {
        proof {
            lemma_first_where_bounds(self@.tracks[track as int], note_at(step, pitch));
        }
        self.tracks[track].clear_one(step, pitch);
        assert(self@.tracks =~= old(self)@.without_note(track as int, step, pitch).tracks);
    }

    pub fn clear_notes(&mut self, track: usize)
        requires
            old(self)@.wf(),
            track < MAX_TRACKS,
        ensures
            final(self)@ == old(self)@.without_notes(track as int),
            final(self)@.wf(),
    {
        self.tracks[track].clear();
        assert(self@.tracks =~= old(self)@.without_notes(track as int).tracks);
    }

    pub fn clear(&mut self)
        requires
            old(self)@.wf(),
        ensures
            final(self)@ == old(self)@.emptied(),
            final(self)@.wf(),
    {
        let n: usize = self.tracks.len();
        let mut i: usize = 0;
        while i < n
            invariant
                i <= n == self.tracks@.len() == MAX_TRACKS,
                self.steps == old(self).steps,
                forall|k: int|
                    0 <= k < i ==> (#[trigger] self.tracks@[k])@ == Seq::<EngineNote>::empty(),
            decreases n - i,
        {
            self.tracks[i].clear();
            i = i + 1;
        }
        self.pitched = 0;
        assert(self@.tracks =~= old(self)@.emptied().tracks);
    }

    pub fn forget_track(&mut self, track: usize)
        requires
            old(self)@.wf(),
            track < MAX_TRACKS,
        ensures
            final(self)@ == old(self)@.without_track(track as u32),
            final(self)@.wf(),
    {
        self.clear_notes(track);
        self.set_pitched(track, false);
    }
}

} // verus!
