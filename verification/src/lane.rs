//! Notes, and one track's worth of them.
//!
//! Steps are stored as notes, not booleans. A step box is a note at the sampler's own pitch one
//! step long, so the piano roll is a different editor over the same data.

use vstd::prelude::*;

use crate::seqs::{first_where, lemma_first_where, lemma_first_where_bounds, retain};
use crate::{DEFAULT_PITCH, MAX_NOTES_PER_TRACK};

verus! {

/// A note in a pattern. `step` and `length` are in steps, `pitch` is MIDI.
#[derive(Clone, Copy, Debug, PartialEq, Eq, Structural)]
pub struct Note {
    pub step: u32,
    pub pitch: u8,
    pub velocity: u8,
    pub length: u32,
}

impl Note {
    /// The note a ticked box is.
    pub open spec fn boxed(step: u32) -> Note {
        Note { step, pitch: DEFAULT_PITCH, velocity: 100, length: 1 }
    }

    /// The note a step box means when you tick it.
    pub fn step_note(step: u32) -> (r: Self)
        ensures
            r == Note::boxed(step),
    {
        Note { step, pitch: DEFAULT_PITCH, velocity: 100, length: 1 }
    }

    /// Whether this is the note at a step and pitch, which is what tells notes apart.
    pub open spec fn is_at(self, step: u32, pitch: u8) -> bool {
        self.step == step && self.pitch == pitch
    }

    /// The note as it is in a pattern `steps` long that it starts inside: it reaches the end
    /// and no further, and is one step long at the least.
    pub open spec fn cut(self, steps: u32) -> Note {
        let room = steps - self.step;
        let length = if self.length < room { self.length as int } else { room };
        Note { length: (if length < 1 { 1 } else { length }) as u32, ..self }
    }
}

/// One track's notes inside one pattern.
#[derive(Debug)]
pub struct Lane {
    /// Which track these notes play on.
    pub track: u16,
    pub notes: Vec<Note>,
}

/// A lane, as mathematics has it.
#[verifier::ext_equal]
pub struct LaneModel {
    pub track: u16,
    pub notes: Seq<Note>,
}

impl View for Lane {
    type V = LaneModel;

    open spec fn view(&self) -> LaneModel {
        LaneModel { track: self.track, notes: self.notes@ }
    }
}

/// The test for the note at a step and pitch.
pub open spec fn at(step: u32, pitch: u8) -> spec_fn(Note) -> bool {
    |n: Note| n.is_at(step, pitch)
}

/// The test for a note that starts inside a pattern `steps` long.
pub open spec fn starts_before(steps: u32) -> spec_fn(Note) -> bool {
    |n: Note| n.step < steps
}

impl LaneModel {
    /// Where the note at a step and pitch is, or the end when there is none.
    pub open spec fn position(self, step: u32, pitch: u8) -> int {
        first_where(self.notes, at(step, pitch))
    }

    pub open spec fn holds(self, step: u32, pitch: u8) -> bool {
        self.position(step, pitch) < self.notes.len()
    }

    pub open spec fn full(self) -> bool {
        self.notes.len() >= MAX_NOTES_PER_TRACK
    }

    /// The lane with a box ticked or not, and what the box is afterwards.
    pub open spec fn with_step(self, step: u32, on: bool) -> (LaneModel, bool) {
        let i = self.position(step, DEFAULT_PITCH);
        if self.holds(step, DEFAULT_PITCH) {
            if on {
                (self, true)
            } else {
                (LaneModel { notes: self.notes.remove(i), ..self }, false)
            }
        } else if on && !self.full() {
            (LaneModel { notes: self.notes.push(Note::boxed(step)), ..self }, true)
        } else {
            (self, false)
        }
    }

    /// The lane with a note put in, and whether there was room for it.
    pub open spec fn with_note(self, note: Note) -> (LaneModel, bool) {
        let i = self.position(note.step, note.pitch);
        if self.holds(note.step, note.pitch) {
            (LaneModel { notes: self.notes.update(i, note), ..self }, true)
        } else if self.full() {
            (self, false)
        } else {
            (LaneModel { notes: self.notes.push(note), ..self }, true)
        }
    }

    /// The lane with the note at a step and pitch taken out, and whether there was one.
    pub open spec fn without(self, step: u32, pitch: u8) -> (LaneModel, bool) {
        if self.holds(step, pitch) {
            (LaneModel { notes: self.notes.remove(self.position(step, pitch)), ..self }, true)
        } else {
            (self, false)
        }
    }

    /// The lane as it is in a pattern of `steps`: what starts past the end is gone, and what
    /// runs past it is cut.
    pub open spec fn trimmed(self, steps: u32) -> LaneModel {
        LaneModel {
            notes: self.notes.filter(starts_before(steps)).map_values(|n: Note| n.cut(steps)),
            ..self
        }
    }

    /// What every editor keeps true of a lane: one note to a step and pitch, and no more of
    /// them than the engine holds.
    pub open spec fn tidy(self) -> bool {
        &&& self.notes.len() <= MAX_NOTES_PER_TRACK
        &&& forall|i: int, j: int|
            0 <= i < j < self.notes.len() ==> !(#[trigger] self.notes[i]).is_at(
                (#[trigger] self.notes[j]).step,
                self.notes[j].pitch,
            )
    }
}

impl Lane {
    pub fn new(track: u16) -> (r: Self)
        ensures
            r@ == (LaneModel { track, notes: Seq::empty() }),
    {
        Lane { track, notes: Vec::new() }
    }

    /// Index of the note at this step and pitch, if any.
    pub fn find(&self, step: u32, pitch: u8) -> (r: Option<usize>)
        ensures
            r == (if self@.holds(step, pitch) {
                Some(self@.position(step, pitch) as usize)
            } else {
                None
            }),
            r matches Some(i) ==> i < self.notes@.len() && i == self@.position(step, pitch)
                && self.notes@[i as int].is_at(step, pitch),
    {
        let n: usize = self.notes.len();
        let mut i: usize = 0;
        while i < n
            invariant
                i <= n == self.notes@.len(),
                forall|j: int| 0 <= j < i ==> !at(step, pitch)(#[trigger] self.notes@[j]),
            decreases n - i,
        {
            if self.notes[i].step == step && self.notes[i].pitch == pitch {
                proof {
                    lemma_first_where(self.notes@, at(step, pitch), i as int);
                }
                return Some(i);
            }
            i = i + 1;
        }
        proof {
            lemma_first_where(self.notes@, at(step, pitch), n as int);
        }
        None
    }

    /// True if a step box is ticked.
    pub fn has_step(&self, step: u32) -> (r: bool)
        ensures
            r == self@.holds(step, DEFAULT_PITCH),
    {
        self.find(step, DEFAULT_PITCH).is_some()
    }

    /// Tick or untick a step box. Returns what the box now is, which may differ from what
    /// was asked for if the lane is full.
    pub fn set_step(&mut self, step: u32, on: bool) -> (now: bool)
        ensures
            (final(self)@, now) == old(self)@.with_step(step, on),
    {
        match (self.find(step, DEFAULT_PITCH), on) {
            (Some(_), true) => true,
            (Some(i), false) => {
                self.notes.remove(i);
                false
            },
            (None, true) => {
                if self.notes.len() >= MAX_NOTES_PER_TRACK {
                    return false;
                }
                self.notes.push(Note::step_note(step));
                true
            },
            (None, false) => false,
        }
    }

    /// Add a note, or replace the one already at its step and pitch. False when the lane is
    /// as full as the engine will hold.
    pub fn set_note(&mut self, note: Note) -> (fits: bool)
        ensures
            (final(self)@, fits) == old(self)@.with_note(note),
    {
        match self.find(note.step, note.pitch) {
            Some(i) => {
                self.notes.set(i, note);
                true
            },
            None => {
                if self.notes.len() >= MAX_NOTES_PER_TRACK {
                    return false;
                }
                self.notes.push(note);
                true
            },
        }
    }

    /// Take out the note at a step and pitch, if there is one.
    pub fn clear_note(&mut self, step: u32, pitch: u8) -> (gone: bool)
        ensures
            (final(self)@, gone) == old(self)@.without(step, pitch),
    {
        match self.find(step, pitch) {
            Some(i) => {
                self.notes.remove(i);
                true
            },
            None => false,
        }
    }

    /// The note at a step and pitch.
    pub fn note(&self, step: u32, pitch: u8) -> (r: Option<Note>)
        ensures
            r == (if self@.holds(step, pitch) {
                Some(self@.notes[self@.position(step, pitch)])
            } else {
                None
            }),
    {
        match self.find(step, pitch) {
            Some(i) => Some(self.notes[i]),
            None => None,
        }
    }

    /// Drop notes that fall outside a shortened pattern.
    ///
    /// A note that starts inside the pattern but runs off the end is shortened rather than
    /// dropped: it is still a note you drew, it just has less room now.
    pub fn trim_to(&mut self, steps: u32)
        ensures
            final(self)@ == old(self)@.trimmed(steps),
    {
        let keep = |n: &Note| -> (r: bool)
            ensures
                r == (n.step < steps),
            { n.step < steps };
        retain(&mut self.notes, keep, Ghost(starts_before(steps)));
        let ghost kept = self.notes@;
        proof {
            crate::seqs::lemma_filter_members(old(self).notes@, starts_before(steps));
            assert forall|k: int| 0 <= k < kept.len() implies (#[trigger] kept[k]).step < steps by {
                assert(kept.contains(kept[k]));
            }
        }
        let n: usize = self.notes.len();
        let mut i: usize = 0;
        while i < n
            invariant
                i <= n == self.notes@.len() == kept.len(),
                self.track == old(self).track,
                kept == old(self).notes@.filter(starts_before(steps)),
                forall|k: int| 0 <= k < kept.len() ==> (#[trigger] kept[k]).step < steps,
                forall|k: int| 0 <= k < i ==> #[trigger] self.notes@[k] == kept[k].cut(steps),
                forall|k: int| i <= k < n ==> #[trigger] self.notes@[k] == kept[k],
            decreases n - i,
        {
            let mut note: Note = self.notes[i];
            assert(note == kept[i as int]);
            let room: u32 = steps - note.step;
            if note.length > room {
                note.length = room;
            }
            if note.length < 1 {
                note.length = 1;
            }
            self.notes.set(i, note);
            i = i + 1;
        }
        proof {
            assert(self@ =~= old(self)@.trimmed(steps));
        }
    }

    /// A copy, notes and all.
    pub fn copy(&self) -> (r: Lane)
        ensures
            r@ == self@,
    {
        let mut notes: Vec<Note> = Vec::new();
        let n: usize = self.notes.len();
        let mut i: usize = 0;
        while i < n
            invariant
                i <= n == self.notes@.len(),
                notes@ == self.notes@.take(i as int),
            decreases n - i,
        {
            notes.push(self.notes[i]);
            i = i + 1;
            proof {
                assert(notes@ =~= self.notes@.take(i as int));
            }
        }
        proof {
            assert(notes@ =~= self.notes@);
        }
        Lane { track: self.track, notes }
    }
}

impl Clone for Lane {
    fn clone(&self) -> (r: Self)
        ensures
            r@ == self@,
    {
        self.copy()
    }
}

impl Default for Lane {
    fn default() -> (r: Self)
        ensures
            r@ == (LaneModel { track: 0, notes: Seq::empty() }),
    {
        Lane::new(0)
    }
}

/// Whatever `holds` says, some note of the lane bears out, and the other way about.
pub proof fn holding_is_having(l: LaneModel, step: u32, pitch: u8)
    ensures
        l.holds(step, pitch) <==> exists|i: int|
            0 <= i < l.notes.len() && (#[trigger] l.notes[i]).is_at(step, pitch),
        l.holds(step, pitch) ==> l.notes[l.position(step, pitch)].is_at(step, pitch),
        0 <= l.position(step, pitch) <= l.notes.len(),
{
    lemma_first_where_bounds(l.notes, at(step, pitch));
    if l.holds(step, pitch) {
        assert(l.notes[l.position(step, pitch)].is_at(step, pitch));
    }
    if exists|i: int| 0 <= i < l.notes.len() && (#[trigger] l.notes[i]).is_at(step, pitch) {
        let i = choose|i: int| 0 <= i < l.notes.len() && (#[trigger] l.notes[i]).is_at(step, pitch);
        if !l.holds(step, pitch) {
            assert(!at(step, pitch)(l.notes[i]));
        }
    }
}

/// The place of a note in a tidy lane is the only place a note of that step and pitch is.
proof fn lemma_only_place(l: LaneModel, step: u32, pitch: u8, i: int)
    requires
        l.tidy(),
        0 <= i < l.notes.len(),
        l.notes[i].is_at(step, pitch),
    ensures
        l.position(step, pitch) == i,
{
    holding_is_having(l, step, pitch);
    let p = l.position(step, pitch);
    if p < i {
        assert(!l.notes[p].is_at(l.notes[i].step, l.notes[i].pitch));
    } else if i < p {
        assert(!l.notes[i].is_at(l.notes[p].step, l.notes[p].pitch));
    }
}

/// Ticking, drawing, rubbing out and trimming all leave a tidy lane tidy.
pub proof fn editing_keeps_a_lane_tidy(l: LaneModel, step: u32, pitch: u8, on: bool, note: Note, steps: u32)
    requires
        l.tidy(),
    ensures
        l.with_step(step, on).0.tidy(),
        l.with_note(note).0.tidy(),
        l.without(step, pitch).0.tidy(),
        l.trimmed(steps).tidy(),
{
    holding_is_having(l, step, DEFAULT_PITCH);
    holding_is_having(l, note.step, note.pitch);
    holding_is_having(l, step, pitch);
    let apart = |a: Note, b: Note| !a.is_at(b.step, b.pitch);
    assert(vstd::relations::sorted_by(l.notes, apart)) by {
        assert forall|i: int, j: int| 0 <= i < j < l.notes.len() implies #[trigger] apart(
            l.notes[i],
            l.notes[j],
        ) by {}
    }
    crate::seqs::lemma_filter_pairs(l.notes, starts_before(steps), apart);
    crate::seqs::lemma_filter_members(l.notes, starts_before(steps));
    let kept = l.notes.filter(starts_before(steps));
    let cut = l.trimmed(steps);
    assert forall|i: int, j: int| 0 <= i < j < cut.notes.len() implies !(#[trigger] cut.notes[i]).is_at(
        (#[trigger] cut.notes[j]).step,
        cut.notes[j].pitch,
    ) by {
        assert(apart(kept[i], kept[j]));
    }
}

/// In a tidy lane a box is what it was last set to, as long as there was room for it, and no
/// other note is touched by setting it.
pub proof fn a_box_is_what_it_was_set_to(l: LaneModel, step: u32, on: bool, other: u32, pitch: u8)
    requires
        l.tidy(),
    ensures
        l.with_step(step, on).0.holds(step, DEFAULT_PITCH) == l.with_step(step, on).1,
        l.with_step(step, on).1 == (on && (l.holds(step, DEFAULT_PITCH) || !l.full())),
        (other != step || pitch != DEFAULT_PITCH) ==> l.with_step(step, on).0.holds(other, pitch)
            == l.holds(other, pitch),
        l.with_step(step, on).0.with_step(step, on).0 == l.with_step(step, on).0,
{
    let after = l.with_step(step, on).0;
    editing_keeps_a_lane_tidy(l, step, pitch, on, Note::boxed(step), 1);
    holding_is_having(l, step, DEFAULT_PITCH);
    holding_is_having(after, step, DEFAULT_PITCH);
    holding_is_having(l, other, pitch);
    holding_is_having(after, other, pitch);
    let p = l.position(step, DEFAULT_PITCH);
    if l.holds(step, DEFAULT_PITCH) && !on {
        if after.holds(step, DEFAULT_PITCH) {
            let q = after.position(step, DEFAULT_PITCH);
            let k = if q < p { q } else { q + 1 };
            assert(after.notes[q] == l.notes[k]);
            lemma_only_place(l, step, DEFAULT_PITCH, k);
        }
        if l.holds(other, pitch) && (other != step || pitch != DEFAULT_PITCH) {
            let k = l.position(other, pitch);
            let q = if k < p { k } else { k - 1 };
            assert(after.notes[q] == l.notes[k]);
        }
        if after.holds(other, pitch) {
            let q = after.position(other, pitch);
            let k = if q < p { q } else { q + 1 };
            assert(after.notes[q] == l.notes[k]);
        }
    } else if !l.holds(step, DEFAULT_PITCH) && on && !l.full() {
        assert(after.notes[l.notes.len() as int].is_at(step, DEFAULT_PITCH));
        if l.holds(other, pitch) {
            assert(after.notes[l.position(other, pitch)] == l.notes[l.position(other, pitch)]);
        }
        if after.holds(other, pitch) && (other != step || pitch != DEFAULT_PITCH) {
            let q = after.position(other, pitch);
            assert(l.notes[q] == after.notes[q]);
        }
    }
}

/// In a tidy lane a note that went in is the note that comes out, and taking it out again
/// leaves no note at its step and pitch.
pub proof fn a_note_put_in_comes_back_out(l: LaneModel, note: Note)
    requires
        l.tidy(),
        l.with_note(note).1,
    ensures
        ({
            let after = l.with_note(note).0;
            &&& after.holds(note.step, note.pitch)
            &&& after.notes[after.position(note.step, note.pitch)] == note
            &&& after.without(note.step, note.pitch).1
            &&& !after.without(note.step, note.pitch).0.holds(note.step, note.pitch)
        }),
        !l.holds(note.step, note.pitch) ==> l.with_note(note).0.without(note.step, note.pitch).0
            == l,
{
    let after = l.with_note(note).0;
    editing_keeps_a_lane_tidy(l, note.step, note.pitch, true, note, 1);
    holding_is_having(l, note.step, note.pitch);
    let k = if l.holds(note.step, note.pitch) {
        l.position(note.step, note.pitch)
    } else {
        l.notes.len() as int
    };
    assert(after.notes[k] == note);
    lemma_only_place(after, note.step, note.pitch, k);
    let gone = after.without(note.step, note.pitch).0;
    holding_is_having(gone, note.step, note.pitch);
    if gone.holds(note.step, note.pitch) {
        let q = gone.position(note.step, note.pitch);
        let m = if q < k { q } else { q + 1 };
        assert(gone.notes[q] == after.notes[m]);
        lemma_only_place(after, note.step, note.pitch, m);
    }
    if !l.holds(note.step, note.pitch) {
        assert(gone.notes =~= l.notes);
    }
}

// --- the notes of a lane, one by one ------------------------------------------------

/// Whether a lane has any note at a step and pitch.
pub open spec fn has_one_at(l: LaneModel, step: u32, pitch: u8) -> bool {
    exists|i: int|
        0 <= i < l.notes.len() && (#[trigger] l.notes[i]).step == step && l.notes[i].pitch == pitch
}

/// Where things are after one of a list is taken out.
proof fn lemma_removed(notes: Seq<Note>, at: int, n: Note)
    requires
        0 <= at < notes.len(),
        forall|j: int| 0 <= j < notes.len() && j != at ==> #[trigger] notes[j] != notes[at],
    ensures
        notes.remove(at).contains(n) <==> notes.contains(n) && n != notes[at],
{
    let rest = notes.remove(at);
    if rest.contains(n) {
        let q = choose|q: int| 0 <= q < rest.len() && rest[q] == n;
        let k = if q < at {
            q
        } else {
            q + 1
        };
        assert(notes[k] == n);
    }
    if notes.contains(n) && n != notes[at] {
        let k = choose|k: int| 0 <= k < notes.len() && notes[k] == n;
        let q = if k < at {
            k
        } else {
            k - 1
        };
        assert(rest[q] == n);
    }
}

/// Ticking a box puts a note at middle C there, a step long and struck at a hundred, unless there
/// is a note at middle C there, which stays as it is, or two hundred and fifty six notes already.
/// Clearing it takes out what is at middle C there. Every other note stays as it is.
#[verifier::rlimit(50)]
pub proof fn what_a_box_does(l: LaneModel, step: u32, on: bool, n: Note)
    requires
        l.tidy(),
    ensures
        ({
            let (now, is) = l.with_step(step, on);
            let there = has_one_at(l, step, 60);
            &&& is == (on && (there || l.notes.len() < 256))
            &&& now.track == l.track
            &&& !(n.step == step && n.pitch == 60) ==> (now.notes.contains(n) <==> l.notes.contains(
                n,
            ))
            &&& n.step == step && n.pitch == 60 ==> (now.notes.contains(n) <==> on && (
            l.notes.contains(n) || (!there && l.notes.len() < 256 && n.velocity == 100 && n.length
                == 1)))
        }),
{
    let now = l.with_step(step, on).0;
    holding_is_having(l, step, DEFAULT_PITCH);
    let at = l.position(step, DEFAULT_PITCH);
    if l.holds(step, DEFAULT_PITCH) {
        assert(has_one_at(l, step, 60));
        assert forall|j: int| 0 <= j < l.notes.len() && j != at implies #[trigger] l.notes[j]
            != l.notes[at] by {
            if l.notes[j] == l.notes[at] {
                lemma_only_place(l, step, DEFAULT_PITCH, j);
            }
        }
        lemma_removed(l.notes, at, n);
        if l.notes.contains(n) && n.step == step && n.pitch == 60 {
            let k = choose|k: int| 0 <= k < l.notes.len() && l.notes[k] == n;
            lemma_only_place(l, step, DEFAULT_PITCH, k);
        }
    } else {
        assert(!has_one_at(l, step, 60)) by {
            if has_one_at(l, step, 60) {
                let i = choose|i: int|
                    0 <= i < l.notes.len() && (#[trigger] l.notes[i]).step == step
                        && l.notes[i].pitch == 60;
                assert(l.notes[i].is_at(step, DEFAULT_PITCH));
            }
        }
        if n.step == step && n.pitch == 60 && l.notes.contains(n) {
            let k = choose|k: int| 0 <= k < l.notes.len() && l.notes[k] == n;
            assert(l.notes[k].is_at(step, DEFAULT_PITCH));
        }
        if on && !l.full() {
            lemma_pushed(l.notes, Note::boxed(step), n);
        }
    }
}

proof fn lemma_pushed(notes: Seq<Note>, note: Note, n: Note)
    ensures
        notes.push(note).contains(n) <==> notes.contains(n) || n == note,
{
    let more = notes.push(note);
    if notes.contains(n) {
        let k = choose|k: int| 0 <= k < notes.len() && notes[k] == n;
        assert(more[k] == n);
    }
    if n == note {
        assert(more[notes.len() as int] == n);
    }
    if more.contains(n) && n != note {
        let k = choose|k: int| 0 <= k < more.len() && more[k] == n;
        assert(notes[k] == n);
    }
}

/// A note that is put in is there just as it was given, in place of what was at its step and pitch.
/// It goes in unless there is nothing there to take the place of and there are two hundred and
/// fifty six notes already. Every other note stays as it is.
#[verifier::rlimit(50)]
pub proof fn what_putting_a_note_in_does(l: LaneModel, note: Note, n: Note)
    requires
        l.tidy(),
    ensures
        ({
            let (now, fits) = l.with_note(note);
            &&& fits == (has_one_at(l, note.step, note.pitch) || l.notes.len() < 256)
            &&& now.track == l.track
            &&& !fits ==> now == l
            &&& fits && n.step == note.step && n.pitch == note.pitch ==> (now.notes.contains(n)
                <==> n == note)
            &&& !(n.step == note.step && n.pitch == note.pitch) ==> (now.notes.contains(n)
                <==> l.notes.contains(n))
        }),
{
    let now = l.with_note(note).0;
    holding_is_having(l, note.step, note.pitch);
    let at = l.position(note.step, note.pitch);
    if l.holds(note.step, note.pitch) {
        assert(has_one_at(l, note.step, note.pitch));
        assert(now.notes[at] == note);
        if now.notes.contains(n) {
            let k = choose|k: int| 0 <= k < now.notes.len() && now.notes[k] == n;
            if k != at {
                assert(l.notes[k] == n);
                if n.step == note.step && n.pitch == note.pitch {
                    lemma_only_place(l, note.step, note.pitch, k);
                }
            }
        }
        if l.notes.contains(n) {
            let k = choose|k: int| 0 <= k < l.notes.len() && l.notes[k] == n;
            if k != at {
                assert(now.notes[k] == n);
            }
        }
    } else {
        assert(!has_one_at(l, note.step, note.pitch)) by {
            if has_one_at(l, note.step, note.pitch) {
                let i = choose|i: int|
                    0 <= i < l.notes.len() && (#[trigger] l.notes[i]).step == note.step
                        && l.notes[i].pitch == note.pitch;
                assert(l.notes[i].is_at(note.step, note.pitch));
            }
        }
        if n.step == note.step && n.pitch == note.pitch && l.notes.contains(n) {
            let k = choose|k: int| 0 <= k < l.notes.len() && l.notes[k] == n;
            assert(l.notes[k].is_at(note.step, note.pitch));
        }
        lemma_pushed(l.notes, note, n);
    }
}

/// Taking a note out takes out what is at its step and pitch, says whether there was anything, and
/// leaves every other note as it is.
pub proof fn what_taking_a_note_out_does(l: LaneModel, step: u32, pitch: u8, n: Note)
    requires
        l.tidy(),
    ensures
        ({
            let (now, gone) = l.without(step, pitch);
            &&& gone == has_one_at(l, step, pitch)
            &&& now.track == l.track
            &&& now.notes.contains(n) <==> l.notes.contains(n) && !(n.step == step && n.pitch
                == pitch)
        }),
{
    holding_is_having(l, step, pitch);
    let at = l.position(step, pitch);
    if l.notes.contains(n) && n.step == step && n.pitch == pitch {
        let k = choose|k: int| 0 <= k < l.notes.len() && l.notes[k] == n;
        assert(l.notes[k].is_at(step, pitch));
        lemma_only_place(l, step, pitch, k);
    }
    if l.holds(step, pitch) {
        assert(has_one_at(l, step, pitch));
        assert forall|j: int| 0 <= j < l.notes.len() && j != at implies #[trigger] l.notes[j]
            != l.notes[at] by {
            if l.notes[j] == l.notes[at] {
                lemma_only_place(l, step, pitch, j);
            }
        }
        lemma_removed(l.notes, at, n);
    } else {
        assert(!has_one_at(l, step, pitch)) by {
            if has_one_at(l, step, pitch) {
                let i = choose|i: int|
                    0 <= i < l.notes.len() && (#[trigger] l.notes[i]).step == step
                        && l.notes[i].pitch == pitch;
                assert(l.notes[i].is_at(step, pitch));
            }
        }
    }
}

/// A note as it is once its pattern is so many steps long: where it was, at the pitch and strength
/// it had, as long as it was unless that ran past the end, and a step long at the least.
pub open spec fn fits_as(n: Note, cut: Note, steps: int) -> bool {
    &&& cut.step == n.step && cut.pitch == n.pitch && cut.velocity == n.velocity
    &&& n.length == 0 ==> cut.length == 1
    &&& n.length >= 1 && n.step + n.length <= steps ==> cut.length == n.length
    &&& n.length >= 1 && n.step + n.length > steps ==> cut.length == steps - n.step
}

/// A lane that is cut to a length keeps the notes that start inside it, cut to end inside it, and
/// no others.
pub proof fn what_cutting_a_lane_leaves(l: LaneModel, steps: u32, m: Note)
    ensures
        l.trimmed(steps).track == l.track,
        l.trimmed(steps).notes.contains(m) <==> exists|i: int|
            0 <= i < l.notes.len() && (#[trigger] l.notes[i]).step < steps && fits_as(
                l.notes[i],
                m,
                steps as int,
            ),
{
    let kept = l.notes.filter(starts_before(steps));
    let now = l.trimmed(steps);
    crate::seqs::lemma_filter_members(l.notes, starts_before(steps));
    if now.notes.contains(m) {
        let k = choose|k: int| 0 <= k < now.notes.len() && now.notes[k] == m;
        assert(kept.contains(kept[k]));
        assert(l.notes.contains(kept[k]));
        let i = choose|i: int| 0 <= i < l.notes.len() && l.notes[i] == kept[k];
        assert(l.notes[i].step < steps);
        assert(m == kept[k].cut(steps));
    }
    if exists|i: int|
        0 <= i < l.notes.len() && (#[trigger] l.notes[i]).step < steps && fits_as(
            l.notes[i],
            m,
            steps as int,
        ) {
        let i = choose|i: int|
            0 <= i < l.notes.len() && (#[trigger] l.notes[i]).step < steps && fits_as(
                l.notes[i],
                m,
                steps as int,
            );
        assert(l.notes.contains(l.notes[i]));
        assert(starts_before(steps)(l.notes[i]));
        assert(kept.contains(l.notes[i]));
        let k = choose|k: int| 0 <= k < kept.len() && kept[k] == l.notes[i];
        assert(now.notes[k] == m);
    }
}

} // verus!
