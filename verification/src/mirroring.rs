//! The engine holds what the project holds: it does once it has been told a project, and it goes
//! on doing so through every edit that is told to it.

use vstd::prelude::*;
use vstd::relations::sorted_by;

use crate::bits::{bit, lemma_none_and_all, lemma_with, lemma_without};
use crate::command::{Command, EngineNote};
use crate::drawing::{
    drawing_touches_one_track, editing_keeps_a_pattern_tidy, inside,
};
use crate::lane::{at, editing_keeps_a_lane_tidy, holding_is_having, LaneModel, Note};
use crate::pattern::{on_track, playable, PatternModel};
use crate::playing::EngineModel;
use crate::score::{note_at, notes_with, notes_without, ScoreModel};
use crate::seqs::{lemma_first_where, lemma_first_where_bounds};
use crate::telling::{
    instrument_told, lanes_told, note_told, pattern_told, score_told,
};
use crate::{MAX_NOTES_PER_TRACK, MAX_PATTERNS, MAX_TRACKS};

verus! {

// --- notes ----------------------------------------------------------------------

/// Notes of the engine at different places.
pub open spec fn elsewhere() -> spec_fn(EngineNote, EngineNote) -> bool {
    |a: EngineNote, b: EngineNote| a.step != b.step || a.pitch != b.pitch
}

/// A note whose step and length the engine can hold as they are.
pub open spec fn sized(n: Note) -> bool {
    n.step <= 0xffff && n.length <= 0xffff
}

/// A note of the engine's is what one of these notes comes to.
pub open spec fn stems_from(e: EngineNote, notes: Seq<Note>) -> bool {
    exists|i: int| 0 <= i < notes.len() && EngineNote::of(#[trigger] notes[i]) == e
}

/// A list of the engine's holds the notes of a lane, and no others.
pub open spec fn same_notes(list: Seq<EngineNote>, notes: Seq<Note>) -> bool {
    &&& list.len() == notes.len()
    &&& sorted_by(list, elsewhere())
    &&& forall|i: int|
        0 <= i < notes.len() ==> list.contains(EngineNote::of(#[trigger] notes[i]))
    &&& forall|k: int| 0 <= k < list.len() ==> stems_from(#[trigger] list[k], notes)
}

/// A lane the engine can hold: tidy, with every note sized for it.
pub open spec fn holdable(l: LaneModel) -> bool {
    l.tidy() && forall|i: int| 0 <= i < l.notes.len() ==> sized(#[trigger] l.notes[i])
}

/// Where a note is in the list of the engine's, when it is in the lane.
proof fn lemma_find(list: Seq<EngineNote>, l: LaneModel, step: u32, pitch: u8)
    requires
        same_notes(list, l.notes),
        holdable(l),
        step <= 0xffff,
    ensures
        ({
            let k = crate::seqs::first_where(list, note_at(step as u16, pitch));
            &&& 0 <= k <= list.len()
            &&& (k < list.len() <==> l.holds(step, pitch))
            &&& k < list.len() ==> list[k] == EngineNote::of(l.notes[l.position(step, pitch)])
            &&& k < list.len() ==> forall|j: int|
                0 <= j < list.len() && j != k ==> (#[trigger] list[j]).step != step || list[j].pitch
                    != pitch
        }),
{
    let test = note_at(step as u16, pitch);
    lemma_first_where_bounds(list, test);
    holding_is_having(l, step, pitch);
    let k = crate::seqs::first_where(list, test);
    if l.holds(step, pitch) {
        let n = l.notes[l.position(step, pitch)];
        assert(list.contains(EngineNote::of(n)));
        let j = choose|j: int| 0 <= j < list.len() && list[j] == EngineNote::of(n);
        assert(test(list[j]));
    }
    if k < list.len() {
        assert(test(list[k]));
        assert(stems_from(list[k], l.notes));
        let i = choose|i: int|
            0 <= i < l.notes.len() && EngineNote::of(#[trigger] l.notes[i]) == list[k];
        assert(sized(l.notes[i]));
        assert(l.notes[i].is_at(step, pitch));
        assert(l.holds(step, pitch));
        let p = l.position(step, pitch);
        if p < i {
            assert(!l.notes[p].is_at(l.notes[i].step, l.notes[i].pitch));
        } else if i < p {
            assert(!l.notes[i].is_at(l.notes[p].step, l.notes[p].pitch));
        }
        assert forall|j: int| 0 <= j < list.len() && j != k implies (#[trigger] list[j]).step != step
            || list[j].pitch != pitch by {
            if j < k {
                assert(elsewhere()(list[j], list[k]));
            } else {
                assert(elsewhere()(list[k], list[j]));
            }
        }
    }
}

/// A note the lane takes is taken by the engine's list too.
proof fn lemma_note_set(list: Seq<EngineNote>, l: LaneModel, note: Note)
    requires
        same_notes(list, l.notes),
        holdable(l),
        sized(note),
        l.with_note(note).1,
    ensures
        same_notes(notes_with(list, EngineNote::of(note)), l.with_note(note).0.notes),
        holdable(l.with_note(note).0),
{
    let e = EngineNote::of(note);
    let after = l.with_note(note).0;
    let now = notes_with(list, e);
    editing_keeps_a_lane_tidy(l, 0, 0, true, note, 1);
    holding_is_having(l, note.step, note.pitch);
    lemma_find(list, l, note.step, note.pitch);
    let k = crate::seqs::first_where(list, note_at(e.step, e.pitch));
    let p = l.position(note.step, note.pitch);
    assert forall|i: int, j: int| 0 <= i < j < now.len() implies #[trigger] elsewhere()(
        now[i],
        now[j],
    ) by {
        if j < list.len() {
            assert(elsewhere()(list[i], list[j]));
        } else {
            assert(!note_at(e.step, e.pitch)(list[i]));
        }
    }
    assert forall|i: int| 0 <= i < after.notes.len() implies now.contains(
        EngineNote::of(#[trigger] after.notes[i]),
    ) by {
        let n = after.notes[i];
        if i == (if l.holds(note.step, note.pitch) { p } else { l.notes.len() as int }) {
            assert(now[k] == e);
        } else {
            assert(n == l.notes[i]);
            assert(list.contains(EngineNote::of(l.notes[i])));
            let j = choose|j: int| 0 <= j < list.len() && list[j] == EngineNote::of(n);
            if l.holds(note.step, note.pitch) {
                assert(sized(l.notes[i]));
                if i < p {
                    assert(!l.notes[i].is_at(l.notes[p].step, l.notes[p].pitch));
                } else {
                    assert(!l.notes[p].is_at(l.notes[i].step, l.notes[i].pitch));
                }
                assert(j != k);
            }
            assert(now[j] == EngineNote::of(n));
        }
    }
    assert forall|j: int| 0 <= j < now.len() implies stems_from(#[trigger] now[j], after.notes) by {
        if j == k {
            let i = if l.holds(note.step, note.pitch) { p } else { l.notes.len() as int };
            assert(after.notes[i] == note);
        } else {
            assert(now[j] == list[j]);
            assert(stems_from(list[j], l.notes));
            let i = choose|i: int|
                0 <= i < l.notes.len() && EngineNote::of(#[trigger] l.notes[i]) == list[j];
            if l.holds(note.step, note.pitch) && i == p {
                assert(list[j].step == note.step as u16);
                assert(list[j].step != note.step || list[j].pitch != note.pitch);
            }
            assert(after.notes[i] == l.notes[i]);
        }
    }
}

/// A note rubbed out of the lane is rubbed out of the engine's list.
proof fn lemma_note_cleared(list: Seq<EngineNote>, l: LaneModel, step: u32, pitch: u8)
    requires
        same_notes(list, l.notes),
        holdable(l),
        step <= 0xffff,
    ensures
        same_notes(notes_without(list, step as u16, pitch), l.without(step, pitch).0.notes),
        holdable(l.without(step, pitch).0),
{
    let after = l.without(step, pitch).0;
    let now = notes_without(list, step as u16, pitch);
    editing_keeps_a_lane_tidy(l, step, pitch, true, Note::boxed(0), 1);
    holding_is_having(l, step, pitch);
    lemma_find(list, l, step, pitch);
    let k = crate::seqs::first_where(list, note_at(step as u16, pitch));
    let p = l.position(step, pitch);
    if l.holds(step, pitch) {
        let last = list.len() - 1;
        assert forall|j: int| 0 <= j < now.len() implies #[trigger] now[j] == list[if j == k {
            last
        } else {
            j
        }] by {}
        assert forall|i: int, j: int| 0 <= i < j < now.len() implies #[trigger] elsewhere()(
            now[i],
            now[j],
        ) by {
            if i == k {
                assert(elsewhere()(list[j], list[last]));
            } else if j == k {
                assert(elsewhere()(list[i], list[last]));
            } else {
                assert(elsewhere()(list[i], list[j]));
            }
        }
        assert forall|i: int| 0 <= i < after.notes.len() implies now.contains(
            EngineNote::of(#[trigger] after.notes[i]),
        ) by {
            let q = if i < p { i } else { i + 1 };
            let n = l.notes[q];
            assert(after.notes[i] == n);
            assert(list.contains(EngineNote::of(l.notes[q])));
            let j = choose|j: int| 0 <= j < list.len() && list[j] == EngineNote::of(n);
            assert(sized(n));
            if q < p {
                assert(!l.notes[q].is_at(l.notes[p].step, l.notes[p].pitch));
            } else {
                assert(!l.notes[p].is_at(l.notes[q].step, l.notes[q].pitch));
            }
            assert(j != k);
            if j == last {
                assert(now[k] == list[last]);
            } else {
                assert(now[j] == list[j]);
            }
        }
        assert forall|j: int| 0 <= j < now.len() implies stems_from(
            #[trigger] now[j],
            after.notes,
        ) by {
            let m = if j == k { last } else { j };
            assert(now[j] == list[m]);
            assert(m != k);
            assert(stems_from(list[m], l.notes));
            let q = choose|q: int|
                0 <= q < l.notes.len() && EngineNote::of(#[trigger] l.notes[q]) == list[m];
            assert(q != p) by {
                if q == p {
                    assert(list[m].step != step || list[m].pitch != pitch);
                }
            }
            let i = if q < p { q } else { q - 1 };
            assert(after.notes[i] == l.notes[q]);
        }
        assert forall|i: int| 0 <= i < after.notes.len() implies sized(#[trigger] after.notes[i]) by {
            let q = if i < p { i } else { i + 1 };
            assert(after.notes[i] == l.notes[q]);
        }
    }
}

// --- patterns -------------------------------------------------------------------

/// Every note of a pattern lies inside it.
pub open spec fn fits(p: PatternModel) -> bool {
    forall|i: int, k: int|
        0 <= i < p.lanes.len() && 0 <= k < p.lanes[i].notes.len() ==> inside(
            #[trigger] p.lanes[i].notes[k],
            p.steps,
        )
}

/// A pattern as every edit leaves it.
pub open spec fn neat(p: PatternModel) -> bool {
    p.tidy() && fits(p) && p.pitched.no_duplicates() && p.id < MAX_PATTERNS
}

/// What the engine holds of a pattern is what the pattern holds: its length, its instruments,
/// and for every track exactly its notes.
pub open spec fn mirrors(score: ScoreModel, p: PatternModel) -> bool {
    &&& score.wf()
    &&& score.steps == p.steps
    &&& forall|t: u16|
        t < MAX_TRACKS ==> same_notes(score.tracks[t as int], (#[trigger] p.lane_of(t)).notes)
    &&& forall|t: u16|
        t < MAX_TRACKS ==> #[trigger] bit(score.pitched, t as u32) == p.pitched.contains(t)
}

/// Every lane of a neat pattern can be held.
proof fn lemma_holdable(p: PatternModel, track: u16)
    requires
        p.tidy(),
        fits(p),
    ensures
        holdable(p.lane_of(track)),
        p.lane_of(track).track == track,
        forall|i: int|
            0 <= i < p.lane_of(track).notes.len() ==> inside(
                #[trigger] p.lane_of(track).notes[i],
                p.steps,
            ),
{
    lemma_first_where_bounds(p.lanes, on_track(track));
    let l = p.lane_of(track);
    if p.has_lane(track) {
        let at = p.lane_at(track);
        assert(on_track(track)(p.lanes[at]));
        assert(p.lanes[at].tidy());
        assert forall|i: int| 0 <= i < l.notes.len() implies inside(#[trigger] l.notes[i], p.steps)
            && sized(l.notes[i]) by {
            assert(inside(p.lanes[at].notes[i], p.steps));
        }
    }
}

/// A pattern whose lanes' notes all lie inside it fits.
proof fn lemma_fits(p: PatternModel, steps: u32)
    requires
        p.tidy(),
        p.steps == steps,
        forall|t: u16, i: int|
            0 <= i < p.lane_of(t).notes.len() ==> inside(#[trigger] p.lane_of(t).notes[i], steps),
    ensures
        fits(p),
{
    assert forall|i: int, k: int|
        0 <= i < p.lanes.len() && 0 <= k < p.lanes[i].notes.len() implies inside(
        #[trigger] p.lanes[i].notes[k],
        p.steps,
    ) by {
        let t = p.lanes[i].track;
        assert forall|j: int| 0 <= j < i implies !on_track(t)(#[trigger] p.lanes[j]) by {
            assert(p.lanes[j].track != p.lanes[i].track);
        }
        lemma_first_where(p.lanes, on_track(t), i);
        assert(p.lane_of(t) == p.lanes[i]);
        assert(inside(p.lane_of(t).notes[k], steps));
    }
}

/// Drawing a note that lies inside the pattern leaves it neat, and the engine with the same
/// notes once it is told.
pub proof fn a_drawn_note_reaches_the_engine(score: ScoreModel, p: PatternModel, track: u16, note: Note)
    requires
        neat(p),
        mirrors(score, p),
        inside(note, p.steps),
        p.with_note(track, note).1,
    ensures
        neat(p.with_note(track, note).0),
        track < MAX_TRACKS ==> mirrors(
            score.with_note(track as int, EngineNote::of(note)),
            p.with_note(track, note).0,
        ),
        track >= MAX_TRACKS ==> mirrors(score, p.with_note(track, note).0),
{
    let after = p.with_note(track, note).0;
    editing_keeps_a_pattern_tidy(p, track, 0, 0, true, note, 1);
    drawing_touches_one_track(p, track, 0, 0, true, note);
    lemma_holdable(p, track);
    let l = p.lane_of(track);
    holding_is_having(l, note.step, note.pitch);
    assert forall|t: u16, i: int| 0 <= i < after.lane_of(t).notes.len() implies inside(
        #[trigger] after.lane_of(t).notes[i],
        p.steps,
    ) by {
        lemma_holdable(p, t);
        if t != track {
            assert(after.lane_of(t) == p.lane_of(t));
        } else if i < l.notes.len() {
            assert(inside(l.notes[i], p.steps));
        }
    }
    lemma_fits(after, p.steps);
    if track < MAX_TRACKS {
        assert(same_notes(score.tracks[track as int], p.lane_of(track).notes));
        lemma_note_set(score.tracks[track as int], l, note);
        let now = score.with_note(track as int, EngineNote::of(note));
        lemma_first_where_bounds(
            score.tracks[track as int],
            note_at(note.step as u16, note.pitch),
        );
        assert forall|t: u16| t < MAX_TRACKS implies same_notes(
            now.tracks[t as int],
            (#[trigger] after.lane_of(t)).notes,
        ) by {
            if t != track {
                assert(after.lane_of(t) == p.lane_of(t));
                assert(same_notes(score.tracks[t as int], p.lane_of(t).notes));
            }
        }
    } else {
        assert forall|t: u16| t < MAX_TRACKS implies same_notes(
            score.tracks[t as int],
            (#[trigger] after.lane_of(t)).notes,
        ) by {
            assert(after.lane_of(t) == p.lane_of(t));
            assert(same_notes(score.tracks[t as int], p.lane_of(t).notes));
        }
    }
}

/// Rubbing a note out leaves the pattern neat, and the engine with the same notes once it is
/// told.
pub proof fn a_rubbed_out_note_leaves_the_engine(
    score: ScoreModel,
    p: PatternModel,
    track: u16,
    step: u32,
    pitch: u8,
)
    requires
        neat(p),
        mirrors(score, p),
        step <= 0xffff,
    ensures
        neat(p.without_note(track, step, pitch).0),
        track < MAX_TRACKS ==> mirrors(
            score.without_note(track as int, step as u16, pitch),
            p.without_note(track, step, pitch).0,
        ),
        track >= MAX_TRACKS ==> mirrors(score, p.without_note(track, step, pitch).0),
{
    let after = p.without_note(track, step, pitch).0;
    editing_keeps_a_pattern_tidy(p, track, step, pitch, true, Note::boxed(0), 1);
    drawing_touches_one_track(p, track, step, pitch, true, Note::boxed(0));
    lemma_holdable(p, track);
    let l = p.lane_of(track);
    holding_is_having(l, step, pitch);
    assert forall|t: u16, i: int| 0 <= i < after.lane_of(t).notes.len() implies inside(
        #[trigger] after.lane_of(t).notes[i],
        p.steps,
    ) by {
        lemma_holdable(p, t);
        if t != track {
            assert(after.lane_of(t) == p.lane_of(t));
        } else if l.holds(step, pitch) {
            let at = l.position(step, pitch);
            let q = if i < at { i } else { i + 1 };
            assert(after.lane_of(t).notes[i] == l.notes[q]);
            assert(inside(l.notes[q], p.steps));
        } else {
            assert(inside(l.notes[i], p.steps));
        }
    }
    lemma_fits(after, p.steps);
    if track < MAX_TRACKS {
        assert(same_notes(score.tracks[track as int], p.lane_of(track).notes));
        lemma_note_cleared(score.tracks[track as int], l, step, pitch);
        let now = score.without_note(track as int, step as u16, pitch);
        lemma_first_where_bounds(score.tracks[track as int], note_at(step as u16, pitch));
        assert forall|t: u16| t < MAX_TRACKS implies same_notes(
            now.tracks[t as int],
            (#[trigger] after.lane_of(t)).notes,
        ) by {
            if t != track {
                assert(after.lane_of(t) == p.lane_of(t));
                assert(same_notes(score.tracks[t as int], p.lane_of(t).notes));
            }
        }
    } else {
        assert forall|t: u16| t < MAX_TRACKS implies same_notes(
            score.tracks[t as int],
            (#[trigger] after.lane_of(t)).notes,
        ) by {
            assert(after.lane_of(t) == p.lane_of(t));
            assert(same_notes(score.tracks[t as int], p.lane_of(t).notes));
        }
    }
}

/// Making a track an instrument, or a one-shot again, reaches the engine.
pub proof fn being_an_instrument_reaches_the_engine(
    score: ScoreModel,
    p: PatternModel,
    track: u16,
    pitched: bool,
)
    requires
        neat(p),
        mirrors(score, p),
    ensures
        neat(p.with_pitched(track, pitched)),
        track < MAX_TRACKS ==> mirrors(
            score.with_pitched(track as u32, pitched),
            p.with_pitched(track, pitched),
        ),
        track >= MAX_TRACKS ==> mirrors(score, p.with_pitched(track, pitched)),
{
    let after = p.with_pitched(track, pitched);
    editing_keeps_a_pattern_tidy(p, track, 0, 0, pitched, Note::boxed(0), 1);
    crate::drawing::being_an_instrument_is_what_it_was_set_to(p, track, pitched, track);
    assert(after.lanes == p.lanes);
    assert forall|t: u16| #[trigger] after.lane_of(t) == p.lane_of(t) by {}
    if track < MAX_TRACKS {
        lemma_with(score.pitched, track as u32);
        lemma_without(score.pitched, track as u32);
        let now = score.with_pitched(track as u32, pitched);
        assert forall|t: u16| t < MAX_TRACKS implies #[trigger] bit(now.pitched, t as u32)
            == after.pitched.contains(t) by {
            assert(bit(score.pitched, t as u32) == p.pitched.contains(t));
            crate::drawing::being_an_instrument_is_what_it_was_set_to(p, track, pitched, t);
        }
        assert forall|t: u16| t < MAX_TRACKS implies same_notes(
            now.tracks[t as int],
            (#[trigger] after.lane_of(t)).notes,
        ) by {
            assert(same_notes(score.tracks[t as int], p.lane_of(t).notes));
        }
    } else {
        assert forall|t: u16| t < MAX_TRACKS implies #[trigger] bit(score.pitched, t as u32)
            == after.pitched.contains(t) by {
            assert(bit(score.pitched, t as u32) == p.pitched.contains(t));
            crate::drawing::being_an_instrument_is_what_it_was_set_to(p, track, pitched, t);
        }
        assert forall|t: u16| t < MAX_TRACKS implies same_notes(
            score.tracks[t as int],
            (#[trigger] after.lane_of(t)).notes,
        ) by {
            assert(same_notes(score.tracks[t as int], p.lane_of(t).notes));
        }
    }
}

// --- telling a pattern ------------------------------------------------------------

/// Whether a command is to one pattern and nothing else.
pub open spec fn to_pattern(c: Command, id: u16) -> bool {
    match c {
        Command::SetPatternSteps { pattern, .. } => pattern == id,
        Command::SetPatternPitched { pattern, .. } => pattern == id,
        Command::SetNote { pattern, .. } => pattern == id,
        Command::ClearNote { pattern, .. } => pattern == id,
        Command::ClearNotes { pattern, .. } => pattern == id,
        Command::ClearPattern { pattern } => pattern == id,
        _ => false,
    }
}

/// What a command to a pattern does to what the engine holds of it.
pub open spec fn scored(score: ScoreModel, c: Command) -> ScoreModel {
    match c {
        Command::SetPatternSteps { steps, .. } => ScoreModel { steps: playable(steps), ..score },
        Command::SetPatternPitched { track, pitched, .. } => if track < MAX_TRACKS {
            score.with_pitched(track as u32, pitched)
        } else {
            score
        },
        Command::SetNote { track, note, .. } => if track < MAX_TRACKS {
            score.with_note(track as int, note)
        } else {
            score
        },
        Command::ClearNote { track, step, pitch, .. } => if track < MAX_TRACKS {
            score.without_note(track as int, step, pitch)
        } else {
            score
        },
        Command::ClearNotes { track, .. } => if track < MAX_TRACKS {
            score.without_notes(track as int)
        } else {
            score
        },
        Command::ClearPattern { .. } => score.emptied(),
        _ => score,
    }
}

pub open spec fn all_scored(score: ScoreModel, commands: Seq<Command>) -> ScoreModel
    decreases commands.len(),
{
    if commands.len() == 0 {
        score
    } else {
        scored(all_scored(score, commands.drop_last()), commands.last())
    }
}

/// Two engines that differ in their patterns and in where their clocks are at the most.
pub open spec fn alike_but_for_patterns(a: EngineModel, b: EngineModel) -> bool {
    &&& a.tracks == b.tracks
    &&& a.starts == b.starts
    &&& a.lengths == b.lengths
    &&& a.song_len == b.song_len
    &&& a.song_mode == b.song_mode
    &&& a.active_pattern == b.active_pattern
    &&& a.voices == b.voices
    &&& a.playing == b.playing
    &&& a.master == b.master
    &&& a.handed == b.handed
    &&& a.clock.bpm == b.clock.bpm
    &&& a.clock.rate == b.clock.rate
}

/// Commands to one pattern change what the engine holds of that pattern, and nothing else.
pub proof fn commands_to_a_pattern_touch_only_it(m: EngineModel, id: u16, commands: Seq<Command>)
    requires
        id < MAX_PATTERNS,
        m.patterns.len() == MAX_PATTERNS,
        forall|i: int| 0 <= i < commands.len() ==> to_pattern(#[trigger] commands[i], id),
    ensures
        m.all_applied(commands).patterns == m.patterns.update(
            id as int,
            all_scored(m.patterns[id as int], commands),
        ),
        alike_but_for_patterns(m.all_applied(commands), m),
    decreases commands.len(),
{
    if commands.len() > 0 {
        let front = commands.drop_last();
        assert forall|i: int| 0 <= i < front.len() implies to_pattern(#[trigger] front[i], id) by {
            assert(to_pattern(commands[i], id));
        }
        commands_to_a_pattern_touch_only_it(m, id, front);
        let before = m.all_applied(front);
        let last = commands[commands.len() - 1];
        assert(to_pattern(last, id));
        assert(before.patterns[id as int] == all_scored(m.patterns[id as int], front));
        assert(before.applied(last).patterns =~= before.patterns.update(
            id as int,
            scored(before.patterns[id as int], last),
        ));
        assert(m.all_applied(commands).patterns =~= m.patterns.update(
            id as int,
            all_scored(m.patterns[id as int], commands),
        ));
    } else {
        assert(m.patterns.update(id as int, m.patterns[id as int]) =~= m.patterns);
    }
}

pub proof fn lemma_scored_both(score: ScoreModel, a: Seq<Command>, b: Seq<Command>)
    ensures
        all_scored(score, a + b) == all_scored(all_scored(score, a), b),
    decreases b.len(),
{
    if b.len() == 0 {
        assert(a + b =~= a);
    } else {
        assert((a + b).drop_last() =~= a + b.drop_last());
        assert((a + b).last() == b.last());
        lemma_scored_both(score, a, b.drop_last());
    }
}

pub open spec fn as_held() -> spec_fn(Note) -> EngineNote {
    |n: Note| EngineNote::of(n)
}

/// Telling the notes of a lane to an empty list puts them in it as they come.
proof fn lemma_notes_told(score: ScoreModel, id: u16, l: LaneModel, upto: int)
    requires
        score.tracks.len() == MAX_TRACKS,
        holdable(l),
        0 <= upto <= l.notes.len(),
        l.track < MAX_TRACKS ==> score.tracks[l.track as int].len() == 0,
    ensures
        all_scored(score, l.notes.take(upto).map_values(note_told(id, l.track))) == (if l.track
            < MAX_TRACKS {
            ScoreModel {
                tracks: score.tracks.update(
                    l.track as int,
                    l.notes.take(upto).map_values(as_held()),
                ),
                ..score
            }
        } else {
            score
        }),
    decreases upto,
{
    let told = l.notes.take(upto).map_values(note_told(id, l.track));
    if upto == 0 {
        assert(told =~= Seq::empty());
        if l.track < MAX_TRACKS {
            assert(l.notes.take(0).map_values(as_held()) =~= score.tracks[l.track as int]);
            assert(score.tracks.update(l.track as int, score.tracks[l.track as int])
                =~= score.tracks);
        }
    } else {
        let k = upto - 1;
        let n = l.notes[k];
        lemma_notes_told(score, id, l, k);
        assert(told.drop_last() =~= l.notes.take(k).map_values(note_told(id, l.track)));
        assert(told.last() == note_told(id, l.track)(n));
        if l.track < MAX_TRACKS {
            let list = l.notes.take(k).map_values(as_held());
            let test = note_at(n.step as u16, n.pitch);
            assert forall|j: int| 0 <= j < list.len() implies !test(#[trigger] list[j]) by {
                assert(sized(l.notes[j]) && sized(l.notes[k]));
                assert(!l.notes[j].is_at(l.notes[k].step, l.notes[k].pitch));
            }
            lemma_first_where(list, test, list.len() as int);
            assert(notes_with(list, EngineNote::of(n)) =~= l.notes.take(upto).map_values(
                as_held(),
            ));
        }
    }
}

/// Telling the lanes of a pattern to an engine that holds nothing of it gives every track its
/// notes.
proof fn lemma_lanes_told(score: ScoreModel, p: PatternModel)
    requires
        score.tracks.len() == MAX_TRACKS,
        forall|t: int| 0 <= t < MAX_TRACKS ==> (#[trigger] score.tracks[t]).len() == 0,
        p.tidy(),
        fits(p),
    ensures
        ({
            let after = all_scored(score, lanes_told(p.id, p.lanes));
            &&& after.steps == score.steps
            &&& after.pitched == score.pitched
            &&& after.tracks.len() == MAX_TRACKS
            &&& forall|t: u16|
                t < MAX_TRACKS ==> after.tracks[t as int] == (#[trigger] p.lane_of(
                    t,
                )).notes.map_values(as_held())
        }),
    decreases p.lanes.len(),
{
    let after = all_scored(score, lanes_told(p.id, p.lanes));
    if p.lanes.len() == 0 {
        assert forall|t: u16| t < MAX_TRACKS implies after.tracks[t as int] == (
        #[trigger] p.lane_of(t)).notes.map_values(as_held()) by {
            lemma_first_where_bounds(p.lanes, on_track(t));
            assert(score.tracks[t as int].len() == 0);
            assert(p.lane_of(t).notes.map_values(as_held()) =~= score.tracks[t as int]);
        }
    } else {
        let k = p.lanes.len() - 1;
        let l = p.lanes[k];
        let front = PatternModel { lanes: p.lanes.drop_last(), ..p };
        assert forall|i: int| 0 <= i < front.lanes.len() implies front.lanes[i] == p.lanes[i] by {}
        assert(fits(front)) by {
            assert forall|i: int, j: int|
                0 <= i < front.lanes.len() && 0 <= j < front.lanes[i].notes.len() implies inside(
                #[trigger] front.lanes[i].notes[j],
                front.steps,
            ) by {
                assert(inside(p.lanes[i].notes[j], p.steps));
            }
        }
        lemma_lanes_told(score, front);
        let before = all_scored(score, lanes_told(p.id, front.lanes));
        let told = l.notes.map_values(note_told(p.id, l.track));
        lemma_scored_both(score, lanes_told(p.id, front.lanes), told);
        assert(l.tidy());
        assert(holdable(l)) by {
            assert forall|i: int| 0 <= i < l.notes.len() implies sized(#[trigger] l.notes[i]) by {
                assert(inside(p.lanes[k].notes[i], p.steps));
            }
        }
        // No earlier lane is of this track.
        assert forall|j: int| 0 <= j < k implies !on_track(l.track)(#[trigger] p.lanes[j]) by {
            assert(p.lanes[j].track != p.lanes[k].track);
        }
        lemma_first_where(p.lanes, on_track(l.track), k);
        assert forall|j: int| 0 <= j < front.lanes.len() implies !on_track(l.track)(
            #[trigger] front.lanes[j],
        ) by {
            assert(!on_track(l.track)(p.lanes[j]));
        }
        lemma_first_where(front.lanes, on_track(l.track), front.lanes.len() as int);
        if l.track < MAX_TRACKS {
            assert(front.lane_of(l.track).notes.len() == 0);
            assert(before.tracks[l.track as int] == front.lane_of(l.track).notes.map_values(
                as_held(),
            ));
        }
        lemma_notes_told(before, p.id, l, l.notes.len() as int);
        assert(l.notes.take(l.notes.len() as int) =~= l.notes);
        assert forall|t: u16| t < MAX_TRACKS implies after.tracks[t as int] == (
        #[trigger] p.lane_of(t)).notes.map_values(as_held()) by {
            if t != l.track {
                assert(before.tracks[t as int] == front.lane_of(t).notes.map_values(as_held()));
                lemma_first_where_bounds(front.lanes, on_track(t));
                let at = front.lane_at(t);
                assert forall|j: int| 0 <= j < at implies !on_track(t)(#[trigger] p.lanes[j]) by {
                    assert(!on_track(t)(front.lanes[j]));
                }
                if at < front.lanes.len() {
                    lemma_first_where(p.lanes, on_track(t), at);
                } else {
                    assert forall|j: int| 0 <= j < p.lanes.len() implies !on_track(t)(
                        #[trigger] p.lanes[j],
                    ) by {
                        if j < front.lanes.len() {
                            assert(!on_track(t)(front.lanes[j]));
                        }
                    }
                    lemma_first_where(p.lanes, on_track(t), p.lanes.len() as int);
                }
                assert(p.lane_of(t) == front.lane_of(t));
            }
        }
    }
}

/// Telling which tracks are instruments to an engine that thinks none is.
proof fn lemma_instruments_told(score: ScoreModel, id: u16, tracks: Seq<u16>)
    requires
        score.pitched == 0,
    ensures
        ({
            let after = all_scored(score, tracks.map_values(instrument_told(id)));
            &&& after.steps == score.steps
            &&& after.tracks == score.tracks
            &&& forall|t: u16|
                t < MAX_TRACKS ==> #[trigger] bit(after.pitched, t as u32) == tracks.contains(t)
        }),
    decreases tracks.len(),
{
    let told = tracks.map_values(instrument_told(id));
    let after = all_scored(score, told);
    if tracks.len() == 0 {
        lemma_none_and_all();
        assert(told =~= Seq::empty());
    } else {
        let front = tracks.drop_last();
        lemma_instruments_told(score, id, front);
        assert(told.drop_last() =~= front.map_values(instrument_told(id)));
        assert(told.last() == instrument_told(id)(tracks.last()));
        let before = all_scored(score, told.drop_last());
        if tracks.last() < MAX_TRACKS {
            lemma_with(before.pitched, tracks.last() as u32);
        }
        assert forall|t: u16| t < MAX_TRACKS implies #[trigger] bit(after.pitched, t as u32)
            == tracks.contains(t) by {
            assert(bit(before.pitched, t as u32) == front.contains(t));
            assert(tracks[tracks.len() - 1] == tracks.last());
            if front.contains(t) {
                let i = choose|i: int| 0 <= i < front.len() && front[i] == t;
                assert(tracks[i] == t);
            }
            if tracks.contains(t) && t != tracks.last() {
                let i = choose|i: int| 0 <= i < tracks.len() && tracks[i] == t;
                assert(front[i] == t);
            }
        }
    }
}

/// A list told in order holds the lane's notes.
proof fn lemma_as_held(l: LaneModel)
    requires
        holdable(l),
    ensures
        same_notes(l.notes.map_values(as_held()), l.notes),
{
    let list = l.notes.map_values(as_held());
    assert forall|i: int, j: int| 0 <= i < j < list.len() implies #[trigger] elsewhere()(
        list[i],
        list[j],
    ) by {
        assert(sized(l.notes[i]) && sized(l.notes[j]));
        assert(!l.notes[i].is_at(l.notes[j].step, l.notes[j].pitch));
    }
    assert forall|i: int| 0 <= i < l.notes.len() implies list.contains(
        EngineNote::of(#[trigger] l.notes[i]),
    ) by {
        assert(list[i] == EngineNote::of(l.notes[i]));
    }
    assert forall|k: int| 0 <= k < list.len() implies stems_from(#[trigger] list[k], l.notes) by {
        assert(EngineNote::of(l.notes[k]) == list[k]);
    }
}

/// Telling a neat pattern to an engine that holds nothing of it leaves the engine holding it.
pub proof fn lemma_score_told(score: ScoreModel, p: PatternModel, steps: u32)
    requires
        neat(p),
        score == ScoreModel::fresh(steps),
    ensures
        mirrors(all_scored(score, score_told(p)), p),
{
    let first = seq![Command::SetPatternSteps { pattern: p.id, steps: p.steps }];
    let second = p.pitched.map_values(instrument_told(p.id));
    let third = lanes_told(p.id, p.lanes);
    let one = all_scored(score, first);
    reveal_with_fuel(all_scored, 2);
    assert(one == ScoreModel { steps: p.steps, ..score });
    lemma_scored_both(score, first, second);
    lemma_instruments_told(one, p.id, p.pitched);
    let two = all_scored(one, second);
    lemma_scored_both(score, first + second, third);
    lemma_lanes_told(two, p);
    let done = all_scored(two, third);
    assert(all_scored(score, score_told(p)) == done);
    assert forall|t: u16| t < MAX_TRACKS implies same_notes(
        done.tracks[t as int],
        (#[trigger] p.lane_of(t)).notes,
    ) by {
        lemma_holdable(p, t);
        lemma_as_held(p.lane_of(t));
    }
    assert forall|t: int| 0 <= t < done.tracks.len() implies (#[trigger] done.tracks[t]).len()
        <= MAX_NOTES_PER_TRACK by {
        let track = t as u16;
        lemma_holdable(p, track);
        assert(done.tracks[track as int] == p.lane_of(track).notes.map_values(as_held()));
    }
    assert forall|t: u16| t < MAX_TRACKS implies #[trigger] bit(done.pitched, t as u32)
        == p.pitched.contains(t) by {
        assert(bit(two.pitched, t as u32) == p.pitched.contains(t));
    }
}

/// Every command that tells a pattern is to that pattern.
pub proof fn lemma_told_to(p: PatternModel)
    ensures
        forall|i: int|
            0 <= i < pattern_told(p).len() ==> to_pattern(#[trigger] pattern_told(p)[i], p.id),
        forall|i: int|
            0 <= i < score_told(p).len() ==> to_pattern(#[trigger] score_told(p)[i], p.id),
{
    lemma_lanes_told_to(p.id, p.lanes);
    let second = p.pitched.map_values(instrument_told(p.id));
    let first = seq![Command::SetPatternSteps { pattern: p.id, steps: p.steps }];
    let third = lanes_told(p.id, p.lanes);
    assert forall|i: int| 0 <= i < score_told(p).len() implies to_pattern(
        #[trigger] score_told(p)[i],
        p.id,
    ) by {
        if i < 1 {
        } else if i < 1 + second.len() {
            assert(score_told(p)[i] == second[i - 1]);
        } else {
            assert(score_told(p)[i] == third[i - 1 - second.len()]);
        }
    }
    assert forall|i: int| 0 <= i < pattern_told(p).len() implies to_pattern(
        #[trigger] pattern_told(p)[i],
        p.id,
    ) by {
        if i > 0 {
            assert(pattern_told(p)[i] == score_told(p)[i - 1]);
        }
    }
}

proof fn lemma_lanes_told_to(id: u16, lanes: Seq<LaneModel>)
    ensures
        forall|i: int|
            0 <= i < lanes_told(id, lanes).len() ==> to_pattern(
                #[trigger] lanes_told(id, lanes)[i],
                id,
            ),
    decreases lanes.len(),
{
    if lanes.len() > 0 {
        let before = lanes_told(id, lanes.drop_last());
        let last = lanes.last().notes.map_values(note_told(id, lanes.last().track));
        lemma_lanes_told_to(id, lanes.drop_last());
        assert forall|i: int| 0 <= i < lanes_told(id, lanes).len() implies to_pattern(
            #[trigger] lanes_told(id, lanes)[i],
            id,
        ) by {
            if i < before.len() {
                assert(lanes_told(id, lanes)[i] == before[i]);
            } else {
                assert(lanes_told(id, lanes)[i] == last[i - before.len()]);
            }
        }
    }
}

/// Telling a pattern from nothing leaves its slot holding it, whatever was there before.
pub proof fn lemma_pattern_told(score: ScoreModel, p: PatternModel)
    requires
        neat(p),
    ensures
        mirrors(all_scored(score, pattern_told(p)), p),
{
    let clear = seq![Command::ClearPattern { pattern: p.id }];
    lemma_scored_both(score, clear, score_told(p));
    reveal_with_fuel(all_scored, 2);
    assert(all_scored(score, clear) == score.emptied());
    lemma_score_told(score.emptied(), p, score.steps);
}

/// Telling a pattern from nothing leaves the engine holding that pattern, whatever was in its
/// slot before, and touches nothing else.
pub proof fn telling_a_pattern_is_holding_it(m: EngineModel, p: PatternModel)
    requires
        m.patterns.len() == MAX_PATTERNS,
        neat(p),
    ensures
        mirrors(m.all_applied(pattern_told(p)).patterns[p.id as int], p),
        forall|q: int|
            0 <= q < MAX_PATTERNS && q != p.id ==> #[trigger] m.all_applied(
                pattern_told(p),
            ).patterns[q] == m.patterns[q],
        m.all_applied(pattern_told(p)).patterns.len() == MAX_PATTERNS,
        alike_but_for_patterns(m.all_applied(pattern_told(p)), m),
{
    lemma_told_to(p);
    commands_to_a_pattern_touch_only_it(m, p.id, pattern_told(p));
    lemma_pattern_told(m.patterns[p.id as int], p);
}

} // verus!
