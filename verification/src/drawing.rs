//! What holds of a pattern whatever is drawn in it.

use vstd::prelude::*;
use vstd::relations::sorted_by;

use crate::lane::{
    a_box_is_what_it_was_set_to, a_note_put_in_comes_back_out, editing_keeps_a_lane_tidy, fits_as,
    has_one_at, starts_before, what_a_box_does, what_cutting_a_lane_leaves,
    what_putting_a_note_in_does, what_taking_a_note_out_does, LaneModel, Note,
};
use crate::pattern::{
    just, not_empty, notes_in, off_track, on_track, other_than, playable, PatternModel,
};
use crate::seqs::{
    by_rank, lemma_filter_all, lemma_filter_members, lemma_filter_pairs, lemma_first_where,
    lemma_first_where_bounds,
};
use crate::{DEFAULT_PITCH, MAX_STEPS};

verus! {

/// Lanes of different tracks.
pub open spec fn other_track() -> spec_fn(LaneModel, LaneModel) -> bool {
    |a: LaneModel, b: LaneModel| a.track != b.track
}

/// Where a track's lane is, when no two lanes are of one track.
proof fn lemma_lane_at(p: PatternModel, track: u16, i: int)
    requires
        sorted_by(p.lanes, other_track()),
        0 <= i < p.lanes.len(),
        p.lanes[i].track == track,
    ensures
        p.lane_at(track) == i,
        p.has_lane(track),
        p.lane_of(track) == p.lanes[i],
{
    assert forall|j: int| 0 <= j < i implies !on_track(track)(#[trigger] p.lanes[j]) by {
        assert(other_track()(p.lanes[j], p.lanes[i]));
    }
    lemma_first_where(p.lanes, on_track(track), i);
}

/// Whether there is a lane of a track among the lanes.
proof fn lemma_has_lane(p: PatternModel, track: u16)
    ensures
        p.has_lane(track) <==> exists|i: int|
            0 <= i < p.lanes.len() && (#[trigger] p.lanes[i]).track == track,
        0 <= p.lane_at(track) <= p.lanes.len(),
        p.has_lane(track) ==> p.lanes[p.lane_at(track)].track == track,
{
    lemma_first_where_bounds(p.lanes, on_track(track));
    if p.has_lane(track) {
        assert(on_track(track)(p.lanes[p.lane_at(track)]));
    }
    if exists|i: int| 0 <= i < p.lanes.len() && (#[trigger] p.lanes[i]).track == track {
        let i = choose|i: int| 0 <= i < p.lanes.len() && (#[trigger] p.lanes[i]).track == track;
        assert(on_track(track)(p.lanes[i]));
    }
}

/// Sweeping empty lanes out changes no track's notes.
proof fn lemma_swept(p: PatternModel)
    requires
        sorted_by(p.lanes, other_track()),
    ensures
        sorted_by(p.swept().lanes, other_track()),
        forall|track: u16| #[trigger] p.swept().lane_of(track) == p.lane_of(track),
        forall|l: LaneModel| #[trigger]
            p.swept().lanes.contains(l) <==> p.lanes.contains(l) && l.notes.len() != 0,
{
    let after = p.swept();
    lemma_filter_pairs(p.lanes, not_empty(), other_track());
    lemma_filter_members(p.lanes, not_empty());
    assert forall|track: u16| #[trigger] after.lane_of(track) == p.lane_of(track) by {
        lemma_has_lane(p, track);
        lemma_has_lane(after, track);
        if after.has_lane(track) {
            let l = after.lanes[after.lane_at(track)];
            assert(after.lanes.contains(l));
            assert(p.lanes.contains(l));
            let i = choose|i: int| 0 <= i < p.lanes.len() && p.lanes[i] == l;
            lemma_lane_at(p, track, i);
        } else if p.has_lane(track) {
            let l = p.lanes[p.lane_at(track)];
            assert(p.lanes.contains(l));
            if l.notes.len() != 0 {
                assert(after.lanes.contains(l));
                let i = choose|i: int| 0 <= i < after.lanes.len() && after.lanes[i] == l;
                lemma_lane_at(after, track, i);
            }
            assert(l =~= after.lane_of(track));
        }
    }
}

/// Putting a lane in changes the notes of its own track and no other.
proof fn lemma_with_lane(p: PatternModel, track: u16, lane: LaneModel)
    requires
        sorted_by(p.lanes, other_track()),
        lane.track == track,
    ensures
        sorted_by(p.with_lane(track, lane).lanes, other_track()),
        p.with_lane(track, lane).lane_of(track) == lane,
        forall|t: u16| t != track ==> #[trigger] p.with_lane(track, lane).lane_of(t) == p.lane_of(t),
{
    let after = p.with_lane(track, lane);
    lemma_has_lane(p, track);
    assert forall|i: int, j: int| 0 <= i < j < after.lanes.len() implies #[trigger] other_track()(
        after.lanes[i],
        after.lanes[j],
    ) by {
        if j < p.lanes.len() {
            assert(other_track()(p.lanes[i], p.lanes[j]));
        } else {
            assert(p.lanes[i].track != track);
        }
    }
    let at = if p.has_lane(track) { p.lane_at(track) } else { p.lanes.len() as int };
    lemma_lane_at(after, track, at);
    assert forall|t: u16| t != track implies #[trigger] after.lane_of(t) == p.lane_of(t) by {
        lemma_has_lane(p, t);
        lemma_has_lane(after, t);
        if p.has_lane(t) {
            assert(after.lanes[p.lane_at(t)] == p.lanes[p.lane_at(t)]);
            lemma_lane_at(after, t, p.lane_at(t));
        } else if after.has_lane(t) {
            assert(p.lanes[after.lane_at(t)].track == t);
        }
    }
}

proof fn lemma_tidy_tracks(p: PatternModel)
    requires
        p.tidy(),
    ensures
        sorted_by(p.lanes, other_track()),
        forall|track: u16| (#[trigger] p.lane_of(track)).tidy(),
        forall|track: u16| (#[trigger] p.lane_of(track)).track == track,
{
    assert forall|track: u16| (#[trigger] p.lane_of(track)).tidy() && p.lane_of(track).track == track by {
        lemma_has_lane(p, track);
    }
}

/// A pattern whose lanes are tidy and of different tracks is tidy once it is swept.
proof fn lemma_swept_is_tidy(p: PatternModel)
    requires
        1 <= p.steps <= MAX_STEPS,
        sorted_by(p.lanes, other_track()),
        forall|i: int| 0 <= i < p.lanes.len() ==> (#[trigger] p.lanes[i]).tidy(),
    ensures
        p.swept().tidy(),
{
    let after = p.swept();
    lemma_swept(p);
    assert forall|i: int| 0 <= i < after.lanes.len() implies (#[trigger] after.lanes[i]).tidy()
        && after.lanes[i].notes.len() != 0 by {
        assert(after.lanes.contains(after.lanes[i]));
        assert(p.lanes.contains(after.lanes[i]));
    }
    assert forall|i: int, j: int| 0 <= i < j < after.lanes.len() implies (#[trigger] after.lanes[i]).track
        != (#[trigger] after.lanes[j]).track by {
        assert(other_track()(after.lanes[i], after.lanes[j]));
    }
}

proof fn lemma_new_lane(p: PatternModel, track: u16, lane: LaneModel)
    requires
        p.tidy(),
        lane.track == track,
        lane.tidy(),
    ensures
        p.with_lane(track, lane).swept().tidy(),
        p.with_lane(track, lane).swept().lane_of(track) == lane,
        forall|t: u16|
            t != track ==> #[trigger] p.with_lane(track, lane).swept().lane_of(t) == p.lane_of(t),
{
    lemma_tidy_tracks(p);
    lemma_has_lane(p, track);
    let with = p.with_lane(track, lane);
    lemma_with_lane(p, track, lane);
    lemma_swept_is_tidy(with);
    lemma_swept(with);
    assert forall|t: u16| t != track implies #[trigger] with.swept().lane_of(t) == p.lane_of(t) by {
        assert(with.lane_of(t) == p.lane_of(t));
    }
}

/// Ticking a box, drawing a note and rubbing one out do to the track's lane what they say, and
/// touch no other track.
pub proof fn drawing_touches_one_track(
    p: PatternModel,
    track: u16,
    step: u32,
    pitch: u8,
    on: bool,
    note: Note,
)
    requires
        p.tidy(),
    ensures
        p.with_step(track, step, on).0.lane_of(track) == p.lane_of(track).with_step(step, on).0,
        p.with_note(track, note).0.lane_of(track) == p.lane_of(track).with_note(note).0,
        p.without_note(track, step, pitch).0.lane_of(track) == p.lane_of(track).without(
            step,
            pitch,
        ).0,
        forall|t: u16|
            t != track ==> #[trigger] p.with_step(track, step, on).0.lane_of(t) == p.lane_of(t),
        forall|t: u16|
            t != track ==> #[trigger] p.with_note(track, note).0.lane_of(t) == p.lane_of(t),
        forall|t: u16|
            t != track ==> #[trigger] p.without_note(track, step, pitch).0.lane_of(t) == p.lane_of(
                t,
            ),
{
    lemma_tidy_tracks(p);
    let lane = p.lane_of(track);
    assert(lane.tidy() && lane.track == track);
    editing_keeps_a_lane_tidy(lane, step, pitch, on, note, 1);
    lemma_new_lane(p, track, lane.with_step(step, on).0);
    lemma_new_lane(p, track, lane.with_note(note).0);
    lemma_new_lane(p, track, lane.without(step, pitch).0);
}

/// Every edit leaves a tidy pattern tidy.
pub proof fn editing_keeps_a_pattern_tidy(
    p: PatternModel,
    track: u16,
    step: u32,
    pitch: u8,
    on: bool,
    note: Note,
    steps: u32,
)
    requires
        p.tidy(),
    ensures
        p.with_step(track, step, on).0.tidy(),
        p.with_note(track, note).0.tidy(),
        p.without_note(track, step, pitch).0.tidy(),
        p.with_steps(steps).tidy(),
        p.fitted().tidy(),
        p.with_pitched(track, on).tidy(),
        p.without_track(track).tidy(),
{
    lemma_tidy_tracks(p);
    let lane = p.lane_of(track);
    assert(lane.tidy() && lane.track == track);
    editing_keeps_a_lane_tidy(lane, step, pitch, on, note, 1);
    lemma_new_lane(p, track, lane.with_step(step, on).0);
    lemma_new_lane(p, track, lane.with_note(note).0);
    lemma_new_lane(p, track, lane.without(step, pitch).0);
    lemma_fitted_is_tidy(p);
    lemma_fitted_is_tidy(PatternModel { steps: playable(steps), ..p });
    let rest = p.without_track(track);
    lemma_filter_members(p.lanes, off_track(track));
    lemma_filter_pairs(p.lanes, off_track(track), other_track());
    assert forall|i: int| 0 <= i < rest.lanes.len() implies (#[trigger] rest.lanes[i]).tidy()
        && rest.lanes[i].notes.len() != 0 by {
        assert(rest.lanes.contains(rest.lanes[i]));
        assert(p.lanes.contains(rest.lanes[i]));
    }
    assert forall|i: int, j: int| 0 <= i < j < rest.lanes.len() implies (#[trigger] rest.lanes[i]).track
        != (#[trigger] rest.lanes[j]).track by {
        assert(other_track()(rest.lanes[i], rest.lanes[j]));
    }
}

proof fn lemma_fitted_is_tidy(p: PatternModel)
    requires
        p.tidy(),
    ensures
        p.fitted().tidy(),
{
    let cut = |l: LaneModel| l.trimmed(p.steps);
    let trimmed = PatternModel { lanes: p.lanes.map_values(cut), ..p };
    assert forall|i: int| 0 <= i < trimmed.lanes.len() implies (#[trigger] trimmed.lanes[i]).tidy() by {
        editing_keeps_a_lane_tidy(p.lanes[i], 0, 0, true, Note::boxed(0), p.steps);
    }
    lemma_tidy_tracks(p);
    assert forall|i: int, j: int| 0 <= i < j < trimmed.lanes.len() implies #[trigger] other_track()(
        trimmed.lanes[i],
        trimmed.lanes[j],
    ) by {
        assert(other_track()(p.lanes[i], p.lanes[j]));
    }
    lemma_swept_is_tidy(trimmed);
}

/// A note that fits its pattern: it starts inside it, lasts a step at the least, and ends by
/// the end.
pub open spec fn inside(n: Note, steps: u32) -> bool {
    n.length >= 1 && n.step + n.length <= steps
}

/// After a change of length every note lies inside the pattern. A note that started inside it
/// is still there, no longer than it was; one that starts past the end is gone.
pub proof fn a_shortened_pattern_holds_only_what_fits(p: PatternModel, steps: u32)
    ensures
        p.with_steps(steps).steps == playable(steps),
        forall|i: int, k: int|
            0 <= i < p.with_steps(steps).lanes.len() && 0 <= k
                < p.with_steps(steps).lanes[i].notes.len() ==> inside(
                #[trigger] p.with_steps(steps).lanes[i].notes[k],
                playable(steps),
            ),
        forall|i: int, k: int|
            0 <= i < p.lanes.len() && 0 <= k < p.lanes[i].notes.len() && (
            #[trigger] p.lanes[i].notes[k]).step < playable(steps)
                ==> p.with_steps(steps).lanes.contains(p.lanes[i].trimmed(playable(steps)))
                && p.lanes[i].trimmed(playable(steps)).notes.contains(
                p.lanes[i].notes[k].cut(playable(steps)),
            ),
{
    let n = playable(steps);
    let longer = PatternModel { steps: n, ..p };
    let after = p.with_steps(steps);
    let cut = |l: LaneModel| l.trimmed(n);
    let trimmed = longer.lanes.map_values(cut);
    lemma_filter_members(trimmed, not_empty());
    assert(after.lanes =~= trimmed.filter(not_empty()));
    assert forall|i: int, k: int|
        0 <= i < after.lanes.len() && 0 <= k < after.lanes[i].notes.len() implies inside(
        #[trigger] after.lanes[i].notes[k],
        n,
    ) by {
        assert(after.lanes.contains(after.lanes[i]));
        assert(trimmed.contains(after.lanes[i]));
        let j = choose|j: int| 0 <= j < trimmed.len() && trimmed[j] == after.lanes[i];
        lemma_trimmed_fits(p.lanes[j], n, k);
    }
    assert forall|i: int, k: int|
        0 <= i < p.lanes.len() && 0 <= k < p.lanes[i].notes.len() && (
        #[trigger] p.lanes[i].notes[k]).step < n implies after.lanes.contains(p.lanes[i].trimmed(n))
        && p.lanes[i].trimmed(n).notes.contains(p.lanes[i].notes[k].cut(n)) by {
        let l = p.lanes[i];
        lemma_filter_members(l.notes, starts_before(n));
        let kept = l.notes.filter(starts_before(n));
        assert(l.notes.contains(l.notes[k]));
        assert(kept.contains(l.notes[k]));
        let m = choose|m: int| 0 <= m < kept.len() && kept[m] == l.notes[k];
        assert(l.trimmed(n).notes[m] == l.notes[k].cut(n));
        assert(trimmed[i] == l.trimmed(n));
        assert(trimmed.contains(l.trimmed(n)));
    }
}

/// Every note of a trimmed lane fits.
proof fn lemma_trimmed_fits(l: LaneModel, steps: u32, k: int)
    requires
        0 <= k < l.trimmed(steps).notes.len(),
    ensures
        inside(l.trimmed(steps).notes[k], steps),
{
    lemma_filter_members(l.notes, starts_before(steps));
    let kept = l.notes.filter(starts_before(steps));
    assert(kept.contains(kept[k]));
    assert(starts_before(steps)(kept[k]));
}

/// A lane that already fits is not changed by being trimmed.
proof fn lemma_trimming_twice(l: LaneModel, steps: u32)
    ensures
        l.trimmed(steps).trimmed(steps) == l.trimmed(steps),
{
    let once = l.trimmed(steps);
    assert forall|k: int| 0 <= k < once.notes.len() implies starts_before(steps)(
        #[trigger] once.notes[k],
    ) && once.notes[k].cut(steps) == once.notes[k] by {
        lemma_trimmed_fits(l, steps, k);
    }
    lemma_filter_all(once.notes, starts_before(steps));
    assert(once.trimmed(steps).notes =~= once.notes);
}

/// A pattern that has been cut to its length is not changed by being cut again.
pub proof fn cutting_twice_is_cutting_once(p: PatternModel)
    ensures
        p.fitted().fitted() == p.fitted(),
{
    let once = p.fitted();
    let cut = |l: LaneModel| l.trimmed(p.steps);
    let trimmed = p.lanes.map_values(cut);
    lemma_filter_members(trimmed, not_empty());
    assert(once.lanes =~= trimmed.filter(not_empty()));
    let again = once.lanes.map_values(|l: LaneModel| l.trimmed(once.steps));
    assert forall|i: int| 0 <= i < once.lanes.len() implies #[trigger] again[i] == once.lanes[i]
        && not_empty()(once.lanes[i]) by {
        assert(once.lanes.contains(once.lanes[i]));
        assert(trimmed.contains(once.lanes[i]));
        let j = choose|j: int| 0 <= j < trimmed.len() && trimmed[j] == once.lanes[i];
        lemma_trimming_twice(p.lanes[j], p.steps);
    }
    assert(again =~= once.lanes);
    lemma_filter_all(once.lanes, not_empty());
}

/// A box of a tidy pattern is what it was last set to, whether there was room to tick it or
/// not, and setting it the same way again changes nothing.
pub proof fn a_box_of_a_pattern_is_what_it_was_set_to(
    p: PatternModel,
    track: u16,
    step: u32,
    on: bool,
)
    requires
        p.tidy(),
    ensures
        p.with_step(track, step, on).0.lane_of(track).holds(step, DEFAULT_PITCH) == p.with_step(
            track,
            step,
            on,
        ).1,
        p.with_step(track, step, on).1 == (on && (p.lane_of(track).holds(step, DEFAULT_PITCH)
            || !p.lane_of(track).full())),
{
    lemma_tidy_tracks(p);
    assert(p.lane_of(track).tidy());
    drawing_touches_one_track(p, track, step, DEFAULT_PITCH, on, Note::boxed(step));
    a_box_is_what_it_was_set_to(p.lane_of(track), step, on, step, DEFAULT_PITCH);
}

/// A note drawn in a tidy pattern is there to be found, and gone once it is rubbed out.
pub proof fn a_drawn_note_is_there_until_it_is_rubbed_out(p: PatternModel, track: u16, note: Note)
    requires
        p.tidy(),
        p.with_note(track, note).1,
    ensures
        ({
            let after = p.with_note(track, note).0;
            let gone = after.without_note(track, note.step, note.pitch);
            &&& after.lane_of(track).holds(note.step, note.pitch)
            &&& after.lane_of(track).notes[after.lane_of(track).position(note.step, note.pitch)]
                == note
            &&& gone.1
            &&& !gone.0.lane_of(track).holds(note.step, note.pitch)
            &&& !p.lane_of(track).holds(note.step, note.pitch) ==> gone.0.lane_of(track)
                == p.lane_of(track)
        }),
{
    lemma_tidy_tracks(p);
    assert(p.lane_of(track).tidy());
    editing_keeps_a_pattern_tidy(p, track, note.step, note.pitch, true, note, 1);
    drawing_touches_one_track(p, track, note.step, note.pitch, true, note);
    drawing_touches_one_track(p.with_note(track, note).0, track, note.step, note.pitch, true, note);
    a_note_put_in_comes_back_out(p.lane_of(track), note);
}

/// A track is an instrument in a pattern when it was last made one, and making it one says
/// nothing of any other track.
pub proof fn being_an_instrument_is_what_it_was_set_to(
    p: PatternModel,
    track: u16,
    pitched: bool,
    other: u16,
)
    requires
        p.pitched.no_duplicates(),
    ensures
        p.with_pitched(track, pitched).pitched.contains(track) == pitched,
        other != track ==> p.with_pitched(track, pitched).pitched.contains(other)
            == p.pitched.contains(other),
        p.with_pitched(track, pitched).pitched.no_duplicates(),
{
    let after = p.with_pitched(track, pitched).pitched;
    broadcast use vstd::seq_lib::group_to_multiset_ensures;

    if pitched && !p.pitched.contains(track) {
        let loose = p.pitched.push(track);
        loose.lemma_sort_by_ensures(by_rank::<u16>());
        assert(loose.no_duplicates());
        loose.lemma_multiset_has_no_duplicates();
        after.lemma_multiset_has_no_duplicates_conv();
        assert(loose[p.pitched.len() as int] == track);
        assert(after.to_multiset().count(track) == loose.to_multiset().count(track));
        assert(after.to_multiset().count(other) == loose.to_multiset().count(other));
        if p.pitched.contains(other) {
            let i = choose|i: int| 0 <= i < p.pitched.len() && p.pitched[i] == other;
            assert(loose[i] == other);
        }
        if loose.contains(other) && other != track {
            let i = choose|i: int| 0 <= i < loose.len() && loose[i] == other;
            assert(p.pitched[i] == other);
        }
    } else if !pitched && p.pitched.contains(track) {
        lemma_first_where_bounds(p.pitched, just(track));
        let at = crate::seqs::first_where(p.pitched, just(track));
        let there = choose|i: int| 0 <= i < p.pitched.len() && p.pitched[i] == track;
        assert(just(track)(p.pitched[there]));
        assert(just(track)(p.pitched[at]));
        if after.contains(track) {
            let i = choose|i: int| 0 <= i < after.len() && after[i] == track;
            let k = if i < at { i } else { i + 1 };
            assert(p.pitched[k] == track);
        }
        if after.contains(other) {
            let i = choose|i: int| 0 <= i < after.len() && after[i] == other;
            let k = if i < at { i } else { i + 1 };
            assert(p.pitched[k] == other);
        }
        if p.pitched.contains(other) && other != track {
            let k = choose|k: int| 0 <= k < p.pitched.len() && p.pitched[k] == other;
            let i = if k < at { k } else { k - 1 };
            assert(after[i] == other);
        }
    }
}

// --- the notes of a pattern, one by one ----------------------------------------------

/// Whether a pattern has a note on a track.
pub open spec fn has_note(p: PatternModel, track: u16, n: Note) -> bool {
    exists|i: int|
        0 <= i < p.lanes.len() && (#[trigger] p.lanes[i]).track == track
            && p.lanes[i].notes.contains(n)
}

/// Whether a pattern has any note on a track at a step and pitch.
pub open spec fn has_any_at(p: PatternModel, track: u16, step: u32, pitch: u8) -> bool {
    exists|n: Note| #[trigger] has_note(p, track, n) && n.step == step && n.pitch == pitch
}

/// Whether a track has all the notes in a pattern that it can have.
pub open spec fn has_no_room(p: PatternModel, track: u16) -> bool {
    exists|i: int|
        0 <= i < p.lanes.len() && (#[trigger] p.lanes[i]).track == track && p.lanes[i].notes.len()
            >= 256
}

/// All of two patterns but their notes is the same.
pub open spec fn same_but_notes(a: PatternModel, b: PatternModel) -> bool {
    a.id == b.id && a.name == b.name && a.steps == b.steps && a.colour == b.colour && a.pitched
        == b.pitched
}

/// A note of a pattern is a note of its track's lane.
pub proof fn lemma_has_note(p: PatternModel, track: u16, n: Note)
    requires
        p.tidy(),
    ensures
        has_note(p, track, n) <==> p.lane_of(track).notes.contains(n),
        has_no_room(p, track) <==> p.lane_of(track).notes.len() >= 256,
{
    lemma_tidy_tracks(p);
    lemma_has_lane(p, track);
    if has_note(p, track, n) {
        let i = choose|i: int|
            0 <= i < p.lanes.len() && (#[trigger] p.lanes[i]).track == track
                && p.lanes[i].notes.contains(n);
        lemma_lane_at(p, track, i);
    }
    if has_no_room(p, track) {
        let i = choose|i: int|
            0 <= i < p.lanes.len() && (#[trigger] p.lanes[i]).track == track
                && p.lanes[i].notes.len() >= 256;
        lemma_lane_at(p, track, i);
    }
}

/// Every lane of a tidy pattern is tidy.
pub proof fn lemma_lane_tidy(p: PatternModel, track: u16)
    requires
        p.tidy(),
    ensures
        p.lane_of(track).tidy(),
{
    lemma_tidy_tracks(p);
}

proof fn lemma_has_any_at(p: PatternModel, track: u16, step: u32, pitch: u8)
    requires
        p.tidy(),
    ensures
        has_any_at(p, track, step, pitch) <==> has_one_at(p.lane_of(track), step, pitch),
{
    let l = p.lane_of(track);
    if has_any_at(p, track, step, pitch) {
        let n = choose|n: Note| #[trigger]
            has_note(p, track, n) && n.step == step && n.pitch == pitch;
        lemma_has_note(p, track, n);
        let i = choose|i: int| 0 <= i < l.notes.len() && l.notes[i] == n;
        assert(l.notes[i].step == step);
    }
    if has_one_at(l, step, pitch) {
        let i = choose|i: int|
            0 <= i < l.notes.len() && (#[trigger] l.notes[i]).step == step && l.notes[i].pitch
                == pitch;
        assert(l.notes.contains(l.notes[i]));
        lemma_has_note(p, track, l.notes[i]);
    }
}

/// Ticking a box puts a note at middle C there on its track, a step long and struck at a hundred,
/// unless there is one at middle C there, which stays as it is, or no room. Clearing it takes out
/// what is at middle C there. Every other note of every track stays as it is.
pub proof fn what_a_box_changes(p: PatternModel, track: u16, step: u32, on: bool, t: u16, n: Note)
    requires
        p.tidy(),
    ensures
        ({
            let (now, is) = p.with_step(track, step, on);
            let there = has_any_at(p, track, step, 60);
            let room = !has_no_room(p, track);
            &&& is == (on && (there || room))
            &&& same_but_notes(p, now)
            &&& !(t == track && n.step == step && n.pitch == 60) ==> (has_note(now, t, n)
                <==> has_note(p, t, n))
            &&& t == track && n.step == step && n.pitch == 60 ==> (has_note(now, t, n) <==> on && (
            has_note(p, t, n) || (!there && room && n.velocity == 100 && n.length == 1)))
        }),
{
    let now = p.with_step(track, step, on).0;
    lemma_tidy_tracks(p);
    assert(p.lane_of(track).tidy());
    editing_keeps_a_pattern_tidy(p, track, step, 60, on, n, 1);
    drawing_touches_one_track(p, track, step, 60, on, n);
    lemma_has_note(p, t, n);
    lemma_has_note(p, track, n);
    lemma_has_note(now, t, n);
    lemma_has_any_at(p, track, step, 60);
    what_a_box_does(p.lane_of(track), step, on, n);
    assert(t != track ==> now.lane_of(t) == p.lane_of(t));
}

/// A note that is drawn is there just as it was given, in place of what was at its step and pitch
/// on its track. It goes in unless there is nothing there to take the place of and no room. Every
/// other note of every track stays as it is.
pub proof fn what_drawing_a_note_changes(
    p: PatternModel,
    track: u16,
    note: Note,
    t: u16,
    n: Note,
)
    requires
        p.tidy(),
    ensures
        ({
            let (now, fits) = p.with_note(track, note);
            &&& fits == (has_any_at(p, track, note.step, note.pitch) || !has_no_room(p, track))
            &&& same_but_notes(p, now)
            &&& !fits || !(t == track && n.step == note.step && n.pitch == note.pitch) ==> (
            has_note(now, t, n) <==> has_note(p, t, n))
            &&& fits && t == track && n.step == note.step && n.pitch == note.pitch ==> (has_note(
                now,
                t,
                n,
            ) <==> n == note)
        }),
{
    let now = p.with_note(track, note).0;
    lemma_tidy_tracks(p);
    assert(p.lane_of(track).tidy());
    editing_keeps_a_pattern_tidy(p, track, note.step, note.pitch, true, note, 1);
    drawing_touches_one_track(p, track, note.step, note.pitch, true, note);
    lemma_has_note(p, t, n);
    lemma_has_note(p, track, n);
    lemma_has_note(now, t, n);
    lemma_has_any_at(p, track, note.step, note.pitch);
    what_putting_a_note_in_does(p.lane_of(track), note, n);
    assert(t != track ==> now.lane_of(t) == p.lane_of(t));
}

/// Rubbing a note out takes out what is at its step and pitch on its track, says whether there was
/// anything, and leaves every other note of every track as it is.
pub proof fn what_rubbing_a_note_out_changes(
    p: PatternModel,
    track: u16,
    step: u32,
    pitch: u8,
    t: u16,
    n: Note,
)
    requires
        p.tidy(),
    ensures
        ({
            let (now, gone) = p.without_note(track, step, pitch);
            &&& gone == has_any_at(p, track, step, pitch)
            &&& same_but_notes(p, now)
            &&& has_note(now, t, n) <==> has_note(p, t, n) && !(t == track && n.step == step
                && n.pitch == pitch)
        }),
{
    let now = p.without_note(track, step, pitch).0;
    lemma_tidy_tracks(p);
    assert(p.lane_of(track).tidy());
    editing_keeps_a_pattern_tidy(p, track, step, pitch, true, n, 1);
    drawing_touches_one_track(p, track, step, pitch, true, n);
    lemma_has_note(p, t, n);
    lemma_has_note(p, track, n);
    lemma_has_note(now, t, n);
    lemma_has_any_at(p, track, step, pitch);
    what_taking_a_note_out_does(p.lane_of(track), step, pitch, n);
    assert(t != track ==> now.lane_of(t) == p.lane_of(t));
}

/// A pattern's length is what it is given, from one to two hundred and fifty six. Of its notes it
/// keeps those that start inside that, cut to end inside it, on the tracks they were on, and no
/// others.
#[verifier::rlimit(50)]
pub proof fn what_a_new_length_changes(p: PatternModel, steps: u32, t: u16, m: Note)
    ensures
        ({
            let now = p.with_steps(steps);
            let held = if steps < 1 {
                1
            } else if steps > 256 {
                256
            } else {
                steps as int
            };
            &&& now.steps == held
            &&& now.id == p.id && now.name == p.name && now.colour == p.colour && now.pitched
                == p.pitched
            &&& has_note(now, t, m) <==> exists|n: Note| #[trigger]
                has_note(p, t, n) && n.step < held && fits_as(n, m, held)
        }),
{
    let now = p.with_steps(steps);
    let held = playable(steps);
    let cut = |l: LaneModel| l.trimmed(held);
    let trimmed = p.lanes.map_values(cut);
    lemma_filter_members(trimmed, not_empty());
    assert(now.lanes =~= trimmed.filter(not_empty()));
    if has_note(now, t, m) {
        let i = choose|i: int|
            0 <= i < now.lanes.len() && (#[trigger] now.lanes[i]).track == t
                && now.lanes[i].notes.contains(m);
        assert(now.lanes.contains(now.lanes[i]));
        assert(trimmed.contains(now.lanes[i]));
        let j = choose|j: int| 0 <= j < trimmed.len() && trimmed[j] == now.lanes[i];
        what_cutting_a_lane_leaves(p.lanes[j], held, m);
        let k = choose|k: int|
            0 <= k < p.lanes[j].notes.len() && (#[trigger] p.lanes[j].notes[k]).step < held
                && fits_as(p.lanes[j].notes[k], m, held as int);
        assert(p.lanes[j].notes.contains(p.lanes[j].notes[k]));
        assert(has_note(p, t, p.lanes[j].notes[k]));
    }
    if exists|n: Note| #[trigger]
        has_note(p, t, n) && n.step < held && fits_as(n, m, held as int) {
        let n = choose|n: Note| #[trigger]
            has_note(p, t, n) && n.step < held && fits_as(n, m, held as int);
        let j = choose|j: int|
            0 <= j < p.lanes.len() && (#[trigger] p.lanes[j]).track == t
                && p.lanes[j].notes.contains(n);
        what_cutting_a_lane_leaves(p.lanes[j], held, m);
        let k = choose|k: int| 0 <= k < p.lanes[j].notes.len() && p.lanes[j].notes[k] == n;
        assert(p.lanes[j].notes[k].step < held);
        let l = p.lanes[j].trimmed(held);
        assert(l.notes.contains(m));
        assert(trimmed[j] == l);
        assert(trimmed.contains(l));
        assert(now.lanes.contains(l));
        let i = choose|i: int| 0 <= i < now.lanes.len() && now.lanes[i] == l;
        assert(now.lanes[i].track == t);
    }
}

/// A pattern that a track is taken out of has none of the track's notes and all of every other's,
/// and it is no instrument there; what else is stays one.
pub proof fn what_taking_a_track_out_changes(p: PatternModel, track: u16, t: u16, n: Note)
    ensures
        ({
            let now = p.without_track(track);
            &&& has_note(now, t, n) <==> has_note(p, t, n) && t != track
            &&& now.pitched.contains(t) <==> p.pitched.contains(t) && t != track
            &&& now.id == p.id && now.name == p.name && now.colour == p.colour && now.steps
                == p.steps
        }),
{
    let now = p.without_track(track);
    lemma_filter_members(p.lanes, off_track(track));
    lemma_filter_members(p.pitched, other_than(track));
    if has_note(now, t, n) {
        let i = choose|i: int|
            0 <= i < now.lanes.len() && (#[trigger] now.lanes[i]).track == t
                && now.lanes[i].notes.contains(n);
        assert(now.lanes.contains(now.lanes[i]));
        let j = choose|j: int| 0 <= j < p.lanes.len() && p.lanes[j] == now.lanes[i];
        assert(p.lanes[j].track == t);
    }
    if has_note(p, t, n) && t != track {
        let j = choose|j: int|
            0 <= j < p.lanes.len() && (#[trigger] p.lanes[j]).track == t
                && p.lanes[j].notes.contains(n);
        assert(p.lanes.contains(p.lanes[j]));
        assert(now.lanes.contains(p.lanes[j]));
        let i = choose|i: int| 0 <= i < now.lanes.len() && now.lanes[i] == p.lanes[j];
        assert(now.lanes[i].track == t);
    }
}

/// Making a track an instrument, or a one-shot again, changes which tracks are instruments and
/// nothing else, and leaves them in order.
#[verifier::rlimit(50)]
pub proof fn instruments_are_kept_in_order(p: PatternModel, track: u16, pitched: bool)
    requires
        forall|i: int, j: int|
            0 <= i < j < p.pitched.len() ==> (#[trigger] p.pitched[i]) < (#[trigger] p.pitched[j]),
    ensures
        ({
            let now = p.with_pitched(track, pitched);
            &&& forall|i: int, j: int|
                0 <= i < j < now.pitched.len() ==> (#[trigger] now.pitched[i]) < (
                #[trigger] now.pitched[j])
            &&& forall|t: u16| #[trigger]
                now.pitched.contains(t) <==> (if t == track {
                    pitched
                } else {
                    p.pitched.contains(t)
                })
            &&& now.lanes == p.lanes && now.id == p.id && now.name == p.name && now.colour
                == p.colour && now.steps == p.steps
        }),
{
    let now = p.with_pitched(track, pitched);
    assert(p.pitched.no_duplicates());
    assert forall|t: u16| #[trigger]
        now.pitched.contains(t) <==> (if t == track {
            pitched
        } else {
            p.pitched.contains(t)
        }) by {
        being_an_instrument_is_what_it_was_set_to(p, track, pitched, t);
    }
    being_an_instrument_is_what_it_was_set_to(p, track, pitched, track);
    if pitched && !p.pitched.contains(track) {
        let loose = p.pitched.push(track);
        loose.lemma_sort_by_ensures(by_rank::<u16>());
        assert forall|i: int, j: int| 0 <= i < j < now.pitched.len() implies (
        #[trigger] now.pitched[i]) < (#[trigger] now.pitched[j]) by {
            assert(by_rank::<u16>()(now.pitched[i], now.pitched[j]));
            assert(now.pitched[i] != now.pitched[j]);
        }
    } else if !pitched && p.pitched.contains(track) {
        lemma_first_where_bounds(p.pitched, just(track));
        let at = crate::seqs::first_where(p.pitched, just(track));
        let there = choose|i: int| 0 <= i < p.pitched.len() && p.pitched[i] == track;
        assert(just(track)(p.pitched[there]));
        assert forall|i: int, j: int| 0 <= i < j < now.pitched.len() implies (
        #[trigger] now.pitched[i]) < (#[trigger] now.pitched[j]) by {
            let a = if i < at {
                i
            } else {
                i + 1
            };
            let b = if j < at {
                j
            } else {
                j + 1
            };
            assert(now.pitched[i] == p.pitched[a] && now.pitched[j] == p.pitched[b]);
        }
    }
}

/// The notes of some lanes are counted lane by lane.
pub proof fn notes_are_counted_lane_by_lane(lanes: Seq<LaneModel>, l: LaneModel)
    ensures
        notes_in(Seq::empty()) == 0,
        notes_in(lanes.push(l)) == notes_in(lanes) + l.notes.len(),
{
    assert(lanes.push(l).drop_last() =~= lanes);
}

} // verus!
