//! The engine holds what the project holds: every track, every pattern, the song. It does once
//! it has been told a project, and every edit that is told to it keeps it so.

use std::sync::Arc;

use vstd::prelude::*;
use vstd::relations::sorted_by;

use crate::arranging::{
    adding_a_pattern_keeps_the_project_tidy, deleting_a_pattern_keeps_the_project_tidy,
    editing_a_pattern_keeps_the_project_tidy, lemma_has_pattern, lemma_has_track,
    track_edits_keep_the_project_tidy,
};
use crate::bits::{bit, lemma_without};
use crate::clock::kept;
use crate::command::{Command, EngineNote};
use crate::commands::{lemma_pattern_put, lemma_ticked, note_cleared, At};
use crate::drawing::{
    a_shortened_pattern_holds_only_what_fits, editing_keeps_a_pattern_tidy, inside,
};
use crate::following::{
    a_block_put_down_reaches_the_engine, a_block_taken_out_leaves_the_engine, alike_but_for_song,
    lemma_applied_both, telling_a_song_is_holding_it,
};
use crate::lane::{starts_before, LaneModel, Note};
use crate::mirroring::{
    a_drawn_note_reaches_the_engine, a_rubbed_out_note_leaves_the_engine, all_scored,
    being_an_instrument_reaches_the_engine, commands_to_a_pattern_touch_only_it, fits,
    lemma_pattern_told, lemma_score_told, lemma_scored_both, lemma_told_to, mirrors, neat, same_notes, telling_a_pattern_is_holding_it, to_pattern,
};
use crate::pattern::{not_empty, off_track, on_track, other_than, playable, PatternModel};
use crate::performing::among;
use crate::placement::Placement;
use crate::playing::{allowed, EngineModel, TrackState};
use crate::project::{pattern_called, track_called, ProjectModel, Track};
use crate::sample::Sample;
use crate::score::ScoreModel;
use crate::seqs::{
    lemma_filter_all, lemma_filter_members, lemma_filter_pairs, lemma_first_where, lemma_first_where_bounds,
};
use crate::single::Single;
use crate::telling::{
    pattern_told, patterns_told, placement_told, project_told, score_told, scores_cleared,
    slots_cleared, song_told, track_told, tracks_told,
};
use crate::{DEFAULT_PITCH, MAX_PATTERNS, MAX_SONG_STEPS, MAX_TRACKS};

verus! {

impl ProjectModel {
    /// A project as every edit leaves it.
    pub open spec fn neat(self) -> bool {
        self.tidy() && forall|i: int| 0 <= i < self.patterns.len() ==> neat(
            #[trigger] self.patterns[i],
        )
    }

    /// The track in a slot.
    pub open spec fn track_of(self, id: u16) -> Track {
        self.tracks[self.track_at(id)]
    }
}

/// A new project is as every edit leaves one.
pub proof fn a_new_project_is_neat()
    ensures
        crate::project::Project::fresh().neat(),
{
    crate::arranging::a_new_project_is_tidy();
}

/// A slot of the engine's holds a track: how loud it is, and whether it is muted or soloed.
pub open spec fn plays(state: TrackState, t: Track) -> bool {
    &&& state.target_gain == allowed(t.gain)
    &&& state.muted == t.muted
    &&& state.soloed == t.soloed
}

impl EngineModel {
    /// The slots in use are those of the project's tracks, and each holds its track.
    pub open spec fn has_tracks_of(self, p: ProjectModel) -> bool {
        &&& self.tracks.len() == MAX_TRACKS
        &&& forall|t: u16|
            t < MAX_TRACKS ==> self.tracks[t as int].active == #[trigger] p.has_track(t)
        &&& forall|t: u16| #[trigger]
            p.has_track(t) ==> plays(self.tracks[t as int], p.track_of(t))
    }

    /// Every pattern of the project's is in its slot.
    pub open spec fn has_patterns_of(self, p: ProjectModel) -> bool {
        &&& self.patterns.len() == MAX_PATTERNS
        &&& forall|id: u16| #[trigger]
            p.has_pattern(id) ==> mirrors(self.patterns[id as int], p.pattern_of(id))
    }

    /// The engine holds what the project holds.
    pub open spec fn reflects(self, p: ProjectModel) -> bool {
        &&& self.has_tracks_of(p)
        &&& self.has_patterns_of(p)
        &&& self.follows(p.song)
        &&& self.master == allowed(p.master_gain)
        &&& self.clock.bpm == kept(p.bpm)
    }
}

/// A pattern of a neat project is neat, and has a slot of the engine's.
proof fn lemma_pattern_of(p: ProjectModel, id: u16)
    requires
        p.neat(),
        p.has_pattern(id),
    ensures
        neat(p.pattern_of(id)),
        p.pattern_of(id).id == id,
        id < MAX_PATTERNS,
{
    lemma_has_pattern(p, id);
    assert(neat(p.patterns[p.pattern_at(id)]));
}

/// An engine with the same grid has the same song.
proof fn lemma_same_grid(a: EngineModel, b: EngineModel, song: Seq<Placement>)
    requires
        a.follows(song),
        b.starts == a.starts,
        b.lengths == a.lengths,
        b.song_len == a.song_len,
    ensures
        b.follows(song),
{
    let these = among(song);
    assert(a.holds_blocks(these));
    assert forall|x: Placement| #[trigger] these(x) implies x.step < MAX_SONG_STEPS && x.pattern
        < MAX_PATTERNS && b.starts_at(x.step as int, x.pattern as int) && b.length_at(
        x.step as int,
        x.pattern as int,
    ) == x.length by {
        assert(a.starts_at(x.step as int, x.pattern as int));
        assert(a.length_at(x.step as int, x.pattern as int) == x.length);
    }
    assert forall|step: int, q: int|
        0 <= step < MAX_SONG_STEPS && 0 <= q < MAX_PATTERNS && #[trigger] b.starts_at(
            step,
            q,
        ) implies exists|x: Placement| #[trigger] these(x) && x.step == step && x.pattern == q by {
        assert(a.starts_at(step, q));
    }
}

// --- patterns -------------------------------------------------------------------

/// Commands to a pattern that bring its slot in line with the pattern as it is now bring the
/// engine in line with the project.
proof fn lemma_pattern_edit(
    m: EngineModel,
    p: ProjectModel,
    id: u16,
    now: PatternModel,
    commands: Seq<Command>,
)
    requires
        p.neat(),
        m.reflects(p),
        p.has_pattern(id),
        neat(now),
        now.id == id,
        forall|i: int| 0 <= i < commands.len() ==> to_pattern(#[trigger] commands[i], id),
        mirrors(all_scored(m.patterns[id as int], commands), now),
    ensures
        p.with_pattern(id, now).neat(),
        m.all_applied(commands).reflects(p.with_pattern(id, now)),
{
    let q = p.with_pattern(id, now);
    let after = m.all_applied(commands);
    lemma_pattern_of(p, id);
    lemma_has_pattern(p, id);
    editing_a_pattern_keeps_the_project_tidy(p, id, now);
    commands_to_a_pattern_touch_only_it(m, id, commands);
    assert forall|i: int| 0 <= i < q.patterns.len() implies neat(#[trigger] q.patterns[i]) by {
        assert(neat(p.patterns[i]));
    }
    assert forall|other: u16| #[trigger] q.has_pattern(other) implies mirrors(
        after.patterns[other as int],
        q.pattern_of(other),
    ) by {
        assert(q.has_pattern(other) == p.has_pattern(other));
        lemma_pattern_of(p, other);
        if other != id {
            assert(q.pattern_of(other) == p.pattern_of(other));
            assert(mirrors(m.patterns[other as int], p.pattern_of(other)));
        }
    }
    assert forall|t: u16| #[trigger] q.has_track(t) == p.has_track(t) by {}
    lemma_same_grid(m, after, p.song);
}

proof fn lemma_nothing_said(m: EngineModel)
    ensures
        m.all_applied(Seq::empty()) == m,
        forall|s: ScoreModel| #[trigger] all_scored(s, Seq::empty()) == s,
{
}

/// Making a track an instrument in a pattern, or a one-shot again.
pub proof fn an_instrument_keeps_the_engine_in_line(
    m: EngineModel,
    p: ProjectModel,
    pattern: u16,
    track: u16,
    pitched: bool,
)
    requires
        p.neat(),
        m.reflects(p),
        p.has_pattern(pattern),
    ensures
        ({
            let now = p.with_pattern(pattern, p.pattern_of(pattern).with_pitched(track, pitched));
            &&& now.neat()
            &&& m.all_applied(
                seq![Command::SetPatternPitched { pattern, track, pitched }],
            ).reflects(now)
        }),
{
    let commands = seq![Command::SetPatternPitched { pattern, track, pitched }];
    let score = m.patterns[pattern as int];
    lemma_pattern_of(p, pattern);
    being_an_instrument_reaches_the_engine(score, p.pattern_of(pattern), track, pitched);
    reveal_with_fuel(all_scored, 2);
    lemma_pattern_edit(
        m,
        p,
        pattern,
        p.pattern_of(pattern).with_pitched(track, pitched),
        commands,
    );
}

/// Taking a note out, when the engine can tell where it is.
pub proof fn taking_a_note_out_keeps_the_engine_in_line(
    m: EngineModel,
    p: ProjectModel,
    pattern: u16,
    track: u16,
    at: At,
)
    requires
        p.neat(),
        m.reflects(p),
        p.has_pattern(pattern),
        at.step <= 0xffff,
    ensures
        ({
            let now = p.with_pattern(
                pattern,
                p.pattern_of(pattern).without_note(track, at.step, at.pitch).0,
            );
            &&& now.neat()
            &&& m.all_applied(note_cleared(pattern, track, at)).reflects(now)
        }),
{
    let commands = note_cleared(pattern, track, at);
    let score = m.patterns[pattern as int];
    let was = p.pattern_of(pattern);
    let now = was.without_note(track, at.step, at.pitch).0;
    lemma_pattern_of(p, pattern);
    reveal_with_fuel(all_scored, 2);
    a_rubbed_out_note_leaves_the_engine(score, was, track, at.step, at.pitch);
    lemma_pattern_edit(m, p, pattern, now, commands);
}

/// Ticking a box, or unticking it. A ticked box that is ticked again stands for what it did.
pub proof fn a_box_keeps_the_engine_in_line(
    m: EngineModel,
    p: ProjectModel,
    pattern: u16,
    track: u16,
    step: u32,
    on: bool,
)
    requires
        p.neat(),
        m.reflects(p),
        p.has_box(pattern, step),
    ensures
        p.with_box(pattern, track, step, on).neat(),
        m.all_applied(
            if p.pattern_of(pattern).with_step(track, step, on).1 {
                seq![
                    Command::SetNote {
                        pattern,
                        track,
                        note: EngineNote::of(
                            p.with_box(pattern, track, step, on).box_note(pattern, track, step),
                        ),
                    },
                ]
            } else {
                seq![Command::ClearNote { pattern, track, step: step as u16, pitch: DEFAULT_PITCH }]
            },
        ).reflects(p.with_box(pattern, track, step, on)),
{
    let was = p.pattern_of(pattern);
    let lane = was.lane_of(track);
    let score = m.patterns[pattern as int];
    lemma_pattern_of(p, pattern);
    lemma_first_where_bounds(lane.notes, crate::lane::at(step, DEFAULT_PITCH));
    reveal_with_fuel(all_scored, 2);
    if was.with_step(track, step, on).1 {
        let note = p.with_box(pattern, track, step, on).box_note(pattern, track, step);
        let commands = seq![Command::SetNote { pattern, track, note: EngineNote::of(note) }];
        lemma_ticked(was, track, step, on);
        lemma_has_pattern(p, pattern);
        lemma_pattern_put(p, pattern, was.with_step(track, step, on).0);
        if lane.holds(step, DEFAULT_PITCH) {
            let i = lane.position(step, DEFAULT_PITCH);
            lemma_first_where_bounds(was.lanes, on_track(track));
            assert(was.has_lane(track));
            assert(inside(was.lanes[was.lane_at(track)].notes[i], was.steps));
        }
        assert(lane.with_step(step, on).0.notes =~= lane.with_note(note).0.notes);
        assert(was.with_step(track, step, on).0 == was.with_note(track, note).0);
        a_drawn_note_reaches_the_engine(score, was, track, note);
        lemma_pattern_edit(m, p, pattern, was.with_note(track, note).0, commands);
    } else {
        let commands = seq![
            Command::ClearNote { pattern, track, step: step as u16, pitch: DEFAULT_PITCH },
        ];
        assert(was.with_step(track, step, on).0 == was.without_note(track, step, DEFAULT_PITCH).0);
        a_rubbed_out_note_leaves_the_engine(score, was, track, step, DEFAULT_PITCH);
        lemma_pattern_edit(
            m,
            p,
            pattern,
            was.without_note(track, step, DEFAULT_PITCH).0,
            commands,
        );
    }
}

/// A pattern that everything fits in loses nothing when it is made longer.
pub proof fn lemma_stretched(p: PatternModel, steps: u32)
    requires
        neat(p),
        steps >= p.steps,
    ensures
        p.with_steps(steps) == (PatternModel { steps: playable(steps), ..p }),
        neat(p.with_steps(steps)),
{
    let n = playable(steps);
    let longer = PatternModel { steps: n, ..p };
    let trimmed = longer.lanes.map_values(|l: LaneModel| l.trimmed(longer.steps));
    assert forall|i: int| 0 <= i < p.lanes.len() implies #[trigger] trimmed[i] == p.lanes[i] by {
        let l = p.lanes[i];
        assert forall|k: int| 0 <= k < l.notes.len() implies starts_before(n)(#[trigger] l.notes[k])
            && l.notes[k].cut(n) == l.notes[k] by {
            assert(inside(p.lanes[i].notes[k], p.steps));
        }
        lemma_filter_all(l.notes, starts_before(n));
        assert(l.trimmed(n).notes =~= l.notes);
    }
    assert(trimmed =~= p.lanes);
    lemma_filter_all(p.lanes, not_empty());
    assert(p.with_steps(steps).lanes == p.lanes);
    assert(longer.tidy());
    assert forall|i: int, k: int|
        0 <= i < longer.lanes.len() && 0 <= k < longer.lanes[i].notes.len() implies inside(
        #[trigger] longer.lanes[i].notes[k],
        longer.steps,
    ) by {
        assert(inside(p.lanes[i].notes[k], p.steps));
    }
}

/// A score whose length is brought in line with a pattern that changed only in that.
proof fn lemma_length_reaches(score: ScoreModel, p: PatternModel, now: PatternModel)
    requires
        mirrors(score, p),
        now.lanes == p.lanes,
        now.pitched == p.pitched,
        1 <= now.steps <= crate::MAX_STEPS,
    ensures
        mirrors((ScoreModel { steps: now.steps, ..score }), now),
{
    let after = ScoreModel { steps: now.steps, ..score };
    assert forall|t: u16| #[trigger] now.lane_of(t) == p.lane_of(t) by {}
    assert forall|t: u16| t < MAX_TRACKS implies same_notes(
        after.tracks[t as int],
        (#[trigger] now.lane_of(t)).notes,
    ) by {
        assert(same_notes(score.tracks[t as int], p.lane_of(t).notes));
    }
    assert forall|t: u16| t < MAX_TRACKS implies #[trigger] bit(after.pitched, t as u32)
        == now.pitched.contains(t) by {
        assert(bit(score.pitched, t as u32) == p.pitched.contains(t));
    }
}

/// Putting a note down with the piano roll. One past the end makes the pattern longer, in the
/// engine too, and so does one past the end of any pattern, which does not go in.
pub proof fn a_note_keeps_the_engine_in_line(
    m: EngineModel,
    p: ProjectModel,
    pattern: u16,
    track: u16,
    at: At,
    velocity: u8,
    length: u32,
)
    requires
        p.neat(),
        m.reflects(p),
        p.has_pattern(pattern),
    ensures
        ({
            let was = p.pattern_of(pattern);
            let long = p.stretched(pattern, at, length);
            let note = ProjectModel::asked_note(at, velocity, length, long.steps);
            let reached = at.step < long.steps;
            let now = p.with_pattern(
                pattern,
                if reached {
                    long.with_note(track, note).0
                } else {
                    long
                },
            );
            &&& now.neat()
            &&& m.all_applied(
                (if reached && long.with_note(track, note).1 {
                    seq![Command::SetNote { pattern, track, note: EngineNote::of(note) }]
                } else {
                    Seq::empty()
                }) + (if long.steps != was.steps {
                    seq![Command::SetPatternSteps { pattern, steps: long.steps }]
                } else {
                    Seq::empty()
                }),
            ).reflects(now)
        }),
{
    let was = p.pattern_of(pattern);
    let long = p.stretched(pattern, at, length);
    let note = ProjectModel::asked_note(at, velocity, length, long.steps);
    let score = m.patterns[pattern as int];
    lemma_pattern_of(p, pattern);
    let reach = at.step + (if length < 1 { 1int } else { length as int });
    let wanted = if reach > u32::MAX { u32::MAX } else { reach as u32 };
    if wanted > was.steps {
        lemma_stretched(was, wanted);
    }
    assert(long == (PatternModel { steps: long.steps, ..was }));
    let reached = at.step < long.steps;
    assert(reached ==> inside(note, long.steps));
    let first: Seq<Command> = if reached && long.with_note(track, note).1 {
        seq![Command::SetNote { pattern, track, note: EngineNote::of(note) }]
    } else {
        Seq::empty()
    };
    let second: Seq<Command> = if long.steps != was.steps {
        seq![Command::SetPatternSteps { pattern, steps: long.steps }]
    } else {
        Seq::empty()
    };
    // The note and the length touch different parts of the score, so which is said first makes
    // no difference.
    let grown = ScoreModel { steps: long.steps, ..score };
    lemma_length_reaches(score, was, long);
    let now = if reached {
        long.with_note(track, note).0
    } else {
        long
    };
    reveal_with_fuel(all_scored, 2);
    lemma_scored_both(score, first, second);
    if reached && long.with_note(track, note).1 {
        a_drawn_note_reaches_the_engine(grown, long, track, note);
        let noted = all_scored(score, first);
        assert(mirrors((ScoreModel { steps: long.steps, ..noted }), now));
        assert(all_scored(noted, second) == (ScoreModel { steps: long.steps, ..noted }));
    } else {
        if reached {
            lemma_full_unchanged(long, track, note);
        }
        assert(all_scored(score, first) == score);
        assert(all_scored(score, second) == grown);
    }
    assert(mirrors(all_scored(score, first + second), now));
    lemma_pattern_edit(m, p, pattern, now, first + second);
}

/// A note that a full lane does not take leaves a tidy pattern as it was.
proof fn lemma_full_unchanged(p: PatternModel, track: u16, note: Note)
    requires
        p.tidy(),
        !p.with_note(track, note).1,
    ensures
        p.with_note(track, note).0 == p,
{
    lemma_first_where_bounds(p.lanes, on_track(track));
    assert(p.has_lane(track));
    assert(p.lanes.update(p.lane_at(track), p.lane_of(track)) =~= p.lanes);
    lemma_filter_all(p.lanes, not_empty());
}

/// Moving a note.
pub proof fn a_moved_note_keeps_the_engine_in_line(
    m: EngineModel,
    p: ProjectModel,
    pattern: u16,
    track: u16,
    at: At,
    to: At,
)
    requires
        p.neat(),
        m.reflects(p),
        p.can_move(pattern, track, at, to),
    ensures
        ({
            let moved = p.moved_note(pattern, track, at, to);
            let lifted = p.pattern_of(pattern).without_note(track, at.step, at.pitch).0;
            let now = p.with_pattern(pattern, lifted.with_note(track, moved).0);
            &&& now.neat()
            &&& m.all_applied(
                note_cleared(pattern, track, at) + (if lifted.with_note(track, moved).1 {
                    seq![Command::SetNote { pattern, track, note: EngineNote::of(moved) }]
                } else {
                    Seq::empty()
                }),
            ).reflects(now)
        }),
{
    let was = p.pattern_of(pattern);
    let moved = p.moved_note(pattern, track, at, to);
    let lifted = was.without_note(track, at.step, at.pitch).0;
    let now = lifted.with_note(track, moved).0;
    let score = m.patterns[pattern as int];
    let first = note_cleared(pattern, track, at);
    let second: Seq<Command> = if lifted.with_note(track, moved).1 {
        seq![Command::SetNote { pattern, track, note: EngineNote::of(moved) }]
    } else {
        Seq::empty()
    };
    lemma_pattern_of(p, pattern);
    lemma_first_where_bounds(was.lanes, on_track(track));
    let lane = was.lane_of(track);
    lemma_first_where_bounds(lane.notes, crate::lane::at(at.step, at.pitch));
    assert(was.has_lane(track));
    assert(inside(was.lanes[was.lane_at(track)].notes[lane.position(at.step, at.pitch)], was.steps));
    assert(inside(moved, was.steps));
    reveal_with_fuel(all_scored, 2);
    lemma_scored_both(score, first, second);
    a_rubbed_out_note_leaves_the_engine(score, was, track, at.step, at.pitch);
    let rubbed = all_scored(score, first);
    assert(mirrors(rubbed, lifted));
    if lifted.with_note(track, moved).1 {
        a_drawn_note_reaches_the_engine(rubbed, lifted, track, moved);
    } else {
        lemma_full_unchanged(lifted, track, moved);
    }
    lemma_pattern_edit(m, p, pattern, now, first + second);
}

/// A pattern cut to a length, or made longer, is still neat.
proof fn lemma_resized_is_neat(p: PatternModel, steps: u32)
    requires
        neat(p),
    ensures
        neat(p.with_steps(steps)),
        p.with_steps(steps).id == p.id,
{
    editing_keeps_a_pattern_tidy(p, 0, 0, 0, true, Note::boxed(0), steps);
    a_shortened_pattern_holds_only_what_fits(p, steps);
}

/// Changing how long a pattern is: what falls off it goes from the engine too.
pub proof fn a_new_length_keeps_the_engine_in_line(
    m: EngineModel,
    p: ProjectModel,
    id: u16,
    steps: u32,
)
    requires
        p.neat(),
        m.reflects(p),
        p.has_pattern(id),
    ensures
        ({
            let next = p.pattern_of(id).with_steps(steps);
            let now = p.with_pattern(id, next);
            &&& now.neat()
            &&& m.all_applied(
                seq![Command::SetPatternSteps { pattern: id, steps: next.steps }] + pattern_told(
                    next,
                ),
            ).reflects(now)
        }),
{
    let next = p.pattern_of(id).with_steps(steps);
    let first = seq![Command::SetPatternSteps { pattern: id, steps: next.steps }];
    let score = m.patterns[id as int];
    lemma_pattern_of(p, id);
    lemma_resized_is_neat(p.pattern_of(id), steps);
    lemma_scored_both(score, first, pattern_told(next));
    lemma_pattern_told(all_scored(score, first), next);
    lemma_told_to(next);
    let commands = first + pattern_told(next);
    assert forall|i: int| 0 <= i < commands.len() implies to_pattern(#[trigger] commands[i], id) by {
        if i > 0 {
            assert(commands[i] == pattern_told(next)[i - 1]);
        }
    }
    lemma_pattern_edit(m, p, id, next, commands);
}

/// A name or a colour is nothing to do with the engine.
pub proof fn a_name_and_a_colour_are_nothing_to_the_engine(
    m: EngineModel,
    p: ProjectModel,
    id: u16,
    name: Seq<char>,
    colour: Option<u8>,
)
    requires
        p.neat(),
        m.reflects(p),
        p.has_pattern(id),
    ensures
        ({
            let now = p.with_pattern(id, (PatternModel { name, colour, ..p.pattern_of(id) }));
            now.neat() && m.reflects(now)
        }),
{
    let was = p.pattern_of(id);
    let next = PatternModel { name, colour, ..was };
    lemma_pattern_of(p, id);
    assert(next.tidy());
    assert forall|i: int, k: int|
        0 <= i < next.lanes.len() && 0 <= k < next.lanes[i].notes.len() implies inside(
        #[trigger] next.lanes[i].notes[k],
        next.steps,
    ) by {
        assert(inside(was.lanes[i].notes[k], was.steps));
    }
    lemma_length_reaches(m.patterns[id as int], was, next);
    lemma_nothing_said(m);
    lemma_pattern_edit(m, p, id, next, Seq::empty());
}

/// In a tidy project the pattern with a number is the one in the list that has it.
proof fn lemma_pattern_is(p: ProjectModel, i: int)
    requires
        p.tidy(),
        0 <= i < p.patterns.len(),
    ensures
        p.has_pattern(p.patterns[i].id),
        p.pattern_at(p.patterns[i].id) == i,
        p.pattern_of(p.patterns[i].id) == p.patterns[i],
{
    let id = p.patterns[i].id;
    assert forall|j: int| 0 <= j < i implies !pattern_called(id)(#[trigger] p.patterns[j]) by {
        assert(p.patterns[j].id != p.patterns[i].id);
    }
    lemma_first_where(p.patterns, pattern_called(id), i);
}

/// A pattern that was just made, or copied from another.
pub proof fn a_new_pattern_keeps_the_engine_in_line(
    m: EngineModel,
    p: ProjectModel,
    at: int,
    new: PatternModel,
)
    requires
        p.neat(),
        m.reflects(p),
        0 <= at <= p.patterns.len(),
        p.lowest_free_pattern(new.id as int),
        neat(new),
    ensures
        ({
            let now = ProjectModel { patterns: p.patterns.insert(at, new), ..p };
            &&& now.neat()
            &&& now.pattern_of(new.id) == new
            &&& m.all_applied(pattern_told(new)).reflects(now)
        }),
{
    let now = ProjectModel { patterns: p.patterns.insert(at, new), ..p };
    let after = m.all_applied(pattern_told(new));
    adding_a_pattern_keeps_the_project_tidy(p, at, new);
    telling_a_pattern_is_holding_it(m, new);
    assert forall|i: int| 0 <= i < now.patterns.len() implies neat(#[trigger] now.patterns[i]) by {
        if i != at {
            assert(now.patterns[i] == p.patterns[if i < at { i } else { i - 1 }]);
        }
    }
    assert(now.patterns[at] == new);
    lemma_pattern_is(now, at);
    assert forall|id: u16| #[trigger] now.has_pattern(id) implies mirrors(
        after.patterns[id as int],
        now.pattern_of(id),
    ) by {
        lemma_has_pattern(now, id);
        let i = now.pattern_at(id);
        if i != at {
            let k = if i < at { i } else { i - 1 };
            assert(now.patterns[i] == p.patterns[k]);
            lemma_pattern_is(p, k);
            assert(neat(p.patterns[k]));
            assert(id != new.id) by {
                lemma_pattern_is(now, at);
            }
            assert(after.patterns[id as int] == m.patterns[id as int]);
        }
    }
    assert forall|t: u16| #[trigger] now.has_track(t) == p.has_track(t) by {}
    lemma_same_grid(m, after, p.song);
}

/// Deleting a pattern that is not the last.
pub proof fn deleting_a_pattern_keeps_the_engine_in_line(m: EngineModel, p: ProjectModel, id: u16)
    requires
        p.neat(),
        m.reflects(p),
        p.has_pattern(id),
        p.patterns.len() > 1,
    ensures
        p.without_pattern(id).neat(),
        m.all_applied(
            seq![Command::ClearPattern { pattern: id }] + song_told(p.without_pattern(id).song),
        ).reflects(p.without_pattern(id)),
{
    let now = p.without_pattern(id);
    let first = seq![Command::ClearPattern { pattern: id }];
    lemma_pattern_of(p, id);
    lemma_has_pattern(p, id);
    let at = p.pattern_at(id);
    deleting_a_pattern_keeps_the_project_tidy(p, id);
    assert forall|i: int| 0 <= i < now.patterns.len() implies neat(#[trigger] now.patterns[i]) by {
        assert(now.patterns[i] == p.patterns[if i < at { i } else { i + 1 }]);
    }
    lemma_applied_both(m, first, song_told(now.song));
    let cleared = m.all_applied(first);
    commands_to_a_pattern_touch_only_it(m, id, first);
    telling_a_song_is_holding_it(cleared, now);
    let after = cleared.all_applied(song_told(now.song));
    assert forall|other: u16| #[trigger] now.has_pattern(other) implies mirrors(
        after.patterns[other as int],
        now.pattern_of(other),
    ) by {
        lemma_has_pattern(now, other);
        let i = now.pattern_at(other);
        let k = if i < at { i } else { i + 1 };
        assert(now.patterns[i] == p.patterns[k]);
        lemma_pattern_is(p, k);
        assert(neat(p.patterns[k]));
        assert(other != id);
        assert(after.patterns[other as int] == m.patterns[other as int]);
    }
    assert forall|t: u16| #[trigger] now.has_track(t) == p.has_track(t) by {}
}

// --- the song -------------------------------------------------------------------

/// A project with another tidy song, told as the change from the one before.
proof fn lemma_song_edit(m: EngineModel, p: ProjectModel, now: ProjectModel, after: EngineModel)
    requires
        p.neat(),
        m.reflects(p),
        now == (ProjectModel { song: now.song, ..p }),
        now.tidy_song(),
        after.follows(now.song),
        alike_but_for_song(after, m),
    ensures
        now.neat(),
        after.reflects(now),
{
    assert forall|id: u16| #[trigger] now.has_pattern(id) implies mirrors(
        after.patterns[id as int],
        now.pattern_of(id),
    ) by {
        assert(p.has_pattern(id));
    }
    assert forall|t: u16| #[trigger] now.has_track(t) == p.has_track(t) by {}
}

/// A project with a tidy song in place of its own is tidy.
proof fn lemma_tidy_with(p: ProjectModel, now: ProjectModel)
    requires
        p.tidy(),
        now == (ProjectModel { song: now.song, ..p }),
        now.tidy_song(),
    ensures
        now.tidy(),
{
}

/// A block that is moved goes from the engine and comes back where it was moved to.
proof fn lemma_move_told(m: EngineModel, p: ProjectModel, pattern: u16, from: u32, to: u32)
    requires
        p.neat(),
        m.follows(p.song),
        p.moving(pattern, from, to).1,
        p.moving(pattern, from, to).0.tidy(),
    ensures
        m.all_applied(p.move_told(pattern, from, to)).follows(p.moving(pattern, from, to).0.song),
        alike_but_for_song(m.all_applied(p.move_told(pattern, from, to)), m),
{
    let block = p.block(pattern, from);
    let now = p.moving(pattern, from, to).0;
    let lifted = p.unplacing(block.pattern, block.step);
    let landed = p.asked_block(block.pattern, to, block.length);
    let first = placement_told(p.song, now.song, block, false);
    let second = placement_told(lifted.song, now.song, landed, true);
    crate::arranging::arranging_keeps_the_song_tidy(p, block.pattern, block.step, to, 1, 0);
    lemma_tidy_with(p, lifted);
    a_block_taken_out_leaves_the_engine(m, p, now, block);
    let fewer = m.all_applied(first);
    crate::arranging::what_placing_leaves(lifted, landed);
    a_block_put_down_reaches_the_engine(fewer, lifted, now, landed);
    lemma_applied_both(m, first, second);
}

/// A block whose edge is dragged takes its own place.
proof fn lemma_resize_told(m: EngineModel, p: ProjectModel, pattern: u16, step: u32, length: u32)
    requires
        p.neat(),
        m.follows(p.song),
        p.resizing(pattern, step, length).1,
        p.resizing(pattern, step, length).0.tidy(),
    ensures
        m.all_applied(p.resize_told(pattern, step, length)).follows(
            p.resizing(pattern, step, length).0.song,
        ),
        alike_but_for_song(m.all_applied(p.resize_told(pattern, step, length)), m),
{
    let block = p.block(pattern, step);
    let now = p.resizing(pattern, step, length).0;
    let lifted = p.unplacing(block.pattern, block.step);
    let wanted = if length < 1 { 1 } else { length };
    let longer = p.asked_block(block.pattern, block.step, wanted);
    crate::arranging::what_placing_leaves(lifted, longer);
    crate::seqs::lemma_filter_members(
        p.song,
        crate::project::not_starting(block.pattern, block.step),
    );
    a_block_put_down_reaches_the_engine(m, p, now, longer);
}

/// Putting a block down where there is a place for it, taking one up, moving one, dragging its
/// edge, and emptying a bar. A move or a resize that cannot be done says nothing to the engine,
/// and needs to say nothing.
pub proof fn arranging_keeps_the_engine_in_line(
    m: EngineModel,
    p: ProjectModel,
    pattern: u16,
    step: u32,
    to: u32,
    length: u32,
    bar: u32,
)
    requires
        p.neat(),
        m.reflects(p),
    ensures
        p.placing(pattern, step, length).0.neat(),
        p.takes(pattern, step, length) ==> {
            let now = p.placing(pattern, step, length).0;
            m.all_applied(
                placement_told(
                    p.song,
                    now.song,
                    p.asked_block(pattern, step, length),
                    true,
                ),
            ).reflects(now)
        },
        ({
            let now = p.unplacing(pattern, step);
            now.neat() && m.all_applied(
                placement_told(
                    p.song,
                    now.song,
                    p.asked_block(pattern, step, length),
                    false,
                ),
            ).reflects(now)
        }),
        ({
            let now = p.moving(pattern, step, to).0;
            now.neat() && m.all_applied(
                if p.moving(pattern, step, to).1 {
                    p.move_told(pattern, step, to)
                } else {
                    Seq::empty()
                },
            ).reflects(now)
        }),
        ({
            let now = p.resizing(pattern, step, length).0;
            now.neat() && m.all_applied(
                if p.resizing(pattern, step, length).1 {
                    p.resize_told(pattern, step, length)
                } else {
                    Seq::empty()
                },
            ).reflects(now)
        }),
        ({
            let now = p.without_bar(bar);
            now.neat() && m.all_applied(song_told(now.song)).reflects(now)
        }),
{
    crate::arranging::arranging_keeps_the_song_tidy(p, pattern, step, to, length, bar);
    crate::arranging::what_cannot_be_moved_stays(p, pattern, step, to, length);
    lemma_nothing_said(m);
    let placed = p.placing(pattern, step, length).0;
    let taken = p.unplacing(pattern, step);
    let moved = p.moving(pattern, step, to).0;
    let resized = p.resizing(pattern, step, length).0;
    let emptied = p.without_bar(bar);
    lemma_tidy_with(p, placed);
    lemma_tidy_with(p, taken);
    lemma_tidy_with(p, moved);
    lemma_tidy_with(p, resized);
    lemma_tidy_with(p, emptied);
    let asked = p.asked_block(pattern, step, length);
    if p.takes(pattern, step, length) {
        crate::arranging::what_placing_leaves(p, asked);
        a_block_put_down_reaches_the_engine(m, p, placed, asked);
        lemma_song_edit(
            m,
            p,
            placed,
            m.all_applied(placement_told(p.song, placed.song, asked, true)),
        );
    } else {
        assert forall|t: u16| #[trigger] placed.has_track(t) == p.has_track(t) by {}
    }
    a_block_taken_out_leaves_the_engine(m, p, taken, asked);
    lemma_song_edit(
        m,
        p,
        taken,
        m.all_applied(placement_told(p.song, taken.song, asked, false)),
    );
    if p.moving(pattern, step, to).1 {
        lemma_move_told(m, p, pattern, step, to);
        lemma_song_edit(m, p, moved, m.all_applied(p.move_told(pattern, step, to)));
    }
    if p.resizing(pattern, step, length).1 {
        lemma_resize_told(m, p, pattern, step, length);
        lemma_song_edit(m, p, resized, m.all_applied(p.resize_told(pattern, step, length)));
    }
    telling_a_song_is_holding_it(m, emptied);
    lemma_song_edit(m, p, emptied, m.all_applied(song_told(emptied.song)));
}

// --- tracks ---------------------------------------------------------------------

/// In a tidy project the track with a number is the one in the list that has it.
proof fn lemma_track_is(p: ProjectModel, i: int)
    requires
        p.tidy(),
        0 <= i < p.tracks.len(),
    ensures
        p.has_track(p.tracks[i].id),
        p.track_at(p.tracks[i].id) == i,
        p.track_of(p.tracks[i].id) == p.tracks[i],
{
    let id = p.tracks[i].id;
    assert forall|j: int| 0 <= j < i implies !track_called(id)(#[trigger] p.tracks[j]) by {
        assert(p.tracks[j].id != p.tracks[i].id);
    }
    lemma_first_where(p.tracks, track_called(id), i);
}

/// A track changed where it is, in the project and in the engine alike.
proof fn lemma_track_edit(m: EngineModel, p: ProjectModel, id: u16, t: Track, state: TrackState)
    requires
        p.neat(),
        m.reflects(p),
        p.has_track(id),
        t.id == id,
        state.active,
        plays(state, t),
    ensures
        p.with_track(id, t).neat(),
        id < MAX_TRACKS,
        m.with_track(id, state).reflects(p.with_track(id, t)),
{
    let now = p.with_track(id, t);
    let after = m.with_track(id, state);
    lemma_has_track(p, id);
    let at = p.track_at(id);
    assert(p.tracks[at].id < MAX_TRACKS);
    track_edits_keep_the_project_tidy(p, id, t);
    assert forall|other: u16| #[trigger] now.has_track(other) == p.has_track(other) by {
        lemma_has_track(p, other);
        lemma_has_track(now, other);
        if p.has_track(other) {
            let k = p.track_at(other);
            assert(now.tracks[k].id == other);
        }
        if now.has_track(other) {
            let k = now.track_at(other);
            assert(p.tracks[k].id == other);
        }
    }
    assert forall|other: u16| #[trigger] now.has_track(other) implies plays(
        after.tracks[other as int],
        now.track_of(other),
    ) by {
        lemma_has_track(now, other);
        let k = now.track_at(other);
        lemma_track_is(p, k);
        assert(now.tracks[k].id == other);
        assert(p.tracks[k].id == other);
        assert(p.has_track(other));
    }
    assert forall|other: u16| #[trigger] now.has_pattern(other) == p.has_pattern(other) by {}
    lemma_same_grid(m, after, p.song);
}

/// A fader, a mute or a solo.
pub proof fn the_faders_keep_the_engine_in_line(
    m: EngineModel,
    p: ProjectModel,
    id: u16,
    gain: Single,
    muted: bool,
    soloed: bool,
)
    requires
        p.neat(),
        m.reflects(p),
        p.has_track(id),
    ensures
        ({
            let now = p.with_track(id, (Track { gain, ..p.track_of(id) }));
            now.neat() && m.all_applied(seq![Command::SetTrackGain { track: id, gain }]).reflects(
                now,
            )
        }),
        ({
            let now = p.with_track(id, (Track { muted, ..p.track_of(id) }));
            now.neat() && m.all_applied(seq![Command::SetTrackMuted { track: id, muted }]).reflects(
                now,
            )
        }),
        ({
            let now = p.with_track(id, (Track { soloed, ..p.track_of(id) }));
            now.neat() && m.all_applied(
                seq![Command::SetTrackSoloed { track: id, soloed }],
            ).reflects(now)
        }),
{
    let t = p.track_of(id);
    let state = m.tracks[id as int];
    lemma_has_track(p, id);
    assert(p.tracks[p.track_at(id)].id < MAX_TRACKS);
    assert(plays(state, t));
    assert(state.active);
    reveal_with_fuel(EngineModel::all_applied, 2);
    lemma_track_edit(
        m,
        p,
        id,
        Track { gain, ..t },
        TrackState { target_gain: allowed(gain), ..state },
    );
    lemma_track_edit(m, p, id, Track { muted, ..t }, TrackState { muted, ..state });
    lemma_track_edit(m, p, id, Track { soloed, ..t }, TrackState { soloed, ..state });
}

/// A score that forgets a track the pattern has nothing for still holds the pattern.
proof fn lemma_forgets(score: ScoreModel, p: PatternModel, track: u16)
    requires
        mirrors(score, p),
        track < MAX_TRACKS,
    ensures
        mirrors(score.without_track(track as u32), p.without_track(track)),
{
    let after = score.without_track(track as u32);
    let rest = p.without_track(track);
    lemma_without(score.pitched, track as u32);
    lemma_filter_members(p.pitched, other_than(track));
    assert forall|t: u16| t < MAX_TRACKS implies same_notes(
        after.tracks[t as int],
        (#[trigger] rest.lane_of(t)).notes,
    ) by {
        assert(same_notes(score.tracks[t as int], p.lane_of(t).notes));
        lemma_lane_without(p, track, t);
        if t == track {
            assert(after.tracks[t as int] =~= Seq::empty());
        }
    }
    assert forall|t: u16| t < MAX_TRACKS implies #[trigger] bit(after.pitched, t as u32)
        == rest.pitched.contains(t) by {
        assert(bit(score.pitched, t as u32) == p.pitched.contains(t));
        assert(other_than(track)(t) == (t != track));
    }
}

/// What is left of each lane when a track is taken out of a pattern.
proof fn lemma_lane_without(p: PatternModel, track: u16, t: u16)
    ensures
        t == track ==> p.without_track(track).lane_of(t).notes.len() == 0,
        t != track ==> p.without_track(track).lane_of(t) == p.lane_of(t),
    decreases p.lanes.len(),
{
    reveal(Seq::filter);
    let rest = p.without_track(track);
    if p.lanes.len() > 0 {
        let front = PatternModel { lanes: p.lanes.drop_last(), ..p };
        let last = p.lanes.last();
        lemma_lane_without(front, track, t);
        let fewer = front.without_track(track);
        lemma_first_where_bounds(front.lanes, on_track(t));
        lemma_first_where_bounds(p.lanes, on_track(t));
        lemma_first_where_bounds(fewer.lanes, on_track(t));
        lemma_first_where_bounds(rest.lanes, on_track(t));
        lemma_lane_next(front, last, t);
        assert(front.lanes.push(last) =~= p.lanes);
        if last.track != track {
            assert(rest.lanes =~= fewer.lanes.push(last));
            lemma_lane_next(fewer, last, t);
        } else {
            assert(rest.lanes =~= fewer.lanes);
        }
        if t != track {
            lemma_filter_members(front.lanes, off_track(track));
            assert(front.has_lane(t) == fewer.has_lane(t)) by {
                if front.has_lane(t) {
                    let l = front.lanes[front.lane_at(t)];
                    assert(on_track(t)(l));
                    assert(front.lanes.contains(l));
                    assert(off_track(track)(l));
                    assert(fewer.lanes.contains(l));
                    let k = choose|k: int| 0 <= k < fewer.lanes.len() && fewer.lanes[k] == l;
                    assert(on_track(t)(fewer.lanes[k]));
                }
                if fewer.has_lane(t) {
                    let l = fewer.lanes[fewer.lane_at(t)];
                    assert(on_track(t)(l));
                    assert(fewer.lanes.contains(l));
                    assert(front.lanes.contains(l));
                    let k = choose|k: int| 0 <= k < front.lanes.len() && front.lanes[k] == l;
                    assert(on_track(t)(front.lanes[k]));
                }
            }
        } else {
            lemma_filter_members(p.lanes, off_track(track));
            if rest.has_lane(t) {
                let l = rest.lanes[rest.lane_at(t)];
                assert(on_track(t)(l));
                assert(rest.lanes.contains(l));
                assert(off_track(track)(l));
            }
        }
    } else {
        assert(rest.lanes =~= p.lanes);
    }
}

/// A track's lane once one more lane has been added at the end.
proof fn lemma_lane_next(p: PatternModel, last: LaneModel, t: u16)
    ensures
        ({
            let more = PatternModel { lanes: p.lanes.push(last), ..p };
            more.lane_of(t) == (if p.has_lane(t) {
                p.lane_of(t)
            } else if last.track == t {
                last
            } else {
                (LaneModel { track: t, notes: Seq::empty() })
            })
        }),
{
    let more = PatternModel { lanes: p.lanes.push(last), ..p };
    lemma_first_where_bounds(p.lanes, on_track(t));
    let at = p.lane_at(t);
    assert forall|j: int| 0 <= j < at implies !on_track(t)(#[trigger] more.lanes[j]) by {
        assert(!on_track(t)(p.lanes[j]));
    }
    if p.has_lane(t) {
        lemma_first_where(more.lanes, on_track(t), at);
    } else if last.track == t {
        lemma_first_where(more.lanes, on_track(t), at);
    } else {
        assert forall|j: int| 0 <= j < more.lanes.len() implies !on_track(t)(
            #[trigger] more.lanes[j],
        ) by {
            if j < p.lanes.len() {
                assert(!on_track(t)(p.lanes[j]));
            }
        }
        lemma_first_where(more.lanes, on_track(t), more.lanes.len() as int);
    }
}

/// A pattern with a track taken out of it is still neat.
proof fn lemma_without_track_is_neat(p: PatternModel, track: u16)
    requires
        neat(p),
    ensures
        neat(p.without_track(track)),
{
    let rest = p.without_track(track);
    editing_keeps_a_pattern_tidy(p, track, 0, 0, true, Note::boxed(0), 1);
    lemma_filter_members(p.lanes, off_track(track));
    assert forall|i: int, k: int|
        0 <= i < rest.lanes.len() && 0 <= k < rest.lanes[i].notes.len() implies inside(
        #[trigger] rest.lanes[i].notes[k],
        rest.steps,
    ) by {
        let l = rest.lanes[i];
        assert(rest.lanes.contains(l));
        assert(p.lanes.contains(l));
        let j = choose|j: int| 0 <= j < p.lanes.len() && p.lanes[j] == l;
        assert(inside(p.lanes[j].notes[k], p.steps));
    }
    let differ = |a: u16, b: u16| a != b;
    assert(sorted_by(p.pitched, differ));
    lemma_filter_pairs(p.pitched, other_than(track), differ);
    assert forall|i: int, j: int|
        0 <= i < rest.pitched.len() && 0 <= j < rest.pitched.len() && i != j implies rest.pitched[i]
        != rest.pitched[j] by {
        if i < j {
            assert(differ(rest.pitched[i], rest.pitched[j]));
        } else {
            assert(differ(rest.pitched[j], rest.pitched[i]));
        }
    }
}

/// A track the project has gets taken out of it, and out of the engine.
pub proof fn deleting_a_track_keeps_the_engine_in_line(m: EngineModel, p: ProjectModel, id: u16)
    requires
        p.neat(),
        m.reflects(p),
        p.has_track(id),
    ensures
        p.without_track(id).neat(),
        m.all_applied(seq![Command::RemoveTrack { track: id }]).reflects(p.without_track(id)),
{
    let now = p.without_track(id);
    lemma_has_track(p, id);
    let at = p.track_at(id);
    assert(p.tracks[at].id < MAX_TRACKS);
    track_edits_keep_the_project_tidy(p, id, p.tracks[at]);
    reveal_with_fuel(EngineModel::all_applied, 2);
    let after = m.applied(Command::RemoveTrack { track: id });
    assert(m.all_applied(seq![Command::RemoveTrack { track: id }]) == after);
    assert forall|i: int| 0 <= i < now.patterns.len() implies neat(#[trigger] now.patterns[i]) by {
        lemma_without_track_is_neat(p.patterns[i], id);
    }
    assert forall|k: u16| #[trigger] now.has_pattern(k) implies mirrors(
        after.patterns[k as int],
        now.pattern_of(k),
    ) by {
        lemma_has_pattern(now, k);
        let i = now.pattern_at(k);
        assert(now.patterns[i] == p.patterns[i].without_track(id));
        lemma_pattern_is(p, i);
        lemma_pattern_of(p, k);
        assert(mirrors(m.patterns[k as int], p.pattern_of(k)));
        lemma_forgets(m.patterns[k as int], p.pattern_of(k), id);
        assert(after.patterns[k as int] == m.patterns[k as int].without_track(id as u32));
    }
    assert forall|i: int| 0 <= i < now.tracks.len() implies #[trigger] now.tracks[i]
        == p.tracks[if i < at { i } else { i + 1 }] by {}
    assert forall|t: u16| #[trigger] now.has_track(t) == (t != id && p.has_track(t)) by {
        lemma_has_track(now, t);
        lemma_has_track(p, t);
        if t != id && p.has_track(t) {
            let k = p.track_at(t);
            let i = if k < at { k } else { k - 1 };
            assert(now.tracks[i] == p.tracks[k]);
        }
        if now.has_track(t) {
            let i = now.track_at(t);
            assert(now.tracks[i].id == t);
            assert(now.tracks[i] == p.tracks[if i < at { i } else { i + 1 }]);
        }
    }
    assert forall|t: u16| #[trigger] now.has_track(t) implies plays(
        after.tracks[t as int],
        now.track_of(t),
    ) by {
        lemma_has_track(now, t);
        let i = now.track_at(t);
        let k = if i < at { i } else { i + 1 };
        assert(now.tracks[i] == p.tracks[k]);
        lemma_track_is(p, k);
        assert(p.has_track(t));
        assert(p.tracks[k].id < MAX_TRACKS);
    }
    lemma_same_grid(m, after, p.song);
}

impl ProjectModel {
    /// Nothing is drawn for a track in any pattern, and it is an instrument in none.
    pub open spec fn unheard_of(self, track: u16) -> bool {
        forall|i: int|
            0 <= i < self.patterns.len() ==> !(#[trigger] self.patterns[i]).has_lane(track)
                && !self.patterns[i].pitched.contains(track)
    }
}

/// Forgetting a track that a pattern has nothing for changes nothing.
proof fn lemma_nothing_to_forget(p: PatternModel, track: u16)
    requires
        !p.has_lane(track),
        !p.pitched.contains(track),
    ensures
        p.without_track(track) == p,
{
    lemma_first_where_bounds(p.lanes, on_track(track));
    assert forall|i: int| 0 <= i < p.lanes.len() implies off_track(track)(#[trigger] p.lanes[i]) by {
        assert(!on_track(track)(p.lanes[i]));
    }
    lemma_filter_all(p.lanes, off_track(track));
    assert forall|i: int| 0 <= i < p.pitched.len() implies other_than(track)(
        #[trigger] p.pitched[i],
    ) by {
        assert(p.pitched.contains(p.pitched[i]));
    }
    lemma_filter_all(p.pitched, other_than(track));
}

/// A sound given a track in the lowest free slot, when no pattern has anything for that slot.
pub proof fn a_new_track_keeps_the_engine_in_line(
    m: EngineModel,
    p: ProjectModel,
    t: Track,
    sample: Arc<Sample>,
)
    requires
        p.neat(),
        m.reflects(p),
        p.lowest_free_track(t.id as int),
        p.unheard_of(t.id),
        !t.muted && !t.soloed,
    ensures
        ({
            let now = ProjectModel { tracks: p.tracks.push(t), ..p };
            let after = m.all_applied(
                seq![
                    Command::AddTrack { track: t.id, gain: t.gain },
                    Command::SetTrackSample { track: t.id, sample: Some(sample) },
                ],
            );
            &&& now.neat()
            &&& after.reflects(now)
            &&& after.tracks[t.id as int].sample == Some(sample)
        }),
{
    let id = t.id;
    let now = ProjectModel { tracks: p.tracks.push(t), ..p };
    let first = Command::AddTrack { track: id, gain: t.gain };
    let second = Command::SetTrackSample { track: id, sample: Some(sample) };
    let commands = seq![first, second];
    track_edits_keep_the_project_tidy(p, id, t);
    assert(commands.drop_last() =~= seq![first]);
    reveal_with_fuel(EngineModel::all_applied, 3);
    let added = m.applied(first);
    let after = added.applied(second);
    assert(m.all_applied(commands) == after);
    assert forall|i: int| 0 <= i < now.patterns.len() implies neat(#[trigger] now.patterns[i]) by {
        assert(neat(p.patterns[i]));
    }
    assert forall|k: u16| #[trigger] now.has_pattern(k) implies mirrors(
        after.patterns[k as int],
        now.pattern_of(k),
    ) by {
        assert(p.has_pattern(k));
        lemma_has_pattern(p, k);
        lemma_pattern_of(p, k);
        let score = m.patterns[k as int];
        assert(mirrors(score, p.pattern_of(k)));
        lemma_forgets(score, p.pattern_of(k), id);
        assert(!p.patterns[p.pattern_at(k)].has_lane(id));
        lemma_nothing_to_forget(p.pattern_of(k), id);
        assert(after.patterns[k as int] == score.without_track(id as u32));
    }
    lemma_has_track(p, id);
    let last = p.tracks.len() as int;
    assert(now.tracks[last] == t);
    lemma_track_is(now, last);
    assert forall|other: u16| #[trigger] now.has_track(other) == (other == id || p.has_track(other)) by {
        lemma_has_track(now, other);
        lemma_has_track(p, other);
        if p.has_track(other) {
            assert(now.tracks[p.track_at(other)].id == other);
        }
        if now.has_track(other) && other != id {
            let k = now.track_at(other);
            assert(p.tracks[k].id == other);
        }
    }
    assert forall|other: u16| #[trigger] now.has_track(other) implies plays(
        after.tracks[other as int],
        now.track_of(other),
    ) by {
        lemma_has_track(now, other);
        let k = now.track_at(other);
        if other != id {
            assert(k != last);
            assert(now.tracks[k] == p.tracks[k]);
            lemma_track_is(p, k);
            assert(p.has_track(other));
            assert(p.tracks[k].id < MAX_TRACKS);
        }
    }
    lemma_same_grid(m, after, p.song);
}

/// A tempo.
pub proof fn a_tempo_keeps_the_engine_in_line(m: EngineModel, p: ProjectModel, bpm: Single)
    requires
        p.neat(),
        m.reflects(p),
        !bpm.nan(),
    ensures
        (ProjectModel { bpm, ..p }).neat(),
        m.all_applied(seq![Command::SetBpm(bpm)]).reflects((ProjectModel { bpm, ..p })),
{
    let now = ProjectModel { bpm, ..p };
    reveal_with_fuel(EngineModel::all_applied, 2);
    let after = m.applied(Command::SetBpm(bpm));
    assert(m.all_applied(seq![Command::SetBpm(bpm)]) == after);
    assert forall|k: u16| #[trigger] now.has_pattern(k) implies mirrors(
        after.patterns[k as int],
        now.pattern_of(k),
    ) by {
        assert(p.has_pattern(k));
    }
    assert forall|t: u16| #[trigger] now.has_track(t) == p.has_track(t) by {}
    assert(now.tidy()) by {
        assert forall|b: Placement| #[trigger] now.song.contains(b) implies now.belongs(b) by {
            assert(p.belongs(b));
        }
    }
    lemma_same_grid(m, after, p.song);
}

// --- the whole project ----------------------------------------------------------

/// What several commands do, for putting together what each lot of them does.
#[verifier::opaque]
spec fn told(m: EngineModel, commands: Seq<Command>) -> EngineModel {
    m.all_applied(commands)
}

proof fn lemma_told_both(m: EngineModel, a: Seq<Command>, b: Seq<Command>)
    ensures
        told(m, a + b) == told(told(m, a), b),
{
    reveal(told);
    lemma_applied_both(m, a, b);
}

/// No track of the first so many is in a slot.
spec fn no_track_in(p: ProjectModel, count: int, slot: int) -> bool {
    forall|i: int| 0 <= i < count ==> (#[trigger] p.tracks[i]).id != slot
}

/// No pattern of the first so many is in a slot.
spec fn no_pattern_in(p: ProjectModel, count: int, slot: int) -> bool {
    forall|i: int| 0 <= i < count ==> (#[trigger] p.patterns[i]).id != slot
}

/// A slot holds a track, and its sound.
pub open spec fn holds_track(state: TrackState, t: Track, sample: Option<Arc<Sample>>) -> bool {
    state.active && plays(state, t) && state.sample == sample
}

/// A slot no track has.
pub open spec fn vacant(state: TrackState) -> bool {
    !state.active && state.sample is None
}

/// A score with nothing in it.
pub open spec fn blank(s: ScoreModel) -> bool {
    s == ScoreModel::fresh(s.steps)
}

impl EngineModel {
    /// Every pattern slot has nothing in it.
    pub open spec fn all_blank(self) -> bool {
        &&& self.patterns.len() == MAX_PATTERNS
        &&& forall|k: int| 0 <= k < MAX_PATTERNS ==> blank(#[trigger] self.patterns[k])
    }
}

/// A blank score that forgets a track is blank.
proof fn lemma_blank_forgets(s: ScoreModel, track: u16)
    requires
        blank(s),
        track < MAX_TRACKS,
    ensures
        blank(s.without_track(track as u32)),
{
    let after = s.without_track(track as u32);
    crate::bits::lemma_none_and_all();
    lemma_without(0, track as u32);
    assert(after.pitched == 0) by {
        assert forall|t: u32| t < 32 implies bit(after.pitched, t) == #[trigger] bit(0, t) by {}
        crate::bits::lemma_bits_decide(after.pitched, 0);
    }
    assert(after.tracks =~= s.tracks);
}

/// Emptying so many track slots leaves them empty, without a sound.
proof fn lemma_slots_cleared(m: EngineModel, count: int)
    requires
        m.tracks.len() == MAX_TRACKS,
        m.patterns.len() == MAX_PATTERNS,
        0 <= count <= MAX_TRACKS,
    ensures
        ({
            let after = told(m, slots_cleared().take(count));
            &&& after.tracks.len() == MAX_TRACKS
            &&& after.patterns.len() == MAX_PATTERNS
            &&& forall|t: int| 0 <= t < count ==> vacant(#[trigger] after.tracks[t])
        }),
    decreases count,
{
    reveal(told);
    let commands = slots_cleared().take(count);
    if count > 0 {
        lemma_slots_cleared(m, count - 1);
        assert(commands.drop_last() =~= slots_cleared().take(count - 1));
        assert(commands.last() == Command::RemoveTrack { track: (count - 1) as u16 });
    }
}

/// Emptying so many pattern slots leaves them blank.
proof fn lemma_scores_cleared(m: EngineModel, count: int)
    requires
        m.patterns.len() == MAX_PATTERNS,
        0 <= count <= MAX_PATTERNS,
    ensures
        ({
            let after = told(m, scores_cleared().take(count));
            &&& after.tracks == m.tracks
            &&& after.patterns.len() == MAX_PATTERNS
            &&& forall|k: int| 0 <= k < count ==> blank(#[trigger] after.patterns[k])
        }),
    decreases count,
{
    reveal(told);
    let commands = scores_cleared().take(count);
    if count > 0 {
        lemma_scores_cleared(m, count - 1);
        assert(commands.drop_last() =~= scores_cleared().take(count - 1));
        assert(commands.last() == Command::ClearPattern { pattern: (count - 1) as u16 });
    }
}

/// One track told to an empty slot: the slot holds the track and its sound, and nothing else has
/// changed.
proof fn lemma_track_told(m: EngineModel, t: Track, sample: Option<Arc<Sample>>)
    requires
        m.tracks.len() == MAX_TRACKS,
        m.all_blank(),
        t.id < MAX_TRACKS,
        m.tracks[t.id as int].sample is None,
    ensures
        ({
            let after = told(m, track_told(t, sample));
            &&& after.tracks == m.tracks.update(t.id as int, after.tracks[t.id as int])
            &&& holds_track(after.tracks[t.id as int], t, sample)
            &&& after.all_blank()
            &&& after.master == m.master
            &&& after.clock.bpm == m.clock.bpm
        }),
{
    reveal(told);
    let first = Command::AddTrack { track: t.id, gain: t.gain };
    let second = Command::SetTrackMuted { track: t.id, muted: t.muted };
    let third = Command::SetTrackSoloed { track: t.id, soloed: t.soloed };
    let three = seq![first, second, third];
    let last: Seq<Command> = match sample {
        Some(s) => seq![Command::SetTrackSample { track: t.id, sample: Some(s) }],
        None => Seq::empty(),
    };
    assert(three.drop_last() =~= seq![first, second]);
    assert(three.drop_last().drop_last() =~= seq![first]);
    reveal_with_fuel(EngineModel::all_applied, 4);
    let added = m.applied(first);
    let faded = added.applied(second).applied(third);
    assert(m.all_applied(three) == faded);
    lemma_applied_both(m, three, last);
    let after = faded.all_applied(last);
    assert(after.patterns == added.patterns);
    assert forall|k: int| 0 <= k < MAX_PATTERNS implies blank(#[trigger] after.patterns[k]) by {
        assert(blank(m.patterns[k]));
        lemma_blank_forgets(m.patterns[k], t.id);
        assert(after.patterns[k] == m.patterns[k].without_track(t.id as u32));
    }
    assert(after.tracks =~= m.tracks.update(t.id as int, after.tracks[t.id as int]));
}

/// The first so many tracks told to empty slots.
proof fn lemma_tracks_told(
    m: EngineModel,
    p: ProjectModel,
    samples: Seq<Option<Arc<Sample>>>,
    count: int,
)
    requires
        p.tidy(),
        0 <= count <= p.tracks.len(),
        m.tracks.len() == MAX_TRACKS,
        m.all_blank(),
        forall|t: int| 0 <= t < MAX_TRACKS ==> vacant(#[trigger] m.tracks[t]),
    ensures
        ({
            let after = told(m, tracks_told(p.tracks.take(count), samples));
            &&& after.tracks.len() == MAX_TRACKS
            &&& after.all_blank()
            &&& after.master == m.master
            &&& after.clock.bpm == m.clock.bpm
            &&& forall|i: int|
                0 <= i < count ==> holds_track(
                    after.tracks[(#[trigger] p.tracks[i]).id as int],
                    p.tracks[i],
                    samples[i],
                )
            &&& forall|t: int|
                0 <= t < MAX_TRACKS && no_track_in(p, count, t) ==> vacant(
                    #[trigger] after.tracks[t],
                )
        }),
    decreases count,
{
    let some = p.tracks.take(count);
    if count == 0 {
        reveal(told);
    } else {
        let k = count - 1;
        lemma_tracks_told(m, p, samples, k);
        assert(some.drop_last() =~= p.tracks.take(k));
        assert(some.last() == p.tracks[k]);
        let front = tracks_told(p.tracks.take(k), samples);
        let next = track_told(p.tracks[k], samples[k]);
        assert(tracks_told(some, samples) == front + next);
        lemma_told_both(m, front, next);
        let before = told(m, front);
        let id = p.tracks[k].id;
        assert forall|i: int| 0 <= i < k implies (#[trigger] p.tracks[i]).id != id by {
            assert(p.tracks[i].id != p.tracks[k].id);
        }
        assert(no_track_in(p, k, id as int));
        assert(vacant(before.tracks[id as int]));
        lemma_track_told(before, p.tracks[k], samples[k]);
        let after = told(before, next);
        assert forall|i: int| 0 <= i < count implies holds_track(
            after.tracks[(#[trigger] p.tracks[i]).id as int],
            p.tracks[i],
            samples[i],
        ) by {
            if i < k {
                assert(after.tracks[p.tracks[i].id as int] == before.tracks[p.tracks[i].id as int]);
            }
        }
        assert forall|t: int| 0 <= t < MAX_TRACKS && no_track_in(p, count, t) implies vacant(
            #[trigger] after.tracks[t],
        ) by {
            assert(p.tracks[k].id != t);
            assert(no_track_in(p, k, t));
            assert(after.tracks[t] == before.tracks[t]);
        }
    }
}

/// One pattern told to a blank slot: the slot holds the pattern, and nothing else has changed.
proof fn lemma_pattern_in(m: EngineModel, q: PatternModel)
    requires
        m.patterns.len() == MAX_PATTERNS,
        neat(q),
        blank(m.patterns[q.id as int]),
    ensures
        ({
            let after = told(m, score_told(q));
            &&& after.patterns == m.patterns.update(q.id as int, after.patterns[q.id as int])
            &&& mirrors(after.patterns[q.id as int], q)
            &&& after.tracks == m.tracks
            &&& after.master == m.master
            &&& after.clock.bpm == m.clock.bpm
        }),
{
    reveal(told);
    let score = m.patterns[q.id as int];
    lemma_score_told(score, q, score.steps);
    lemma_told_to(q);
    commands_to_a_pattern_touch_only_it(m, q.id, score_told(q));
}

/// The first so many patterns told to blank slots.
proof fn lemma_patterns_told(m: EngineModel, p: ProjectModel, count: int)
    requires
        p.neat(),
        0 <= count <= p.patterns.len(),
        m.all_blank(),
    ensures
        ({
            let after = told(m, patterns_told(p.patterns.take(count)));
            &&& after.tracks == m.tracks
            &&& after.patterns.len() == MAX_PATTERNS
            &&& after.master == m.master
            &&& after.clock.bpm == m.clock.bpm
            &&& forall|i: int|
                0 <= i < count ==> mirrors(
                    after.patterns[(#[trigger] p.patterns[i]).id as int],
                    p.patterns[i],
                )
            &&& forall|k: int|
                0 <= k < MAX_PATTERNS && no_pattern_in(p, count, k) ==> blank(
                    #[trigger] after.patterns[k],
                )
        }),
    decreases count,
{
    let some = p.patterns.take(count);
    if count == 0 {
        reveal(told);
    } else {
        let k = count - 1;
        let q = p.patterns[k];
        lemma_patterns_told(m, p, k);
        assert(some.drop_last() =~= p.patterns.take(k));
        assert(some.last() == q);
        let front = patterns_told(p.patterns.take(k));
        assert(patterns_told(some) == front + score_told(q));
        lemma_told_both(m, front, score_told(q));
        let before = told(m, front);
        assert forall|i: int| 0 <= i < k implies (#[trigger] p.patterns[i]).id != q.id by {
            assert(p.patterns[i].id != p.patterns[k].id);
        }
        assert(neat(p.patterns[k]));
        assert(no_pattern_in(p, k, q.id as int));
        assert(blank(before.patterns[q.id as int]));
        lemma_pattern_in(before, q);
        let after = told(before, score_told(q));
        assert forall|i: int| 0 <= i < count implies mirrors(
            after.patterns[(#[trigger] p.patterns[i]).id as int],
            p.patterns[i],
        ) by {
            if i < k {
                assert(neat(p.patterns[i]));
                assert(after.patterns[p.patterns[i].id as int]
                    == before.patterns[p.patterns[i].id as int]);
            }
        }
        assert forall|j: int| 0 <= j < MAX_PATTERNS && no_pattern_in(p, count, j) implies blank(
            #[trigger] after.patterns[j],
        ) by {
            assert(p.patterns[k].id != j);
            assert(no_pattern_in(p, k, j));
            assert(after.patterns[j] == before.patterns[j]);
        }
    }
}

/// The first part of what is said of a project: everything stopped and emptied, and the tempo
/// and the volume it is to be played at.
spec fn wiping(p: ProjectModel) -> Seq<Command> {
    seq![Command::SetPlaying(false)] + slots_cleared() + scores_cleared() + seq![
        Command::SetBpm(p.bpm),
        Command::SetMasterGain(p.master_gain),
    ]
}

proof fn lemma_stopped(m: EngineModel)
    ensures
        told(m, seq![Command::SetPlaying(false)]).tracks == m.tracks,
        told(m, seq![Command::SetPlaying(false)]).patterns == m.patterns,
{
    reveal(told);
    reveal_with_fuel(EngineModel::all_applied, 2);
}

proof fn lemma_timed(m: EngineModel, bpm: Single, gain: Single)
    requires
        !bpm.nan(),
    ensures
        ({
            let after = told(m, seq![Command::SetBpm(bpm), Command::SetMasterGain(gain)]);
            &&& after.tracks == m.tracks
            &&& after.patterns == m.patterns
            &&& after.master == allowed(gain)
            &&& after.clock.bpm == kept(bpm)
        }),
{
    reveal(told);
    reveal_with_fuel(EngineModel::all_applied, 3);
    let both = seq![Command::SetBpm(bpm), Command::SetMasterGain(gain)];
    assert(both.drop_last() =~= seq![Command::SetBpm(bpm)]);
}

proof fn lemma_wiped(m: EngineModel, p: ProjectModel)
    requires
        m.tracks.len() == MAX_TRACKS,
        m.patterns.len() == MAX_PATTERNS,
        !p.bpm.nan(),
    ensures
        ({
            let after = told(m, wiping(p));
            &&& after.tracks.len() == MAX_TRACKS
            &&& after.all_blank()
            &&& forall|t: int| 0 <= t < MAX_TRACKS ==> vacant(#[trigger] after.tracks[t])
            &&& after.master == allowed(p.master_gain)
            &&& after.clock.bpm == kept(p.bpm)
        }),
{
    let c1 = seq![Command::SetPlaying(false)];
    let c2 = slots_cleared();
    let c3 = scores_cleared();
    let c4 = seq![Command::SetBpm(p.bpm), Command::SetMasterGain(p.master_gain)];
    lemma_told_both(m, c1, c2);
    lemma_told_both(m, c1 + c2, c3);
    lemma_told_both(m, c1 + c2 + c3, c4);
    lemma_stopped(m);
    let m1 = told(m, c1);
    lemma_slots_cleared(m1, MAX_TRACKS as int);
    assert(c2.take(MAX_TRACKS as int) =~= c2);
    let m2 = told(m1, c2);
    lemma_scores_cleared(m2, MAX_PATTERNS as int);
    assert(c3.take(MAX_PATTERNS as int) =~= c3);
    let m3 = told(m2, c3);
    lemma_timed(m3, p.bpm, p.master_gain);
    let m4 = told(m3, c4);
    assert forall|k: int| 0 <= k < MAX_PATTERNS implies blank(#[trigger] m4.patterns[k]) by {
        assert(blank(m3.patterns[k]));
    }
}

/// What has been told in full is held, whatever is opened to be played afterwards.
proof fn lemma_opened(
    m: EngineModel,
    p: ProjectModel,
    samples: Seq<Option<Arc<Sample>>>,
    open: u16,
    song: bool,
)
    requires
        p.neat(),
        open < MAX_PATTERNS,
        m.tracks.len() == MAX_TRACKS,
        m.patterns.len() == MAX_PATTERNS,
        m.follows(p.song),
        m.master == allowed(p.master_gain),
        m.clock.bpm == kept(p.bpm),
        forall|i: int|
            0 <= i < p.tracks.len() ==> holds_track(
                m.tracks[(#[trigger] p.tracks[i]).id as int],
                p.tracks[i],
                samples[i],
            ),
        forall|t: int|
            0 <= t < MAX_TRACKS && no_track_in(p, p.tracks.len() as int, t) ==> vacant(
                #[trigger] m.tracks[t],
            ),
        forall|i: int|
            0 <= i < p.patterns.len() ==> mirrors(
                m.patterns[(#[trigger] p.patterns[i]).id as int],
                p.patterns[i],
            ),
    ensures
        ({
            let after = told(m, seq![Command::SetActivePattern(open), Command::SetSongMode(song)]);
            &&& after.reflects(p)
            &&& after.tracks == m.tracks
            &&& after.song_mode == song
            &&& after.active_pattern == open
            &&& after.clock.step == 0
        }),
{
    let both = seq![Command::SetActivePattern(open), Command::SetSongMode(song)];
    let after = m.applied(Command::SetActivePattern(open)).applied(Command::SetSongMode(song));
    assert(told(m, both) == after) by {
        reveal(told);
        reveal_with_fuel(EngineModel::all_applied, 3);
        assert(both.drop_last() =~= seq![Command::SetActivePattern(open)]);
    }
    assert(after.tracks == m.tracks && after.patterns == m.patterns);
    lemma_same_grid(m, after, p.song);
    assert forall|k: u16| #[trigger] p.has_pattern(k) implies mirrors(
        after.patterns[k as int],
        p.pattern_of(k),
    ) by {
        lemma_has_pattern(p, k);
        let i = p.pattern_at(k);
        assert(p.patterns[i].id == k);
    }
    assert forall|t: u16| t < MAX_TRACKS implies after.tracks[t as int].active
        == #[trigger] p.has_track(t) by {
        lemma_has_track(p, t);
        if p.has_track(t) {
            let i = p.track_at(t);
            assert(p.tracks[i].id == t);
        } else {
            assert(no_track_in(p, p.tracks.len() as int, t as int));
            assert(vacant(m.tracks[t as int]));
        }
    }
    assert forall|t: u16| #[trigger] p.has_track(t) implies plays(
        after.tracks[t as int],
        p.track_of(t),
    ) by {
        lemma_has_track(p, t);
        let i = p.track_at(t);
        assert(p.tracks[i].id == t);
    }
}

proof fn lemma_song_in(m: EngineModel, p: ProjectModel)
    requires
        p.tidy(),
    ensures
        told(m, song_told(p.song)).follows(p.song),
        alike_but_for_song(told(m, song_told(p.song)), m),
{
    reveal(told);
    telling_a_song_is_holding_it(m, p);
}

/// Telling a whole project, whatever the engine held before, leaves it holding that project,
/// with every track's sound, stopped at the top: of the song when there is one, of the first
/// pattern when there is not.
pub proof fn telling_a_project_is_holding_it(
    m: EngineModel,
    p: ProjectModel,
    samples: Seq<Option<Arc<Sample>>>,
)
    requires
        m.tracks.len() == MAX_TRACKS,
        m.patterns.len() == MAX_PATTERNS,
        p.neat(),
        !p.bpm.nan(),
        samples.len() == p.tracks.len(),
    ensures
        ({
            let after = m.all_applied(project_told(p, samples));
            &&& after.reflects(p)
            &&& forall|i: int|
                0 <= i < p.tracks.len() ==> after.tracks[(
                #[trigger] p.tracks[i]).id as int].sample == samples[i]
            &&& after.song_mode == (p.song.len() > 0)
            &&& after.active_pattern == p.patterns[0].id
            &&& after.clock.step == 0
        }),
{
    let c4 = wiping(p);
    let c5 = tracks_told(p.tracks, samples);
    let c6 = patterns_told(p.patterns);
    let c7 = song_told(p.song);
    let open = p.patterns[0].id;
    let song = p.song.len() > 0;
    let c8 = seq![Command::SetActivePattern(open), Command::SetSongMode(song)];
    lemma_told_both(m, c4, c5);
    lemma_told_both(m, c4 + c5, c6);
    lemma_told_both(m, c4 + c5 + c6, c7);
    lemma_told_both(m, c4 + c5 + c6 + c7, c8);
    lemma_wiped(m, p);
    let m4 = told(m, c4);
    assert(p.tracks.take(p.tracks.len() as int) =~= p.tracks);
    lemma_tracks_told(m4, p, samples, p.tracks.len() as int);
    let m5 = told(m4, c5);
    assert(p.patterns.take(p.patterns.len() as int) =~= p.patterns);
    lemma_patterns_told(m5, p, p.patterns.len() as int);
    let m6 = told(m5, c6);
    lemma_song_in(m6, p);
    let m7 = told(m6, c7);
    assert(neat(p.patterns[0]));
    lemma_opened(m7, p, samples, open, song);
    let after = told(m7, c8);
    assert forall|i: int| 0 <= i < p.tracks.len() implies after.tracks[(
    #[trigger] p.tracks[i]).id as int].sample == samples[i] by {
        assert(holds_track(m7.tracks[p.tracks[i].id as int], p.tracks[i], samples[i]));
    }
    assert(project_told(p, samples) == c4 + c5 + c6 + c7 + c8);
    assert(m.all_applied(project_told(p, samples)) == after) by {
        reveal(told);
    }
}

/// Whether a command does not start the engine.
pub open spec fn never_starts(c: Command) -> bool {
    !(c matches Command::SetPlaying(on) && on)
}

/// An engine that is stopped stays so through commands none of which starts it.
proof fn lemma_stays_stopped(m: EngineModel, commands: Seq<Command>)
    requires
        !m.playing,
        forall|i: int| 0 <= i < commands.len() ==> never_starts(#[trigger] commands[i]),
    ensures
        !m.all_applied(commands).playing,
    decreases commands.len(),
{
    if commands.len() > 0 {
        let front = commands.drop_last();
        assert forall|i: int| 0 <= i < front.len() implies never_starts(#[trigger] front[i]) by {
            assert(front[i] == commands[i]);
        }
        lemma_stays_stopped(m, front);
        assert(never_starts(commands[commands.len() - 1]));
    }
}

proof fn lemma_tracks_never_start(tracks: Seq<Track>, samples: Seq<Option<Arc<Sample>>>)
    ensures
        forall|i: int|
            0 <= i < tracks_told(tracks, samples).len() ==> never_starts(
                #[trigger] tracks_told(tracks, samples)[i],
            ),
    decreases tracks.len(),
{
    if tracks.len() > 0 {
        let before = tracks_told(tracks.drop_last(), samples);
        let last = track_told(tracks.last(), samples[tracks.len() - 1]);
        lemma_tracks_never_start(tracks.drop_last(), samples);
        assert forall|i: int| 0 <= i < tracks_told(tracks, samples).len() implies never_starts(
            #[trigger] tracks_told(tracks, samples)[i],
        ) by {
            if i < before.len() {
                assert(tracks_told(tracks, samples)[i] == before[i]);
            } else {
                assert(tracks_told(tracks, samples)[i] == last[i - before.len()]);
            }
        }
    }
}

proof fn lemma_patterns_never_start(patterns: Seq<PatternModel>)
    ensures
        forall|i: int|
            0 <= i < patterns_told(patterns).len() ==> never_starts(
                #[trigger] patterns_told(patterns)[i],
            ),
    decreases patterns.len(),
{
    if patterns.len() > 0 {
        let before = patterns_told(patterns.drop_last());
        let last = score_told(patterns.last());
        lemma_patterns_never_start(patterns.drop_last());
        lemma_told_to(patterns.last());
        assert forall|i: int| 0 <= i < patterns_told(patterns).len() implies never_starts(
            #[trigger] patterns_told(patterns)[i],
        ) by {
            if i < before.len() {
                assert(patterns_told(patterns)[i] == before[i]);
            } else {
                assert(patterns_told(patterns)[i] == last[i - before.len()]);
                assert(to_pattern(last[i - before.len()], patterns.last().id));
            }
        }
    }
}

/// Commands that start with one to stop, and none of which starts the engine, leave it stopped.
proof fn lemma_stopped_first(m: EngineModel, commands: Seq<Command>)
    requires
        commands.len() > 0,
        commands[0] == Command::SetPlaying(false),
        none_starts(commands),
    ensures
        !m.all_applied(commands).playing,
{
    let first = seq![commands[0]];
    let rest = commands.drop_first();
    assert(first + rest =~= commands);
    lemma_applied_both(m, first, rest);
    assert(first.drop_last() =~= Seq::<Command>::empty());
    reveal_with_fuel(EngineModel::all_applied, 2);
    assert(m.all_applied(first) == m.applied(Command::SetPlaying(false)));
    assert forall|i: int| 0 <= i < rest.len() implies never_starts(#[trigger] rest[i]) by {
        assert(rest[i] == commands[i + 1]);
    }
    lemma_stays_stopped(m.all_applied(first), rest);
}

/// Whether none of some commands starts the engine.
pub open spec fn none_starts(commands: Seq<Command>) -> bool {
    forall|i: int| 0 <= i < commands.len() ==> never_starts(#[trigger] commands[i])
}

proof fn lemma_neither_starts(a: Seq<Command>, b: Seq<Command>)
    requires
        none_starts(a),
        none_starts(b),
    ensures
        none_starts(a + b),
        a.len() > 0 ==> (a + b)[0] == a[0],
{
    assert forall|i: int| 0 <= i < (a + b).len() implies never_starts(#[trigger] (a + b)[i]) by {
        if i < a.len() {
            assert((a + b)[i] == a[i]);
        } else {
            assert((a + b)[i] == b[i - a.len()]);
        }
    }
}

/// An engine that has been told a project is stopped, whatever it was doing before.
#[verifier::rlimit(50)]
pub proof fn telling_a_project_leaves_it_stopped(
    m: EngineModel,
    p: ProjectModel,
    samples: Seq<Option<Arc<Sample>>>,
)
    ensures
        !m.all_applied(project_told(p, samples)).playing,
{
    let first = seq![Command::SetPlaying(false)];
    let a = slots_cleared();
    let b = scores_cleared();
    let c = seq![Command::SetBpm(p.bpm), Command::SetMasterGain(p.master_gain)];
    let d = tracks_told(p.tracks, samples);
    let e = patterns_told(p.patterns);
    let f = song_told(p.song);
    let g = seq![
        Command::SetActivePattern(
            if p.patterns.len() > 0 {
                p.patterns[0].id
            } else {
                0
            },
        ),
        Command::SetSongMode(p.song.len() > 0),
    ];
    lemma_tracks_never_start(p.tracks, samples);
    lemma_patterns_never_start(p.patterns);
    lemma_neither_starts(first, a);
    lemma_neither_starts(first + a, b);
    lemma_neither_starts(first + a + b, c);
    lemma_neither_starts(first + a + b + c, d);
    lemma_neither_starts(first + a + b + c + d, e);
    lemma_neither_starts(first + a + b + c + d + e, f);
    lemma_neither_starts(first + a + b + c + d + e + f, g);
    assert(project_told(p, samples) == first + a + b + c + d + e + f + g);
    lemma_stopped_first(m, project_told(p, samples));
}

} // verus!
