//! What is heard, and when.

use std::sync::Arc;

use vstd::prelude::*;

use crate::arranging::a_pattern_never_plays_over_itself;
use crate::bits::{bit, lemma_none_and_all, lemma_with};
use crate::command::{Command, EngineNote};
use crate::placement::Placement;
use crate::playing::{asking, due_on, heard_at, lemma_nearest, slot, EngineModel};
use crate::project::ProjectModel;
use crate::sample::Sample;
use crate::seqs::{gathered, lemma_filter_members};
use crate::single::{Single, ZERO};
use crate::voice::{playable_track, waiting_on, Stage, Trigger, Voice};
use crate::{DEFAULT_PITCH, MAX_PATTERNS, MAX_SONG_STEPS, MAX_TRACKS, PREVIEW_TRACK};

verus! {

impl EngineModel {
    /// Every pattern is where the song says it should be as a step of the song begins: as much
    /// of its block is left as there should be, and while any is, it is as far into it.
    pub open spec fn in_step(self, step: int) -> bool {
        forall|p: int|
            0 <= p < MAX_PATTERNS ==> {
                let there = #[trigger] self.entering(step, p);
                let due = self.run_at(p, step);
                there.1 == due.1 && (due.1 > 0 ==> there.0 == due.0)
            }
    }
}

/// Whether two engines hold the same song is all that where its blocks are depends on.
proof fn lemma_same_song(a: EngineModel, b: EngineModel, pattern: int, step: int)
    requires
        a.starts == b.starts,
        a.lengths == b.lengths,
        a.song_mode == b.song_mode,
        step >= -1,
    ensures
        a.nearest_start(pattern, step) == b.nearest_start(pattern, step),
        a.run_at(pattern, step) == b.run_at(pattern, step),
    decreases step + 1,
{
    if step >= 0 && !a.starts_at(step, pattern) {
        lemma_same_song(a, b, pattern, step - 1);
    }
}

/// A seek, a stop, or coming round to the top puts every pattern where it should be: one that
/// the playhead lands in the middle of picks up where it would have been, rather than starting
/// again.
pub proof fn a_jump_lands_every_pattern_in_step(m: EngineModel)
    requires
        m.wf(),
        m.song_mode,
    ensures
        m.resynced().in_step(m.clock.step as int),
{
    let after = m.resynced();
    let now = m.clock.step as int;
    assert forall|p: int| 0 <= p < MAX_PATTERNS implies ({
        let there = #[trigger] after.entering(now, p);
        let due = after.run_at(p, now);
        there.1 == due.1 && (due.1 > 0 ==> there.0 == due.0)
    }) by {
        lemma_same_song(m, after, p, now);
        assert(after.run_step[p] == m.run_at(p, now).0);
        assert(after.run_left[p] == m.run_at(p, now).1);
        if after.starts_at(now, p) {
            assert(m.nearest_start(p, now) == now);
        }
    }
}

/// Playing on from one step to the next keeps every pattern where it should be.
pub proof fn playing_on_keeps_every_pattern_in_step(m: EngineModel, step: u32)
    requires
        m.wf(),
        m.song_mode,
        step + 1 < MAX_SONG_STEPS,
        m.in_step(step as int),
    ensures
        m.stepped(step).in_step(step + 1),
{
    let after = m.stepped(step);
    let s = step as int;
    assert forall|p: int| 0 <= p < MAX_PATTERNS implies ({
        let there = #[trigger] after.entering(s + 1, p);
        let due = after.run_at(p, s + 1);
        there.1 == due.1 && (due.1 > 0 ==> there.0 == due.0)
    }) by {
        lemma_same_song(m, after, p, s + 1);
        lemma_nearest(m, p, s);
        assert(m.entering(s, p).1 == m.run_at(p, s).1);
        assert(after.run_step[p] == m.run_step_after(s, p));
        assert(after.run_left[p] == m.run_left_after(s, p));
        if after.starts_at(s + 1, p) {
            assert(m.nearest_start(p, s + 1) == s + 1);
        } else {
            assert(m.nearest_start(p, s + 1) == m.nearest_start(p, s));
        }
    }
}

impl EngineModel {
    /// The engine holds the blocks that a test picks out, and no others.
    pub open spec fn holds_blocks(self, these: spec_fn(Placement) -> bool) -> bool {
        &&& forall|b: Placement| #[trigger]
            these(b) ==> {
                &&& b.step < MAX_SONG_STEPS
                &&& b.pattern < MAX_PATTERNS
                &&& self.starts_at(b.step as int, b.pattern as int)
                &&& self.length_at(b.step as int, b.pattern as int) == b.length
            }
        &&& forall|step: int, p: int|
            0 <= step < MAX_SONG_STEPS && 0 <= p < MAX_PATTERNS && #[trigger] self.starts_at(
                step,
                p,
            ) ==> exists|b: Placement| #[trigger] these(b) && b.step == step && b.pattern == p
    }

    /// The engine holds a project's song.
    pub open spec fn holds_song(self, song: Seq<Placement>) -> bool {
        self.holds_blocks(among(song))
    }
}

/// The test for a block of a song.
pub open spec fn among(song: Seq<Placement>) -> spec_fn(Placement) -> bool {
    |b: Placement| song.contains(b)
}

/// In the song a pattern sounds exactly where one of its blocks is, from its own first step at
/// the start of the block, coming round again in a block that is longer than it.
pub proof fn a_pattern_sounds_where_its_blocks_are(m: EngineModel, project: ProjectModel, step: u32, p: u16)
    requires
        m.wf(),
        m.song_mode,
        project.tidy_song(),
        m.holds_song(project.song),
        m.in_step(step as int),
        step < MAX_SONG_STEPS,
        p < MAX_PATTERNS,
    ensures
        m.sounds_at(step as int, p as int) <==> exists|b: Placement| #[trigger]
            project.song.contains(b) && b.pattern == p && b.spans(step as int),
        forall|b: Placement| #[trigger]
            project.song.contains(b) && b.pattern == p && b.spans(step as int) ==> m.own_step(
                step as int,
                p as int,
            ) == (step - b.step) % (m.patterns[p as int].steps as int),
{
    let s = step as int;
    let q = p as int;
    lemma_nearest(m, q, s);
    let start = m.nearest_start(q, s);
    assert(m.entering(s, q).1 == m.run_at(q, s).1);
    assert(m.patterns[q].wf());
    if m.sounds_at(s, q) {
        assert(m.starts_at(start, q));
        let b = choose|b: Placement| #[trigger]
            among(project.song)(b) && b.step == start && b.pattern == q;
        assert(project.song.contains(b));
        assert(project.belongs(b));
        assert(b.spans(s));
    }
    assert forall|b: Placement| #[trigger]
        project.song.contains(b) && b.pattern == p && b.spans(s) implies m.sounds_at(s, q)
        && m.own_step(s, q) == (step - b.step) % (m.patterns[q].steps as int) by {
        assert(among(project.song)(b));
        assert(project.belongs(b));
        assert(m.starts_at(b.step as int, q));
        assert(start >= b.step) by {
            if start < b.step {
                assert(!m.starts_at(b.step as int, q));
            }
        }
        if start > b.step {
            assert(m.starts_at(start, q));
            let other = choose|c: Placement| #[trigger]
                among(project.song)(c) && c.step == start && c.pattern == q;
            assert(project.song.contains(other));
            assert(other.spans(start) && b.spans(start));
            a_pattern_never_plays_over_itself(project, b, other, start);
        }
        assert(m.length_at(b.step as int, q) == b.length);
        assert(m.run_at(q, s) == ((s - b.step) as u32, (b.length - (s - b.step)) as u32));
        let steps = m.patterns[q].steps as int;
        assert(0 <= (s - b.step) % steps < 256) by (nonlinear_arith)
            requires
                1 <= steps <= 256,
        ;
    }
}

/// What the UI is shown of the patterns that sound is exactly those that do.
pub proof fn the_lights_show_what_sounds(m: EngineModel, step: int, p: u32, upto: int)
    requires
        p < MAX_PATTERNS,
        0 <= upto <= MAX_PATTERNS,
    ensures
        bit(m.sounding_upto(step, upto), p) <==> p < upto && m.sounds_at(step, p as int),
    decreases upto,
{
    if upto == 0 {
        lemma_none_and_all();
    } else {
        the_lights_show_what_sounds(m, step, p, upto - 1);
        lemma_with(m.sounding_upto(step, upto - 1), (upto - 1) as u32);
    }
}

/// What is played of a track at a step of a pattern: each of its notes there that its row shows,
/// on that track, at that note's pitch and strength, and held for as long as the note is long
/// when the track is an instrument there.
pub proof fn what_is_played_is_what_is_drawn(
    m: EngineModel,
    pattern: int,
    step: u16,
    track: int,
    t: Trigger,
)
    requires
        m.wf(),
        0 <= pattern < MAX_PATTERNS,
        0 <= track < MAX_TRACKS,
    ensures
        ({
            let score = m.patterns[pattern];
            let instrument = bit(score.pitched, track as u32);
            due_on(m.tracks, score, m.clock, step, track).contains(t) <==> {
                &&& m.tracks[track].active
                &&& m.tracks[track].sample == Some(t.sample)
                &&& exists|n: EngineNote| #[trigger]
                    score.tracks[track].contains(n) && n.step == step && (instrument || n.pitch
                        == DEFAULT_PITCH) && t == asking(
                        t.sample,
                        track as u16,
                        instrument,
                        m.clock,
                    )(n)
            }
        }),
{
    let score = m.patterns[pattern];
    let instrument = bit(score.pitched, track as u32);
    let notes = score.tracks[track];
    match m.tracks[track].sample {
        Some(sample) if m.tracks[track].active => {
            let heard = notes.filter(heard_at(step, instrument));
            let ask = asking(sample, track as u16, instrument, m.clock);
            lemma_filter_members(notes, heard_at(step, instrument));
            let due = heard.map_values(ask);
            if due.contains(t) {
                let i = choose|i: int| 0 <= i < due.len() && due[i] == t;
                assert(heard.contains(heard[i]));
                assert(notes.contains(heard[i]));
                assert(t == ask(heard[i]));
            }
            if m.tracks[track].sample == Some(t.sample) && exists|n: EngineNote| #[trigger]
                notes.contains(n) && n.step == step && (instrument || n.pitch == DEFAULT_PITCH) && t
                    == asking(t.sample, track as u16, instrument, m.clock)(n) {
                let n = choose|n: EngineNote| #[trigger]
                    notes.contains(n) && n.step == step && (instrument || n.pitch == DEFAULT_PITCH)
                        && t == asking(t.sample, track as u16, instrument, m.clock)(n);
                assert(heard_at(step, instrument)(n));
                assert(heard.contains(n));
                let i = choose|i: int| 0 <= i < heard.len() && heard[i] == n;
                assert(due[i] == t);
            }
        },
        _ => {},
    }
}

/// Solo beats mute: while any track is soloed, a track is heard when it is soloed, whatever its
/// mute says; while none is, it is heard unless it is muted.
pub proof fn solo_beats_mute(m: EngineModel, t: int)
    requires
        m.wf(),
        0 <= t < MAX_TRACKS,
        m.tracks[t].active,
    ensures
        m.tracks[t].soloed ==> m.heading(t) == m.tracks[t].target_gain,
        m.any_soloed() && !m.tracks[t].soloed ==> m.heading(t) == (Single { bits: ZERO }),
        !m.any_soloed() ==> m.heading(t) == (if m.tracks[t].muted {
            Single { bits: ZERO }
        } else {
            m.tracks[t].target_gain
        }),
{
}

/// A command for something that is not there does nothing, but hand back the sample it brings.
/// Deleting a track of the number that previews play under, or changing its sample, lets them go
/// and does no more.
pub proof fn commands_for_nothing_do_nothing(
    m: EngineModel,
    track: u16,
    pattern: u16,
    step: u32,
    gain: Single,
    note: EngineNote,
    sample: Option<Arc<Sample>>,
)
    requires
        m.wf(),
    ensures
        track >= MAX_TRACKS ==> {
            &&& m.applied(Command::AddTrack { track, gain }) == m
            &&& m.applied(Command::SetTrackGain { track, gain }) == m
            &&& m.applied(Command::SetTrackMuted { track, muted: true }) == m
            &&& m.applied(Command::SetTrackSoloed { track, soloed: true }) == m
            &&& m.applied(Command::Audition { track, pitch: 0, velocity: 0 }) == m
            &&& m.applied(Command::RemoveTrack { track }) == (if track == PREVIEW_TRACK {
                m.hushed(track)
            } else {
                m
            })
            &&& m.applied(Command::SetTrackSample { track, sample }) == (if track == PREVIEW_TRACK {
                m.hushed(track).handing_back(sample)
            } else {
                m.handing_back(sample)
            })
        },
        track >= MAX_TRACKS || pattern >= MAX_PATTERNS ==> {
            &&& m.applied(Command::SetNote { pattern, track, note }) == m
            &&& m.applied(Command::ClearNotes { pattern, track }) == m
            &&& m.applied(Command::SetPatternPitched { pattern, track, pitched: true }) == m
        },
        pattern >= MAX_PATTERNS ==> {
            &&& m.applied(Command::SetActivePattern(pattern)) == m
            &&& m.applied(Command::ClearPattern { pattern }) == m
            &&& m.applied(Command::SetPatternSteps { pattern, steps: step }) == m
        },
        pattern >= MAX_PATTERNS || step >= MAX_SONG_STEPS ==> {
            &&& m.applied(Command::PlacePattern { pattern, step, length: 1 }) == m
            &&& m.applied(Command::UnplacePattern { pattern, step }) == m
        },
{
    if track >= MAX_TRACKS && track != PREVIEW_TRACK {
        lemma_nothing_to_hush(m, track);
    }
}

/// Letting go of a track that no voice can be playing changes nothing.
proof fn lemma_nothing_to_hush(m: EngineModel, track: u16)
    requires
        m.wf(),
        !playable_track(track),
    ensures
        m.hushed(track) == m,
{
    let voices = m.voices.voices;
    assert forall|i: int| 0 <= i < voices.len() implies (#[trigger] voices[i]).track != track by {
        assert(voices[i].of_slots());
    }
    assert(m.voices.track_released(track).voices =~= voices);
    lemma_none_waiting(voices, track);
    assert(m.hushed(track).handed =~= m.handed);
}

proof fn lemma_none_waiting(voices: Seq<Voice>, track: u16)
    requires
        forall|i: int| 0 <= i < voices.len() ==> (#[trigger] voices[i]).track != track,
    ensures
        gathered(voices, waiting_on(track)).len() == 0,
    decreases voices.len(),
{
    if voices.len() > 0 {
        let front = voices.drop_last();
        assert forall|i: int| 0 <= i < front.len() implies (#[trigger] front[i]).track != track by {
            assert(front[i] == voices[i]);
        }
        lemma_none_waiting(front, track);
        assert(voices[voices.len() - 1].track != track);
    }
}

/// A track that is deleted, or whose sample changes, falls silent: every voice that was playing it
/// fades out, and nothing is waiting for that voice any more. No other voice is touched.
pub proof fn a_deleted_track_falls_silent(m: EngineModel, track: u16, i: int)
    requires
        m.wf(),
        0 <= i < m.voices.voices.len(),
    ensures
        ({
            let was = m.voices.voices[i];
            let now = m.applied(Command::RemoveTrack { track }).voices.voices[i];
            &&& was.track == track ==> (now.stage == Stage::Idle || now.stage == Stage::Releasing)
                && now.pending is None && now.env == was.env
            &&& was.track != track ==> now == was
        }),
        forall|sample: Option<Arc<Sample>>| #[trigger]
            m.applied(Command::SetTrackSample { track, sample }).voices == m.applied(
                Command::RemoveTrack { track },
            ).voices,
{
}

/// Stopping goes back to the top, with the first step due, and leaves what is ringing to ring;
/// the panic button fades it out as well.
pub proof fn stopping_goes_back_to_the_top(m: EngineModel)
    requires
        m.wf(),
    ensures
        m.applied(Command::SetPlaying(false)).clock.step == 0,
        m.applied(Command::SetPlaying(false)).clock.due,
        !m.applied(Command::SetPlaying(false)).playing,
        m.applied(Command::SetPlaying(false)).voices == m.voices,
        m.applied(Command::StopAll).clock.step == 0,
        !m.applied(Command::StopAll).playing,
        m.applied(Command::StopAll).voices == m.voices.all_released(),
{
}

/// Nothing sounds that was not asked to: an engine that is not playing starts no notes of its
/// own accord.
pub proof fn silent_until_told_to_play(m: EngineModel, frames: int)
    requires
        m.wf(),
        !m.playing,
    ensures
        m.begun() == m,
        m.ended(frames) == m,
{
}

/// A track with no sample, or whose slot is free, plays nothing.
pub proof fn a_track_with_no_sample_is_harmless(m: EngineModel, pattern: int, step: u16, track: int)
    requires
        m.tracks[track].sample is None || !m.tracks[track].active,
    ensures
        due_on(m.tracks, m.patterns[pattern], m.clock, step, track) == Seq::<Trigger>::empty(),
{
}

/// A deleted track, and a new one in its slot, has no notes in any pattern.
pub proof fn a_reused_slot_starts_empty(m: EngineModel, track: u16, gain: Single, p: int)
    requires
        m.wf(),
        track < MAX_TRACKS,
        0 <= p < MAX_PATTERNS,
    ensures
        m.applied(Command::RemoveTrack { track }).patterns[p].tracks[track as int].len() == 0,
        m.applied(Command::AddTrack { track, gain }).patterns[p].tracks[track as int].len() == 0,
{
    assert(m.patterns[p].wf());
}

} // verus!
