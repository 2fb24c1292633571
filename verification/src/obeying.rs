//! What each command changes, and what it leaves alone, written out field by field.

use std::sync::Arc;

use vstd::arithmetic::div_mod::{lemma_mod_self_0, lemma_small_mod};
use vstd::prelude::*;

use crate::bits::{a_bit_is_a_digit, bit, lemma_none_and_all};
use crate::clock::{
    kept, lemma_tempo, moving_on_counts_every_frame, tempo,
    the_frames_left_are_the_fewest_that_reach, ClockModel,
};
use crate::command::{Command, EngineNote};
use crate::performing::{
    a_jump_lands_every_pattern_in_step, playing_on_keeps_every_pattern_in_step,
    the_lights_show_what_sounds,
};
use crate::playing::EngineModel;
use crate::sample::Sample;
use crate::score::{note_at, notes_with, notes_without, ScoreModel};
use crate::seqs::{first_where, lemma_first_where_bounds};
use crate::single::Single;
use crate::voice::{Level, PoolModel, Stage, Trigger};
use crate::MAX_PATTERNS;

verus! {

/// The song is the same in two engines.
pub open spec fn same_song(a: EngineModel, b: EngineModel) -> bool {
    a.starts == b.starts && a.lengths == b.lengths && a.song_len == b.song_len
}

/// Two engines are playing the same thing, or are stopped, and are at the same place in it.
pub open spec fn same_place(a: EngineModel, b: EngineModel) -> bool {
    &&& a.playing == b.playing && a.song_mode == b.song_mode && a.active_pattern
        == b.active_pattern
    &&& a.clock == b.clock && a.sounding == b.sounding
    &&& a.run_step == b.run_step && a.run_left == b.run_left
}

/// The same is sounding in two engines, as loud, and they have handed back the same.
pub open spec fn same_sound(a: EngineModel, b: EngineModel) -> bool {
    a.voices == b.voices && a.master == b.master && a.handed == b.handed
}

/// Every track but one is the same in two engines.
pub open spec fn same_tracks_but(a: EngineModel, b: EngineModel, track: int) -> bool {
    &&& a.tracks.len() == b.tracks.len()
    &&& forall|t: int| 0 <= t < a.tracks.len() && t != track ==> a.tracks[t] == b.tracks[t]
}

/// Every pattern but one is the same in two engines.
pub open spec fn same_patterns_but(a: EngineModel, b: EngineModel, pattern: int) -> bool {
    &&& a.patterns.len() == b.patterns.len()
    &&& forall|p: int| 0 <= p < a.patterns.len() && p != pattern ==> a.patterns[p] == b.patterns[p]
}

/// A pattern is as long, and has the same notes and the same instruments, on every track but one.
pub open spec fn same_notes_but(a: ScoreModel, b: ScoreModel, track: int) -> bool {
    &&& a.steps == b.steps
    &&& a.tracks.len() == b.tracks.len()
    &&& forall|t: int|
        0 <= t < a.tracks.len() && t != track ==> a.tracks[t] == b.tracks[t] && bit(
            a.pitched,
            t as u32,
        ) == bit(b.pitched, t as u32)
}

/// A gain as the engine keeps it: from nought to two, and what is not a number as it is.
pub open spec fn held_gain(asked: Single, got: Single) -> bool {
    if asked.nan() {
        got == asked
    } else if asked.bits > 0x8000_0000 {
        got.bits == 0
    } else if 0x4000_0000 < asked.bits < 0x8000_0000 {
        got.bits == 0x4000_0000
    } else {
        got == asked
    }
}

/// A new track is there, at its gain already, neither muted nor soloed, with no notes and no
/// instrument in any pattern, and with whatever sample was put in its slot.
#[verifier::rlimit(50)]
pub proof fn a_new_track_takes_its_slot(m: EngineModel, track: u16, gain: Single)
    requires
        m.wf(),
        track < 32,
    ensures
        ({
            let now = m.applied(Command::AddTrack { track, gain });
            let t = now.tracks[track as int];
            &&& t.active && t.jump && !t.muted && !t.soloed
            &&& held_gain(gain, t.target_gain)
            &&& t.sample == m.tracks[track as int].sample
            &&& same_tracks_but(m, now, track as int)
            &&& now.patterns.len() == 32
            &&& forall|p: int|
                0 <= p < 32 ==> same_notes_but(m.patterns[p], #[trigger] now.patterns[p], track as int)
                    && now.patterns[p].tracks[track as int].len() == 0 && !bit(
                    now.patterns[p].pitched,
                    track as u32,
                )
            &&& same_song(m, now) && same_place(m, now) && same_sound(m, now)
        }),
{
    let now = m.applied(Command::AddTrack { track, gain });
    assert forall|p: int| 0 <= p < 32 implies same_notes_but(
        m.patterns[p],
        #[trigger] now.patterns[p],
        track as int,
    ) && now.patterns[p].tracks[track as int].len() == 0 && !bit(
        now.patterns[p].pitched,
        track as u32,
    ) by {
        assert(m.patterns[p].wf());
        a_bit_is_a_digit(m.patterns[p].pitched, track as u32);
    }
}

/// A track that is taken out is gone from its slot and from every pattern; what was playing it
/// fades out, with nothing waiting behind it.
#[verifier::rlimit(50)]
pub proof fn a_track_taken_out_is_gone(m: EngineModel, track: u16)
    requires
        m.wf(),
        track < 32,
    ensures
        ({
            let now = m.applied(Command::RemoveTrack { track });
            let t = now.tracks[track as int];
            let was = m.tracks[track as int];
            &&& !t.active && t.sample is None
            &&& t.target_gain == was.target_gain && t.jump == was.jump && t.muted == was.muted
                && t.soloed == was.soloed
            &&& same_tracks_but(m, now, track as int)
            &&& now.patterns.len() == 32
            &&& forall|p: int|
                0 <= p < 32 ==> same_notes_but(m.patterns[p], #[trigger] now.patterns[p], track as int)
                    && now.patterns[p].tracks[track as int].len() == 0 && !bit(
                    now.patterns[p].pitched,
                    track as u32,
                )
            &&& same_song(m, now) && same_place(m, now) && m.master == now.master
            &&& faded_on(m, now, track)
        }),
{
    let now = m.applied(Command::RemoveTrack { track });
    assert forall|p: int| 0 <= p < 32 implies same_notes_but(
        m.patterns[p],
        #[trigger] now.patterns[p],
        track as int,
    ) && now.patterns[p].tracks[track as int].len() == 0 && !bit(
        now.patterns[p].pitched,
        track as u32,
    ) by {
        assert(m.patterns[p].wf());
        a_bit_is_a_digit(m.patterns[p].pitched, track as u32);
    }
}

/// Every voice on a track is fading out or free, with nothing waiting for it, and otherwise as it
/// was; every other voice is just as it was.
pub open spec fn faded_on(m: EngineModel, now: EngineModel, track: u16) -> bool {
    &&& now.voices.voices.len() == m.voices.voices.len()
    &&& now.voices.next_age == m.voices.next_age
    &&& forall|i: int|
        0 <= i < m.voices.voices.len() ==> {
            let v = m.voices.voices[i];
            let w = #[trigger] now.voices.voices[i];
            if v.track != track {
                w == v
            } else {
                &&& w.stage == (if v.stage == Stage::Idle {
                    Stage::Idle
                } else {
                    Stage::Releasing
                })
                &&& w.pending is None
                &&& w.sample == v.sample && w.track == v.track && w.pitch == v.pitch
                &&& w.level == v.level && w.hold == v.hold && w.env == v.env
                &&& w.age == v.age && w.pending_age == v.pending_age
            }
        }
}

/// A track's new sample is in its slot; the old one was let go of, and nothing else about the track
/// has changed. A sample for a slot that there is none of is handed back.
#[verifier::rlimit(50)]
pub proof fn a_new_sample_is_in_its_slot(m: EngineModel, track: u16, sample: Option<Arc<Sample>>)
    requires
        m.wf(),
    ensures
        ({
            let now = m.applied(Command::SetTrackSample { track, sample });
            &&& track < 32 ==> {
                let t = now.tracks[track as int];
                let was = m.tracks[track as int];
                &&& t.sample == sample
                &&& t.active == was.active && t.target_gain == was.target_gain && t.jump
                    == was.jump && t.muted == was.muted && t.soloed == was.soloed
                &&& same_tracks_but(m, now, track as int)
                &&& match was.sample {
                    Some(old) => now.handed.len() > 0 && now.handed.last() == old,
                    None => true,
                }
            }
            &&& track >= 32 ==> {
                &&& now.tracks == m.tracks
                &&& match sample {
                    Some(s) => now.handed.len() > 0 && now.handed.last() == s,
                    None => true,
                }
            }
            &&& now.patterns == m.patterns
            &&& same_song(m, now) && same_place(m, now) && m.master == now.master
            &&& faded_on(m, now, track)
        }),
{
}

/// A track's fader, its mute and its solo are what they were set to, and nothing else changes. A
/// fader is slid to rather than jumped to.
#[verifier::rlimit(50)]
pub proof fn a_track_is_what_it_was_set_to(m: EngineModel, track: u16, gain: Single, on: bool)
    requires
        m.wf(),
        track < 32,
    ensures
        ({
            let now = m.applied(Command::SetTrackGain { track, gain });
            let (t, was) = (now.tracks[track as int], m.tracks[track as int]);
            &&& held_gain(gain, t.target_gain)
            &&& t.active == was.active && t.sample == was.sample && t.jump == was.jump && t.muted
                == was.muted && t.soloed == was.soloed
            &&& same_tracks_but(m, now, track as int) && now.patterns == m.patterns
            &&& same_song(m, now) && same_place(m, now) && same_sound(m, now)
        }),
        ({
            let now = m.applied(Command::SetTrackMuted { track, muted: on });
            let (t, was) = (now.tracks[track as int], m.tracks[track as int]);
            &&& t.muted == on
            &&& t.active == was.active && t.sample == was.sample && t.jump == was.jump
                && t.target_gain == was.target_gain && t.soloed == was.soloed
            &&& same_tracks_but(m, now, track as int) && now.patterns == m.patterns
            &&& same_song(m, now) && same_place(m, now) && same_sound(m, now)
        }),
        ({
            let now = m.applied(Command::SetTrackSoloed { track, soloed: on });
            let (t, was) = (now.tracks[track as int], m.tracks[track as int]);
            &&& t.soloed == on
            &&& t.active == was.active && t.sample == was.sample && t.jump == was.jump
                && t.target_gain == was.target_gain && t.muted == was.muted
            &&& same_tracks_but(m, now, track as int) && now.patterns == m.patterns
            &&& same_song(m, now) && same_place(m, now) && same_sound(m, now)
        }),
{
}

/// The master fader is what it was set to, from nought to two, and nothing else changes.
pub proof fn the_master_is_what_it_was_set_to(m: EngineModel, gain: Single)
    requires
        m.wf(),
    ensures
        ({
            let now = m.applied(Command::SetMasterGain(gain));
            &&& held_gain(gain, now.master)
            &&& now.tracks == m.tracks && now.patterns == m.patterns
            &&& same_song(m, now) && same_place(m, now)
            &&& now.voices == m.voices && now.handed == m.handed
        }),
{
}

/// Notes with one put in: it is there, every note at another step or pitch is too, and there is
/// nothing more. A list of two hundred and fifty six takes a note only in place of another.
#[verifier::rlimit(50)]
pub proof fn a_note_put_in_is_there(notes: Seq<EngineNote>, note: EngineNote)
    ensures
        ({
            let now = notes_with(notes, note);
            let there = exists|i: int|
                0 <= i < notes.len() && (#[trigger] notes[i]).step == note.step && notes[i].pitch
                    == note.pitch;
            &&& there || notes.len() < 256 ==> now.contains(note)
            &&& there ==> now.len() == notes.len()
            &&& !there && notes.len() < 256 ==> now.len() == notes.len() + 1
            &&& !there && notes.len() >= 256 ==> now == notes
            &&& forall|n: EngineNote|
                !(n.step == note.step && n.pitch == note.pitch) ==> (#[trigger] now.contains(n)
                    <==> notes.contains(n))
        }),
{
    let at = note_at(note.step, note.pitch);
    let i = first_where(notes, at);
    let now = notes_with(notes, note);
    lemma_first_where_bounds(notes, at);
    if i < notes.len() {
        assert(at(notes[i]));
        assert(now[i] == note);
    } else if notes.len() < 256 {
        assert(now[notes.len() as int] == note);
    }
    assert forall|n: EngineNote| !(n.step == note.step && n.pitch == note.pitch) implies (
    #[trigger] now.contains(n) <==> notes.contains(n)) by {
        if notes.contains(n) {
            let k = choose|k: int| 0 <= k < notes.len() && notes[k] == n;
            assert(now[k] == n);
        }
        if now.contains(n) {
            let k = choose|k: int| 0 <= k < now.len() && now[k] == n;
            assert(notes[k] == n);
        }
    }
}

/// Notes with one taken out, of a list that has no two at one step and pitch: it is gone, and every
/// other is there still, and nothing more.
#[verifier::rlimit(50)]
pub proof fn a_note_taken_out_is_gone(notes: Seq<EngineNote>, step: u16, pitch: u8)
    requires
        forall|i: int, j: int|
            0 <= i < j < notes.len() ==> !((#[trigger] notes[i]).step == (
            #[trigger] notes[j]).step && notes[i].pitch == notes[j].pitch),
    ensures
        forall|n: EngineNote| #[trigger]
            notes_without(notes, step, pitch).contains(n) <==> notes.contains(n) && !(n.step == step
                && n.pitch == pitch),
{
    let at = note_at(step, pitch);
    let i = first_where(notes, at);
    let now = notes_without(notes, step, pitch);
    lemma_first_where_bounds(notes, at);
    assert forall|n: EngineNote| #[trigger]
        now.contains(n) <==> notes.contains(n) && !(n.step == step && n.pitch == pitch) by {
        if now.contains(n) {
            let k = choose|k: int| 0 <= k < now.len() && now[k] == n;
            if i < notes.len() && k == i {
                assert(notes[notes.len() - 1] == n);
                assert(at(notes[i]));
            } else {
                assert(notes[k] == n);
                if i < notes.len() {
                    assert(at(notes[i]));
                } else {
                    assert(!at(notes[k]));
                }
            }
        }
        if notes.contains(n) && !(n.step == step && n.pitch == pitch) {
            let k = choose|k: int| 0 <= k < notes.len() && notes[k] == n;
            if i < notes.len() {
                assert(at(notes[i]));
                if k == notes.len() - 1 {
                    assert(now[i] == n);
                } else {
                    assert(now[k] == n);
                }
            } else {
                assert(now[k] == n);
            }
        }
    }
}

/// A command about notes changes the notes of its own track in its own pattern, in the way
/// [`a_note_put_in_is_there`] and [`a_note_taken_out_is_gone`] say, and nothing else.
#[verifier::rlimit(50)]
pub proof fn a_note_goes_where_it_is_sent(
    m: EngineModel,
    pattern: u16,
    track: u16,
    note: EngineNote,
    step: u16,
    pitch: u8,
)
    requires
        m.wf(),
        pattern < 32,
        track < 32,
    ensures
        ({
            let now = m.applied(Command::SetNote { pattern, track, note });
            let (p, t) = (pattern as int, track as int);
            &&& now.patterns[p].tracks[t] == notes_with(m.patterns[p].tracks[t], note)
            &&& now.patterns[p].pitched == m.patterns[p].pitched
            &&& same_notes_but(m.patterns[p], now.patterns[p], t)
            &&& same_patterns_but(m, now, p) && now.tracks == m.tracks
            &&& same_song(m, now) && same_place(m, now) && same_sound(m, now)
        }),
        ({
            let now = m.applied(Command::ClearNote { pattern, track, step, pitch });
            let (p, t) = (pattern as int, track as int);
            &&& now.patterns[p].tracks[t] == notes_without(m.patterns[p].tracks[t], step, pitch)
            &&& now.patterns[p].pitched == m.patterns[p].pitched
            &&& same_notes_but(m.patterns[p], now.patterns[p], t)
            &&& same_patterns_but(m, now, p) && now.tracks == m.tracks
            &&& same_song(m, now) && same_place(m, now) && same_sound(m, now)
        }),
        ({
            let now = m.applied(Command::ClearNotes { pattern, track });
            let (p, t) = (pattern as int, track as int);
            &&& now.patterns[p].tracks[t].len() == 0
            &&& now.patterns[p].pitched == m.patterns[p].pitched
            &&& same_notes_but(m.patterns[p], now.patterns[p], t)
            &&& same_patterns_but(m, now, p) && now.tracks == m.tracks
            &&& same_song(m, now) && same_place(m, now) && same_sound(m, now)
        }),
{
    assert(m.patterns[pattern as int].wf());
}

/// A track is an instrument in a pattern once it is made one there, and not once it is made a
/// one-shot again. Nothing else changes.
pub proof fn an_instrument_is_one_where_it_was_made_one(
    m: EngineModel,
    pattern: u16,
    track: u16,
    pitched: bool,
)
    requires
        m.wf(),
        pattern < 32,
        track < 32,
    ensures
        ({
            let now = m.applied(Command::SetPatternPitched { pattern, track, pitched });
            let p = pattern as int;
            &&& bit(now.patterns[p].pitched, track as u32) == pitched
            &&& now.patterns[p].tracks == m.patterns[p].tracks
            &&& same_notes_but(m.patterns[p], now.patterns[p], track as int)
            &&& same_patterns_but(m, now, p) && now.tracks == m.tracks
            &&& same_song(m, now) && same_place(m, now) && same_sound(m, now)
        }),
{
    a_bit_is_a_digit(m.patterns[pattern as int].pitched, track as u32);
}

/// A pattern that is emptied keeps its length and nothing else; no other pattern is touched.
pub proof fn an_emptied_pattern_keeps_its_length(m: EngineModel, pattern: u16)
    requires
        m.wf(),
        pattern < 32,
    ensures
        ({
            let now = m.applied(Command::ClearPattern { pattern });
            let p = pattern as int;
            &&& now.patterns[p].steps == m.patterns[p].steps
            &&& now.patterns[p].tracks.len() == 32
            &&& forall|t: int|
                0 <= t < 32 ==> (#[trigger] now.patterns[p].tracks[t]).len() == 0 && !bit(
                    now.patterns[p].pitched,
                    t as u32,
                )
            &&& same_patterns_but(m, now, p) && now.tracks == m.tracks
            &&& same_song(m, now) && same_place(m, now) && same_sound(m, now)
        }),
{
    lemma_none_and_all();
}

/// The clock, once what is playing may have another length: it counts that length, and stays where
/// it is unless that is past the end, which takes it to the top with that step due.
pub open spec fn clock_counts(m: EngineModel, now: EngineModel, steps: int) -> bool {
    &&& now.clock.steps == steps
    &&& m.clock.step < steps ==> now.clock.step == m.clock.step && now.clock.due == m.clock.due
    &&& m.clock.step >= steps ==> now.clock.step == 0 && now.clock.due
    &&& now.clock.ticks == m.clock.ticks && now.clock.wrapped == m.clock.wrapped
    &&& now.clock.rate == m.clock.rate && now.clock.bpm == m.clock.bpm
}

/// A pattern's length is what it was set to, from one to two hundred and fifty six. When it is what
/// is playing the clock counts that at once. Its notes stay as they were.
pub proof fn a_pattern_is_as_long_as_it_was_made(m: EngineModel, pattern: u16, steps: u32)
    requires
        m.wf(),
        pattern < 32,
    ensures
        ({
            let now = m.applied(Command::SetPatternSteps { pattern, steps });
            let p = pattern as int;
            let held = if steps < 1 {
                1
            } else if steps > 256 {
                256
            } else {
                steps as int
            };
            &&& now.patterns[p].steps == held
            &&& now.patterns[p].pitched == m.patterns[p].pitched
            &&& now.patterns[p].tracks == m.patterns[p].tracks
            &&& same_patterns_but(m, now, p) && now.tracks == m.tracks
            &&& !m.song_mode && p == m.active_pattern ==> clock_counts(m, now, held)
            &&& m.song_mode || p != m.active_pattern ==> now.clock == m.clock
            &&& same_song(m, now) && same_sound(m, now)
            &&& now.playing == m.playing && now.song_mode == m.song_mode
            &&& now.active_pattern == m.active_pattern && now.sounding == m.sounding
            &&& now.run_step == m.run_step && now.run_left == m.run_left
        }),
{
}

/// The pattern that is opened is the one that loops, and the clock counts it, outside the song.
/// Inside it the clock goes on as it was.
pub proof fn the_open_pattern_is_the_one_that_loops(m: EngineModel, pattern: u16)
    requires
        m.wf(),
        pattern < 32,
    ensures
        ({
            let now = m.applied(Command::SetActivePattern(pattern));
            &&& now.active_pattern == pattern
            &&& !m.song_mode ==> clock_counts(m, now, m.patterns[pattern as int].steps as int)
            &&& m.song_mode ==> now.clock == m.clock
            &&& now.tracks == m.tracks && now.patterns == m.patterns
            &&& same_song(m, now) && same_sound(m, now)
            &&& now.playing == m.playing && now.song_mode == m.song_mode && now.sounding
                == m.sounding
            &&& now.run_step == m.run_step && now.run_left == m.run_left
        }),
{
}

/// The song is as long as it is said to be, and four thousand and ninety six steps at the most.
pub proof fn the_song_is_as_long_as_it_is_said_to_be(m: EngineModel, len: u32)
    requires
        m.wf(),
    ensures
        ({
            let now = m.applied(Command::SetSongLen(len));
            let held = if len > 4096 {
                4096
            } else {
                len as int
            };
            &&& now.song_len == held
            &&& m.song_mode ==> clock_counts(m, now, if held < 1 { 1 } else { held })
            &&& !m.song_mode ==> now.clock == m.clock
            &&& now.tracks == m.tracks && now.patterns == m.patterns
            &&& now.starts == m.starts && now.lengths == m.lengths && same_sound(m, now)
            &&& now.playing == m.playing && now.song_mode == m.song_mode && now.sounding
                == m.sounding
            &&& now.active_pattern == m.active_pattern
            &&& now.run_step == m.run_step && now.run_left == m.run_left
        }),
{
}

/// A block put down starts at its step, for as many steps as it is long: one at the least and four
/// thousand and ninety six at the most. Every other place in the song is as it was.
#[verifier::rlimit(50)]
pub proof fn a_block_put_down_is_there(m: EngineModel, pattern: u16, step: u32, length: u32)
    requires
        m.wf(),
        pattern < 32,
        step < 4096,
    ensures
        ({
            let now = m.applied(Command::PlacePattern { pattern, step, length });
            let held = if length < 1 {
                1
            } else if length > 4096 {
                4096
            } else {
                length as int
            };
            &&& bit(now.starts[step as int], pattern as u32)
            &&& now.lengths[step * 32 + pattern] == held
            &&& elsewhere(m, now, step as int, pattern as int)
            &&& now.song_len == m.song_len
            &&& now.tracks == m.tracks && now.patterns == m.patterns
            &&& same_place(m, now) && same_sound(m, now)
        }),
{
    a_bit_is_a_digit(m.starts[step as int], pattern as u32);
}

/// A block taken up no longer starts at its step. Every other place in the song is as it was.
#[verifier::rlimit(50)]
pub proof fn a_block_taken_up_is_gone(m: EngineModel, pattern: u16, step: u32)
    requires
        m.wf(),
        pattern < 32,
        step < 4096,
    ensures
        ({
            let now = m.applied(Command::UnplacePattern { pattern, step });
            &&& !bit(now.starts[step as int], pattern as u32)
            &&& now.lengths[step * 32 + pattern] == 0
            &&& elsewhere(m, now, step as int, pattern as int)
            &&& now.song_len == m.song_len
            &&& now.tracks == m.tracks && now.patterns == m.patterns
            &&& same_place(m, now) && same_sound(m, now)
        }),
{
    a_bit_is_a_digit(m.starts[step as int], pattern as u32);
}

/// Two engines have the same in the song everywhere but where a step and a pattern meet.
pub open spec fn elsewhere(m: EngineModel, now: EngineModel, step: int, pattern: int) -> bool {
    &&& now.starts.len() == m.starts.len() && now.lengths.len() == m.lengths.len()
    &&& forall|s: int, p: int|
        0 <= s < 4096 && 0 <= p < 32 && !(s == step && p == pattern) ==> (#[trigger] bit(
            now.starts[s],
            p as u32,
        ) == bit(m.starts[s], p as u32) && now.lengths[s * 32 + p] == m.lengths[s * 32 + p])
}

/// A cleared song has no blocks and no length, and nothing of it goes on sounding.
#[verifier::rlimit(50)]
pub proof fn a_cleared_song_has_nothing_in_it(m: EngineModel)
    requires
        m.wf(),
    ensures
        ({
            let now = m.applied(Command::ClearSong);
            &&& now.song_len == 0
            &&& forall|s: int, p: int|
                0 <= s < 4096 && 0 <= p < 32 ==> !(#[trigger] bit(now.starts[s], p as u32))
                    && now.lengths[s * 32 + p] == 0
            &&& forall|p: int| 0 <= p < 32 ==> (#[trigger] now.run_left[p]) == 0
            &&& now.run_step == m.run_step
            &&& m.song_mode ==> clock_counts(m, now, 1)
            &&& !m.song_mode ==> now.clock == m.clock
            &&& now.tracks == m.tracks && now.patterns == m.patterns && same_sound(m, now)
            &&& now.playing == m.playing && now.song_mode == m.song_mode && now.sounding
                == m.sounding
            &&& now.active_pattern == m.active_pattern
        }),
{
    lemma_none_and_all();
}

/// A tempo is kept from twenty to four hundred, and one that is not a number changes nothing.
pub proof fn a_tempo_is_kept(m: EngineModel, bpm: Single)
    requires
        m.wf(),
    ensures
        ({
            let now = m.applied(Command::SetBpm(bpm));
            &&& bpm.nan() ==> now == m
            &&& !bpm.nan() ==> now.clock.bpm.bits == (if bpm.bits < 0x41a0_0000 || bpm.bits
                >= 0x8000_0000 {
                0x41a0_0000
            } else if bpm.bits > 0x43c8_0000 {
                0x43c8_0000
            } else {
                bpm.bits as int
            })
            &&& now.clock.step == m.clock.step && now.clock.steps == m.clock.steps
            &&& now.clock.rate == m.clock.rate && now.clock.due == m.clock.due
            &&& now.clock.wrapped == m.clock.wrapped
            &&& now.tracks == m.tracks && now.patterns == m.patterns
            &&& same_song(m, now) && same_sound(m, now)
            &&& now.playing == m.playing && now.song_mode == m.song_mode && now.sounding
                == m.sounding
            &&& now.active_pattern == m.active_pattern
            &&& now.run_step == m.run_step && now.run_left == m.run_left
        }),
{
}

// --- the transport ------------------------------------------------------------------

/// An engine at the start of a step of what is playing, with it due; and in the song, with every
/// pattern as far into its block as it is there.
pub open spec fn stands_at(m: EngineModel, step: int) -> bool {
    &&& m.clock.step == step && m.clock.ticks == 0 && m.clock.due && !m.clock.wrapped
    &&& m.song_mode ==> m.in_step(step)
}

/// Two engines hold the same project and the same sound, whatever they are playing and wherever
/// they are in it.
pub open spec fn holds_the_same(a: EngineModel, b: EngineModel) -> bool {
    &&& a.tracks == b.tracks && a.patterns == b.patterns && same_song(a, b)
    &&& a.master == b.master && a.active_pattern == b.active_pattern && a.sounding == b.sounding
    &&& a.clock.rate == b.clock.rate && a.clock.bpm == b.clock.bpm
}

proof fn lemma_stands(m: EngineModel, step: u32)
    requires
        m.wf(),
    ensures
        ({
            let now = m.jumped(step);
            &&& stands_at(
                now,
                if step < m.playing_steps() {
                    step as int
                } else {
                    m.playing_steps() - 1
                },
            )
            &&& holds_the_same(m, now) && same_sound(m, now)
            &&& now.playing == m.playing && now.song_mode == m.song_mode
            &&& now.clock.steps == m.playing_steps()
        }),
{
    let tuned = m.tuned();
    let there = EngineModel { clock: tuned.clock.jumped(step), ..tuned };
    assert(m.patterns[m.active_pattern].wf());
    if m.song_mode {
        a_jump_lands_every_pattern_in_step(there);
    }
}

/// Starting plays on from wherever the engine is. Stopping, or going back, takes it to the top,
/// ready to play it, and leaves what is ringing to ring.
pub proof fn play_stop_and_back(m: EngineModel)
    requires
        m.wf(),
    ensures
        ({
            let now = m.applied(Command::SetPlaying(true));
            &&& now.playing && now.song_mode == m.song_mode
            &&& now.clock == m.clock && now.run_step == m.run_step && now.run_left == m.run_left
            &&& holds_the_same(m, now) && same_sound(m, now)
        }),
        ({
            let now = m.applied(Command::SetPlaying(false));
            &&& !now.playing && now.song_mode == m.song_mode
            &&& stands_at(now, 0)
            &&& holds_the_same(m, now) && same_sound(m, now)
        }),
        ({
            let now = m.applied(Command::Rewind);
            &&& now.playing == m.playing && now.song_mode == m.song_mode
            &&& stands_at(now, 0)
            &&& holds_the_same(m, now) && same_sound(m, now)
        }),
{
    lemma_stands(m, 0);
    lemma_stands(EngineModel { playing: false, ..m }, 0);
}

/// A seek goes to the step asked for of what is playing, or to the last there is, ready to play it.
pub proof fn a_seek_goes_there(m: EngineModel, step: u32)
    requires
        m.wf(),
    ensures
        ({
            let now = m.applied(Command::SeekSong(step));
            &&& stands_at(
                now,
                if step < m.clock.steps {
                    step as int
                } else {
                    m.clock.steps - 1
                },
            )
            &&& now.playing == m.playing && now.song_mode == m.song_mode
            &&& holds_the_same(m, now) && same_sound(m, now)
        }),
{
    lemma_stands(m, step);
}

/// Going over to the song, or back to the pattern that is open, starts at the top of it.
pub proof fn going_over_starts_at_the_top(m: EngineModel, on: bool)
    requires
        m.wf(),
    ensures
        ({
            let now = m.applied(Command::SetSongMode(on));
            &&& now.song_mode == on && now.playing == m.playing
            &&& stands_at(now, 0)
            &&& now.clock.steps == (if !on {
                m.patterns[m.active_pattern].steps
            } else if m.song_len < 1 {
                1
            } else {
                m.song_len
            })
            &&& holds_the_same(m, now) && same_sound(m, now)
        }),
{
    let over = EngineModel { song_mode: on, ..m };
    let tuned = over.tuned();
    let there = EngineModel { clock: tuned.clock.jumped(0), ..tuned };
    assert(m.patterns[m.active_pattern].wf());
    if on {
        a_jump_lands_every_pattern_in_step(there);
    }
}

/// The panic button stops, goes to the top, and fades out every voice, with nothing waiting behind
/// any.
#[verifier::rlimit(50)]
pub proof fn the_panic_button_stops_everything(m: EngineModel)
    requires
        m.wf(),
    ensures
        ({
            let now = m.applied(Command::StopAll);
            &&& !now.playing && now.song_mode == m.song_mode
            &&& stands_at(now, 0)
            &&& holds_the_same(m, now)
            &&& now.voices.voices.len() == m.voices.voices.len()
            &&& now.voices.next_age == m.voices.next_age
            &&& forall|i: int|
                0 <= i < m.voices.voices.len() ==> {
                    let v = m.voices.voices[i];
                    let w = #[trigger] now.voices.voices[i];
                    &&& w.stage == (if v.stage == Stage::Idle {
                        Stage::Idle
                    } else {
                        Stage::Releasing
                    })
                    &&& w.pending is None
                    &&& w.sample == v.sample && w.track == v.track && w.pitch == v.pitch
                    &&& w.level == v.level && w.hold == v.hold && w.env == v.env
                    &&& w.age == v.age && w.pending_age == v.pending_age
                }
        }),
{
    lemma_stands(EngineModel { playing: false, ..m }, 0);
    let quiet = EngineModel { playing: false, ..m }.jumped(0);
    let now = m.applied(Command::StopAll);
    assert(now.run_step == quiet.run_step && now.run_left == quiet.run_left);
    if m.song_mode {
        lemma_in_step_same(quiet, now, 0);
    }
}

/// Whether every pattern is in its place depends on the song and on where each has got to.
proof fn lemma_in_step_same(a: EngineModel, b: EngineModel, step: int)
    requires
        a.starts == b.starts,
        a.lengths == b.lengths,
        a.song_mode == b.song_mode,
        a.run_step == b.run_step,
        a.run_left == b.run_left,
        a.in_step(step),
        step >= 0,
    ensures
        b.in_step(step),
{
    assert forall|p: int| 0 <= p < MAX_PATTERNS implies ({
        let there = #[trigger] b.entering(step, p);
        let due = b.run_at(p, step);
        there.1 == due.1 && (due.1 > 0 ==> there.0 == due.0)
    }) by {
        assert(a.entering(step, p) == b.entering(step, p));
        lemma_nearest_same(a, b, p, step);
    }
}

proof fn lemma_nearest_same(a: EngineModel, b: EngineModel, pattern: int, step: int)
    requires
        a.starts == b.starts,
        a.lengths == b.lengths,
        a.song_mode == b.song_mode,
        step >= -1,
    ensures
        a.nearest_start(pattern, step) == b.nearest_start(pattern, step),
        a.run_at(pattern, step) == b.run_at(pattern, step),
    decreases step + 1,
{
    if step >= 0 && !a.starts_at(step, pattern) {
        lemma_nearest_same(a, b, pattern, step - 1);
    }
}

/// In the song, every pattern is where it should be: as the step that is due begins, or, once that
/// has been played, as the next one will.
pub open spec fn keeps_step(m: EngineModel) -> bool {
    m.song_mode ==> if m.clock.due {
        m.in_step(m.clock.step as int)
    } else {
        m.clock.step + 1 < m.clock.steps ==> m.in_step(m.clock.step + 1)
    }
}

/// A song that is playing keeps every pattern in its place, step after step and round to the top:
/// playing the step that is due keeps it, and so does moving on by no more frames than there are
/// before the next. A frame is to be shorter than a step, as it is on anything that plays sound.
#[verifier::rlimit(50)]
pub proof fn the_song_keeps_step(m: EngineModel, wanted: int)
    requires
        m.wf(),
        keeps_step(m),
        !m.clock.wrapped,
        tempo(m.clock.bpm) < m.clock.rate * 0x78_0000,
        wanted >= 1,
    ensures
        keeps_step(m.begun()),
        keeps_step(m.begun().ended(m.begun().block(wanted))),
{
    let begun = m.begun();
    let frames = begun.block(wanted);
    if m.playing && m.clock.due {
        let taken = EngineModel { clock: m.clock.taken(), ..m };
        if m.song_mode {
            lemma_in_step_same(m, taken, m.clock.step as int);
            if m.clock.step + 1 < m.clock.steps {
                playing_on_keeps_every_pattern_in_step(taken, m.clock.step);
            }
        }
    }
    assert(keeps_step(begun));
    if begun.playing && begun.song_mode {
        the_frames_left_are_the_fewest_that_reach(begun.clock);
        moving_on_counts_every_frame(begun.clock, frames);
        lemma_one_step_at_most(begun.clock, frames);
        let clock = begun.clock.advanced(frames);
        let on = EngineModel { clock: clock.unwrapped(), ..begun };
        if clock.wrapped {
            lemma_resynced_in_step(on);
        } else if begun.clock.steps_gone(frames) == 1 {
            lemma_in_step_same(begun, on, begun.clock.step + 1);
        } else {
            if begun.clock.step + 1 < begun.clock.steps {
                lemma_in_step_same(begun, on, begun.clock.step + 1);
            }
        }
    }
}

proof fn lemma_one_step_at_most(c: ClockModel, frames: int)
    requires
        c.wf(),
        1 <= frames <= c.frames_left(),
        tempo(c.bpm) < c.rate * 0x78_0000,
    ensures
        0 <= c.steps_gone(frames) <= 1,
        c.step + c.steps_gone(frames) >= c.steps ==> c.advanced(frames).step == 0,
        c.step + c.steps_gone(frames) < c.steps ==> c.advanced(frames).step == c.step
            + c.steps_gone(frames),
{
    the_frames_left_are_the_fewest_that_reach(c);
    moving_on_counts_every_frame(c, frames);
    lemma_tempo(c.bpm);
    let f = c.frames_left();
    let each = tempo(c.bpm);
    let length = c.rate * 0x78_0000;
    let gone = c.steps_gone(frames);
    assert(frames * each <= (f - 1) * each + each) by (nonlinear_arith)
        requires
            frames <= f,
            each > 0,
    ;
    if f == 1 {
        assert((f - 1) * each == 0) by (nonlinear_arith)
            requires
                f == 1,
        ;
    }
    assert(gone < 2) by (nonlinear_arith)
        requires
            gone * length < 2 * length,
            length > 0,
    ;
    if c.step + gone < c.steps {
        lemma_small_mod((c.step + gone) as nat, c.steps as nat);
    } else {
        assert(c.step + gone == c.steps);
        lemma_mod_self_0(c.steps as int);
    }
}

/// Finding every pattern's place puts every pattern in it.
proof fn lemma_resynced_in_step(m: EngineModel)
    requires
        m.song_mode,
    ensures
        m.resynced().in_step(m.clock.step as int),
{
    let after = m.resynced();
    let now = m.clock.step as int;
    assert forall|p: int| 0 <= p < MAX_PATTERNS implies ({
        let there = #[trigger] after.entering(now, p);
        let due = after.run_at(p, now);
        there.1 == due.1 && (due.1 > 0 ==> there.0 == due.0)
    }) by {
        lemma_nearest_same(m, after, p, now);
        assert(after.run_step[p] == m.run_at(p, now).0);
        assert(after.run_left[p] == m.run_at(p, now).1);
        if after.starts_at(now, p) {
            assert(m.nearest_start(p, now) == now);
        }
    }
}

// --- what is heard -------------------------------------------------------------------

/// Hearing a track plays its sample at once, at the pitch and strength asked for, and lets it ring.
/// A track with no sample, or that there is no slot for, gives nothing to hear.
pub proof fn hearing_a_track_plays_its_sample(m: EngineModel, track: u16, pitch: u8, velocity: u8)
    requires
        m.wf(),
    ensures
        ({
            let now = m.applied(Command::Audition { track, pitch, velocity });
            &&& track >= 32 || m.tracks[track as int].sample is None ==> now == m
            &&& track < 32 ==> match m.tracks[track as int].sample {
                Some(sample) => {
                    let t = Trigger {
                        sample,
                        track,
                        pitch,
                        level: Level::Velocity(velocity),
                        hold: None,
                    };
                    &&& now.voices == m.voices.triggered(t)
                    &&& now.handed == m.handed + m.voices.turned_away(t)
                },
                None => true,
            }
            &&& now.tracks == m.tracks && now.patterns == m.patterns && now.master == m.master
            &&& same_song(m, now) && same_place(m, now)
        }),
{
}

/// Hearing a sample from the browser plays it at once, at its own pitch and the gain asked for, on
/// no track, and lets it ring.
pub proof fn hearing_a_sample_plays_it(m: EngineModel, sample: Arc<Sample>, gain: Single)
    requires
        m.wf(),
    ensures
        ({
            let now = m.applied(Command::Preview { sample, gain });
            let t = Trigger { sample, track: 65535, pitch: 60, level: Level::Gain(gain), hold: None };
            &&& now.voices == m.voices.triggered(t)
            &&& now.handed == m.handed + m.voices.turned_away(t)
            &&& now.tracks == m.tracks && now.patterns == m.patterns && now.master == m.master
            &&& same_song(m, now) && same_place(m, now)
        }),
{
}

/// Commands take effect one after another, in the order they came: none of them does nothing, and
/// one more after some does what it does to what they left.
pub proof fn commands_take_effect_in_turn(m: EngineModel, commands: Seq<Command>, command: Command)
    ensures
        m.all_applied(Seq::empty()) == m,
        m.all_applied(seq![command]) == m.applied(command),
        m.all_applied(commands.push(command)) == m.all_applied(commands).applied(command),
{
    assert(seq![command].drop_last() =~= Seq::<Command>::empty());
    assert(commands.push(command).drop_last() =~= commands);
}

/// What a track is heard at: nothing while its slot is free; while some track that is there is
/// soloed, its fader if it is too and nothing if it is not; and otherwise its fader unless it is
/// muted.
pub proof fn what_a_track_is_heard_at(m: EngineModel, t: int, solo: int)
    requires
        m.wf(),
        0 <= t < 32,
    ensures
        !m.tracks[t].active ==> m.heading(t).bits == 0,
        m.tracks[t].active && m.tracks[t].soloed ==> m.heading(t) == m.tracks[t].target_gain,
        0 <= solo < 32 && m.tracks[solo].active && m.tracks[solo].soloed && !m.tracks[t].soloed
            ==> m.heading(t).bits == 0,
        m.tracks[t].active && (forall|u: int|
            0 <= u < 32 ==> !((#[trigger] m.tracks[u]).active && m.tracks[u].soloed)) ==> m.heading(
            t,
        ) == (if m.tracks[t].muted {
            Single { bits: 0 }
        } else {
            m.tracks[t].target_gain
        }),
{
}

// --- a step ---------------------------------------------------------------------------

/// A step that is due is played, once, and only while the engine is playing.
pub proof fn a_step_is_played_once(m: EngineModel)
    requires
        m.wf(),
    ensures
        ({
            let now = m.begun();
            &&& !m.playing || !m.clock.due ==> now == m
            &&& m.playing && m.clock.due ==> {
                let told = EngineModel { clock: now.clock, ..m };
                &&& !now.clock.due
                &&& now.clock.step == m.clock.step && now.clock.ticks == m.clock.ticks
                &&& now.clock.steps == m.clock.steps && now.clock.wrapped == m.clock.wrapped
                &&& now.clock.rate == m.clock.rate && now.clock.bpm == m.clock.bpm
                &&& now == told.stepped(m.clock.step)
            }
        }),
{
}

/// Playing a step leaves the project as it is. In the song, the lights show every pattern that
/// sounds, and each of those is a step further into its block with a step less of it left; a
/// pattern that does not sound has none left. Out of it, the light is that of the pattern that is
/// open.
#[verifier::rlimit(50)]
pub proof fn what_a_step_moves_on(m: EngineModel, step: u32, p: int)
    requires
        m.wf(),
        step < m.clock.steps,
        0 <= p < 32,
    ensures
        ({
            let now = m.stepped(step);
            let starts = bit(m.starts[step as int], p as u32);
            let into = if starts {
                0
            } else {
                m.run_step[p] as int
            };
            let left = if starts {
                m.lengths[step * 32 + p] as int
            } else {
                m.run_left[p] as int
            };
            &&& now.tracks == m.tracks && now.patterns == m.patterns && same_song(m, now)
            &&& now.playing == m.playing && now.song_mode == m.song_mode && now.clock == m.clock
            &&& now.active_pattern == m.active_pattern && now.master == m.master
            &&& m.song_mode ==> {
                &&& bit(now.sounding, p as u32) <==> left > 0
                &&& left > 0 ==> now.run_step[p] == into + 1 && now.run_left[p] == left - 1
                &&& left == 0 ==> now.run_step[p] == into && now.run_left[p] == 0
            }
            &&& !m.song_mode ==> {
                &&& bit(now.sounding, p as u32) <==> p == m.active_pattern
                &&& now.run_step == m.run_step && now.run_left == m.run_left
            }
        }),
{
    the_lights_show_what_sounds(m, step as int, p as u32, MAX_PATTERNS as int);
    lemma_none_and_all();
    a_bit_is_a_digit(0, m.active_pattern as u32);
    assert(m.run_step[p] + m.run_left[p] <= 0xffff);
}

/// Frames are mixed in one go up to as many as are wanted, a thousand and twenty four, and while
/// the engine is playing up to the next step: as many as all of those allow.
pub proof fn no_block_runs_past_a_step(m: EngineModel, wanted: int)
    requires
        m.wf(),
        wanted >= 1,
    ensures
        ({
            let n = m.block(wanted);
            &&& 1 <= n <= wanted && n <= 1024
            &&& m.playing && n > 1 ==> m.clock.ticks + (n - 1) * tempo(m.clock.bpm) < m.clock.rate
                * 0x78_0000
            &&& n == wanted || n == 1024 || (m.playing && m.clock.ticks + n * tempo(m.clock.bpm)
                >= m.clock.rate * 0x78_0000)
        }),
{
    the_frames_left_are_the_fewest_that_reach(m.clock);
    lemma_tempo(m.clock.bpm);
    let n = m.block(wanted);
    let f = m.clock.frames_left();
    let each = tempo(m.clock.bpm);
    if m.playing && n > 1 {
        assert((n - 1) * each <= (f - 1) * each) by (nonlinear_arith)
            requires
                n <= f,
                each > 0,
        ;
    }
}

/// Mixing so many frames moves the clock of an engine that is playing on by that many, and changes
/// nothing else but where each pattern is, once the song has come round to the top.
pub proof fn mixing_moves_the_clock_on(m: EngineModel, frames: int)
    requires
        m.wf(),
        frames >= 0,
    ensures
        ({
            let now = m.ended(frames);
            let clock = m.clock.advanced(frames);
            &&& !m.playing ==> now == m
            &&& m.playing ==> {
                &&& now.clock.step == clock.step && now.clock.ticks == clock.ticks && now.clock.due
                    == clock.due
                &&& !now.clock.wrapped
                &&& now.clock.steps == m.clock.steps && now.clock.rate == m.clock.rate
                    && now.clock.bpm == m.clock.bpm
                &&& !clock.wrapped ==> now.run_step == m.run_step && now.run_left == m.run_left
                &&& clock.wrapped && m.song_mode ==> now.in_step(clock.step as int)
            }
            &&& now.tracks == m.tracks && now.patterns == m.patterns
            &&& same_song(m, now) && same_sound(m, now)
            &&& now.playing == m.playing && now.song_mode == m.song_mode && now.sounding
                == m.sounding && now.active_pattern == m.active_pattern
        }),
{
    let clock = m.clock.advanced(frames);
    let on = EngineModel { clock: clock.unwrapped(), ..m };
    if m.song_mode {
        lemma_resynced_in_step(on);
    }
}

/// A new engine is stopped at the top of an empty pattern of the length asked for, with no tracks,
/// no song and nothing sounding, at the tempo asked for and nine tenths of full.
#[verifier::rlimit(50)]
pub proof fn a_new_engine_has_nothing_to_play(rate: u32, bpm: Single, steps: u32)
    requires
        !bpm.nan(),
    ensures
        ({
            let m = EngineModel::fresh(rate, bpm, steps);
            let held = if steps < 1 {
                1
            } else if steps > 256 {
                256
            } else {
                steps as int
            };
            &&& m.tracks.len() == 32 && m.patterns.len() == 32
            &&& forall|t: int|
                0 <= t < 32 ==> !(#[trigger] m.tracks[t]).active && m.tracks[t].sample is None
                    && !m.tracks[t].muted && !m.tracks[t].soloed && !m.tracks[t].jump
                    && m.tracks[t].target_gain.bits == 0x3f4c_cccd
            &&& forall|p: int, t: int|
                0 <= p < 32 && 0 <= t < 32 ==> (#[trigger] m.patterns[p].tracks[t]).len() == 0
                    && !bit(m.patterns[p].pitched, t as u32)
            &&& forall|p: int| 0 <= p < 32 ==> (#[trigger] m.patterns[p]).steps == held
            &&& m.song_len == 0 && m.starts.len() == 4096 && m.lengths.len() == 4096 * 32
            &&& forall|s: int| 0 <= s < 4096 ==> #[trigger] m.starts[s] == 0
            &&& forall|s: int| 0 <= s < 4096 * 32 ==> #[trigger] m.lengths[s] == 0
            &&& forall|p: int|
                0 <= p < 32 ==> #[trigger] m.run_step[p] == 0 && #[trigger] m.run_left[p] == 0
            &&& !m.playing && !m.song_mode && m.active_pattern == 0 && m.sounding == 0
            &&& m.master.bits == 0x3f66_6666 && m.handed.len() == 0
            &&& m.voices == PoolModel::fresh()
            &&& m.clock.step == 0 && m.clock.ticks == 0 && m.clock.due && !m.clock.wrapped
            &&& m.clock.steps == held && m.clock.bpm == kept(bpm)
        }),
{
    lemma_none_and_all();
}

/// A command about a slot that there is none of changes nothing, whatever it asks for.
pub proof fn a_command_about_no_slot_changes_nothing(
    m: EngineModel,
    track: u16,
    pattern: u16,
    step: u32,
    count: u32,
    note: EngineNote,
    pitch: u8,
    on: bool,
    gain: Single,
)
    requires
        m.wf(),
    ensures
        track >= 32 ==> {
            &&& m.applied(Command::AddTrack { track, gain }) == m
            &&& m.applied(Command::SetTrackGain { track, gain }) == m
            &&& m.applied(Command::SetTrackMuted { track, muted: on }) == m
            &&& m.applied(Command::SetTrackSoloed { track, soloed: on }) == m
        },
        track >= 32 || pattern >= 32 ==> {
            &&& m.applied(Command::SetNote { pattern, track, note }) == m
            &&& m.applied(Command::ClearNote { pattern, track, step: note.step, pitch }) == m
            &&& m.applied(Command::ClearNotes { pattern, track }) == m
            &&& m.applied(Command::SetPatternPitched { pattern, track, pitched: on }) == m
        },
        pattern >= 32 ==> {
            &&& m.applied(Command::SetActivePattern(pattern)) == m
            &&& m.applied(Command::ClearPattern { pattern }) == m
            &&& m.applied(Command::SetPatternSteps { pattern, steps: count }) == m
        },
        pattern >= 32 || step >= 4096 ==> {
            &&& m.applied(Command::PlacePattern { pattern, step, length: count }) == m
            &&& m.applied(Command::UnplacePattern { pattern, step }) == m
        },
{
}

/// A voice that is landed changes the voices and what has been handed back, and nothing else: the
/// sample it was playing is handed back when it has faded out.
pub proof fn a_voice_that_lands_gives_its_sample_back(m: EngineModel, i: int)
    requires
        m.wf(),
        0 <= i < 64,
    ensures
        ({
            let now = m.landed(i);
            let v = m.voices.voices[i];
            &&& now.voices == m.voices.landed(i)
            &&& v.stage == Stage::Releasing && v.env == 0 ==> match v.sample {
                Some(sample) => now.handed == m.handed.push(sample),
                None => now.handed == m.handed,
            }
            &&& !(v.stage == Stage::Releasing && v.env == 0) ==> now.handed == m.handed
            &&& now.tracks == m.tracks && now.patterns == m.patterns && now.master == m.master
            &&& same_song(m, now) && same_place(m, now)
        }),
{
    let v = m.voices.voices[i];
    match v.sample {
        Some(sample) => {
            assert(m.handed + seq![sample] =~= m.handed.push(sample));
        },
        None => {
            assert(m.handed + Seq::<Arc<Sample>>::empty() =~= m.handed);
        },
    }
}

} // verus!
