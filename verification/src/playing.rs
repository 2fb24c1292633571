//! What the engine holds, and what each command and each step does to it.

use std::sync::Arc;

use vstd::prelude::*;

use crate::bits::{bit, minus, plus};
use crate::clock::ClockModel;
use crate::command::{Command, EngineNote};
use crate::pattern::playable;
use crate::sample::Sample;
use crate::score::ScoreModel;
use crate::seqs::gathered;
use crate::single::{Single, DEFAULT_GAIN, DEFAULT_MASTER_GAIN, TWO, ZERO};
use crate::voice::{
    lemma_triggered_both, lemma_triggered_next, lemma_turned_away_both, lemma_turned_away_next,
    waiting, waiting_on, Level, PoolModel, Trigger,
};
use crate::{
    DEFAULT_PITCH, MAX_BLOCK, MAX_PATTERNS, MAX_SONG_STEPS, MAX_TRACKS, PREVIEW_TRACK,
};

verus! {

/// One track's worth of audio thread state.
///
/// Notes are not in here. A track is a sound and how loud it is, which is the project's
/// business; the notes belong to whichever pattern they were drawn in.
#[derive(Debug)]
pub struct TrackState {
    /// False when the slot is free. Free slots are skipped entirely.
    pub active: bool,
    pub sample: Option<Arc<Sample>>,
    /// Where the gain slider is.
    pub target_gain: Single,
    /// Set when the gain should be at the slider already, rather than slide to it.
    pub jump: bool,
    pub muted: bool,
    pub soloed: bool,
}

/// The engine, as mathematics has it.
#[verifier::ext_equal]
pub struct EngineModel {
    pub tracks: Seq<TrackState>,
    pub patterns: Seq<ScoreModel>,
    /// The song: which patterns start at each step, one bit each.
    pub starts: Seq<u32>,
    /// How long the block starting at each step is, per pattern, in steps.
    pub lengths: Seq<u16>,
    /// Steps of the song in use.
    pub song_len: u32,
    /// How many steps into its block each pattern is, and how many it has left before the
    /// block is over.
    pub run_step: Seq<u32>,
    pub run_left: Seq<u32>,
    /// What sounded on the last step, one bit per pattern.
    pub sounding: u32,
    /// True to play the song, false to loop the pattern the editor has open.
    pub song_mode: bool,
    pub active_pattern: int,
    pub voices: PoolModel,
    pub clock: ClockModel,
    pub playing: bool,
    pub master: Single,
    /// Every sample handed back to the app thread, in order.
    pub handed: Seq<Arc<Sample>>,
}

/// A gain the engine will apply.
pub open spec fn allowed(gain: Single) -> Single {
    gain.clamped(Single { bits: ZERO }, Single { bits: TWO })
}

/// Where in the grid of lengths a step and a pattern meet.
pub open spec fn slot(step: int, pattern: int) -> int {
    step * MAX_PATTERNS + pattern
}

/// A length, as a block in the grid can have it.
pub open spec fn block_length(length: u32) -> u16 {
    if length < 1 {
        1
    } else if length > MAX_SONG_STEPS {
        MAX_SONG_STEPS as u16
    } else {
        length as u16
    }
}

/// Frames a note of so many steps is held for, rounded up to whole ones.
pub open spec fn held_frames(length: u16, clock: ClockModel) -> u64 {
    let steps = if length < 1 { 1int } else { length as int };
    ((steps * clock.step_ticks() + clock.frame_ticks() - 1) / clock.frame_ticks()) as u64
}

/// The test for a note to be played: it is at this step, and the row it is drawn in shows it. A
/// row of boxes shows what is at the sampler's own pitch; an instrument's row shows everything.
pub open spec fn heard_at(step: u16, instrument: bool) -> spec_fn(EngineNote) -> bool {
    |n: EngineNote| n.step == step && (instrument || n.pitch == DEFAULT_PITCH)
}

/// What a note asks a voice for. An instrument's notes are held for as long as they are long; a
/// one-shot's ring out, so its length is nothing to do with the sound.
pub open spec fn asking(
    sample: Arc<Sample>,
    track: u16,
    instrument: bool,
    clock: ClockModel,
) -> spec_fn(EngineNote) -> Trigger {
    |n: EngineNote|
        Trigger {
            sample,
            track,
            pitch: n.pitch,
            level: Level::Velocity(n.velocity),
            hold: if instrument {
                Some(held_frames(n.length, clock))
            } else {
                None
            },
        }
}

/// The notes of one track due at a step of a pattern, as what they ask for.
pub open spec fn due_on(
    tracks: Seq<TrackState>,
    score: ScoreModel,
    clock: ClockModel,
    step: u16,
    track: int,
) -> Seq<Trigger> {
    match tracks[track].sample {
        Some(sample) if tracks[track].active => {
            let instrument = bit(score.pitched, track as u32);
            score.tracks[track].filter(heard_at(step, instrument)).map_values(
                asking(sample, track as u16, instrument, clock),
            )
        },
        _ => Seq::empty(),
    }
}

/// The notes of the first so many tracks due at a step of a pattern.
pub open spec fn due_upto(
    tracks: Seq<TrackState>,
    score: ScoreModel,
    clock: ClockModel,
    step: u16,
    count: int,
) -> Seq<Trigger>
    decreases count,
{
    if count <= 0 {
        Seq::empty()
    } else {
        due_upto(tracks, score, clock, step, count - 1) + due_on(
            tracks,
            score,
            clock,
            step,
            count - 1,
        )
    }
}

impl TrackState {
    pub open spec fn fresh() -> TrackState {
        TrackState {
            active: false,
            sample: None,
            target_gain: Single { bits: DEFAULT_GAIN },
            jump: false,
            muted: false,
            soloed: false,
        }
    }
}

impl EngineModel {
    pub open spec fn fresh(rate: u32, bpm: Single, steps: u32) -> EngineModel {
        EngineModel {
            tracks: Seq::new(MAX_TRACKS as nat, |t: int| TrackState::fresh()),
            patterns: Seq::new(MAX_PATTERNS as nat, |p: int| ScoreModel::fresh(playable(steps))),
            starts: Seq::new(MAX_SONG_STEPS as nat, |s: int| 0u32),
            lengths: Seq::new((MAX_SONG_STEPS * MAX_PATTERNS) as nat, |s: int| 0u16),
            song_len: 0,
            run_step: Seq::new(MAX_PATTERNS as nat, |p: int| 0u32),
            run_left: Seq::new(MAX_PATTERNS as nat, |p: int| 0u32),
            sounding: 0,
            song_mode: false,
            active_pattern: 0,
            voices: PoolModel::fresh(),
            clock: ClockModel::started(rate, bpm, playable(steps)),
            playing: false,
            master: Single { bits: DEFAULT_MASTER_GAIN },
            handed: Seq::empty(),
        }
    }

    /// What is true of the engine between any two calls. The clock always counts what is
    /// playing, and no pattern is ever further into a block than a block can be long.
    pub open spec fn wf(self) -> bool {
        &&& self.tracks.len() == MAX_TRACKS
        &&& self.patterns.len() == MAX_PATTERNS
        &&& forall|p: int| 0 <= p < self.patterns.len() ==> (#[trigger] self.patterns[p]).wf()
        &&& self.starts.len() == MAX_SONG_STEPS
        &&& self.lengths.len() == MAX_SONG_STEPS * MAX_PATTERNS
        &&& self.song_len <= MAX_SONG_STEPS
        &&& self.run_step.len() == MAX_PATTERNS
        &&& self.run_left.len() == MAX_PATTERNS
        &&& forall|p: int|
            0 <= p < MAX_PATTERNS ==> #[trigger] self.run_step[p] + self.run_left[p] <= 0xffff
        &&& 0 <= self.active_pattern < MAX_PATTERNS
        &&& self.voices.wf()
        &&& self.voices.of_slots()
        &&& self.clock.wf()
        &&& self.clock.steps == self.playing_steps()
    }

    // --- what is playing ---------------------------------------------------

    /// How long the thing being played is, in steps. The whole song in song mode, so the
    /// clock's step *is* the song position and coming round to the top is the clock's job.
    pub open spec fn playing_steps(self) -> u32 {
        if self.song_mode {
            if self.song_len < 1 {
                1
            } else {
                self.song_len
            }
        } else {
            self.patterns[self.active_pattern].steps
        }
    }

    /// The clock counting whatever is playing now.
    pub open spec fn tuned(self) -> EngineModel {
        EngineModel { clock: self.clock.with_steps(self.playing_steps()), ..self }
    }

    /// Whether a block of a pattern starts at a step of the song.
    pub open spec fn starts_at(self, step: int, pattern: int) -> bool {
        bit(self.starts[step], pattern as u32)
    }

    /// How long the block of a pattern that starts at a step is.
    pub open spec fn length_at(self, step: int, pattern: int) -> u16 {
        self.lengths[slot(step, pattern)]
    }

    /// The nearest start of a pattern at or before a step, or one before the top of the song
    /// when there is none.
    pub open spec fn nearest_start(self, pattern: int, step: int) -> int
        decreases step + 1,
    {
        if step < 0 {
            -1
        } else if self.starts_at(step, pattern) {
            step
        } else {
            self.nearest_start(pattern, step - 1)
        }
    }

    /// How far a pattern is into its block at a step of the song, and how much of the block is
    /// left. Nothing and nothing when no block of it is playing there.
    pub open spec fn run_at(self, pattern: int, step: int) -> (u32, u32) {
        let start = self.nearest_start(pattern, step);
        let length = self.length_at(start, pattern);
        if self.song_mode && start >= 0 && step - start < length {
            ((step - start) as u32, (length - (step - start)) as u32)
        } else {
            (0, 0)
        }
    }

    /// Every pattern where it should be, given where the playhead is.
    pub open spec fn resynced(self) -> EngineModel {
        let now = self.clock.step as int;
        EngineModel {
            run_step: Seq::new(MAX_PATTERNS as nat, |p: int| self.run_at(p, now).0),
            run_left: Seq::new(MAX_PATTERNS as nat, |p: int| self.run_at(p, now).1),
            ..self
        }
    }

    /// Back to the top: the first step of the song, or of the pattern.
    pub open spec fn rewound(self) -> EngineModel {
        self.jumped(0)
    }

    /// Straight to a step of what is playing.
    pub open spec fn jumped(self, step: u32) -> EngineModel {
        let tuned = self.tuned();
        EngineModel { clock: tuned.clock.jumped(step), ..tuned }.resynced()
    }

    // --- what is sounding --------------------------------------------------

    /// Several notes given voices, in order.
    pub open spec fn played(self, triggers: Seq<Trigger>) -> EngineModel {
        EngineModel {
            voices: self.voices.all_triggered(triggers),
            handed: self.handed + self.voices.all_turned_away(triggers),
            ..self
        }
    }

    /// One note given a voice.
    pub open spec fn struck(self, trigger: Trigger) -> EngineModel {
        EngineModel {
            voices: self.voices.triggered(trigger),
            handed: self.handed + self.voices.turned_away(trigger),
            ..self
        }
    }

    /// A track let go, with what was waiting for its voices.
    pub open spec fn hushed(self, track: u16) -> EngineModel {
        EngineModel {
            voices: self.voices.track_released(track),
            handed: self.handed + gathered(self.voices.voices, waiting_on(track)),
            ..self
        }
    }

    /// Everything let go, with what was to come.
    pub open spec fn silenced(self) -> EngineModel {
        EngineModel {
            voices: self.voices.all_released(),
            handed: self.handed + gathered(self.voices.voices, waiting()),
            ..self
        }
    }

    /// A voice that has faded out dealt with.
    pub open spec fn landed(self, i: int) -> EngineModel {
        EngineModel {
            voices: self.voices.landed(i),
            handed: if self.voices.at_rest(i) {
                self.handed + self.voices.voices[i].kept()
            } else {
                self.handed
            },
            ..self
        }
    }

    // --- a step -------------------------------------------------------------

    /// Everything due at a step of a pattern, track by track.
    pub open spec fn due(self, pattern: int, step: u16) -> Seq<Trigger> {
        due_upto(self.tracks, self.patterns[pattern], self.clock, step, MAX_TRACKS as int)
    }

    /// Where a pattern is in its block as a step of the song begins, and how much of the block
    /// is left: at the start of it when one begins here, else wherever it had got to.
    pub open spec fn entering(self, step: int, pattern: int) -> (u32, u32) {
        if self.starts_at(step, pattern) {
            (0, self.length_at(step, pattern) as u32)
        } else {
            (self.run_step[pattern], self.run_left[pattern])
        }
    }

    pub open spec fn sounds_at(self, step: int, pattern: int) -> bool {
        self.entering(step, pattern).1 > 0
    }

    /// The step of its own that a pattern plays at a step of the song. A block longer than its
    /// pattern comes round again rather than going quiet.
    pub open spec fn own_step(self, step: int, pattern: int) -> u16 {
        (self.entering(step, pattern).0 % self.patterns[pattern].steps) as u16
    }

    /// Everything due at a step of the song from the first so many patterns.
    pub open spec fn song_due_upto(self, step: int, patterns: int) -> Seq<Trigger>
        decreases patterns,
    {
        if patterns <= 0 {
            Seq::empty()
        } else {
            let before = self.song_due_upto(step, patterns - 1);
            let p = patterns - 1;
            if self.sounds_at(step, p) {
                before + self.due(p, self.own_step(step, p))
            } else {
                before
            }
        }
    }

    /// Which of the first so many patterns sound at a step of the song, one bit each.
    pub open spec fn sounding_upto(self, step: int, patterns: int) -> u32
        decreases patterns,
    {
        if patterns <= 0 {
            0
        } else {
            let before = self.sounding_upto(step, patterns - 1);
            if self.sounds_at(step, patterns - 1) {
                plus(before, (patterns - 1) as u32)
            } else {
                before
            }
        }
    }

    pub open spec fn run_step_after(self, step: int, pattern: int) -> u32 {
        if self.sounds_at(step, pattern) {
            (self.entering(step, pattern).0 + 1) as u32
        } else {
            self.entering(step, pattern).0
        }
    }

    pub open spec fn run_left_after(self, step: int, pattern: int) -> u32 {
        if self.sounds_at(step, pattern) {
            (self.entering(step, pattern).1 - 1) as u32
        } else {
            0
        }
    }

    /// Everything due on a step gets a voice. The step is one of the song in song mode and one
    /// of the open pattern otherwise.
    pub open spec fn stepped(self, step: u32) -> EngineModel {
        if self.song_mode {
            EngineModel {
                sounding: self.sounding_upto(step as int, MAX_PATTERNS as int),
                run_step: Seq::new(
                    MAX_PATTERNS as nat,
                    |p: int| self.run_step_after(step as int, p),
                ),
                run_left: Seq::new(
                    MAX_PATTERNS as nat,
                    |p: int| self.run_left_after(step as int, p),
                ),
                ..self.played(self.song_due_upto(step as int, MAX_PATTERNS as int))
            }
        } else {
            EngineModel {
                sounding: plus(0, self.active_pattern as u32),
                ..self.played(self.due(self.active_pattern, step as u16))
            }
        }
    }

    /// Before a block of frames is mixed: the step that is due, if one is, has been played.
    pub open spec fn begun(self) -> EngineModel {
        if self.playing && self.clock.due {
            EngineModel { clock: self.clock.taken(), ..self }.stepped(self.clock.step)
        } else {
            self
        }
    }

    /// Frames that can be mixed in one go: no more than are wanted or the mixer works on, and
    /// none past the next step.
    pub open spec fn block(self, wanted: int) -> int {
        let most = if wanted < MAX_BLOCK { wanted } else { MAX_BLOCK as int };
        if self.playing && self.clock.frames_left() < most {
            self.clock.frames_left()
        } else {
            most
        }
    }

    /// After a block of frames has been mixed. Coming round to the top of the song, nothing is
    /// half played.
    pub open spec fn ended(self, frames: int) -> EngineModel {
        if self.playing {
            let clock = self.clock.advanced(frames);
            let on = EngineModel { clock: clock.unwrapped(), ..self };
            if clock.wrapped {
                on.resynced()
            } else {
                on
            }
        } else {
            self
        }
    }

    // --- commands -----------------------------------------------------------

    pub open spec fn with_track(self, track: u16, state: TrackState) -> EngineModel {
        EngineModel { tracks: self.tracks.update(track as int, state), ..self }
    }

    pub open spec fn with_score(self, pattern: u16, score: ScoreModel) -> EngineModel {
        EngineModel { patterns: self.patterns.update(pattern as int, score), ..self }
    }

    /// A track forgotten in every pattern.
    pub open spec fn forgetting(self, track: u16) -> EngineModel {
        if track < MAX_TRACKS {
            EngineModel {
                patterns: self.patterns.map_values(forgotten(track)),
                ..self
            }
        } else {
            self
        }
    }

    /// With a sample that has no place handed back, if there is one.
    pub open spec fn handing_back(self, sample: Option<Arc<Sample>>) -> EngineModel {
        EngineModel {
            handed: match sample {
                Some(sample) => self.handed.push(sample),
                None => self.handed,
            },
            ..self
        }
    }

    pub open spec fn sample_replaced(self, track: u16, sample: Option<Arc<Sample>>) -> EngineModel {
        let t = self.tracks[track as int];
        EngineModel {
            handed: match t.sample {
                Some(old) => self.handed.push(old),
                None => self.handed,
            },
            ..self.with_track(track, TrackState { sample, ..t })
        }
    }

    /// The song with nothing in it.
    pub open spec fn song_cleared(self) -> EngineModel {
        EngineModel {
            starts: Seq::new(MAX_SONG_STEPS as nat, |s: int| 0u32),
            lengths: Seq::new((MAX_SONG_STEPS * MAX_PATTERNS) as nat, |s: int| 0u16),
            song_len: 0,
            run_left: Seq::new(MAX_PATTERNS as nat, |p: int| 0u32),
            ..self
        }.tuned()
    }

    pub open spec fn placed(self, pattern: u16, step: u32, length: u32) -> EngineModel {
        if pattern < MAX_PATTERNS && step < MAX_SONG_STEPS {
            EngineModel {
                starts: self.starts.update(
                    step as int,
                    plus(self.starts[step as int], pattern as u32),
                ),
                lengths: self.lengths.update(
                    slot(step as int, pattern as int),
                    block_length(length),
                ),
                ..self
            }
        } else {
            self
        }
    }

    pub open spec fn unplaced(self, pattern: u16, step: u32) -> EngineModel {
        if pattern < MAX_PATTERNS && step < MAX_SONG_STEPS {
            EngineModel {
                starts: self.starts.update(
                    step as int,
                    minus(self.starts[step as int], pattern as u32),
                ),
                lengths: self.lengths.update(slot(step as int, pattern as int), 0),
                ..self
            }
        } else {
            self
        }
    }

    /// What a command does. One for something that is not there does nothing.
    pub open spec fn applied(self, command: Command) -> EngineModel {
        match command {
            Command::SetPlaying(playing) => {
                let on = EngineModel { playing, ..self };
                if playing {
                    on
                } else {
                    on.rewound()
                }
            },
            Command::Rewind => self.rewound(),
            Command::SetBpm(bpm) => if bpm.nan() {
                self
            } else {
                EngineModel { clock: self.clock.retimed(bpm), ..self }
            },
            Command::SetMasterGain(gain) => EngineModel { master: allowed(gain), ..self },
            Command::AddTrack { track, gain } => if track < MAX_TRACKS {
                self.with_track(
                    track,
                    TrackState {
                        active: true,
                        muted: false,
                        soloed: false,
                        target_gain: allowed(gain),
                        jump: true,
                        sample: self.tracks[track as int].sample,
                    },
                ).forgetting(track)
            } else {
                self
            },
            Command::RemoveTrack { track } => {
                let quiet = self.hushed(track);
                if track < MAX_TRACKS {
                    let gone = quiet.sample_replaced(track, None);
                    gone.with_track(
                        track,
                        TrackState { active: false, ..gone.tracks[track as int] },
                    ).forgetting(track)
                } else {
                    quiet
                }
            },
            Command::SetTrackSample { track, sample } => {
                let quiet = self.hushed(track);
                if track < MAX_TRACKS {
                    quiet.sample_replaced(track, sample)
                } else {
                    quiet.handing_back(sample)
                }
            },
            Command::SetTrackGain { track, gain } => if track < MAX_TRACKS {
                self.with_track(
                    track,
                    TrackState { target_gain: allowed(gain), ..self.tracks[track as int] },
                )
            } else {
                self
            },
            Command::SetTrackMuted { track, muted } => if track < MAX_TRACKS {
                self.with_track(track, TrackState { muted, ..self.tracks[track as int] })
            } else {
                self
            },
            Command::SetTrackSoloed { track, soloed } => if track < MAX_TRACKS {
                self.with_track(track, TrackState { soloed, ..self.tracks[track as int] })
            } else {
                self
            },
            Command::SetPatternPitched { pattern, track, pitched } => if pattern < MAX_PATTERNS
                && track < MAX_TRACKS {
                self.with_score(
                    pattern,
                    self.patterns[pattern as int].with_pitched(track as u32, pitched),
                )
            } else {
                self
            },
            Command::SetPatternSteps { pattern, steps } => if pattern < MAX_PATTERNS {
                self.with_score(
                    pattern,
                    ScoreModel { steps: playable(steps), ..self.patterns[pattern as int] },
                ).tuned()
            } else {
                self
            },
            Command::SetNote { pattern, track, note } => if pattern < MAX_PATTERNS && track
                < MAX_TRACKS {
                self.with_score(
                    pattern,
                    self.patterns[pattern as int].with_note(track as int, note),
                )
            } else {
                self
            },
            Command::ClearNote { pattern, track, step, pitch } => if pattern < MAX_PATTERNS && track
                < MAX_TRACKS {
                self.with_score(
                    pattern,
                    self.patterns[pattern as int].without_note(track as int, step, pitch),
                )
            } else {
                self
            },
            Command::ClearNotes { pattern, track } => if pattern < MAX_PATTERNS && track
                < MAX_TRACKS {
                self.with_score(
                    pattern,
                    self.patterns[pattern as int].without_notes(track as int),
                )
            } else {
                self
            },
            Command::ClearPattern { pattern } => if pattern < MAX_PATTERNS {
                self.with_score(pattern, self.patterns[pattern as int].emptied())
            } else {
                self
            },
            Command::SetActivePattern(pattern) => if pattern < MAX_PATTERNS {
                EngineModel { active_pattern: pattern as int, ..self }.tuned()
            } else {
                self
            },
            Command::SetSongMode(on) => EngineModel { song_mode: on, ..self }.rewound(),
            Command::SetSongLen(len) => EngineModel {
                song_len: if len > MAX_SONG_STEPS { MAX_SONG_STEPS as u32 } else { len },
                ..self
            }.tuned(),
            Command::ClearSong => self.song_cleared(),
            Command::PlacePattern { pattern, step, length } => self.placed(pattern, step, length),
            Command::UnplacePattern { pattern, step } => self.unplaced(pattern, step),
            Command::SeekSong(step) => self.jumped(step),
            Command::Audition { track, pitch, velocity } => match self.tracks[track as int].sample {
                // Clicking a row is "let me hear it", so it plays out whatever the track is.
                Some(sample) if track < MAX_TRACKS => self.struck(
                    Trigger { sample, track, pitch, level: Level::Velocity(velocity), hold: None },
                ),
                _ => self,
            },
            Command::Preview { sample, gain } => self.struck(
                Trigger {
                    sample,
                    track: PREVIEW_TRACK,
                    pitch: DEFAULT_PITCH,
                    level: Level::Gain(gain),
                    hold: None,
                },
            ),
            Command::StopAll => EngineModel { playing: false, ..self }.rewound().silenced(),
        }
    }

    /// What several commands do, one after another.
    pub open spec fn all_applied(self, commands: Seq<Command>) -> EngineModel
        decreases commands.len(),
    {
        if commands.len() == 0 {
            self
        } else {
            self.all_applied(commands.drop_last()).applied(commands.last())
        }
    }

    // --- what is heard ------------------------------------------------------

    /// True while any track is soloed, which is when mutes stop mattering.
    pub open spec fn any_soloed(self) -> bool {
        exists|t: int|
            0 <= t < self.tracks.len() && (#[trigger] self.tracks[t]).active && self.tracks[t].soloed
    }

    /// Solo beats mute: if anything is soloed, only soloed tracks are heard.
    pub open spec fn audible(self, track: int) -> bool {
        let t = self.tracks[track];
        t.active && (if self.any_soloed() {
            t.soloed
        } else {
            !t.muted
        })
    }

    /// The gain a track is heading for.
    pub open spec fn heading(self, track: int) -> Single {
        if self.audible(track) {
            self.tracks[track].target_gain
        } else {
            Single { bits: ZERO }
        }
    }
}

/// The next of several notes.
pub proof fn lemma_played_next(m: EngineModel, triggers: Seq<Trigger>, trigger: Trigger)
    ensures
        m.played(triggers.push(trigger)) == m.played(triggers).struck(trigger),
{
    lemma_triggered_next(m.voices, triggers, trigger);
    lemma_turned_away_next(m.voices, triggers, trigger);
    assert(m.played(triggers.push(trigger)).handed =~= m.played(triggers).struck(trigger).handed);
}

/// Notes played in two goes are notes played in one.
pub proof fn lemma_played_both(m: EngineModel, a: Seq<Trigger>, b: Seq<Trigger>)
    ensures
        m.played(a + b) == m.played(a).played(b),
{
    lemma_triggered_both(m.voices, a, b);
    lemma_turned_away_both(m.voices, a, b);
    assert(m.played(a + b).handed =~= m.played(a).played(b).handed);
}

/// No notes change nothing.
pub proof fn lemma_nothing_played(m: EngineModel)
    ensures
        m.played(Seq::empty()) == m,
{
    assert(m.played(Seq::empty()).handed =~= m.handed);
}

/// Finding every pattern's place keeps the engine sound.
pub proof fn lemma_resynced(m: EngineModel)
    requires
        m.wf(),
    ensures
        m.resynced().wf(),
{
    let after = m.resynced();
    let now = m.clock.step as int;
    assert forall|p: int| 0 <= p < MAX_PATTERNS implies #[trigger] after.run_step[p]
        + after.run_left[p] <= 0xffff by {
        assert(after.run_step[p] == m.run_at(p, now).0);
        assert(after.run_left[p] == m.run_at(p, now).1);
        lemma_nearest(m, p, now);
    }
}

/// The nearest start is one, is not past the step, and nothing starts between it and the step.
pub proof fn lemma_nearest(m: EngineModel, pattern: int, step: int)
    requires
        step >= -1,
    ensures
        -1 <= m.nearest_start(pattern, step) <= step,
        m.nearest_start(pattern, step) >= 0 ==> m.starts_at(
            m.nearest_start(pattern, step),
            pattern,
        ),
        forall|s: int|
            m.nearest_start(pattern, step) < s <= step ==> !#[trigger] m.starts_at(s, pattern),
    decreases step + 1,
{
    if step >= 0 && !m.starts_at(step, pattern) {
        lemma_nearest(m, pattern, step - 1);
    }
}

/// The next of several commands.
pub proof fn lemma_applied_next(m: EngineModel, commands: Seq<Command>, command: Command)
    ensures
        m.all_applied(commands.push(command)) == m.all_applied(commands).applied(command),
{
    assert(commands.push(command).drop_last() =~= commands);
}

pub open spec fn forgotten(track: u16) -> spec_fn(ScoreModel) -> ScoreModel {
    |s: ScoreModel| s.without_track(track as u32)
}

} // verus!
