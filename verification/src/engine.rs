//! The audio thread, but for the arithmetic of mixing.
//!
//! The mixer asks [`Engine::begin_block`] how many frames it may mix, mixes them, and says so to
//! [`Engine::end_block`]. Everything the engine needs arrives ready-made through the command
//! queue, and nothing it does after [`Engine::new`] allocates, locks, blocks or touches a file.
//!
//! ## Every pattern lives here
//!
//! The engine holds the notes of every pattern, not just the one playing. It has to: at the
//! end of a pattern the song moves on to the next one *on the boundary frame*, and there is
//! no time to ask the app thread for it. So a pattern change is a change of index, which
//! costs nothing.
//!
//! What plays depends on the mode. In pattern mode the open pattern loops, which is the
//! pattern editor. In song mode the clock counts the whole song, and the engine holds a slot
//! per step saying which patterns *start* there. Any number can start at the same step and
//! they all sound together, which is how a kick pattern, a hat pattern and a snare pattern
//! add up to a beat.
//!
//! Each pattern then carries how far through its block it is and how much of it is left, so a
//! block plays on and stops, however long the pattern is and whatever else is going on around
//! it.

use std::sync::Arc;

use vstd::prelude::*;

use crate::bits::{self, bit, lemma_and, lemma_none_and_all};
use crate::clock::{ClockModel, StepClock};
use crate::command::{
    commands_out, looked, pop_command, share, taken, Command, EngineNote, Ledger, Trash,
    TrashBin,
};
use crate::pattern::playable;
use crate::playing::{
    allowed, asking, due_on, due_upto, forgotten, heard_at, held_frames, lemma_applied_next,
    lemma_nothing_played, lemma_played_both, lemma_played_next, lemma_resynced, slot, EngineModel, TrackState,
};
use crate::sample::Sample;
use crate::score::{Score, ScoreModel};
use crate::shared::{Playhead, Shared};
use crate::single::{Single, DEFAULT_GAIN, DEFAULT_MASTER_GAIN, TWO, ZERO};
use crate::voice::{lemma_slots_kept, lemma_slots_triggered, Level, Trigger, Voice, VoicePool};
use crate::{
    DEFAULT_PITCH, MAX_BLOCK, MAX_PATTERNS, MAX_SONG_STEPS, MAX_STEPS, MAX_TRACKS, MAX_VOICES,
    PREVIEW_TRACK, STEPS_PER_BAR,
};

verus! {

/// The clock and the voices. Lives on the audio thread and is only ever touched from there once
/// it has been handed over.
pub struct Engine {
    tracks: Vec<TrackState>,
    /// Every pattern's notes. Indexed by pattern id, never resized after `new`.
    patterns: Vec<Score>,
    /// The song: which patterns start at each step, one bit each. Allocated once, in `new`,
    /// and only ever indexed after that.
    starts: Vec<u32>,
    /// How long the block starting at each step is, per pattern, in steps. `starts` says a
    /// block begins; this says how much song it fills. A quarter of a megabyte, allocated
    /// once in `new` alongside `starts`.
    lengths: Vec<u16>,
    song_len: u32,
    run_step: Vec<u32>,
    run_left: Vec<u32>,
    sounding: u32,
    song_mode: bool,
    active_pattern: usize,
    voices: VoicePool,
    clock: StepClock,
    playing: bool,
    master: Single,
    rx: rtrb::Consumer<Command>,
    trash: TrashBin,
    shared: Arc<Shared>,
}

/// What has come of the command queue: every command taken out of it, how many times it was
/// looked in, and whether there was nothing there the last time.
pub struct Incoming {
    pub heard: Seq<Command>,
    pub looks: nat,
    pub out: bool,
}

pub open spec fn score_view() -> spec_fn(Score) -> ScoreModel {
    |s: Score| s@
}

impl View for Engine {
    type V = EngineModel;

    closed spec fn view(&self) -> EngineModel {
        EngineModel {
            tracks: self.tracks@,
            patterns: self.patterns@.map_values(score_view()),
            starts: self.starts@,
            lengths: self.lengths@,
            song_len: self.song_len,
            run_step: self.run_step@,
            run_left: self.run_left@,
            sounding: self.sounding,
            song_mode: self.song_mode,
            active_pattern: self.active_pattern as int,
            voices: self.voices@,
            clock: self.clock@,
            playing: self.playing,
            master: self.master,
            handed: self.trash@,
        }
    }
}

impl Engine {
    /// What has come of the command queue.
    pub closed spec fn incoming(&self) -> Incoming {
        Incoming { heard: taken(self.rx), looks: looked(self.rx), out: commands_out(self.rx) }
    }

    /// Every command taken out of the queue so far.
    pub open spec fn heard(&self) -> Seq<Command> {
        self.incoming().heard
    }

    /// How many times the command queue has been looked in.
    pub open spec fn looks(&self) -> nat {
        self.incoming().looks
    }

    /// Whether the command queue was found empty the last time it was looked in.
    pub open spec fn caught_up(&self) -> bool {
        self.incoming().out
    }

    /// What the app thread can find in the return queue, or has found.
    pub closed spec fn returned(&self) -> Seq<Trash> {
        self.trash.returned()
    }

    /// The samples there was no room for in the return queue.
    pub closed spec fn lost(&self) -> Seq<Arc<Sample>> {
        self.trash.lost()
    }

    /// What has become of the samples the engine is done with.
    pub open spec fn ledger(&self) -> Ledger {
        Ledger { handed: self@.handed, returned: self.returned(), lost: self.lost() }
    }

    /// Build the engine. Do this on the app thread, then move the box to the audio thread:
    /// it is a megabyte or two of notes and this is the only place any of it is allocated.
    pub fn new(
        sample_rate: u32,
        bpm: Single,
        steps: u32,
        shared: Arc<Shared>,
        rx: rtrb::Consumer<Command>,
        trash: TrashBin,
    ) -> (r: Box<Self>)
        requires
            !bpm.nan(),
        ensures
            r@ == (EngineModel { handed: trash@, ..EngineModel::fresh(sample_rate, bpm, steps) }),
            r@.wf(),
            r.heard() == taken(rx),
            r.looks() == looked(rx),
            r.ledger() == trash.ledger(),
    {
        let steps: u32 = if steps < 1 {
            1
        } else if steps > MAX_STEPS as u32 {
            MAX_STEPS as u32
        } else {
            steps
        };
        let mut tracks: Vec<TrackState> = Vec::with_capacity(MAX_TRACKS);
        let mut t: usize = 0;
        while t < MAX_TRACKS
            invariant
                t <= MAX_TRACKS,
                tracks@.len() == t,
                forall|k: int| 0 <= k < t ==> #[trigger] tracks@[k] == TrackState::fresh(),
            decreases MAX_TRACKS - t,
        {
            tracks.push(
                TrackState {
                    active: false,
                    sample: None,
                    target_gain: Single { bits: DEFAULT_GAIN },
                    jump: false,
                    muted: false,
                    soloed: false,
                },
            );
            t = t + 1;
        }
        let mut patterns: Vec<Score> = Vec::with_capacity(MAX_PATTERNS);
        let mut p: usize = 0;
        while p < MAX_PATTERNS
            invariant
                p <= MAX_PATTERNS,
                1 <= steps <= MAX_STEPS,
                patterns@.len() == p,
                forall|k: int|
                    0 <= k < p ==> (#[trigger] patterns@[k])@ == ScoreModel::fresh(steps),
            decreases MAX_PATTERNS - p,
        {
            patterns.push(Score::new(steps));
            p = p + 1;
        }
        let r = Engine {
            tracks,
            patterns,
            starts: nothings(MAX_SONG_STEPS),
            lengths: no_lengths(MAX_SONG_STEPS * MAX_PATTERNS),
            song_len: 0,
            run_step: nothings(MAX_PATTERNS),
            run_left: nothings(MAX_PATTERNS),
            sounding: 0,
            song_mode: false,
            active_pattern: 0,
            voices: VoicePool::new(),
            clock: StepClock::new(sample_rate, bpm, steps),
            playing: false,
            master: Single { bits: DEFAULT_MASTER_GAIN },
            rx,
            trash,
            shared,
        };
        proof {
            let fresh = EngineModel::fresh(sample_rate, bpm, steps);
            assert(r@.tracks =~= fresh.tracks);
            assert(r@.patterns =~= fresh.patterns);
            assert(r@.starts =~= fresh.starts);
            assert(r@.lengths =~= fresh.lengths);
            assert(r@.run_step =~= fresh.run_step);
            assert(r@.run_left =~= fresh.run_left);
        }
        Box::new(r)
    }

    /// The rate of the device, in frames a second. One at the least.
    pub fn sample_rate(&self) -> (r: u32)
        ensures
            r == self@.clock.rate,
    {
        self.clock.rate()
    }
    // --- a callback -----------------------------------------------------------

    /// Take everything waiting in the command queue. Popping is a memcpy from a ring
    /// buffer: no locks, no allocation, no chance of blocking the app thread either.
    pub fn drain_commands(&mut self)
        requires
            old(self)@.wf(),
        ensures
            exists|fresh: Seq<Command>| #[trigger]
                old(self)@.all_applied(fresh) == final(self)@ && final(self).heard() == old(
                    self,
                ).heard() + fresh && (if fresh.len() < u64::MAX {
                    final(self).caught_up() && final(self).looks() == old(self).looks()
                        + fresh.len() + 1
                } else {
                    fresh.len() == u64::MAX
                }),
            old(self).ledger().settles(final(self).ledger()),
            final(self)@.wf(),
    {
        let ghost mut fresh: Seq<Command> = Seq::empty();
        assert(self.heard() =~= old(self).heard() + fresh);
        // More than any queue can hold while it is being drained.
        let mut budget: u64 = u64::MAX;
        let mut more: bool = true;
        while more && budget > 0
            invariant
                self@.wf(),
                self.heard() == old(self).heard() + fresh,
                self@ == old(self)@.all_applied(fresh),
                old(self).ledger().settles(self.ledger()),
                more ==> fresh.len() + budget == u64::MAX && self.looks() == old(self).looks()
                    + fresh.len(),
                !more ==> self.caught_up() && fresh.len() < u64::MAX && self.looks() == old(
                    self,
                ).looks() + fresh.len() + 1,
            decreases budget,
        {
            match pop_command(&mut self.rx) {
                Some(command) => {
                    proof {
                        lemma_applied_next(old(self)@, fresh, command);
                        assert(old(self).heard() + fresh.push(command) =~= (old(self).heard()
                            + fresh).push(command));
                        fresh = fresh.push(command);
                    }
                    self.apply(command);
                },
                None => {
                    more = false;
                },
            }
            budget = budget - 1;
        }
        assert(self@ == old(self)@.all_applied(fresh));
    }

    /// Get ready to mix, and say how many frames to.
    ///
    /// The buffer is chopped at step boundaries so notes land on the exact frame they are
    /// due, not at the start of whichever callback happens to contain them. That is also
    /// what lets the song move on to the next pattern on the right frame.
    pub fn begin_block(&mut self, wanted: usize) -> (frames: usize)
        requires
            old(self)@.wf(),
            wanted >= 1,
        ensures
            final(self)@ == old(self)@.begun(),
            final(self)@.wf(),
            final(self).incoming() == old(self).incoming(),
            old(self).ledger().settles(final(self).ledger()),
            frames == final(self)@.block(wanted as int),
            1 <= frames <= wanted,
            frames <= MAX_BLOCK,
    {
        if self.playing && self.clock.due() {
            let step: u32 = self.clock.take_step();
            self.trigger_step(step);
        }
        let mut frames: usize = if wanted < MAX_BLOCK {
            wanted
        } else {
            MAX_BLOCK
        };
        if self.playing {
            let left: usize = self.clock.frames_to_next_step();
            if left < frames {
                frames = left;
            }
        }
        frames
    }

    /// Frames have been mixed: move the clock on.
    pub fn end_block(&mut self, frames: usize)
        requires
            old(self)@.wf(),
        ensures
            final(self)@ == old(self)@.ended(frames as int),
            final(self)@.wf(),
            final(self).incoming() == old(self).incoming(),
            final(self).ledger() == old(self).ledger(),
    {
        if self.playing {
            self.clock.advance(frames);
            if self.clock.take_wrapped() {
                // Round again at the top of the song, where nothing is half played.
                self.resync_runs();
            }
        }
    }

    /// What the UI is to be shown.
    pub fn playhead(&self, progress: Single, peak: Single) -> (r: Playhead)
        requires
            self@.wf(),
        ensures
            r == (Playhead {
                playing: self@.playing,
                step: self@.clock.step,
                patterns: self@.sounding,
                bar: if self@.song_mode {
                    self@.clock.step / STEPS_PER_BAR
                } else {
                    0
                },
                progress,
                active_voices: self@.voices.sounding() as u32,
                peak,
            }),
    {
        Playhead {
            playing: self.playing,
            step: self.clock.step(),
            patterns: self.sounding,
            bar: if self.song_mode {
                self.clock.step() / STEPS_PER_BAR
            } else {
                0
            },
            progress,
            active_voices: self.voices.active(),
            peak,
        }
    }

    /// Show the UI where the playhead is, and how many more frames have gone by.
    pub fn publish(&self, progress: Single, peak: Single, frames: u64)
        requires
            self@.wf(),
    {
        self.shared.show(self.playhead(progress, peak));
        self.shared.add_frames(frames);
    }

    /// How far through the current step, as ticks gone and ticks in a step.
    pub fn progress(&self) -> (r: (u64, u64))
        requires
            self@.wf(),
        ensures
            r.0 == self@.clock.ticks,
            r.1 == self@.clock.step_ticks(),
            r.0 <= r.1,
    {
        self.clock.progress()
    }

    // --- what the mixer reads -------------------------------------------------

    fn any_soloed(&self) -> (r: bool)
        ensures
            r == self@.any_soloed(),
    {
        let mut t: usize = 0;
        while t < self.tracks.len()
            invariant
                t <= self.tracks@.len(),
                forall|k: int|
                    0 <= k < t ==> !((#[trigger] self.tracks@[k]).active && self.tracks@[k].soloed),
            decreases self.tracks@.len() - t,
        {
            if self.tracks[t].active && self.tracks[t].soloed {
                assert(self@.tracks[t as int].active);
                return true;
            }
            t = t + 1;
        }
        false
    }

    /// The gain a track is heading for. Solo beats mute: if anything is soloed, only soloed
    /// tracks are heard.
    pub fn heading(&self, track: usize) -> (r: Single)
        requires
            self@.wf(),
            track < MAX_TRACKS,
        ensures
            r == self@.heading(track as int),
    {
        let soloing: bool = self.any_soloed();
        let t = &self.tracks[track];
        let audible: bool = t.active && (if soloing {
            t.soloed
        } else {
            !t.muted
        });
        if audible {
            t.target_gain
        } else {
            Single { bits: ZERO }
        }
    }

    /// Where a track's gain is to be at once rather than slide to, if anywhere. Asking is
    /// taking: it is said once.
    pub fn take_jump(&mut self, track: usize) -> (r: Option<Single>)
        requires
            old(self)@.wf(),
            track < MAX_TRACKS,
        ensures
            final(self)@ == old(self)@.with_track(
                track as u16,
                (TrackState { jump: false, ..old(self)@.tracks[track as int] }),
            ),
            final(self)@.wf(),
            final(self).incoming() == old(self).incoming(),
            final(self).ledger() == old(self).ledger(),
            r == (if old(self)@.tracks[track as int].jump {
                Some(old(self)@.tracks[track as int].target_gain)
            } else {
                None
            }),
    {
        let jump: bool = self.tracks[track].jump;
        self.tracks[track].jump = false;
        assert(self@.tracks =~= old(self)@.tracks.update(
            track as int,
            TrackState { jump: false, ..old(self)@.tracks[track as int] },
        ));
        if jump {
            Some(self.tracks[track].target_gain)
        } else {
            None
        }
    }

    /// The gain the whole mix is heading for.
    pub fn master_gain(&self) -> (r: Single)
        ensures
            r == self@.master,
    {
        self.master
    }

    /// Look at one voice.
    pub fn voice(&self, i: usize) -> (r: &Voice)
        requires
            self@.wf(),
            i < MAX_VOICES,
        ensures
            *r == self@.voices.voices[i as int],
    {
        self.voices.voice(i)
    }

    /// One voice, one frame on. Gives the level to sound the frame at, out of
    /// [`FULL`](crate::voice::FULL), or nothing once the voice has faded out.
    pub fn tick(&mut self, i: usize) -> (level: Option<u16>)
        requires
            old(self)@.wf(),
            i < MAX_VOICES,
        ensures
            final(self)@ == (EngineModel {
                voices: old(self)@.voices.ticked(i as int),
                ..old(self)@
            }),
            final(self)@.wf(),
            final(self).incoming() == old(self).incoming(),
            final(self).ledger() == old(self).ledger(),
            level == (if old(self)@.voices.voices[i as int].sounds_next() {
                Some(old(self)@.voices.voices[i as int].faded().env)
            } else {
                None
            }),
    {
        proof {
            lemma_slots_kept(self@.voices, 0, i as int);
        }
        self.voices.tick(i)
    }

    /// A voice's sample has run out.
    pub fn run_out(&mut self, i: usize)
        requires
            old(self)@.wf(),
            i < MAX_VOICES,
        ensures
            final(self)@ == (EngineModel {
                voices: old(self)@.voices.ran_out(i as int),
                ..old(self)@
            }),
            final(self)@.wf(),
            final(self).incoming() == old(self).incoming(),
            final(self).ledger() == old(self).ledger(),
    {
        proof {
            lemma_slots_kept(self@.voices, 0, i as int);
        }
        self.voices.run_out(i);
    }

    /// Deal with a voice that has faded all the way out, once a block has been mixed.
    pub fn land(&mut self, i: usize)
        requires
            old(self)@.wf(),
            i < MAX_VOICES,
        ensures
            final(self)@ == old(self)@.landed(i as int),
            final(self)@.wf(),
            final(self).incoming() == old(self).incoming(),
            old(self).ledger().settles(final(self).ledger()),
    {
        proof {
            lemma_slots_kept(self@.voices, 0, i as int);
        }
        self.voices.land(i, &mut self.trash);
    }

    // --- what is playing ------------------------------------------------------

    /// How long the thing being played is, in steps.
    fn playing_steps(&self) -> (r: u32)
        requires
            self.active_pattern < self.patterns@.len(),
        ensures
            r == self@.playing_steps(),
    {
        if self.song_mode {
            if self.song_len < 1 {
                1
            } else {
                self.song_len
            }
        } else {
            self.patterns[self.active_pattern].steps()
        }
    }

    /// Point the clock at whatever is playing now. A shorter pattern pulls the playhead
    /// back to the top rather than leaving it past the end.
    fn tune_clock(&mut self)
        requires
            old(self).active_pattern < old(self).patterns@.len(),
            old(self)@.clock.wf(),
        ensures
            final(self)@ == old(self)@.tuned(),
            final(self)@.clock.wf(),
            final(self).incoming() == old(self).incoming(),
            final(self).ledger() == old(self).ledger(),
    {
        let steps: u32 = self.playing_steps();
        self.clock.set_steps(steps);
    }

    /// Where in the `lengths` grid a step and a pattern meet.
    fn slot(step: u32, pattern: usize) -> (r: usize)
        requires
            step < MAX_SONG_STEPS,
            pattern < MAX_PATTERNS,
        ensures
            r == slot(step as int, pattern as int),
            r < MAX_SONG_STEPS * MAX_PATTERNS,
    {
        step as usize * MAX_PATTERNS + pattern
    }

    /// Work out where each pattern is up to, given where the playhead is.
    ///
    /// Blocks of one pattern never overlap, so the nearest start behind us is the only one
    /// that could still be sounding: if its length has run out, no earlier one is any
    /// better. Walking back looks at all thirty two patterns at once and stops as soon as
    /// every one has been accounted for. Only needed when the playhead jumps — a seek, a
    /// stop, the top of the song — never while it is simply playing on.
    fn resync_runs(&mut self)
        requires
            old(self)@.wf(),
        ensures
            final(self)@ == old(self)@.resynced(),
            final(self)@.wf(),
            final(self).incoming() == old(self).incoming(),
            final(self).ledger() == old(self).ledger(),
    {
        let ghost was = self@;
        let ghost now = self@.clock.step as int;
        self.clear_runs();
        if !self.song_mode {
            proof {
                assert(self@.run_step =~= was.resynced().run_step);
                assert(self@.run_left =~= was.resynced().run_left);
            }
            return;
        }
        let here: u32 = self.clock.step();
        let mut looking: u32 = 0xffff_ffff;
        let mut back: u32 = 0;
        proof {
            lemma_none_and_all();
        }
        while back <= here && looking != 0
            invariant
                was.wf(),
                was.song_mode,
                here == now == was.clock.step,
                here < MAX_SONG_STEPS,
                back <= here + 1,
                self@ == (EngineModel {
                    run_step: self@.run_step,
                    run_left: self@.run_left,
                    ..was
                }),
                self.incoming() == old(self).incoming(),
                self.ledger() == old(self).ledger(),
                self@.run_step.len() == MAX_PATTERNS,
                self@.run_left.len() == MAX_PATTERNS,
                forall|p: u32|
                    p < MAX_PATTERNS && #[trigger] bit(looking, p) ==> was.nearest_start(
                        p as int,
                        now,
                    ) == was.nearest_start(p as int, now - back) && self@.run_step[p as int] == 0
                        && self@.run_left[p as int] == 0,
                forall|p: u32|
                    p < MAX_PATTERNS && !#[trigger] bit(looking, p) ==> (
                    self@.run_step[p as int],
                    self@.run_left[p as int],
                ) == was.run_at(p as int, now),
            decreases here + 1 - back,
        {
            let step: u32 = here - back;
            let found: u32 = self.starts[step as usize] & looking;
            proof {
                lemma_and(was.starts[step as int], looking);
                lemma_and(looking, found);
            }
            let ghost before = self@;
            let ghost wanted = looking;
            self.pick_up(found, step, back);
            proof {
                assert forall|q: u32|
                    q < MAX_PATTERNS && #[trigger] bit(looking & !found, q) implies was.nearest_start(
                    q as int,
                    now,
                ) == was.nearest_start(q as int, now - back - 1) && self@.run_step[q as int] == 0
                    && self@.run_left[q as int] == 0 by {
                    assert(bit(wanted, q) && !bit(found, q));
                    assert(self@.run_step[q as int] == before.run_step[q as int]);
                    assert(self@.run_left[q as int] == before.run_left[q as int]);
                    assert(!bit(was.starts[step as int], q));
                    assert(!was.starts_at(now - back, q as int));
                }
                assert forall|q: u32|
                    q < MAX_PATTERNS && !#[trigger] bit(looking & !found, q) implies (
                    self@.run_step[q as int],
                    self@.run_left[q as int],
                ) == was.run_at(q as int, now) by {
                    if bit(wanted, q) {
                        assert(bit(found, q));
                        assert(was.starts_at(now - back, q as int));
                        assert(was.nearest_start(q as int, now - back) == step);
                        assert(self@.run_step[q as int] == picked(
                            before,
                            found,
                            step as int,
                            back,
                            q as int,
                        ).0);
                        assert(self@.run_left[q as int] == picked(
                            before,
                            found,
                            step as int,
                            back,
                            q as int,
                        ).1);
                    } else {
                        assert(!bit(found, q));
                        assert(self@.run_step[q as int] == before.run_step[q as int]);
                        assert(self@.run_left[q as int] == before.run_left[q as int]);
                    }
                }
            }
            looking = looking & !found;
            back = back + 1;
        }
        proof {
            lemma_none_and_all();
            assert forall|q: int|
                #![trigger self@.run_step[q]]
                #![trigger self@.run_left[q]]
                0 <= q < MAX_PATTERNS implies self@.run_step[q] == was.run_at(q, now).0
                && self@.run_left[q] == was.run_at(q, now).1 by {
                let p = q as u32;
                if bit(looking, p) {
                    assert(looking != 0);
                    assert(back == here + 1);
                    assert(was.nearest_start(p as int, -1) == -1);
                }
            }
            assert(self@.run_step =~= was.resynced().run_step);
            assert(self@.run_left =~= was.resynced().run_left);
            lemma_resynced(was);
        }
    }

    /// Pick up the patterns that start `back` steps behind the playhead, those of them whose
    /// blocks are still going.
    fn pick_up(&mut self, found: u32, step: u32, back: u32)
        requires
            step < MAX_SONG_STEPS,
            old(self)@.lengths.len() == MAX_SONG_STEPS * MAX_PATTERNS,
            old(self)@.run_step.len() == MAX_PATTERNS,
            old(self)@.run_left.len() == MAX_PATTERNS,
        ensures
            final(self)@ == (EngineModel {
                run_step: Seq::new(
                    MAX_PATTERNS as nat,
                    |p: int| picked(old(self)@, found, step as int, back, p).0,
                ),
                run_left: Seq::new(
                    MAX_PATTERNS as nat,
                    |p: int| picked(old(self)@, found, step as int, back, p).1,
                ),
                ..old(self)@
            }),
            final(self).incoming() == old(self).incoming(),
            final(self).ledger() == old(self).ledger(),
    {
        let ghost before = self@;
        let mut p: usize = 0;
        while p < MAX_PATTERNS
            invariant
                p <= MAX_PATTERNS,
                step < MAX_SONG_STEPS,
                before == old(self)@,
                before.lengths.len() == MAX_SONG_STEPS * MAX_PATTERNS,
                self@ == (EngineModel {
                    run_step: self@.run_step,
                    run_left: self@.run_left,
                    ..before
                }),
                self.incoming() == old(self).incoming(),
                self.ledger() == old(self).ledger(),
                self@.run_step.len() == before.run_step.len() == MAX_PATTERNS,
                self@.run_left.len() == before.run_left.len() == MAX_PATTERNS,
                forall|q: int|
                    0 <= q < p ==> #[trigger] self@.run_step[q] == picked(
                        before,
                        found,
                        step as int,
                        back,
                        q,
                    ).0,
                forall|q: int|
                    0 <= q < p ==> #[trigger] self@.run_left[q] == picked(
                        before,
                        found,
                        step as int,
                        back,
                        q,
                    ).1,
                forall|q: int|
                    p <= q < MAX_PATTERNS ==> #[trigger] self@.run_step[q] == before.run_step[q],
                forall|q: int|
                    p <= q < MAX_PATTERNS ==> #[trigger] self@.run_left[q] == before.run_left[q],
            decreases MAX_PATTERNS - p,
        {
            if bits::test(found, p as u32) {
                let length: u32 = self.lengths[Self::slot(step, p)] as u32;
                if back < length {
                    self.run_step.set(p, back);
                    self.run_left.set(p, length - back);
                }
            }
            p = p + 1;
        }
        assert(self@.run_step =~= Seq::new(
            MAX_PATTERNS as nat,
            |p: int| picked(before, found, step as int, back, p).0,
        ));
        assert(self@.run_left =~= Seq::new(
            MAX_PATTERNS as nat,
            |p: int| picked(before, found, step as int, back, p).1,
        ));
    }

    fn clear_runs(&mut self)
        requires
            old(self)@.run_step.len() == MAX_PATTERNS,
            old(self)@.run_left.len() == MAX_PATTERNS,
        ensures
            final(self)@ == (EngineModel {
                run_step: Seq::new(MAX_PATTERNS as nat, |p: int| 0u32),
                run_left: Seq::new(MAX_PATTERNS as nat, |p: int| 0u32),
                ..old(self)@
            }),
            final(self).incoming() == old(self).incoming(),
            final(self).ledger() == old(self).ledger(),
    {
        let mut p: usize = 0;
        while p < MAX_PATTERNS
            invariant
                p <= MAX_PATTERNS,
                self@ == (EngineModel {
                    run_step: self@.run_step,
                    run_left: self@.run_left,
                    ..old(self)@
                }),
                self.incoming() == old(self).incoming(),
                self.ledger() == old(self).ledger(),
                self@.run_step.len() == MAX_PATTERNS,
                self@.run_left.len() == MAX_PATTERNS,
                forall|q: int| 0 <= q < p ==> #[trigger] self@.run_step[q] == 0,
                forall|q: int| 0 <= q < p ==> #[trigger] self@.run_left[q] == 0,
            decreases MAX_PATTERNS - p,
        {
            self.run_step.set(p, 0);
            self.run_left.set(p, 0);
            p = p + 1;
        }
        assert(self@.run_step =~= Seq::new(MAX_PATTERNS as nat, |p: int| 0u32));
        assert(self@.run_left =~= Seq::new(MAX_PATTERNS as nat, |p: int| 0u32));
    }

    /// Straight to a step of what is playing, with the clock pointed at it first.
    fn jump(&mut self, step: u32)
        requires
            old(self)@.clock.wf(),
            old(self)@.tuned().wf(),
            old(self).active_pattern < old(self).patterns@.len(),
        ensures
            final(self)@ == old(self)@.jumped(step),
            final(self)@.wf(),
            final(self).incoming() == old(self).incoming(),
            final(self).ledger() == old(self).ledger(),
    {
        self.tune_clock();
        self.clock.jump_to(step);
        self.resync_runs();
    }

    /// Back to the top: the first step of the song, or of the pattern.
    fn rewind_all(&mut self)
        requires
            old(self)@.clock.wf(),
            old(self)@.tuned().wf(),
            old(self).active_pattern < old(self).patterns@.len(),
        ensures
            final(self)@ == old(self)@.rewound(),
            final(self)@.wf(),
            final(self).incoming() == old(self).incoming(),
            final(self).ledger() == old(self).ledger(),
    {
        self.jump(0);
    }
}

impl Engine {
    /// Frames a note of so many steps is held for, rounded up to whole ones.
    fn held(&self, length: u16) -> (r: u64)
        requires
            self@.clock.wf(),
        ensures
            r == held_frames(length, self@.clock),
    {
        let steps: u128 = if length < 1 {
            1
        } else {
            length as u128
        };
        let (step, frame) = self.clock.samples_per_step();
        proof {
            lemma_held(steps as int, step as int, frame as int, self@.clock);
        }
        ((steps * (step as u128) + (frame as u128) - 1) / (frame as u128)) as u64
    }

    /// One pattern's notes at one of its own steps.
    fn trigger_pattern(&mut self, pattern: usize, step: u16)
        requires
            old(self)@.tracks.len() == MAX_TRACKS,
            old(self)@.clock.wf(),
            old(self)@.voices.wf(),
            old(self)@.voices.of_slots(),
            pattern < old(self)@.patterns.len(),
            old(self)@.patterns[pattern as int].wf(),
        ensures
            final(self)@ == old(self)@.played(old(self)@.due(pattern as int, step)),
            final(self)@.voices.wf(),
            final(self)@.voices.of_slots(),
            final(self).incoming() == old(self).incoming(),
            old(self).ledger().settles(final(self).ledger()),
    {
        let ghost was = self@;
        let ghost score = was.patterns[pattern as int];
        let mut track: usize = 0;
        proof {
            lemma_nothing_played(was);
        }
        while track < MAX_TRACKS
            invariant
                track <= MAX_TRACKS,
                was == old(self)@,
                score == was.patterns[pattern as int],
                was.tracks.len() == MAX_TRACKS,
                was.clock.wf(),
                pattern < was.patterns.len(),
                score.wf(),
                self@.voices.wf(),
                self@.voices.of_slots(),
                self.incoming() == old(self).incoming(),
                old(self).ledger().settles(self.ledger()),
                self@ == was.played(due_upto(was.tracks, score, was.clock, step, track as int)),
            decreases MAX_TRACKS - track,
        {
            self.trigger_track(pattern, step, track);
            proof {
                lemma_played_both(
                    was,
                    due_upto(was.tracks, score, was.clock, step, track as int),
                    due_on(was.tracks, score, was.clock, step, track as int),
                );
            }
            track = track + 1;
        }
    }

    /// One track's notes at one step of a pattern.
    fn trigger_track(&mut self, pattern: usize, step: u16, track: usize)
        requires
            old(self)@.tracks.len() == MAX_TRACKS,
            old(self)@.clock.wf(),
            old(self)@.voices.wf(),
            old(self)@.voices.of_slots(),
            pattern < old(self)@.patterns.len(),
            old(self)@.patterns[pattern as int].wf(),
            track < MAX_TRACKS,
        ensures
            final(self)@ == old(self)@.played(
                due_on(
                    old(self)@.tracks,
                    old(self)@.patterns[pattern as int],
                    old(self)@.clock,
                    step,
                    track as int,
                ),
            ),
            final(self)@.voices.wf(),
            final(self)@.voices.of_slots(),
            final(self).incoming() == old(self).incoming(),
            old(self).ledger().settles(final(self).ledger()),
    {
        let ghost was = self@;
        let ghost score = was.patterns[pattern as int];
        proof {
            lemma_nothing_played(was);
        }
        if !self.tracks[track].active {
            return;
        }
        // Sharing the `Arc` is one atomic increment and the track keeps its own
        // reference, so nothing can be freed here.
        let sample: Arc<Sample> = match &self.tracks[track].sample {
            Some(sample) => share(sample),
            None => {
                return;
            },
        };
        let instrument: bool = self.patterns[pattern].is_pitched(track);
        let count: usize = self.patterns[pattern].count(track);
        let ghost notes = score.tracks[track as int];
        let ghost heard = heard_at(step, instrument);
        let ghost ask = asking(sample, track as u16, instrument, was.clock);
        let mut i: usize = 0;
        proof {
            reveal(Seq::filter);
            assert(notes.take(0) =~= Seq::empty());
            assert(notes.take(0).filter(heard).map_values(ask) =~= Seq::empty());
        }
        while i < count
            invariant
                i <= count == notes.len(),
                was == old(self)@,
                score == was.patterns[pattern as int],
                notes == score.tracks[track as int],
                heard == heard_at(step, instrument),
                ask == asking(sample, track as u16, instrument, was.clock),
                was.clock.wf(),
                pattern < was.patterns.len(),
                score.wf(),
                track < MAX_TRACKS,
                self@.voices.wf(),
                self@.voices.of_slots(),
                self.incoming() == old(self).incoming(),
                old(self).ledger().settles(self.ledger()),
                self@ == was.played(notes.take(i as int).filter(heard).map_values(ask)),
            decreases count - i,
        {
            let note: EngineNote = self.patterns[pattern].note(track, i);
            let ghost so_far = notes.take(i as int).filter(heard).map_values(ask);
            proof {
                reveal(Seq::filter);
                let upto = notes.take(i as int + 1);
                assert(upto.drop_last() =~= notes.take(i as int));
                assert(upto.last() == note);
            }
            if note.step == step && (instrument || note.pitch == DEFAULT_PITCH) {
                let trigger = Trigger {
                    sample: share(&sample),
                    track: track as u16,
                    pitch: note.pitch,
                    level: Level::Velocity(note.velocity),
                    hold: if instrument {
                        Some(self.held(note.length))
                    } else {
                        None
                    },
                };
                proof {
                    assert(trigger == ask(note));
                    lemma_played_next(was, so_far, trigger);
                    assert(notes.take(i as int + 1).filter(heard).map_values(ask) =~= so_far.push(
                        trigger,
                    ));
                }
                proof {
                    lemma_slots_triggered(self@.voices, trigger);
                }
                self.voices.trigger(trigger, &mut self.trash);
            }
            i = i + 1;
        }
        assert(notes.take(count as int) =~= notes);
    }

    /// Everything due on this step gets a voice.
    ///
    /// `step` is the step of the song in song mode and the step of the pattern otherwise.
    fn trigger_step(&mut self, step: u32)
        requires
            old(self)@.wf(),
            step < old(self)@.clock.steps,
        ensures
            final(self)@ == old(self)@.stepped(step),
            final(self)@.wf(),
            final(self).incoming() == old(self).incoming(),
            old(self).ledger().settles(final(self).ledger()),
    {
        if !self.song_mode {
            proof {
                lemma_none_and_all();
            }
            self.sounding = bits::with(0, self.active_pattern as u32);
            self.trigger_pattern(self.active_pattern, step as u16);
            return;
        }
        let ghost was = self@;
        self.sounding = 0;
        let mut p: usize = 0;
        proof {
            lemma_nothing_played(was);
        }
        while p < MAX_PATTERNS
            invariant
                p <= MAX_PATTERNS,
                was == old(self)@,
                was.wf(),
                was.song_mode,
                step < was.clock.steps,
                self.incoming() == old(self).incoming(),
                old(self).ledger().settles(self.ledger()),
                self@.voices.wf(),
                self@.voices.of_slots(),
                self@ == (EngineModel {
                    sounding: was.sounding_upto(step as int, p as int),
                    run_step: self@.run_step,
                    run_left: self@.run_left,
                    ..was.played(was.song_due_upto(step as int, p as int))
                }),
                self@.run_step.len() == MAX_PATTERNS,
                self@.run_left.len() == MAX_PATTERNS,
                forall|q: int|
                    0 <= q < p ==> #[trigger] self@.run_step[q] == was.run_step_after(
                        step as int,
                        q,
                    ),
                forall|q: int|
                    0 <= q < p ==> #[trigger] self@.run_left[q] == was.run_left_after(
                        step as int,
                        q,
                    ),
                forall|q: int|
                    p <= q < MAX_PATTERNS ==> #[trigger] self@.run_step[q] == was.run_step[q],
                forall|q: int|
                    p <= q < MAX_PATTERNS ==> #[trigger] self@.run_left[q] == was.run_left[q],
            decreases MAX_PATTERNS - p,
        {
            proof {
                assert(was.patterns[p as int].wf());
                assert(was.run_step[p as int] + was.run_left[p as int] <= 0xffff);
                assert(was.playing_steps() <= MAX_SONG_STEPS);
            }
            if bits::test(self.starts[step as usize], p as u32) {
                // A block begins here, so the pattern starts from its own first step.
                self.run_step.set(p, 0);
                let length: u32 = self.lengths[Self::slot(step, p)] as u32;
                self.run_left.set(p, length);
            }
            assert(self@.run_step[p as int] == was.entering(step as int, p as int).0);
            assert(self@.run_left[p as int] == was.entering(step as int, p as int).1);
            if self.run_left[p] > 0 {
                self.sounding = bits::with(self.sounding, p as u32);
                // A block longer than its pattern comes round again rather than going quiet.
                let at: u16 = (self.run_step[p] % self.patterns[p].steps()) as u16;
                self.trigger_pattern(p, at);
                proof {
                    lemma_played_both(
                        was,
                        was.song_due_upto(step as int, p as int),
                        was.due(p as int, at),
                    );
                }
                let gone: u32 = self.run_step[p] + 1;
                let left: u32 = self.run_left[p] - 1;
                self.run_step.set(p, gone);
                self.run_left.set(p, left);
            }
            p = p + 1;
        }
        proof {
            assert(self@.run_step =~= was.stepped(step).run_step);
            assert(self@.run_left =~= was.stepped(step).run_left);
            assert forall|q: int| 0 <= q < MAX_PATTERNS implies #[trigger] self@.run_step[q]
                + self@.run_left[q] <= 0xffff by {
                assert(was.run_step[q] + was.run_left[q] <= 0xffff);
                assert(self@.run_left[q] == was.run_left_after(step as int, q));
            }
        }
    }

    /// Drop a track's notes everywhere. A deleted track must not keep playing out of a
    /// pattern nobody is looking at, and a new track in a reused slot starts empty.
    fn forget_track(&mut self, track: u16)
        requires
            old(self)@.wf(),
        ensures
            final(self)@ == old(self)@.forgetting(track),
            final(self)@.wf(),
            final(self).incoming() == old(self).incoming(),
            final(self).ledger() == old(self).ledger(),
    {
        if track as usize >= MAX_TRACKS {
            return;
        }
        let ghost was = self@;
        let mut p: usize = 0;
        while p < MAX_PATTERNS
            invariant
                p <= MAX_PATTERNS,
                track < MAX_TRACKS,
                was == old(self)@,
                was.wf(),
                self.incoming() == old(self).incoming(),
                self.ledger() == old(self).ledger(),
                self@ == (EngineModel { patterns: self@.patterns, ..was }),
                self@.patterns.len() == MAX_PATTERNS,
                forall|q: int|
                    0 <= q < p ==> #[trigger] self@.patterns[q] == forgotten(track)(
                        was.patterns[q],
                    ),
                forall|q: int|
                    p <= q < MAX_PATTERNS ==> #[trigger] self@.patterns[q] == was.patterns[q],
            decreases MAX_PATTERNS - p,
        {
            let ghost before = self@;
            proof {
                assert(was.patterns[p as int].wf());
                assert(before.patterns[p as int] == was.patterns[p as int]);
            }
            self.patterns[p].forget_track(track as usize);
            proof {
                assert(self@.patterns =~= before.patterns.update(
                    p as int,
                    forgotten(track)(was.patterns[p as int]),
                ));
            }
            p = p + 1;
        }
        proof {
            assert(self@.patterns =~= was.forgetting(track).patterns);
            assert forall|q: int| 0 <= q < self@.patterns.len() implies (
            #[trigger] self@.patterns[q]).wf() && self@.patterns[q].steps == was.patterns[q].steps by {
                assert(was.patterns[q].wf());
            }
        }
    }

    /// Put a sample in a track's slot, or nothing, handing back what was there.
    fn replace_sample(&mut self, track: usize, sample: Option<Arc<Sample>>)
        requires
            old(self)@.wf(),
            track < MAX_TRACKS,
        ensures
            final(self)@ == old(self)@.sample_replaced(track as u16, sample),
            final(self)@.wf(),
            final(self).incoming() == old(self).incoming(),
            old(self).ledger().settles(final(self).ledger()),
    {
        match self.tracks[track].sample.take() {
            Some(old) => self.trash.put(old),
            None => {},
        }
        self.tracks[track].sample = sample;
        assert(self@.tracks =~= old(self)@.sample_replaced(track as u16, sample).tracks);
    }

    /// One pattern's notes put right after one of them has changed.
    proof fn lemma_score(was: EngineModel, now: EngineModel, pattern: int, score: ScoreModel)
        requires
            was.wf(),
            0 <= pattern < MAX_PATTERNS,
            score.wf(),
            score.steps == was.patterns[pattern].steps,
            now == (EngineModel { patterns: was.patterns.update(pattern, score), ..was }),
        ensures
            now.wf(),
    {
    }

    fn set_pattern_steps(&mut self, pattern: u16, steps: u32)
        requires
            old(self)@.wf(),
        ensures
            final(self)@ == old(self)@.applied(Command::SetPatternSteps { pattern, steps }),
            final(self)@.wf(),
            final(self).incoming() == old(self).incoming(),
            final(self).ledger() == old(self).ledger(),
    {
        let p: usize = pattern as usize;
        if p < MAX_PATTERNS {
            assert(self@.patterns[p as int].wf());
            self.patterns[p].set_steps(steps);
            assert(self@.patterns =~= old(self)@.patterns.update(
                p as int,
                ScoreModel { steps: playable(steps), ..old(self)@.patterns[p as int] },
            ));
            // The song's length comes from the app thread, which knows where every placement
            // now sits; only the pattern the editor is looping is our business.
            self.tune_clock();
        }
    }

    fn set_note(&mut self, pattern: u16, track: u16, note: EngineNote)
        requires
            old(self)@.wf(),
        ensures
            final(self)@ == old(self)@.applied(Command::SetNote { pattern, track, note }),
            final(self)@.wf(),
            final(self).incoming() == old(self).incoming(),
            final(self).ledger() == old(self).ledger(),
    {
        let p: usize = pattern as usize;
        let t: usize = track as usize;
        if p < MAX_PATTERNS && t < MAX_TRACKS {
            assert(self@.patterns[p as int].wf());
            self.patterns[p].set_note(t, note);
            proof {
                let score = old(self)@.patterns[p as int].with_note(t as int, note);
                assert(self@.patterns =~= old(self)@.patterns.update(p as int, score));
                Self::lemma_score(old(self)@, self@, p as int, score);
            }
        }
    }

    fn clear_note(&mut self, pattern: u16, track: u16, step: u16, pitch: u8)
        requires
            old(self)@.wf(),
        ensures
            final(self)@ == old(self)@.applied(Command::ClearNote { pattern, track, step, pitch }),
            final(self)@.wf(),
            final(self).incoming() == old(self).incoming(),
            final(self).ledger() == old(self).ledger(),
    {
        let p: usize = pattern as usize;
        let t: usize = track as usize;
        if p < MAX_PATTERNS && t < MAX_TRACKS {
            assert(self@.patterns[p as int].wf());
            self.patterns[p].clear_note(t, step, pitch);
            proof {
                let score = old(self)@.patterns[p as int].without_note(t as int, step, pitch);
                assert(self@.patterns =~= old(self)@.patterns.update(p as int, score));
                Self::lemma_score(old(self)@, self@, p as int, score);
            }
        }
    }

    fn clear_notes(&mut self, pattern: u16, track: u16)
        requires
            old(self)@.wf(),
        ensures
            final(self)@ == old(self)@.applied(Command::ClearNotes { pattern, track }),
            final(self)@.wf(),
            final(self).incoming() == old(self).incoming(),
            final(self).ledger() == old(self).ledger(),
    {
        let p: usize = pattern as usize;
        let t: usize = track as usize;
        if p < MAX_PATTERNS && t < MAX_TRACKS {
            assert(self@.patterns[p as int].wf());
            self.patterns[p].clear_notes(t);
            proof {
                let score = old(self)@.patterns[p as int].without_notes(t as int);
                assert(self@.patterns =~= old(self)@.patterns.update(p as int, score));
                Self::lemma_score(old(self)@, self@, p as int, score);
            }
        }
    }

    fn clear_pattern(&mut self, pattern: u16)
        requires
            old(self)@.wf(),
        ensures
            final(self)@ == old(self)@.applied(Command::ClearPattern { pattern }),
            final(self)@.wf(),
            final(self).incoming() == old(self).incoming(),
            final(self).ledger() == old(self).ledger(),
    {
        let p: usize = pattern as usize;
        if p < MAX_PATTERNS {
            assert(self@.patterns[p as int].wf());
            self.patterns[p].clear();
            proof {
                let score = old(self)@.patterns[p as int].emptied();
                assert(self@.patterns =~= old(self)@.patterns.update(p as int, score));
                Self::lemma_score(old(self)@, self@, p as int, score);
            }
        }
    }

    fn set_pitched(&mut self, pattern: u16, track: u16, pitched: bool)
        requires
            old(self)@.wf(),
        ensures
            final(self)@ == old(self)@.applied(
                Command::SetPatternPitched { pattern, track, pitched },
            ),
            final(self)@.wf(),
            final(self).incoming() == old(self).incoming(),
            final(self).ledger() == old(self).ledger(),
    {
        let p: usize = pattern as usize;
        let t: usize = track as usize;
        if p < MAX_PATTERNS && t < MAX_TRACKS {
            assert(self@.patterns[p as int].wf());
            self.patterns[p].set_pitched(t, pitched);
            proof {
                let score = old(self)@.patterns[p as int].with_pitched(t as u32, pitched);
                assert(self@.patterns =~= old(self)@.patterns.update(p as int, score));
                Self::lemma_score(old(self)@, self@, p as int, score);
            }
        }
    }

    /// Editing the song while it plays does not restart anything: whatever is sounding keeps
    /// its place, which is what you want while you paint.
    fn place(&mut self, pattern: u16, step: u32, length: u32)
        requires
            old(self)@.wf(),
        ensures
            final(self)@ == old(self)@.placed(pattern, step, length),
            final(self)@.wf(),
            final(self).incoming() == old(self).incoming(),
            final(self).ledger() == old(self).ledger(),
    {
        let p: usize = pattern as usize;
        if p < MAX_PATTERNS && (step as usize) < MAX_SONG_STEPS {
            let fill: u16 = if length < 1 {
                1
            } else if length > MAX_SONG_STEPS as u32 {
                MAX_SONG_STEPS as u16
            } else {
                length as u16
            };
            let starting: u32 = bits::with(self.starts[step as usize], p as u32);
            self.starts.set(step as usize, starting);
            let at: usize = Self::slot(step, p);
            self.lengths.set(at, fill);
        }
    }

    fn unplace(&mut self, pattern: u16, step: u32)
        requires
            old(self)@.wf(),
        ensures
            final(self)@ == old(self)@.unplaced(pattern, step),
            final(self)@.wf(),
            final(self).incoming() == old(self).incoming(),
            final(self).ledger() == old(self).ledger(),
    {
        let p: usize = pattern as usize;
        if p < MAX_PATTERNS && (step as usize) < MAX_SONG_STEPS {
            let starting: u32 = bits::without(self.starts[step as usize], p as u32);
            self.starts.set(step as usize, starting);
            let at: usize = Self::slot(step, p);
            self.lengths.set(at, 0);
        }
    }

    fn clear_song(&mut self)
        requires
            old(self)@.wf(),
        ensures
            final(self)@ == old(self)@.song_cleared(),
            final(self)@.wf(),
            final(self).incoming() == old(self).incoming(),
            final(self).ledger() == old(self).ledger(),
    {
        wipe(&mut self.starts);
        wipe_lengths(&mut self.lengths);
        wipe(&mut self.run_left);
        self.song_len = 0;
        self.tune_clock();
    }

    fn set_playing(&mut self, playing: bool)
        requires
            old(self)@.wf(),
        ensures
            final(self)@ == old(self)@.applied(Command::SetPlaying(playing)),
            final(self)@.wf(),
            final(self).incoming() == old(self).incoming(),
            final(self).ledger() == old(self).ledger(),
    {
        self.playing = playing;
        if !playing {
            // Stop leaves ringing voices to finish; it is not a panic button.
            self.rewind_all();
        }
    }

    fn add_track(&mut self, track: u16, gain: Single)
        requires
            old(self)@.wf(),
        ensures
            final(self)@ == old(self)@.applied(Command::AddTrack { track, gain }),
            final(self)@.wf(),
            final(self).incoming() == old(self).incoming(),
            final(self).ledger() == old(self).ledger(),
    {
        let t: usize = track as usize;
        if t < MAX_TRACKS {
            self.tracks[t].active = true;
            self.tracks[t].muted = false;
            self.tracks[t].soloed = false;
            self.tracks[t].target_gain = allow(gain);
            self.tracks[t].jump = true;
            assert(self@.tracks =~= old(self)@.tracks.update(
                t as int,
                TrackState {
                    active: true,
                    muted: false,
                    soloed: false,
                    target_gain: allowed(gain),
                    jump: true,
                    sample: old(self)@.tracks[t as int].sample,
                },
            ));
        }
        self.forget_track(track);
    }

    fn remove_track(&mut self, track: u16)
        requires
            old(self)@.wf(),
        ensures
            final(self)@ == old(self)@.applied(Command::RemoveTrack { track }),
            final(self)@.wf(),
            final(self).incoming() == old(self).incoming(),
            old(self).ledger().settles(final(self).ledger()),
    {
        proof {
            lemma_slots_kept(self@.voices, track, 0);
        }
        self.voices.release_track(track, &mut self.trash);
        let t: usize = track as usize;
        if t < MAX_TRACKS {
            self.replace_sample(t, None);
            let ghost gone = self@;
            self.tracks[t].active = false;
            assert(self@.tracks =~= gone.tracks.update(
                t as int,
                TrackState { active: false, ..gone.tracks[t as int] },
            ));
        }
        self.forget_track(track);
    }

    fn set_track_sample(&mut self, track: u16, sample: Option<Arc<Sample>>)
        requires
            old(self)@.wf(),
        ensures
            final(self)@ == old(self)@.applied(Command::SetTrackSample { track, sample }),
            final(self)@.wf(),
            final(self).incoming() == old(self).incoming(),
            old(self).ledger().settles(final(self).ledger()),
    {
        proof {
            lemma_slots_kept(self@.voices, track, 0);
        }
        self.voices.release_track(track, &mut self.trash);
        let t: usize = track as usize;
        if t < MAX_TRACKS {
            self.replace_sample(t, sample);
        } else {
            match sample {
                Some(sample) => self.trash.put(sample),
                None => {},
            }
        }
    }

    fn set_track_gain(&mut self, track: u16, gain: Single)
        requires
            old(self)@.wf(),
        ensures
            final(self)@ == old(self)@.applied(Command::SetTrackGain { track, gain }),
            final(self)@.wf(),
            final(self).incoming() == old(self).incoming(),
            final(self).ledger() == old(self).ledger(),
    {
        let t: usize = track as usize;
        if t < MAX_TRACKS {
            self.tracks[t].target_gain = allow(gain);
            assert(self@.tracks =~= old(self)@.tracks.update(
                t as int,
                TrackState { target_gain: allowed(gain), ..old(self)@.tracks[t as int] },
            ));
        }
    }

    fn set_track_muted(&mut self, track: u16, muted: bool)
        requires
            old(self)@.wf(),
        ensures
            final(self)@ == old(self)@.applied(Command::SetTrackMuted { track, muted }),
            final(self)@.wf(),
            final(self).incoming() == old(self).incoming(),
            final(self).ledger() == old(self).ledger(),
    {
        let t: usize = track as usize;
        if t < MAX_TRACKS {
            self.tracks[t].muted = muted;
            assert(self@.tracks =~= old(self)@.tracks.update(
                t as int,
                TrackState { muted, ..old(self)@.tracks[t as int] },
            ));
        }
    }

    fn set_track_soloed(&mut self, track: u16, soloed: bool)
        requires
            old(self)@.wf(),
        ensures
            final(self)@ == old(self)@.applied(Command::SetTrackSoloed { track, soloed }),
            final(self)@.wf(),
            final(self).incoming() == old(self).incoming(),
            final(self).ledger() == old(self).ledger(),
    {
        let t: usize = track as usize;
        if t < MAX_TRACKS {
            self.tracks[t].soloed = soloed;
            assert(self@.tracks =~= old(self)@.tracks.update(
                t as int,
                TrackState { soloed, ..old(self)@.tracks[t as int] },
            ));
        }
    }

    fn set_active_pattern(&mut self, pattern: u16)
        requires
            old(self)@.wf(),
        ensures
            final(self)@ == old(self)@.applied(Command::SetActivePattern(pattern)),
            final(self)@.wf(),
            final(self).incoming() == old(self).incoming(),
            final(self).ledger() == old(self).ledger(),
    {
        if (pattern as usize) < MAX_PATTERNS {
            assert(self@.patterns[pattern as int].wf());
            self.active_pattern = pattern as usize;
            self.tune_clock();
        }
    }

    fn set_song_mode(&mut self, on: bool)
        requires
            old(self)@.wf(),
        ensures
            final(self)@ == old(self)@.applied(Command::SetSongMode(on)),
            final(self)@.wf(),
            final(self).incoming() == old(self).incoming(),
            final(self).ledger() == old(self).ledger(),
    {
        assert(self@.patterns[self@.active_pattern].wf());
        self.song_mode = on;
        self.rewind_all();
    }

    fn set_song_len(&mut self, len: u32)
        requires
            old(self)@.wf(),
        ensures
            final(self)@ == old(self)@.applied(Command::SetSongLen(len)),
            final(self)@.wf(),
            final(self).incoming() == old(self).incoming(),
            final(self).ledger() == old(self).ledger(),
    {
        assert(self@.patterns[self@.active_pattern].wf());
        self.song_len = if len > MAX_SONG_STEPS as u32 {
            MAX_SONG_STEPS as u32
        } else {
            len
        };
        self.tune_clock();
    }

    fn audition(&mut self, track: u16, pitch: u8, velocity: u8)
        requires
            old(self)@.wf(),
        ensures
            final(self)@ == old(self)@.applied(Command::Audition { track, pitch, velocity }),
            final(self)@.wf(),
            final(self).incoming() == old(self).incoming(),
            old(self).ledger().settles(final(self).ledger()),
    {
        let t: usize = track as usize;
        if t < MAX_TRACKS {
            let sample: Option<Arc<Sample>> = match &self.tracks[t].sample {
                Some(sample) => Some(share(sample)),
                None => None,
            };
            match sample {
                Some(sample) => {
                    let trigger = Trigger {
                        sample,
                        track,
                        pitch,
                        level: Level::Velocity(velocity),
                        // Clicking a row is "let me hear it", so it plays out whatever the
                        // track is.
                        hold: None,
                    };
                    proof {
                        lemma_slots_triggered(self@.voices, trigger);
                    }
                    self.voices.trigger(trigger, &mut self.trash);
                },
                None => {},
            }
        }
    }

    fn preview(&mut self, sample: Arc<Sample>, gain: Single)
        requires
            old(self)@.wf(),
        ensures
            final(self)@ == old(self)@.applied(Command::Preview { sample, gain }),
            final(self)@.wf(),
            final(self).incoming() == old(self).incoming(),
            old(self).ledger().settles(final(self).ledger()),
    {
        let trigger = Trigger {
            sample,
            track: PREVIEW_TRACK,
            pitch: DEFAULT_PITCH,
            level: Level::Gain(gain),
            hold: None,
        };
        proof {
            lemma_slots_triggered(self@.voices, trigger);
        }
        self.voices.trigger(trigger, &mut self.trash);
    }

    fn stop_all(&mut self)
        requires
            old(self)@.wf(),
        ensures
            final(self)@ == old(self)@.applied(Command::StopAll),
            final(self)@.wf(),
            final(self).incoming() == old(self).incoming(),
            old(self).ledger().settles(final(self).ledger()),
    {
        self.playing = false;
        self.rewind_all();
        proof {
            lemma_slots_kept(self@.voices, 0, 0);
        }
        self.voices.release_all(&mut self.trash);
    }

    /// Do as the app thread says. A command that arrives for something that has gone is ignored
    /// rather than a panic.
    pub fn apply(&mut self, command: Command)
        requires
            old(self)@.wf(),
        ensures
            final(self)@ == old(self)@.applied(command),
            final(self)@.wf(),
            final(self).incoming() == old(self).incoming(),
            old(self).ledger().settles(final(self).ledger()),
    {
        match command {
            Command::SetPlaying(playing) => self.set_playing(playing),
            Command::Rewind => self.rewind_all(),
            Command::SetBpm(bpm) => {
                if !bpm.is_nan() {
                    self.clock.set_bpm(bpm);
                }
            },
            Command::SetMasterGain(gain) => {
                self.master = allow(gain);
            },
            Command::AddTrack { track, gain } => self.add_track(track, gain),
            Command::RemoveTrack { track } => self.remove_track(track),
            Command::SetTrackSample { track, sample } => self.set_track_sample(track, sample),
            Command::SetTrackGain { track, gain } => self.set_track_gain(track, gain),
            Command::SetTrackMuted { track, muted } => self.set_track_muted(track, muted),
            Command::SetTrackSoloed { track, soloed } => self.set_track_soloed(track, soloed),
            Command::SetPatternPitched { pattern, track, pitched } => {
                self.set_pitched(pattern, track, pitched)
            },
            Command::SetPatternSteps { pattern, steps } => self.set_pattern_steps(pattern, steps),
            Command::SetNote { pattern, track, note } => self.set_note(pattern, track, note),
            Command::ClearNote { pattern, track, step, pitch } => {
                self.clear_note(pattern, track, step, pitch)
            },
            Command::ClearNotes { pattern, track } => self.clear_notes(pattern, track),
            Command::ClearPattern { pattern } => self.clear_pattern(pattern),
            Command::SetActivePattern(pattern) => self.set_active_pattern(pattern),
            Command::SetSongMode(on) => self.set_song_mode(on),
            Command::SetSongLen(len) => self.set_song_len(len),
            Command::ClearSong => self.clear_song(),
            Command::PlacePattern { pattern, step, length } => self.place(pattern, step, length),
            Command::UnplacePattern { pattern, step } => self.unplace(pattern, step),
            Command::SeekSong(step) => self.jump(step),
            Command::Audition { track, pitch, velocity } => self.audition(track, pitch, velocity),
            Command::Preview { sample, gain } => self.preview(sample, gain),
            Command::StopAll => self.stop_all(),
        }
    }
}

/// A gain the engine will apply.
fn allow(gain: Single) -> (r: Single)
    ensures
        r == allowed(gain),
{
    gain.clamp(Single { bits: ZERO }, Single { bits: TWO })
}

fn wipe(list: &mut Vec<u32>)
    ensures
        final(list)@ == Seq::new(old(list)@.len(), |i: int| 0u32),
{
    let n: usize = list.len();
    let mut i: usize = 0;
    while i < n
        invariant
            i <= n == list@.len() == old(list)@.len(),
            forall|k: int| 0 <= k < i ==> #[trigger] list@[k] == 0,
        decreases n - i,
    {
        list.set(i, 0);
        i = i + 1;
    }
    assert(list@ =~= Seq::new(old(list)@.len(), |i: int| 0u32));
}

fn wipe_lengths(list: &mut Vec<u16>)
    ensures
        final(list)@ == Seq::new(old(list)@.len(), |i: int| 0u16),
{
    let n: usize = list.len();
    let mut i: usize = 0;
    while i < n
        invariant
            i <= n == list@.len() == old(list)@.len(),
            forall|k: int| 0 <= k < i ==> #[trigger] list@[k] == 0,
        decreases n - i,
    {
        list.set(i, 0);
        i = i + 1;
    }
    assert(list@ =~= Seq::new(old(list)@.len(), |i: int| 0u16));
}

/// A held note is never so long that its frames cannot be counted.
proof fn lemma_held(steps: int, step: int, frame: int, clock: ClockModel)
    requires
        clock.wf(),
        1 <= steps <= 0xffff,
        step == clock.step_ticks(),
        frame == clock.frame_ticks(),
    ensures
        0 < step <= 0x80_0000_0000_0000,
        0 < frame <= 0xc80_0000,
        0 <= steps * step <= 0xffff * 0x80_0000_0000_0000,
        0 <= (steps * step + frame - 1) / frame <= u64::MAX,
{
    crate::clock::lemma_tempo(clock.bpm);
    assert(0 <= steps * step <= 0xffff * 0x80_0000_0000_0000) by (nonlinear_arith)
        requires
            1 <= steps <= 0xffff,
            0 < step <= 0x80_0000_0000_0000,
    ;
    let total = steps * step + frame - 1;
    assert(0 <= total / frame) by (nonlinear_arith)
        requires
            total >= 0,
            frame > 0,
    ;
    // A frame is at least 0xa0_0000 ticks, so there are far fewer frames than ticks.
    assert(total / frame <= total / 0xa0_0000) by {
        vstd::arithmetic::div_mod::lemma_div_is_ordered_by_denominator(total, 0xa0_0000, frame);
    }
}

/// Where a pattern is once those found to start at a step have been picked up.
spec fn picked(m: EngineModel, found: u32, step: int, back: u32, pattern: int) -> (u32, u32) {
    let length = m.length_at(step, pattern);
    if bit(found, pattern as u32) && back < length {
        (back, (length - back) as u32)
    } else {
        (m.run_step[pattern], m.run_left[pattern])
    }
}

fn nothings(n: usize) -> (r: Vec<u32>)
    ensures
        r@ == Seq::new(n as nat, |i: int| 0u32),
{
    let mut r: Vec<u32> = Vec::with_capacity(n);
    let mut i: usize = 0;
    while i < n
        invariant
            i <= n,
            r@.len() == i,
            forall|k: int| 0 <= k < i ==> #[trigger] r@[k] == 0,
        decreases n - i,
    {
        r.push(0);
        i = i + 1;
    }
    assert(r@ =~= Seq::new(n as nat, |i: int| 0u32));
    r
}

fn no_lengths(n: usize) -> (r: Vec<u16>)
    ensures
        r@ == Seq::new(n as nat, |i: int| 0u16),
{
    let mut r: Vec<u16> = Vec::with_capacity(n);
    let mut i: usize = 0;
    while i < n
        invariant
            i <= n,
            r@.len() == i,
            forall|k: int| 0 <= k < i ==> #[trigger] r@[k] == 0,
        decreases n - i,
    {
        r.push(0);
        i = i + 1;
    }
    assert(r@ =~= Seq::new(n as nat, |i: int| 0u16));
    r
}

} // verus!
