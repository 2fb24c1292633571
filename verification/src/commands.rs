//! Everything the front end can ask for.
//!
//! Every one of these that changes the project does two things in the same order: change the
//! project, and say what the audio thread is to be told. The caller sends it, and marks the
//! project for saving when it is said to have been touched.

use std::sync::Arc;

use vstd::prelude::*;
use vstd::string::{StrSliceExecFns, StringExecFns};

use crate::command::{share, Command, EngineNote};
use crate::lane::{at, LaneModel, Note};
use crate::pattern::{not_empty, on_track, PatternModel};
use crate::placement::Placement;
use crate::project::{not_starting, pattern_called, song_end, whole_bars, Project, ProjectModel, SampleRef, Track};
use crate::sample::Sample;
use crate::seqs::{lemma_first_kept, lemma_first_where, lemma_first_where_bounds};
use crate::single::{Single, DEFAULT_GAIN, FASTEST_OFFERED, ONE_AND_A_HALF, SLOWEST_OFFERED, ZERO};
use crate::telling::{
    pattern_told, placement_told, push_pattern, push_placement, push_song, song_told,
};
use crate::text::{append_number, digits, shorten, shortened, trim, trimmed};
use crate::{DEFAULT_PITCH, DEFAULT_STEPS, MAX_PATTERNS, MAX_SONG_STEPS, STEPS_PER_BAR};

verus! {

/// How hard a row is hit when it is clicked to be heard.
pub const AUDITION_VELOCITY: u8 = 110;

/// Characters in the longest name a pattern can be given.
pub const LONGEST_NAME: usize = 40;

/// The answer to something the front end asked for.
pub struct Told<R> {
    /// What the front end is told.
    pub reply: R,
    /// What the audio thread is told.
    pub commands: Vec<Command>,
    /// Whether the project is to be marked for saving.
    pub touched: bool,
}

/// What came of putting a note down: whether it went in — a pattern holds only so many —
/// and how long the pattern is now, since a note past the end makes it longer.
#[derive(Clone, Copy, Debug, PartialEq, Eq, Structural)]
pub struct NotePut {
    pub fits: bool,
    pub steps: u32,
}

impl NotePut {
    fn nowhere() -> (r: Self)
        ensures
            r == (NotePut { fits: false, steps: 0 }),
    {
        NotePut { fits: false, steps: 0 }
    }
}

/// Where a note is: the two things that identify one inside a lane.
#[derive(Clone, Copy, Debug, PartialEq, Eq, Structural)]
pub struct At {
    pub step: u32,
    pub pitch: u8,
}

fn none() -> (r: Vec<Command>)
    ensures
        r@ == Seq::<Command>::empty(),
{
    Vec::new()
}

fn just(command: Command) -> (r: Vec<Command>)
    ensures
        r@ == seq![command],
{
    let mut out: Vec<Command> = Vec::new();
    out.push(command);
    assert(out@ =~= seq![command]);
    out
}

fn join(first: Vec<Command>, second: Vec<Command>) -> (r: Vec<Command>)
    ensures
        r@ == first@ + second@,
{
    let mut out: Vec<Command> = first;
    let mut rest: Vec<Command> = second;
    out.append(&mut rest);
    out
}

// --- instruments --------------------------------------------------------------

pub open spec fn fader(gain: Single) -> Single {
    gain.clamped(Single { bits: ZERO }, Single { bits: ONE_AND_A_HALF })
}

pub fn set_track_gain(project: &mut Project, id: u16, gain: Single) -> (r: Told<()>)
    ensures
        final(project)@ == (if old(project)@.has_track(id) {
            old(project)@.with_track(
                id,
                (Track {
                    gain: fader(gain),
                    ..old(project)@.tracks[old(project)@.track_at(id)]
                }),
            )
        } else {
            old(project)@
        }),
        r.commands@ == (if old(project)@.has_track(id) {
            seq![Command::SetTrackGain { track: id, gain: fader(gain) }]
        } else {
            Seq::empty()
        }),
        r.touched,
{
    let next = gain.clamp(Single { bits: ZERO }, Single { bits: ONE_AND_A_HALF });
    match project.track_mut(id) {
        Some(track) => {
            track.gain = next;
            let commands = just(Command::SetTrackGain { track: id, gain: next });
            Told { reply: (), commands, touched: true }
        },
        None => Told { reply: (), commands: none(), touched: true },
    }
}

pub fn set_track_muted(project: &mut Project, id: u16, muted: bool) -> (r: Told<()>)
    ensures
        final(project)@ == (if old(project)@.has_track(id) {
            old(project)@.with_track(
                id,
                (Track { muted, ..old(project)@.tracks[old(project)@.track_at(id)] }),
            )
        } else {
            old(project)@
        }),
        r.commands@ == (if old(project)@.has_track(id) {
            seq![Command::SetTrackMuted { track: id, muted }]
        } else {
            Seq::empty()
        }),
        r.touched,
{
    match project.track_mut(id) {
        Some(track) => {
            track.muted = muted;
            let commands = just(Command::SetTrackMuted { track: id, muted });
            Told { reply: (), commands, touched: true }
        },
        None => Told { reply: (), commands: none(), touched: true },
    }
}

pub fn set_track_soloed(project: &mut Project, id: u16, soloed: bool) -> (r: Told<()>)
    ensures
        final(project)@ == (if old(project)@.has_track(id) {
            old(project)@.with_track(
                id,
                (Track { soloed, ..old(project)@.tracks[old(project)@.track_at(id)] }),
            )
        } else {
            old(project)@
        }),
        r.commands@ == (if old(project)@.has_track(id) {
            seq![Command::SetTrackSoloed { track: id, soloed }]
        } else {
            Seq::empty()
        }),
        r.touched,
{
    match project.track_mut(id) {
        Some(track) => {
            track.soloed = soloed;
            let commands = just(Command::SetTrackSoloed { track: id, soloed });
            Told { reply: (), commands, touched: true }
        },
        None => Told { reply: (), commands: none(), touched: true },
    }
}

/// Hear a track without waiting for its next step, at whatever pitch is asked for. Clicking
/// a row sends the sampler's own pitch; clicking a key in the piano roll sends that key's.
pub fn audition(id: u16, pitch: Option<u8>) -> (r: Command)
    ensures
        r == (Command::Audition {
            track: id,
            pitch: match pitch {
                Some(p) => p,
                None => DEFAULT_PITCH,
            },
            velocity: AUDITION_VELOCITY,
        }),
{
    let pitch: u8 = match pitch {
        Some(p) => p,
        None => DEFAULT_PITCH,
    };
    Command::Audition { track: id, pitch, velocity: AUDITION_VELOCITY }
}

/// Whether a sound could be added: the slot it would take, or why it could not.
pub fn room_for_track(project: &Project) -> (r: Result<u16, String>)
    ensures
        match r {
            Ok(id) => project@.lowest_free_track(id as int),
            Err(why) => {
                &&& forall|k: u16| k < crate::MAX_TRACKS ==> #[trigger] project@.has_track(k)
                &&& why@ == "that is "@ + digits(project@.tracks.len())
                    + " tracks, which is all of them"@
            },
        },
{
    match project.free_track_id() {
        Some(id) => Ok(id),
        None => {
            let mut why: String = "that is ".to_owned();
            append_number(&mut why, project.tracks.len() as u128);
            why.append(" tracks, which is all of them");
            Err(why)
        },
    }
}

/// Give a sound that is in the project folder a track, in the lowest free slot.
pub fn add_track(project: &mut Project, path: String, sample: &Arc<Sample>) -> (r: Option<Told<Track>>)
    ensures
        match r {
            Some(told) => {
                &&& old(project)@.lowest_free_track(told.reply.id as int)
                &&& told.reply.name@ == sample.name@
                &&& told.reply.sample matches Some(s) && s.path@ == path@ && s.name@ == sample.name@
                &&& told.reply.gain == Single { bits: DEFAULT_GAIN }
                &&& !told.reply.muted && !told.reply.soloed && !told.reply.pitched
                &&& final(project)@ == (ProjectModel {
                    tracks: old(project)@.tracks.push(told.reply),
                    ..old(project)@
                })
                &&& told.commands@ == seq![
                    Command::AddTrack { track: told.reply.id, gain: Single { bits: DEFAULT_GAIN } },
                    Command::SetTrackSample { track: told.reply.id, sample: Some(*sample) },
                ]
                &&& told.touched
            },
            None => {
                &&& forall|k: u16| k < crate::MAX_TRACKS ==> #[trigger] old(project)@.has_track(k)
                &&& final(project)@ == old(project)@
            },
        },
{
    let id: u16 = match project.free_track_id() {
        Some(id) => id,
        None => {
            return None;
        },
    };
    let track = Track::new(
        id,
        sample.name.clone(),
        Some(SampleRef { path, name: sample.name.clone() }),
    );
    let reply = track.clone();
    project.tracks.push(track);
    let mut commands: Vec<Command> = Vec::new();
    commands.push(Command::AddTrack { track: id, gain: reply.gain });
    commands.push(Command::SetTrackSample { track: id, sample: Some(share(sample)) });
    assert(commands@ =~= seq![
        Command::AddTrack { track: id, gain: Single { bits: DEFAULT_GAIN } },
        Command::SetTrackSample { track: id, sample: Some(*sample) },
    ]);
    Some(Told { reply, commands, touched: true })
}

/// Delete a track. The reply is the path of its sample when nothing else was using it: the
/// project folder holds exactly what the project uses, so that is to go too.
pub fn remove_track(project: &mut Project, id: u16) -> (r: Told<Option<String>>)
    ensures
        final(project)@ == (if old(project)@.has_track(id) {
            old(project)@.without_track(id)
        } else {
            old(project)@
        }),
        match r.reply {
            Some(path) => old(project)@.has_track(id) && old(
                project,
            )@.tracks[old(project)@.track_at(id)].uses(path@) && final(project)@.tracks.filter(
                crate::project::plays_from(path@),
            ).len() == 0,
            None => !old(project)@.has_track(id) || match old(
                project,
            )@.tracks[old(project)@.track_at(id)].sample {
                Some(s) => final(project)@.tracks.filter(
                    crate::project::plays_from(s.path@),
                ).len() != 0,
                None => true,
            },
        },
        r.commands@ == seq![Command::RemoveTrack { track: id }],
        r.touched,
{
    let removed: Option<Track> = project.remove_track(id);
    let commands = just(Command::RemoveTrack { track: id });
    let reply: Option<String> = match removed {
        Some(track) => match track.sample {
            Some(sample) => if project.sample_users(sample.path.as_str()) == 0 {
                Some(sample.path)
            } else {
                None
            },
            None => None,
        },
        None => None,
    };
    Told { reply, commands, touched: true }
}

// --- patterns -----------------------------------------------------------------

/// A sampler instrument in this pattern rather than a one-shot: pitched, and its notes stop
/// when they end. Per pattern, so the same sound can be a rhythm in one and a melody in the
/// next.
pub fn set_pattern_pitched(project: &mut Project, pattern: u16, track: u16, pitched: bool) -> (r:
    Told<()>)
    ensures
        final(project)@ == (if old(project)@.has_pattern(pattern) {
            old(project)@.with_pattern(
                pattern,
                old(project)@.pattern_of(pattern).with_pitched(track, pitched),
            )
        } else {
            old(project)@
        }),
        r.commands@ == (if old(project)@.has_pattern(pattern) {
            seq![Command::SetPatternPitched { pattern, track, pitched }]
        } else {
            Seq::empty()
        }),
        r.touched,
{
    match project.pattern_mut(pattern) {
        Some(target) => {
            target.set_pitched(track, pitched);
            let commands = just(Command::SetPatternPitched { pattern, track, pitched });
            Told { reply: (), commands, touched: true }
        },
        None => Told { reply: (), commands: none(), touched: true },
    }
}

impl ProjectModel {
    /// Whether a step is one of a pattern's boxes.
    pub open spec fn has_box(self, pattern: u16, step: u32) -> bool {
        self.has_pattern(pattern) && step < self.pattern_of(pattern).steps
    }

    /// The project with a box ticked or not.
    pub open spec fn with_box(self, pattern: u16, track: u16, step: u32, on: bool) -> ProjectModel {
        if self.has_box(pattern, step) {
            self.with_pattern(pattern, self.pattern_of(pattern).with_step(track, step, on).0)
        } else {
            self
        }
    }

    /// The note that a ticked box stands for.
    pub open spec fn box_note(self, pattern: u16, track: u16, step: u32) -> Note {
        let lane = self.pattern_of(pattern).lane_of(track);
        lane.notes[lane.position(step, DEFAULT_PITCH)]
    }

    /// A pattern made long enough for a note, if it is not, as far as a pattern can be.
    pub open spec fn stretched(self, pattern: u16, at: At, length: u32) -> PatternModel {
        let p = self.pattern_of(pattern);
        let reach = at.step + (if length < 1 { 1int } else { length as int });
        let wanted = if reach > u32::MAX { u32::MAX } else { reach as u32 };
        if wanted > p.steps {
            p.with_steps(wanted)
        } else {
            p
        }
    }

    /// The note that asking for one puts down in a pattern of so many steps: hit as hard as a
    /// note can be, and not running off the end.
    pub open spec fn asked_note(at: At, velocity: u8, length: u32, steps: u32) -> Note {
        let room = steps - at.step;
        Note {
            step: at.step,
            pitch: at.pitch,
            velocity: if velocity < 1 {
                1
            } else if velocity > 127 {
                127
            } else {
                velocity
            },
            length: if length < 1 {
                1
            } else if length > room {
                room as u32
            } else {
                length
            },
        }
    }
}

/// Putting a pattern back as it was changes nothing.
proof fn lemma_untouched(m: ProjectModel, id: u16)
    requires
        m.has_pattern(id),
    ensures
        m.with_pattern(id, m.pattern_of(id)) == m,
{
    crate::arranging::lemma_has_pattern(m, id);
    assert(m.patterns.update(m.pattern_at(id), m.pattern_of(id)) =~= m.patterns);
}

/// A pattern put in the place of one of the same number is the one that is found.
pub proof fn lemma_pattern_put(m: ProjectModel, id: u16, now: PatternModel)
    requires
        m.has_pattern(id),
        now.id == id,
    ensures
        m.with_pattern(id, now).has_pattern(id),
        m.with_pattern(id, now).pattern_of(id) == now,
{
    let after = m.with_pattern(id, now);
    lemma_first_where_bounds(m.patterns, pattern_called(id));
    assert forall|j: int| 0 <= j < m.pattern_at(id) implies !pattern_called(id)(
        #[trigger] after.patterns[j],
    ) by {
        assert(after.patterns[j] == m.patterns[j]);
    }
    lemma_first_where(after.patterns, pattern_called(id), m.pattern_at(id));
}

/// A box that is ticked has a note: what was there, or a plain one.
pub proof fn lemma_ticked(p: PatternModel, track: u16, step: u32, on: bool)
    requires
        p.with_step(track, step, on).1,
    ensures
        ({
            let was = p.lane_of(track);
            let now = p.with_step(track, step, on).0;
            let lane = now.lane_of(track);
            &&& now.has_lane(track)
            &&& lane == was.with_step(step, on).0
            &&& lane.holds(step, DEFAULT_PITCH)
            &&& lane.notes[lane.position(step, DEFAULT_PITCH)] == (if was.holds(
                step,
                DEFAULT_PITCH,
            ) {
                was.notes[was.position(step, DEFAULT_PITCH)]
            } else {
                Note::boxed(step)
            })
        }),
{
    let was = p.lane_of(track);
    let lane: LaneModel = was.with_step(step, on).0;
    let with = p.with_lane(track, lane);
    let here = at(step, DEFAULT_PITCH);
    lemma_first_where_bounds(was.notes, here);
    if !was.holds(step, DEFAULT_PITCH) {
        assert forall|j: int| 0 <= j < was.notes.len() implies !here(#[trigger] lane.notes[j]) by {
            assert(lane.notes[j] == was.notes[j]);
        }
        lemma_first_where(lane.notes, here, was.notes.len() as int);
    }
    lemma_first_where_bounds(p.lanes, on_track(track));
    let k = if p.has_lane(track) {
        p.lane_at(track)
    } else {
        p.lanes.len() as int
    };
    assert forall|j: int| 0 <= j < k implies !on_track(track)(#[trigger] with.lanes[j]) by {
        assert(with.lanes[j] == p.lanes[j]);
    }
    lemma_first_kept(with.lanes, not_empty(), on_track(track), k);
}

/// Tick or untick a step in a pattern. Returns what the box actually is now.
pub fn set_step(project: &mut Project, pattern: u16, track: u16, step: u32, on: bool) -> (r: Told<
    bool,
>)
    ensures
        final(project)@ == old(project)@.with_box(pattern, track, step, on),
        r.touched == old(project)@.has_box(pattern, step),
        r.reply == (old(project)@.has_box(pattern, step) && old(project)@.pattern_of(
            pattern,
        ).with_step(track, step, on).1),
        r.commands@ == (if !old(project)@.has_box(pattern, step) {
            Seq::empty()
        } else if r.reply {
            seq![
                Command::SetNote {
                    pattern,
                    track,
                    note: EngineNote::of(final(project)@.box_note(pattern, track, step)),
                },
            ]
        } else {
            seq![Command::ClearNote { pattern, track, step: step as u16, pitch: DEFAULT_PITCH }]
        }),
        r.reply ==> final(project)@.pattern_of(pattern).lane_of(track).holds(step, DEFAULT_PITCH),
{
    proof {
        if project@.has_pattern(pattern) {
            lemma_untouched(project@, pattern);
            let was = project@.pattern_of(pattern);
            crate::arranging::lemma_has_pattern(project@, pattern);
            lemma_pattern_put(project@, pattern, was.with_step(track, step, on).0);
            if was.with_step(track, step, on).1 {
                lemma_ticked(was, track, step, on);
            }
        }
    }
    match project.pattern_mut(pattern) {
        Some(target) => {
            if step >= target.steps {
                return Told { reply: false, commands: none(), touched: false };
            }
            let on_now: bool = target.set_step(track, step, on);
            // The engine holds the same note, not a boolean: a box that already stood for a richer
            // one still does.
            let held: Option<Note> = if on_now {
                match target.lane(track) {
                    Some(lane) => lane.note(step, DEFAULT_PITCH),
                    None => None,
                }
            } else {
                None
            };
            let commands = match held {
                Some(note) => just(
                    Command::SetNote { pattern, track, note: EngineNote::from_note(note) },
                ),
                None => just(
                    Command::ClearNote { pattern, track, step: step as u16, pitch: DEFAULT_PITCH },
                ),
            };
            Told { reply: on_now, commands, touched: true }
        },
        None => Told { reply: false, commands: none(), touched: false },
    }
}

/// Add a note, or replace the one already at that step and pitch. What the piano roll draws
/// with, and how it moves velocity and length about afterwards.
///
/// A note drawn past the end of the pattern makes the pattern longer, so the answer says how
/// long the pattern is now as well as whether the note went in. One past the end of any pattern
/// makes it as long as it can be, and does not go in.
pub fn set_note(
    project: &mut Project,
    pattern: u16,
    track: u16,
    at: At,
    velocity: u8,
    length: u32,
) -> (r: Told<NotePut>)
    ensures
        !old(project)@.has_pattern(pattern) ==> final(project)@ == old(project)@ && r.reply == (
        NotePut { fits: false, steps: 0 }) && r.commands@ == Seq::<Command>::empty() && !r.touched,
        old(project)@.has_pattern(pattern) ==> {
            let was = old(project)@.pattern_of(pattern);
            let long = old(project)@.stretched(pattern, at, length);
            let note = ProjectModel::asked_note(at, velocity, length, long.steps);
            let reached = at.step < long.steps;
            &&& final(project)@ == old(project)@.with_pattern(
                pattern,
                if reached {
                    long.with_note(track, note).0
                } else {
                    long
                },
            )
            &&& r.reply == (NotePut {
                fits: reached && long.with_note(track, note).1,
                steps: long.steps,
            })
            &&& r.commands@ == (if r.reply.fits {
                seq![Command::SetNote { pattern, track, note: EngineNote::of(note) }]
            } else {
                Seq::empty()
            }) + (if long.steps != was.steps {
                seq![Command::SetPatternSteps { pattern, steps: long.steps }]
            } else {
                Seq::empty()
            })
            &&& r.touched
        },
{
    match project.pattern_mut(pattern) {
        Some(target) => {
            // A note past the end grows the pattern rather than being refused: drawing off the
            // right hand side of the roll is how a bar becomes two.
            let was: u32 = target.steps;
            let reach: u32 = if length < 1 {
                1
            } else {
                length
            };
            let wanted: u32 = if at.step > u32::MAX - reach {
                u32::MAX
            } else {
                at.step + reach
            };
            if wanted > was {
                target.set_steps(wanted);
            }
            let steps: u32 = target.steps;
            let mut fits: bool = false;
            let mut commands: Vec<Command> = Vec::new();
            if at.step < steps {
                let room: u32 = steps - at.step;
                let note = Note {
                    step: at.step,
                    pitch: at.pitch,
                    velocity: if velocity < 1 {
                        1
                    } else if velocity > 127 {
                        127
                    } else {
                        velocity
                    },
                    // A note cannot run off the end of its pattern.
                    length: if length < 1 {
                        1
                    } else if length > room {
                        room
                    } else {
                        length
                    },
                };
                fits = target.set_note(track, note);
                if fits {
                    commands.push(
                        Command::SetNote { pattern, track, note: EngineNote::from_note(note) },
                    );
                }
            }
            if steps != was {
                commands.push(Command::SetPatternSteps { pattern, steps });
            }
            proof {
                let note = ProjectModel::asked_note(at, velocity, length, steps);
                let first: Seq<Command> = if fits {
                    seq![Command::SetNote { pattern, track, note: EngineNote::of(note) }]
                } else {
                    Seq::empty()
                };
                let second: Seq<Command> = if steps != was {
                    seq![Command::SetPatternSteps { pattern, steps }]
                } else {
                    Seq::empty()
                };
                assert(commands@ =~= first + second);
            }
            Told { reply: NotePut { fits, steps }, commands, touched: true }
        },
        None => Told { reply: NotePut::nowhere(), commands: none(), touched: false },
    }
}

/// What the engine is told of a note taken out. It is told the low sixteen bits of the step, which
/// is all of it for a note inside a pattern the engine will play.
pub open spec fn note_cleared(pattern: u16, track: u16, at: At) -> Seq<Command> {
    seq![Command::ClearNote { pattern, track, step: at.step as u16, pitch: at.pitch }]
}

fn say_cleared(pattern: u16, track: u16, at: At) -> (r: Vec<Command>)
    ensures
        r@ == note_cleared(pattern, track, at),
{
    just(Command::ClearNote { pattern, track, step: at.step as u16, pitch: at.pitch })
}

/// Take a note out.
pub fn clear_note(project: &mut Project, pattern: u16, track: u16, at: At) -> (r: Told<()>)
    ensures
        final(project)@ == (if old(project)@.has_pattern(pattern) {
            old(project)@.with_pattern(
                pattern,
                old(project)@.pattern_of(pattern).without_note(track, at.step, at.pitch).0,
            )
        } else {
            old(project)@
        }),
        r.commands@ == note_cleared(pattern, track, at),
        r.touched,
{
    match project.pattern_mut(pattern) {
        Some(target) => {
            target.clear_note(track, at.step, at.pitch);
        },
        None => {},
    }
    let commands = say_cleared(pattern, track, at);
    Told { reply: (), commands, touched: true }
}

impl ProjectModel {
    /// Whether a note can be moved: it is there, and where it is to go is in its pattern.
    pub open spec fn can_move(self, pattern: u16, track: u16, at: At, to: At) -> bool {
        &&& self.has_pattern(pattern)
        &&& self.pattern_of(pattern).lane_of(track).holds(at.step, at.pitch)
        &&& to.step < self.pattern_of(pattern).steps
    }

    /// A note as it is once it has been moved: how long and how loud it was, but for running off
    /// the end of the pattern.
    pub open spec fn moved_note(self, pattern: u16, track: u16, at: At, to: At) -> Note {
        let p = self.pattern_of(pattern);
        let lane = p.lane_of(track);
        let note = lane.notes[lane.position(at.step, at.pitch)];
        let room = p.steps - to.step;
        Note {
            step: to.step,
            pitch: to.pitch,
            length: if note.length < 1 {
                1
            } else if note.length > room {
                room as u32
            } else {
                note.length
            },
            ..note
        }
    }
}

/// Move a note, keeping how long and how loud it is. One trip rather than two, so a dragged
/// note is never gone and back again.
pub fn move_note(project: &mut Project, pattern: u16, track: u16, at: At, to: At) -> (r: Told<bool>)
    ensures
        !old(project)@.can_move(pattern, track, at, to) ==> final(project)@ == old(project)@
            && !r.reply && r.commands@ == Seq::<Command>::empty() && !r.touched,
        old(project)@.can_move(pattern, track, at, to) ==> {
            let moved = old(project)@.moved_note(pattern, track, at, to);
            let lifted = old(project)@.pattern_of(pattern).without_note(track, at.step, at.pitch).0;
            &&& final(project)@ == old(project)@.with_pattern(
                pattern,
                lifted.with_note(track, moved).0,
            )
            &&& r.reply == lifted.with_note(track, moved).1
            &&& r.commands@ == note_cleared(pattern, track, at) + (if r.reply {
                seq![Command::SetNote { pattern, track, note: EngineNote::of(moved) }]
            } else {
                Seq::empty()
            })
            &&& r.touched
        },
{
    let found: Option<Note> = match project.pattern(pattern) {
        Some(target) => {
            if to.step >= target.steps {
                None
            } else {
                match target.lane(track) {
                    Some(lane) => lane.note(at.step, at.pitch),
                    None => None,
                }
            }
        },
        None => None,
    };
    let note: Note = match found {
        Some(note) => note,
        None => {
            proof {
                let p = old(project)@.pattern_of(pattern);
                if old(project)@.can_move(pattern, track, at, to) {
                    crate::lane::holding_is_having(p.lane_of(track), at.step, at.pitch);
                }
            }
            return Told { reply: false, commands: none(), touched: false };
        },
    };
    let mut commands: Vec<Command> = say_cleared(pattern, track, at);
    let mut fits: bool = false;
    match project.pattern_mut(pattern) {
        Some(target) => {
            let room: u32 = target.steps - to.step;
            let moved = Note {
                step: to.step,
                pitch: to.pitch,
                length: if note.length < 1 {
                    1
                } else if note.length > room {
                    room
                } else {
                    note.length
                },
                ..note
            };
            target.clear_note(track, at.step, at.pitch);
            fits = target.set_note(track, moved);
            if fits {
                commands.push(
                    Command::SetNote { pattern, track, note: EngineNote::from_note(moved) },
                );
            }
            proof {
                let first = note_cleared(pattern, track, at);
                let second: Seq<Command> = if fits {
                    seq![Command::SetNote { pattern, track, note: EngineNote::of(moved) }]
                } else {
                    Seq::empty()
                };
                assert(commands@ =~= first + second);
            }
        },
        None => {},
    }
    Told { reply: fits, commands, touched: true }
}

/// Add an empty pattern. The reply is its id, or why there is none.
pub fn add_pattern(project: &mut Project) -> (r: Result<Told<u16>, String>)
    ensures
        match r {
            Ok(told) => {
                &&& old(project)@.lowest_free_pattern(told.reply as int)
                &&& exists|name: Seq<char>| #[trigger]
                    old(project)@.next_name(name) && final(project)@ == (ProjectModel {
                        patterns: old(project)@.patterns.push(
                            PatternModel {
                                id: told.reply,
                                name,
                                steps: DEFAULT_STEPS,
                                colour: None,
                                pitched: Seq::empty(),
                                lanes: Seq::empty(),
                            },
                        ),
                        ..old(project)@
                    })
                &&& final(project)@.has_pattern(told.reply)
                &&& told.commands@ == pattern_told(final(project)@.pattern_of(told.reply))
                &&& told.touched
            },
            Err(why) => {
                &&& forall|k: u16| k < MAX_PATTERNS ==> #[trigger] old(project)@.has_pattern(k)
                &&& why@ == "that is as many patterns as there is room for"@
                &&& final(project)@ == old(project)@
            },
        },
{
    match project.add_pattern() {
        Some(id) => {
            proof {
                let last = project@.patterns.len() - 1;
                assert(project@.patterns[last].id == id);
                crate::arranging::lemma_has_pattern(project@, id);
            }
            let commands = push_pattern(project, id);
            Ok(Told { reply: id, commands, touched: true })
        },
        None => Err("that is as many patterns as there is room for".to_owned()),
    }
}

/// Copy a pattern, notes and all. The reply is the copy's id, or why there is none.
pub fn duplicate_pattern(project: &mut Project, id: u16) -> (r: Result<Told<u16>, String>)
    ensures
        match r {
            Ok(told) => {
                &&& old(project)@.lowest_free_pattern(told.reply as int)
                &&& old(project)@.has_pattern(id)
                &&& exists|name: Seq<char>| #[trigger]
                    old(project)@.next_name(name) && final(project)@ == (ProjectModel {
                        patterns: old(project)@.patterns.insert(
                            old(project)@.pattern_at(id) + 1,
                            PatternModel { id: told.reply, name, ..old(project)@.pattern_of(id) },
                        ),
                        ..old(project)@
                    })
                &&& final(project)@.has_pattern(told.reply)
                &&& told.commands@ == pattern_told(final(project)@.pattern_of(told.reply))
                &&& told.touched
            },
            Err(why) => {
                &&& !old(project)@.has_pattern(id) || forall|k: u16|
                    k < MAX_PATTERNS ==> #[trigger] old(project)@.has_pattern(k)
                &&& why@ == "that is as many patterns as there is room for"@
                &&& final(project)@ == old(project)@
            },
        },
{
    match project.duplicate_pattern(id) {
        Some(copy) => {
            proof {
                let at = old(project)@.pattern_at(id) + 1;
                crate::arranging::lemma_has_pattern(old(project)@, id);
                assert(project@.patterns[at].id == copy);
                crate::arranging::lemma_has_pattern(project@, copy);
            }
            let commands = push_pattern(project, copy);
            Ok(Told { reply: copy, commands, touched: true })
        },
        None => Err("that is as many patterns as there is room for".to_owned()),
    }
}

/// Delete a pattern. A song needs at least one.
pub fn remove_pattern(project: &mut Project, id: u16) -> (r: Result<Told<()>, String>)
    requires
        old(project)@.measurable(),
    ensures
        match r {
            Ok(told) => {
                &&& old(project)@.has_pattern(id) && old(project)@.patterns.len() > 1
                &&& final(project)@ == old(project)@.without_pattern(id)
                &&& told.commands@ == seq![Command::ClearPattern { pattern: id }] + song_told(
                    final(project)@.song,
                )
                &&& told.touched
            },
            Err(why) => {
                &&& final(project)@ == old(project)@
                &&& if !old(project)@.has_pattern(id) {
                    why@ == "there is no pattern "@ + digits(id as nat)
                        + " to delete \u{2014} reopen the project"@
                } else {
                    old(project)@.patterns.len() <= 1 && why@
                        == "a song needs at least one pattern"@
                }
            },
        },
{
    if project.pattern(id).is_none() {
        // Nothing to delete means the front end is looking at something we threw away. Say so
        // rather than blaming the number of patterns.
        let mut why: String = "there is no pattern ".to_owned();
        append_number(&mut why, id as u128);
        why.append(" to delete \u{2014} reopen the project");
        return Err(why);
    }
    if !project.remove_pattern(id) {
        return Err("a song needs at least one pattern".to_owned());
    }
    proof {
        lemma_still_measurable(old(project)@.song, project@.song, crate::project::not_of(id));
    }
    let commands = join(just(Command::ClearPattern { pattern: id }), push_song(project));
    Ok(Told { reply: (), commands, touched: true })
}

/// A song with blocks taken out is no longer than it was.
proof fn lemma_still_measurable(
    was: Seq<Placement>,
    now: Seq<Placement>,
    keep: spec_fn(Placement) -> bool,
)
    requires
        whole_bars(song_end(was)) <= u32::MAX,
        now == was.filter(keep),
    ensures
        whole_bars(song_end(now)) <= u32::MAX,
{
    crate::seqs::lemma_filter_members(was, keep);
    assert forall|p: Placement| #[trigger] now.contains(p) implies was.contains(p) by {}
    lemma_no_longer(was, now, 0);
}

/// A song whose blocks are those of another, or end by a step, ends by the end of the other or
/// by that step.
proof fn lemma_no_longer(was: Seq<Placement>, now: Seq<Placement>, most: int)
    requires
        forall|p: Placement| #[trigger] now.contains(p) ==> was.contains(p) || p.stop() <= most,
        most >= 0,
    ensures
        song_end(now) <= song_end(was) || song_end(now) <= most,
        song_end(now) >= 0,
{
    crate::arranging::lemma_song_end_reached(now);
    if now.len() > 0 {
        let i = choose|i: int| 0 <= i < now.len() && (#[trigger] now[i]).stop() == song_end(now);
        assert(now.contains(now[i]));
        if was.contains(now[i]) {
            let j = choose|j: int| 0 <= j < was.len() && was[j] == now[i];
            crate::project::lemma_song_end(was, j);
        }
    }
}

/// Rename a pattern. Returns the name it ended up with: blank is not a name.
pub fn rename_pattern(project: &mut Project, id: u16, name: &str) -> (r: Told<String>)
    ensures
        r.touched == old(project)@.has_pattern(id),
        r.commands@ == Seq::<Command>::empty(),
        !old(project)@.has_pattern(id) ==> final(project)@ == old(project)@ && r.reply@
            == Seq::<char>::empty(),
        old(project)@.has_pattern(id) ==> final(project)@ == old(project)@.with_pattern(
            id,
            (PatternModel { name: r.reply@, ..old(project)@.pattern_of(id) }),
        ),
        old(project)@.has_pattern(id) ==> if trimmed(name@).len() == 0 {
            old(project)@.next_name(r.reply@)
        } else {
            r.reply@ == shortened(trimmed(name@), LONGEST_NAME as int)
        },
{
    let fallback: String = project.next_pattern_name();
    let tidy: String = trim(name);
    let short: String = shorten(tidy.as_str(), LONGEST_NAME);
    match project.pattern_mut(id) {
        Some(pattern) => {
            let named: String = if short.as_str().unicode_len() == 0 {
                fallback
            } else {
                short
            };
            pattern.name = named.clone();
            Told { reply: named, commands: none(), touched: true }
        },
        None => {
            let blank = String::new();
            Told { reply: blank, commands: none(), touched: false }
        },
    }
}

/// Give a pattern a colour, so its blocks stand out from the others in the song. `None`
/// puts it back to the one worked out from its place in the list.
pub fn set_pattern_colour(project: &mut Project, id: u16, colour: Option<u8>) -> (r: Told<bool>)
    ensures
        final(project)@ == (if old(project)@.has_pattern(id) {
            old(project)@.with_pattern(
                id,
                (PatternModel { colour, ..old(project)@.pattern_of(id) }),
            )
        } else {
            old(project)@
        }),
        r.reply == old(project)@.has_pattern(id),
        r.touched == old(project)@.has_pattern(id),
        r.commands@ == Seq::<Command>::empty(),
{
    match project.pattern_mut(id) {
        Some(pattern) => {
            pattern.colour = colour;
            Told { reply: true, commands: none(), touched: true }
        },
        None => Told { reply: false, commands: none(), touched: false },
    }
}

/// Change how many boxes a pattern has. Returns the length it ended up with, and drops any notes
/// that no longer fit.
///
/// The trimmed notes have to go from the engine too, and there is no telling which ones they
/// were, so the whole pattern goes across again. The song is left alone: a block is as long as
/// it was put down, whatever its pattern does afterwards.
pub fn set_pattern_steps(project: &mut Project, id: u16, steps: u32) -> (r: Told<u32>)
    ensures
        old(project)@.has_pattern(id) ==> {
            let next = old(project)@.pattern_of(id).with_steps(steps);
            &&& final(project)@ == old(project)@.with_pattern(id, next)
            &&& r.reply == next.steps
            &&& r.commands@ == seq![Command::SetPatternSteps { pattern: id, steps: next.steps }]
                + pattern_told(next)
        },
        !old(project)@.has_pattern(id) ==> final(project)@ == old(project)@ && r.reply == 0
            && r.commands@ == seq![Command::SetPatternSteps { pattern: id, steps: 0 }],
        r.touched,
{
    let now: u32 = project.set_pattern_steps(id, steps);
    proof {
        crate::arranging::lemma_has_pattern(old(project)@, id);
        crate::arranging::lemma_has_pattern(project@, id);
        if old(project)@.has_pattern(id) {
            let at = old(project)@.pattern_at(id);
            crate::seqs::lemma_first_where_bounds(
                old(project)@.patterns,
                crate::project::pattern_called(id),
            );
            assert forall|j: int| 0 <= j < at implies !crate::project::pattern_called(id)(
                #[trigger] project@.patterns[j],
            ) by {
                assert(!crate::project::pattern_called(id)(old(project)@.patterns[j]));
            }
            crate::seqs::lemma_first_where(
                project@.patterns,
                crate::project::pattern_called(id),
                at,
            );
        }
    }
    let commands = join(
        just(Command::SetPatternSteps { pattern: id, steps: now }),
        push_pattern(project, id),
    );
    assert(!old(project)@.has_pattern(id) ==> commands@ =~= seq![
        Command::SetPatternSteps { pattern: id, steps: 0 },
    ]);
    Told { reply: now, commands, touched: true }
}

/// Open a pattern in the editor: it is what plays, on a loop, until it is closed.
pub fn open_pattern(id: u16) -> (r: Vec<Command>)
    ensures
        r@ == seq![Command::SetActivePattern(id), Command::SetSongMode(false)],
{
    let mut out: Vec<Command> = Vec::new();
    out.push(Command::SetActivePattern(id));
    out.push(Command::SetSongMode(false));
    assert(out@ =~= seq![Command::SetActivePattern(id), Command::SetSongMode(false)]);
    out
}

/// Close the editor and go back to the song.
pub fn close_pattern() -> (r: Command)
    ensures
        r == Command::SetSongMode(true),
{
    Command::SetSongMode(true)
}

// --- the song -----------------------------------------------------------------

/// The song, to be drawn from.
pub fn song_of(project: &Project) -> (r: Vec<Placement>)
    ensures
        r@ == project@.song,
{
    let mut r: Vec<Placement> = Vec::new();
    let mut i: usize = 0;
    assert(r@ =~= project.song@.take(0));
    while i < project.song.len()
        invariant
            i <= project.song@.len(),
            r@ == project.song@.take(i as int),
        decreases project.song@.len() - i,
    {
        r.push(project.song[i]);
        i = i + 1;
        assert(r@ =~= project.song@.take(i as int));
    }
    assert(r@ =~= project@.song);
    r
}

/// A block put down ends inside the longest song, so putting one down leaves the song's length
/// a number that can be said.
proof fn lemma_placing_measurable(m: ProjectModel, pattern: u16, step: u32, length: u32)
    requires
        m.measurable(),
    ensures
        m.placing(pattern, step, length).0.measurable(),
{
    if m.takes(pattern, step, length) {
        let block = m.new_block(pattern, step, length);
        crate::arranging::what_placing_leaves(m, block);
        let now = m.with_block(block).song;
        assert forall|p: Placement| #[trigger] now.contains(p) implies m.song.contains(p)
            || p.stop() <= MAX_SONG_STEPS by {}
        lemma_no_longer(m.song, now, MAX_SONG_STEPS as int);
    }
}

proof fn lemma_replacing_measurable(m: ProjectModel, block: Placement, step: u32, length: u32)
    requires
        m.measurable(),
    ensures
        m.replacing(block, step, length).0.measurable(),
{
    let lifted = m.unplacing(block.pattern, block.step);
    lemma_still_measurable(
        m.song,
        lifted.song,
        crate::project::not_starting(block.pattern, block.step),
    );
    lemma_placing_measurable(lifted, block.pattern, step, length);
    lemma_placing_measurable(lifted, block.pattern, block.step, block.length);
}

impl ProjectModel {
    /// The block that is asked for: as long as its pattern when nothing else is said, and no
    /// longer than a song.
    pub open spec fn asked_block(self, pattern: u16, step: u32, length: u32) -> Placement {
        if self.has_pattern(pattern) {
            self.new_block(pattern, step, length)
        } else {
            Placement { step, pattern, length }
        }
    }

    /// What the engine is told of a block that was moved: it is gone from where it was, and is
    /// where it was moved to.
    pub open spec fn move_told(self, pattern: u16, from: u32, to: u32) -> Seq<Command> {
        let block = self.block(pattern, from);
        let now = self.moving(pattern, from, to).0.song;
        placement_told(self.song, now, block, false) + placement_told(
            self.unplacing(block.pattern, block.step).song,
            now,
            self.asked_block(block.pattern, to, block.length),
            true,
        )
    }

    /// What the engine is told of a block whose edge was dragged.
    pub open spec fn resize_told(self, pattern: u16, step: u32, length: u32) -> Seq<Command> {
        let block = self.block(pattern, step);
        placement_told(
            self.song,
            self.resizing(pattern, step, length).0.song,
            self.asked_block(
                block.pattern,
                block.step,
                if length < 1 {
                    1
                } else {
                    length
                },
            ),
            true,
        )
    }
}

fn asked_block(project: &Project, pattern: u16, step: u32, length: u32) -> (r: Placement)
    ensures
        r == project@.asked_block(pattern, step, length),
{
    match project.pattern(pattern) {
        Some(target) => {
            let own: u32 = if target.steps < 1 {
                1
            } else {
                target.steps
            };
            let wanted: u32 = if length == 0 {
                own
            } else {
                length
            };
            Placement {
                step,
                pattern,
                length: if wanted > MAX_SONG_STEPS as u32 {
                    MAX_SONG_STEPS as u32
                } else {
                    wanted
                },
            }
        },
        None => Placement { step, pattern, length },
    }
}

/// A song but for the blocks of a pattern that start at a step.
fn all_but(song: &Vec<Placement>, pattern: u16, step: u32) -> (r: Vec<Placement>)
    ensures
        r@ == song@.filter(not_starting(pattern, step)),
{
    let mut r: Vec<Placement> = Vec::new();
    let mut i: usize = 0;
    proof {
        reveal(Seq::filter);
        assert(song@.take(0) =~= Seq::empty());
    }
    while i < song.len()
        invariant
            i <= song@.len(),
            r@ == song@.take(i as int).filter(not_starting(pattern, step)),
        decreases song@.len() - i,
    {
        proof {
            reveal(Seq::filter);
            let upto = song@.take(i as int + 1);
            assert(upto.drop_last() =~= song@.take(i as int));
            assert(upto.last() == song@[i as int]);
        }
        if !(song[i].pattern == pattern && song[i].step == step) {
            r.push(song[i]);
        }
        i = i + 1;
    }
    assert(song@.take(song@.len() as int) =~= song@);
    r
}

/// Put a block of a pattern in the song, or take one out. Returns the song as it now is, so
/// the front end draws what is there rather than what it hoped for.
///
/// `step` is a step of the song, wherever the snap put it, and `length` is how much song the
/// block fills — zero for one play-through of the pattern. Taking one out wants the step it
/// starts at, which is what the front end hit tested to find it.
pub fn place_pattern(project: &mut Project, pattern: u16, step: u32, length: u32, on: bool) -> (r:
    Told<Vec<Placement>>)
    requires
        old(project)@.measurable(),
    ensures
        final(project)@ == (if on {
            old(project)@.placing(pattern, step, length).0
        } else {
            old(project)@.unplacing(pattern, step)
        }),
        final(project)@.measurable(),
        r.reply@ == final(project)@.song,
        r.commands@ == placement_told(
            old(project)@.song,
            final(project)@.song,
            old(project)@.asked_block(pattern, step, length),
            on,
        ),
        r.touched,
{
    let was: Vec<Placement> = song_of(project);
    let block: Placement = asked_block(project, pattern, step, length);
    if on {
        project.place(pattern, step, length);
        proof {
            lemma_placing_measurable(old(project)@, pattern, step, length);
        }
    } else {
        project.unplace(pattern, step);
        proof {
            lemma_still_measurable(
                old(project)@.song,
                project@.song,
                crate::project::not_starting(pattern, step),
            );
        }
    }
    let commands = push_placement(&was, project, block, on);
    Told { reply: song_of(project), commands, touched: true }
}

/// Slide a block along the song, keeping how long it is. `from` is anywhere along it.
pub fn move_placement(project: &mut Project, pattern: u16, from: u32, to: u32) -> (r: Told<
    Vec<Placement>,
>)
    requires
        old(project)@.measurable(),
    ensures
        final(project)@ == old(project)@.moving(pattern, from, to).0,
        final(project)@.measurable(),
        r.reply@ == final(project)@.song,
        r.touched == old(project)@.moving(pattern, from, to).1,
        r.commands@ == (if old(project)@.moving(pattern, from, to).1 {
            old(project)@.move_told(pattern, from, to)
        } else {
            Seq::empty()
        }),
{
    let was: Option<Placement> = project.placement_at(pattern, from);
    let song: Vec<Placement> = song_of(project);
    let moved: bool = project.move_placement(pattern, from, to);
    proof {
        let m = old(project)@;
        if m.has_block(pattern, from) {
            let block = m.block(pattern, from);
            lemma_replacing_measurable(m, block, to, block.length);
        }
    }
    let commands = match was {
        Some(block) if moved => {
            let lifted: Vec<Placement> = all_but(&song, block.pattern, block.step);
            let landed: Placement = asked_block(project, block.pattern, to, block.length);
            join(
                push_placement(&song, project, block, false),
                push_placement(&lifted, project, landed, true),
            )
        },
        _ => none(),
    };
    Told { reply: song_of(project), commands, touched: moved }
}

/// Drag a block's edge: how much song it fills, one step at the least. A block longer than
/// its pattern repeats it.
pub fn resize_placement(project: &mut Project, pattern: u16, step: u32, length: u32) -> (r: Told<
    Vec<Placement>,
>)
    requires
        old(project)@.measurable(),
    ensures
        final(project)@ == old(project)@.resizing(pattern, step, length).0,
        final(project)@.measurable(),
        r.reply@ == final(project)@.song,
        r.touched == old(project)@.resizing(pattern, step, length).1,
        r.commands@ == (if old(project)@.resizing(pattern, step, length).1 {
            old(project)@.resize_told(pattern, step, length)
        } else {
            Seq::empty()
        }),
{
    let was: Option<Placement> = project.placement_at(pattern, step);
    let song: Vec<Placement> = song_of(project);
    let resized: bool = project.resize_placement(pattern, step, length);
    proof {
        let m = old(project)@;
        if m.has_block(pattern, step) {
            let block = m.block(pattern, step);
            lemma_replacing_measurable(m, block, block.step, if length < 1 { 1 } else { length });
        }
    }
    let commands = match was {
        Some(block) if resized => {
            let wanted: u32 = if length < 1 {
                1
            } else {
                length
            };
            let longer: Placement = asked_block(project, block.pattern, block.step, wanted);
            push_placement(&song, project, longer, true)
        },
        _ => none(),
    };
    Told { reply: song_of(project), commands, touched: resized }
}

/// Everything that starts in a bar, gone. Returns the song as it now is.
pub fn clear_song_bar(project: &mut Project, bar: u32) -> (r: Told<Vec<Placement>>)
    requires
        old(project)@.measurable(),
        (bar + 1) * STEPS_PER_BAR <= u32::MAX,
    ensures
        final(project)@ == old(project)@.without_bar(bar),
        final(project)@.measurable(),
        r.reply@ == final(project)@.song,
        r.commands@ == song_told(final(project)@.song),
        r.touched,
{
    project.clear_bar(bar);
    proof {
        lemma_still_measurable(
            old(project)@.song,
            project@.song,
            crate::project::outside_bar(bar),
        );
    }
    let commands = push_song(project);
    Told { reply: song_of(project), commands, touched: true }
}

/// Drag the scrubber: play the song from this step.
pub fn seek_song(step: u32) -> (r: Command)
    ensures
        r == Command::SeekSong(step),
{
    Command::SeekSong(step)
}

// --- transport ----------------------------------------------------------------

/// The tempo the window will let a project have.
pub open spec fn offered(bpm: Single) -> Single {
    bpm.clamped(Single { bits: SLOWEST_OFFERED }, Single { bits: FASTEST_OFFERED })
}

pub fn set_bpm(project: &mut Project, bpm: Single) -> (r: Told<Single>)
    ensures
        final(project)@ == (ProjectModel { bpm: offered(bpm), ..old(project)@ }),
        r.reply == offered(bpm),
        r.commands@ == seq![Command::SetBpm(offered(bpm))],
        r.touched,
{
    let next = bpm.clamp(Single { bits: SLOWEST_OFFERED }, Single { bits: FASTEST_OFFERED });
    project.bpm = next;
    Told { reply: next, commands: just(Command::SetBpm(next)), touched: true }
}

pub fn set_playing(playing: bool) -> (r: Command)
    ensures
        r == Command::SetPlaying(playing),
{
    Command::SetPlaying(playing)
}

pub fn panic_stop() -> (r: Command)
    ensures
        r == Command::StopAll,
{
    Command::StopAll
}

/// What is said when sounds could not be had: the first trouble, and how much more there was.
pub fn complaint(trouble: &Vec<String>) -> (r: Option<String>)
    ensures
        match r {
            None => trouble@.len() == 0,
            Some(said) => trouble@.len() > 0 && said@ == trouble@[0]@ + (if trouble@.len() > 1 {
                " (and "@ + digits((trouble@.len() - 1) as nat) + " more)"@
            } else {
                Seq::empty()
            }),
        },
{
    if trouble.len() == 0 {
        return None;
    }
    let mut said: String = trouble[0].clone();
    if trouble.len() > 1 {
        said.append(" (and ");
        append_number(&mut said, (trouble.len() - 1) as u128);
        said.append(" more)");
        assert(said@ =~= trouble@[0]@ + (" (and "@ + digits((trouble@.len() - 1) as nat)
            + " more)"@));
    } else {
        assert(said@ =~= trouble@[0]@ + Seq::<char>::empty());
    }
    Some(said)
}

} // verus!
