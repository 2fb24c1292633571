//! The Weetbeats engine room: everything a beat is, and everything that decides when it sounds.
//!
//! Split in two halves that never share a lock:
//!
//! * the project — [`lane`], [`pattern`], [`placement`], [`project`] — is plain data, owned by the
//!   app thread. [`commands`] is everything that can be done to it, [`telling`] what the audio
//!   thread is told of it, [`history`] how it is undone, [`folder`] how it is kept.
//! * [`engine::Engine`] is the audio thread. It owns a fixed pool of voices ([`voice`]), a step
//!   clock driven by the sample count ([`clock`]) and what every pattern plays ([`score`]). It is
//!   fed [`command::Command`]s through a lock free ring buffer and reports back through
//!   [`shared::Shared`] atomics. [`playing`] says what it holds and what every command and every
//!   step does to it.
//!
//! The numbers a fader and a sample hold are carried by their bits ([`single`]): whoever mixes
//! the voices does the arithmetic.
//!
//! ## What is proved of the whole
//!
//! * [`drawing`], [`arranging`] and [`mending`]: what holds of a pattern, a song and a project
//!   whatever is done to them.
//! * [`asking`]: what each thing that can be asked for comes to.
//! * [`performing`] and [`striking`]: what is heard, and when, note by note.
//! * [`obeying`]: what each command to the engine changes, and what it leaves alone.
//! * [`returning`]: that every sample the audio thread is done with is handed back.
//! * [`mirroring`], [`following`] and [`reflecting`]: that the engine holds what the project
//!   holds, once it has been told it and through every edit, but for a new track in a slot that a
//!   pattern has notes for, a block that the song does not take, a note rubbed out further along
//!   than sixteen bits can say, and a tempo that is not a number.
//! * [`walking`]: that a walk through a folder lists the sounds in it.

pub mod arranging;
pub mod arriving;
pub mod asking;
pub mod bits;
pub mod browser;
pub mod clock;
pub mod command;
pub mod commands;
pub mod drawing;
pub mod engine;
pub mod folder;
pub mod following;
pub mod history;
pub mod lane;
pub mod mending;
pub mod mirroring;
pub mod obeying;
pub mod paths;
pub mod pattern;
pub mod performing;
pub mod placement;
pub mod playing;
pub mod project;
pub mod reflecting;
pub mod returning;
pub mod sample;
pub mod score;
pub mod seqs;
pub mod shared;
pub mod single;
pub mod spelling;
pub mod striking;
pub mod telling;
pub mod text;
pub mod voice;
pub mod walking;
pub mod wav;

pub use command::{Command, EngineNote, Trash};
pub use engine::Engine;
pub use lane::{Lane, LaneModel, Note};
pub use pattern::{Pattern, PatternModel};
pub use placement::Placement;
pub use project::{Project, ProjectModel, SampleRef, Track, PROJECT_VERSION};
pub use sample::Sample;
pub use shared::{Playhead, Shared};
pub use single::Single;

use vstd::prelude::*;

verus! {

/// Track slots the engine keeps state for. A track's id in the project *is* its slot.
pub const MAX_TRACKS: usize = 32;

/// Notes the engine holds per track. The UI refuses to add more.
pub const MAX_NOTES_PER_TRACK: usize = 256;

/// Voices in the pool. Run out and the oldest gets stolen.
pub const MAX_VOICES: usize = 64;

/// Longest pattern the engine will play.
pub const MAX_STEPS: u16 = 256;

/// Boxes a new pattern has.
pub const DEFAULT_STEPS: u32 = 16;

/// Pattern slots the engine keeps notes for. A pattern's id in the project *is* its slot,
/// the same trick as tracks, so the engine never has to be told a pattern has moved. A step
/// of the song is one bit per pattern, which is what caps them at thirty two.
pub const MAX_PATTERNS: usize = 32;

/// Steps in the longest song the engine holds.
pub const MAX_SONG_STEPS: usize = 4096;

/// Blocks the song will hold.
pub const MAX_PLACEMENTS: usize = 512;

/// Steps in one bar of the song: the ruler along the top, and where the loop ends.
pub const STEPS_PER_BAR: u32 = 16;

/// Steps in one beat. Sixteenth notes.
pub const STEPS_PER_BEAT: u32 = 4;

/// Frames the mixer works on at a time. Longer callbacks get chopped into these.
pub const MAX_BLOCK: usize = 1024;

/// The pitch a step box means. Middle C, and the sampler's unity pitch.
pub const DEFAULT_PITCH: u8 = 60;

/// Voice slot marker for auditioned samples that belong to no track.
pub const PREVIEW_TRACK: u16 = 65535;

/// How much of everything there is room for, and what a box and a bar are.
pub proof fn how_much_there_is_room_for()
    ensures
        MAX_TRACKS == 32 && MAX_PATTERNS == 32 && MAX_VOICES == 64,
        MAX_NOTES_PER_TRACK == 256 && MAX_STEPS == 256 && DEFAULT_STEPS == 16,
        MAX_SONG_STEPS == 4096 && MAX_PLACEMENTS == 512,
        STEPS_PER_BAR == 16 && STEPS_PER_BEAT == 4 && STEPS_PER_BAR == 4 * STEPS_PER_BEAT,
        MAX_BLOCK == 1024 && DEFAULT_PITCH == 60 && PREVIEW_TRACK == u16::MAX,
        MAX_TRACKS <= PREVIEW_TRACK,
{
}

} // verus!
