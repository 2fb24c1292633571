//! What the audio thread tells everyone else, without ever waiting for them.
//!
//! Written by the audio thread with plain atomic stores, read by the UI whenever it likes.
//! The front end polls this; nothing is pushed at it, because an event per step would judder.

use std::sync::atomic::{AtomicBool, AtomicU32, AtomicU64, Ordering};

use vstd::prelude::*;

use crate::single::Single;

verus! {

/// A reading of where the playhead is, taken by the UI.
#[derive(Clone, Copy, Debug, PartialEq, Eq, Structural)]
pub struct Playhead {
    pub playing: bool,
    /// Which step is sounding.
    pub step: u32,
    /// Which patterns are sounding, one bit each. More than one at a time in a song.
    pub patterns: u32,
    /// Which bar of the song is playing, when the song is what is playing.
    pub bar: u32,
    /// How far through that step, 0.0 to 1.0. Makes the cursor move smoothly.
    pub progress: Single,
    pub active_voices: u32,
    /// Loudest sample since the last render, for a level meter.
    pub peak: Single,
}

impl Playhead {
    /// The reading for what was found in each place. `progress` and `peak` are the bits of
    /// numbers.
    pub fn found(
        playing: bool,
        step: u32,
        patterns: u32,
        bar: u32,
        progress: u32,
        active_voices: u32,
        peak: u32,
    ) -> (r: Playhead)
        ensures
            r.playing == playing,
            r.step == step,
            r.patterns == patterns,
            r.bar == bar,
            r.progress == (Single { bits: progress }),
            r.active_voices == active_voices,
            r.peak == (Single { bits: peak }),
    {
        Playhead {
            playing,
            step,
            patterns,
            bar,
            progress: Single { bits: progress },
            active_voices,
            peak: Single { bits: peak },
        }
    }
}

/// Shared between the audio thread and everyone else. No locks, ever.
///
/// Every reading depends on what the other threads have stored meanwhile, so nothing is claimed
/// of what one gives, nor of what a fresh one holds. [`Playhead::found`] says what is made of
/// what is found.
#[derive(Debug)]
pub struct Shared {
    playing: AtomicBool,
    step: AtomicU32,
    patterns: AtomicU32,
    bar: AtomicU32,
    progress: AtomicU32,
    active_voices: AtomicU32,
    peak: AtomicU32,
    frames: AtomicU64,
    /// Counts samples the audio thread had to drop on the floor instead of returning to
    /// the app thread. Should stay at zero; if it climbs, the trash queue is too small.
    dropped_on_audio_thread: AtomicU32,
}

impl Shared {
    /// Stopped, at the top, silent, with nothing counted yet.
    pub fn new() -> (r: Self) {
        Shared {
            playing: AtomicBool::new(false),
            step: AtomicU32::new(0),
            patterns: AtomicU32::new(0),
            bar: AtomicU32::new(0),
            progress: AtomicU32::new(0),
            active_voices: AtomicU32::new(0),
            peak: AtomicU32::new(0),
            frames: AtomicU64::new(0),
            dropped_on_audio_thread: AtomicU32::new(0),
        }
    }

    /// One consistent-enough snapshot for the UI. Fields are read independently, so they
    /// can be a few microseconds apart. For drawing a playhead that is invisible.
    pub fn playhead(&self) -> (r: Playhead) {
        Playhead::found(
            self.playing.load(Ordering::Relaxed),
            self.step.load(Ordering::Relaxed),
            self.patterns.load(Ordering::Relaxed),
            self.bar.load(Ordering::Relaxed),
            self.progress.load(Ordering::Relaxed),
            self.active_voices.load(Ordering::Relaxed),
            self.peak.load(Ordering::Relaxed),
        )
    }

    /// Frames rendered since the stream started. The only honest clock in the app.
    pub fn frames_rendered(&self) -> (r: u64) {
        self.frames.load(Ordering::Relaxed)
    }

    pub fn dropped_on_audio_thread(&self) -> (r: u32) {
        self.dropped_on_audio_thread.load(Ordering::Relaxed)
    }

    // --- audio thread side ---

    /// Everything a reading shows, stored at once.
    pub(crate) fn show(&self, head: Playhead) {
        self.playing.store(head.playing, Ordering::Relaxed);
        self.step.store(head.step, Ordering::Relaxed);
        self.progress.store(head.progress.bits, Ordering::Relaxed);
        self.patterns.store(head.patterns, Ordering::Relaxed);
        self.bar.store(head.bar, Ordering::Relaxed);
        self.active_voices.store(head.active_voices, Ordering::Relaxed);
        self.peak.store(head.peak.bits, Ordering::Relaxed);
    }

    pub(crate) fn add_frames(&self, frames: u64) {
        self.frames.fetch_add(frames, Ordering::Relaxed);
    }

    pub(crate) fn note_dropped(&self) {
        self.dropped_on_audio_thread.fetch_add(1, Ordering::Relaxed);
    }
}

impl Default for Shared {
    fn default() -> (r: Self) {
        Shared::new()
    }
}

} // verus!
