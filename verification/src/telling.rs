//! What the audio thread is told of a project: the commands that bring it up to date.

use std::sync::Arc;

use vstd::prelude::*;

use crate::command::{share, Command, EngineNote};
use crate::lane::{Lane, LaneModel, Note};
use crate::pattern::{Pattern, PatternModel};
use crate::placement::Placement;
use crate::project::{not_starting, song_end, whole_bars, Project, ProjectModel, Track};
use crate::sample::Sample;
use crate::{MAX_PATTERNS, MAX_TRACKS};

verus! {

pub open spec fn note_told(pattern: u16, track: u16) -> spec_fn(Note) -> Command {
    |n: Note| Command::SetNote { pattern, track, note: EngineNote::of(n) }
}

/// What is said of the notes of some lanes: every one of them.
pub open spec fn lanes_told(pattern: u16, lanes: Seq<LaneModel>) -> Seq<Command>
    decreases lanes.len(),
{
    if lanes.len() == 0 {
        Seq::empty()
    } else {
        lanes_told(pattern, lanes.drop_last()) + lanes.last().notes.map_values(
            note_told(pattern, lanes.last().track),
        )
    }
}

pub open spec fn instrument_told(pattern: u16) -> spec_fn(u16) -> Command {
    |t: u16| Command::SetPatternPitched { pattern, track: t, pitched: true }
}

/// What is said of one pattern, to an engine that has nothing in it yet: how long it is, which
/// tracks are instruments, and every note.
pub open spec fn score_told(p: PatternModel) -> Seq<Command> {
    seq![Command::SetPatternSteps { pattern: p.id, steps: p.steps }] + p.pitched.map_values(
        instrument_told(p.id),
    ) + lanes_told(p.id, p.lanes)
}

/// What is said of one pattern, from nothing.
pub open spec fn pattern_told(p: PatternModel) -> Seq<Command> {
    seq![Command::ClearPattern { pattern: p.id }] + score_told(p)
}

pub open spec fn patterns_told(patterns: Seq<PatternModel>) -> Seq<Command>
    decreases patterns.len(),
{
    if patterns.len() == 0 {
        Seq::empty()
    } else {
        patterns_told(patterns.drop_last()) + score_told(patterns.last())
    }
}

pub open spec fn block_told() -> spec_fn(Placement) -> Command {
    |p: Placement| Command::PlacePattern { pattern: p.pattern, step: p.step, length: p.length }
}

pub open spec fn block_untold() -> spec_fn(Placement) -> Command {
    |p: Placement| Command::UnplacePattern { pattern: p.pattern, step: p.step }
}

/// What is said of how long the song is.
pub open spec fn length_told(song: Seq<Placement>) -> Command {
    Command::SetSongLen(whole_bars(song_end(song)) as u32)
}

/// What is said of the song, from nothing.
pub open spec fn song_told(song: Seq<Placement>) -> Seq<Command> {
    seq![Command::ClearSong] + song.map_values(block_told()) + seq![length_told(song)]
}

/// The test for a block that is not in a song.
pub open spec fn missing_from(song: Seq<Placement>) -> spec_fn(Placement) -> bool {
    |p: Placement| !song.contains(p)
}

/// What a block that was put down swallowed: all that went, but for what started where it does,
/// whose place it takes.
pub open spec fn swallowed(
    was: Seq<Placement>,
    now: Seq<Placement>,
    block: Placement,
) -> Seq<Placement> {
    was.filter(missing_from(now)).filter(not_starting(block.pattern, block.step))
}

/// What is said of one block, asked for or taken out, and how long the song is now. So a drag
/// across the song is two commands a block rather than the whole song each time, and one more
/// for each block that made way.
pub open spec fn placement_told(
    was: Seq<Placement>,
    now: Seq<Placement>,
    block: Placement,
    on: bool,
) -> Seq<Command> {
    (if on {
        swallowed(was, now, block).map_values(block_untold()) + seq![block_told()(block)]
    } else {
        seq![block_untold()(block)]
    }) + seq![length_told(now)]
}

/// What is said of one track: its slot, its faders, and its sound if it could be had.
pub open spec fn track_told(t: Track, sample: Option<Arc<Sample>>) -> Seq<Command> {
    seq![
        Command::AddTrack { track: t.id, gain: t.gain },
        Command::SetTrackMuted { track: t.id, muted: t.muted },
        Command::SetTrackSoloed { track: t.id, soloed: t.soloed },
    ] + (match sample {
        Some(s) => seq![Command::SetTrackSample { track: t.id, sample: Some(s) }],
        None => Seq::empty(),
    })
}

pub open spec fn tracks_told(tracks: Seq<Track>, samples: Seq<Option<Arc<Sample>>>) -> Seq<Command>
    decreases tracks.len(),
{
    if tracks.len() == 0 {
        Seq::empty()
    } else {
        tracks_told(tracks.drop_last(), samples) + track_told(
            tracks.last(),
            samples[tracks.len() - 1],
        )
    }
}

/// Every track slot emptied.
pub open spec fn slots_cleared() -> Seq<Command> {
    Seq::new(MAX_TRACKS as nat, |t: int| Command::RemoveTrack { track: t as u16 })
}

/// Every pattern slot emptied.
pub open spec fn scores_cleared() -> Seq<Command> {
    Seq::new(MAX_PATTERNS as nat, |p: int| Command::ClearPattern { pattern: p as u16 })
}

/// What is said of the whole project: every track, every pattern, the song. Tracks go first,
/// because claiming a track slot clears whatever notes the last thing in that slot had.
pub open spec fn project_told(m: ProjectModel, samples: Seq<Option<Arc<Sample>>>) -> Seq<Command> {
    seq![Command::SetPlaying(false)] + slots_cleared() + scores_cleared() + seq![
        Command::SetBpm(m.bpm),
        Command::SetMasterGain(m.master_gain),
    ] + tracks_told(m.tracks, samples) + patterns_told(m.patterns) + song_told(m.song) + seq![
        Command::SetActivePattern(
            if m.patterns.len() > 0 {
                m.patterns[0].id
            } else {
                0
            },
        ),
        Command::SetSongMode(m.song.len() > 0),
    ]
}

impl ProjectModel {
    /// Whether the length of the song, in whole bars, is a number that can be said.
    pub open spec fn measurable(self) -> bool {
        whole_bars(song_end(self.song)) <= u32::MAX
    }
}

/// Whether the length of a project's song, in whole bars, is a number that can be said. Every song
/// an edit leaves is one; a file that was written by hand need not hold one.
pub fn is_measurable(project: &Project) -> (r: bool)
    ensures
        r == project@.measurable(),
{
    let mut i: usize = 0;
    while i < project.song.len()
        invariant
            i <= project.song@.len(),
            forall|k: int| 0 <= k < i ==> (#[trigger] project.song@[k]).stop() <= 0xffff_fff0,
        decreases project.song@.len() - i,
    {
        let block: Placement = project.song[i];
        let filled: u64 = if block.length < 1 {
            1
        } else {
            block.length as u64
        };
        if block.step as u64 + filled > 0xffff_fff0 {
            proof {
                crate::project::lemma_song_end(project@.song, i as int);
            }
            return false;
        }
        i = i + 1;
    }
    proof {
        crate::arranging::lemma_song_end_reached(project@.song);
    }
    true
}

fn tell_notes(out: &mut Vec<Command>, pattern: u16, lane: &Lane)
    ensures
        final(out)@ == old(out)@ + lane@.notes.map_values(note_told(pattern, lane@.track)),
{
    let ghost told = lane@.notes.map_values(note_told(pattern, lane@.track));
    let mut i: usize = 0;
    assert(out@ =~= old(out)@ + told.take(0));
    while i < lane.notes.len()
        invariant
            i <= lane.notes@.len(),
            told == lane@.notes.map_values(note_told(pattern, lane@.track)),
            out@ == old(out)@ + told.take(i as int),
        decreases lane.notes@.len() - i,
    {
        out.push(
            Command::SetNote {
                pattern,
                track: lane.track,
                note: EngineNote::from_note(lane.notes[i]),
            },
        );
        i = i + 1;
        assert(out@ =~= old(out)@ + told.take(i as int));
    }
    assert(told.take(told.len() as int) =~= told);
}

/// Say how long a pattern is, which tracks are instruments in it, and every note.
fn tell_score(out: &mut Vec<Command>, pattern: &Pattern)
    ensures
        final(out)@ == old(out)@ + score_told(pattern@),
{
    let id: u16 = pattern.id;
    out.push(Command::SetPatternSteps { pattern: id, steps: pattern.steps });
    let ghost start = out@;
    let ghost instruments = pattern@.pitched.map_values(instrument_told(id));
    let mut i: usize = 0;
    assert(out@ =~= start + instruments.take(0));
    while i < pattern.pitched.len()
        invariant
            i <= pattern.pitched@.len(),
            id == pattern.id,
            instruments == pattern@.pitched.map_values(instrument_told(id)),
            out@ == start + instruments.take(i as int),
        decreases pattern.pitched@.len() - i,
    {
        out.push(
            Command::SetPatternPitched { pattern: id, track: pattern.pitched[i], pitched: true },
        );
        i = i + 1;
        assert(out@ =~= start + instruments.take(i as int));
    }
    assert(instruments.take(instruments.len() as int) =~= instruments);
    let ghost middle = out@;
    let ghost lanes = pattern@.lanes;
    let mut k: usize = 0;
    assert(lanes.take(0) =~= Seq::empty());
    assert(out@ =~= middle + lanes_told(id, lanes.take(0)));
    while k < pattern.lanes.len()
        invariant
            k <= pattern.lanes@.len(),
            id == pattern.id,
            lanes == pattern@.lanes,
            out@ == middle + lanes_told(id, lanes.take(k as int)),
        decreases pattern.lanes@.len() - k,
    {
        proof {
            let upto = lanes.take(k as int + 1);
            assert(upto.drop_last() =~= lanes.take(k as int));
            assert(upto.last() == pattern.lanes@[k as int]@);
        }
        tell_notes(out, id, &pattern.lanes[k]);
        k = k + 1;
        assert(out@ =~= middle + lanes_told(id, lanes.take(k as int)));
    }
    proof {
        assert(lanes.take(lanes.len() as int) =~= lanes);
        assert(out@ =~= old(out)@ + score_told(pattern@));
    }
}

/// Tell the audio thread everything about one pattern, from nothing. For a pattern that has
/// just been made, or copied from another. Nothing is said of one that is not there.
pub fn push_pattern(project: &Project, id: u16) -> (r: Vec<Command>)
    ensures
        r@ == (if project@.has_pattern(id) {
            pattern_told(project@.pattern_of(id))
        } else {
            Seq::empty()
        }),
{
    let mut out: Vec<Command> = Vec::new();
    match project.pattern(id) {
        Some(pattern) => {
            proof {
                crate::arranging::lemma_has_pattern(project@, id);
            }
            out.push(Command::ClearPattern { pattern: id });
            tell_score(&mut out, pattern);
            assert(out@ =~= pattern_told(pattern@));
        },
        None => {},
    }
    out
}

fn tell_blocks(out: &mut Vec<Command>, song: &Vec<Placement>)
    ensures
        final(out)@ == old(out)@ + song@.map_values(block_told()),
{
    let ghost told = song@.map_values(block_told());
    let mut i: usize = 0;
    assert(out@ =~= old(out)@ + told.take(0));
    while i < song.len()
        invariant
            i <= song@.len(),
            told == song@.map_values(block_told()),
            out@ == old(out)@ + told.take(i as int),
        decreases song@.len() - i,
    {
        out.push(
            Command::PlacePattern {
                pattern: song[i].pattern,
                step: song[i].step,
                length: song[i].length,
            },
        );
        i = i + 1;
        assert(out@ =~= old(out)@ + told.take(i as int));
    }
    assert(told.take(told.len() as int) =~= told);
}

fn tell_song(out: &mut Vec<Command>, project: &Project)
    requires
        project@.measurable(),
    ensures
        final(out)@ == old(out)@ + song_told(project@.song),
{
    out.push(Command::ClearSong);
    tell_blocks(out, &project.song);
    out.push(Command::SetSongLen(project.song_steps()));
    assert(out@ =~= old(out)@ + song_told(project@.song));
}

/// Tell the audio thread the song again, from nothing. Cheap: a song is a few hundred
/// placements at most, and it means the front end never has to describe an edit, only
/// the result.
pub fn push_song(project: &Project) -> (r: Vec<Command>)
    requires
        project@.measurable(),
    ensures
        r@ == song_told(project@.song),
{
    let mut out: Vec<Command> = Vec::new();
    tell_song(&mut out, project);
    assert(out@ =~= song_told(project@.song));
    out
}

fn contains(song: &Vec<Placement>, p: Placement) -> (r: bool)
    ensures
        r == song@.contains(p),
{
    let mut i: usize = 0;
    while i < song.len()
        invariant
            i <= song@.len(),
            forall|j: int| 0 <= j < i ==> #[trigger] song@[j] != p,
        decreases song@.len() - i,
    {
        if song[i] == p {
            return true;
        }
        i = i + 1;
    }
    false
}

/// The blocks of one song that are not in another.
fn beyond(song: &Vec<Placement>, other: &Vec<Placement>) -> (r: Vec<Placement>)
    ensures
        r@ == song@.filter(missing_from(other@)),
{
    let mut r: Vec<Placement> = Vec::new();
    let mut i: usize = 0;
    proof {
        reveal(Seq::filter);
        assert(song@.take(0) =~= Seq::empty());
    }
    while i < song.len()
        invariant
            i <= song@.len(),
            r@ == song@.take(i as int).filter(missing_from(other@)),
        decreases song@.len() - i,
    {
        proof {
            reveal(Seq::filter);
            let upto = song@.take(i as int + 1);
            assert(upto.drop_last() =~= song@.take(i as int));
            assert(upto.last() == song@[i as int]);
        }
        if !contains(other, song[i]) {
            r.push(song[i]);
        }
        i = i + 1;
    }
    assert(song@.take(song@.len() as int) =~= song@);
    r
}

/// Tell the audio thread of one block, put down or taken out, and how long the song is now. `was`
/// is the song before.
pub fn push_placement(was: &Vec<Placement>, project: &Project, block: Placement, on: bool) -> (r:
    Vec<Command>)
    requires
        project@.measurable(),
    ensures
        r@ == placement_told(was@, project@.song, block, on),
{
    let mut out: Vec<Command> = Vec::new();
    if on {
        let gone: Vec<Placement> = beyond(was, &project.song);
        let ghost elsewhere = not_starting(block.pattern, block.step);
        let mut i: usize = 0;
        proof {
            reveal(Seq::filter);
            assert(gone@.take(0) =~= Seq::empty());
            assert(out@ =~= gone@.take(0).filter(elsewhere).map_values(block_untold()));
        }
        while i < gone.len()
            invariant
                i <= gone@.len(),
                elsewhere == not_starting(block.pattern, block.step),
                out@ == gone@.take(i as int).filter(elsewhere).map_values(block_untold()),
            decreases gone@.len() - i,
        {
            let ghost before = gone@.take(i as int).filter(elsewhere);
            proof {
                reveal(Seq::filter);
                let upto = gone@.take(i as int + 1);
                assert(upto.drop_last() =~= gone@.take(i as int));
                assert(upto.last() == gone@[i as int]);
                assert(before.push(gone@[i as int]).map_values(block_untold())
                    =~= before.map_values(block_untold()).push(block_untold()(gone@[i as int])));
            }
            if !(gone[i].pattern == block.pattern && gone[i].step == block.step) {
                out.push(Command::UnplacePattern { pattern: gone[i].pattern, step: gone[i].step });
            }
            i = i + 1;
        }
        assert(gone@.take(gone@.len() as int) =~= gone@);
        out.push(
            Command::PlacePattern {
                pattern: block.pattern,
                step: block.step,
                length: block.length,
            },
        );
    } else {
        out.push(Command::UnplacePattern { pattern: block.pattern, step: block.step });
    }
    out.push(Command::SetSongLen(project.song_steps()));
    assert(out@ =~= placement_told(was@, project@.song, block, on));
    out
}

fn tell_track(out: &mut Vec<Command>, track: &Track, sample: &Option<Arc<Sample>>)
    ensures
        final(out)@ == old(out)@ + track_told(*track, *sample),
{
    out.push(Command::AddTrack { track: track.id, gain: track.gain });
    out.push(Command::SetTrackMuted { track: track.id, muted: track.muted });
    out.push(Command::SetTrackSoloed { track: track.id, soloed: track.soloed });
    match sample {
        Some(s) => {
            out.push(Command::SetTrackSample { track: track.id, sample: Some(share(s)) });
        },
        None => {},
    }
    assert(out@ =~= old(out)@ + track_told(*track, *sample));
}

/// Hand the audio thread the whole project: every track, every pattern, the song. Used at
/// startup and when a project is opened.
///
/// `samples` holds the sound of each track, in order, where it could be had. A track whose sound
/// could not stays, silent, with its notes: losing a sound is annoying, losing the beat you
/// wrote with it is worse.
pub fn push_project(project: &Project, samples: &Vec<Option<Arc<Sample>>>) -> (r: Vec<Command>)
    requires
        samples@.len() == project@.tracks.len(),
        project@.measurable(),
    ensures
        r@ == project_told(project@, samples@),
{
    let mut out: Vec<Command> = Vec::new();
    out.push(Command::SetPlaying(false));
    let ghost first = out@;
    let mut t: u16 = 0;
    assert(out@ =~= first + slots_cleared().take(0));
    while t < MAX_TRACKS as u16
        invariant
            t <= MAX_TRACKS,
            out@ == first + slots_cleared().take(t as int),
        decreases MAX_TRACKS - t,
    {
        out.push(Command::RemoveTrack { track: t });
        t = t + 1;
        assert(out@ =~= first + slots_cleared().take(t as int));
    }
    assert(slots_cleared().take(MAX_TRACKS as int) =~= slots_cleared());
    let ghost second = out@;
    let mut p: u16 = 0;
    assert(out@ =~= second + scores_cleared().take(0));
    while p < MAX_PATTERNS as u16
        invariant
            p <= MAX_PATTERNS,
            out@ == second + scores_cleared().take(p as int),
        decreases MAX_PATTERNS - p,
    {
        out.push(Command::ClearPattern { pattern: p });
        p = p + 1;
        assert(out@ =~= second + scores_cleared().take(p as int));
    }
    assert(scores_cleared().take(MAX_PATTERNS as int) =~= scores_cleared());
    out.push(Command::SetBpm(project.bpm));
    out.push(Command::SetMasterGain(project.master_gain));
    let ghost third = out@;
    let mut i: usize = 0;
    assert(project@.tracks.take(0) =~= Seq::empty());
    assert(out@ =~= third + tracks_told(project@.tracks.take(0), samples@));
    while i < project.tracks.len()
        invariant
            i <= project.tracks@.len(),
            samples@.len() == project@.tracks.len(),
            out@ == third + tracks_told(project@.tracks.take(i as int), samples@),
        decreases project.tracks@.len() - i,
    {
        proof {
            let upto = project@.tracks.take(i as int + 1);
            assert(upto.drop_last() =~= project@.tracks.take(i as int));
            assert(upto.last() == project.tracks@[i as int]);
        }
        tell_track(&mut out, &project.tracks[i], &samples[i]);
        i = i + 1;
        assert(out@ =~= third + tracks_told(project@.tracks.take(i as int), samples@));
    }
    assert(project@.tracks.take(project@.tracks.len() as int) =~= project@.tracks);
    let ghost fourth = out@;
    let mut k: usize = 0;
    assert(project@.patterns.take(0) =~= Seq::empty());
    assert(out@ =~= fourth + patterns_told(project@.patterns.take(0)));
    while k < project.patterns.len()
        invariant
            k <= project.patterns@.len(),
            out@ == fourth + patterns_told(project@.patterns.take(k as int)),
        decreases project.patterns@.len() - k,
    {
        proof {
            let upto = project@.patterns.take(k as int + 1);
            assert(upto.drop_last() =~= project@.patterns.take(k as int));
            assert(upto.last() == project.patterns@[k as int]@);
        }
        tell_score(&mut out, &project.patterns[k]);
        k = k + 1;
        assert(out@ =~= fourth + patterns_told(project@.patterns.take(k as int)));
    }
    assert(project@.patterns.take(project@.patterns.len() as int) =~= project@.patterns);
    tell_song(&mut out, project);
    let open: u16 = if project.patterns.len() > 0 {
        project.patterns[0].id
    } else {
        0
    };
    out.push(Command::SetActivePattern(open));
    out.push(Command::SetSongMode(project.song.len() > 0));
    assert(out@ =~= project_told(project@, samples@));
    out
}

} // verus!
