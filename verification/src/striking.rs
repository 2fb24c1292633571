//! What is struck at each step, written out note by note.

use vstd::prelude::*;

use crate::bits::bit;
use crate::clock::{tempo, ClockModel};
use crate::command::EngineNote;
use crate::placement::Placement;
use crate::playing::{asking, due_on, due_upto, heard_at, held_frames, EngineModel};
use crate::project::ProjectModel;
use crate::voice::{Level, Trigger};
use crate::{MAX_PATTERNS, MAX_SONG_STEPS, MAX_TRACKS};

verus! {

/// Where a note that is struck was drawn: the pattern, the track, and which of the track's notes
/// there it is.
pub struct Origin {
    pub pattern: int,
    pub track: int,
    pub note: int,
}

/// Whether so many frames are the fewest that last so many steps. A step is fifteen seconds over
/// the tempo, and a frame is one over the rate.
pub open spec fn lasts(frames: int, steps: int, clock: ClockModel) -> bool {
    &&& frames * tempo(clock.bpm) >= steps * (clock.rate * 0x78_0000)
    &&& (frames - 1) * tempo(clock.bpm) < steps * (clock.rate * 0x78_0000)
}

impl EngineModel {
    /// The note at a place.
    pub open spec fn note_of(self, o: Origin) -> EngineNote {
        self.patterns[o.pattern].tracks[o.track][o.note]
    }

    /// Whether there is a note at a place that is heard at a step of its pattern: its track is
    /// there and has a sample, it is at that step, and the row it is drawn in shows it. A row of
    /// boxes shows middle C alone; an instrument's row shows every pitch.
    pub open spec fn drawn(self, o: Origin, at: int) -> bool {
        &&& 0 <= o.pattern < MAX_PATTERNS
        &&& 0 <= o.track < MAX_TRACKS
        &&& 0 <= o.note < self.patterns[o.pattern].tracks[o.track].len()
        &&& self.tracks[o.track].active
        &&& self.tracks[o.track].sample is Some
        &&& self.note_of(o).step == at
        &&& bit(self.patterns[o.pattern].pitched, o.track as u32) || self.note_of(o).pitch == 60
    }

    /// Whether what a voice is asked for is the note at a place: its track's sample, on its track,
    /// at its pitch and its strength. An instrument's is held for as many steps as it is long; a
    /// one-shot's is not held at all.
    pub open spec fn strikes(self, t: Trigger, o: Origin) -> bool {
        let n = self.note_of(o);
        let steps = if n.length < 1 { 1int } else { n.length as int };
        &&& self.tracks[o.track].sample == Some(t.sample)
        &&& t.track == o.track
        &&& t.pitch == n.pitch
        &&& t.level == Level::Velocity(n.velocity)
        &&& match t.hold {
            Some(frames) => bit(self.patterns[o.pattern].pitched, o.track as u32) && lasts(
                frames as int,
                steps,
                self.clock,
            ),
            None => !bit(self.patterns[o.pattern].pitched, o.track as u32),
        }
    }

    /// Whether voices are asked for just what is at some places, one for one.
    pub open spec fn strikes_each(self, ts: Seq<Trigger>, from: Seq<Origin>) -> bool {
        &&& ts.len() == from.len()
        &&& forall|i: int| 0 <= i < ts.len() ==> self.strikes(#[trigger] ts[i], from[i])
    }
}

/// Whether one place comes before another: by pattern, then by track, then by when it was drawn.
pub open spec fn before(a: Origin, b: Origin) -> bool {
    a.pattern < b.pattern || (a.pattern == b.pattern && (a.track < b.track || (a.track == b.track
        && a.note < b.note)))
}

/// Whether places come in turn, none of them twice.
pub open spec fn in_turn(from: Seq<Origin>) -> bool {
    forall|i: int, j: int|
        0 <= i < j < from.len() ==> before(#[trigger] from[i], #[trigger] from[j])
}

/// A note is held for the fewest frames that last as many steps as it is long, and one step at
/// the least.
pub proof fn a_note_is_held_for_as_long_as_it_is_drawn(length: u16, clock: ClockModel)
    requires
        clock.wf(),
    ensures
        lasts(
            held_frames(length, clock) as int,
            if length < 1 {
                1
            } else {
                length as int
            },
            clock,
        ),
{
    let steps = if length < 1 { 1int } else { length as int };
    let step = clock.rate * 0x78_0000;
    let frame = tempo(clock.bpm);
    crate::clock::lemma_tempo(clock.bpm);
    let total = steps * step + frame - 1;
    let h = total / frame;
    assert(0 <= steps * step <= 0xffff * 0x80_0000_0000_0000) by (nonlinear_arith)
        requires
            1 <= steps <= 0xffff,
            0 < step <= 0x80_0000_0000_0000,
    ;
    vstd::arithmetic::div_mod::lemma_fundamental_div_mod(total, frame);
    assert(h * frame >= steps * step && (h - 1) * frame < steps * step) by (nonlinear_arith)
        requires
            total == frame * h + total % frame,
            0 <= total % frame < frame,
            total == steps * step + frame - 1,
    ;
    assert(0 <= h) by (nonlinear_arith)
        requires
            h * frame >= 0,
            frame > 0,
            h * frame >= steps * step,
            steps * step >= 0,
    ;
    vstd::arithmetic::div_mod::lemma_div_is_ordered_by_denominator(total, 0xa0_0000, frame);
}

/// The places of what a test picks out of a list, in order.
proof fn places<T>(s: Seq<T>, p: spec_fn(T) -> bool) -> (at: Seq<int>)
    ensures
        at.len() == s.filter(p).len(),
        forall|i: int| 0 <= i < at.len() ==> 0 <= #[trigger] at[i] < s.len(),
        forall|i: int| 0 <= i < at.len() ==> s[#[trigger] at[i]] == s.filter(p)[i],
        forall|i: int, j: int| 0 <= i < j < at.len() ==> #[trigger] at[i] < #[trigger] at[j],
        forall|k: int| #[trigger] at.contains(k) <==> 0 <= k < s.len() && p(s[k]),
    decreases s.len(),
{
    reveal(Seq::filter);
    if s.len() == 0 {
        Seq::empty()
    } else {
        let front = s.drop_last();
        let before = places(front, p);
        let last = s.len() - 1;
        assert forall|k: int| #[trigger] before.contains(k) <==> 0 <= k < last && p(s[k]) by {
            if 0 <= k < last {
                assert(front[k] == s[k]);
            }
        }
        if p(s.last()) {
            let at = before.push(last);
            assert forall|k: int| #[trigger] at.contains(k) <==> 0 <= k < s.len() && p(s[k]) by {
                assert(at[before.len() as int] == last);
                if before.contains(k) {
                    let i = choose|i: int| 0 <= i < before.len() && before[i] == k;
                    assert(at[i] == k);
                }
                if at.contains(k) && k != last {
                    let i = choose|i: int| 0 <= i < at.len() && at[i] == k;
                    assert(before[i] == k);
                }
            }
            assert forall|i: int| 0 <= i < at.len() implies s[#[trigger] at[i]] == s.filter(
                p,
            )[i] by {
                if i < before.len() {
                    assert(front[before[i]] == s[before[i]]);
                }
            }
            at
        } else {
            assert forall|i: int| 0 <= i < before.len() implies s[#[trigger] before[i]]
                == s.filter(p)[i] by {
                assert(front[before[i]] == s[before[i]]);
            }
            before
        }
    }
}

/// What is due on one track comes from its notes there.
#[verifier::rlimit(50)]
proof fn from_track(m: EngineModel, pattern: int, at: u16, track: int) -> (from: Seq<Origin>)
    requires
        m.wf(),
        0 <= pattern < MAX_PATTERNS,
        0 <= track < MAX_TRACKS,
    ensures
        m.strikes_each(due_on(m.tracks, m.patterns[pattern], m.clock, at, track), from),
        in_turn(from),
        forall|o: Origin| #[trigger]
            from.contains(o) <==> m.drawn(o, at as int) && o.pattern == pattern && o.track == track,
{
    let score = m.patterns[pattern];
    let notes = score.tracks[track];
    match m.tracks[track].sample {
        Some(sample) if m.tracks[track].active => {
            let instrument = bit(score.pitched, track as u32);
            let heard = heard_at(at, instrument);
            let ks = places(notes, heard);
            let from = ks.map_values(|k: int| Origin { pattern, track, note: k });
            let ts = due_on(m.tracks, score, m.clock, at, track);
            assert forall|i: int| 0 <= i < ts.len() implies m.strikes(
                #[trigger] ts[i],
                from[i],
            ) by {
                let n = notes.filter(heard)[i];
                assert(ts[i] == asking(sample, track as u16, instrument, m.clock)(n));
                assert(m.note_of(from[i]) == n);
                a_note_is_held_for_as_long_as_it_is_drawn(n.length, m.clock);
            }
            assert forall|o: Origin| #[trigger] from.contains(o) <==> m.drawn(o, at as int)
                && o.pattern == pattern && o.track == track by {
                if from.contains(o) {
                    let i = choose|i: int| 0 <= i < from.len() && from[i] == o;
                    assert(ks.contains(ks[i]));
                }
                if m.drawn(o, at as int) && o.pattern == pattern && o.track == track {
                    assert(ks.contains(o.note));
                    let i = choose|i: int| 0 <= i < ks.len() && ks[i] == o.note;
                    assert(from[i] == o);
                }
            }
            from
        },
        _ => Seq::empty(),
    }
}

/// One list of places after another.
proof fn lemma_joined(
    m: EngineModel,
    a: Seq<Trigger>,
    from_a: Seq<Origin>,
    b: Seq<Trigger>,
    from_b: Seq<Origin>,
)
    requires
        m.strikes_each(a, from_a),
        m.strikes_each(b, from_b),
        in_turn(from_a),
        in_turn(from_b),
        forall|x: Origin, y: Origin| #[trigger]
            from_a.contains(x) && #[trigger] from_b.contains(y) ==> before(x, y),
    ensures
        m.strikes_each(a + b, from_a + from_b),
        in_turn(from_a + from_b),
        forall|o: Origin| #[trigger]
            (from_a + from_b).contains(o) <==> from_a.contains(o) || from_b.contains(o),
{
    let from = from_a + from_b;
    assert forall|i: int, j: int| 0 <= i < j < from.len() implies before(
        #[trigger] from[i],
        #[trigger] from[j],
    ) by {
        if i < from_a.len() && j >= from_a.len() {
            assert(from_a.contains(from_a[i]));
            assert(from_b.contains(from_b[j - from_a.len()]));
        }
    }
    assert forall|o: Origin| #[trigger] from.contains(o) <==> from_a.contains(o) || from_b.contains(
        o,
    ) by {
        if from_a.contains(o) {
            let i = choose|i: int| 0 <= i < from_a.len() && from_a[i] == o;
            assert(from[i] == o);
        }
        if from_b.contains(o) {
            let i = choose|i: int| 0 <= i < from_b.len() && from_b[i] == o;
            assert(from[from_a.len() + i] == o);
        }
    }
}

#[verifier::rlimit(50)]
proof fn from_tracks(m: EngineModel, pattern: int, at: u16, count: int) -> (from: Seq<Origin>)
    requires
        m.wf(),
        0 <= pattern < MAX_PATTERNS,
        0 <= count <= MAX_TRACKS,
    ensures
        m.strikes_each(due_upto(m.tracks, m.patterns[pattern], m.clock, at, count), from),
        in_turn(from),
        forall|o: Origin| #[trigger]
            from.contains(o) <==> m.drawn(o, at as int) && o.pattern == pattern && o.track < count,
    decreases count,
{
    if count == 0 {
        Seq::empty()
    } else {
        let first = from_tracks(m, pattern, at, count - 1);
        let second = from_track(m, pattern, at, count - 1);
        lemma_joined(
            m,
            due_upto(m.tracks, m.patterns[pattern], m.clock, at, count - 1),
            first,
            due_on(m.tracks, m.patterns[pattern], m.clock, at, count - 1),
            second,
        );
        first + second
    }
}

/// Whether a pattern sounds at a step of the song, by the grid and by how much of its block is
/// left: a block of it starts there, or one that started before is not over.
pub open spec fn going(m: EngineModel, step: int, p: int) -> bool {
    if bit(m.starts[step], p as u32) {
        m.lengths[step * 32 + p] > 0
    } else {
        m.run_left[p] > 0
    }
}

/// The step of its own that a pattern that sounds is at.
pub open spec fn there(m: EngineModel, step: int, p: int) -> int {
    if bit(m.starts[step], p as u32) {
        0
    } else {
        m.run_step[p] as int % m.patterns[p].steps as int
    }
}

#[verifier::rlimit(50)]
proof fn from_patterns(m: EngineModel, step: int, count: int) -> (from: Seq<Origin>)
    requires
        m.wf(),
        0 <= step < MAX_SONG_STEPS,
        0 <= count <= MAX_PATTERNS,
    ensures
        m.strikes_each(m.song_due_upto(step, count), from),
        in_turn(from),
        forall|o: Origin| #[trigger]
            from.contains(o) <==> o.pattern < count && 0 <= o.pattern && going(m, step, o.pattern)
                && m.drawn(o, there(m, step, o.pattern)),
    decreases count,
{
    if count == 0 {
        Seq::empty()
    } else {
        let p = count - 1;
        let first = from_patterns(m, step, p);
        assert(m.patterns[p].wf());
        assert(m.run_step[p] + m.run_left[p] <= 0xffff);
        assert(m.sounds_at(step, p) == going(m, step, p));
        assert(m.own_step(step, p) == there(m, step, p)) by {
            if bit(m.starts[step], p as u32) {
                assert(0int % m.patterns[p].steps as int == 0) by (nonlinear_arith)
                    requires
                        m.patterns[p].steps >= 1,
                ;
            } else {
                assert(0 <= (m.run_step[p] as int) % (m.patterns[p].steps as int)
                    < m.patterns[p].steps) by (nonlinear_arith)
                    requires
                        m.patterns[p].steps >= 1,
                ;
            }
        }
        if m.sounds_at(step, p) {
            let at = m.own_step(step, p);
            let second = from_tracks(m, p, at, MAX_TRACKS as int);
            lemma_joined(m, m.song_due_upto(step, p), first, m.due(p, at), second);
            first + second
        } else {
            first
        }
    }
}

/// Playing a step of the song gives a voice to every note, of every pattern that sounds there and
/// every track, that is at the pattern's own step and that its row shows; to each of them once, in
/// turn, and to nothing else. Each sounds as it is drawn. `from` says where each was drawn.
#[verifier::rlimit(50)]
pub proof fn every_pattern_that_sounds_is_struck(m: EngineModel, step: u32) -> (r: (
    Seq<Trigger>,
    Seq<Origin>,
))
    requires
        m.wf(),
        m.song_mode,
        step < m.clock.steps,
    ensures
        ({
            let (ts, from) = r;
            &&& m.stepped(step).voices == m.voices.all_triggered(ts)
            &&& m.stepped(step).handed == m.handed + m.voices.all_turned_away(ts)
            &&& m.strikes_each(ts, from)
            &&& in_turn(from)
            &&& forall|o: Origin| #[trigger]
                from.contains(o) <==> 0 <= o.pattern < 32 && going(m, step as int, o.pattern)
                    && m.drawn(o, there(m, step as int, o.pattern))
        }),
{
    let from = from_patterns(m, step as int, MAX_PATTERNS as int);
    (m.song_due_upto(step as int, MAX_PATTERNS as int), from)
}

/// Playing a step of the open pattern gives a voice to every note of every track at that step that
/// its row shows; to each of them once, in turn, and to nothing else.
#[verifier::rlimit(50)]
pub proof fn every_note_of_the_open_pattern_is_struck(m: EngineModel, step: u32) -> (r: (
    Seq<Trigger>,
    Seq<Origin>,
))
    requires
        m.wf(),
        !m.song_mode,
        step < m.clock.steps,
    ensures
        ({
            let (ts, from) = r;
            &&& m.stepped(step).voices == m.voices.all_triggered(ts)
            &&& m.stepped(step).handed == m.handed + m.voices.all_turned_away(ts)
            &&& m.strikes_each(ts, from)
            &&& in_turn(from)
            &&& forall|o: Origin| #[trigger]
                from.contains(o) <==> o.pattern == m.active_pattern && m.drawn(o, step as int)
        }),
{
    assert(m.patterns[m.active_pattern].wf());
    let from = from_tracks(m, m.active_pattern, step as u16, MAX_TRACKS as int);
    (m.due(m.active_pattern, step as u16), from)
}

/// An engine that holds a project's song, with every pattern in its place, strikes what the song
/// has at a step: for every block that covers it, the notes at the step of the block's pattern
/// that so far into the block comes to, coming round again in a block that is longer than its
/// pattern.
#[verifier::rlimit(50)]
pub proof fn the_song_is_struck_as_it_is_laid_out(
    m: EngineModel,
    project: ProjectModel,
    step: u32,
) -> (r: (Seq<Trigger>, Seq<Origin>))
    requires
        m.wf(),
        m.song_mode,
        step < m.clock.steps,
        project.tidy(),
        m.holds_song(project.song),
        m.in_step(step as int),
    ensures
        ({
            let (ts, from) = r;
            &&& m.stepped(step).voices == m.voices.all_triggered(ts)
            &&& m.stepped(step).handed == m.handed + m.voices.all_turned_away(ts)
            &&& m.strikes_each(ts, from)
            &&& in_turn(from)
            &&& forall|o: Origin, b: Placement|
                #![trigger from.contains(o), project.song.contains(b)]
                from.contains(o) && project.song.contains(b) && b.pattern == o.pattern && b.step
                    <= step < b.step + b.length ==> m.drawn(
                    o,
                    (step - b.step) % (m.patterns[o.pattern].steps as int),
                )
            &&& forall|o: Origin| #[trigger]
                from.contains(o) ==> exists|b: Placement| #[trigger]
                    project.song.contains(b) && b.pattern == o.pattern && b.step <= step < b.step
                        + b.length
            &&& forall|b: Placement, o: Origin|
                #![trigger project.song.contains(b), from.contains(o)]
                project.song.contains(b) && b.step <= step < b.step + b.length && o.pattern
                    == b.pattern && m.drawn(
                    o,
                    (step - b.step) % (m.patterns[o.pattern].steps as int),
                ) ==> from.contains(o)
        }),
{
    let (ts, from) = every_pattern_that_sounds_is_struck(m, step);
    let s = step as int;
    assert(m.playing_steps() <= MAX_SONG_STEPS) by {
        assert(m.patterns[m.active_pattern].wf());
    }
    assert forall|p: u16| p < MAX_PATTERNS implies (#[trigger] m.sounds_at(s, p as int) <==> going(
        m,
        s,
        p as int,
    )) && (going(m, s, p as int) ==> m.own_step(s, p as int) == there(m, s, p as int)) by {
        let q = p as int;
        assert(m.patterns[q].wf());
        assert(m.run_step[q] + m.run_left[q] <= 0xffff);
        if bit(m.starts[s], q as u32) {
            assert(0int % m.patterns[q].steps as int == 0) by (nonlinear_arith)
                requires
                    m.patterns[q].steps >= 1,
            ;
        } else {
            assert(0 <= (m.run_step[q] as int) % (m.patterns[q].steps as int)
                < m.patterns[q].steps) by (nonlinear_arith)
                requires
                    m.patterns[q].steps >= 1,
            ;
        }
    }
    assert forall|o: Origin| #[trigger] from.contains(o) implies exists|b: Placement| #[trigger]
        project.song.contains(b) && b.pattern == o.pattern && b.step <= step < b.step
            + b.length by {
        let p = o.pattern as u16;
        crate::performing::a_pattern_sounds_where_its_blocks_are(m, project, step, p);
        assert(m.sounds_at(s, p as int));
        let b = choose|b: Placement| #[trigger]
            project.song.contains(b) && b.pattern == p && b.spans(s);
        assert(project.belongs(b));
        assert(project.song.contains(b));
    }
    assert forall|o: Origin, b: Placement|
        #![trigger from.contains(o), project.song.contains(b)]
        from.contains(o) && project.song.contains(b) && b.pattern == o.pattern && b.step <= step
            < b.step + b.length implies m.drawn(
        o,
        (step - b.step) % (m.patterns[o.pattern].steps as int),
    ) by {
        let p = o.pattern as u16;
        crate::performing::a_pattern_sounds_where_its_blocks_are(m, project, step, p);
        assert(b.spans(s));
        assert(m.sounds_at(s, p as int));
    }
    assert forall|b: Placement, o: Origin|
        #![trigger project.song.contains(b), from.contains(o)]
        project.song.contains(b) && b.step <= step < b.step + b.length && o.pattern == b.pattern
            && m.drawn(o, (step - b.step) % (m.patterns[o.pattern].steps as int)) implies from.contains(
    o) by {
        let p = o.pattern as u16;
        crate::performing::a_pattern_sounds_where_its_blocks_are(m, project, step, p);
        assert(b.spans(s));
        assert(m.sounds_at(s, p as int));
    }
    (ts, from)
}

} // verus!
