//! What each thing that can be asked for comes to, note by note and number by number.

use vstd::prelude::*;

use crate::arranging::{lemma_has_pattern, lemma_has_track};
use crate::command::{Command, EngineNote};
use crate::commands::{fader, note_cleared, offered, At, AUDITION_VELOCITY, LONGEST_NAME};
use crate::drawing::{
    has_any_at, has_note, lemma_has_note, lemma_lane_tidy, what_a_new_length_changes,
};
use crate::lane::{fits_as, holding_is_having, Note};
use crate::pattern::PatternModel;
use crate::placement::Placement;
use crate::project::{not_starting, numbered_name, plays_from, ProjectModel, Track};
use crate::seqs::lemma_filter_members;
use crate::single::Single;
use crate::telling::{missing_from, placement_told, swallowed};
use crate::text::{digits, shortened, trimmed};

verus! {

/// A track's fader goes from nought to one and a half, and what is not a number stays as it is.
pub proof fn a_fader_goes_from_nought_to_one_and_a_half(gain: Single)
    ensures
        gain.nan() ==> fader(gain) == gain,
        !gain.nan() && gain.bits > 0x8000_0000 ==> fader(gain).bits == 0,
        !gain.nan() && 0x3fc0_0000 < gain.bits < 0x8000_0000 ==> fader(gain).bits == 0x3fc0_0000,
        gain.bits <= 0x3fc0_0000 || gain.bits == 0x8000_0000 ==> fader(gain) == gain,
{
}

/// The tempo a project can be given goes from forty to two hundred and forty.
pub proof fn a_tempo_goes_from_forty_to_two_hundred_and_forty(bpm: Single)
    ensures
        bpm.nan() ==> offered(bpm) == bpm,
        !bpm.nan() && (bpm.bits < 0x4220_0000 || bpm.bits >= 0x8000_0000) ==> offered(bpm).bits
            == 0x4220_0000,
        !bpm.nan() && 0x4370_0000 < bpm.bits < 0x8000_0000 ==> offered(bpm).bits == 0x4370_0000,
        0x4220_0000 <= bpm.bits <= 0x4370_0000 ==> offered(bpm) == bpm,
{
}

/// The note the engine holds for a note inside a pattern is at the same step and pitch, as loud and
/// as long.
pub proof fn the_engine_holds_a_note_as_it_is(n: Note)
    requires
        n.step <= 0xffff,
        n.length <= 0xffff,
    ensures
        EngineNote::of(n).step == n.step,
        EngineNote::of(n).pitch == n.pitch,
        EngineNote::of(n).velocity == n.velocity,
        EngineNote::of(n).length == n.length,
{
}

/// What the engine is told of a note that is rubbed out is where it was.
pub proof fn a_note_rubbed_out_is_said_to_be(pattern: u16, track: u16, at: At)
    requires
        at.step <= 0xffff,
    ensures
        note_cleared(pattern, track, at).len() == 1,
        note_cleared(pattern, track, at)[0] matches Command::ClearNote {
            pattern: p,
            track: t,
            step,
            pitch,
        } && p == pattern && t == track && step == at.step && pitch == at.pitch,
{
}

/// A note that is asked for is where it is asked for. It is struck as hard as it is asked to be,
/// from one to a hundred and twenty seven. It is as long as it is asked to be, a step at the least,
/// and ends by the end of its pattern.
pub proof fn a_note_is_what_is_asked_for(at: At, velocity: u8, length: u32, steps: u32)
    requires
        at.step < steps,
    ensures
        ({
            let n = ProjectModel::asked_note(at, velocity, length, steps);
            &&& n.step == at.step && n.pitch == at.pitch
            &&& velocity == 0 ==> n.velocity == 1
            &&& velocity > 127 ==> n.velocity == 127
            &&& 1 <= velocity <= 127 ==> n.velocity == velocity
            &&& length == 0 ==> n.length == 1
            &&& length >= 1 && at.step + length <= steps ==> n.length == length
            &&& length >= 1 && at.step + length > steps ==> n.length == steps - at.step
        }),
{
}

/// The pattern of a tidy project that has a number is the only one that does, and the one that is
/// found by it.
pub proof fn a_pattern_is_found_by_its_number(m: ProjectModel, i: int)
    requires
        m.tidy(),
        0 <= i < m.patterns.len(),
    ensures
        m.has_pattern(m.patterns[i].id),
        m.pattern_at(m.patterns[i].id) == i,
        m.pattern_of(m.patterns[i].id) == m.patterns[i],
{
    let id = m.patterns[i].id;
    lemma_has_pattern(m, id);
    let k = m.pattern_at(id);
    if k < i {
        assert(m.patterns[k].id != m.patterns[i].id);
    } else if i < k {
        assert(m.patterns[i].id != m.patterns[k].id);
    }
}

/// The track of a tidy project that has a number is the only one that does, and the one that is
/// found by it.
pub proof fn a_track_is_found_by_its_number(m: ProjectModel, i: int)
    requires
        m.tidy(),
        0 <= i < m.tracks.len(),
    ensures
        m.has_track(m.tracks[i].id),
        m.track_at(m.tracks[i].id) == i,
{
    let id = m.tracks[i].id;
    lemma_has_track(m, id);
    let k = m.track_at(id);
    if k < i {
        assert(m.tracks[k].id != m.tracks[i].id);
    } else if i < k {
        assert(m.tracks[i].id != m.tracks[k].id);
    }
}

/// Editing a pattern, or a track, changes that one and nothing else.
pub proof fn an_edit_is_to_one_thing(m: ProjectModel, i: int, p: PatternModel, k: int, t: Track)
    requires
        m.tidy(),
        0 <= i < m.patterns.len(),
        0 <= k < m.tracks.len(),
    ensures
        ({
            let now = m.with_pattern(m.patterns[i].id, p);
            &&& now.patterns.len() == m.patterns.len()
            &&& now.patterns[i] == p
            &&& forall|j: int| 0 <= j < m.patterns.len() && j != i ==> now.patterns[j] == m.patterns[j]
            &&& now.tracks == m.tracks && now.song == m.song && now.version == m.version
            &&& now.bpm == m.bpm && now.master_gain == m.master_gain
        }),
        ({
            let now = m.with_track(m.tracks[k].id, t);
            &&& now.tracks.len() == m.tracks.len()
            &&& now.tracks[k] == t
            &&& forall|j: int| 0 <= j < m.tracks.len() && j != k ==> now.tracks[j] == m.tracks[j]
            &&& now.patterns == m.patterns && now.song == m.song && now.version == m.version
            &&& now.bpm == m.bpm && now.master_gain == m.master_gain
        }),
{
    a_pattern_is_found_by_its_number(m, i);
    a_track_is_found_by_its_number(m, k);
}

/// A pattern that a note does not fit in is made long enough for it, and two hundred and fifty six
/// steps at the most; one that it fits in stays as it is. A track whose notes lay inside it has the
/// notes it had.
pub proof fn a_pattern_makes_room_for_a_note(
    m: ProjectModel,
    i: int,
    at: At,
    length: u32,
    t: u16,
    n: Note,
)
    requires
        m.tidy(),
        0 <= i < m.patterns.len(),
    ensures
        ({
            let p = m.patterns[i];
            let now = m.stretched(p.id, at, length);
            let reach = at.step + (if length < 1 {
                1int
            } else {
                length as int
            });
            &&& reach <= p.steps ==> now == p
            &&& reach > p.steps ==> now.steps == (if reach > 256 {
                256
            } else {
                reach
            })
            &&& now.id == p.id && now.name == p.name && now.colour == p.colour && now.pitched
                == p.pitched
            &&& (forall|w: Note| #[trigger]
                has_note(p, t, w) ==> 1 <= w.length && w.step + w.length <= p.steps) ==> (has_note(
                now,
                t,
                n,
            ) <==> has_note(p, t, n))
        }),
{
    a_pattern_is_found_by_its_number(m, i);
    let p = m.patterns[i];
    assert(p.tidy());
    let now = m.stretched(p.id, at, length);
    let reach = at.step + (if length < 1 {
        1int
    } else {
        length as int
    });
    if reach > p.steps {
        let wanted = if reach > u32::MAX {
            u32::MAX
        } else {
            reach as u32
        };
        what_a_new_length_changes(p, wanted, t, n);
        let held = now.steps as int;
        if forall|w: Note| #[trigger]
            has_note(p, t, w) ==> 1 <= w.length && w.step + w.length <= p.steps {
            if has_note(p, t, n) {
                assert(fits_as(n, n, held));
            }
            if has_note(now, t, n) {
                let w = choose|w: Note| #[trigger]
                    has_note(p, t, w) && w.step < held && fits_as(w, n, held);
                assert(w == n);
            }
        }
    }
}

/// A note can be moved when there is one where it is to be moved from, and where it is to go is in
/// its pattern.
pub proof fn what_can_be_moved(m: ProjectModel, i: int, track: u16, at: At, to: At)
    requires
        m.tidy(),
        0 <= i < m.patterns.len(),
    ensures
        m.can_move(m.patterns[i].id, track, at, to) <==> to.step < m.patterns[i].steps
            && has_any_at(m.patterns[i], track, at.step, at.pitch),
{
    a_pattern_is_found_by_its_number(m, i);
    let p = m.patterns[i];
    assert(p.tidy());
    holding_is_having(p.lane_of(track), at.step, at.pitch);
    lemma_lane_has(p, track, at.step, at.pitch);
}

/// A note of a lane is a note of its pattern, and the other way about.
proof fn lemma_lane_has(p: PatternModel, track: u16, step: u32, pitch: u8)
    requires
        p.tidy(),
    ensures
        has_any_at(p, track, step, pitch) <==> exists|k: int|
            0 <= k < p.lane_of(track).notes.len() && (#[trigger] p.lane_of(track).notes[k]).is_at(
                step,
                pitch,
            ),
        forall|k: int|
            0 <= k < p.lane_of(track).notes.len() ==> has_note(
                p,
                track,
                #[trigger] p.lane_of(track).notes[k],
            ),
        forall|n: Note| #[trigger] has_note(p, track, n) ==> p.lane_of(track).notes.contains(n),
{
    let l = p.lane_of(track);
    assert forall|k: int| 0 <= k < l.notes.len() implies has_note(p, track, #[trigger] l.notes[k]) by {
        lemma_has_note(p, track, l.notes[k]);
        assert(l.notes.contains(l.notes[k]));
    }
    assert forall|n: Note| #[trigger] has_note(p, track, n) implies l.notes.contains(n) by {
        lemma_has_note(p, track, n);
    }
    if has_any_at(p, track, step, pitch) {
        let n = choose|n: Note| #[trigger]
            has_note(p, track, n) && n.step == step && n.pitch == pitch;
        let k = choose|k: int| 0 <= k < l.notes.len() && l.notes[k] == n;
        assert(l.notes[k].is_at(step, pitch));
    }
    if exists|k: int| 0 <= k < l.notes.len() && (#[trigger] l.notes[k]).is_at(step, pitch) {
        let k = choose|k: int| 0 <= k < l.notes.len() && (#[trigger] l.notes[k]).is_at(step, pitch);
        assert(has_note(p, track, l.notes[k]));
    }
}

/// A note that is moved is where it is moved to, struck as hard as it was and as long, unless that
/// runs past the end of its pattern, which it ends by.
pub proof fn a_moved_note_is_the_note_it_was(
    m: ProjectModel,
    i: int,
    track: u16,
    n: Note,
    to: At,
)
    requires
        m.tidy(),
        0 <= i < m.patterns.len(),
        has_note(m.patterns[i], track, n),
        to.step < m.patterns[i].steps,
    ensures
        ({
            let p = m.patterns[i];
            let now = m.moved_note(p.id, track, At { step: n.step, pitch: n.pitch }, to);
            &&& now.step == to.step && now.pitch == to.pitch && now.velocity == n.velocity
            &&& n.length == 0 ==> now.length == 1
            &&& n.length >= 1 && to.step + n.length <= p.steps ==> now.length == n.length
            &&& n.length >= 1 && to.step + n.length > p.steps ==> now.length == p.steps - to.step
        }),
{
    a_pattern_is_found_by_its_number(m, i);
    let p = m.patterns[i];
    assert(p.tidy());
    let l = p.lane_of(track);
    lemma_lane_has(p, track, n.step, n.pitch);
    holding_is_having(l, n.step, n.pitch);
    let k = choose|k: int| 0 <= k < l.notes.len() && l.notes[k] == n;
    assert(l.notes[k].is_at(n.step, n.pitch));
    let at = l.position(n.step, n.pitch);
    lemma_lane_tidy(p, track);
    if at < k {
        assert(!l.notes[at].is_at(l.notes[k].step, l.notes[k].pitch));
    } else if k < at {
        assert(!l.notes[k].is_at(l.notes[at].step, l.notes[at].pitch));
    }
}

/// A box of a pattern is one of its steps. Setting it changes its own pattern as
/// [`crate::drawing::what_a_box_changes`] says, and no other; a box that the pattern has not is not set.
pub proof fn a_box_is_set_in_its_pattern(m: ProjectModel, i: int, track: u16, step: u32, on: bool)
    requires
        m.tidy(),
        0 <= i < m.patterns.len(),
    ensures
        ({
            let p = m.patterns[i];
            let now = m.with_box(p.id, track, step, on);
            &&& m.has_box(p.id, step) <==> step < p.steps
            &&& step >= p.steps ==> now == m
            &&& step < p.steps ==> now.patterns.len() == m.patterns.len() && now.patterns[i]
                == p.with_step(track, step, on).0
            &&& forall|j: int| 0 <= j < m.patterns.len() && j != i ==> now.patterns[j] == m.patterns[j]
            &&& now.tracks == m.tracks && now.song == m.song && now.version == m.version
            &&& now.bpm == m.bpm && now.master_gain == m.master_gain
        }),
{
    a_pattern_is_found_by_its_number(m, i);
}

/// The note that a ticked box stands for is one of its pattern's, on its track, at its step and
/// middle C.
pub proof fn a_ticked_box_stands_for_a_note(m: ProjectModel, i: int, track: u16, step: u32)
    requires
        m.tidy(),
        0 <= i < m.patterns.len(),
        has_any_at(m.patterns[i], track, step, 60),
    ensures
        ({
            let n = m.box_note(m.patterns[i].id, track, step);
            has_note(m.patterns[i], track, n) && n.step == step && n.pitch == 60
        }),
{
    a_pattern_is_found_by_its_number(m, i);
    let p = m.patterns[i];
    assert(p.tidy());
    lemma_lane_has(p, track, step, 60);
    holding_is_having(p.lane_of(track), step, 60);
}

/// The block that is asked for is as long as it is asked to be, or as its pattern when nothing is
/// said, and four thousand and ninety six steps at the most.
pub proof fn a_block_is_what_is_asked_for(m: ProjectModel, i: int, step: u32, length: u32)
    requires
        m.tidy(),
        0 <= i < m.patterns.len(),
    ensures
        ({
            let p = m.patterns[i];
            let b = m.asked_block(p.id, step, length);
            &&& b.step == step && b.pattern == p.id
            &&& length == 0 ==> b.length == p.steps
            &&& 1 <= length <= 4096 ==> b.length == length
            &&& length > 4096 ==> b.length == 4096
        }),
{
    a_pattern_is_found_by_its_number(m, i);
    assert(m.patterns[i].tidy());
}

/// What is said of a block that is taken up: that it is, and how long the song is now. Of one that
/// is put down: first that each block is taken up that made way for it, but for one that started
/// where it does, and that it is put down; and how long the song is now.
pub proof fn what_is_said_of_a_block(
    was: Seq<Placement>,
    now: Seq<Placement>,
    block: Placement,
    b: Placement,
)
    ensures
        placement_told(was, now, block, false).len() == 2,
        placement_told(was, now, block, false)[0] == (Command::UnplacePattern {
            pattern: block.pattern,
            step: block.step,
        }),
        swallowed(was, now, block).contains(b) <==> was.contains(b) && !now.contains(b) && !(
        b.pattern == block.pattern && b.step == block.step),
        ({
            let said = placement_told(was, now, block, true);
            let gone = swallowed(was, now, block);
            &&& said.len() == gone.len() + 2
            &&& forall|k: int|
                0 <= k < gone.len() ==> #[trigger] said[k] == (Command::UnplacePattern {
                    pattern: gone[k].pattern,
                    step: gone[k].step,
                })
            &&& said[gone.len() as int] == (Command::PlacePattern {
                pattern: block.pattern,
                step: block.step,
                length: block.length,
            })
            &&& said.last() is SetSongLen
        }),
{
    let missing = was.filter(missing_from(now));
    lemma_filter_members(was, missing_from(now));
    lemma_filter_members(missing, not_starting(block.pattern, block.step));
}

/// The lowest free slot is one that there is, that nothing has, and that everything below is had
/// by something.
pub proof fn the_lowest_free_slot_is_the_lowest(m: ProjectModel, id: u16, k: u16)
    ensures
        m.lowest_free_track(id as int) ==> id < 32 && (forall|i: int|
            0 <= i < m.tracks.len() ==> (#[trigger] m.tracks[i]).id != id) && (k < id ==> exists|
            i: int,
        |
            0 <= i < m.tracks.len() && (#[trigger] m.tracks[i]).id == k),
        m.lowest_free_pattern(id as int) ==> id < 32 && (forall|i: int|
            0 <= i < m.patterns.len() ==> (#[trigger] m.patterns[i]).id != id) && (k < id ==> exists|
            i: int,
        |
            0 <= i < m.patterns.len() && (#[trigger] m.patterns[i]).id == k),
{
    lemma_has_track(m, id);
    lemma_has_track(m, k);
    lemma_has_pattern(m, id);
    lemma_has_pattern(m, k);
}

/// Whether some pattern has a name.
pub open spec fn is_called(m: ProjectModel, name: Seq<char>) -> bool {
    exists|i: int| 0 <= i < m.patterns.len() && (#[trigger] m.patterns[i]).name == name
}

/// A new pattern is called after the lowest number from one up that no pattern is called after yet.
/// No pattern is called what it is.
pub proof fn a_new_name_is_new(m: ProjectModel, name: Seq<char>) -> (n: nat)
    requires
        m.next_name(name),
    ensures
        n >= 1,
        name == "Pattern "@ + digits(n),
        forall|i: int| 0 <= i < m.patterns.len() ==> (#[trigger] m.patterns[i]).name != name,
        forall|k: nat| 1 <= k < n ==> is_called(m, "Pattern "@ + #[trigger] digits(k)),
{
    let n = choose|n: nat|
        n >= 1 && name == #[trigger] numbered_name(n) && !m.names().contains(name) && forall|k: nat|

            1 <= k < n ==> m.names().contains(#[trigger] numbered_name(k));
    assert forall|i: int| 0 <= i < m.patterns.len() implies (#[trigger] m.patterns[i]).name
        != name by {
        assert(m.names()[i] == m.patterns[i].name);
    }
    assert forall|k: nat| 1 <= k < n implies is_called(m, "Pattern "@ + #[trigger] digits(k)) by {
        assert(m.names().contains(numbered_name(k)));
        let i = choose|i: int| 0 <= i < m.names().len() && m.names()[i] == numbered_name(k);
        assert(m.patterns[i].name == numbered_name(k));
    }
    n
}

/// A pattern is called what it is given, without the white space at either end and forty characters
/// long at the most; a row that is clicked is struck at a hundred and ten.
pub proof fn how_long_a_name_can_be(name: Seq<char>)
    ensures
        shortened(trimmed(name), LONGEST_NAME as int).len() <= 40,
        trimmed(name).len() <= 40 ==> shortened(trimmed(name), LONGEST_NAME as int) == trimmed(
            name,
        ),
        trimmed(name).len() > 40 ==> shortened(trimmed(name), LONGEST_NAME as int) == trimmed(
            name,
        ).take(40),
        AUDITION_VELOCITY == 110,
{
}

/// The tracks that play a file are those whose sample is at its path, and no others.
pub proof fn who_plays_a_file(m: ProjectModel, path: Seq<char>, t: Track)
    ensures
        m.tracks.filter(plays_from(path)).contains(t) <==> m.tracks.contains(t) && (
        t.sample matches Some(s) && s.path@ == path),
        m.tracks.filter(plays_from(path)).len() == 0 <==> forall|i: int|
            0 <= i < m.tracks.len() ==> !((#[trigger] m.tracks[i]).sample matches Some(s) && s.path@
                == path),
{
    let users = m.tracks.filter(plays_from(path));
    lemma_filter_members(m.tracks, plays_from(path));
    if users.len() > 0 {
        assert(users.contains(users[0]));
        let i = choose|i: int| 0 <= i < m.tracks.len() && m.tracks[i] == users[0];
        assert(m.tracks[i].sample matches Some(s) && s.path@ == path);
    }
    if users.len() == 0 {
        assert forall|i: int| 0 <= i < m.tracks.len() implies !((
        #[trigger] m.tracks[i]).sample matches Some(s) && s.path@ == path) by {
            if m.tracks[i].sample matches Some(s) && s.path@ == path {
                assert(m.tracks.contains(m.tracks[i]));
                assert(users.contains(m.tracks[i]));
            }
        }
    }
}

/// There is no slot left when each of the thirty two is had by a track.
pub proof fn when_there_is_no_slot_left(m: ProjectModel)
    ensures
        m.crowded() <==> forall|k: u16| k < 32 ==> #[trigger] is_had(m, k),
{
    assert forall|k: u16| #[trigger] is_had(m, k) == m.has_track(k) by {
        lemma_has_track(m, k);
    }
    if m.crowded() {
        assert forall|k: u16| k < 32 implies #[trigger] is_had(m, k) by {
            assert(m.has_track(k));
        }
    }
    if forall|k: u16| k < 32 ==> #[trigger] is_had(m, k) {
        assert forall|k: u16| k < 32 implies #[trigger] m.has_track(k) by {
            assert(is_had(m, k));
        }
    }
}

/// Whether some track has a slot.
pub open spec fn is_had(m: ProjectModel, k: u16) -> bool {
    exists|i: int| 0 <= i < m.tracks.len() && (#[trigger] m.tracks[i]).id == k
}

} // verus!
