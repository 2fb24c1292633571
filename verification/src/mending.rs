//! What putting a project right does, and what it leaves alone.

use vstd::prelude::*;
use vstd::relations::sorted_by;

use crate::drawing::{cutting_twice_is_cutting_once, has_note};
use crate::lane::{fits_as, what_cutting_a_lane_leaves, LaneModel, Note};
use crate::mirroring::neat;
use crate::pattern::{not_empty, PatternModel};
use crate::placement::{song_order, Placement};
use crate::project::{
    lemma_ordered, lemma_repeats, marked, old_instruments, ordered, pattern_called, without_repeats,
    ProjectModel, Track,
};
use crate::reflecting::lemma_stretched;
use crate::seqs::{
    by_rank, lemma_filter_all, lemma_filter_members, lemma_first_where, lemma_first_where_bounds,
};

verus! {

/// What is left of the song after it has been put right: every block of a pattern that is
/// there, where it was put, with the length it had, or its pattern's length when it had none.
/// Nothing is moved, and nothing is added.
pub proof fn repairing_moves_nothing(m: ProjectModel, p: Placement)
    ensures
        m.repaired().song.contains(p) <==> exists|q: Placement| #[trigger]
            m.song.contains(q) && m.has_pattern(q.pattern) && p == m.filled()(q),
        m.song.contains(p) && m.has_pattern(p.pattern) && p.length > 0
            ==> m.repaired().song.contains(p),
        m.repaired().song.contains(p) ==> p.length > 0,
        m.repaired().song.len() <= m.song.len(),
        sorted_by(m.repaired().song, by_rank::<Placement>()),
{
    let kept = m.song.filter(m.known());
    let whole = kept.map_values(m.filled());
    lemma_filter_members(m.song, m.known());
    lemma_ordered(whole);
    lemma_repeats(ordered(whole));
    lemma_repeats_sorted(ordered(whole));
    if m.repaired().song.contains(p) {
        assert(whole.contains(p));
        let i = choose|i: int| 0 <= i < whole.len() && whole[i] == p;
        assert(kept.contains(kept[i]));
        assert(m.song.contains(kept[i]) && m.has_pattern(kept[i].pattern) && p == m.filled()(
            kept[i],
        ));
    }
    if exists|q: Placement| #[trigger]
        m.song.contains(q) && m.has_pattern(q.pattern) && p == m.filled()(q) {
        let q = choose|q: Placement| #[trigger]
            m.song.contains(q) && m.has_pattern(q.pattern) && p == m.filled()(q);
        assert(kept.contains(q));
        let i = choose|i: int| 0 <= i < kept.len() && kept[i] == q;
        assert(whole[i] == p);
        assert(whole.contains(p));
    }
    if m.song.contains(p) && m.has_pattern(p.pattern) && p.length > 0 {
        assert(p == m.filled()(p));
    }
}

/// Leaving repeats out of a song in order leaves one in order with nothing twice running.
proof fn lemma_repeats_sorted(song: Seq<Placement>)
    requires
        sorted_by(song, by_rank::<Placement>()),
    ensures
        sorted_by(without_repeats(song), by_rank::<Placement>()),
        forall|i: int|
            0 < i < without_repeats(song).len() ==> #[trigger] without_repeats(song)[i]
                != without_repeats(song)[i - 1],
    decreases song.len(),
{
    if song.len() > 1 {
        let front = song.drop_last();
        let kept = without_repeats(front);
        assert(sorted_by(front, by_rank::<Placement>())) by {
            assert forall|i: int, j: int| 0 <= i < j < front.len() implies #[trigger] by_rank::<
                Placement,
            >()(front[i], front[j]) by {
                assert(by_rank::<Placement>()(song[i], song[j]));
            }
        }
        lemma_repeats_sorted(front);
        lemma_repeats(front);
        if song.last() != song[song.len() - 2] {
            let after = without_repeats(song);
            assert forall|i: int, j: int| 0 <= i < j < after.len() implies #[trigger] by_rank::<
                Placement,
            >()(after[i], after[j]) by {
                if j == kept.len() {
                    assert(kept.contains(kept[i]));
                    assert(front.contains(kept[i]));
                    let k = choose|k: int| 0 <= k < front.len() && front[k] == kept[i];
                    assert(by_rank::<Placement>()(song[k], song[song.len() - 1]));
                } else {
                    assert(by_rank::<Placement>()(kept[i], kept[j]));
                }
            }
        }
    }
}

/// A song with nothing twice running is not changed by leaving repeats out.
proof fn lemma_no_repeats(song: Seq<Placement>)
    requires
        forall|i: int| 0 < i < song.len() ==> #[trigger] song[i] != song[i - 1],
    ensures
        without_repeats(song) == song,
    decreases song.len(),
{
    if song.len() > 1 {
        let front = song.drop_last();
        assert forall|i: int| 0 < i < front.len() implies #[trigger] front[i] != front[i - 1] by {
            assert(song[i] != song[i - 1]);
        }
        lemma_no_repeats(front);
        assert(song[song.len() - 1] != song[song.len() - 1 - 1]);
        assert(front.push(song.last()) =~= song);
    }
}

proof fn lemma_no_old_instruments(tracks: Seq<Track>)
    requires
        forall|i: int| 0 <= i < tracks.len() ==> !(#[trigger] tracks[i]).pitched,
    ensures
        old_instruments(tracks) == Seq::<u16>::empty(),
    decreases tracks.len(),
{
    if tracks.len() > 0 {
        assert(!tracks[tracks.len() - 1].pitched);
        lemma_no_old_instruments(tracks.drop_last());
    }
}

/// Marking instruments keeps a pattern's number, length and notes.
proof fn lemma_marked(p: PatternModel, tracks: Seq<u16>)
    ensures
        marked(p, tracks).id == p.id,
        marked(p, tracks).steps == p.steps,
        marked(p, tracks).lanes == p.lanes,
        marked(p, tracks).name == p.name,
    decreases tracks.len(),
{
    if tracks.len() > 0 {
        lemma_marked(p, tracks.drop_last());
    }
}

/// A project that has been put right needs nothing more putting right.
pub proof fn repairing_twice_is_repairing_once(m: ProjectModel)
    ensures
        m.repaired().repaired() == m.repaired(),
{
    let once = m.repaired();
    let twice = once.repaired();
    assert forall|i: int| 0 <= i < once.tracks.len() implies !(#[trigger] once.tracks[i]).pitched by {}
    lemma_no_old_instruments(once.tracks);
    assert(twice.tracks =~= once.tracks);
    assert forall|i: int| 0 <= i < once.patterns.len() implies #[trigger] twice.patterns[i]
        == once.patterns[i] by {
        cutting_twice_is_cutting_once(marked(m.patterns[i], old_instruments(m.tracks)));
        assert(marked(once.patterns[i], Seq::<u16>::empty()) == once.patterns[i]);
    }
    assert(twice.patterns =~= once.patterns);
    assert forall|id: u16| #[trigger] once.pattern_at(id) == m.pattern_at(id) && (
    once.has_pattern(id) ==> once.own_length(id) == m.own_length(id)) by {
        lemma_first_where_bounds(m.patterns, pattern_called(id));
        let k = m.pattern_at(id);
        assert forall|i: int| 0 <= i < m.patterns.len() implies (#[trigger] once.patterns[i]).id
            == m.patterns[i].id && once.patterns[i].steps == m.patterns[i].steps by {
            lemma_marked(m.patterns[i], old_instruments(m.tracks));
        }
        assert forall|j: int| 0 <= j < k implies !pattern_called(id)(#[trigger] once.patterns[j]) by {
            assert(!pattern_called(id)(m.patterns[j]));
        }
        if k < m.patterns.len() {
            assert(once.patterns[k].id == m.patterns[k].id);
        }
        lemma_first_where(once.patterns, pattern_called(id), k);
    }
    assert forall|i: int| 0 <= i < once.song.len() implies once.known()(#[trigger] once.song[i])
        && once.filled()(once.song[i]) == once.song[i] by {
        let p = once.song[i];
        assert(once.song.contains(p));
        repairing_moves_nothing(m, p);
        let q = choose|q: Placement| #[trigger]
            m.song.contains(q) && m.has_pattern(q.pattern) && p == m.filled()(q);
        assert(once.pattern_at(p.pattern) == m.pattern_at(p.pattern));
    }
    lemma_filter_all(once.song, once.known());
    assert(once.song.map_values(once.filled()) =~= once.song);
    let whole = m.song.filter(m.known()).map_values(m.filled());
    lemma_ordered(whole);
    lemma_repeats_sorted(ordered(whole));
    lemma_ordered(once.song);
    song_order();
    vstd::seq_lib::lemma_sorted_unique(once.song, ordered(once.song), by_rank::<Placement>());
    lemma_no_repeats(once.song);
    assert(twice.song =~= once.song);
    assert(twice =~= once);
}

/// Putting a tidy project right changes nothing of its song.
pub proof fn a_tidy_song_needs_no_repair(m: ProjectModel)
    requires
        m.tidy_song(),
    ensures
        m.repaired().song == m.song,
{
    assert forall|i: int| 0 <= i < m.song.len() implies m.known()(#[trigger] m.song[i])
        && m.filled()(m.song[i]) == m.song[i] by {
        assert(m.song.contains(m.song[i]));
        assert(m.belongs(m.song[i]));
    }
    lemma_filter_all(m.song, m.known());
    assert(m.song.map_values(m.filled()) =~= m.song);
    lemma_ordered(m.song);
    song_order();
    vstd::seq_lib::lemma_sorted_unique(m.song, ordered(m.song), by_rank::<Placement>());
    assert forall|i: int| 0 < i < m.song.len() implies #[trigger] m.song[i] != m.song[i - 1] by {
        assert(crate::arranging::apart()(m.song[i - 1], m.song[i]));
    }
    lemma_no_repeats(m.song);
}

/// Putting right a project as every edit leaves one, with no old marks of instruments, changes
/// nothing: it can be written down, read back and put right, and is what it was.
pub proof fn a_neat_project_needs_no_repair(m: ProjectModel)
    requires
        m.neat(),
        forall|i: int| 0 <= i < m.tracks.len() ==> !(#[trigger] m.tracks[i]).pitched,
    ensures
        m.repaired() == m,
{
    let after = m.repaired();
    lemma_no_old_instruments(m.tracks);
    assert(after.tracks =~= m.tracks);
    assert forall|i: int| 0 <= i < m.patterns.len() implies #[trigger] after.patterns[i]
        == m.patterns[i] by {
        let p = m.patterns[i];
        assert(neat(p));
        assert(marked(p, Seq::<u16>::empty()) == p);
        lemma_stretched(p, p.steps);
        assert(p.with_steps(p.steps) == p.fitted());
    }
    assert(after.patterns =~= m.patterns);
    a_tidy_song_needs_no_repair(m);
    assert(after =~= m);
}

/// Being an instrument used to be the track's business. After a repair the old mark is gone
/// from every track, and every pattern has the tracks that carried it as instruments.
pub proof fn old_instruments_become_instruments_everywhere(m: ProjectModel, i: int, k: int)
    requires
        0 <= i < m.patterns.len(),
        0 <= k < m.tracks.len(),
        m.patterns[i].pitched.no_duplicates(),
    ensures
        !m.repaired().tracks[k].pitched,
        m.tracks[k].pitched ==> m.repaired().patterns[i].pitched.contains(m.tracks[k].id),
        m.patterns[i].pitched.contains(m.tracks[k].id) ==> m.repaired().patterns[i].pitched.contains(
            m.tracks[k].id,
        ),
{
    let found = old_instruments(m.tracks);
    lemma_old_instruments(m.tracks, k);
    lemma_marked_members(m.patterns[i], found, m.tracks[k].id);
}

proof fn lemma_old_instruments(tracks: Seq<Track>, k: int)
    requires
        0 <= k < tracks.len(),
    ensures
        tracks[k].pitched ==> old_instruments(tracks).contains(tracks[k].id),
    decreases tracks.len(),
{
    let front = tracks.drop_last();
    let found = old_instruments(front);
    if k < tracks.len() - 1 {
        lemma_old_instruments(front, k);
        if tracks[k].pitched {
            let i = choose|i: int| 0 <= i < found.len() && found[i] == tracks[k].id;
            assert(old_instruments(tracks)[i] == tracks[k].id);
        }
    } else if tracks[k].pitched {
        assert(old_instruments(tracks)[found.len() as int] == tracks[k].id);
    }
}

proof fn lemma_marked_members(p: PatternModel, tracks: Seq<u16>, track: u16)
    requires
        p.pitched.no_duplicates(),
    ensures
        marked(p, tracks).pitched.no_duplicates(),
        marked(p, tracks).pitched.contains(track) <==> p.pitched.contains(track) || tracks.contains(
            track,
        ),
    decreases tracks.len(),
{
    if tracks.len() > 0 {
        let front = tracks.drop_last();
        lemma_marked_members(p, front, track);
        crate::drawing::being_an_instrument_is_what_it_was_set_to(
            marked(p, front),
            tracks.last(),
            true,
            track,
        );
        assert(tracks[tracks.len() - 1] == tracks.last());
        if tracks.contains(track) && track != tracks.last() {
            let i = choose|i: int| 0 <= i < tracks.len() && tracks[i] == track;
            assert(front[i] == track);
        }
        if front.contains(track) {
            let i = choose|i: int| 0 <= i < front.len() && front[i] == track;
            assert(tracks[i] == track);
        }
    }
}

/// A project that has been put right keeps every block of a pattern that is there, where it was,
/// as long as it was, or as long as its pattern and one step at the least when it did not say; and
/// has no other block but those. `i` is where the pattern is.
pub proof fn what_is_left_of_a_block(m: ProjectModel, q: Placement, i: int, p: Placement)
    requires
        forall|a: int, b: int|
            0 <= a < b < m.patterns.len() ==> (#[trigger] m.patterns[a]).id != (
            #[trigger] m.patterns[b]).id,
        m.song.contains(q),
        0 <= i < m.patterns.len(),
        m.patterns[i].id == q.pattern,
        p.step == q.step,
        p.pattern == q.pattern,
        p.length == (if q.length > 0 {
            q.length as int
        } else if m.patterns[i].steps < 1 {
            1
        } else {
            m.patterns[i].steps as int
        }),
    ensures
        m.repaired().song.contains(p),
{
    lemma_first_where_bounds(m.patterns, pattern_called(q.pattern));
    assert(pattern_called(q.pattern)(m.patterns[i]));
    let k = m.pattern_at(q.pattern);
    if k < i {
        assert(pattern_called(q.pattern)(m.patterns[k]));
        assert(m.patterns[k].id != m.patterns[i].id);
    } else if i < k {
        assert(!pattern_called(q.pattern)(m.patterns[i]));
    }
    assert(p == m.filled()(q));
    repairing_moves_nothing(m, p);
}

/// Every block of a project that has been put right was there before: of a pattern that is there,
/// where it was, and as long as it was unless it did not say.
pub proof fn no_block_comes_from_nowhere(m: ProjectModel, p: Placement) -> (q: Placement)
    requires
        m.repaired().song.contains(p),
    ensures
        m.song.contains(q),
        q.step == p.step,
        q.pattern == p.pattern,
        q.length == 0 || q.length == p.length,
        exists|i: int| 0 <= i < m.patterns.len() && (#[trigger] m.patterns[i]).id == p.pattern,
{
    repairing_moves_nothing(m, p);
    let q = choose|q: Placement| #[trigger]
        m.song.contains(q) && m.has_pattern(q.pattern) && p == m.filled()(q);
    lemma_first_where_bounds(m.patterns, pattern_called(q.pattern));
    let i = m.pattern_at(q.pattern);
    assert(pattern_called(q.pattern)(m.patterns[i]));
    assert(m.patterns[i].id == p.pattern);
    q
}

/// A project that has been put right keeps its tracks but for the old mark of an instrument, and
/// its patterns, each with the notes that start inside it, cut to end inside it. A track is an
/// instrument in a pattern when it was, or when it carried the old mark. `i` is a pattern.
#[verifier::rlimit(50)]
pub proof fn what_is_left_of_a_pattern(m: ProjectModel, i: int, track: u16, n: Note)
    requires
        0 <= i < m.patterns.len(),
        m.patterns[i].pitched.no_duplicates(),
    ensures
        ({
            let now = m.repaired();
            let (p, q) = (m.patterns[i], now.patterns[i]);
            &&& now.version == m.version && now.bpm == m.bpm && now.master_gain == m.master_gain
            &&& now.tracks.len() == m.tracks.len() && now.patterns.len() == m.patterns.len()
            &&& forall|k: int|
                0 <= k < m.tracks.len() ==> #[trigger] now.tracks[k] == (Track {
                    pitched: false,
                    ..m.tracks[k]
                })
            &&& q.id == p.id && q.name == p.name && q.steps == p.steps && q.colour == p.colour
            &&& q.pitched.contains(track) <==> p.pitched.contains(track) || exists|k: int|
                0 <= k < m.tracks.len() && (#[trigger] m.tracks[k]).pitched && m.tracks[k].id
                    == track
            &&& has_note(q, track, n) <==> exists|was: Note| #[trigger]
                has_note(p, track, was) && was.step < p.steps && fits_as(was, n, p.steps as int)
        }),
{
    let found = old_instruments(m.tracks);
    let p = m.patterns[i];
    let q = m.repaired().patterns[i];
    let mid = marked(p, found);
    lemma_marked(p, found);
    lemma_marked_colour(p, found);
    lemma_marked_members(p, found, track);
    lemma_old_marks(m.tracks, track);
    assert(q == mid.fitted());
    let cut = |l: LaneModel| l.trimmed(mid.steps);
    let trimmed = mid.lanes.map_values(cut);
    lemma_filter_members(trimmed, not_empty());
    assert(q.lanes =~= trimmed.filter(not_empty()));
    if has_note(q, track, n) {
        let a = choose|a: int|
            0 <= a < q.lanes.len() && (#[trigger] q.lanes[a]).track == track
                && q.lanes[a].notes.contains(n);
        assert(q.lanes.contains(q.lanes[a]));
        assert(trimmed.contains(q.lanes[a]));
        let j = choose|j: int| 0 <= j < trimmed.len() && trimmed[j] == q.lanes[a];
        what_cutting_a_lane_leaves(p.lanes[j], p.steps, n);
        let k = choose|k: int|
            0 <= k < p.lanes[j].notes.len() && (#[trigger] p.lanes[j].notes[k]).step < p.steps
                && fits_as(p.lanes[j].notes[k], n, p.steps as int);
        assert(p.lanes[j].notes.contains(p.lanes[j].notes[k]));
        assert(has_note(p, track, p.lanes[j].notes[k]));
    }
    if exists|was: Note| #[trigger]
        has_note(p, track, was) && was.step < p.steps && fits_as(was, n, p.steps as int) {
        let was = choose|was: Note| #[trigger]
            has_note(p, track, was) && was.step < p.steps && fits_as(was, n, p.steps as int);
        let j = choose|j: int|
            0 <= j < p.lanes.len() && (#[trigger] p.lanes[j]).track == track
                && p.lanes[j].notes.contains(was);
        what_cutting_a_lane_leaves(p.lanes[j], p.steps, n);
        let k = choose|k: int| 0 <= k < p.lanes[j].notes.len() && p.lanes[j].notes[k] == was;
        assert(p.lanes[j].notes[k].step < p.steps);
        let l = p.lanes[j].trimmed(p.steps);
        assert(l.notes.contains(n));
        assert(trimmed[j] == l);
        assert(trimmed.contains(l));
        assert(q.lanes.contains(l));
        let a = choose|a: int| 0 <= a < q.lanes.len() && q.lanes[a] == l;
        assert(q.lanes[a].track == track);
    }
}

proof fn lemma_marked_colour(p: PatternModel, tracks: Seq<u16>)
    ensures
        marked(p, tracks).colour == p.colour,
    decreases tracks.len(),
{
    if tracks.len() > 0 {
        lemma_marked_colour(p, tracks.drop_last());
    }
}

proof fn lemma_old_marks(tracks: Seq<Track>, id: u16)
    ensures
        old_instruments(tracks).contains(id) <==> exists|k: int|
            0 <= k < tracks.len() && (#[trigger] tracks[k]).pitched && tracks[k].id == id,
    decreases tracks.len(),
{
    if tracks.len() > 0 {
        let front = tracks.drop_last();
        let found = old_instruments(front);
        lemma_old_marks(front, id);
        if exists|k: int| 0 <= k < tracks.len() && (#[trigger] tracks[k]).pitched && tracks[k].id == id {
            let k = choose|k: int|
                0 <= k < tracks.len() && (#[trigger] tracks[k]).pitched && tracks[k].id == id;
            lemma_old_instruments(tracks, k);
        }
        if old_instruments(tracks).contains(id) {
            let at = choose|at: int|
                0 <= at < old_instruments(tracks).len() && old_instruments(tracks)[at] == id;
            if at < found.len() {
                assert(found[at] == id);
                assert(found.contains(id));
                let k = choose|k: int|
                    0 <= k < front.len() && (#[trigger] front[k]).pitched && front[k].id == id;
                assert(tracks[k].pitched && tracks[k].id == id);
            } else {
                assert(tracks[tracks.len() - 1].pitched && tracks[tracks.len() - 1].id == id);
            }
        }
    }
}

} // verus!
