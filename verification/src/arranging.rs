//! What holds of a song whatever is done to it.

use vstd::prelude::*;
use vstd::relations::sorted_by;

use crate::pattern::PatternModel;
use crate::placement::{overlapping_is_sharing_a_step, song_order, Placement};
use crate::project::{
    clear_of, covering, lemma_ordered, lemma_song_end, not_of, not_starting, ordered, outside_bar,
    pattern_called, song_end, track_called, whole_bars, Project, ProjectModel, Track,
};
use crate::seqs::{
    by_rank, lemma_filter_members, lemma_filter_pairs, lemma_first_where, lemma_first_where_bounds,
};
use crate::{MAX_PATTERNS, MAX_PLACEMENTS, MAX_SONG_STEPS, MAX_TRACKS, STEPS_PER_BAR};

verus! {

/// Two blocks that may stand in one song: blocks of one pattern do not overlap.
pub open spec fn apart() -> spec_fn(Placement, Placement) -> bool {
    |a: Placement, b: Placement| a.pattern == b.pattern ==> !a.meets(b)
}

impl ProjectModel {
    /// A block that belongs in the song: its pattern is there, it fills a step at the least,
    /// and it ends inside the longest song.
    pub open spec fn belongs(self, p: Placement) -> bool {
        &&& self.has_pattern(p.pattern)
        &&& p.length >= 1
        &&& p.stop() <= MAX_SONG_STEPS
    }

    /// What every edit keeps true of the song: it is in order, everything in it belongs there,
    /// there is no more of it than there is room for, and no pattern plays over itself.
    pub open spec fn tidy_song(self) -> bool {
        &&& self.song.len() <= MAX_PLACEMENTS
        &&& sorted_by(self.song, by_rank::<Placement>())
        &&& sorted_by(self.song, apart())
        &&& forall|p: Placement| #[trigger] self.song.contains(p) ==> self.belongs(p)
    }

    /// What every edit keeps true of the project: at least one pattern, each pattern and each
    /// track in a slot of its own, every pattern tidy, and the song tidy.
    pub open spec fn tidy(self) -> bool {
        &&& self.patterns.len() >= 1
        &&& forall|i: int|
            0 <= i < self.patterns.len() ==> (#[trigger] self.patterns[i]).tidy()
                && self.patterns[i].id < MAX_PATTERNS
        &&& forall|i: int, j: int|
            0 <= i < j < self.patterns.len() ==> (#[trigger] self.patterns[i]).id != (
            #[trigger] self.patterns[j]).id
        &&& forall|i: int|
            0 <= i < self.tracks.len() ==> (#[trigger] self.tracks[i]).id < MAX_TRACKS
        &&& forall|i: int, j: int|
            0 <= i < j < self.tracks.len() ==> (#[trigger] self.tracks[i]).id != (
            #[trigger] self.tracks[j]).id
        &&& self.tidy_song()
    }
}

/// Blocks that keep apart are all different.
proof fn lemma_apart_distinct(song: Seq<Placement>)
    requires
        sorted_by(song, apart()),
    ensures
        song.no_duplicates(),
{
    assert forall|i: int, j: int| 0 <= i < song.len() && 0 <= j < song.len() && i != j implies song[i]
        != song[j] by {
        if i < j {
            assert(apart()(song[i], song[j]));
        } else {
            assert(apart()(song[j], song[i]));
        }
    }
}

/// Any two different blocks of a song whose blocks keep apart do so, whichever comes first.
proof fn lemma_apart_pair(song: Seq<Placement>, a: Placement, b: Placement)
    requires
        sorted_by(song, apart()),
        song.contains(a),
        song.contains(b),
        a != b,
    ensures
        apart()(a, b),
{
    let i = choose|i: int| 0 <= i < song.len() && song[i] == a;
    let j = choose|j: int| 0 <= j < song.len() && song[j] == b;
    if i < j {
        assert(apart()(song[i], song[j]));
    } else {
        assert(apart()(song[j], song[i]));
        overlapping_is_sharing_a_step(a, b);
    }
}

/// A song in order with nothing twice is settled by what is in it.
proof fn lemma_same_blocks(a: Seq<Placement>, b: Seq<Placement>)
    requires
        a.no_duplicates(),
        b.no_duplicates(),
        sorted_by(a, by_rank::<Placement>()),
        sorted_by(b, by_rank::<Placement>()),
        forall|p: Placement| #[trigger] a.contains(p) <==> b.contains(p),
    ensures
        a == b,
{
    broadcast use vstd::seq_lib::group_to_multiset_ensures;

    song_order();
    a.lemma_multiset_has_no_duplicates();
    b.lemma_multiset_has_no_duplicates();
    assert(a.to_multiset() =~= b.to_multiset()) by {
        assert forall|p: Placement| a.to_multiset().count(p) == b.to_multiset().count(p) by {
            if a.contains(p) {
                assert(b.contains(p));
                assert(a.to_multiset().contains(p));
                assert(b.to_multiset().contains(p));
            } else {
                assert(!b.contains(p));
                assert(!a.to_multiset().contains(p));
                assert(!b.to_multiset().contains(p));
            }
        }
    }
    vstd::seq_lib::lemma_sorted_unique(a, b, by_rank::<Placement>());
}

/// Putting blocks in order keeps them apart, and keeps them different.
proof fn lemma_ordered_apart(song: Seq<Placement>)
    requires
        sorted_by(song, apart()),
    ensures
        sorted_by(ordered(song), apart()),
        ordered(song).no_duplicates(),
{
    lemma_ordered(song);
    lemma_apart_distinct(song);
    song.lemma_multiset_has_no_duplicates();
    ordered(song).lemma_multiset_has_no_duplicates_conv();
    assert forall|i: int, j: int| 0 <= i < j < ordered(song).len() implies #[trigger] apart()(
        ordered(song)[i],
        ordered(song)[j],
    ) by {
        assert(ordered(song).contains(ordered(song)[i]));
        assert(ordered(song).contains(ordered(song)[j]));
        lemma_apart_pair(song, ordered(song)[i], ordered(song)[j]);
    }
}

/// Taking blocks out of a tidy song leaves a tidy song.
proof fn lemma_fewer(m: ProjectModel, keep: spec_fn(Placement) -> bool)
    requires
        m.tidy_song(),
    ensures
        (ProjectModel { song: m.song.filter(keep), ..m }).tidy_song(),
{
    let after = ProjectModel { song: m.song.filter(keep), ..m };
    lemma_filter_members(m.song, keep);
    lemma_filter_pairs(m.song, keep, by_rank::<Placement>());
    lemma_filter_pairs(m.song, keep, apart());
    assert forall|p: Placement| #[trigger] after.song.contains(p) implies after.belongs(p) by {
        assert(m.song.contains(p));
        assert(m.belongs(p));
    }
}

/// What is in the song once a block has been put down.
pub proof fn what_placing_leaves(m: ProjectModel, block: Placement)
    ensures
        forall|p: Placement| #[trigger]
            m.with_block(block).song.contains(p) <==> p == block || (m.song.contains(p) && (
            p.pattern != block.pattern || !p.meets(block))),
        m.with_block(block).song.len() <= m.song.len() + 1,
        sorted_by(m.with_block(block).song, by_rank::<Placement>()),
{
    let rest = m.song.filter(clear_of(block));
    lemma_filter_members(m.song, clear_of(block));
    lemma_ordered(rest.push(block));
    assert forall|p: Placement| #[trigger]
        m.with_block(block).song.contains(p) <==> p == block || (m.song.contains(p) && (p.pattern
            != block.pattern || !p.meets(block))) by {
        assert(rest.push(block)[rest.len() as int] == block);
        if rest.contains(p) {
            let i = choose|i: int| 0 <= i < rest.len() && rest[i] == p;
            assert(rest.push(block)[i] == p);
        }
        if rest.push(block).contains(p) && p != block {
            let i = choose|i: int| 0 <= i < rest.push(block).len() && rest.push(block)[i] == p;
            assert(rest[i] == p);
        }
    }
}

/// Putting a block that belongs down in a tidy song with room for it leaves a tidy song.
proof fn lemma_with_block(m: ProjectModel, block: Placement)
    requires
        m.tidy_song(),
        m.belongs(block),
        m.song.len() < MAX_PLACEMENTS,
    ensures
        m.with_block(block).tidy_song(),
        m.with_block(block).song.no_duplicates(),
{
    what_placing_leaves(m, block);
    let rest = m.song.filter(clear_of(block));
    lemma_filter_members(m.song, clear_of(block));
    lemma_filter_pairs(m.song, clear_of(block), apart());
    let loose = rest.push(block);
    assert forall|i: int, j: int| 0 <= i < j < loose.len() implies #[trigger] apart()(
        loose[i],
        loose[j],
    ) by {
        if j == rest.len() {
            assert(rest.contains(rest[i]));
            assert(clear_of(block)(rest[i]));
        } else {
            assert(apart()(rest[i], rest[j]));
        }
    }
    lemma_ordered_apart(loose);
    let after = m.with_block(block);
    assert forall|p: Placement| #[trigger] after.song.contains(p) implies after.belongs(p) by {
        if p != block {
            assert(m.belongs(p));
        }
    }
}

/// A block that a song takes belongs in it.
proof fn lemma_new_block(m: ProjectModel, pattern: u16, step: u32, length: u32)
    requires
        m.takes(pattern, step, length),
    ensures
        m.belongs(m.new_block(pattern, step, length)),
{
}

/// A tidy song stays tidy whatever is put down in it and whatever is taken up.
pub proof fn arranging_keeps_the_song_tidy(
    m: ProjectModel,
    pattern: u16,
    step: u32,
    to: u32,
    length: u32,
    bar: u32,
)
    requires
        m.tidy_song(),
    ensures
        m.placing(pattern, step, length).0.tidy_song(),
        m.unplacing(pattern, step).tidy_song(),
        m.moving(pattern, step, to).0.tidy_song(),
        m.resizing(pattern, step, length).0.tidy_song(),
        m.without_bar(bar).tidy_song(),
{
    lemma_placing(m, pattern, step, length);
    lemma_fewer(m, not_starting(pattern, step));
    lemma_fewer(m, outside_bar(bar));
    if m.has_block(pattern, step) {
        lemma_first_where_bounds(m.song, covering(pattern, step));
        let block = m.block(pattern, step);
        let lifted = m.unplacing(block.pattern, block.step);
        lemma_fewer(m, not_starting(block.pattern, block.step));
        lemma_placing(lifted, block.pattern, to, block.length);
        lemma_placing(lifted, block.pattern, block.step, block.length);
        let wanted = if length < 1 { 1 } else { length };
        lemma_placing(lifted, block.pattern, block.step, wanted);
    }
}

proof fn lemma_placing(m: ProjectModel, pattern: u16, step: u32, length: u32)
    requires
        m.tidy_song(),
    ensures
        m.placing(pattern, step, length).0.tidy_song(),
{
    if m.takes(pattern, step, length) {
        lemma_new_block(m, pattern, step, length);
        lemma_with_block(m, m.new_block(pattern, step, length));
    }
}

/// A pattern never sounds over itself: at any step of a tidy song, a pattern has one block
/// there at the most.
pub proof fn a_pattern_never_plays_over_itself(m: ProjectModel, a: Placement, b: Placement, s: int)
    requires
        m.tidy_song(),
        m.song.contains(a),
        m.song.contains(b),
        a.pattern == b.pattern,
        a.spans(s),
        b.spans(s),
    ensures
        a == b,
{
    if a != b {
        lemma_apart_pair(m.song, a, b);
        overlapping_is_sharing_a_step(a, b);
    }
}

/// A block that has been put down is found from anywhere along it.
pub proof fn a_placed_block_is_found_all_along_it(
    m: ProjectModel,
    pattern: u16,
    step: u32,
    length: u32,
    s: u32,
)
    requires
        m.takes(pattern, step, length),
        m.new_block(pattern, step, length).spans(s as int),
    ensures
        m.placing(pattern, step, length).0.has_block(pattern, s),
        m.placing(pattern, step, length).0.block(pattern, s) == m.new_block(pattern, step, length),
{
    let block = m.new_block(pattern, step, length);
    let after = m.with_block(block);
    what_placing_leaves(m, block);
    lemma_first_where_bounds(after.song, covering(pattern, s));
    let at = after.block_at(pattern, s);
    let there = choose|i: int| 0 <= i < after.song.len() && after.song[i] == block;
    assert(after.song.contains(block));
    assert(covering(pattern, s)(after.song[there]));
    if at >= after.song.len() {
        assert(!covering(pattern, s)(after.song[there]));
    }
    let found = after.song[at];
    assert(covering(pattern, s)(found));
    assert(after.song.contains(found));
    if found != block {
        overlapping_is_sharing_a_step(found, block);
        assert(found.spans(s as int) && block.spans(s as int));
    }
}

/// In a tidy song the blocks of one pattern all start at different steps, so lifting one by its
/// start takes up that one and nothing else.
proof fn lemma_lifting(m: ProjectModel, block: Placement)
    requires
        m.tidy_song(),
        m.song.contains(block),
    ensures
        forall|p: Placement| #[trigger]
            m.unplacing(block.pattern, block.step).song.contains(p) <==> m.song.contains(p) && p
                != block,
        m.unplacing(block.pattern, block.step).song.len() < m.song.len(),
{
    let keep = not_starting(block.pattern, block.step);
    let lifted = m.unplacing(block.pattern, block.step);
    lemma_filter_members(m.song, keep);
    assert forall|p: Placement| #[trigger] lifted.song.contains(p) <==> m.song.contains(p) && p != block by {
        if m.song.contains(p) && p != block && !keep(p) {
            assert(p.spans(block.step as int) && block.spans(block.step as int));
            a_pattern_never_plays_over_itself(m, p, block, block.step as int);
        }
    }
    if lifted.song.len() == m.song.len() {
        lemma_filter_whole(m.song, keep);
        assert(lifted.song.contains(block));
    }
}

/// A filter that leaves the length alone leaves everything alone.
proof fn lemma_filter_whole(song: Seq<Placement>, keep: spec_fn(Placement) -> bool)
    requires
        song.filter(keep).len() == song.len(),
    ensures
        song.filter(keep) == song,
    decreases song.len(),
{
    reveal(Seq::filter);
    if song.len() > 0 {
        song.drop_last().lemma_filter_len(keep);
        lemma_filter_whole(song.drop_last(), keep);
        assert(song.drop_last().push(song.last()) =~= song);
    }
}

/// Taking a block of a tidy song up and putting it down where it was changes nothing.
proof fn lemma_put_back(m: ProjectModel, block: Placement)
    requires
        m.tidy_song(),
        m.song.contains(block),
    ensures
        m.unplacing(block.pattern, block.step).takes(block.pattern, block.step, block.length),
        m.unplacing(block.pattern, block.step).placing(
            block.pattern,
            block.step,
            block.length,
        ).0.song == m.song,
{
    let lifted = m.unplacing(block.pattern, block.step);
    lemma_lifting(m, block);
    lemma_fewer(m, not_starting(block.pattern, block.step));
    assert(m.belongs(block));
    assert(lifted.new_block(block.pattern, block.step, block.length) == block);
    let after = lifted.with_block(block);
    lemma_with_block(lifted, block);
    what_placing_leaves(lifted, block);
    lemma_apart_distinct(m.song);
    assert forall|p: Placement| #[trigger] after.song.contains(p) <==> m.song.contains(p) by {
        if m.song.contains(p) && p != block {
            assert(lifted.song.contains(p));
            lemma_apart_pair(m.song, p, block);
        }
    }
    lemma_same_blocks(after.song, m.song);
}

/// A move or a resize that cannot be done leaves the project as it was.
pub proof fn what_cannot_be_moved_stays(m: ProjectModel, pattern: u16, from: u32, to: u32, length: u32)
    requires
        m.tidy_song(),
    ensures
        !m.moving(pattern, from, to).1 ==> m.moving(pattern, from, to).0 == m,
        !m.resizing(pattern, from, length).1 ==> m.resizing(pattern, from, length).0 == m,
{
    if m.has_block(pattern, from) {
        lemma_first_where_bounds(m.song, covering(pattern, from));
        let block = m.block(pattern, from);
        assert(m.song.contains(block));
        lemma_put_back(m, block);
    }
}

/// A block that was moved is where it was moved to, as long as it was, and no longer where it
/// was; every other pattern's blocks are untouched.
pub proof fn a_moved_block_keeps_its_length(m: ProjectModel, pattern: u16, from: u32, to: u32)
    requires
        m.tidy_song(),
        m.moving(pattern, from, to).1,
    ensures
        ({
            let was = m.block(pattern, from);
            let now = Placement { step: to, ..was };
            let after = m.moving(pattern, from, to).0;
            &&& after.song.contains(now)
            &&& was != now ==> !after.song.contains(was)
            &&& forall|p: Placement|
                p.pattern != pattern ==> (#[trigger] after.song.contains(p) <==> m.song.contains(p))
        }),
{
    lemma_first_where_bounds(m.song, covering(pattern, from));
    let was = m.block(pattern, from);
    assert(m.song.contains(was));
    assert(m.belongs(was));
    let lifted = m.unplacing(was.pattern, was.step);
    lemma_lifting(m, was);
    let now = lifted.new_block(was.pattern, to, was.length);
    assert(now == Placement { step: to, ..was });
    what_placing_leaves(lifted, now);
}

/// Putting a block down on clear ground and taking it up again changes nothing.
pub proof fn placing_and_taking_up_again(m: ProjectModel, pattern: u16, step: u32, length: u32)
    requires
        m.tidy_song(),
        m.takes(pattern, step, length),
        forall|p: Placement| #[trigger]
            m.song.contains(p) && p.pattern == pattern ==> !p.meets(
                m.new_block(pattern, step, length),
            ),
    ensures
        m.placing(pattern, step, length).0.unplacing(pattern, step) == m,
{
    let block = m.new_block(pattern, step, length);
    let after = m.with_block(block);
    lemma_new_block(m, pattern, step, length);
    lemma_with_block(m, block);
    what_placing_leaves(m, block);
    assert(after.song.contains(block));
    lemma_lifting(after, block);
    lemma_fewer(after, not_starting(pattern, step));
    let back = after.unplacing(pattern, step);
    lemma_apart_distinct(m.song);
    lemma_apart_distinct(back.song);
    assert forall|p: Placement| #[trigger] back.song.contains(p) <==> m.song.contains(p) by {
        if m.song.contains(p) {
            overlapping_is_sharing_a_step(block, block);
            assert(p != block);
            assert(after.song.contains(p));
        }
    }
    lemma_same_blocks(back.song, m.song);
}

/// A pattern that has been deleted is nowhere in the song, and the rest of the song is as it
/// was.
pub proof fn a_deleted_pattern_is_out_of_the_song(m: ProjectModel, id: u16, p: Placement)
    ensures
        m.without_pattern(id).song.contains(p) <==> m.song.contains(p) && p.pattern != id,
{
    lemma_filter_members(m.song, not_of(id));
}

/// The song ends on a whole bar: the first one that every block has ended by.
pub proof fn the_song_ends_on_the_first_bar_that_will_do(song: Seq<Placement>, bars: int)
    ensures
        whole_bars(song_end(song)) % (STEPS_PER_BAR as int) == 0,
        forall|i: int| 0 <= i < song.len() ==> (#[trigger] song[i]).stop() <= whole_bars(song_end(song)),
        (forall|i: int| 0 <= i < song.len() ==> (#[trigger] song[i]).stop() <= bars * STEPS_PER_BAR)
            && bars >= 0 ==> whole_bars(song_end(song)) <= bars * STEPS_PER_BAR,
        song.len() == 0 ==> whole_bars(song_end(song)) == 0,
{
    assert forall|i: int| 0 <= i < song.len() implies (#[trigger] song[i]).stop() <= whole_bars(
        song_end(song),
    ) by {
        lemma_song_end(song, i);
    }
    if (forall|i: int| 0 <= i < song.len() ==> (#[trigger] song[i]).stop() <= bars * STEPS_PER_BAR)
        && bars >= 0 {
        lemma_song_end_reached(song);
        if song.len() > 0 {
            let i = choose|i: int| 0 <= i < song.len() && (#[trigger] song[i]).stop() == song_end(song);
            assert(song[i].stop() <= bars * STEPS_PER_BAR);
        }
    }
}

/// The end of the song is the end of some block in it.
pub proof fn lemma_song_end_reached(song: Seq<Placement>)
    ensures
        song.len() > 0 ==> exists|i: int|
            0 <= i < song.len() && (#[trigger] song[i]).stop() == song_end(song),
        song.len() == 0 ==> song_end(song) == 0,
    decreases song.len(),
{
    if song.len() > 0 {
        let front = song.drop_last();
        lemma_song_end_reached(front);
        if song.last().stop() > song_end(front) {
            assert(song[song.len() - 1].stop() == song_end(song));
        } else if front.len() > 0 {
            let i = choose|i: int| 0 <= i < front.len() && (#[trigger] front[i]).stop() == song_end(front);
            assert(song[i].stop() == song_end(song));
        }
    }
}

/// A tidy song is never longer than the longest song the engine holds, so its length always
/// fits.
pub proof fn a_tidy_song_is_not_too_long(m: ProjectModel)
    requires
        m.tidy_song(),
    ensures
        0 <= song_end(m.song) <= MAX_SONG_STEPS,
        0 <= whole_bars(song_end(m.song)) <= MAX_SONG_STEPS,
{
    lemma_song_end_reached(m.song);
    if m.song.len() > 0 {
        let i = choose|i: int|
            0 <= i < m.song.len() && (#[trigger] m.song[i]).stop() == song_end(m.song);
        assert(m.song.contains(m.song[i]));
        assert(m.belongs(m.song[i]));
    }
}

/// A new project is tidy.
pub proof fn a_new_project_is_tidy()
    ensures
        Project::fresh().tidy(),
{
    let m = Project::fresh();
    assert(m.song.len() == 0);
}

/// Whether a pattern is there is whether one of them has its number.
pub proof fn lemma_has_pattern(m: ProjectModel, id: u16)
    ensures
        m.has_pattern(id) <==> exists|i: int|
            0 <= i < m.patterns.len() && (#[trigger] m.patterns[i]).id == id,
        0 <= m.pattern_at(id) <= m.patterns.len(),
        m.has_pattern(id) ==> m.pattern_of(id).id == id,
{
    lemma_first_where_bounds(m.patterns, pattern_called(id));
    if m.has_pattern(id) {
        assert(m.patterns[m.pattern_at(id)].id == id);
    }
    if exists|i: int| 0 <= i < m.patterns.len() && (#[trigger] m.patterns[i]).id == id {
        let i = choose|i: int| 0 <= i < m.patterns.len() && (#[trigger] m.patterns[i]).id == id;
        assert(pattern_called(id)(m.patterns[i]));
    }
}

/// Whether a track is there is whether one of them has its number.
pub proof fn lemma_has_track(m: ProjectModel, id: u16)
    ensures
        m.has_track(id) <==> exists|i: int|
            0 <= i < m.tracks.len() && (#[trigger] m.tracks[i]).id == id,
        0 <= m.track_at(id) <= m.tracks.len(),
        m.has_track(id) ==> m.tracks[m.track_at(id)].id == id,
{
    lemma_first_where_bounds(m.tracks, track_called(id));
    if m.has_track(id) {
        assert(m.tracks[m.track_at(id)].id == id);
    }
    if exists|i: int| 0 <= i < m.tracks.len() && (#[trigger] m.tracks[i]).id == id {
        let i = choose|i: int| 0 <= i < m.tracks.len() && (#[trigger] m.tracks[i]).id == id;
        assert(track_called(id)(m.tracks[i]));
    }
}

/// A song stays tidy while every pattern it plays is still there.
proof fn lemma_song_of(m: ProjectModel, after: ProjectModel)
    requires
        m.tidy_song(),
        after.song == m.song,
        forall|id: u16| #[trigger] m.has_pattern(id) ==> after.has_pattern(id),
    ensures
        after.tidy_song(),
{
    assert forall|p: Placement| #[trigger] after.song.contains(p) implies after.belongs(p) by {
        assert(m.belongs(p));
    }
}

/// Editing one pattern leaves a tidy project tidy, as long as the pattern is left tidy and in
/// its slot; and the song is not touched.
pub proof fn editing_a_pattern_keeps_the_project_tidy(m: ProjectModel, id: u16, p: PatternModel)
    requires
        m.tidy(),
        m.has_pattern(id),
        p.tidy(),
        p.id == id,
    ensures
        m.with_pattern(id, p).tidy(),
        m.with_pattern(id, p).song == m.song,
        m.with_pattern(id, p).pattern_of(id) == p,
        forall|other: u16| #[trigger]
            m.with_pattern(id, p).has_pattern(other) == m.has_pattern(other),
        forall|other: u16|
            other != id && m.has_pattern(other) ==> #[trigger] m.with_pattern(id, p).pattern_of(other)
                == m.pattern_of(other),
{
    let after = m.with_pattern(id, p);
    lemma_has_pattern(m, id);
    let at = m.pattern_at(id);
    assert forall|other: u16| #[trigger] after.has_pattern(other) == m.has_pattern(other) && (
    m.has_pattern(other) ==> after.pattern_at(other) == m.pattern_at(other)) by {
        lemma_has_pattern(m, other);
        lemma_first_where_bounds(m.patterns, pattern_called(other));
        let k = m.pattern_at(other);
        assert forall|j: int| 0 <= j < k implies !pattern_called(other)(
            #[trigger] after.patterns[j],
        ) by {
            assert(!pattern_called(other)(m.patterns[j]));
            assert(after.patterns[j].id == m.patterns[j].id);
        }
        if k < m.patterns.len() {
            assert(after.patterns[k].id == m.patterns[k].id);
        }
        lemma_first_where(after.patterns, pattern_called(other), k);
    }
    assert forall|other: u16| other != id && m.has_pattern(other) implies #[trigger] after.pattern_of(
        other,
    ) == m.pattern_of(other) by {
        lemma_has_pattern(m, other);
        assert(after.has_pattern(other) == m.has_pattern(other));
    }
    assert(after.has_pattern(id) == m.has_pattern(id));
    lemma_song_of(m, after);
    assert forall|i: int| 0 <= i < after.patterns.len() implies (#[trigger] after.patterns[i]).tidy()
        && after.patterns[i].id < MAX_PATTERNS by {
        assert(m.patterns[i].id < MAX_PATTERNS);
    }
    assert forall|i: int, j: int| 0 <= i < j < after.patterns.len() implies (
    #[trigger] after.patterns[i]).id != (#[trigger] after.patterns[j]).id by {
        assert(m.patterns[i].id != m.patterns[j].id);
    }
}

/// Putting a tidy pattern with a number nothing has into the list leaves a tidy project tidy.
pub proof fn adding_a_pattern_keeps_the_project_tidy(m: ProjectModel, at: int, p: PatternModel)
    requires
        m.tidy(),
        0 <= at <= m.patterns.len(),
        p.tidy(),
        m.lowest_free_pattern(p.id as int),
    ensures
        (ProjectModel { patterns: m.patterns.insert(at, p), ..m }).tidy(),
        (ProjectModel { patterns: m.patterns.insert(at, p), ..m }).has_pattern(p.id),
{
    let after = ProjectModel { patterns: m.patterns.insert(at, p), ..m };
    lemma_has_pattern(m, p.id);
    assert(after.patterns[at] == p);
    assert forall|i: int| 0 <= i < m.patterns.len() implies #[trigger] m.patterns[i]
        == after.patterns[if i < at { i } else { i + 1 }] && m.patterns[i].id != p.id by {}
    assert forall|id: u16| #[trigger] m.has_pattern(id) implies after.has_pattern(id) by {
        lemma_has_pattern(m, id);
        lemma_has_pattern(after, id);
        let i = m.pattern_at(id);
        assert(m.patterns[i] == after.patterns[if i < at { i } else { i + 1 }]);
    }
    lemma_has_pattern(after, p.id);
    lemma_song_of(m, after);
    assert forall|i: int| 0 <= i < after.patterns.len() implies (#[trigger] after.patterns[i]).tidy()
        && after.patterns[i].id < MAX_PATTERNS by {
        if i != at {
            let k = if i < at { i } else { i - 1 };
            assert(m.patterns[k].tidy());
            assert(after.patterns[i] == m.patterns[k]);
        }
    }
    assert forall|i: int, j: int| 0 <= i < j < after.patterns.len() implies (
    #[trigger] after.patterns[i]).id != (#[trigger] after.patterns[j]).id by {
        let a = if i < at { i } else { i - 1 };
        let b = if j < at { j } else { j - 1 };
        if i == at {
            assert(m.patterns[b].id != p.id);
        } else if j == at {
            assert(m.patterns[a].id != p.id);
        } else {
            assert(m.patterns[a].id != m.patterns[b].id);
        }
    }
}

/// Deleting a pattern that is not the last leaves a tidy project tidy, without that pattern and
/// with every other.
pub proof fn deleting_a_pattern_keeps_the_project_tidy(m: ProjectModel, id: u16)
    requires
        m.tidy(),
        m.has_pattern(id),
        m.patterns.len() > 1,
    ensures
        m.without_pattern(id).tidy(),
        !m.without_pattern(id).has_pattern(id),
        forall|other: u16|
            other != id ==> #[trigger] m.without_pattern(id).has_pattern(other) == m.has_pattern(
                other,
            ),
{
    let after = m.without_pattern(id);
    lemma_has_pattern(m, id);
    lemma_has_pattern(after, id);
    let at = m.pattern_at(id);
    assert forall|i: int| 0 <= i < after.patterns.len() implies #[trigger] after.patterns[i]
        == m.patterns[if i < at { i } else { i + 1 }] && after.patterns[i].id != id by {
        let k = if i < at { i } else { i + 1 };
        if k < at {
            assert(m.patterns[k].id != m.patterns[at].id);
        } else {
            assert(m.patterns[at].id != m.patterns[k].id);
        }
    }
    assert forall|other: u16| other != id implies #[trigger] after.has_pattern(other)
        == m.has_pattern(other) by {
        lemma_has_pattern(m, other);
        lemma_has_pattern(after, other);
        if m.has_pattern(other) {
            let k = m.pattern_at(other);
            assert(k != at);
            let i = if k < at { k } else { k - 1 };
            assert(after.patterns[i] == m.patterns[k]);
        }
    }
    let shorter = ProjectModel { song: after.song, ..m };
    lemma_fewer(m, not_of(id));
    assert forall|p: Placement| #[trigger] after.song.contains(p) implies after.belongs(p) by {
        a_deleted_pattern_is_out_of_the_song(m, id, p);
        assert(m.belongs(p));
        assert(after.has_pattern(p.pattern) == m.has_pattern(p.pattern));
    }
    assert(shorter.tidy_song());
    assert forall|i: int, j: int| 0 <= i < j < after.patterns.len() implies (
    #[trigger] after.patterns[i]).id != (#[trigger] after.patterns[j]).id by {
        let a = if i < at { i } else { i + 1 };
        let b = if j < at { j } else { j + 1 };
        assert(m.patterns[a].id != m.patterns[b].id);
    }
}

/// Adding a track in a free slot, deleting one, and changing one without moving it to another
/// slot all leave a tidy project tidy.
pub proof fn track_edits_keep_the_project_tidy(m: ProjectModel, id: u16, t: Track)
    requires
        m.tidy(),
        t.id == id,
    ensures
        m.lowest_free_track(id as int) ==> (ProjectModel { tracks: m.tracks.push(t), ..m }).tidy(),
        m.has_track(id) ==> m.with_track(id, t).tidy(),
        m.has_track(id) ==> m.without_track(id).tidy() && !m.without_track(id).has_track(id),
{
    lemma_has_track(m, id);
    if m.lowest_free_track(id as int) {
        let after = ProjectModel { tracks: m.tracks.push(t), ..m };
        lemma_song_of(m, after);
        assert forall|i: int, j: int| 0 <= i < j < after.tracks.len() implies (
        #[trigger] after.tracks[i]).id != (#[trigger] after.tracks[j]).id by {
            assert(m.tracks[i].id != id);
            if j < m.tracks.len() {
                assert(m.tracks[i].id != m.tracks[j].id);
            }
        }
    }
    if m.has_track(id) {
        let with = m.with_track(id, t);
        lemma_song_of(m, with);
        assert forall|i: int| 0 <= i < with.tracks.len() implies (#[trigger] with.tracks[i]).id
            == m.tracks[i].id by {}
        assert forall|i: int, j: int| 0 <= i < j < with.tracks.len() implies (
        #[trigger] with.tracks[i]).id != (#[trigger] with.tracks[j]).id by {
            assert(m.tracks[i].id != m.tracks[j].id);
        }
        let after = m.without_track(id);
        let at = m.track_at(id);
        assert forall|i: int| 0 <= i < after.tracks.len() implies #[trigger] after.tracks[i]
            == m.tracks[if i < at { i } else { i + 1 }] && after.tracks[i].id != id by {
            let k = if i < at { i } else { i + 1 };
            if k < at {
                assert(m.tracks[k].id != m.tracks[at].id);
            } else {
                assert(m.tracks[at].id != m.tracks[k].id);
            }
        }
        lemma_has_track(after, id);
        assert forall|i: int, j: int| 0 <= i < j < after.tracks.len() implies (
        #[trigger] after.tracks[i]).id != (#[trigger] after.tracks[j]).id by {
            let a = if i < at { i } else { i + 1 };
            let b = if j < at { j } else { j + 1 };
            assert(m.tracks[a].id != m.tracks[b].id);
        }
        assert forall|i: int| 0 <= i < after.patterns.len() implies (
        #[trigger] after.patterns[i]).tidy() && after.patterns[i].id == m.patterns[i].id by {
            crate::drawing::editing_keeps_a_pattern_tidy(
                m.patterns[i],
                id,
                0,
                0,
                true,
                crate::lane::Note::boxed(0),
                1,
            );
        }
        assert forall|other: u16| #[trigger] m.has_pattern(other) implies after.has_pattern(other) by {
            lemma_has_pattern(m, other);
            lemma_has_pattern(after, other);
            assert(after.patterns[m.pattern_at(other)].id == other);
        }
        lemma_song_of(m, after);
        assert forall|i: int, j: int| 0 <= i < j < after.patterns.len() implies (
        #[trigger] after.patterns[i]).id != (#[trigger] after.patterns[j]).id by {
            assert(m.patterns[i].id != m.patterns[j].id);
        }
    }
}

/// A deleted track has no notes left in any pattern.
pub proof fn a_deleted_track_leaves_no_notes(m: ProjectModel, id: u16, i: int)
    requires
        0 <= i < m.patterns.len(),
    ensures
        !m.without_track(id).patterns[i].has_lane(id),
        !m.without_track(id).patterns[i].pitched.contains(id),
{
    let p = m.patterns[i];
    let after = m.without_track(id).patterns[i];
    assert(after == p.without_track(id));
    lemma_filter_members(p.lanes, crate::pattern::off_track(id));
    lemma_filter_members(p.pitched, crate::pattern::other_than(id));
    lemma_first_where_bounds(after.lanes, crate::pattern::on_track(id));
    if after.has_lane(id) {
        let l = after.lanes[after.lane_at(id)];
        assert(after.lanes.contains(l));
    }
}

// --- the song, block by block ---------------------------------------------------------

/// Whether a block is clear of so many steps from a step on.
pub open spec fn clear(b: Placement, step: int, length: int) -> bool {
    b.step + b.length <= step || step + length <= b.step
}

/// All of two projects but the song is the same.
pub open spec fn same_but_song(a: ProjectModel, b: ProjectModel) -> bool {
    &&& a.version == b.version && a.bpm == b.bpm && a.master_gain == b.master_gain
    &&& a.tracks == b.tracks && a.patterns == b.patterns
}

/// Blocks in order: by the step they start at, and at one step by pattern.
pub open spec fn in_song_order(song: Seq<Placement>) -> bool {
    forall|i: int, j: int|
        0 <= i < j < song.len() ==> (#[trigger] song[i]).step < (#[trigger] song[j]).step || (
        song[i].step == song[j].step && song[i].pattern <= song[j].pattern)
}

proof fn lemma_in_song_order(song: Seq<Placement>)
    requires
        sorted_by(song, by_rank::<Placement>()),
    ensures
        in_song_order(song),
{
    song_order();
    assert forall|i: int, j: int| 0 <= i < j < song.len() implies (#[trigger] song[i]).step < (
    #[trigger] song[j]).step || (song[i].step == song[j].step && song[i].pattern
        <= song[j].pattern) by {
        assert(by_rank::<Placement>()(song[i], song[j]));
    }
}

/// The only pattern of a tidy project with a number is the one that is found by it.
proof fn lemma_pattern_found(m: ProjectModel, i: int)
    requires
        m.tidy(),
        0 <= i < m.patterns.len(),
    ensures
        m.has_pattern(m.patterns[i].id),
        m.pattern_at(m.patterns[i].id) == i,
{
    let id = m.patterns[i].id;
    lemma_has_pattern(m, id);
    let k = m.pattern_at(id);
    if k < i {
        assert(m.patterns[k].id != m.patterns[i].id);
    } else if i < k {
        assert(m.patterns[i].id != m.patterns[k].id);
    }
}

/// A block of a pattern goes down where it is put, as long as it is asked to be, or as its pattern
/// is when no length is asked for, and four thousand and ninety six steps at the most. It takes the
/// place of the blocks of its own pattern that it lands on; every other block stays. It goes down
/// when it ends inside the longest song and there are fewer than five hundred and twelve blocks.
/// `i` is where the pattern is.
#[verifier::rlimit(50)]
pub proof fn what_putting_a_block_down_changes(
    m: ProjectModel,
    i: int,
    step: u32,
    length: u32,
    b: Placement,
)
    requires
        m.tidy(),
        0 <= i < m.patterns.len(),
    ensures
        ({
            let pattern = m.patterns[i].id;
            let (now, took) = m.placing(pattern, step, length);
            let wanted = if length == 0 {
                m.patterns[i].steps as int
            } else {
                length as int
            };
            let held = if wanted > 4096 {
                4096
            } else {
                wanted
            };
            &&& took == (step + held <= 4096 && m.song.len() < 512)
            &&& !took ==> now == m
            &&& same_but_song(m, now)
            &&& took ==> (now.song.contains(b) <==> (b.step == step && b.pattern == pattern
                && b.length == held) || (m.song.contains(b) && (b.pattern != pattern || clear(
                b,
                step as int,
                held,
            ))))
            &&& in_song_order(now.song)
        }),
{
    lemma_pattern_found(m, i);
    let pattern = m.patterns[i].id;
    let block = m.new_block(pattern, step, length);
    what_placing_leaves(m, block);
    lemma_in_song_order(m.with_block(block).song);
    lemma_in_song_order(m.song);
    if m.song.contains(b) {
        assert(m.belongs(b));
    }
}

/// No block of a pattern that is not there goes down.
pub proof fn nothing_goes_down_of_what_is_not_there(
    m: ProjectModel,
    pattern: u16,
    step: u32,
    length: u32,
)
    requires
        forall|i: int| 0 <= i < m.patterns.len() ==> (#[trigger] m.patterns[i]).id != pattern,
    ensures
        m.placing(pattern, step, length) == (m, false),
{
    lemma_has_pattern(m, pattern);
}

/// Taking a block up by the step it starts at takes up the blocks of its pattern that start there,
/// and leaves every other where it is, in the order they were in.
pub proof fn what_taking_a_block_up_changes(m: ProjectModel, pattern: u16, step: u32, b: Placement)
    requires
        m.tidy(),
    ensures
        ({
            let now = m.unplacing(pattern, step);
            &&& now.song.contains(b) <==> m.song.contains(b) && !(b.pattern == pattern && b.step
                == step)
            &&& same_but_song(m, now)
            &&& in_song_order(now.song)
        }),
{
    lemma_filter_members(m.song, not_starting(pattern, step));
    lemma_filter_pairs(m.song, not_starting(pattern, step), by_rank::<Placement>());
    lemma_in_song_order(m.unplacing(pattern, step).song);
}

/// The block that covers a step is the one that is found there.
proof fn lemma_block_found(m: ProjectModel, was: Placement, step: u32)
    requires
        m.tidy(),
        m.song.contains(was),
        was.step <= step < was.step + was.length,
    ensures
        m.has_block(was.pattern, step),
        m.block(was.pattern, step) == was,
{
    let test = covering(was.pattern, step);
    lemma_first_where_bounds(m.song, test);
    let k = choose|k: int| 0 <= k < m.song.len() && m.song[k] == was;
    assert(was.spans(step as int));
    assert(test(m.song[k]));
    let at = m.block_at(was.pattern, step);
    if at >= m.song.len() {
        assert(!test(m.song[k]));
    }
    let found = m.song[at];
    assert(test(found));
    assert(m.song.contains(found));
    a_pattern_never_plays_over_itself(m, found, was, step as int);
}

/// What is left when one block of a tidy song is taken up and another of its pattern goes down.
#[verifier::rlimit(50)]
proof fn lemma_replaced(m: ProjectModel, was: Placement, to: u32, length: u32, b: Placement)
    requires
        m.tidy(),
        m.song.contains(was),
        1 <= length,
    ensures
        ({
            let (now, took) = m.replacing(was, to, length);
            let held = if length > 4096 {
                4096
            } else {
                length as int
            };
            &&& took == (to + held <= 4096)
            &&& !took ==> now.song == m.song
            &&& same_but_song(m, now)
            &&& took ==> (now.song.contains(b) <==> (b.step == to && b.pattern == was.pattern
                && b.length == held) || (m.song.contains(b) && b != was && (b.pattern != was.pattern
                || clear(b, to as int, held))))
            &&& took ==> in_song_order(now.song)
        }),
{
    let lifted = m.unplacing(was.pattern, was.step);
    lemma_lifting(m, was);
    lemma_put_back(m, was);
    assert(m.belongs(was));
    let block = lifted.new_block(was.pattern, to, length);
    assert(lifted.patterns == m.patterns);
    assert(lifted.has_pattern(was.pattern) == m.has_pattern(was.pattern));
    what_placing_leaves(lifted, block);
    lemma_in_song_order(lifted.with_block(block).song);
    if lifted.song.contains(b) {
        assert(m.song.contains(b));
        assert(m.belongs(b));
    }
}

/// A block that is moved goes where it is moved to, as long as it was, when it ends inside the
/// longest song there; it takes the place of the blocks of its own pattern that it lands on, and
/// every other block stays. It can be taken hold of anywhere along it.
pub proof fn what_moving_a_block_changes(
    m: ProjectModel,
    was: Placement,
    from: u32,
    to: u32,
    b: Placement,
)
    requires
        m.tidy(),
        m.song.contains(was),
        was.step <= from < was.step + was.length,
    ensures
        ({
            let (now, moved) = m.moving(was.pattern, from, to);
            &&& moved == (to + was.length <= 4096)
            &&& !moved ==> now.song == m.song
            &&& same_but_song(m, now)
            &&& moved ==> (now.song.contains(b) <==> (b.step == to && b.pattern == was.pattern
                && b.length == was.length) || (m.song.contains(b) && b != was && (b.pattern
                != was.pattern || clear(b, to as int, was.length as int))))
            &&& moved ==> in_song_order(now.song)
        }),
{
    lemma_block_found(m, was, from);
    assert(m.belongs(was));
    lemma_replaced(m, was, to, was.length, b);
}

/// A block that is made longer or shorter starts where it did and is as long as it is asked to be:
/// one step at the least, and four thousand and ninety six at the most. It takes the place of the
/// blocks of its own pattern that it reaches, and every other block stays.
pub proof fn what_resizing_a_block_changes(
    m: ProjectModel,
    was: Placement,
    step: u32,
    length: u32,
    b: Placement,
)
    requires
        m.tidy(),
        m.song.contains(was),
        was.step <= step < was.step + was.length,
    ensures
        ({
            let (now, fits) = m.resizing(was.pattern, step, length);
            let held = if length < 1 {
                1
            } else if length > 4096 {
                4096
            } else {
                length as int
            };
            &&& fits == (was.step + held <= 4096)
            &&& !fits ==> now.song == m.song
            &&& same_but_song(m, now)
            &&& fits ==> (now.song.contains(b) <==> (b.step == was.step && b.pattern == was.pattern
                && b.length == held) || (m.song.contains(b) && b != was && (b.pattern != was.pattern
                || clear(b, was.step as int, held))))
            &&& fits ==> in_song_order(now.song)
        }),
{
    lemma_block_found(m, was, step);
    lemma_replaced(
        m,
        was,
        was.step,
        if length < 1 {
            1
        } else {
            length
        },
        b,
    );
}

/// Where no block of a pattern is there is nothing to move or to resize.
pub proof fn nothing_moves_where_nothing_is(
    m: ProjectModel,
    pattern: u16,
    step: u32,
    to: u32,
    length: u32,
)
    requires
        m.tidy(),
        forall|b: Placement| #[trigger]
            m.song.contains(b) && b.pattern == pattern ==> !(b.step <= step < b.step + b.length),
    ensures
        m.moving(pattern, step, to) == (m, false),
        m.resizing(pattern, step, length) == (m, false),
{
    let test = covering(pattern, step);
    lemma_first_where_bounds(m.song, test);
    let at = m.block_at(pattern, step);
    if at < m.song.len() {
        assert(test(m.song[at]));
        assert(m.song.contains(m.song[at]));
        assert(m.belongs(m.song[at]));
    }
}

/// Clearing a bar takes up the blocks that start in its sixteen steps and leaves every other.
pub proof fn what_clearing_a_bar_changes(m: ProjectModel, bar: u32, b: Placement)
    requires
        m.tidy(),
    ensures
        ({
            let now = m.without_bar(bar);
            &&& now.song.contains(b) <==> m.song.contains(b) && !(bar * 16 <= b.step < bar * 16
                + 16)
            &&& same_but_song(m, now)
            &&& in_song_order(now.song)
        }),
{
    lemma_filter_members(m.song, outside_bar(bar));
    lemma_filter_pairs(m.song, outside_bar(bar), by_rank::<Placement>());
    lemma_in_song_order(m.without_bar(bar).song);
}

/// A track that is deleted is gone from the tracks and from every pattern; every other track, every
/// pattern and the song stay. `i` is where it was.
pub proof fn what_deleting_a_track_changes(m: ProjectModel, i: int)
    requires
        m.tidy(),
        0 <= i < m.tracks.len(),
    ensures
        ({
            let id = m.tracks[i].id;
            let now = m.without_track(id);
            &&& now.tracks.len() == m.tracks.len() - 1
            &&& forall|k: int|
                0 <= k < now.tracks.len() ==> #[trigger] now.tracks[k] == (if k < i {
                    m.tracks[k]
                } else {
                    m.tracks[k + 1]
                })
            &&& forall|k: int| 0 <= k < now.tracks.len() ==> (#[trigger] now.tracks[k]).id != id
            &&& now.patterns.len() == m.patterns.len()
            &&& forall|k: int|
                0 <= k < m.patterns.len() ==> #[trigger] now.patterns[k] == m.patterns[k].without_track(
                    id,
                )
            &&& now.song == m.song && now.version == m.version && now.bpm == m.bpm
                && now.master_gain == m.master_gain
        }),
{
    let id = m.tracks[i].id;
    lemma_has_track(m, id);
    let k = m.track_at(id);
    if k < i {
        assert(m.tracks[k].id != m.tracks[i].id);
    } else if i < k {
        assert(m.tracks[i].id != m.tracks[k].id);
    }
    let now = m.without_track(id);
    assert forall|k: int| 0 <= k < now.tracks.len() implies (#[trigger] now.tracks[k]).id != id by {
        if k < i {
            assert(m.tracks[k].id != m.tracks[i].id);
        } else {
            assert(m.tracks[i].id != m.tracks[k + 1].id);
        }
    }
}

/// A pattern that is deleted is gone from the patterns and from the song; every other pattern and
/// its blocks, and every track, stay. `i` is where it was.
pub proof fn what_deleting_a_pattern_changes(m: ProjectModel, i: int, b: Placement)
    requires
        m.tidy(),
        0 <= i < m.patterns.len(),
    ensures
        ({
            let id = m.patterns[i].id;
            let now = m.without_pattern(id);
            &&& now.patterns.len() == m.patterns.len() - 1
            &&& forall|k: int|
                0 <= k < now.patterns.len() ==> #[trigger] now.patterns[k] == (if k < i {
                    m.patterns[k]
                } else {
                    m.patterns[k + 1]
                })
            &&& now.song.contains(b) <==> m.song.contains(b) && b.pattern != id
            &&& in_song_order(now.song)
            &&& now.tracks == m.tracks && now.version == m.version && now.bpm == m.bpm
                && now.master_gain == m.master_gain
        }),
{
    let id = m.patterns[i].id;
    lemma_pattern_found(m, i);
    lemma_filter_members(m.song, not_of(id));
    lemma_filter_pairs(m.song, not_of(id), by_rank::<Placement>());
    lemma_in_song_order(m.without_pattern(id).song);
}

/// A new project plays at a hundred and twenty, nine tenths of full, with one empty pattern of
/// sixteen steps and nothing else.
pub proof fn what_a_new_project_is()
    ensures
        ({
            let m = Project::fresh();
            &&& m.bpm.bits == 0x42f0_0000 && m.master_gain.bits == 0x3f66_6666
            &&& m.tracks.len() == 0 && m.song.len() == 0 && m.patterns.len() == 1
            &&& m.patterns[0].id == 0 && m.patterns[0].steps == 16 && m.patterns[0].name
                == "Pattern 1"@
            &&& m.patterns[0].colour is None && m.patterns[0].pitched.len() == 0
                && m.patterns[0].lanes.len() == 0
        }),
{
}

} // verus!
