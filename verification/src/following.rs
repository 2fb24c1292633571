//! The engine's song is the project's: it is once it has been told one, and it goes on being so
//! through every edit that is told to it.

use vstd::prelude::*;

use crate::arranging::{a_tidy_song_is_not_too_long, apart, lemma_has_pattern};
use crate::bits::{lemma_none_and_all, lemma_with, lemma_without};
use crate::command::Command;
use crate::performing::among;
use crate::placement::Placement;
use crate::playing::EngineModel;
use crate::project::{not_starting, song_end, whole_bars, ProjectModel};
use crate::seqs::lemma_filter_members;
use crate::telling::{
    block_told, block_untold, length_told, missing_from, placement_told, song_told, swallowed,
};
use crate::{MAX_PATTERNS, MAX_SONG_STEPS};

verus! {

/// Several commands and several more are all of them.
pub proof fn lemma_applied_both(m: EngineModel, a: Seq<Command>, b: Seq<Command>)
    ensures
        m.all_applied(a + b) == m.all_applied(a).all_applied(b),
    decreases b.len(),
{
    if b.len() == 0 {
        assert(a + b =~= a);
    } else {
        assert((a + b).drop_last() =~= a + b.drop_last());
        assert((a + b).last() == b.last());
        lemma_applied_both(m, a, b.drop_last());
    }
}

impl EngineModel {
    /// There is room for a song.
    pub open spec fn roomy(self) -> bool {
        &&& self.starts.len() == MAX_SONG_STEPS
        &&& self.lengths.len() == MAX_SONG_STEPS * MAX_PATTERNS
    }

    /// The engine has a project's song: its blocks, and how long it is.
    pub open spec fn follows(self, song: Seq<Placement>) -> bool {
        &&& self.roomy()
        &&& self.holds_song(song)
        &&& self.song_len == whole_bars(song_end(song))
    }
}

/// Two engines that differ in their songs, how far into a block each pattern is, and where their
/// clocks are at the most.
pub open spec fn alike_but_for_song(a: EngineModel, b: EngineModel) -> bool {
    &&& a.tracks == b.tracks
    &&& a.patterns == b.patterns
    &&& a.song_mode == b.song_mode
    &&& a.active_pattern == b.active_pattern
    &&& a.voices == b.voices
    &&& a.playing == b.playing
    &&& a.master == b.master
    &&& a.handed == b.handed
    &&& a.clock.bpm == b.clock.bpm
    &&& a.clock.rate == b.clock.rate
}

/// A block the engine's grid can hold as it is.
pub open spec fn placeable(b: Placement) -> bool {
    &&& b.pattern < MAX_PATTERNS
    &&& b.step < MAX_SONG_STEPS
    &&& 1 <= b.length <= MAX_SONG_STEPS
}

/// A song of blocks the grid can hold, no two of them of one pattern at one step.
pub open spec fn gridded(song: Seq<Placement>) -> bool {
    &&& forall|b: Placement| #[trigger] song.contains(b) ==> placeable(b)
    &&& forall|a: Placement, b: Placement| #[trigger]
        song.contains(a) && #[trigger] song.contains(b) && a.step == b.step && a.pattern
            == b.pattern ==> a == b
}

/// The song of a tidy project fits the grid.
proof fn lemma_gridded(p: ProjectModel)
    requires
        p.tidy(),
    ensures
        gridded(p.song),
{
    assert forall|b: Placement| #[trigger] p.song.contains(b) implies placeable(b) by {
        assert(p.belongs(b));
        lemma_has_pattern(p, b.pattern);
        let i = choose|i: int|
            0 <= i < p.patterns.len() && (#[trigger] p.patterns[i]).id == b.pattern;
        assert(p.patterns[i].id < MAX_PATTERNS);
    }
    assert forall|a: Placement, b: Placement| #[trigger]
        p.song.contains(a) && #[trigger] p.song.contains(b) && a.step == b.step && a.pattern
            == b.pattern implies a == b by {
        if a != b {
            let i = choose|i: int| 0 <= i < p.song.len() && p.song[i] == a;
            let j = choose|j: int| 0 <= j < p.song.len() && p.song[j] == b;
            assert(p.belongs(a) && p.belongs(b));
            if i < j {
                assert(apart()(p.song[i], p.song[j]));
            } else {
                assert(apart()(p.song[j], p.song[i]));
            }
        }
    }
}

/// Holding some blocks is holding any that are the same ones.
proof fn lemma_same_hold(
    m: EngineModel,
    these: spec_fn(Placement) -> bool,
    those: spec_fn(Placement) -> bool,
)
    requires
        m.holds_blocks(these),
        forall|b: Placement| #![trigger these(b)] #![trigger those(b)] these(b) == those(b),
    ensures
        m.holds_blocks(those),
{
    assert forall|step: int, p: int|
        0 <= step < MAX_SONG_STEPS && 0 <= p < MAX_PATTERNS && #[trigger] m.starts_at(
            step,
            p,
        ) implies exists|b: Placement| #[trigger] those(b) && b.step == step && b.pattern == p by {
        let b = choose|b: Placement| #[trigger] these(b) && b.step == step && b.pattern == p;
        assert(those(b));
    }
}

/// Putting a block in the grid puts in that block and no other.
proof fn lemma_placed(m: EngineModel, these: spec_fn(Placement) -> bool, b: Placement)
    requires
        m.roomy(),
        m.holds_blocks(these),
        placeable(b),
        forall|a: Placement| #[trigger]
            these(a) && a.step == b.step && a.pattern == b.pattern ==> a == b,
    ensures
        m.placed(b.pattern, b.step, b.length).roomy(),
        m.placed(b.pattern, b.step, b.length).holds_blocks(|a: Placement| these(a) || a == b),
{
    let after = m.placed(b.pattern, b.step, b.length);
    let more = |a: Placement| these(a) || a == b;
    lemma_with(m.starts[b.step as int], b.pattern as u32);
    assert forall|a: Placement| #[trigger] more(a) implies a.step < MAX_SONG_STEPS && a.pattern
        < MAX_PATTERNS && after.starts_at(a.step as int, a.pattern as int) && after.length_at(
        a.step as int,
        a.pattern as int,
    ) == a.length by {
        if a != b {
            assert(these(a));
            assert(m.starts_at(a.step as int, a.pattern as int));
        }
    }
    assert forall|step: int, p: int|
        0 <= step < MAX_SONG_STEPS && 0 <= p < MAX_PATTERNS && #[trigger] after.starts_at(
            step,
            p,
        ) implies exists|a: Placement| #[trigger] more(a) && a.step == step && a.pattern == p by {
        if step == b.step && p == b.pattern {
            assert(more(b));
        } else {
            assert(m.starts_at(step, p));
            let a = choose|a: Placement| #[trigger] these(a) && a.step == step && a.pattern == p;
            assert(more(a));
        }
    }
}

/// Taking a block out of the grid takes out that block and no other.
proof fn lemma_unplaced(m: EngineModel, these: spec_fn(Placement) -> bool, b: Placement)
    requires
        m.roomy(),
        m.holds_blocks(these),
        placeable(b),
        forall|a: Placement| #[trigger]
            these(a) && a.step == b.step && a.pattern == b.pattern ==> a == b,
    ensures
        m.unplaced(b.pattern, b.step).roomy(),
        m.unplaced(b.pattern, b.step).holds_blocks(|a: Placement| these(a) && a != b),
{
    let after = m.unplaced(b.pattern, b.step);
    let fewer = |a: Placement| these(a) && a != b;
    lemma_without(m.starts[b.step as int], b.pattern as u32);
    assert forall|a: Placement| #[trigger] fewer(a) implies a.step < MAX_SONG_STEPS && a.pattern
        < MAX_PATTERNS && after.starts_at(a.step as int, a.pattern as int) && after.length_at(
        a.step as int,
        a.pattern as int,
    ) == a.length by {
        assert(these(a));
        assert(m.starts_at(a.step as int, a.pattern as int));
    }
    assert forall|step: int, p: int|
        0 <= step < MAX_SONG_STEPS && 0 <= p < MAX_PATTERNS && #[trigger] after.starts_at(
            step,
            p,
        ) implies exists|a: Placement| #[trigger] fewer(a) && a.step == step && a.pattern == p by {
        assert(m.starts_at(step, p));
        let a = choose|a: Placement| #[trigger] these(a) && a.step == step && a.pattern == p;
        assert(!(step == b.step && p == b.pattern));
        assert(fewer(a));
    }
}

/// The test for a block that is one of these or in a list.
pub open spec fn or_among(
    these: spec_fn(Placement) -> bool,
    more: Seq<Placement>,
) -> spec_fn(Placement) -> bool {
    |b: Placement| these(b) || more.contains(b)
}

/// The test for a block that is one of these and not in a list.
pub open spec fn but_for(
    these: spec_fn(Placement) -> bool,
    gone: Seq<Placement>,
) -> spec_fn(Placement) -> bool {
    |b: Placement| these(b) && !gone.contains(b)
}

/// Telling the engine of several blocks leaves it with those as well as what it had.
proof fn lemma_blocks_told(
    m: EngineModel,
    these: spec_fn(Placement) -> bool,
    come: Seq<Placement>,
    song: Seq<Placement>,
)
    requires
        m.roomy(),
        m.holds_blocks(these),
        gridded(song),
        forall|b: Placement| #[trigger] these(b) ==> song.contains(b),
        forall|b: Placement| #[trigger] come.contains(b) ==> song.contains(b),
    ensures
        m.all_applied(come.map_values(block_told())).roomy(),
        m.all_applied(come.map_values(block_told())).holds_blocks(or_among(these, come)),
        alike_but_for_song(m.all_applied(come.map_values(block_told())), m),
    decreases come.len(),
{
    let told = come.map_values(block_told());
    if come.len() == 0 {
        lemma_same_hold(m, these, or_among(these, come));
    } else {
        let front = come.drop_last();
        let b = come.last();
        assert forall|a: Placement| #[trigger] front.contains(a) implies come.contains(a) by {
            let i = choose|i: int| 0 <= i < front.len() && front[i] == a;
            assert(come[i] == a);
        }
        assert(come[come.len() - 1] == b);
        assert(come.contains(b));
        lemma_blocks_told(m, these, front, song);
        assert(told.drop_last() =~= front.map_values(block_told()));
        assert(told.last() == block_told()(b));
        let before = m.all_applied(told.drop_last());
        let had = or_among(these, front);
        assert forall|a: Placement| #[trigger]
            had(a) && a.step == b.step && a.pattern == b.pattern implies a == b by {
            assert(song.contains(a) && song.contains(b));
        }
        lemma_placed(before, had, b);
        assert forall|a: Placement| #[trigger] come.contains(a) == (front.contains(a) || a == b) by {
            if come.contains(a) && a != b {
                let i = choose|i: int| 0 <= i < come.len() && come[i] == a;
                assert(front[i] == a);
            }
        }
        lemma_same_hold(
            before.placed(b.pattern, b.step, b.length),
            |a: Placement| had(a) || a == b,
            or_among(these, come),
        );
    }
}

/// Telling the engine that several blocks are gone leaves it with what it had but for those.
proof fn lemma_blocks_untold(
    m: EngineModel,
    these: spec_fn(Placement) -> bool,
    gone: Seq<Placement>,
    song: Seq<Placement>,
)
    requires
        m.roomy(),
        m.holds_blocks(these),
        gridded(song),
        forall|b: Placement| #[trigger] these(b) ==> song.contains(b),
        forall|b: Placement| #[trigger] gone.contains(b) ==> song.contains(b),
    ensures
        m.all_applied(gone.map_values(block_untold())).roomy(),
        m.all_applied(gone.map_values(block_untold())).holds_blocks(but_for(these, gone)),
        alike_but_for_song(m.all_applied(gone.map_values(block_untold())), m),
    decreases gone.len(),
{
    let told = gone.map_values(block_untold());
    if gone.len() == 0 {
        lemma_same_hold(m, these, but_for(these, gone));
    } else {
        let front = gone.drop_last();
        let b = gone.last();
        assert forall|a: Placement| #[trigger] front.contains(a) implies gone.contains(a) by {
            let i = choose|i: int| 0 <= i < front.len() && front[i] == a;
            assert(gone[i] == a);
        }
        assert(gone[gone.len() - 1] == b);
        assert(gone.contains(b));
        lemma_blocks_untold(m, these, front, song);
        assert(told.drop_last() =~= front.map_values(block_untold()));
        assert(told.last() == block_untold()(b));
        let before = m.all_applied(told.drop_last());
        let had = but_for(these, front);
        assert forall|a: Placement| #[trigger]
            had(a) && a.step == b.step && a.pattern == b.pattern implies a == b by {
            assert(song.contains(a) && song.contains(b));
        }
        lemma_unplaced(before, had, b);
        assert forall|a: Placement| #[trigger] gone.contains(a) == (front.contains(a) || a == b) by {
            if gone.contains(a) && a != b {
                let i = choose|i: int| 0 <= i < gone.len() && gone[i] == a;
                assert(front[i] == a);
            }
        }
        lemma_same_hold(
            before.unplaced(b.pattern, b.step),
            |a: Placement| had(a) && a != b,
            but_for(these, gone),
        );
    }
}

/// Telling the engine how long a tidy song is.
proof fn lemma_length_told(m: EngineModel, p: ProjectModel)
    requires
        p.tidy(),
        m.roomy(),
        m.holds_song(p.song),
    ensures
        m.applied(length_told(p.song)).follows(p.song),
        alike_but_for_song(m.applied(length_told(p.song)), m),
{
    a_tidy_song_is_not_too_long(p);
    let after = m.applied(length_told(p.song));
    assert(after.starts == m.starts && after.lengths == m.lengths);
    assert forall|step: int, q: int| #[trigger] after.starts_at(step, q) == m.starts_at(step, q) by {}
    assert forall|step: int, q: int| #[trigger] after.length_at(step, q) == m.length_at(step, q) by {}
    let these = among(p.song);
    assert forall|step: int, q: int|
        0 <= step < MAX_SONG_STEPS && 0 <= q < MAX_PATTERNS && #[trigger] after.starts_at(
            step,
            q,
        ) implies exists|b: Placement| #[trigger] these(b) && b.step == step && b.pattern == q by {
        assert(m.starts_at(step, q));
    }
    assert(after.holds_blocks(these));
}

/// Telling a song from nothing leaves the engine with that song, whatever it had before, and
/// touches nothing else.
pub proof fn telling_a_song_is_holding_it(m: EngineModel, p: ProjectModel)
    requires
        p.tidy(),
    ensures
        m.all_applied(song_told(p.song)).follows(p.song),
        alike_but_for_song(m.all_applied(song_told(p.song)), m),
{
    let clear = seq![Command::ClearSong];
    let told = p.song.map_values(block_told());
    let last = seq![length_told(p.song)];
    reveal_with_fuel(EngineModel::all_applied, 2);
    let cleared = m.all_applied(clear);
    assert(cleared == m.song_cleared());
    lemma_none_and_all();
    let none = |b: Placement| false;
    assert forall|step: int, q: int| 0 <= step < MAX_SONG_STEPS && 0 <= q < MAX_PATTERNS implies
        !#[trigger] cleared.starts_at(step, q) by {
        assert(cleared.starts[step] == 0);
    }
    assert(cleared.holds_blocks(none));
    lemma_gridded(p);
    lemma_applied_both(m, clear, told);
    lemma_blocks_told(cleared, none, p.song, p.song);
    let whole = m.all_applied(clear + told);
    lemma_same_hold(whole, or_among(none, p.song), among(p.song));
    lemma_applied_both(m, clear + told, last);
    assert(whole.all_applied(last) == whole.applied(length_told(p.song)));
    lemma_length_told(whole, p);
}

/// Saying how long a tidy song is touches no block.
proof fn lemma_length_said(m: EngineModel, these: spec_fn(Placement) -> bool, next: ProjectModel)
    requires
        next.tidy(),
        m.roomy(),
        m.holds_blocks(these),
    ensures
        m.applied(length_told(next.song)).roomy(),
        m.applied(length_told(next.song)).holds_blocks(these),
        m.applied(length_told(next.song)).song_len == whole_bars(song_end(next.song)),
        alike_but_for_song(m.applied(length_told(next.song)), m),
{
    a_tidy_song_is_not_too_long(next);
    let after = m.applied(length_told(next.song));
    assert(after.starts == m.starts && after.lengths == m.lengths);
    assert forall|b: Placement| #[trigger] these(b) implies b.step < MAX_SONG_STEPS && b.pattern
        < MAX_PATTERNS && after.starts_at(b.step as int, b.pattern as int) && after.length_at(
        b.step as int,
        b.pattern as int,
    ) == b.length by {
        assert(m.starts_at(b.step as int, b.pattern as int));
        assert(m.length_at(b.step as int, b.pattern as int) == b.length);
    }
    assert forall|step: int, q: int|
        0 <= step < MAX_SONG_STEPS && 0 <= q < MAX_PATTERNS && #[trigger] after.starts_at(
            step,
            q,
        ) implies exists|b: Placement| #[trigger] these(b) && b.step == step && b.pattern == q by {
        assert(m.starts_at(step, q));
    }
}

/// Putting a block in the grid puts it in the place of whatever started there.
proof fn lemma_placed_over(m: EngineModel, these: spec_fn(Placement) -> bool, b: Placement)
    requires
        m.roomy(),
        m.holds_blocks(these),
        placeable(b),
    ensures
        m.placed(b.pattern, b.step, b.length).roomy(),
        m.placed(b.pattern, b.step, b.length).holds_blocks(
            |a: Placement| a == b || (these(a) && not_starting(b.pattern, b.step)(a)),
        ),
{
    let after = m.placed(b.pattern, b.step, b.length);
    let elsewhere = not_starting(b.pattern, b.step);
    let more = |a: Placement| a == b || (these(a) && elsewhere(a));
    lemma_with(m.starts[b.step as int], b.pattern as u32);
    assert forall|a: Placement| #[trigger] more(a) implies a.step < MAX_SONG_STEPS && a.pattern
        < MAX_PATTERNS && after.starts_at(a.step as int, a.pattern as int) && after.length_at(
        a.step as int,
        a.pattern as int,
    ) == a.length by {
        if a != b {
            assert(these(a) && elsewhere(a));
            assert(m.starts_at(a.step as int, a.pattern as int));
        }
    }
    assert forall|step: int, p: int|
        0 <= step < MAX_SONG_STEPS && 0 <= p < MAX_PATTERNS && #[trigger] after.starts_at(
            step,
            p,
        ) implies exists|a: Placement| #[trigger] more(a) && a.step == step && a.pattern == p by {
        if step == b.step && p == b.pattern {
            assert(more(b));
        } else {
            assert(m.starts_at(step, p));
            let a = choose|a: Placement| #[trigger] these(a) && a.step == step && a.pattern == p;
            assert(elsewhere(a));
            assert(more(a));
        }
    }
}

/// Clearing the start of a pattern at a step takes out what started there, if anything did.
proof fn lemma_start_cleared(
    m: EngineModel,
    these: spec_fn(Placement) -> bool,
    pattern: u16,
    step: u32,
)
    requires
        m.roomy(),
        m.holds_blocks(these),
    ensures
        m.unplaced(pattern, step).roomy(),
        m.unplaced(pattern, step).holds_blocks(
            |a: Placement| these(a) && not_starting(pattern, step)(a),
        ),
{
    let after = m.unplaced(pattern, step);
    let elsewhere = not_starting(pattern, step);
    let fewer = |a: Placement| these(a) && elsewhere(a);
    if pattern < MAX_PATTERNS && step < MAX_SONG_STEPS {
        lemma_without(m.starts[step as int], pattern as u32);
    }
    assert forall|a: Placement| #[trigger] fewer(a) implies a.step < MAX_SONG_STEPS && a.pattern
        < MAX_PATTERNS && after.starts_at(a.step as int, a.pattern as int) && after.length_at(
        a.step as int,
        a.pattern as int,
    ) == a.length by {
        assert(these(a) && elsewhere(a));
        assert(m.starts_at(a.step as int, a.pattern as int));
    }
    assert forall|at: int, p: int|
        0 <= at < MAX_SONG_STEPS && 0 <= p < MAX_PATTERNS && #[trigger] after.starts_at(
            at,
            p,
        ) implies exists|a: Placement| #[trigger] fewer(a) && a.step == at && a.pattern == p by {
        assert(m.starts_at(at, p));
        let a = choose|a: Placement| #[trigger] these(a) && a.step == at && a.pattern == p;
        assert(elsewhere(a));
        assert(fewer(a));
    }
}

/// Telling the engine that a block is gone leaves it without what started there, and with how
/// long the song is to be. When nothing started there, nothing is gone.
pub proof fn a_block_taken_out_leaves_the_engine(
    m: EngineModel,
    was: ProjectModel,
    next: ProjectModel,
    block: Placement,
)
    requires
        next.tidy(),
        m.roomy(),
        m.holds_song(was.song),
    ensures
        ({
            let after = m.all_applied(placement_told(was.song, next.song, block, false));
            &&& after.roomy()
            &&& after.holds_song(was.unplacing(block.pattern, block.step).song)
            &&& after.song_len == whole_bars(song_end(next.song))
            &&& alike_but_for_song(after, m)
        }),
{
    let first = seq![block_untold()(block)];
    let last = seq![length_told(next.song)];
    let elsewhere = not_starting(block.pattern, block.step);
    let these = among(was.song);
    let left = was.unplacing(block.pattern, block.step).song;
    reveal_with_fuel(EngineModel::all_applied, 2);
    lemma_applied_both(m, first, last);
    let cleared = m.unplaced(block.pattern, block.step);
    assert(m.all_applied(first) == cleared);
    lemma_start_cleared(m, these, block.pattern, block.step);
    lemma_filter_members(was.song, elsewhere);
    lemma_same_hold(
        cleared,
        |a: Placement| these(a) && not_starting(block.pattern, block.step)(a),
        among(left),
    );
    lemma_length_said(cleared, among(left), next);
    assert(cleared.all_applied(last) == cleared.applied(length_told(next.song)));
}

/// Telling the engine of a block that went into the song leaves it with the song as it is now,
/// when it had the song as it was, and touches nothing else. What the block landed on and
/// swallowed is gone from the engine too.
pub proof fn a_block_put_down_reaches_the_engine(
    m: EngineModel,
    was: ProjectModel,
    now: ProjectModel,
    block: Placement,
)
    requires
        was.tidy(),
        now.tidy(),
        m.roomy(),
        m.holds_song(was.song),
        now.song.contains(block),
        forall|b: Placement| #[trigger] now.song.contains(b) ==> b == block || was.song.contains(b),
    ensures
        m.all_applied(placement_told(was.song, now.song, block, true)).follows(now.song),
        alike_but_for_song(
            m.all_applied(placement_told(was.song, now.song, block, true)),
            m,
        ),
{
    let elsewhere = not_starting(block.pattern, block.step);
    let missing = was.song.filter(missing_from(now.song));
    let gone = swallowed(was.song, now.song, block);
    let first = gone.map_values(block_untold());
    let second = seq![block_told()(block)];
    let last = seq![length_told(now.song)];
    let these = among(was.song);
    lemma_filter_members(was.song, missing_from(now.song));
    lemma_filter_members(missing, elsewhere);
    lemma_gridded(was);
    lemma_gridded(now);
    lemma_blocks_untold(m, these, gone, was.song);
    let fewer = m.all_applied(first);
    let kept = but_for(these, gone);
    lemma_placed_over(fewer, kept, block);
    reveal_with_fuel(EngineModel::all_applied, 2);
    lemma_applied_both(m, first, second);
    let whole = m.all_applied(first + second);
    assert(whole == fewer.placed(block.pattern, block.step, block.length));
    let all = |a: Placement| a == block || (kept(a) && not_starting(block.pattern, block.step)(a));
    assert forall|b: Placement| #![trigger all(b)] #![trigger among(now.song)(b)] all(b) == among(
        now.song,
    )(b) by {
        if now.song.contains(b) && b != block {
            assert(was.song.contains(b));
            assert(!gone.contains(b));
            assert(now.song.contains(block));
            assert(elsewhere(b));
        }
        if kept(b) && elsewhere(b) && !now.song.contains(b) {
            assert(missing.contains(b));
            assert(gone.contains(b));
        }
    }
    lemma_same_hold(whole, all, among(now.song));
    lemma_applied_both(m, first + second, last);
    assert(whole.all_applied(last) == whole.applied(length_told(now.song)));
    lemma_length_told(whole, now);
}

} // verus!
