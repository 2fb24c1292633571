//! The project: the instruments, the patterns, and the song.
//!
//! Instruments are the project's, not a pattern's. A [`Track`] is a sound plus its volume,
//! mute and solo; every pattern plays the same set of them. What a [`Pattern`] owns is the
//! notes. The song is a list of [`Placement`]s, and any number of them can overlap: that is how
//! a kick pattern, a hat pattern and a snare pattern add up to a beat.

use vstd::prelude::*;
use vstd::string::StringExecFns;

use crate::pattern::{Pattern, PatternModel};
use crate::placement::{song_order, Placement};
use crate::seqs::{by_rank, first_where, lemma_first_where, lemma_first_where_bounds, retain, sort};
use crate::single::{Single, DEFAULT_BPM, DEFAULT_GAIN, DEFAULT_MASTER_GAIN};
use crate::text::{append_number, digits, reading_back_digits};
use crate::{DEFAULT_STEPS, MAX_PATTERNS, MAX_PLACEMENTS, MAX_SONG_STEPS, MAX_TRACKS, STEPS_PER_BAR};

verus! {

/// Bumped whenever the on-disk shape changes.
pub const PROJECT_VERSION: u32 = 2;

/// Where a track's sound comes from.
#[derive(Debug)]
pub struct SampleRef {
    /// Relative to the project folder, e.g. `samples/kick.wav`.
    pub path: String,
    pub name: String,
}

impl Clone for SampleRef {
    fn clone(&self) -> (r: Self)
        ensures
            r == *self,
    {
        SampleRef { path: self.path.clone(), name: self.name.clone() }
    }
}

/// One instrument: a sound and how loud it is. Belongs to the project, not to a pattern.
#[derive(Debug)]
pub struct Track {
    /// Unique among live tracks, and also the track's slot in the audio engine.
    pub id: u16,
    pub name: String,
    pub sample: Option<SampleRef>,
    /// Linear, 0.0 to 1.5. 1.0 is unity.
    pub gain: Single,
    pub muted: bool,
    pub soloed: bool,
    /// Left over from when being an instrument belonged to the track rather than to each
    /// pattern. Only read on the way in, by [`Project::repair`], which marks every pattern
    /// for a track that was pitched and then clears this.
    pub pitched: bool,
}

impl Track {
    pub fn new(id: u16, name: String, sample: Option<SampleRef>) -> (r: Self)
        ensures
            r == (Track {
                id,
                name,
                sample,
                gain: Single { bits: DEFAULT_GAIN },
                muted: false,
                soloed: false,
                pitched: false,
            }),
    {
        Track {
            id,
            name,
            sample,
            gain: Single { bits: DEFAULT_GAIN },
            muted: false,
            soloed: false,
            pitched: false,
        }
    }

    /// Whether the track plays a sample file.
    pub open spec fn uses(self, path: Seq<char>) -> bool {
        self.sample matches Some(s) && s.path@ == path
    }
}

impl Clone for Track {
    fn clone(&self) -> (r: Self)
        ensures
            r == *self,
    {
        Track {
            id: self.id,
            name: self.name.clone(),
            sample: match &self.sample {
                Some(s) => Some(s.clone()),
                None => None,
            },
            gain: self.gain,
            muted: self.muted,
            soloed: self.soloed,
            pitched: self.pitched,
        }
    }
}

/// Everything the app knows about the song.
#[derive(Debug)]
pub struct Project {
    pub version: u32,
    pub bpm: Single,
    /// Linear master gain before the soft clipper.
    pub master_gain: Single,
    /// The instruments. Every pattern plays all of them.
    pub tracks: Vec<Track>,
    /// Always at least one.
    pub patterns: Vec<Pattern>,
    /// The song: what plays where. Sorted, so the same song is always written out the same
    /// way. Placements overlap freely: that is the point of them.
    pub song: Vec<Placement>,
}

/// A project, as mathematics has it.
#[verifier::ext_equal]
pub struct ProjectModel {
    pub version: u32,
    pub bpm: Single,
    pub master_gain: Single,
    pub tracks: Seq<Track>,
    pub patterns: Seq<PatternModel>,
    pub song: Seq<Placement>,
}

pub open spec fn pattern_view() -> spec_fn(Pattern) -> PatternModel {
    |p: Pattern| p@
}

impl View for Project {
    type V = ProjectModel;

    open spec fn view(&self) -> ProjectModel {
        ProjectModel {
            version: self.version,
            bpm: self.bpm,
            master_gain: self.master_gain,
            tracks: self.tracks@,
            patterns: self.patterns@.map_values(pattern_view()),
            song: self.song@,
        }
    }
}

pub open spec fn track_called(id: u16) -> spec_fn(Track) -> bool {
    |t: Track| t.id == id
}

pub open spec fn pattern_called(id: u16) -> spec_fn(PatternModel) -> bool {
    |p: PatternModel| p.id == id
}

pub open spec fn plays_from(path: Seq<char>) -> spec_fn(Track) -> bool {
    |t: Track| t.uses(path)
}

/// The test for a block of a pattern that covers a step.
pub open spec fn covering(pattern: u16, step: u32) -> spec_fn(Placement) -> bool {
    |p: Placement| p.pattern == pattern && p.spans(step as int)
}

/// The test for any block but those of a pattern.
pub open spec fn not_of(pattern: u16) -> spec_fn(Placement) -> bool {
    |p: Placement| p.pattern != pattern
}

/// The test for any block but those of a pattern that start at a step.
pub open spec fn not_starting(pattern: u16, step: u32) -> spec_fn(Placement) -> bool {
    |p: Placement| !(p.pattern == pattern && p.step == step)
}

/// The test for a block that a new one does not land on.
pub open spec fn clear_of(placed: Placement) -> spec_fn(Placement) -> bool {
    |p: Placement| p.pattern != placed.pattern || !p.meets(placed)
}

/// The test for a block that does not start in a bar.
pub open spec fn outside_bar(bar: u32) -> spec_fn(Placement) -> bool {
    |p: Placement| p.step < bar * STEPS_PER_BAR || p.step >= (bar + 1) * STEPS_PER_BAR
}

/// The song in order.
pub open spec fn ordered(song: Seq<Placement>) -> Seq<Placement> {
    song.sort_by(by_rank::<Placement>())
}

/// The step after the last one anything covers.
pub open spec fn song_end(song: Seq<Placement>) -> int
    decreases song.len(),
{
    if song.len() == 0 {
        0
    } else {
        let before = song_end(song.drop_last());
        if song.last().stop() > before {
            song.last().stop()
        } else {
            before
        }
    }
}

/// A number of steps, rounded up to whole bars.
pub open spec fn whole_bars(steps: int) -> int {
    (steps + STEPS_PER_BAR - 1) / (STEPS_PER_BAR as int) * STEPS_PER_BAR
}

/// The song with a block that repeats the one before it left out.
pub open spec fn without_repeats(song: Seq<Placement>) -> Seq<Placement>
    decreases song.len(),
{
    if song.len() <= 1 {
        song
    } else {
        let front = without_repeats(song.drop_last());
        if song.last() == song[song.len() - 2] {
            front
        } else {
            front.push(song.last())
        }
    }
}

/// "Pattern 4".
pub open spec fn numbered_name(n: nat) -> Seq<char> {
    "Pattern "@ + digits(n)
}

/// Make several tracks instruments.
pub open spec fn marked(p: PatternModel, tracks: Seq<u16>) -> PatternModel
    decreases tracks.len(),
{
    if tracks.len() == 0 {
        p
    } else {
        marked(p, tracks.drop_last()).with_pitched(tracks.last(), true)
    }
}

pub open spec fn marked_with(tracks: Seq<u16>) -> spec_fn(PatternModel) -> PatternModel {
    |p: PatternModel| marked(p, tracks)
}

pub open spec fn unmarked() -> spec_fn(Track) -> Track {
    |t: Track| Track { pitched: false, ..t }
}

pub open spec fn fitted() -> spec_fn(PatternModel) -> PatternModel {
    |p: PatternModel| p.fitted()
}

/// The tracks that carry the old mark of an instrument.
pub open spec fn old_instruments(tracks: Seq<Track>) -> Seq<u16>
    decreases tracks.len(),
{
    if tracks.len() == 0 {
        Seq::empty()
    } else if tracks.last().pitched {
        old_instruments(tracks.drop_last()).push(tracks.last().id)
    } else {
        old_instruments(tracks.drop_last())
    }
}

impl ProjectModel {
    pub open spec fn track_at(self, id: u16) -> int {
        first_where(self.tracks, track_called(id))
    }

    pub open spec fn has_track(self, id: u16) -> bool {
        self.track_at(id) < self.tracks.len()
    }

    pub open spec fn pattern_at(self, id: u16) -> int {
        first_where(self.patterns, pattern_called(id))
    }

    pub open spec fn has_pattern(self, id: u16) -> bool {
        self.pattern_at(id) < self.patterns.len()
    }

    pub open spec fn pattern_of(self, id: u16) -> PatternModel {
        self.patterns[self.pattern_at(id)]
    }

    pub open spec fn with_pattern(self, id: u16, pattern: PatternModel) -> ProjectModel {
        ProjectModel { patterns: self.patterns.update(self.pattern_at(id), pattern), ..self }
    }

    pub open spec fn with_track(self, id: u16, track: Track) -> ProjectModel {
        ProjectModel { tracks: self.tracks.update(self.track_at(id), track), ..self }
    }

    /// Where the block of a pattern that covers a step is, or the end when none does.
    pub open spec fn block_at(self, pattern: u16, step: u32) -> int {
        first_where(self.song, covering(pattern, step))
    }

    pub open spec fn has_block(self, pattern: u16, step: u32) -> bool {
        self.block_at(pattern, step) < self.song.len()
    }

    pub open spec fn block(self, pattern: u16, step: u32) -> Placement {
        self.song[self.block_at(pattern, step)]
    }

    /// The block that asking for one puts down: as long as the pattern when no length is
    /// given, and no longer than a song can be.
    pub open spec fn new_block(self, pattern: u16, step: u32, length: u32) -> Placement {
        let steps = self.pattern_of(pattern).steps;
        let own = if steps < 1 { 1 } else { steps };
        let wanted = if length == 0 { own } else { length };
        Placement {
            step,
            pattern,
            length: if wanted > MAX_SONG_STEPS { MAX_SONG_STEPS as u32 } else { wanted },
        }
    }

    /// Whether there is a place for a block: its pattern is there, it ends inside the longest
    /// song, and the song is not full.
    pub open spec fn takes(self, pattern: u16, step: u32, length: u32) -> bool {
        &&& self.has_pattern(pattern)
        &&& self.new_block(pattern, step, length).stop() <= MAX_SONG_STEPS
        &&& self.song.len() < MAX_PLACEMENTS
    }

    /// The project with a block put down, taking the place of whatever of its own pattern it
    /// lands on.
    pub open spec fn with_block(self, block: Placement) -> ProjectModel {
        ProjectModel { song: ordered(self.song.filter(clear_of(block)).push(block)), ..self }
    }

    pub open spec fn placing(self, pattern: u16, step: u32, length: u32) -> (ProjectModel, bool) {
        if self.takes(pattern, step, length) {
            (self.with_block(self.new_block(pattern, step, length)), true)
        } else {
            (self, false)
        }
    }

    pub open spec fn unplacing(self, pattern: u16, step: u32) -> ProjectModel {
        ProjectModel { song: self.song.filter(not_starting(pattern, step)), ..self }
    }

    /// Take a block up and put one down elsewhere; if that will not go, put it back.
    pub open spec fn replacing(self, block: Placement, step: u32, length: u32) -> (ProjectModel, bool) {
        let lifted = self.unplacing(block.pattern, block.step);
        if lifted.takes(block.pattern, step, length) {
            (lifted.placing(block.pattern, step, length).0, true)
        } else {
            (lifted.placing(block.pattern, block.step, block.length).0, false)
        }
    }

    pub open spec fn moving(self, pattern: u16, from: u32, to: u32) -> (ProjectModel, bool) {
        if self.has_block(pattern, from) {
            let block = self.block(pattern, from);
            self.replacing(block, to, block.length)
        } else {
            (self, false)
        }
    }

    pub open spec fn resizing(self, pattern: u16, step: u32, length: u32) -> (ProjectModel, bool) {
        if self.has_block(pattern, step) {
            let block = self.block(pattern, step);
            self.replacing(block, block.step, if length < 1 { 1 } else { length })
        } else {
            (self, false)
        }
    }

    pub open spec fn without_bar(self, bar: u32) -> ProjectModel {
        ProjectModel { song: self.song.filter(outside_bar(bar)), ..self }
    }

    pub open spec fn without_track(self, id: u16) -> ProjectModel {
        ProjectModel {
            tracks: self.tracks.remove(self.track_at(id)),
            patterns: self.patterns.map_values(|p: PatternModel| p.without_track(id)),
            ..self
        }
    }

    pub open spec fn without_pattern(self, id: u16) -> ProjectModel {
        ProjectModel {
            patterns: self.patterns.remove(self.pattern_at(id)),
            song: self.song.filter(not_of(id)),
            ..self
        }
    }

    pub open spec fn names(self) -> Seq<Seq<char>> {
        self.patterns.map_values(|p: PatternModel| p.name)
    }

    /// A name is the next one for a pattern when it has the lowest number nothing is called yet.
    pub open spec fn next_name(self, name: Seq<char>) -> bool {
        exists|n: nat|
            n >= 1 && name == #[trigger] numbered_name(n) && !self.names().contains(name) && forall|
                m: nat,
            |
                1 <= m < n ==> self.names().contains(#[trigger] numbered_name(m))
    }

    /// The lowest engine slot no track has.
    pub open spec fn lowest_free_track(self, id: int) -> bool {
        &&& 0 <= id < MAX_TRACKS
        &&& !self.has_track(id as u16)
        &&& forall|k: u16| k < id ==> #[trigger] self.has_track(k)
    }

    pub open spec fn lowest_free_pattern(self, id: int) -> bool {
        &&& 0 <= id < MAX_PATTERNS
        &&& !self.has_pattern(id as u16)
        &&& forall|k: u16| k < id ==> #[trigger] self.has_pattern(k)
    }

    /// How long a pattern is, for a block that does not say.
    pub open spec fn own_length(self, pattern: u16) -> u32 {
        let steps = self.pattern_of(pattern).steps;
        if steps < 1 {
            1
        } else {
            steps
        }
    }

    /// The test for a block whose pattern is there.
    pub open spec fn known(self) -> spec_fn(Placement) -> bool {
        |p: Placement| self.has_pattern(p.pattern)
    }

    /// A block with its length filled in.
    pub open spec fn filled(self) -> spec_fn(Placement) -> Placement {
        |p: Placement|
            if p.length == 0 {
                Placement { length: self.own_length(p.pattern), ..p }
            } else {
                p
            }
    }

    /// The project put right: blocks of patterns that are gone thrown away, lengths that were
    /// never written filled in, the song in order with nothing twice, the old mark of an
    /// instrument carried into every pattern, and notes cut to their patterns.
    pub open spec fn repaired(self) -> ProjectModel {
        ProjectModel {
            tracks: self.tracks.map_values(unmarked()),
            patterns: self.patterns.map_values(marked_with(old_instruments(self.tracks))).map_values(
                fitted(),
            ),
            song: without_repeats(ordered(self.song.filter(self.known()).map_values(self.filled()))),
            ..self
        }
    }
}

/// Sorting the song gives the song in order.
proof fn lemma_sorted_song(song: Seq<Placement>, loose: Seq<Placement>)
    requires
        crate::seqs::in_order(song),
        song.to_multiset() == loose.to_multiset(),
    ensures
        song == ordered(loose),
{
    song_order();
    loose.lemma_sort_by_ensures(by_rank::<Placement>());
    vstd::seq_lib::lemma_sorted_unique(song, ordered(loose), by_rank::<Placement>());
}

impl Project {
    /// A new project: one empty pattern, no instruments, nothing in the song.
    pub open spec fn fresh() -> ProjectModel {
        ProjectModel {
            version: PROJECT_VERSION,
            bpm: Single { bits: DEFAULT_BPM },
            master_gain: Single { bits: DEFAULT_MASTER_GAIN },
            tracks: Seq::empty(),
            patterns: seq![
                PatternModel {
                    id: 0,
                    name: "Pattern 1"@,
                    steps: DEFAULT_STEPS,
                    colour: None,
                    pitched: Seq::empty(),
                    lanes: Seq::empty(),
                },
            ],
            song: Seq::empty(),
        }
    }

    fn track_position(&self, id: u16) -> (r: Option<usize>)
        ensures
            match r {
                Some(i) => self@.has_track(id) && i == self@.track_at(id),
                None => self@.track_at(id) == self.tracks@.len(),
            },
    {
        let n: usize = self.tracks.len();
        let mut i: usize = 0;
        while i < n
            invariant
                i <= n == self.tracks@.len(),
                forall|j: int| 0 <= j < i ==> !track_called(id)(#[trigger] self.tracks@[j]),
            decreases n - i,
        {
            if self.tracks[i].id == id {
                proof {
                    lemma_first_where(self.tracks@, track_called(id), i as int);
                }
                return Some(i);
            }
            i = i + 1;
        }
        proof {
            lemma_first_where(self.tracks@, track_called(id), n as int);
        }
        None
    }

    pub fn track(&self, id: u16) -> (r: Option<&Track>)
        ensures
            match r {
                Some(t) => self@.has_track(id) && *t == self@.tracks[self@.track_at(id)],
                None => !self@.has_track(id),
            },
    {
        match self.track_position(id) {
            Some(i) => Some(&self.tracks[i]),
            None => None,
        }
    }

    pub fn track_mut(&mut self, id: u16) -> (r: Option<&mut Track>)
        ensures
            match r {
                Some(t) => {
                    &&& old(self)@.has_track(id)
                    &&& *t == old(self)@.tracks[old(self)@.track_at(id)]
                    &&& final(self)@ == old(self)@.with_track(id, *final(t))
                },
                None => !old(self)@.has_track(id) && final(self)@ == old(self)@,
            },
    {
        match self.track_position(id) {
            Some(i) => {
                proof {
                    lemma_first_where_bounds(self@.tracks, track_called(id));
                }
                Some(&mut self.tracks[i])
            },
            None => None,
        }
    }

    /// Lowest free engine slot, or `None` when every slot is taken.
    pub fn free_track_id(&self) -> (r: Option<u16>)
        ensures
            match r {
                Some(id) => self@.lowest_free_track(id as int),
                None => forall|k: u16| k < MAX_TRACKS ==> #[trigger] self@.has_track(k),
            },
    {
        let mut id: u16 = 0;
        while id < MAX_TRACKS as u16
            invariant
                id <= MAX_TRACKS,
                forall|k: u16| k < id ==> #[trigger] self@.has_track(k),
            decreases MAX_TRACKS - id,
        {
            if self.track(id).is_none() {
                return Some(id);
            }
            id = id + 1;
        }
        None
    }

    /// True while any track is soloed, which is when mutes stop mattering.
    pub fn any_soloed(&self) -> (r: bool)
        ensures
            r == exists|i: int| 0 <= i < self@.tracks.len() && (#[trigger] self@.tracks[i]).soloed,
    {
        let n: usize = self.tracks.len();
        let mut i: usize = 0;
        while i < n
            invariant
                i <= n == self.tracks@.len(),
                forall|j: int| 0 <= j < i ==> !(#[trigger] self.tracks@[j]).soloed,
            decreases n - i,
        {
            if self.tracks[i].soloed {
                return true;
            }
            i = i + 1;
        }
        false
    }

    /// Delete a track, and with it every note anyone had drawn for it.
    pub fn remove_track(&mut self, id: u16) -> (r: Option<Track>)
        ensures
            match r {
                Some(t) => {
                    &&& old(self)@.has_track(id)
                    &&& t == old(self)@.tracks[old(self)@.track_at(id)]
                    &&& final(self)@ == old(self)@.without_track(id)
                },
                None => !old(self)@.has_track(id) && final(self)@ == old(self)@,
            },
    {
        let at: usize = match self.track_position(id) {
            Some(i) => i,
            None => {
                return None;
            },
        };
        let n: usize = self.patterns.len();
        let mut i: usize = 0;
        while i < n
            invariant
                i <= n == self.patterns@.len() == old(self).patterns@.len(),
                self.version == old(self).version,
                self.bpm == old(self).bpm,
                self.master_gain == old(self).master_gain,
                self.tracks == old(self).tracks,
                self.song == old(self).song,
                forall|k: int|
                    0 <= k < i ==> (#[trigger] self.patterns@[k])@
                        == old(self).patterns@[k]@.without_track(id),
                forall|k: int| i <= k < n ==> #[trigger] self.patterns@[k] == old(self).patterns@[k],
            decreases n - i,
        {
            self.patterns[i].forget_track(id);
            i = i + 1;
        }
        proof {
            let forget = |p: PatternModel| p.without_track(id);
            assert(self@.patterns =~= old(self)@.patterns.map_values(forget));
            lemma_first_where_bounds(self@.tracks, track_called(id));
        }
        Some(self.tracks.remove(at))
    }

    /// How many tracks play a sample file. Zero means the project folder can let go of it.
    pub fn sample_users(&self, path: &str) -> (count: usize)
        ensures
            count == self@.tracks.filter(plays_from(path@)).len(),
    {
        let wanted: String = path.to_owned();
        let mut count: usize = 0;
        let n: usize = self.tracks.len();
        let mut i: usize = 0;
        proof {
            reveal(Seq::filter);
            assert(self.tracks@.take(0) =~= Seq::empty());
        }
        while i < n
            invariant
                i <= n == self.tracks@.len(),
                wanted@ == path@,
                count <= i,
                count == self.tracks@.take(i as int).filter(plays_from(path@)).len(),
            decreases n - i,
        {
            proof {
                reveal(Seq::filter);
                assert(self.tracks@.take(i as int + 1).drop_last() =~= self.tracks@.take(i as int));
                assert(self.tracks@.take(i as int + 1).last() == self.tracks@[i as int]);
            }
            match &self.tracks[i].sample {
                Some(s) => {
                    if s.path == wanted {
                        count = count + 1;
                    }
                },
                None => {},
            }
            i = i + 1;
        }
        proof {
            assert(self.tracks@.take(n as int) =~= self.tracks@);
        }
        count
    }

    pub(crate) fn pattern_position(&self, id: u16) -> (r: Option<usize>)
        ensures
            match r {
                Some(i) => self@.has_pattern(id) && i == self@.pattern_at(id) && i
                    < self.patterns@.len(),
                None => self@.pattern_at(id) == self.patterns@.len(),
            },
    {
        let n: usize = self.patterns.len();
        let mut i: usize = 0;
        while i < n
            invariant
                i <= n == self.patterns@.len(),
                forall|j: int| 0 <= j < i ==> !pattern_called(id)(#[trigger] self@.patterns[j]),
            decreases n - i,
        {
            if self.patterns[i].id == id {
                proof {
                    lemma_first_where(self@.patterns, pattern_called(id), i as int);
                }
                return Some(i);
            }
            i = i + 1;
        }
        proof {
            lemma_first_where(self@.patterns, pattern_called(id), n as int);
        }
        None
    }

    pub fn pattern(&self, id: u16) -> (r: Option<&Pattern>)
        ensures
            match r {
                Some(p) => self@.has_pattern(id) && p@ == self@.pattern_of(id),
                None => !self@.has_pattern(id),
            },
    {
        match self.pattern_position(id) {
            Some(i) => Some(&self.patterns[i]),
            None => None,
        }
    }

    pub fn pattern_mut(&mut self, id: u16) -> (r: Option<&mut Pattern>)
        ensures
            match r {
                Some(p) => {
                    &&& old(self)@.has_pattern(id)
                    &&& p@ == old(self)@.pattern_of(id)
                    &&& final(self)@ == old(self)@.with_pattern(id, final(p)@)
                },
                None => !old(self)@.has_pattern(id) && final(self)@ == old(self)@,
            },
    {
        match self.pattern_position(id) {
            Some(i) => {
                proof {
                    let before = self.patterns@;
                    let was = self@;
                    lemma_first_where_bounds(was.patterns, pattern_called(id));
                    assert forall|p: Pattern|
                        (#[trigger] before.update(i as int, p)).map_values(pattern_view())
                            =~= was.with_pattern(id, p@).patterns by {}
                }
                Some(&mut self.patterns[i])
            },
            None => None,
        }
    }

    pub fn free_pattern_id(&self) -> (r: Option<u16>)
        ensures
            match r {
                Some(id) => self@.lowest_free_pattern(id as int),
                None => forall|k: u16| k < MAX_PATTERNS ==> #[trigger] self@.has_pattern(k),
            },
    {
        let mut id: u16 = 0;
        while id < MAX_PATTERNS as u16
            invariant
                id <= MAX_PATTERNS,
                forall|k: u16| k < id ==> #[trigger] self@.has_pattern(k),
            decreases MAX_PATTERNS - id,
        {
            if self.pattern(id).is_none() {
                return Some(id);
            }
            id = id + 1;
        }
        None
    }

    fn has_name(&self, name: &String) -> (r: bool)
        ensures
            r == self@.names().contains(name@),
    {
        let n: usize = self.patterns.len();
        let mut i: usize = 0;
        while i < n
            invariant
                i <= n == self.patterns@.len(),
                forall|j: int| 0 <= j < i ==> #[trigger] self@.names()[j] != name@,
            decreases n - i,
        {
            if self.patterns[i].name == *name {
                proof {
                    assert(self@.names()[i as int] == name@);
                }
                return true;
            }
            i = i + 1;
        }
        false
    }

    /// "Pattern 4", where 4 is the lowest number nothing is called yet. Numbering by
    /// position would rename other people's patterns behind their back.
    pub fn next_pattern_name(&self) -> (name: String)
        ensures
            self@.next_name(name@),
    {
        let mut n: u128 = 1;
        let count: usize = self.patterns.len();
        loop
            invariant
                count == self.patterns@.len(),
                1 <= n <= self.patterns@.len() + 1,
                forall|m: nat| 1 <= m < n ==> self@.names().contains(#[trigger] numbered_name(m)),
            decreases self.patterns@.len() + 2 - n,
        {
            let mut name: String = "Pattern ".to_owned();
            append_number(&mut name, n);
            assert(name@ =~= numbered_name(n as nat));
            if !self.has_name(&name) {
                return name;
            }
            proof {
                lemma_names_run_out(self@.names(), n as nat);
            }
            n = n + 1;
        }
    }

    /// Add an empty pattern. `None` when the engine has no slot left for one.
    pub fn add_pattern(&mut self) -> (r: Option<u16>)
        ensures
            match r {
                Some(id) => {
                    &&& old(self)@.lowest_free_pattern(id as int)
                    &&& exists|name: Seq<char>| #[trigger]
                        old(self)@.next_name(name) && final(self)@ == (ProjectModel {
                            patterns: old(self)@.patterns.push(
                                PatternModel {
                                    id,
                                    name,
                                    steps: DEFAULT_STEPS,
                                    colour: None,
                                    pitched: Seq::empty(),
                                    lanes: Seq::empty(),
                                },
                            ),
                            ..old(self)@
                        })
                },
                None => {
                    &&& forall|k: u16| k < MAX_PATTERNS ==> #[trigger] old(self)@.has_pattern(k)
                    &&& final(self)@ == old(self)@
                },
            },
    {
        let id: u16 = match self.free_pattern_id() {
            Some(id) => id,
            None => {
                return None;
            },
        };
        let name = self.next_pattern_name();
        let ghost chosen = name@;
        self.patterns.push(Pattern::new(id, name));
        proof {
            assert(self@.patterns =~= old(self)@.patterns.push(
                PatternModel {
                    id,
                    name: chosen,
                    steps: DEFAULT_STEPS,
                    colour: None,
                    pitched: Seq::empty(),
                    lanes: Seq::empty(),
                },
            ));
            assert(old(self)@.next_name(chosen));
        }
        Some(id)
    }

    /// Copy a pattern, notes and all, and put the copy after it in the list.
    pub fn duplicate_pattern(&mut self, id: u16) -> (r: Option<u16>)
        ensures
            match r {
                Some(new_id) => {
                    &&& old(self)@.lowest_free_pattern(new_id as int)
                    &&& old(self)@.has_pattern(id)
                    &&& exists|name: Seq<char>| #[trigger]
                        old(self)@.next_name(name) && final(self)@ == (ProjectModel {
                            patterns: old(self)@.patterns.insert(
                                old(self)@.pattern_at(id) + 1,
                                PatternModel { id: new_id, name, ..old(self)@.pattern_of(id) },
                            ),
                            ..old(self)@
                        })
                },
                None => {
                    &&& !old(self)@.has_pattern(id) || forall|k: u16|
                        k < MAX_PATTERNS ==> #[trigger] old(self)@.has_pattern(k)
                    &&& final(self)@ == old(self)@
                },
            },
    {
        let new_id: u16 = match self.free_pattern_id() {
            Some(new_id) => new_id,
            None => {
                return None;
            },
        };
        let at: usize = match self.pattern_position(id) {
            Some(at) => at,
            None => {
                return None;
            },
        };
        let name = self.next_pattern_name();
        let ghost chosen = name@;
        let count: usize = self.patterns.len();
        let mut copy: Pattern = self.patterns[at].copy();
        copy.id = new_id;
        copy.name = name;
        self.patterns.insert(at + 1, copy);
        proof {
            assert(self@.patterns =~= old(self)@.patterns.insert(
                old(self)@.pattern_at(id) + 1,
                PatternModel { id: new_id, name: chosen, ..old(self)@.pattern_of(id) },
            ));
            assert(old(self)@.next_name(chosen));
        }
        Some(new_id)
    }

    /// Delete a pattern and take it out of the song. Refuses to delete the last one: an
    /// editor with nothing to edit is a dead end.
    pub fn remove_pattern(&mut self, id: u16) -> (gone: bool)
        ensures
            gone == (old(self)@.patterns.len() > 1 && old(self)@.has_pattern(id)),
            final(self)@ == (if gone {
                old(self)@.without_pattern(id)
            } else {
                old(self)@
            }),
    {
        if self.patterns.len() <= 1 {
            return false;
        }
        let at: usize = match self.pattern_position(id) {
            Some(at) => at,
            None => {
                return false;
            },
        };
        self.patterns.remove(at);
        let keep = |p: &Placement| -> (r: bool)
            ensures
                r == (p.pattern != id),
            { p.pattern != id };
        retain(&mut self.song, keep, Ghost(not_of(id)));
        proof {
            lemma_first_where_bounds(old(self)@.patterns, pattern_called(id));
            assert(self@.patterns =~= old(self)@.without_pattern(id).patterns);
        }
        true
    }

    /// The placement of a pattern that covers a step, if any. What the song view hit tests
    /// against: the block itself, wherever it was put.
    pub fn placement_at(&self, pattern: u16, step: u32) -> (r: Option<Placement>)
        ensures
            match r {
                Some(p) => self@.has_block(pattern, step) && p == self@.block(pattern, step)
                    && p.pattern == pattern && p.spans(step as int),
                None => !self@.has_block(pattern, step),
            },
    {
        let n: usize = self.song.len();
        let mut i: usize = 0;
        while i < n
            invariant
                i <= n == self.song@.len(),
                forall|j: int| 0 <= j < i ==> !covering(pattern, step)(#[trigger] self.song@[j]),
            decreases n - i,
        {
            if self.song[i].pattern == pattern && self.song[i].covers(step) {
                proof {
                    lemma_first_where(self.song@, covering(pattern, step), i as int);
                }
                return Some(self.song[i]);
            }
            i = i + 1;
        }
        proof {
            lemma_first_where(self.song@, covering(pattern, step), n as int);
        }
        None
    }

    /// True if this pattern starts exactly here.
    pub fn placed(&self, pattern: u16, step: u32) -> (r: bool)
        ensures
            r == exists|i: int|
                0 <= i < self@.song.len() && (#[trigger] self@.song[i]).pattern == pattern
                    && self@.song[i].step == step,
    {
        let n: usize = self.song.len();
        let mut i: usize = 0;
        while i < n
            invariant
                i <= n == self.song@.len(),
                forall|j: int|
                    0 <= j < i ==> !((#[trigger] self.song@[j]).pattern == pattern
                        && self.song@[j].step == step),
            decreases n - i,
        {
            if self.song[i].pattern == pattern && self.song[i].step == step {
                assert(self@.song[i as int].pattern == pattern);
                return true;
            }
            i = i + 1;
        }
        false
    }

    /// Put a pattern in the song. `length` of zero means "as long as the pattern is".
    ///
    /// Anything of the same pattern it lands on top of makes way for it, the way dropping a
    /// thing on a thing works everywhere else.
    pub fn place(&mut self, pattern: u16, step: u32, length: u32) -> (ok: bool)
        ensures
            (final(self)@, ok) == old(self)@.placing(pattern, step, length),
    {
        let steps: u32 = match self.pattern(pattern) {
            Some(p) => if p.steps < 1 {
                1
            } else {
                p.steps
            },
            None => {
                return false;
            },
        };
        let wanted: u32 = if length == 0 {
            steps
        } else {
            length
        };
        let placed = Placement {
            step,
            pattern,
            length: if wanted > MAX_SONG_STEPS as u32 {
                MAX_SONG_STEPS as u32
            } else {
                wanted
            },
        };
        assert(placed == self@.new_block(pattern, step, length));
        if !placed.ends_by(MAX_SONG_STEPS as u32) || self.song.len() >= MAX_PLACEMENTS {
            return false;
        }
        let keep = |p: &Placement| -> (r: bool)
            ensures
                r == (p.pattern != pattern || !p.meets(placed)),
            { p.pattern != pattern || !p.overlaps(&placed) };
        retain(&mut self.song, keep, Ghost(clear_of(placed)));
        self.song.push(placed);
        let ghost loose = self.song@;
        sort(&mut self.song);
        proof {
            lemma_sorted_song(self.song@, loose);
        }
        true
    }

    /// Take out the placement of a pattern that starts here.
    pub fn unplace(&mut self, pattern: u16, step: u32) -> (gone: bool)
        ensures
            final(self)@ == old(self)@.unplacing(pattern, step),
            gone == (final(self)@.song.len() != old(self)@.song.len()),
    {
        let before: usize = self.song.len();
        let keep = |p: &Placement| -> (r: bool)
            ensures
                r == !(p.pattern == pattern && p.step == step),
            { !(p.pattern == pattern && p.step == step) };
        retain(&mut self.song, keep, Ghost(not_starting(pattern, step)));
        before != self.song.len()
    }

    /// Slide a placement along. Keeps how long it is, and takes out anything of the same
    /// pattern it lands on.
    pub fn move_placement(&mut self, pattern: u16, from: u32, to: u32) -> (ok: bool)
        ensures
            (final(self)@, ok) == old(self)@.moving(pattern, from, to),
    {
        let one: Placement = match self.placement_at(pattern, from) {
            Some(one) => one,
            None => {
                return false;
            },
        };
        self.unplace(pattern, one.step);
        if !self.place(pattern, to, one.length) {
            // Would not fit, so put it back where it was rather than losing it.
            self.place(pattern, one.step, one.length);
            return false;
        }
        true
    }

    /// Change how much song a placement fills. One step is the least it can be.
    pub fn resize_placement(&mut self, pattern: u16, step: u32, length: u32) -> (ok: bool)
        ensures
            (final(self)@, ok) == old(self)@.resizing(pattern, step, length),
    {
        let one: Placement = match self.placement_at(pattern, step) {
            Some(one) => one,
            None => {
                return false;
            },
        };
        self.unplace(pattern, one.step);
        let wanted: u32 = if length < 1 {
            1
        } else {
            length
        };
        if !self.place(pattern, one.step, wanted) {
            self.place(pattern, one.step, one.length);
            return false;
        }
        true
    }

    /// Everything that starts inside a bar, gone. What right clicking a bar does. Returns how
    /// many blocks went.
    pub fn clear_bar(&mut self, bar: u32) -> (gone: usize)
        requires
            (bar + 1) * STEPS_PER_BAR <= u32::MAX,
        ensures
            final(self)@ == old(self)@.without_bar(bar),
            gone == old(self)@.song.len() - final(self)@.song.len(),
    {
        let from: u32 = bar * STEPS_PER_BAR;
        let to: u32 = from + STEPS_PER_BAR;
        let before: usize = self.song.len();
        let keep = |p: &Placement| -> (r: bool)
            ensures
                r == (p.step < from || p.step >= to),
            { p.step < from || p.step >= to };
        retain(&mut self.song, keep, Ghost(outside_bar(bar)));
        proof {
            old(self).song@.lemma_filter_len(outside_bar(bar));
        }
        before - self.song.len()
    }

    fn last_step(&self) -> (r: u32)
        requires
            song_end(self@.song) <= u32::MAX,
        ensures
            r == song_end(self@.song),
    {
        let mut end: u32 = 0;
        let n: usize = self.song.len();
        let mut i: usize = 0;
        proof {
            assert(self.song@.take(0) =~= Seq::empty());
        }
        while i < n
            invariant
                i <= n == self.song@.len(),
                song_end(self@.song) <= u32::MAX,
                end == song_end(self.song@.take(i as int)),
            decreases n - i,
        {
            proof {
                lemma_song_end(self.song@, i as int);
                assert(self.song@.take(i as int + 1).drop_last() =~= self.song@.take(i as int));
                assert(self.song@.take(i as int + 1).last() == self.song@[i as int]);
            }
            let one: u32 = self.song[i].end();
            if one > end {
                end = one;
            }
            i = i + 1;
        }
        proof {
            assert(self.song@.take(n as int) =~= self.song@);
        }
        end
    }

    /// Where the song ends, rounded up to a whole bar so it loops somewhere musical.
    pub fn song_steps(&self) -> (r: u32)
        requires
            whole_bars(song_end(self@.song)) <= u32::MAX,
        ensures
            r == whole_bars(song_end(self@.song)),
    {
        let end: u32 = self.last_step();
        let bars: u32 = end / STEPS_PER_BAR + (if end % STEPS_PER_BAR == 0 {
            0
        } else {
            1u32
        });
        bars * STEPS_PER_BAR
    }

    pub fn song_bars(&self) -> (r: u32)
        requires
            whole_bars(song_end(self@.song)) <= u32::MAX,
        ensures
            r * STEPS_PER_BAR == whole_bars(song_end(self@.song)),
    {
        self.song_steps() / STEPS_PER_BAR
    }

    /// Change a pattern's length. Its places in the song stay where they are and stay as long
    /// as they are: a block is its own length once it is down.
    pub fn set_pattern_steps(&mut self, id: u16, steps: u32) -> (r: u32)
        ensures
            old(self)@.has_pattern(id) ==> r == crate::pattern::playable(steps) && final(self)@
                == old(self)@.with_pattern(id, old(self)@.pattern_of(id).with_steps(steps)),
            !old(self)@.has_pattern(id) ==> r == 0 && final(self)@ == old(self)@,
    {
        match self.pattern_mut(id) {
            Some(pattern) => pattern.set_steps(steps),
            None => 0,
        }
    }

    /// The song with unknown patterns thrown away, missing lengths filled in, in order, and
    /// nothing twice.
    fn mend_song(&mut self)
        ensures
            final(self)@ == (ProjectModel {
                song: without_repeats(
                    ordered(
                        old(self)@.song.filter(old(self)@.known()).map_values(old(self)@.filled()),
                    ),
                ),
                ..old(self)@
            }),
    {
        let ghost was = self@;
        let mut kept: Vec<Placement> = Vec::new();
        let n: usize = self.song.len();
        let mut i: usize = 0;
        proof {
            reveal(Seq::filter);
            assert(was.song.take(0) =~= Seq::empty());
            assert(kept@ =~= was.song.take(0).filter(was.known()).map_values(was.filled()));
        }
        while i < n
            invariant
                i <= n == self.song@.len(),
                self@ == was,
                kept@ == was.song.take(i as int).filter(was.known()).map_values(was.filled()),
            decreases n - i,
        {
            let one: Placement = self.song[i];
            proof {
                reveal(Seq::filter);
                let upto = was.song.take(i as int + 1);
                assert(upto.drop_last() =~= was.song.take(i as int));
                assert(upto.last() == one);
            }
            match self.pattern(one.pattern) {
                Some(found) => {
                    let length: u32 = if one.length == 0 {
                        if found.steps < 1 {
                            1
                        } else {
                            found.steps
                        }
                    } else {
                        one.length
                    };
                    let whole = Placement { length, ..one };
                    assert(whole == was.filled()(one));
                    kept.push(whole);
                    assert(kept@ =~= was.song.take(i as int + 1).filter(was.known()).map_values(
                        was.filled(),
                    ));
                },
                None => {},
            }
            i = i + 1;
        }
        assert(was.song.take(n as int) =~= was.song);
        let ghost loose = kept@;
        sort(&mut kept);
        proof {
            lemma_sorted_song(kept@, loose);
        }
        self.song = drop_repeats(&kept);
    }

    /// Carry the old mark of an instrument into every pattern, and clear it.
    fn mark_instruments(&mut self)
        ensures
            final(self)@ == (ProjectModel {
                tracks: old(self)@.tracks.map_values(unmarked()),
                patterns: old(self)@.patterns.map_values(
                    marked_with(old_instruments(old(self)@.tracks)),
                ),
                ..old(self)@
            }),
    {
        let ghost was = *self;
        let mut found: Vec<u16> = Vec::new();
        let tracks: usize = self.tracks.len();
        let mut i: usize = 0;
        proof {
            assert(was.tracks@.take(0) =~= Seq::empty());
            assert(found@ =~= old_instruments(was.tracks@.take(0)));
        }
        while i < tracks
            invariant
                i <= tracks == self.tracks@.len() == was.tracks@.len(),
                self.version == was.version,
                self.bpm == was.bpm,
                self.master_gain == was.master_gain,
                self.song == was.song,
                self.patterns == was.patterns,
                found@ == old_instruments(was.tracks@.take(i as int)),
                forall|k: int|
                    0 <= k < i ==> #[trigger] self.tracks@[k] == unmarked()(was.tracks@[k]),
                forall|k: int| i <= k < tracks ==> #[trigger] self.tracks@[k] == was.tracks@[k],
            decreases tracks - i,
        {
            proof {
                let upto = was.tracks@.take(i as int + 1);
                assert(upto.drop_last() =~= was.tracks@.take(i as int));
                assert(upto.last() == was.tracks@[i as int]);
            }
            if self.tracks[i].pitched {
                found.push(self.tracks[i].id);
                self.tracks[i].pitched = false;
            }
            assert(self.tracks@[i as int] == unmarked()(was.tracks@[i as int]));
            i = i + 1;
        }
        proof {
            assert(was.tracks@.take(tracks as int) =~= was.tracks@);
            assert(self.tracks@ =~= was.tracks@.map_values(unmarked()));
        }
        let patterns: usize = self.patterns.len();
        let mut k: usize = 0;
        while k < patterns
            invariant
                k <= patterns == self.patterns@.len() == was.patterns@.len(),
                self.version == was.version,
                self.bpm == was.bpm,
                self.master_gain == was.master_gain,
                self.song == was.song,
                self.tracks@ == was.tracks@.map_values(unmarked()),
                found@ == old_instruments(was.tracks@),
                forall|j: int|
                    0 <= j < k ==> (#[trigger] self.patterns@[j])@ == marked(
                        was.patterns@[j]@,
                        found@,
                    ),
                forall|j: int| k <= j < patterns ==> #[trigger] self.patterns@[j] == was.patterns@[j],
            decreases patterns - k,
        {
            mark_all(&mut self.patterns[k], &found);
            k = k + 1;
        }
        assert(self@.patterns =~= was@.patterns.map_values(
            marked_with(old_instruments(was@.tracks)),
        ));
    }

    fn fit_patterns(&mut self)
        ensures
            final(self)@ == (ProjectModel {
                patterns: old(self)@.patterns.map_values(fitted()),
                ..old(self)@
            }),
    {
        let ghost was = *self;
        let n: usize = self.patterns.len();
        let mut i: usize = 0;
        while i < n
            invariant
                i <= n == self.patterns@.len() == was.patterns@.len(),
                self.version == was.version,
                self.bpm == was.bpm,
                self.master_gain == was.master_gain,
                self.song == was.song,
                self.tracks == was.tracks,
                forall|j: int|
                    0 <= j < i ==> (#[trigger] self.patterns@[j])@ == was.patterns@[j]@.fitted(),
                forall|j: int| i <= j < n ==> #[trigger] self.patterns@[j] == was.patterns@[j],
            decreases n - i,
        {
            self.patterns[i].fit();
            i = i + 1;
        }
        assert(self@.patterns =~= was@.patterns.map_values(fitted()));
    }

    /// Put right anything a project from elsewhere could have wrong with it. Returns how many
    /// placements had to be thrown away.
    ///
    /// Not called on projects we made ourselves, which cannot get into these states. Repairing
    /// never *moves* anything: a placement is wherever it was put, and the song goes off the
    /// bar grid on purpose.
    pub fn repair(&mut self) -> (thrown: usize)
        ensures
            final(self)@ == old(self)@.repaired(),
            thrown == old(self)@.song.len() - final(self)@.song.len(),
    {
        let before: usize = self.song.len();
        self.mend_song();
        self.mark_instruments();
        self.fit_patterns();
        proof {
            let was = old(self)@;
            let kept = was.song.filter(was.known()).map_values(was.filled());
            was.song.lemma_filter_len(was.known());
            lemma_ordered(kept);
            lemma_repeats(ordered(kept));
            assert(self@ =~= was.repaired());
        }
        before - self.song.len()
    }

    /// A copy of the project, equal in every part.
    pub fn copy(&self) -> (r: Self)
        ensures
            r@ == self@,
    {
        let mut tracks: Vec<Track> = Vec::new();
        let mut patterns: Vec<Pattern> = Vec::new();
        let mut song: Vec<Placement> = Vec::new();
        let mut i: usize = 0;
        while i < self.tracks.len()
            invariant
                i <= self.tracks@.len(),
                tracks@ == self.tracks@.take(i as int),
            decreases self.tracks@.len() - i,
        {
            tracks.push(self.tracks[i].clone());
            i = i + 1;
            assert(tracks@ =~= self.tracks@.take(i as int));
        }
        let mut j: usize = 0;
        while j < self.patterns.len()
            invariant
                j <= self.patterns@.len(),
                patterns@.len() == j,
                forall|k: int| 0 <= k < j ==> (#[trigger] patterns@[k])@ == self.patterns@[k]@,
            decreases self.patterns@.len() - j,
        {
            patterns.push(self.patterns[j].copy());
            j = j + 1;
        }
        let mut k: usize = 0;
        while k < self.song.len()
            invariant
                k <= self.song@.len(),
                song@ == self.song@.take(k as int),
            decreases self.song@.len() - k,
        {
            song.push(self.song[k]);
            k = k + 1;
            assert(song@ =~= self.song@.take(k as int));
        }
        assert(tracks@ =~= self.tracks@);
        assert(song@ =~= self.song@);
        assert(patterns@.map_values(pattern_view()) =~= self@.patterns);
        Project {
            version: self.version,
            bpm: self.bpm,
            master_gain: self.master_gain,
            tracks,
            patterns,
            song,
        }
    }
}

impl Clone for Project {
    fn clone(&self) -> (r: Self)
        ensures
            r@ == self@,
    {
        self.copy()
    }
}

impl Default for Project {
    fn default() -> (r: Self)
        ensures
            r@ == Project::fresh(),
    {
        let mut patterns: Vec<Pattern> = Vec::new();
        patterns.push(Pattern::new(0, "Pattern 1".to_owned()));
        let r = Project {
            version: PROJECT_VERSION,
            bpm: Single { bits: DEFAULT_BPM },
            master_gain: Single { bits: DEFAULT_MASTER_GAIN },
            tracks: Vec::new(),
            patterns,
            song: Vec::new(),
        };
        assert(r@ =~= Project::fresh());
        r
    }
}

fn mark_all(pattern: &mut Pattern, tracks: &Vec<u16>)
    ensures
        final(pattern)@ == marked(old(pattern)@, tracks@),
{
    let mut i: usize = 0;
    assert(tracks@.take(0) =~= Seq::empty());
    while i < tracks.len()
        invariant
            i <= tracks@.len(),
            pattern@ == marked(old(pattern)@, tracks@.take(i as int)),
        decreases tracks@.len() - i,
    {
        proof {
            let upto = tracks@.take(i as int + 1);
            assert(upto.drop_last() =~= tracks@.take(i as int));
            assert(upto.last() == tracks@[i as int]);
        }
        pattern.set_pitched(tracks[i], true);
        i = i + 1;
    }
    assert(tracks@.take(tracks@.len() as int) =~= tracks@);
}

fn drop_repeats(song: &Vec<Placement>) -> (r: Vec<Placement>)
    ensures
        r@ == without_repeats(song@),
{
    let mut kept: Vec<Placement> = Vec::new();
    let mut i: usize = 0;
    assert(kept@ =~= without_repeats(song@.take(0)));
    while i < song.len()
        invariant
            i <= song@.len(),
            kept@ == without_repeats(song@.take(i as int)),
        decreases song@.len() - i,
    {
        proof {
            let upto = song@.take(i as int + 1);
            assert(upto.drop_last() =~= song@.take(i as int));
            assert(upto.last() == song@[i as int]);
            if i == 0 {
                assert(song@.take(0) =~= Seq::empty());
                assert(upto =~= seq![song@[0]]);
            } else {
                assert(upto[upto.len() - 2] == song@[i as int - 1]);
            }
        }
        if i == 0 || song[i] != song[i - 1] {
            kept.push(song[i]);
        }
        assert(kept@ =~= without_repeats(song@.take(i as int + 1)));
        i = i + 1;
    }
    assert(song@.take(song@.len() as int) =~= song@);
    kept
}

/// Ordering the song loses nothing and adds nothing.
pub proof fn lemma_ordered(song: Seq<Placement>)
    ensures
        ordered(song).len() == song.len(),
        ordered(song).to_multiset() == song.to_multiset(),
        vstd::relations::sorted_by(ordered(song), by_rank::<Placement>()),
        forall|p: Placement| #[trigger] ordered(song).contains(p) <==> song.contains(p),
{
    song_order();
    song.lemma_sort_by_ensures(by_rank::<Placement>());
    broadcast use vstd::seq_lib::group_to_multiset_ensures;

    assert(ordered(song).to_multiset().len() == song.to_multiset().len());
    assert forall|p: Placement| #[trigger] ordered(song).contains(p) <==> song.contains(p) by {
        assert(ordered(song).to_multiset().count(p) == song.to_multiset().count(p));
    }
}

/// Leaving out repeats loses no block altogether.
pub proof fn lemma_repeats(song: Seq<Placement>)
    ensures
        without_repeats(song).len() <= song.len(),
        forall|p: Placement| #[trigger] without_repeats(song).contains(p) <==> song.contains(p),
        song.len() > 0 ==> without_repeats(song).len() > 0 && without_repeats(song).last()
            == song.last(),
    decreases song.len(),
{
    if song.len() > 1 {
        let front = song.drop_last();
        let kept = without_repeats(front);
        lemma_repeats(front);
        assert(front.last() == song[song.len() - 2]);
        assert forall|p: Placement| #[trigger] without_repeats(song).contains(p) <==> song.contains(p) by {
            if song.contains(p) {
                let i = choose|i: int| 0 <= i < song.len() && song[i] == p;
                if i < song.len() - 1 {
                    assert(front[i] == p);
                    assert(kept.contains(p));
                    let j = choose|j: int| 0 <= j < kept.len() && kept[j] == p;
                    assert(without_repeats(song)[j] == p);
                } else if song.last() == song[song.len() - 2] {
                    assert(front[front.len() - 1] == p);
                    assert(kept.contains(p));
                } else {
                    assert(without_repeats(song)[kept.len() as int] == p);
                }
            }
            if without_repeats(song).contains(p) {
                let j = choose|j: int| 0 <= j < without_repeats(song).len() && without_repeats(song)[j] == p;
                if j < kept.len() {
                    assert(kept[j] == p);
                    assert(kept.contains(p));
                    assert(front.contains(p));
                    let i = choose|i: int| 0 <= i < front.len() && front[i] == p;
                    assert(song[i] == p);
                } else {
                    assert(song[song.len() - 1] == p);
                }
            }
        }
    }
}

/// The song ends no sooner than any block in it does.
pub proof fn lemma_song_end(song: Seq<Placement>, i: int)
    requires
        0 <= i < song.len(),
    ensures
        song[i].stop() <= song_end(song),
        0 <= song_end(song.take(i)) <= song_end(song),
    decreases song.len(),
{
    if i < song.len() - 1 {
        lemma_song_end(song.drop_last(), i);
        assert(song.drop_last().take(i) =~= song.take(i));
        assert(song.drop_last()[i] == song[i]);
    } else {
        assert(song.take(i) =~= song.drop_last());
        if song.len() > 1 {
            lemma_song_end(song.drop_last(), song.len() - 2);
        }
    }
}

/// With so many patterns, no more than so many numbered names can be taken.
proof fn lemma_names_run_out(names: Seq<Seq<char>>, n: nat)
    requires
        n >= 1,
        forall|m: nat| 1 <= m <= n ==> names.contains(#[trigger] numbered_name(m)),
    ensures
        n <= names.len(),
{
    let taken = Seq::new(n, |i: int| numbered_name((i + 1) as nat));
    assert(taken.no_duplicates()) by {
        assert forall|i: int, j: int| 0 <= i < taken.len() && 0 <= j < taken.len() && i != j implies taken[i]
            != taken[j] by {
            lemma_numbered_names_differ((i + 1) as nat, (j + 1) as nat);
        }
    }
    taken.unique_seq_to_set();
    names.lemma_cardinality_of_set();
    assert(taken.to_set().subset_of(names.to_set())) by {
        assert forall|name: Seq<char>| taken.to_set().contains(name) implies names.to_set().contains(name) by {
            let i = choose|i: int| 0 <= i < taken.len() && taken[i] == name;
            assert(names.contains(numbered_name((i + 1) as nat)));
        }
    }
    vstd::seq_lib::seq_to_set_is_finite(names);
    vstd::set_lib::lemma_len_subset(taken.to_set(), names.to_set());
}

/// Patterns with different numbers have different names.
pub proof fn lemma_numbered_names_differ(a: nat, b: nat)
    requires
        a != b,
    ensures
        numbered_name(a) != numbered_name(b),
{
    reading_back_digits(a);
    reading_back_digits(b);
    if numbered_name(a) == numbered_name(b) {
        let p = "Pattern "@.len() as int;
        assert(numbered_name(a).skip(p) =~= digits(a));
        assert(numbered_name(b).skip(p) =~= digits(b));
    }
}

} // verus!
