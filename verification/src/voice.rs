//! The voice pool. A voice is a sample being played, and what it is doing.
//!
//! Fixed size, allocated once. When every voice is busy the oldest gets stolen — but not
//! instantly, because cutting a sounding voice dead is exactly what a click is. The stolen
//! voice fades out and the new note starts when it lands.

use std::sync::Arc;

use vstd::prelude::*;

use crate::command::TrashBin;
use crate::sample::Sample;
use crate::seqs::{
    first_where, gathered, lemma_filter_all, lemma_first_where, lemma_first_where_bounds,
};
use crate::single::Single;
use crate::{DEFAULT_PITCH, MAX_TRACKS, MAX_VOICES, PREVIEW_TRACK};

verus! {

/// Full level. A fade counts up to this or down from it.
pub const FULL: u16 = 384;

/// How much a voice fades in each frame: all the way in ninety six of them, enough to swallow the
/// step in a sample that does not start at zero.
pub const ATTACK_STEP: u16 = 4;

/// How much a voice fades out each frame, when it is stolen, let go, or silenced.
pub const RELEASE_STEP: u16 = 3;

/// Frames it takes a voice at full level to fade out.
pub const STEAL_FADE_FRAMES: u32 = 128;

/// What a voice is doing right now.
#[derive(Clone, Copy, Debug, PartialEq, Eq, Structural)]
pub enum Stage {
    /// Free.
    Idle,
    /// Fading in.
    Attack,
    /// At full level, playing out.
    Playing,
    /// Fading out. When it reaches zero it either goes idle or starts what is pending.
    Releasing,
}

/// How loud a note is asked to be.
#[derive(Clone, Copy, Debug, PartialEq, Eq, Structural)]
pub enum Level {
    /// How hard it was hit.
    Velocity(u8),
    /// A gain outright.
    Gain(Single),
}

/// A note asking for a voice.
#[derive(Debug)]
pub struct Trigger {
    pub sample: Arc<Sample>,
    pub track: u16,
    pub pitch: u8,
    pub level: Level,
    /// Frames until the note is let go. `None` plays the sample out.
    pub hold: Option<u64>,
}

/// One playing sample.
#[derive(Debug)]
pub struct Voice {
    pub stage: Stage,
    pub sample: Option<Arc<Sample>>,
    pub track: u16,
    pub pitch: u8,
    pub level: Level,
    /// Frames until the note is let go. `None` plays the sample out.
    pub hold: Option<u64>,
    /// Where the fade is, from nothing to [`FULL`].
    pub env: u16,
    /// Bigger is newer. Used to pick who gets stolen, and no two notes have the same.
    pub age: u64,
    /// A note waiting for this voice to finish fading out.
    pub pending: Option<Trigger>,
    pub pending_age: u64,
}

impl Voice {
    pub open spec fn idle_model() -> Voice {
        Voice {
            stage: Stage::Idle,
            sample: None,
            track: PREVIEW_TRACK,
            pitch: DEFAULT_PITCH,
            level: Level::Velocity(0),
            hold: None,
            env: 0,
            age: 0,
            pending: None,
            pending_age: 0,
        }
    }

    pub open spec fn started(self, trigger: Trigger, age: u64) -> Voice {
        Voice {
            stage: Stage::Attack,
            sample: Some(trigger.sample),
            track: trigger.track,
            pitch: trigger.pitch,
            level: trigger.level,
            hold: trigger.hold,
            env: 0,
            age,
            ..self
        }
    }

    /// Fading out, unless it is free. Anything already fading goes on doing so.
    pub open spec fn released(self) -> Voice {
        if self.stage == Stage::Idle {
            self
        } else {
            Voice { stage: Stage::Releasing, ..self }
        }
    }

    /// Released, with nothing waiting for it.
    pub open spec fn silenced(self) -> Voice {
        Voice { pending: None, ..self }.released()
    }

    /// With a track let go: a voice playing it fades out, with nothing waiting for it.
    pub open spec fn hushed(self, track: u16) -> Voice {
        if self.track == track {
            self.silenced()
        } else {
            self
        }
    }

    /// The sample it is playing.
    pub open spec fn kept(self) -> Seq<Arc<Sample>> {
        match self.sample {
            Some(sample) => seq![sample],
            None => Seq::empty(),
        }
    }

    /// The sample of the note that is waiting for it.
    pub open spec fn waiting(self) -> Seq<Arc<Sample>> {
        match self.pending {
            Some(next) => seq![next.sample],
            None => Seq::empty(),
        }
    }

    /// The sample of the note that is waiting for it, when it plays this track.
    pub open spec fn waiting_on(self, track: u16) -> Seq<Arc<Sample>> {
        if self.track == track {
            self.waiting()
        } else {
            Seq::empty()
        }
    }

    pub open spec fn stopped(self) -> Voice {
        Voice { sample: None, stage: Stage::Idle, env: 0, ..self }
    }

    /// The voice one frame on, before its note's length is counted.
    pub open spec fn faded(self) -> Voice {
        match self.stage {
            Stage::Attack => if self.env + ATTACK_STEP >= FULL {
                Voice { env: FULL, stage: Stage::Playing, ..self }
            } else {
                Voice { env: (self.env + ATTACK_STEP) as u16, ..self }
            },
            Stage::Releasing => if self.env <= RELEASE_STEP {
                Voice { env: 0, ..self }
            } else {
                Voice { env: (self.env - RELEASE_STEP) as u16, ..self }
            },
            _ => self,
        }
    }

    /// Whether the voice makes a sound in its next frame. One that has faded out does not.
    pub open spec fn sounds_next(self) -> bool {
        self.stage != Stage::Idle && !(self.stage == Stage::Releasing && self.env <= RELEASE_STEP)
    }

    /// The voice with a frame of its note counted off: once they are gone it is let go.
    pub open spec fn counted(self) -> Voice {
        match self.hold {
            Some(n) if self.stage != Stage::Releasing => if n <= 1 {
                Voice { hold: None, stage: Stage::Releasing, ..self }
            } else {
                Voice { hold: Some((n - 1) as u64), ..self }
            },
            _ => self,
        }
    }

    /// The voice one frame on.
    pub open spec fn ticked(self) -> Voice {
        if self.sounds_next() {
            self.faded().counted()
        } else {
            self.faded()
        }
    }

    /// The voice with its sample run out: nothing left to hear.
    pub open spec fn ran_out(self) -> Voice {
        if self.stage == Stage::Idle {
            self
        } else {
            Voice { stage: Stage::Releasing, env: 0, ..self }
        }
    }

    /// A voice holds a sample exactly while it is not free, and a note waits only for a voice
    /// that is fading out.
    pub open spec fn wf(self) -> bool {
        &&& self.stage == Stage::Idle <==> self.sample is None
        &&& self.pending is Some ==> self.stage == Stage::Releasing
        &&& self.env <= FULL
    }

    fn idle() -> (r: Self)
        ensures
            r == Voice::idle_model(),
    {
        Voice {
            stage: Stage::Idle,
            sample: None,
            track: PREVIEW_TRACK,
            pitch: DEFAULT_PITCH,
            level: Level::Velocity(0),
            hold: None,
            env: 0,
            age: 0,
            pending: None,
            pending_age: 0,
        }
    }

    fn is_free(&self) -> (r: bool)
        ensures
            r == (self.stage == Stage::Idle),
    {
        self.stage == Stage::Idle
    }

    fn start(&mut self, trigger: Trigger, age: u64)
        ensures
            *final(self) == old(self).started(trigger, age),
    {
        self.stage = Stage::Attack;
        self.sample = Some(trigger.sample);
        self.track = trigger.track;
        self.pitch = trigger.pitch;
        self.level = trigger.level;
        self.hold = trigger.hold;
        self.env = 0;
        self.age = age;
    }

    /// Start fading out.
    fn release(&mut self)
        ensures
            *final(self) == old(self).released(),
    {
        if self.stage != Stage::Idle {
            self.stage = Stage::Releasing;
        }
    }

    /// Give the voice up, handing the sample back to the app thread rather than dropping it.
    fn stop(&mut self, trash: &mut TrashBin)
        ensures
            old(trash).ledger().settles(final(trash).ledger()),
            *final(self) == old(self).stopped(),
            final(trash)@ == old(trash)@ + old(self).kept(),
    {
        match self.sample.take() {
            Some(sample) => trash.put(sample),
            None => {},
        }
        assert(trash@ =~= old(trash)@ + old(self).kept());
        self.stage = Stage::Idle;
        self.env = 0;
    }

    /// Give up on the note that is waiting, handing its sample back too.
    fn turn_away(&mut self, trash: &mut TrashBin)
        ensures
            old(trash).ledger().settles(final(trash).ledger()),
            *final(self) == (Voice { pending: None, ..*old(self) }),
            final(trash)@ == old(trash)@ + old(self).waiting(),
    {
        match self.pending.take() {
            Some(next) => trash.put(next.sample),
            None => {},
        }
        assert(trash@ =~= old(trash)@ + old(self).waiting());
    }

    /// One frame on. Gives the level to sound the frame at, out of [`FULL`], or nothing once the
    /// voice has faded out.
    fn tick(&mut self) -> (level: Option<u16>)
        requires
            old(self).wf(),
        ensures
            *final(self) == old(self).ticked(),
            final(self).wf(),
            level == (if old(self).sounds_next() {
                Some(old(self).faded().env)
            } else {
                None
            }),
    {
        match self.stage {
            Stage::Idle => {
                return None;
            },
            Stage::Attack => {
                if self.env + ATTACK_STEP >= FULL {
                    self.env = FULL;
                    self.stage = Stage::Playing;
                } else {
                    self.env = self.env + ATTACK_STEP;
                }
            },
            Stage::Playing => {},
            Stage::Releasing => {
                if self.env <= RELEASE_STEP {
                    self.env = 0;
                    return None;
                }
                self.env = self.env - RELEASE_STEP;
            },
        }
        let level: u16 = self.env;
        match self.hold {
            Some(n) => {
                if self.stage != Stage::Releasing {
                    if n <= 1 {
                        self.hold = None;
                        self.stage = Stage::Releasing;
                    } else {
                        self.hold = Some(n - 1);
                    }
                }
            },
            None => {},
        }
        Some(level)
    }
}

/// The voices, as mathematics has them.
#[verifier::ext_equal]
pub struct PoolModel {
    pub voices: Seq<Voice>,
    pub next_age: u64,
}

pub open spec fn free() -> spec_fn(Voice) -> bool {
    |v: Voice| v.stage == Stage::Idle
}

/// The smallest of some ages, or the biggest there is when there are none.
pub open spec fn least(ages: Seq<u64>) -> u64
    decreases ages.len(),
{
    if ages.len() == 0 {
        u64::MAX
    } else {
        let before = least(ages.drop_last());
        if ages.last() < before {
            ages.last()
        } else {
            before
        }
    }
}

pub open spec fn same_age(age: u64) -> spec_fn(u64) -> bool {
    |a: u64| a == age
}

/// The first place the smallest of some ages is found.
pub open spec fn first_least(ages: Seq<u64>) -> int {
    first_where(ages, same_age(least(ages)))
}

/// Ages of the voices that can be stolen: one already on its way out counts as newest of all.
pub open spec fn stealable_age() -> spec_fn(Voice) -> u64 {
    |v: Voice|
        if v.stage == Stage::Releasing {
            u64::MAX
        } else {
            v.age
        }
}

/// How long ago something queued up for each voice.
pub open spec fn waiting_age() -> spec_fn(Voice) -> u64 {
    |v: Voice| v.pending_age
}

impl PoolModel {
    pub open spec fn fresh() -> PoolModel {
        PoolModel { voices: Seq::new(MAX_VOICES as nat, |i: int| Voice::idle_model()), next_age: 1 }
    }

    pub open spec fn wf(self) -> bool {
        &&& self.voices.len() == MAX_VOICES
        &&& forall|i: int| 0 <= i < self.voices.len() ==> (#[trigger] self.voices[i]).wf()
    }

    /// The voice a note steals when none is free: the oldest that is not already on its way
    /// out, or, when they all are, the one whose queue has waited longest.
    pub open spec fn victim(self) -> int {
        let ages = self.voices.map_values(stealable_age());
        if least(ages) < u64::MAX {
            first_least(ages)
        } else {
            first_least(self.voices.map_values(waiting_age()))
        }
    }

    /// Whether there is a voice to steal. There is, short of the ages running out.
    pub open spec fn has_victim(self) -> bool {
        ||| least(self.voices.map_values(stealable_age())) < u64::MAX
        ||| least(self.voices.map_values(waiting_age())) < u64::MAX
    }

    /// The voices once a note has been given one.
    pub open spec fn triggered(self, trigger: Trigger) -> PoolModel {
        let age = self.next_age;
        let next = if age == u64::MAX { 0 } else { (age + 1) as u64 };
        let spare = first_where(self.voices, free());
        PoolModel {
            voices: if spare < self.voices.len() {
                self.voices.update(spare, self.voices[spare].started(trigger, age))
            } else if self.has_victim() {
                self.voices.update(
                    self.victim(),
                    Voice {
                        pending: Some(trigger),
                        pending_age: age,
                        ..self.voices[self.victim()].released()
                    },
                )
            } else {
                self.voices
            },
            next_age: next,
        }
    }

    /// What is handed back when a note is given a voice: the sample of the note that was waiting
    /// in its place, or its own when there is no voice to be had.
    pub open spec fn turned_away(self, trigger: Trigger) -> Seq<Arc<Sample>> {
        if first_where(self.voices, free()) < self.voices.len() {
            Seq::empty()
        } else if self.has_victim() {
            self.voices[self.victim()].waiting()
        } else {
            seq![trigger.sample]
        }
    }

    /// What is handed back when several notes are given voices, in order.
    pub open spec fn all_turned_away(self, triggers: Seq<Trigger>) -> Seq<Arc<Sample>>
        decreases triggers.len(),
    {
        if triggers.len() == 0 {
            Seq::empty()
        } else {
            self.all_turned_away(triggers.drop_last()) + self.all_triggered(
                triggers.drop_last(),
            ).turned_away(triggers.last())
        }
    }

    /// The voices once several notes have been given one each, in order.
    pub open spec fn all_triggered(self, triggers: Seq<Trigger>) -> PoolModel
        decreases triggers.len(),
    {
        if triggers.len() == 0 {
            self
        } else {
            self.all_triggered(triggers.drop_last()).triggered(triggers.last())
        }
    }

    pub open spec fn track_released(self, track: u16) -> PoolModel {
        PoolModel { voices: self.voices.map_values(hushed_on(track)), ..self }
    }

    pub open spec fn all_released(self) -> PoolModel {
        PoolModel { voices: self.voices.map_values(silenced()), ..self }
    }

    /// How many voices are making sound.
    pub open spec fn sounding(self) -> int {
        self.voices.len() - self.voices.filter(free()).len()
    }

    /// Whether a voice has faded all the way out.
    pub open spec fn at_rest(self, i: int) -> bool {
        self.voices[i].stage == Stage::Releasing && self.voices[i].env == 0
    }

    /// The voices once one that has faded out is dealt with: the note that stole it starts, or it
    /// is free. One that has not is left alone.
    pub open spec fn landed(self, i: int) -> PoolModel {
        let v = self.voices[i];
        PoolModel {
            voices: if !self.at_rest(i) {
                self.voices
            } else {
                match v.pending {
                    Some(next) => self.voices.update(
                        i,
                        Voice { pending: None, ..v }.started(next, v.pending_age),
                    ),
                    None => self.voices.update(i, v.stopped()),
                }
            },
            ..self
        }
    }

    /// The voices once one of them is a frame on.
    pub open spec fn ticked(self, i: int) -> PoolModel {
        PoolModel { voices: self.voices.update(i, self.voices[i].ticked()), ..self }
    }

    /// The voices once the sample of one of them has run out.
    pub open spec fn ran_out(self, i: int) -> PoolModel {
        PoolModel { voices: self.voices.update(i, self.voices[i].ran_out()), ..self }
    }

    pub open spec fn cleared(self) -> PoolModel {
        PoolModel { voices: self.voices.map_values(given_up()), ..self }
    }
}

pub open spec fn silenced() -> spec_fn(Voice) -> Voice {
    |v: Voice| v.silenced()
}

pub open spec fn hushed_on(track: u16) -> spec_fn(Voice) -> Voice {
    |v: Voice| v.hushed(track)
}

pub open spec fn given_up() -> spec_fn(Voice) -> Voice {
    |v: Voice| Voice { pending: None, ..v }.stopped()
}

/// The sample of the note waiting for a voice.
pub open spec fn waiting() -> spec_fn(Voice) -> Seq<Arc<Sample>> {
    |v: Voice| v.waiting()
}

/// The sample of the note waiting for a voice of a track.
pub open spec fn waiting_on(track: u16) -> spec_fn(Voice) -> Seq<Arc<Sample>> {
    |v: Voice| v.waiting_on(track)
}

/// Every sample a voice has hold of.
pub open spec fn held() -> spec_fn(Voice) -> Seq<Arc<Sample>> {
    |v: Voice| v.waiting() + v.kept()
}

/// Every voice in the app.
#[derive(Debug)]
pub struct VoicePool {
    voices: Vec<Voice>,
    /// Monotonic counter that decides who is oldest.
    next_age: u64,
}

impl View for VoicePool {
    type V = PoolModel;

    closed spec fn view(&self) -> PoolModel {
        PoolModel { voices: self.voices@, next_age: self.next_age }
    }
}

/// The first free voice, or the end when none is.
fn spare(voices: &Vec<Voice>) -> (r: usize)
    ensures
        r == first_where(voices@, free()),
{
    let mut i: usize = 0;
    while i < voices.len()
        invariant
            i <= voices@.len(),
            forall|j: int| 0 <= j < i ==> !free()(#[trigger] voices@[j]),
        decreases voices@.len() - i,
    {
        if voices[i].is_free() {
            proof {
                lemma_first_where(voices@, free(), i as int);
            }
            return i;
        }
        i = i + 1;
    }
    proof {
        lemma_first_where(voices@, free(), i as int);
    }
    i
}

fn oldest(voices: &Vec<Voice>) -> (r: Option<usize>)
    ensures
        ({
            let ages = voices@.map_values(stealable_age());
            match r {
                Some(i) => least(ages) < u64::MAX && i == first_least(ages) && i < voices@.len(),
                None => least(ages) == u64::MAX,
            }
        }),
{
    let ghost ages = voices@.map_values(stealable_age());
    let mut victim: Option<usize> = None;
    let mut age: u64 = u64::MAX;
    let mut i: usize = 0;
    assert(ages.take(0) =~= Seq::empty());
    while i < voices.len()
        invariant
            i <= voices@.len(),
            ages == voices@.map_values(stealable_age()),
            age == least(ages.take(i as int)),
            match victim {
                Some(k) => k < i && age < u64::MAX && ages[k as int] == age && forall|j: int|
                    0 <= j < k ==> #[trigger] ages[j] > age,
                None => age == u64::MAX,
            },
        decreases voices@.len() - i,
    {
        proof {
            let upto = ages.take(i as int + 1);
            assert(upto.drop_last() =~= ages.take(i as int));
            assert(upto.last() == ages[i as int]);
            lemma_least(ages.take(i as int));
            assert forall|j: int| 0 <= j < i implies #[trigger] ages[j] >= age by {
                assert(ages.take(i as int)[j] == ages[j]);
            }
        }
        if voices[i].stage != Stage::Releasing && voices[i].age < age {
            age = voices[i].age;
            victim = Some(i);
        }
        i = i + 1;
    }
    proof {
        assert(ages.take(ages.len() as int) =~= ages);
        match victim {
            Some(k) => {
                lemma_first_where(ages, same_age(age), k as int);
            },
            None => {},
        }
    }
    victim
}

fn longest_waiting(voices: &Vec<Voice>) -> (r: Option<usize>)
    ensures
        ({
            let ages = voices@.map_values(waiting_age());
            match r {
                Some(i) => least(ages) < u64::MAX && i == first_least(ages) && i < voices@.len(),
                None => least(ages) == u64::MAX,
            }
        }),
{
    let ghost ages = voices@.map_values(waiting_age());
    let mut victim: Option<usize> = None;
    let mut age: u64 = u64::MAX;
    let mut i: usize = 0;
    assert(ages.take(0) =~= Seq::empty());
    while i < voices.len()
        invariant
            i <= voices@.len(),
            ages == voices@.map_values(waiting_age()),
            age == least(ages.take(i as int)),
            match victim {
                Some(k) => k < i && age < u64::MAX && ages[k as int] == age && forall|j: int|
                    0 <= j < k ==> #[trigger] ages[j] > age,
                None => age == u64::MAX,
            },
        decreases voices@.len() - i,
    {
        proof {
            let upto = ages.take(i as int + 1);
            assert(upto.drop_last() =~= ages.take(i as int));
            assert(upto.last() == ages[i as int]);
            lemma_least(ages.take(i as int));
            assert forall|j: int| 0 <= j < i implies #[trigger] ages[j] >= age by {
                assert(ages.take(i as int)[j] == ages[j]);
            }
        }
        if voices[i].pending_age < age {
            age = voices[i].pending_age;
            victim = Some(i);
        }
        i = i + 1;
    }
    proof {
        assert(ages.take(ages.len() as int) =~= ages);
        match victim {
            Some(k) => {
                lemma_first_where(ages, same_age(age), k as int);
            },
            None => {},
        }
    }
    victim
}

/// Nothing is smaller than the smallest, and it is one of them unless they are all the biggest
/// there is.
proof fn lemma_least(ages: Seq<u64>)
    ensures
        forall|i: int| 0 <= i < ages.len() ==> #[trigger] ages[i] >= least(ages),
        least(ages) < u64::MAX ==> 0 <= first_least(ages) < ages.len() && ages[first_least(ages)]
            == least(ages),
    decreases ages.len(),
{
    if ages.len() > 0 {
        let front = ages.drop_last();
        lemma_least(front);
        assert forall|i: int| 0 <= i < ages.len() implies #[trigger] ages[i] >= least(ages) by {
            if i < ages.len() - 1 {
                assert(front[i] == ages[i]);
            }
        }
        if least(ages) < u64::MAX {
            let k = if ages.last() == least(ages) {
                ages.len() - 1
            } else {
                first_least(front)
            };
            assert(ages[k] == least(ages)) by {
                if k < ages.len() - 1 {
                    assert(front[k] == ages[k]);
                }
            }
            lemma_first_where_bounds(ages, same_age(least(ages)));
            assert(same_age(least(ages))(ages[k]));
        }
    }
}

impl VoicePool {
    pub fn new() -> (r: Self)
        ensures
            r@ == PoolModel::fresh(),
            r@.wf(),
    {
        let mut voices: Vec<Voice> = Vec::with_capacity(MAX_VOICES);
        let mut i: usize = 0;
        while i < MAX_VOICES
            invariant
                i <= MAX_VOICES,
                voices@.len() == i,
                forall|k: int| 0 <= k < i ==> #[trigger] voices@[k] == Voice::idle_model(),
            decreases MAX_VOICES - i,
        {
            voices.push(Voice::idle());
            i = i + 1;
        }
        assert(voices@ =~= PoolModel::fresh().voices);
        VoicePool { voices, next_age: 1 }
    }

    /// Voices making sound. Counts ones fading out too.
    pub fn active(&self) -> (count: u32)
        requires
            self@.wf(),
        ensures
            count == self@.sounding(),
    {
        let mut count: u32 = 0;
        let mut i: usize = 0;
        proof {
            reveal(Seq::filter);
            assert(self.voices@.take(0) =~= Seq::empty());
        }
        while i < self.voices.len()
            invariant
                i <= self.voices@.len(),
                self.voices@.len() == MAX_VOICES,
                count == i - self.voices@.take(i as int).filter(free()).len(),
                count <= i,
            decreases self.voices@.len() - i,
        {
            proof {
                reveal(Seq::filter);
                let upto = self.voices@.take(i as int + 1);
                assert(upto.drop_last() =~= self.voices@.take(i as int));
                assert(upto.last() == self.voices@[i as int]);
            }
            if !self.voices[i].is_free() {
                count = count + 1;
            }
            i = i + 1;
        }
        assert(self.voices@.take(self.voices@.len() as int) =~= self.voices@);
        count
    }

    /// Look at one voice.
    pub fn voice(&self, i: usize) -> (r: &Voice)
        requires
            i < self@.voices.len(),
        ensures
            *r == self@.voices[i as int],
    {
        &self.voices[i]
    }

    /// Give a note a voice. Takes a free one if there is one, otherwise steals the oldest. A note
    /// that was already waiting there is given up on, and its sample handed back.
    pub fn trigger(&mut self, trigger: Trigger, trash: &mut TrashBin)
        requires
            old(self)@.wf(),
        ensures
            old(trash).ledger().settles(final(trash).ledger()),
            final(self)@ == old(self)@.triggered(trigger),
            final(self)@.wf(),
            final(trash)@ == old(trash)@ + old(self)@.turned_away(trigger),
    {
        let age: u64 = self.next_age;
        self.next_age = if age == u64::MAX {
            0
        } else {
            age + 1
        };
        let i: usize = spare(&self.voices);
        if i < self.voices.len() {
            proof {
                lemma_first_where_bounds(self.voices@, free());
                assert(self@.voices[i as int].wf());
            }
            self.voices[i].start(trigger, age);
            assert(self@.voices =~= old(self)@.triggered(trigger).voices);
            assert(trash@ =~= old(trash)@ + old(self)@.turned_away(trigger));
            return;
        }
        proof {
            lemma_first_where_bounds(self.voices@, free());
        }
        // Pool is full. Steal the oldest voice that is not already on its way out, so two
        // stolen notes in a row do not fight over the same slot.
        let mut victim: Option<usize> = oldest(&self.voices);
        if victim.is_none() {
            // Everything is already fading out. Queue behind whichever has waited longest.
            victim = longest_waiting(&self.voices);
        }
        match victim {
            Some(v) => {
                assert(!free()(self.voices@[v as int]));
                assert(self@.voices[v as int].wf());
                self.voices[v].turn_away(trash);
                self.voices[v].release();
                self.voices[v].pending = Some(trigger);
                self.voices[v].pending_age = age;
            },
            None => trash.put(trigger.sample),
        }
        assert(trash@ =~= old(trash)@ + old(self)@.turned_away(trigger));
        assert(self@.voices =~= old(self)@.triggered(trigger).voices);
    }

    /// Fade out every voice on a track, and give up on what was waiting for them. Used when a
    /// track is deleted or its sample changes.
    pub fn release_track(&mut self, track: u16, trash: &mut TrashBin)
        requires
            old(self)@.wf(),
        ensures
            old(trash).ledger().settles(final(trash).ledger()),
            final(self)@ == old(self)@.track_released(track),
            final(self)@.wf(),
            final(trash)@ == old(trash)@ + gathered(old(self)@.voices, waiting_on(track)),
    {
        let n: usize = self.voices.len();
        let mut i: usize = 0;
        proof {
            assert(old(self).voices@.take(0) =~= Seq::empty());
            assert(trash@ =~= old(trash)@ + gathered(old(self).voices@.take(0), waiting_on(track)));
        }
        while i < n
            invariant
                i <= n == self.voices@.len() == old(self).voices@.len(),
                old(trash).ledger().settles(trash.ledger()),
                self.next_age == old(self).next_age,
                trash@ == old(trash)@ + gathered(
                    old(self).voices@.take(i as int),
                    waiting_on(track),
                ),
                forall|k: int|
                    0 <= k < i ==> #[trigger] self.voices@[k] == hushed_on(track)(
                        old(self).voices@[k],
                    ),
                forall|k: int| i <= k < n ==> #[trigger] self.voices@[k] == old(self).voices@[k],
            decreases n - i,
        {
            proof {
                let upto = old(self).voices@.take(i as int + 1);
                assert(upto.drop_last() =~= old(self).voices@.take(i as int));
                assert(upto.last() == self.voices@[i as int]);
            }
            if self.voices[i].track == track {
                self.voices[i].turn_away(trash);
                self.voices[i].release();
            }
            i = i + 1;
            assert(trash@ =~= old(trash)@ + gathered(
                old(self).voices@.take(i as int),
                waiting_on(track),
            ));
        }
        proof {
            assert(old(self).voices@.take(n as int) =~= old(self).voices@);
            assert(self@.voices =~= old(self)@.track_released(track).voices);
            assert forall|k: int| 0 <= k < n implies (#[trigger] self@.voices[k]).wf() by {
                assert(old(self)@.voices[k].wf());
            }
        }
    }

    /// Fade out everything, and give up on everything that waits.
    pub fn release_all(&mut self, trash: &mut TrashBin)
        requires
            old(self)@.wf(),
        ensures
            old(trash).ledger().settles(final(trash).ledger()),
            final(self)@ == old(self)@.all_released(),
            final(self)@.wf(),
            final(trash)@ == old(trash)@ + gathered(old(self)@.voices, waiting()),
    {
        let n: usize = self.voices.len();
        let mut i: usize = 0;
        proof {
            assert(old(self).voices@.take(0) =~= Seq::empty());
            assert(trash@ =~= old(trash)@ + gathered(old(self).voices@.take(0), waiting()));
        }
        while i < n
            invariant
                i <= n == self.voices@.len() == old(self).voices@.len(),
                old(trash).ledger().settles(trash.ledger()),
                self.next_age == old(self).next_age,
                trash@ == old(trash)@ + gathered(old(self).voices@.take(i as int), waiting()),
                forall|k: int|
                    0 <= k < i ==> #[trigger] self.voices@[k] == silenced()(old(self).voices@[k]),
                forall|k: int| i <= k < n ==> #[trigger] self.voices@[k] == old(self).voices@[k],
            decreases n - i,
        {
            proof {
                let upto = old(self).voices@.take(i as int + 1);
                assert(upto.drop_last() =~= old(self).voices@.take(i as int));
                assert(upto.last() == self.voices@[i as int]);
            }
            self.voices[i].turn_away(trash);
            self.voices[i].release();
            i = i + 1;
            assert(trash@ =~= old(trash)@ + gathered(old(self).voices@.take(i as int), waiting()));
        }
        proof {
            assert(old(self).voices@.take(n as int) =~= old(self).voices@);
            assert(self@.voices =~= old(self)@.all_released().voices);
            assert forall|k: int| 0 <= k < n implies (#[trigger] self@.voices[k]).wf() by {
                assert(old(self)@.voices[k].wf());
            }
        }
    }

    /// One voice, one frame on. Gives the level to sound the frame at, out of [`FULL`], or
    /// nothing once the voice has faded out.
    pub fn tick(&mut self, i: usize) -> (level: Option<u16>)
        requires
            old(self)@.wf(),
            i < MAX_VOICES,
        ensures
            final(self)@ == old(self)@.ticked(i as int),
            final(self)@.wf(),
            level == (if old(self)@.voices[i as int].sounds_next() {
                Some(old(self)@.voices[i as int].faded().env)
            } else {
                None
            }),
    {
        assert(self@.voices[i as int].wf());
        let level: Option<u16> = self.voices[i].tick();
        assert(self@.voices =~= old(self)@.ticked(i as int).voices);
        level
    }

    /// A voice's sample has run out.
    pub fn run_out(&mut self, i: usize)
        requires
            old(self)@.wf(),
            i < MAX_VOICES,
        ensures
            final(self)@ == old(self)@.ran_out(i as int),
            final(self)@.wf(),
    {
        assert(self@.voices[i as int].wf());
        if !self.voices[i].is_free() {
            self.voices[i].stage = Stage::Releasing;
            self.voices[i].env = 0;
        }
        assert(self@.voices =~= old(self)@.ran_out(i as int).voices);
    }

    /// Deal with a voice that has faded all the way out. Reaching zero either frees it or lets the
    /// note that stole it start.
    pub fn land(&mut self, i: usize, trash: &mut TrashBin)
        requires
            old(self)@.wf(),
            i < MAX_VOICES,
        ensures
            old(trash).ledger().settles(final(trash).ledger()),
            final(self)@ == old(self)@.landed(i as int),
            final(self)@.wf(),
            final(trash)@ == (if old(self)@.at_rest(i as int) {
                old(trash)@ + old(self)@.voices[i as int].kept()
            } else {
                old(trash)@
            }),
    {
        assert(self@.voices[i as int].wf());
        if self.voices[i].stage != Stage::Releasing || self.voices[i].env != 0 {
            return;
        }
        match self.voices[i].pending.take() {
            Some(next) => {
                let age: u64 = self.voices[i].pending_age;
                match self.voices[i].sample.take() {
                    Some(old) => trash.put(old),
                    None => {},
                }
                self.voices[i].start(next, age);
            },
            None => self.voices[i].stop(trash),
        }
        assert(self@.voices =~= old(self)@.landed(i as int).voices);
        assert(trash@ =~= old(trash)@ + old(self)@.voices[i as int].kept());
    }

    /// Hand every sample back and go quiet. For shutdown.
    pub fn clear(&mut self, trash: &mut TrashBin)
        requires
            old(self)@.wf(),
        ensures
            old(trash).ledger().settles(final(trash).ledger()),
            final(self)@ == old(self)@.cleared(),
            final(self)@.wf(),
            final(trash)@ == old(trash)@ + gathered(old(self)@.voices, held()),
    {
        let n: usize = self.voices.len();
        let mut i: usize = 0;
        proof {
            assert(old(self).voices@.take(0) =~= Seq::empty());
            assert(trash@ =~= old(trash)@ + gathered(old(self).voices@.take(0), held()));
        }
        while i < n
            invariant
                i <= n == self.voices@.len() == old(self).voices@.len(),
                old(trash).ledger().settles(trash.ledger()),
                self.next_age == old(self).next_age,
                trash@ == old(trash)@ + gathered(old(self).voices@.take(i as int), held()),
                forall|k: int|
                    0 <= k < i ==> #[trigger] self.voices@[k] == given_up()(old(self).voices@[k]),
                forall|k: int| i <= k < n ==> #[trigger] self.voices@[k] == old(self).voices@[k],
            decreases n - i,
        {
            proof {
                let upto = old(self).voices@.take(i as int + 1);
                assert(upto.drop_last() =~= old(self).voices@.take(i as int));
                assert(upto.last() == self.voices@[i as int]);
            }
            self.voices[i].turn_away(trash);
            self.voices[i].stop(trash);
            i = i + 1;
            assert(trash@ =~= old(trash)@ + gathered(old(self).voices@.take(i as int), held()));
        }
        proof {
            assert(old(self).voices@.take(n as int) =~= old(self).voices@);
            assert(self@.voices =~= old(self)@.cleared().voices);
        }
    }
}

impl Default for VoicePool {
    fn default() -> (r: Self)
        ensures
            r@ == PoolModel::fresh(),
            r@.wf(),
    {
        VoicePool::new()
    }
}

/// The next of several notes.
pub proof fn lemma_triggered_next(m: PoolModel, triggers: Seq<Trigger>, trigger: Trigger)
    ensures
        m.all_triggered(triggers.push(trigger)) == m.all_triggered(triggers).triggered(trigger),
{
    assert(triggers.push(trigger).drop_last() =~= triggers);
}

/// Notes given voices in two goes are notes given voices in one.
pub proof fn lemma_triggered_both(m: PoolModel, a: Seq<Trigger>, b: Seq<Trigger>)
    ensures
        m.all_triggered(a + b) == m.all_triggered(a).all_triggered(b),
    decreases b.len(),
{
    if b.len() == 0 {
        assert(a + b =~= a);
    } else {
        assert((a + b).drop_last() =~= a + b.drop_last());
        assert((a + b).last() == b.last());
        lemma_triggered_both(m, a, b.drop_last());
    }
}

/// What is handed back for the next of several notes.
pub proof fn lemma_turned_away_next(m: PoolModel, triggers: Seq<Trigger>, trigger: Trigger)
    ensures
        m.all_turned_away(triggers.push(trigger)) == m.all_turned_away(triggers)
            + m.all_triggered(triggers).turned_away(trigger),
{
    assert(triggers.push(trigger).drop_last() =~= triggers);
}

/// What is handed back for notes given voices in two goes.
pub proof fn lemma_turned_away_both(m: PoolModel, a: Seq<Trigger>, b: Seq<Trigger>)
    ensures
        m.all_turned_away(a + b) == m.all_turned_away(a) + m.all_triggered(a).all_turned_away(b),
    decreases b.len(),
{
    if b.len() == 0 {
        assert(a + b =~= a);
        assert(m.all_turned_away(a) + m.all_triggered(a).all_turned_away(b) =~= m.all_turned_away(
            a,
        ));
    } else {
        assert((a + b).drop_last() =~= a + b.drop_last());
        assert((a + b).last() == b.last());
        lemma_triggered_both(m, a, b.drop_last());
        lemma_turned_away_both(m, a, b.drop_last());
        assert(m.all_turned_away(a + b) =~= m.all_turned_away(a) + m.all_triggered(
            a,
        ).all_turned_away(b));
    }
}

// --- what always holds ----------------------------------------------------------

/// A fade never jumps: from one frame to the next the level moves by a ninety sixth of full at
/// the most, so nothing clicks, whatever is asked of the voice between frames short of starting
/// a note on it.
pub proof fn a_fade_never_jumps(v: Voice)
    requires
        v.wf(),
    ensures
        v.ticked().env <= v.env + ATTACK_STEP,
        v.env <= v.ticked().env + RELEASE_STEP,
        v.released().env == v.env,
        v.silenced().env == v.env,
        ATTACK_STEP * 96 == FULL,
        v.ticked().wf(),
{
}

/// A voice so many frames on.
pub open spec fn after_frames(v: Voice, frames: nat) -> Voice
    decreases frames,
{
    if frames == 0 {
        v
    } else {
        after_frames(v, (frames - 1) as nat).ticked()
    }
}

/// A voice that is fading out is silent within the length of a fade.
pub proof fn a_fade_ends(v: Voice, frames: nat)
    requires
        v.wf(),
        v.stage == Stage::Releasing,
    ensures
        after_frames(v, frames).stage == Stage::Releasing,
        after_frames(v, frames).env == (if v.env <= frames * RELEASE_STEP {
            0
        } else {
            v.env - frames * RELEASE_STEP
        }),
        frames >= STEAL_FADE_FRAMES ==> after_frames(v, frames).env == 0,
    decreases frames,
{
    if frames > 0 {
        a_fade_ends(v, (frames - 1) as nat);
    }
}

/// A note that is held is let go once its frames are up, not before: it sounds for that many,
/// and then it fades.
pub proof fn a_held_note_is_let_go_on_time(v: Voice, n: u64, frames: nat)
    requires
        v.wf(),
        v.stage == Stage::Attack || v.stage == Stage::Playing,
        v.hold == Some(n),
        n >= 1,
        frames <= n,
    ensures
        frames < n ==> after_frames(v, frames).hold == Some((n - frames) as u64) && (after_frames(
            v,
            frames,
        ).stage == Stage::Attack || after_frames(v, frames).stage == Stage::Playing),
        frames == n ==> after_frames(v, frames).stage == Stage::Releasing,
        after_frames(v, frames).wf(),
    decreases frames,
{
    if frames > 0 {
        a_held_note_is_let_go_on_time(v, n, (frames - 1) as nat);
    }
}

/// A one-shot is never let go of its own accord.
pub proof fn a_one_shot_rings_on(v: Voice, frames: nat)
    requires
        v.wf(),
        v.stage == Stage::Attack || v.stage == Stage::Playing,
        v.hold is None,
    ensures
        after_frames(v, frames).stage == Stage::Attack || after_frames(v, frames).stage
            == Stage::Playing,
        after_frames(v, frames).hold is None,
        after_frames(v, frames).wf(),
    decreases frames,
{
    if frames > 0 {
        a_one_shot_rings_on(v, (frames - 1) as nat);
    }
}

/// Something a note can be of: a slot that a track can have, or a preview.
pub open spec fn playable_track(track: u16) -> bool {
    track < MAX_TRACKS || track == PREVIEW_TRACK
}

impl Voice {
    /// What it plays, and what waits for it, is of a slot that a track can have, or a preview.
    pub open spec fn of_slots(self) -> bool {
        &&& playable_track(self.track)
        &&& self.pending matches Some(next) ==> playable_track(next.track)
    }
}

impl PoolModel {
    /// Every voice, and every note that waits, is of a slot that a track can have, or a preview.
    pub open spec fn of_slots(self) -> bool {
        forall|i: int| 0 <= i < self.voices.len() ==> (#[trigger] self.voices[i]).of_slots()
    }
}

/// Giving a note of a slot a voice keeps every voice of a slot.
pub proof fn lemma_slots_triggered(m: PoolModel, trigger: Trigger)
    requires
        m.of_slots(),
        playable_track(trigger.track),
    ensures
        m.triggered(trigger).of_slots(),
{
    let after = m.triggered(trigger);
    lemma_first_where_bounds(m.voices, free());
    if m.has_victim() {
        lemma_stolen(m);
    }
    assert forall|k: int| 0 <= k < after.voices.len() implies (
    #[trigger] after.voices[k]).of_slots() by {
        assert(m.voices[k].of_slots());
    }
}

/// So does everything else that is done to the voices.
pub proof fn lemma_slots_kept(m: PoolModel, track: u16, i: int)
    requires
        m.of_slots(),
        0 <= i < m.voices.len(),
    ensures
        m.track_released(track).of_slots(),
        m.all_released().of_slots(),
        m.ticked(i).of_slots(),
        m.ran_out(i).of_slots(),
        m.landed(i).of_slots(),
{
    assert(m.voices[i].of_slots());
    assert forall|k: int| 0 <= k < m.voices.len() implies (
    #[trigger] m.track_released(track).voices[k]).of_slots() by {
        assert(m.voices[k].of_slots());
    }
    assert forall|k: int| 0 <= k < m.voices.len() implies (
    #[trigger] m.all_released().voices[k]).of_slots() by {
        assert(m.voices[k].of_slots());
    }
    assert forall|k: int| 0 <= k < m.voices.len() implies (
    #[trigger] m.ticked(i).voices[k]).of_slots() by {
        assert(m.voices[k].of_slots());
    }
    assert forall|k: int| 0 <= k < m.voices.len() implies (
    #[trigger] m.ran_out(i).voices[k]).of_slots() by {
        assert(m.voices[k].of_slots());
    }
    assert forall|k: int| 0 <= k < m.voices.len() implies (
    #[trigger] m.landed(i).voices[k]).of_slots() by {
        assert(m.voices[k].of_slots());
    }
}

impl PoolModel {
    /// Every age in use is behind the counter, and the counter has not run out.
    pub open spec fn young(self) -> bool {
        &&& self.next_age < u64::MAX
        &&& forall|i: int|
            0 <= i < self.voices.len() ==> (#[trigger] self.voices[i]).age < self.next_age
                && self.voices[i].pending_age < self.next_age
    }
}

/// Every note gets a voice, or a place behind one: a note takes a free voice when there is one,
/// and otherwise waits for the voice it steals. No voice that is sounding is cut off: it keeps
/// its sample and its level, and is faded out at the most.
pub proof fn every_note_gets_a_voice(m: PoolModel, trigger: Trigger)
    requires
        m.wf(),
        m.young(),
    ensures
        m.triggered(trigger).wf(),
        exists|i: int|
            0 <= i < m.voices.len() && ({
                let v = #[trigger] m.triggered(trigger).voices[i];
                ||| m.voices[i].stage == Stage::Idle && v == m.voices[i].started(
                    trigger,
                    m.next_age,
                )
                ||| v.pending == Some(trigger) && v.pending_age == m.next_age && v.stage
                    == Stage::Releasing
            }),
        forall|i: int|
            0 <= i < m.voices.len() && m.voices[i].stage != Stage::Idle ==> (
            #[trigger] m.triggered(trigger).voices[i]).sample == m.voices[i].sample && m.triggered(
                trigger,
            ).voices[i].env == m.voices[i].env,
{
    let after = m.triggered(trigger);
    lemma_first_where_bounds(m.voices, free());
    let spare = first_where(m.voices, free());
    if spare < m.voices.len() {
        assert(m.voices[spare].wf());
        assert(after.voices[spare] == m.voices[spare].started(trigger, m.next_age));
    } else {
        lemma_victim(m);
        let v = m.victim();
        assert(!free()(m.voices[v]));
        assert(m.voices[v].wf());
        assert(after.voices[v].pending == Some(trigger));
    }
}

/// The voice that is stolen is in the pool.
pub proof fn lemma_stolen(m: PoolModel)
    requires
        m.has_victim(),
    ensures
        0 <= m.victim() < m.voices.len(),
{
    lemma_least(m.voices.map_values(stealable_age()));
    lemma_least(m.voices.map_values(waiting_age()));
}

/// While the ages last there is always a voice to steal, and it is in the pool.
proof fn lemma_victim(m: PoolModel)
    requires
        m.wf(),
        m.young(),
    ensures
        m.has_victim(),
        0 <= m.victim() < m.voices.len(),
{
    let ages = m.voices.map_values(stealable_age());
    let waits = m.voices.map_values(waiting_age());
    lemma_least(ages);
    lemma_least(waits);
    assert(waits[0] == m.voices[0].pending_age);
    assert(waits[0] >= least(waits));
}

/// The voice that is stolen is the oldest that is not already on its way out, when there is one.
pub proof fn the_oldest_is_stolen(m: PoolModel, i: int)
    requires
        m.wf(),
        m.young(),
        0 <= i < m.voices.len(),
        m.voices[i].stage != Stage::Releasing,
    ensures
        0 <= m.victim() < m.voices.len(),
        m.voices[m.victim()].stage != Stage::Releasing,
        m.voices[m.victim()].age <= m.voices[i].age,
{
    let ages = m.voices.map_values(stealable_age());
    lemma_victim(m);
    lemma_least(ages);
    assert(ages[i] == m.voices[i].age);
    assert(ages[i] >= least(ages));
    let v = m.victim();
    assert(ages[v] == least(ages));
    assert(ages[v] == stealable_age()(m.voices[v]));
}

/// Ages stay behind the counter whatever is done, as long as the counter lasts.
pub proof fn ages_stay_behind_the_counter(m: PoolModel, trigger: Trigger, track: u16, i: int)
    requires
        m.wf(),
        m.young(),
        m.next_age + 1 < u64::MAX,
        0 <= i < m.voices.len(),
    ensures
        m.triggered(trigger).young(),
        m.track_released(track).young(),
        m.all_released().young(),
        m.ticked(i).young(),
        m.ran_out(i).young(),
        m.landed(i).young(),
{
    lemma_first_where_bounds(m.voices, free());
    lemma_victim(m);
    assert(m.voices[i].age < m.next_age && m.voices[i].pending_age < m.next_age);
    let after = m.triggered(trigger);
    assert forall|k: int| 0 <= k < after.voices.len() implies (#[trigger] after.voices[k]).age
        < after.next_age && after.voices[k].pending_age < after.next_age by {
        assert(m.voices[k].age < m.next_age);
    }
    let quiet = m.track_released(track);
    assert forall|k: int| 0 <= k < quiet.voices.len() implies (#[trigger] quiet.voices[k]).age
        < quiet.next_age && quiet.voices[k].pending_age < quiet.next_age by {
        assert(m.voices[k].age < m.next_age);
    }
    let silent = m.all_released();
    assert forall|k: int| 0 <= k < silent.voices.len() implies (#[trigger] silent.voices[k]).age
        < silent.next_age && silent.voices[k].pending_age < silent.next_age by {
        assert(m.voices[k].age < m.next_age);
    }
    let ticked = m.ticked(i);
    assert forall|k: int| 0 <= k < ticked.voices.len() implies (#[trigger] ticked.voices[k]).age
        < ticked.next_age && ticked.voices[k].pending_age < ticked.next_age by {
        assert(m.voices[k].age < m.next_age);
    }
    let out = m.ran_out(i);
    assert forall|k: int| 0 <= k < out.voices.len() implies (#[trigger] out.voices[k]).age
        < out.next_age && out.voices[k].pending_age < out.next_age by {
        assert(m.voices[k].age < m.next_age);
    }
    let landed = m.landed(i);
    assert forall|k: int| 0 <= k < landed.voices.len() implies (#[trigger] landed.voices[k]).age
        < landed.next_age && landed.voices[k].pending_age < landed.next_age by {
        assert(m.voices[k].age < m.next_age);
    }
}

// --- what each thing does to a voice ------------------------------------------------

/// A voice playing a note from its start: the note's sample, track, pitch, strength and length,
/// from silence, at an age, with nothing waiting behind it but what already was.
pub open spec fn plays_from_the_start(was: Voice, now: Voice, trigger: Trigger, age: u64) -> bool {
    &&& now.stage == Stage::Attack && now.env == 0
    &&& now.sample == Some(trigger.sample) && now.track == trigger.track
    &&& now.pitch == trigger.pitch && now.level == trigger.level && now.hold == trigger.hold
    &&& now.age == age
    &&& now.pending == was.pending && now.pending_age == was.pending_age
}

/// While a voice is free, a note takes the first that is and starts at once. No other voice is
/// touched and nothing is handed back.
pub proof fn a_note_takes_the_first_free_voice(m: PoolModel, trigger: Trigger, i: int)
    requires
        m.wf(),
        0 <= i < 64,
        m.voices[i].stage == Stage::Idle,
        forall|j: int| 0 <= j < i ==> (#[trigger] m.voices[j]).stage != Stage::Idle,
    ensures
        ({
            let now = m.triggered(trigger);
            &&& now.voices.len() == m.voices.len()
            &&& plays_from_the_start(m.voices[i], now.voices[i], trigger, m.next_age)
            &&& forall|j: int| 0 <= j < 64 && j != i ==> now.voices[j] == m.voices[j]
            &&& m.next_age < u64::MAX ==> now.next_age == m.next_age + 1
            &&& m.turned_away(trigger).len() == 0
        }),
{
    assert forall|j: int| 0 <= j < i implies !free()(#[trigger] m.voices[j]) by {}
    lemma_first_where(m.voices, free(), i);
}

/// With no voice free, a note waits for one that fades out to make room: the oldest of those that
/// are not fading already, or, when they all are, the one a note has been waiting for longest. That
/// one keeps its sample and its level; a note that was waiting for it gives way. No other voice is
/// touched. `v` is the voice.
#[verifier::rlimit(50)]
pub proof fn a_note_with_no_free_voice_waits_for_one(m: PoolModel, trigger: Trigger) -> (v: int)
    requires
        m.wf(),
        m.young(),
        forall|j: int| 0 <= j < 64 ==> (#[trigger] m.voices[j]).stage != Stage::Idle,
    ensures
        0 <= v < 64,
        ({
            let now = m.triggered(trigger);
            let (w, was) = (now.voices[v], m.voices[v]);
            &&& now.voices.len() == m.voices.len()
            &&& w.stage == Stage::Releasing
            &&& w.pending == Some(trigger) && w.pending_age == m.next_age
            &&& w.sample == was.sample && w.track == was.track && w.pitch == was.pitch && w.level
                == was.level
            &&& w.hold == was.hold && w.env == was.env && w.age == was.age
            &&& forall|j: int| 0 <= j < 64 && j != v ==> now.voices[j] == m.voices[j]
            &&& now.next_age == m.next_age + 1
            &&& match was.pending {
                Some(next) => m.turned_away(trigger) == seq![next.sample],
                None => m.turned_away(trigger).len() == 0,
            }
        }),
        forall|j: int|
            0 <= j < 64 && (#[trigger] m.voices[j]).stage != Stage::Releasing
                ==> m.voices[v].stage != Stage::Releasing && m.voices[v].age <= m.voices[j].age,
        m.voices[v].stage == Stage::Releasing ==> forall|j: int|
            0 <= j < 64 ==> m.voices[v].pending_age <= (#[trigger] m.voices[j]).pending_age,
{
    assert forall|j: int| 0 <= j < 64 implies !free()(#[trigger] m.voices[j]) by {}
    lemma_first_where(m.voices, free(), m.voices.len() as int);
    lemma_victim(m);
    let ages = m.voices.map_values(stealable_age());
    let waits = m.voices.map_values(waiting_age());
    lemma_least(ages);
    lemma_least(waits);
    let v = m.victim();
    assert(m.voices[v].wf());
    assert forall|j: int| 0 <= j < 64 && (#[trigger] m.voices[j]).stage
        != Stage::Releasing implies m.voices[v].stage != Stage::Releasing && m.voices[v].age
        <= m.voices[j].age by {
        the_oldest_is_stolen(m, j);
    }
    if m.voices[v].stage == Stage::Releasing {
        assert(least(ages) == u64::MAX) by {
            if least(ages) < u64::MAX {
                assert(ages[v] == stealable_age()(m.voices[v]));
            }
        }
        assert forall|j: int| 0 <= j < 64 implies m.voices[v].pending_age <= (
        #[trigger] m.voices[j]).pending_age by {
            assert(waits[j] == m.voices[j].pending_age);
            assert(waits[v] == m.voices[v].pending_age);
            assert(waits[j] >= least(waits));
            assert(waits[0] == m.voices[0].pending_age);
            assert(waits[0] >= least(waits));
        }
    }
    v
}

/// One frame on, a free voice is free. One that is coming in is a ninety sixth of the way further
/// in, and one that is fading a hundred and twenty eighth further out. A note that is held has a
/// frame less to go, and is let go with its last. Nothing else about a voice changes.
pub proof fn one_frame_on(v: Voice)
    requires
        v.wf(),
    ensures
        ({
            let w = v.ticked();
            let arrived = v.stage == Stage::Attack && v.env + 4 >= 384;
            let sounding = v.stage == Stage::Attack || v.stage == Stage::Playing;
            &&& v.stage == Stage::Idle ==> w == v
            &&& v.stage == Stage::Attack ==> w.env == (if arrived {
                384
            } else {
                v.env + 4
            })
            &&& v.stage == Stage::Playing ==> w.env == v.env
            &&& v.stage == Stage::Releasing ==> w.env == (if v.env <= 3 {
                0
            } else {
                v.env - 3
            })
            &&& v.stage == Stage::Releasing ==> w.stage == Stage::Releasing && w.hold == v.hold
            &&& sounding ==> match v.hold {
                Some(n) if n <= 1 => w.stage == Stage::Releasing && w.hold is None,
                Some(n) => w.hold == Some((n - 1) as u64) && w.stage == (if arrived {
                    Stage::Playing
                } else {
                    v.stage
                }),
                None => w.hold is None && w.stage == (if arrived {
                    Stage::Playing
                } else {
                    v.stage
                }),
            }
            &&& w.sample == v.sample && w.track == v.track && w.pitch == v.pitch && w.level
                == v.level
            &&& w.age == v.age && w.pending == v.pending && w.pending_age == v.pending_age
            &&& v.sounds_next() <==> sounding || (v.stage == Stage::Releasing && v.env > 3)
        }),
{
}

/// A voice that has faded out starts the note that was waiting for it, at the age it asked at, or
/// is free. Any other is left as it is, and so is every other voice.
pub proof fn a_faded_voice_makes_way(m: PoolModel, i: int)
    requires
        m.wf(),
        0 <= i < 64,
    ensures
        ({
            let now = m.landed(i);
            let (v, w) = (m.voices[i], now.voices[i]);
            let out = v.stage == Stage::Releasing && v.env == 0;
            &&& !out ==> w == v
            &&& out ==> match v.pending {
                Some(next) => plays_from_the_start(
                    Voice { pending: None, ..v },
                    w,
                    next,
                    v.pending_age,
                ),
                None => {
                    &&& w.stage == Stage::Idle && w.sample is None && w.env == 0
                    &&& w.pending is None && w.pending_age == v.pending_age
                    &&& w.track == v.track && w.pitch == v.pitch && w.level == v.level
                    &&& w.hold == v.hold && w.age == v.age
                },
            }
            &&& now.voices.len() == m.voices.len() && now.next_age == m.next_age
            &&& forall|j: int| 0 <= j < 64 && j != i ==> now.voices[j] == m.voices[j]
        }),
{
}

/// A voice whose sample has run out has nothing left to fade. Clearing the pool frees every voice.
pub proof fn running_out_and_clearing(m: PoolModel, i: int)
    requires
        m.wf(),
        0 <= i < 64,
    ensures
        ({
            let (v, w) = (m.voices[i], m.ran_out(i).voices[i]);
            &&& v.stage == Stage::Idle ==> w == v
            &&& v.stage != Stage::Idle ==> w.stage == Stage::Releasing && w.env == 0
            &&& w.sample == v.sample && w.track == v.track && w.pitch == v.pitch && w.level
                == v.level
            &&& w.hold == v.hold && w.age == v.age && w.pending == v.pending && w.pending_age
                == v.pending_age
            &&& forall|j: int| 0 <= j < 64 && j != i ==> m.ran_out(i).voices[j] == m.voices[j]
            &&& m.ran_out(i).next_age == m.next_age
        }),
        m.cleared().voices.len() == 64,
        forall|j: int|
            0 <= j < 64 ==> (#[trigger] m.cleared().voices[j]).stage == Stage::Idle
                && m.cleared().voices[j].sample is None && m.cleared().voices[j].pending is None
                && m.cleared().voices[j].env == 0,
        m.cleared().next_age == m.next_age,
{
}

/// A new pool has sixty four voices, all free.
pub proof fn a_new_pool_is_free()
    ensures
        PoolModel::fresh().voices.len() == 64,
        forall|i: int|
            0 <= i < 64 ==> (#[trigger] PoolModel::fresh().voices[i]).stage == Stage::Idle
                && PoolModel::fresh().voices[i].sample is None
                && PoolModel::fresh().voices[i].pending is None,
        PoolModel::fresh().sounding() == 0,
        PoolModel::fresh().young(),
{
    let pool = PoolModel::fresh();
    assert forall|i: int| 0 <= i < pool.voices.len() implies free()(#[trigger] pool.voices[i]) by {}
    lemma_filter_all(pool.voices, free());
}

/// The voices that are making sound are those that are not free, counted one by one: one more
/// voice counts for one more when it is not free, and for none when it is.
pub proof fn the_voices_that_sound_are_counted(voices: Seq<Voice>, v: Voice, next_age: u64)
    ensures
        (PoolModel { voices: Seq::empty(), next_age }).sounding() == 0,
        (PoolModel { voices: voices.push(v), next_age }).sounding() == (PoolModel {
            voices,
            next_age,
        }).sounding() + (if v.stage == Stage::Idle {
            0int
        } else {
            1int
        }),
{
    reveal(Seq::filter);
    assert(voices.push(v).drop_last() =~= voices);
    assert(voices.push(v).last() == v);
    assert(Seq::<Voice>::empty().filter(free()) =~= Seq::<Voice>::empty());
}

} // verus!
