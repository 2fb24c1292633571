//! The one rule: the audio thread frees nothing of its own accord. Every sample it is done with is
//! handed back to the app thread, which drops it at its leisure. Only a full queue stands in the
//! way of that, and then it is counted.

use std::sync::Arc;

use vstd::multiset::Multiset;
use vstd::prelude::*;

use crate::command::Command;
use crate::playing::{EngineModel, TrackState};
use crate::sample::Sample;
use crate::seqs::{first_where, gathered, lemma_first_where_bounds};
use crate::voice::{
    free, given_up, held, hushed_on, lemma_stolen, silenced, waiting, waiting_on, PoolModel,
    Trigger, Voice,
};
use crate::{MAX_TRACKS, MAX_VOICES};

verus! {

/// The sample a track has.
pub open spec fn sample_of() -> spec_fn(TrackState) -> Seq<Arc<Sample>> {
    |t: TrackState|
        match t.sample {
            Some(sample) => seq![sample],
            None => Seq::empty(),
        }
}

impl PoolModel {
    /// Every sample the voices have hold of, for what they play and for what waits.
    pub open spec fn holding(self) -> Multiset<Arc<Sample>> {
        gathered(self.voices, held()).to_multiset()
    }
}

impl EngineModel {
    /// Every sample the engine has hold of: those of the tracks, of the voices, and of the notes
    /// waiting for a voice.
    pub open spec fn holding(self) -> Multiset<Arc<Sample>> {
        gathered(self.tracks, sample_of()).to_multiset().add(self.voices.holding())
    }

    /// How many times a sample is held or has been handed back.
    pub open spec fn accounted(self, s: Arc<Sample>) -> nat {
        self.holding().count(s) + self.handed.to_multiset().count(s)
    }
}

/// The samples that a command brings with it.
pub open spec fn brought(command: Command) -> Multiset<Arc<Sample>> {
    match command {
        Command::SetTrackSample { track, sample: Some(sample) } => Multiset::singleton(sample),
        Command::Preview { sample, gain } => Multiset::singleton(sample),
        _ => Multiset::empty(),
    }
}

/// The samples that several commands bring with them.
pub open spec fn all_brought(commands: Seq<Command>) -> Multiset<Arc<Sample>>
    decreases commands.len(),
{
    if commands.len() == 0 {
        Multiset::empty()
    } else {
        all_brought(commands.drop_last()).add(brought(commands.last()))
    }
}

// --- counting -------------------------------------------------------------------

/// How many times a sample is among some.
spec fn times(samples: Seq<Arc<Sample>>, s: Arc<Sample>) -> nat {
    samples.to_multiset().count(s)
}

proof fn lemma_times(s: Arc<Sample>)
    ensures
        times(Seq::empty(), s) == 0,
        forall|x: Arc<Sample>| #[trigger] times(seq![x], s) == (if x == s {
            1nat
        } else {
            0
        }),
{
    let none = Seq::<Arc<Sample>>::empty();
    none.to_multiset_ensures();
    assert(none.to_multiset().len() == 0);
    assert(!none.contains(s));
    assert forall|x: Arc<Sample>| #[trigger] times(seq![x], s) == (if x == s {
        1nat
    } else {
        0
    }) by {
        assert(seq![x] =~= none.push(x));
        assert(none.push(x).to_multiset() =~= none.to_multiset().insert(x));
    }
}

proof fn lemma_times_both(a: Seq<Arc<Sample>>, b: Seq<Arc<Sample>>, s: Arc<Sample>)
    ensures
        times(a + b, s) == times(a, s) + times(b, s),
{
    vstd::seq_lib::lemma_multiset_commutative(a, b);
}

proof fn lemma_times_next(a: Seq<Arc<Sample>>, x: Arc<Sample>, s: Arc<Sample>)
    ensures
        times(a.push(x), s) == times(a, s) + times(seq![x], s),
{
    lemma_times_both(a, seq![x], s);
    assert(a.push(x) =~= a + seq![x]);
}

/// One thing in the place of another makes the difference between the two.
proof fn lemma_gathered_update<A>(
    items: Seq<A>,
    each: spec_fn(A) -> Seq<Arc<Sample>>,
    i: int,
    x: A,
    s: Arc<Sample>,
)
    requires
        0 <= i < items.len(),
    ensures
        times(gathered(items.update(i, x), each), s) + times(each(items[i]), s) == times(
            gathered(items, each),
            s,
        ) + times(each(x), s),
    decreases items.len(),
{
    let now = items.update(i, x);
    let front = items.drop_last();
    lemma_times_both(gathered(front, each), each(items.last()), s);
    lemma_times_both(gathered(now.drop_last(), each), each(now.last()), s);
    if i == items.len() - 1 {
        assert(now.drop_last() =~= front);
    } else {
        lemma_gathered_update(front, each, i, x, s);
        assert(now.drop_last() =~= front.update(i, x));
    }
}

/// What every one of some things loses is lost by all of them together.
proof fn lemma_gathered_less<A>(
    items: Seq<A>,
    change: spec_fn(A) -> A,
    each: spec_fn(A) -> Seq<Arc<Sample>>,
    lost: spec_fn(A) -> Seq<Arc<Sample>>,
    s: Arc<Sample>,
)
    requires
        forall|a: A|
            times(each(a), s) == times(each(#[trigger] change(a)), s) + times(lost(a), s),
    ensures
        times(gathered(items, each), s) == times(gathered(items.map_values(change), each), s)
            + times(gathered(items, lost), s),
    decreases items.len(),
{
    let now = items.map_values(change);
    lemma_times(s);
    if items.len() > 0 {
        let front = items.drop_last();
        assert(now.drop_last() =~= front.map_values(change));
        lemma_gathered_less(front, change, each, lost, s);
        lemma_times_both(gathered(front, each), each(items.last()), s);
        lemma_times_both(gathered(now.drop_last(), each), each(now.last()), s);
        lemma_times_both(gathered(front, lost), lost(items.last()), s);
        assert(times(each(items.last()), s) == times(each(change(items.last())), s) + times(
            lost(items.last()),
            s,
        ));
    }
}

/// What one voice has hold of, counted.
proof fn lemma_held(v: Voice, s: Arc<Sample>)
    ensures
        times(held()(v), s) == times(v.waiting(), s) + times(v.kept(), s),
{
    lemma_times_both(v.waiting(), v.kept(), s);
}

// --- the voices -----------------------------------------------------------------

/// Giving a note a voice loses no sample: what the voices held, and the note's own, is held now or
/// handed back.
pub proof fn a_new_note_loses_no_sample(m: PoolModel, trigger: Trigger, s: Arc<Sample>)
    requires
        m.wf(),
    ensures
        m.triggered(trigger).wf(),
        m.holding().count(s) + Multiset::singleton(trigger.sample).count(s) == m.triggered(
            trigger,
        ).holding().count(s) + m.turned_away(trigger).to_multiset().count(s),
{
    let spare = first_where(m.voices, free());
    lemma_times(s);
    lemma_first_where_bounds(m.voices, free());
    assert(times(seq![trigger.sample], s) == Multiset::singleton(trigger.sample).count(s));
    assert(times(m.turned_away(trigger), s) == m.turned_away(trigger).to_multiset().count(s));
    if spare < m.voices.len() {
        let now = m.voices[spare].started(trigger, m.next_age);
        assert(m.voices[spare].wf());
        lemma_held(m.voices[spare], s);
        lemma_held(now, s);
        lemma_gathered_update(m.voices, held(), spare, now, s);
    } else if m.has_victim() {
        lemma_stolen(m);
        let v = m.victim();
        let now = Voice {
            pending: Some(trigger),
            pending_age: m.next_age,
            ..m.voices[v].released()
        };
        assert(m.voices[v].wf());
        assert(!free()(m.voices[v]));
        lemma_held(m.voices[v], s);
        lemma_held(now, s);
        lemma_gathered_update(m.voices, held(), v, now, s);
    }
}

/// Nor does giving voices to several.
proof fn lemma_all_triggered(m: PoolModel, triggers: Seq<Trigger>, s: Arc<Sample>)
    requires
        m.wf(),
    ensures
        m.all_triggered(triggers).wf(),
        m.holding().count(s) <= m.all_triggered(triggers).holding().count(s) + times(
            m.all_turned_away(triggers),
            s,
        ),
    decreases triggers.len(),
{
    if triggers.len() > 0 {
        let before = triggers.drop_last();
        lemma_all_triggered(m, before, s);
        a_new_note_loses_no_sample(m.all_triggered(before), triggers.last(), s);
        lemma_times_both(
            m.all_turned_away(before),
            m.all_triggered(before).turned_away(triggers.last()),
            s,
        );
    }
}

/// What one voice loses when a track is let go.
proof fn lemma_voice_hushed(v: Voice, track: u16, s: Arc<Sample>)
    ensures
        times(held()(v), s) == times(held()(hushed_on(track)(v)), s) + times(
            waiting_on(track)(v),
            s,
        ),
{
    lemma_times(s);
    lemma_held(v, s);
    lemma_held(v.hushed(track), s);
}

/// What one voice loses when everything is let go.
proof fn lemma_voice_silenced(v: Voice, s: Arc<Sample>)
    ensures
        times(held()(v), s) == times(held()(silenced()(v)), s) + times(waiting()(v), s),
{
    lemma_times(s);
    lemma_held(v, s);
    lemma_held(v.silenced(), s);
}

/// Letting a track go hands back the sample of every note that was waiting for its voices.
pub proof fn letting_a_track_go_loses_no_sample(m: PoolModel, track: u16, s: Arc<Sample>)
    requires
        m.wf(),
    ensures
        m.track_released(track).wf(),
        m.holding().count(s) == m.track_released(track).holding().count(s) + gathered(
            m.voices,
            waiting_on(track),
        ).to_multiset().count(s),
{
    assert forall|v: Voice|
        times(held()(v), s) == times(held()(#[trigger] hushed_on(track)(v)), s) + times(
            waiting_on(track)(v),
            s,
        ) by {
        lemma_voice_hushed(v, track, s);
    }
    lemma_gathered_less(m.voices, hushed_on(track), held(), waiting_on(track), s);
    assert forall|k: int| 0 <= k < m.voices.len() implies (
    #[trigger] m.track_released(track).voices[k]).wf() by {
        assert(m.voices[k].wf());
    }
}

/// Letting everything go hands back the sample of every note that will not come.
pub proof fn letting_everything_go_loses_no_sample(m: PoolModel, s: Arc<Sample>)
    requires
        m.wf(),
    ensures
        m.all_released().wf(),
        m.holding().count(s) == m.all_released().holding().count(s) + gathered(
            m.voices,
            waiting(),
        ).to_multiset().count(s),
{
    assert forall|v: Voice|
        times(held()(v), s) == times(held()(#[trigger] silenced()(v)), s) + times(
            waiting()(v),
            s,
        ) by {
        lemma_voice_silenced(v, s);
    }
    lemma_gathered_less(m.voices, silenced(), held(), waiting(), s);
    assert forall|k: int| 0 <= k < m.voices.len() implies (
    #[trigger] m.all_released().voices[k]).wf() by {
        assert(m.voices[k].wf());
    }
}

/// Once the voices have been cleared they hold nothing: all they held has been handed back, on
/// top of what had been before.
pub proof fn clearing_hands_everything_back(
    m: PoolModel,
    handed: Seq<Arc<Sample>>,
    s: Arc<Sample>,
)
    ensures
        m.cleared().holding().count(s) == 0,
        m.holding().count(s) + handed.to_multiset().count(s) == (handed + gathered(
            m.voices,
            held(),
        )).to_multiset().count(s),
{
    assert forall|v: Voice|
        times(held()(v), s) == times(held()(#[trigger] given_up()(v)), s) + times(held()(v), s) by {
        lemma_times(s);
        lemma_held(given_up()(v), s);
    }
    lemma_gathered_less(m.voices, given_up(), held(), held(), s);
    lemma_times_both(handed, gathered(m.voices, held()), s);
}

// --- the engine -----------------------------------------------------------------

/// One track in the place of another.
proof fn lemma_with_track(m: EngineModel, track: u16, state: TrackState, s: Arc<Sample>)
    requires
        m.tracks.len() == MAX_TRACKS,
        track < MAX_TRACKS,
    ensures
        m.with_track(track, state).holding().count(s) + times(
            sample_of()(m.tracks[track as int]),
            s,
        ) == m.holding().count(s) + times(sample_of()(state), s),
{
    lemma_gathered_update(m.tracks, sample_of(), track as int, state, s);
}

proof fn lemma_sample_replaced(
    m: EngineModel,
    track: u16,
    sample: Option<Arc<Sample>>,
    s: Arc<Sample>,
)
    requires
        m.tracks.len() == MAX_TRACKS,
        track < MAX_TRACKS,
    ensures
        m.sample_replaced(track, sample).accounted(s) == m.accounted(s) + (match sample {
            Some(x) => Multiset::singleton(x).count(s),
            None => 0,
        }),
{
    lemma_times(s);
    lemma_with_track(m, track, TrackState { sample, ..m.tracks[track as int] }, s);
    match m.tracks[track as int].sample {
        Some(old) => lemma_times_next(m.handed, old, s),
        None => {},
    }
    match sample {
        Some(x) => {
            assert(times(seq![x], s) == Multiset::singleton(x).count(s));
        },
        None => {},
    }
}

proof fn lemma_hushed(m: EngineModel, track: u16, s: Arc<Sample>)
    requires
        m.voices.wf(),
    ensures
        m.hushed(track).voices.wf(),
        m.hushed(track).accounted(s) == m.accounted(s),
{
    letting_a_track_go_loses_no_sample(m.voices, track, s);
    lemma_times_both(m.handed, gathered(m.voices.voices, waiting_on(track)), s);
}

proof fn lemma_struck(m: EngineModel, trigger: Trigger, s: Arc<Sample>)
    requires
        m.voices.wf(),
    ensures
        m.struck(trigger).voices.wf(),
        m.struck(trigger).accounted(s) == m.accounted(s) + Multiset::singleton(
            trigger.sample,
        ).count(s),
{
    a_new_note_loses_no_sample(m.voices, trigger, s);
    lemma_times_both(m.handed, m.voices.turned_away(trigger), s);
}

/// A command loses no sample: whatever the engine held, had handed back, or was brought, it holds
/// or has handed back. A command for a track that is not there is no exception.
pub proof fn a_command_loses_no_sample(m: EngineModel, command: Command, s: Arc<Sample>)
    requires
        m.tracks.len() == MAX_TRACKS,
        m.voices.wf(),
    ensures
        m.holding().count(s) + brought(command).count(s) + m.handed.to_multiset().count(s)
            <= m.applied(command).holding().count(s) + m.applied(
            command,
        ).handed.to_multiset().count(s),
        m.applied(command).tracks.len() == MAX_TRACKS,
        m.applied(command).voices.wf(),
{
    lemma_times(s);
    match command {
        Command::AddTrack { track, gain } => {
            if track < MAX_TRACKS {
                let state = TrackState {
                    active: true,
                    muted: false,
                    soloed: false,
                    target_gain: crate::playing::allowed(gain),
                    jump: true,
                    sample: m.tracks[track as int].sample,
                };
                lemma_with_track(m, track, state, s);
            }
        },
        Command::RemoveTrack { track } => {
            let quiet = m.hushed(track);
            lemma_hushed(m, track, s);
            if track < MAX_TRACKS {
                let gone = quiet.sample_replaced(track, None);
                lemma_sample_replaced(quiet, track, None, s);
                lemma_with_track(
                    gone,
                    track,
                    TrackState { active: false, ..gone.tracks[track as int] },
                    s,
                );
            }
        },
        Command::SetTrackSample { track, sample } => {
            let quiet = m.hushed(track);
            lemma_hushed(m, track, s);
            if track < MAX_TRACKS {
                lemma_sample_replaced(quiet, track, sample, s);
            } else {
                match sample {
                    Some(x) => {
                        lemma_times_next(quiet.handed, x, s);
                        assert(times(seq![x], s) == Multiset::singleton(x).count(s));
                    },
                    None => {},
                }
            }
        },
        Command::SetTrackGain { track, gain } => {
            if track < MAX_TRACKS {
                let state = TrackState {
                    target_gain: crate::playing::allowed(gain),
                    ..m.tracks[track as int]
                };
                lemma_with_track(m, track, state, s);
            }
        },
        Command::SetTrackMuted { track, muted } => {
            if track < MAX_TRACKS {
                lemma_with_track(m, track, TrackState { muted, ..m.tracks[track as int] }, s);
            }
        },
        Command::SetTrackSoloed { track, soloed } => {
            if track < MAX_TRACKS {
                lemma_with_track(m, track, TrackState { soloed, ..m.tracks[track as int] }, s);
            }
        },
        Command::Audition { track, pitch, velocity } => {
            match m.tracks[track as int].sample {
                Some(sample) if track < MAX_TRACKS => {
                    let trigger = Trigger {
                        sample,
                        track,
                        pitch,
                        level: crate::voice::Level::Velocity(velocity),
                        hold: None,
                    };
                    lemma_struck(m, trigger, s);
                },
                _ => {},
            }
        },
        Command::Preview { sample, gain } => {
            let trigger = Trigger {
                sample,
                track: crate::PREVIEW_TRACK,
                pitch: crate::DEFAULT_PITCH,
                level: crate::voice::Level::Gain(gain),
                hold: None,
            };
            lemma_struck(m, trigger, s);
        },
        Command::StopAll => {
            let stopped = EngineModel { playing: false, ..m }.rewound();
            letting_everything_go_loses_no_sample(stopped.voices, s);
            lemma_times_both(stopped.handed, gathered(stopped.voices.voices, waiting()), s);
        },
        _ => {},
    }
}

/// Nor do any number of commands, one after another.
pub proof fn commands_lose_no_sample(m: EngineModel, commands: Seq<Command>, s: Arc<Sample>)
    requires
        m.tracks.len() == MAX_TRACKS,
        m.voices.wf(),
    ensures
        m.holding().count(s) + all_brought(commands).count(s) + m.handed.to_multiset().count(s)
            <= m.all_applied(commands).holding().count(s) + m.all_applied(
            commands,
        ).handed.to_multiset().count(s),
        m.all_applied(commands).tracks.len() == MAX_TRACKS,
        m.all_applied(commands).voices.wf(),
    decreases commands.len(),
{
    if commands.len() > 0 {
        let before = commands.drop_last();
        commands_lose_no_sample(m, before, s);
        a_command_loses_no_sample(m.all_applied(before), commands.last(), s);
    }
}

/// Mixing loses no sample either: not the step that is played before a block of frames, not a
/// voice a frame on or at the end of its sample, not one that has faded out and is dealt with, and
/// not the clock moving on.
pub proof fn mixing_loses_no_sample(m: EngineModel, i: int, frames: int, s: Arc<Sample>)
    requires
        m.tracks.len() == MAX_TRACKS,
        m.voices.wf(),
        0 <= i < MAX_VOICES,
    ensures
        m.accounted(s) <= m.begun().accounted(s),
        m.accounted(s) == m.landed(i).accounted(s),
        m.accounted(s) == m.ended(frames).accounted(s),
        m.accounted(s) == (EngineModel { voices: m.voices.ticked(i), ..m }).accounted(s),
        m.accounted(s) == (EngineModel { voices: m.voices.ran_out(i), ..m }).accounted(s),
{
    let v = m.voices.voices[i];
    assert(v.wf());
    lemma_times(s);
    if m.playing && m.clock.due {
        let on = EngineModel { clock: m.clock.taken(), ..m };
        let triggers = if m.song_mode {
            on.song_due_upto(m.clock.step as int, crate::MAX_PATTERNS as int)
        } else {
            on.due(on.active_pattern, m.clock.step as u16)
        };
        lemma_all_triggered(m.voices, triggers, s);
        lemma_times_both(m.handed, m.voices.all_turned_away(triggers), s);
    }
    lemma_held(v, s);
    lemma_held(v.ticked(), s);
    lemma_gathered_update(m.voices.voices, held(), i, v.ticked(), s);
    lemma_held(v.ran_out(), s);
    lemma_gathered_update(m.voices.voices, held(), i, v.ran_out(), s);
    if m.voices.at_rest(i) {
        lemma_times_both(m.handed, v.kept(), s);
        let now = match v.pending {
            Some(next) => Voice { pending: None, ..v }.started(next, v.pending_age),
            None => v.stopped(),
        };
        lemma_held(now, s);
        lemma_gathered_update(m.voices.voices, held(), i, now, s);
    }
}

} // verus!
