//! An engine that is told every edit as it is made plays what an engine that is told the whole
//! project afterwards plays.

use std::sync::Arc;

use weetbeats::command::{Offer, Sender, TrashBin, COMMAND_CAPACITY, TRASH_CAPACITY};
use weetbeats::commands::{
    add_pattern, add_track, clear_note, clear_song_bar, close_pattern, duplicate_pattern,
    move_note, move_placement, open_pattern, place_pattern, remove_pattern, remove_track,
    resize_placement, set_note, set_pattern_pitched, set_pattern_steps, set_step, set_track_gain,
    set_track_muted, set_track_soloed, At,
};
use weetbeats::telling::push_project;
use weetbeats::voice::{Level, Stage};
use weetbeats::wav::Noise;
use weetbeats::{Command, Engine, Project, Sample, Shared, Single, MAX_TRACKS, MAX_VOICES};

fn single(x: f32) -> Single {
    Single { bits: x.to_bits() }
}

struct Player {
    engine: Box<Engine>,
    tx: rtrb::Producer<Command>,
    samples: Vec<Option<Arc<Sample>>>,
}

impl Player {
    fn new() -> Self {
        let shared = Arc::new(Shared::new());
        let (tx, rx) = rtrb::RingBuffer::new(COMMAND_CAPACITY);
        let (trash, _) = rtrb::RingBuffer::new(TRASH_CAPACITY);
        let engine = Engine::new(
            48_000,
            single(120.0),
            16,
            Arc::clone(&shared),
            rx,
            TrashBin::new(trash, shared),
        );
        Player {
            engine,
            tx,
            samples: Vec::new(),
        }
    }

    fn tell(&mut self, commands: Vec<Command>) {
        for command in commands {
            if let Err(rtrb::PushError::Full(back)) = self.tx.push(command) {
                self.engine.drain_commands();
                assert!(self.tx.push(back).is_ok(), "a drained queue has room");
            }
        }
        self.engine.drain_commands();
    }

    /// What starts on each of the next steps: which track, how high, how hard, and held how
    /// long. Every voice is cut off between them.
    fn hear(&mut self, steps: usize) -> Vec<Vec<(u16, u8, u8, Option<u64>)>> {
        let mut all = Vec::new();
        for _ in 0..steps {
            let frames = self.engine.begin_block(1);
            let mut started = Vec::new();
            for i in 0..MAX_VOICES {
                let voice = self.engine.voice(i);
                if voice.stage == Stage::Attack {
                    let Level::Velocity(hard) = voice.level else {
                        panic!("nothing was previewed");
                    };
                    started.push((voice.track, voice.pitch, hard, voice.hold));
                }
                if voice.stage != Stage::Idle {
                    self.engine.run_out(i);
                    self.engine.land(i);
                }
            }
            started.sort();
            all.push(started);
            self.engine.end_block(frames);
            let mut left = 6_000 - frames;
            while left > 0 {
                let more = self.engine.begin_block(left);
                self.engine.end_block(more);
                left -= more;
            }
        }
        all
    }
}

struct Dice {
    noise: Noise,
}

impl Dice {
    fn throw(&mut self, sides: u32) -> u32 {
        (self.noise.next() >> 8) % sides
    }
}

/// One edit, whatever the dice say, and what is said of it.
fn edit(project: &mut Project, samples: &mut Vec<Arc<Sample>>, dice: &mut Dice) -> Vec<Command> {
    let ids: Vec<u16> = project.patterns.iter().map(|p| p.id).collect();
    let pattern = ids[dice.throw(ids.len() as u32) as usize];
    let tracks: Vec<u16> = project.tracks.iter().map(|t| t.id).collect();
    let track = tracks[dice.throw(tracks.len() as u32) as usize];
    let step = dice.throw(24);
    let at = At {
        step,
        pitch: 58 + dice.throw(5) as u8,
    };
    match dice.throw(18) {
        0..=2 => {
            let on = dice.throw(3) != 0;
            set_step(project, pattern, track, step, on).commands
        }
        3..=5 => {
            let length = 1 + dice.throw(5);
            set_note(project, pattern, track, at, 90, length).commands
        }
        6 => clear_note(project, pattern, track, at).commands,
        7 => {
            let to = At {
                step: dice.throw(24),
                pitch: 60,
            };
            move_note(project, pattern, track, at, to).commands
        }
        8 => {
            let on = dice.throw(2) == 0;
            set_pattern_pitched(project, pattern, track, on).commands
        }
        9 => {
            let steps = 1 + dice.throw(24);
            set_pattern_steps(project, pattern, steps).commands
        }
        10 => add_pattern(project).map_or(Vec::new(), |told| told.commands),
        11 => duplicate_pattern(project, pattern).map_or(Vec::new(), |told| told.commands),
        12 => remove_pattern(project, pattern).map_or(Vec::new(), |told| told.commands),
        13 => place_pattern(project, pattern, dice.throw(64), dice.throw(20), true).commands,
        14 => move_placement(project, pattern, dice.throw(64), dice.throw(64)).commands,
        15 => resize_placement(project, pattern, dice.throw(64), dice.throw(30)).commands,
        16 => match dice.throw(3) {
            0 => clear_song_bar(project, dice.throw(4)).commands,
            1 => place_pattern(project, pattern, dice.throw(64), 0, false).commands,
            _ => {
                set_track_gain(project, track, single(0.4));
                set_track_muted(project, track, dice.throw(2) == 0);
                set_track_soloed(project, track, dice.throw(2) == 0).commands
            }
        },
        _ => {
            let mut all = Vec::new();
            if tracks.len() > 2 {
                all.extend(remove_track(project, track).commands);
            }
            let sample = Arc::new(Sample::from_data("s", 48_000, 1, vec![single(1.0); 4]));
            samples.push(Arc::clone(&sample));
            if let Some(told) = add_track(project, "samples/s.wav".into(), &sample) {
                all.extend(told.commands);
            }
            all
        }
    }
}

fn told_as_it_went(seed: u32) {
    let mut dice = Dice {
        noise: Noise::new(),
    };
    for _ in 0..seed * 37 {
        dice.noise.next();
    }
    let mut project = Project::default();
    let mut samples = Vec::new();
    let mut bit_by_bit = Player::new();
    let sample = Arc::new(Sample::from_data("s", 48_000, 1, vec![single(1.0); 4]));
    for _ in 0..2 {
        let told = add_track(&mut project, "samples/s.wav".into(), &sample).unwrap();
        bit_by_bit.tell(told.commands);
    }
    for _ in 0..120 {
        let commands = edit(&mut project, &mut samples, &mut dice);
        bit_by_bit.tell(commands);
    }

    let mut at_once = Player::new();
    at_once.samples = project.tracks.iter().map(|_| Some(Arc::clone(&sample))).collect();
    let whole = push_project(&project, &at_once.samples);
    at_once.tell(whole);

    for id in project.patterns.iter().map(|p| p.id).collect::<Vec<_>>() {
        for player in [&mut bit_by_bit, &mut at_once] {
            player.tell(open_pattern(id));
            player.tell(vec![Command::SetPlaying(true)]);
        }
        assert_eq!(bit_by_bit.hear(30), at_once.hear(30), "pattern {id}");
    }
    for player in [&mut bit_by_bit, &mut at_once] {
        player.tell(vec![close_pattern(), Command::SetPlaying(true)]);
    }
    let heard = bit_by_bit.hear(120);
    assert_eq!(heard, at_once.hear(120), "the song");
    for track in 0..MAX_TRACKS {
        // Whatever was said of a fader in passing, a slot no track has is silent in both.
        let there = project.tracks.iter().any(|t| t.id as usize == track);
        if !there {
            assert_eq!(bit_by_bit.engine.heading(track), single(0.0));
            assert_eq!(at_once.engine.heading(track), single(0.0));
        }
    }
}

#[test]
fn an_engine_told_every_edit_plays_the_project() {
    for seed in 0..12 {
        told_as_it_went(seed);
    }
}

/// A whole project goes to an engine that is full of another one, and nothing of that is left.
#[test]
fn an_engine_told_a_project_forgets_the_last_one() {
    let sample = Arc::new(Sample::from_data("s", 48_000, 1, vec![single(1.0); 4]));
    let mut old = Project::default();
    let mut player = Player::new();
    for _ in 0..5 {
        player.tell(add_track(&mut old, "s".into(), &sample).unwrap().commands);
    }
    for step in 0..16 {
        player.tell(set_step(&mut old, 0, 3, step, true).commands);
    }
    player.tell(place_pattern(&mut old, 0, 32, 0, true).commands);

    let mut new = Project::default();
    add_track(&mut new, "s".into(), &sample).unwrap();
    set_step(&mut new, 0, 0, 2, true);
    place_pattern(&mut new, 0, 0, 0, true);
    let whole = push_project(&new, &vec![Some(Arc::clone(&sample))]);
    player.tell(whole);
    player.tell(vec![Command::SetPlaying(true)]);
    let heard = player.hear(16);
    for (step, started) in heard.iter().enumerate() {
        assert_eq!(started.len(), usize::from(step == 2), "step {step}");
    }
}

/// A full queue is waited for until it is not worth it, and after that nothing waits.
#[test]
fn a_stuck_queue_is_not_waited_for_twice() {
    let (tx, mut rx) = rtrb::RingBuffer::new(2);
    let mut sender = Sender::new(tx);
    assert!(sender.is_patient());
    assert!(matches!(sender.offer(Command::Rewind, true, false), Offer::Sent));
    assert!(matches!(sender.offer(Command::StopAll, true, false), Offer::Sent));
    let Offer::Wait(back) = sender.offer(Command::ClearSong, true, false) else {
        panic!("there was no room, and it was worth waiting");
    };
    assert!(matches!(back, Command::ClearSong));
    assert!(sender.is_patient());
    assert!(matches!(sender.offer(back, true, true), Offer::GivenUp));
    assert!(!sender.is_patient());
    assert!(matches!(sender.offer(Command::Rewind, false, false), Offer::GivenUp));

    // What went across comes out in the order it went.
    assert!(matches!(rx.pop(), Ok(Command::Rewind)));
    assert!(matches!(rx.pop(), Ok(Command::StopAll)));
    assert!(rx.pop().is_err());
    assert!(matches!(sender.offer(Command::Rewind, false, false), Offer::Sent));
    assert!(sender.is_patient());
}

/// When there is no room for it in the return queue a sample is let go of, and counted.
#[test]
fn a_full_bin_counts_what_it_could_not_hand_back() {
    let shared = Arc::new(Shared::new());
    let (tx, mut rx) = rtrb::RingBuffer::new(1);
    let mut bin = TrashBin::new(tx, Arc::clone(&shared));
    let sample = Arc::new(Sample::from_data("s", 48_000, 1, Vec::new()));
    bin.put(Arc::clone(&sample));
    assert_eq!(shared.dropped_on_audio_thread(), 0);
    bin.put(Arc::clone(&sample));
    assert_eq!(shared.dropped_on_audio_thread(), 1);
    assert!(rx.pop().is_ok());
    assert_eq!(Arc::strong_count(&sample), 1);
}
