//! The step clock.

use weetbeats::clock::StepClock;
use weetbeats::Single;

fn beats(bpm: f32) -> Single {
    Single {
        bits: bpm.to_bits(),
    }
}

fn ratio((a, b): (u64, u64)) -> f64 {
    a as f64 / b as f64
}

#[test]
fn sixteenths_at_120bpm() {
    // 120bpm is 2 beats a second, 4 steps a beat, so 8 steps a second.
    let clock = StepClock::new(44_100, beats(120.0), 16);
    assert_eq!(ratio(clock.samples_per_step()), 5512.5);
}

/// The point of the whole module: no drift, even though a step is not a whole number
/// of frames and the callback size has nothing to do with the tempo.
#[test]
fn does_not_drift_over_a_minute() {
    let mut clock = StepClock::new(44_100, beats(137.0), 16);
    let mut steps = 0u32;
    let mut rendered = 0usize;
    let total = 44_100 * 60;
    while rendered < total {
        if clock.due() {
            clock.take_step();
            steps += 1;
        }
        // An awkward callback size that never lines up with a step.
        let n = clock.frames_to_next_step().min(411).min(total - rendered);
        clock.advance(n);
        rendered += n;
    }
    // 137bpm at 4 steps a beat is 548 steps a minute. The one at frame 0 counts; the
    // one landing on the very last frame belongs to the next minute.
    assert_eq!(steps, 548);
    // And the last one has to be where the maths says, not a frame either side.
    let expected_last = (547.0 * 44_100.0 * 60.0 / (137.0 * 4.0)) as usize;
    assert!(rendered >= expected_last);
}

#[test]
fn wraps_at_the_end_of_the_pattern() {
    let mut clock = StepClock::new(48_000, beats(120.0), 4);
    let mut seen = Vec::new();
    for _ in 0..9 {
        if clock.due() {
            seen.push(clock.take_step());
        }
        clock.advance(clock.frames_to_next_step());
    }
    assert_eq!(seen, vec![0, 1, 2, 3, 0, 1, 2, 3, 0]);
}

#[test]
fn tempo_change_keeps_the_playhead_inside_the_step() {
    let mut clock = StepClock::new(44_100, beats(60.0), 16);
    clock.advance(5_000);
    clock.set_bpm(beats(240.0));
    assert!(ratio(clock.progress()) <= 1.0);
    assert!(clock.frames_to_next_step() >= 1);
}

#[test]
fn coming_round_to_the_top_is_reported_once() {
    let mut clock = StepClock::new(48_000, beats(120.0), 4);
    for _ in 0..3 {
        clock.advance(clock.frames_to_next_step());
        assert!(
            !clock.take_wrapped(),
            "wrapped in the middle of the pattern"
        );
    }
    clock.advance(clock.frames_to_next_step());
    assert_eq!(clock.step(), 0);
    assert!(
        clock.take_wrapped(),
        "the pattern came round and nobody said so"
    );
    assert!(!clock.take_wrapped(), "reported the same wrap twice");
}

#[test]
fn shrinking_the_pattern_pulls_the_playhead_back() {
    let mut clock = StepClock::new(44_100, beats(120.0), 16);
    for _ in 0..10 {
        clock.advance(clock.frames_to_next_step());
    }
    assert_eq!(clock.step(), 10);
    clock.set_steps(8);
    assert_eq!(clock.step(), 0);
}

/// Every tempo the clock keeps gives the step length that the arithmetic on the number itself
/// gives.
#[test]
fn a_step_is_as_long_as_the_tempo_says() {
    for rate in [8_000u32, 44_100, 48_000, 96_000, 192_000] {
        let mut bpm = 20.0f32;
        while bpm <= 400.0 {
            let clock = StepClock::new(rate, beats(bpm), 16);
            let wanted = rate as f64 * 60.0 / (bpm as f64 * 4.0);
            assert!(
                (ratio(clock.samples_per_step()) - wanted).abs() < 1e-6,
                "{bpm} at {rate}"
            );
            bpm += 0.37;
        }
    }
}

#[test]
fn a_tempo_past_what_the_clock_keeps_is_held() {
    assert_eq!(StepClock::new(48_000, beats(1.0), 16).bpm(), beats(20.0));
    assert_eq!(StepClock::new(48_000, beats(9_000.0), 16).bpm(), beats(400.0));
    assert_eq!(StepClock::new(48_000, beats(-3.0), 16).bpm(), beats(20.0));
    assert_eq!(StepClock::new(0, beats(120.0), 16).rate(), 1);
}

/// The frames it says are left are the frames it takes, at any callback size.
#[test]
fn the_next_step_comes_on_the_frame_it_was_said_to() {
    let mut clock = StepClock::new(44_100, beats(133.7), 7);
    for step in 1..200u32 {
        let left = clock.frames_to_next_step();
        if left > 1 {
            clock.advance(left - 1);
            assert_eq!(clock.step(), (step - 1) % 7);
        }
        clock.advance(if left > 1 { 1 } else { left });
        assert_eq!(clock.step(), step % 7);
        assert!(clock.due());
        assert_eq!(clock.take_step(), step % 7);
        assert!(!clock.due());
    }
}

#[test]
fn a_jump_past_the_end_lands_on_the_last_step() {
    let mut clock = StepClock::new(48_000, beats(120.0), 16);
    clock.advance(7_000);
    clock.jump_to(9);
    assert_eq!(clock.step(), 9);
    assert!(clock.due());
    assert_eq!(clock.progress().0, 0);
    clock.jump_to(40);
    assert_eq!(clock.step(), 15);
    clock.rewind();
    assert_eq!(clock.step(), 0);
    assert_eq!(clock.steps(), 16);
}
