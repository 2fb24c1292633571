//! Everything that can be asked for: what it does to the project, what it answers, and what the
//! audio thread is told.

use std::sync::Arc;

use weetbeats::arriving::{arrived, imported, loaded, Arrival};
use weetbeats::commands::{
    add_pattern, add_track, audition, clear_note, clear_song_bar, close_pattern, complaint,
    duplicate_pattern, move_note, move_placement, open_pattern, panic_stop, place_pattern,
    remove_pattern, remove_track, rename_pattern, resize_placement, room_for_track, seek_song,
    set_bpm, set_note, set_pattern_colour, set_pattern_pitched, set_pattern_steps, set_playing,
    set_step, set_track_gain, set_track_muted, set_track_soloed, song_of, At, NotePut,
};
use weetbeats::folder::Imported;
use weetbeats::telling::{is_measurable, push_pattern, push_project, push_song};
use weetbeats::{
    Command, EngineNote, Placement, Project, Sample, Single, Track, MAX_PATTERNS, MAX_STEPS, MAX_TRACKS,
};

fn single(x: f32) -> Single {
    Single { bits: x.to_bits() }
}

fn said(commands: &[Command]) -> Vec<String> {
    commands.iter().map(|c| format!("{c:?}")).collect()
}

fn a_sample() -> Arc<Sample> {
    Arc::new(Sample::from_data("kick", 44_100, 1, vec![single(0.5); 8]))
}

fn kit() -> Project {
    let mut project = Project::default();
    for _ in 0..2 {
        add_track(&mut project, "samples/kick.wav".into(), &a_sample()).unwrap();
    }
    project
}

#[test]
fn a_box_is_ticked_in_the_project_and_in_the_engine() {
    let mut project = kit();
    let told = set_step(&mut project, 0, 1, 4, true);
    assert!(told.reply && told.touched);
    assert!(project.pattern(0).unwrap().has_step(1, 4));
    assert_eq!(
        said(&told.commands),
        said(&[Command::SetNote {
            pattern: 0,
            track: 1,
            note: EngineNote {
                step: 4,
                pitch: 60,
                velocity: 100,
                length: 1
            },
        }])
    );

    let told = set_step(&mut project, 0, 1, 4, false);
    assert!(!told.reply && told.touched);
    assert_eq!(
        said(&told.commands),
        said(&[Command::ClearNote {
            pattern: 0,
            track: 1,
            step: 4,
            pitch: 60
        }])
    );

    // A box that is not there, in a pattern that is, and in one that is not.
    for (pattern, step) in [(0, 16), (9, 0)] {
        let told = set_step(&mut project, pattern, 1, step, true);
        assert!(!told.reply && !told.touched && told.commands.is_empty());
    }
}

#[test]
fn a_note_past_the_end_makes_the_pattern_longer() {
    let mut project = kit();
    let told = set_note(&mut project, 0, 0, At { step: 20, pitch: 64 }, 0, 3);
    assert_eq!(
        told.reply,
        NotePut {
            fits: true,
            steps: 23
        }
    );
    assert_eq!(
        said(&told.commands),
        said(&[
            Command::SetNote {
                pattern: 0,
                track: 0,
                note: EngineNote {
                    step: 20,
                    pitch: 64,
                    velocity: 1,
                    length: 3
                },
            },
            Command::SetPatternSteps {
                pattern: 0,
                steps: 23
            },
        ])
    );

    // As long as a pattern can be, and a note that would run off the end is cut to it.
    let told = set_note(&mut project, 0, 0, At { step: 250, pitch: 64 }, 200, 99);
    assert_eq!(told.reply.steps, MAX_STEPS as u32);
    let note = project.pattern(0).unwrap().lane(0).unwrap().note(250, 64).unwrap();
    assert_eq!((note.length, note.velocity), (6, 127));

    // No pattern reaches this far. This one is as long as it can be already.
    let told = set_note(&mut project, 0, 0, At { step: 300, pitch: 64 }, 100, 1);
    assert_eq!(
        told.reply,
        NotePut {
            fits: false,
            steps: 256
        }
    );
    assert!(told.commands.is_empty() && told.touched);
    let told = set_note(&mut project, 7, 0, At { step: 0, pitch: 64 }, 100, 1);
    assert_eq!(
        told.reply,
        NotePut {
            fits: false,
            steps: 0
        }
    );
}

#[test]
fn a_note_no_pattern_reaches_still_says_how_long_the_pattern_is() {
    let mut project = kit();
    let told = set_note(&mut project, 0, 0, At { step: 300, pitch: 64 }, 100, 1);
    assert_eq!(
        told.reply,
        NotePut {
            fits: false,
            steps: 256
        }
    );
    assert_eq!(project.pattern(0).unwrap().steps, 256);
    assert_eq!(project.pattern(0).unwrap().note_count(), 0);
    assert_eq!(
        said(&told.commands),
        said(&[Command::SetPatternSteps {
            pattern: 0,
            steps: 256
        }])
    );
    assert!(told.touched);
}

#[test]
fn ticking_a_ticked_box_says_what_it_stands_for() {
    let mut project = kit();
    set_note(&mut project, 0, 1, At { step: 4, pitch: 60 }, 20, 3);
    let told = set_step(&mut project, 0, 1, 4, true);
    assert!(told.reply && told.touched);
    let note = project.pattern(0).unwrap().lane(1).unwrap().note(4, 60).unwrap();
    assert_eq!((note.velocity, note.length), (20, 3));
    assert_eq!(
        said(&told.commands),
        said(&[Command::SetNote {
            pattern: 0,
            track: 1,
            note: EngineNote {
                step: 4,
                pitch: 60,
                velocity: 20,
                length: 3
            },
        }])
    );
}

#[test]
fn the_engine_is_told_the_low_half_of_a_step() {
    let mut project = kit();
    set_step(&mut project, 0, 0, 4, true);
    let told = clear_note(&mut project, 0, 0, At { step: 65_540, pitch: 60 });
    assert_eq!(
        said(&told.commands),
        said(&[Command::ClearNote {
            pattern: 0,
            track: 0,
            step: 4,
            pitch: 60
        }])
    );
    assert!(told.touched);
    assert_eq!(project.pattern(0).unwrap().note_count(), 1);
}

#[test]
fn a_full_lane_takes_no_more_and_says_so() {
    let mut project = kit();
    for n in 0..256u32 {
        let at = At {
            step: n % 16,
            pitch: (n / 16) as u8,
        };
        assert!(set_note(&mut project, 0, 0, at, 100, 1).reply.fits);
    }
    let told = set_note(&mut project, 0, 0, At { step: 0, pitch: 99 }, 100, 1);
    assert!(!told.reply.fits && told.commands.is_empty() && told.touched);
    // One that is there already can still be changed.
    assert!(set_note(&mut project, 0, 0, At { step: 0, pitch: 0 }, 5, 1).reply.fits);
}

#[test]
fn a_moved_note_keeps_how_long_and_how_loud_it_is() {
    let mut project = kit();
    let from = At { step: 2, pitch: 60 };
    let to = At { step: 14, pitch: 72 };
    set_note(&mut project, 0, 0, from, 77, 4);
    let told = move_note(&mut project, 0, 0, from, to);
    assert!(told.reply && told.touched);
    let lane = project.pattern(0).unwrap().lane(0).unwrap();
    assert!(lane.note(2, 60).is_none());
    let note = lane.note(14, 72).unwrap();
    assert_eq!((note.velocity, note.length), (77, 2));
    assert_eq!(told.commands.len(), 2);

    for (at, to) in [
        (from, to),
        (to, At { step: 16, pitch: 72 }),
    ] {
        let told = move_note(&mut project, 0, 0, at, to);
        assert!(!told.reply && !told.touched && told.commands.is_empty());
    }
    let told = clear_note(&mut project, 0, 0, to);
    assert_eq!(told.commands.len(), 1);
    assert_eq!(project.pattern(0).unwrap().note_count(), 0);
}

#[test]
fn a_new_length_sends_the_pattern_across_again() {
    let mut project = kit();
    set_step(&mut project, 0, 0, 2, true);
    set_step(&mut project, 0, 0, 12, true);
    let told = set_pattern_steps(&mut project, 0, 8);
    assert_eq!(told.reply, 8);
    let mut wanted = said(&[Command::SetPatternSteps {
        pattern: 0,
        steps: 8,
    }]);
    wanted.extend(said(&push_pattern(&project, 0)));
    assert_eq!(said(&told.commands), wanted);
    assert_eq!(set_pattern_steps(&mut project, 0, 9_000).reply, 256);
    assert_eq!(set_pattern_steps(&mut project, 5, 4).reply, 0);
}

#[test]
fn patterns_come_and_go() {
    let mut project = kit();
    let second = add_pattern(&mut project).unwrap().reply;
    assert_eq!(second, 1);
    set_step(&mut project, second, 0, 3, true);
    let told = duplicate_pattern(&mut project, second).unwrap();
    assert_eq!(told.reply, 2);
    assert_eq!(said(&told.commands), said(&push_pattern(&project, 2)));
    assert!(project.pattern(2).unwrap().has_step(0, 3));

    let Err(why) = duplicate_pattern(&mut project, 20) else {
        panic!("copied a pattern that is not there");
    };
    assert_eq!(why, "that is as many patterns as there is room for");

    let Err(why) = remove_pattern(&mut project, 20) else {
        panic!("deleted a pattern that is not there");
    };
    assert_eq!(
        why,
        "there is no pattern 20 to delete \u{2014} reopen the project"
    );
    let told = remove_pattern(&mut project, second).unwrap();
    let mut wanted = said(&[Command::ClearPattern { pattern: second }]);
    wanted.extend(said(&push_song(&project)));
    assert_eq!(said(&told.commands), wanted);
    remove_pattern(&mut project, 2).unwrap();
    let Err(why) = remove_pattern(&mut project, 0) else {
        panic!("deleted the last pattern");
    };
    assert_eq!(why, "a song needs at least one pattern");

    for _ in 1..MAX_PATTERNS {
        add_pattern(&mut project).unwrap();
    }
    let Err(why) = add_pattern(&mut project) else {
        panic!("there is no room for another");
    };
    assert_eq!(why, "that is as many patterns as there is room for");
}

#[test]
fn a_pattern_is_called_what_it_is_told_to_be() {
    let mut project = Project::default();
    let told = rename_pattern(&mut project, 0, "  Chorus\u{3000}\n");
    assert_eq!(told.reply, "Chorus");
    assert!(told.touched && told.commands.is_empty());
    let long = "x".repeat(60);
    assert_eq!(rename_pattern(&mut project, 0, &long).reply, "x".repeat(40));
    // Blank is not a name.
    assert_eq!(rename_pattern(&mut project, 0, " \t ").reply, "Pattern 1");
    let told = rename_pattern(&mut project, 9, "Verse");
    assert_eq!(told.reply, "");
    assert!(!told.touched);

    assert!(set_pattern_colour(&mut project, 0, Some(3)).reply);
    assert_eq!(project.pattern(0).unwrap().colour, Some(3));
    assert!(!set_pattern_colour(&mut project, 9, None).reply);
}

#[test]
fn a_block_that_lands_on_another_says_the_other_is_gone() {
    let mut project = kit();
    let told = place_pattern(&mut project, 0, 0, 0, true);
    assert_eq!(told.reply.len(), 1);
    assert_eq!(
        said(&told.commands),
        said(&[
            Command::PlacePattern {
                pattern: 0,
                step: 0,
                length: 16
            },
            Command::SetSongLen(16),
        ])
    );
    let told = place_pattern(&mut project, 0, 8, 0, true);
    assert_eq!(
        said(&told.commands),
        said(&[
            Command::UnplacePattern {
                pattern: 0,
                step: 0
            },
            Command::PlacePattern {
                pattern: 0,
                step: 8,
                length: 16
            },
            Command::SetSongLen(32),
        ])
    );
    let told = resize_placement(&mut project, 0, 10, 40);
    assert!(told.touched);
    assert_eq!((told.reply[0].step, told.reply[0].length), (8, 40));
    assert_eq!(
        said(&told.commands),
        said(&[
            Command::PlacePattern {
                pattern: 0,
                step: 8,
                length: 40
            },
            Command::SetSongLen(48),
        ])
    );
    let told = move_placement(&mut project, 0, 30, 0);
    assert!(told.touched);
    assert_eq!(song_of(&project)[0].step, 0);
    assert_eq!(
        said(&told.commands),
        said(&[
            Command::UnplacePattern {
                pattern: 0,
                step: 8
            },
            Command::SetSongLen(48),
            Command::PlacePattern {
                pattern: 0,
                step: 0,
                length: 40
            },
            Command::SetSongLen(48),
        ])
    );
    let told = move_placement(&mut project, 0, 3_000, 0);
    assert!(!told.touched && told.commands.is_empty());
    let told = place_pattern(&mut project, 0, 0, 0, false);
    assert!(told.reply.is_empty());
    place_pattern(&mut project, 0, 16, 0, true);
    let told = clear_song_bar(&mut project, 1);
    assert!(told.reply.is_empty());
    assert_eq!(
        said(&told.commands),
        said(&[Command::ClearSong, Command::SetSongLen(0)])
    );
}

#[test]
fn a_block_is_told_as_it_was_asked_for() {
    let mut project = kit();
    // One that runs off the end of the longest song does not go in.
    let told = place_pattern(&mut project, 0, 4_090, 0, true);
    assert!(told.reply.is_empty() && told.touched);
    assert_eq!(
        said(&told.commands),
        said(&[
            Command::PlacePattern {
                pattern: 0,
                step: 4_090,
                length: 16
            },
            Command::SetSongLen(0),
        ])
    );
    // Nor does one of a pattern that is not there.
    let told = place_pattern(&mut project, 9, 0, 0, true);
    assert!(told.reply.is_empty());
    assert_eq!(
        said(&told.commands),
        said(&[
            Command::PlacePattern {
                pattern: 9,
                step: 0,
                length: 0
            },
            Command::SetSongLen(0),
        ])
    );
    // There is nothing here to take out.
    let told = place_pattern(&mut project, 0, 32, 0, false);
    assert_eq!(
        said(&told.commands),
        said(&[
            Command::UnplacePattern {
                pattern: 0,
                step: 32
            },
            Command::SetSongLen(0),
        ])
    );
    // The same block twice is said twice.
    place_pattern(&mut project, 0, 16, 0, true);
    let told = place_pattern(&mut project, 0, 16, 0, true);
    assert_eq!(told.reply.len(), 1);
    assert_eq!(
        said(&told.commands),
        said(&[
            Command::PlacePattern {
                pattern: 0,
                step: 16,
                length: 16
            },
            Command::SetSongLen(32),
        ])
    );
}

#[test]
fn tracks_come_and_go_with_their_samples() {
    let mut project = Project::default();
    let sample = a_sample();
    let told = add_track(&mut project, "samples/kick.wav".into(), &sample).unwrap();
    assert_eq!(told.reply.id, 0);
    assert_eq!(told.reply.name, "kick");
    assert_eq!(f32::from_bits(told.reply.gain.bits), 0.8);
    assert_eq!(Arc::strong_count(&sample), 2, "the engine shares the sample");
    add_track(&mut project, "samples/kick.wav".into(), &sample).unwrap();

    let told = remove_track(&mut project, 0);
    assert_eq!(told.reply, None, "the other track still plays it");
    assert_eq!(
        said(&told.commands),
        said(&[Command::RemoveTrack { track: 0 }])
    );
    let told = remove_track(&mut project, 1);
    assert_eq!(told.reply, Some("samples/kick.wav".into()));
    assert_eq!(remove_track(&mut project, 1).reply, None);

    for id in 0..MAX_TRACKS as u16 {
        assert_eq!(room_for_track(&project), Ok(id));
        project.tracks.push(Track::new(id, "x".into(), None));
    }
    assert_eq!(
        room_for_track(&project),
        Err("that is 32 tracks, which is all of them".into())
    );
    assert!(add_track(&mut project, "x".into(), &sample).is_none());
}

#[test]
fn faders_are_held_to_what_they_can_be() {
    let mut project = kit();
    let told = set_track_gain(&mut project, 1, single(7.0));
    assert_eq!(project.track(1).unwrap().gain, single(1.5));
    assert_eq!(
        said(&told.commands),
        said(&[Command::SetTrackGain {
            track: 1,
            gain: single(1.5)
        }])
    );
    set_track_gain(&mut project, 1, single(-1.0));
    assert_eq!(project.track(1).unwrap().gain, single(0.0));
    set_track_muted(&mut project, 1, true);
    set_track_soloed(&mut project, 1, true);
    assert!(project.track(1).unwrap().muted && project.track(1).unwrap().soloed);
    assert!(project.any_soloed());
    assert!(set_track_muted(&mut project, 20, true).commands.is_empty());

    assert_eq!(set_bpm(&mut project, single(1_000.0)).reply, single(240.0));
    assert_eq!(set_bpm(&mut project, single(3.0)).reply, single(40.0));
    assert_eq!(set_bpm(&mut project, single(99.5)).reply, single(99.5));
    assert_eq!(project.bpm, single(99.5));

    let told = set_pattern_pitched(&mut project, 0, 1, true);
    assert_eq!(told.commands.len(), 1);
    assert!(project.pattern(0).unwrap().is_pitched(1));
    assert!(set_pattern_pitched(&mut project, 9, 1, true).commands.is_empty());
}

#[test]
fn the_transport_says_what_it_was_asked() {
    assert_eq!(
        said(&[audition(3, None), audition(3, Some(72)), set_playing(true)]),
        said(&[
            Command::Audition {
                track: 3,
                pitch: 60,
                velocity: 110
            },
            Command::Audition {
                track: 3,
                pitch: 72,
                velocity: 110
            },
            Command::SetPlaying(true),
        ])
    );
    assert_eq!(
        said(&open_pattern(4)),
        said(&[Command::SetActivePattern(4), Command::SetSongMode(false)])
    );
    assert_eq!(
        said(&[close_pattern(), panic_stop()]),
        said(&[Command::SetSongMode(true), Command::StopAll])
    );
}

#[test]
fn a_project_goes_across_tracks_first() {
    let mut project = kit();
    set_step(&mut project, 0, 0, 3, true);
    place_pattern(&mut project, 0, 0, 0, true);
    let samples = vec![Some(a_sample()), None];
    let commands = said(&push_project(&project, &samples));
    let first = |what: &str| commands.iter().position(|c| c.starts_with(what)).unwrap();
    assert!(first("AddTrack") < first("SetNote"), "claiming a slot clears its notes");
    assert!(first("RemoveTrack") < first("AddTrack"));
    assert_eq!(commands.iter().filter(|c| c.starts_with("SetTrackSample")).count(), 1);
    assert_eq!(commands.iter().filter(|c| c.starts_with("RemoveTrack")).count(), MAX_TRACKS);
    assert_eq!(commands.iter().filter(|c| c.starts_with("ClearPattern")).count(), MAX_PATTERNS);
    assert_eq!(commands.last().unwrap(), "SetSongMode(true)");
}

#[test]
fn trouble_is_told_once_and_counted() {
    assert_eq!(complaint(&Vec::new()), None);
    let one = vec!["could not read a.wav".to_string()];
    assert_eq!(complaint(&one), Some("could not read a.wav".into()));
    let three = vec!["first".to_string(), "second".into(), "third".into()];
    assert_eq!(complaint(&three), Some("first (and 2 more)".into()));
    assert_eq!(said(&[seek_song(20)]), said(&[Command::SeekSong(20)]));
}

fn refused(arrival: Arrival) -> String {
    match arrival {
        Arrival::Refuse(why) => why,
        _ => panic!("it was not refused"),
    }
}

#[test]
fn a_file_becomes_a_track_a_step_at_a_time() {
    let mut project = Project::default();
    assert!(matches!(arrived(&project, "/x/kick.wav", false), Arrival::Import));
    let Arrival::Load { path, stale } = imported(Ok(Imported {
        path: "samples/kick.wav".into(),
        reused: false,
    })) else {
        panic!("there is a file to decode");
    };
    assert!(stale && path == "samples/kick.wav");
    let Arrival::Made(told) = loaded(&mut project, path, Ok(a_sample())) else {
        panic!("there is a track to be had");
    };
    assert_eq!(told.reply.id, 0);
    assert_eq!(project.tracks.len(), 1);
    assert_eq!(told.commands.len(), 2);
}

#[test]
fn a_file_that_cannot_have_a_track_is_refused_out_loud() {
    let mut project = Project::default();
    assert_eq!(
        refused(arrived(&project, "/x/drums.wav", true)),
        "drums.wav is a folder \u{2014} open it and pick the sounds inside"
    );
    assert_eq!(
        refused(arrived(&project, "/x/notes.txt", false)),
        "notes.txt is not a sound file"
    );
    assert_eq!(refused(imported(Err("no room on disk".into()))), "no room on disk");

    // One that will not decode is not left lying about, unless a track is using it.
    let broken = || Err("could not read it".to_string());
    let Arrival::Discard { path, why } = loaded(&mut project, "samples/a.wav".into(), broken())
    else {
        panic!("nothing can play it");
    };
    assert_eq!((path.as_str(), why.as_str()), ("samples/a.wav", "could not read it"));
    add_track(&mut project, "samples/a.wav".into(), &a_sample()).unwrap();
    assert_eq!(
        refused(loaded(&mut project, "samples/a.wav".into(), broken())),
        "could not read it"
    );

    while project.free_track_id().is_some() {
        add_track(&mut project, "samples/a.wav".into(), &a_sample()).unwrap();
    }
    let full = "that is 32 tracks, which is all of them";
    assert_eq!(refused(arrived(&project, "/x/kick.wav", false)), full);
    let too_late = loaded(&mut project, "samples/b.wav".into(), Ok(a_sample()));
    let Arrival::Discard { path, why } = too_late else {
        panic!("nothing plays it");
    };
    assert_eq!((path.as_str(), why.as_str()), ("samples/b.wav", full));
    assert_eq!(
        refused(loaded(&mut project, "samples/a.wav".into(), Ok(a_sample()))),
        full
    );
}

#[test]
fn a_song_nobody_could_measure_is_spotted() {
    let mut project = Project::default();
    assert!(is_measurable(&project));
    project.song.push(Placement {
        step: u32::MAX - 16,
        pattern: 0,
        length: 1,
    });
    assert!(is_measurable(&project));
    assert_eq!(project.song_steps(), u32::MAX - 15);
    project.song[0].length = 2;
    assert!(!is_measurable(&project));
    project.song[0].length = u32::MAX;
    assert!(!is_measurable(&project));
}
