//! What the project holds, and what editing it does.

use weetbeats::{
    Note, Pattern, Project, SampleRef, Track, MAX_NOTES_PER_TRACK, MAX_PATTERNS, MAX_SONG_STEPS,
    MAX_STEPS, MAX_TRACKS, STEPS_PER_BAR,
};

fn kit() -> Project {
    let mut project = Project::default();
    project.tracks.push(Track::new(0, "kick".into(), None));
    project.tracks.push(Track::new(1, "snare".into(), None));
    project
}

#[test]
fn a_step_box_is_a_note() {
    let mut pattern = Pattern::new(0, "p".into());
    assert!(!pattern.has_step(0, 4));
    assert!(pattern.set_step(0, 4, true));
    assert!(pattern.has_step(0, 4));
    // Stored as a note at the sampler's unity pitch, which is what makes the piano
    // roll in stage 4 a different editor rather than a file format migration.
    assert_eq!(pattern.lane(0).unwrap().notes[0], Note::step_note(4));
    assert!(!pattern.set_step(0, 4, false));
    assert_eq!(pattern.note_count(), 0);
    // And the empty lane goes with it, so a pattern nobody drew in stays empty.
    assert!(pattern.lanes.is_empty());
}

#[test]
fn the_piano_roll_writes_into_the_same_lane_as_the_boxes() {
    let mut pattern = Pattern::new(0, "p".into());
    pattern.set_step(0, 0, true);
    // A note somewhere the boxes cannot reach: another pitch, and longer than a step.
    assert!(pattern.set_note(
        0,
        Note {
            step: 4,
            pitch: 67,
            velocity: 90,
            length: 3,
        }
    ));
    assert_eq!(pattern.note_count(), 2);
    // The box is still a box, and the note is not one.
    assert!(pattern.has_step(0, 0));
    assert!(!pattern.has_step(0, 4));

    // Setting one where another already is replaces it rather than doubling up.
    pattern.set_note(
        0,
        Note {
            step: 4,
            pitch: 67,
            velocity: 20,
            length: 1,
        },
    );
    assert_eq!(pattern.note_count(), 2);
    assert_eq!(pattern.lane(0).unwrap().note(4, 67).unwrap().velocity, 20);

    assert!(pattern.clear_note(0, 4, 67));
    assert!(!pattern.clear_note(0, 4, 67));
    assert_eq!(pattern.note_count(), 1);
}

#[test]
fn a_note_that_runs_off_a_shortened_pattern_is_cut_rather_than_lost() {
    let mut pattern = Pattern::new(0, "p".into());
    pattern.set_note(
        0,
        Note {
            step: 4,
            pitch: 60,
            velocity: 100,
            length: 8,
        },
    );
    pattern.set_steps(8);
    let note = pattern.lane(0).unwrap().note(4, 60).unwrap();
    assert_eq!(note.length, 4, "it should reach the end and no further");
}

#[test]
fn ticking_a_ticked_box_changes_nothing() {
    let mut pattern = Pattern::new(0, "p".into());
    pattern.set_step(0, 2, true);
    pattern.set_step(0, 2, true);
    assert_eq!(pattern.note_count(), 1);
}

#[test]
fn a_lane_will_not_grow_past_what_the_engine_holds() {
    let mut pattern = Pattern::new(0, "p".into());
    for step in 0..(MAX_NOTES_PER_TRACK as u32 + 20) {
        pattern.set_step(0, step, true);
    }
    assert_eq!(pattern.note_count(), MAX_NOTES_PER_TRACK);
}

#[test]
fn shortening_a_pattern_drops_the_notes_that_fall_off() {
    let mut pattern = Pattern::new(0, "p".into());
    for step in 0..16 {
        pattern.set_step(0, step, true);
    }
    assert_eq!(pattern.set_steps(8), 8);
    assert_eq!(pattern.note_count(), 8);
    assert!(pattern.lane(0).unwrap().notes.iter().all(|n| n.step < 8));
}

#[test]
fn pattern_length_is_capped_at_what_the_engine_plays() {
    let mut pattern = Pattern::new(0, "p".into());
    assert_eq!(pattern.set_steps(9_000), MAX_STEPS as u32);
    assert_eq!(pattern.set_steps(0), 1);
}

#[test]
fn patterns_hold_their_own_notes() {
    let mut project = kit();
    let second = project.add_pattern().unwrap();
    project.pattern_mut(0).unwrap().set_step(0, 0, true);
    project.pattern_mut(second).unwrap().set_step(0, 8, true);

    assert!(project.pattern(0).unwrap().has_step(0, 0));
    assert!(!project.pattern(0).unwrap().has_step(0, 8));
    assert!(project.pattern(second).unwrap().has_step(0, 8));
    // The instruments are the project's, so both patterns play the same kit.
    assert_eq!(project.tracks.len(), 2);
}

#[test]
fn track_ids_are_the_lowest_free_engine_slot() {
    let mut project = Project::default();
    assert_eq!(project.free_track_id(), Some(0));
    project.tracks.push(Track::new(0, "a".into(), None));
    project.tracks.push(Track::new(1, "b".into(), None));
    assert_eq!(project.free_track_id(), Some(2));

    // Deleting the middle one frees its slot for the next track, so the engine never
    // has to shuffle its state when a row is removed.
    project.remove_track(0);
    assert_eq!(project.free_track_id(), Some(0));
}

#[test]
fn slots_run_out_rather_than_overflowing() {
    let mut project = Project::default();
    for id in 0..MAX_TRACKS as u16 {
        project.tracks.push(Track::new(id, "x".into(), None));
    }
    assert_eq!(project.free_track_id(), None);

    while project.add_pattern().is_some() {}
    assert_eq!(project.patterns.len(), MAX_PATTERNS);
}

#[test]
fn deleting_a_track_takes_its_notes_with_it() {
    let mut project = kit();
    let second = project.add_pattern().unwrap();
    for id in [0, 1] {
        project.pattern_mut(0).unwrap().set_step(id, 0, true);
        project.pattern_mut(second).unwrap().set_step(id, 4, true);
    }

    project.remove_track(1);
    assert!(project.track(1).is_none());
    assert_eq!(project.pattern(0).unwrap().note_count(), 1);
    assert_eq!(project.pattern(second).unwrap().note_count(), 1);
    assert!(project.pattern(0).unwrap().lane(1).is_none());
}

#[test]
fn new_patterns_are_named_after_the_lowest_free_number() {
    let mut project = Project::default();
    let second = project.add_pattern().unwrap();
    assert_eq!(project.pattern(second).unwrap().name, "Pattern 2");
    project.pattern_mut(second).unwrap().name = "Chorus".into();
    let third = project.add_pattern().unwrap();
    assert_eq!(project.pattern(third).unwrap().name, "Pattern 2");
}

#[test]
fn duplicating_copies_the_notes_and_lands_next_to_the_original() {
    let mut project = kit();
    project.pattern_mut(0).unwrap().set_step(1, 6, true);
    project.add_pattern().unwrap();

    let copy = project.duplicate_pattern(0).unwrap();
    assert_eq!(
        project.patterns[1].id, copy,
        "the copy goes right after the original"
    );
    assert!(project.pattern(copy).unwrap().has_step(1, 6));

    // A copy is its own pattern: drawing in it leaves the original alone.
    project.pattern_mut(copy).unwrap().set_step(1, 7, true);
    assert!(!project.pattern(0).unwrap().has_step(1, 7));
}

#[test]
fn patterns_overlap_in_the_song_so_they_can_play_together() {
    let mut project = Project::default();
    let hats = project.add_pattern().unwrap();
    let snare = project.add_pattern().unwrap();

    // A kick, a hat and a snare pattern, all starting at the top of the song.
    assert!(project.place(0, 0, 0));
    assert!(project.place(hats, 0, 0));
    assert!(project.place(snare, 0, 0));
    assert_eq!(project.song.len(), 3);
    assert!(project.placed(hats, 0));
    assert_eq!(project.song_steps(), STEPS_PER_BAR);

    // Taking one out leaves the others where they are.
    assert!(project.unplace(hats, 0));
    assert!(!project.placed(hats, 0));
    assert!(project.placed(snare, 0));
}

/// The point of placing by the pattern's own length: a four step pattern takes four steps
/// of the song, not a whole bar of it.
#[test]
fn a_block_is_as_long_as_the_pattern_in_it_until_you_say_otherwise() {
    let mut project = Project::default();
    let short = project.add_pattern().unwrap();
    project.set_pattern_steps(short, 4);

    // One four step pattern at the top: four steps of music, one bar of song.
    assert!(project.place(short, 0, 0));
    assert_eq!(project.placement_at(short, 0).unwrap().length, 4);
    assert!(project.placement_at(short, 3).is_some());
    assert!(
        project.placement_at(short, 4).is_none(),
        "one block is one play through, not a bar of them"
    );
    assert_eq!(
        project.song_steps(),
        STEPS_PER_BAR,
        "the song still loops on the bar"
    );

    // And another one right where the first ended.
    assert!(project.place(short, 4, 0));
    assert_eq!(project.song.len(), 2);

    // Dragging its right edge out makes it repeat rather than making a second block.
    assert!(project.resize_placement(short, 0, 4 * 4));
    assert_eq!(
        project.song.len(),
        1,
        "growing over the next block of the same pattern swallows it"
    );
    assert_eq!(project.placement_at(short, 15).unwrap().step, 0);
}

/// The bug behind blocks nobody could click: a block is hit tested where it actually is,
/// not on a grid worked out from the pattern's length.
#[test]
fn a_block_off_the_patterns_grid_can_still_be_pointed_at() {
    let mut project = Project::default();
    project.set_pattern_steps(0, 32);
    // Step 48 is a bar boundary but not a multiple of 32 — where the old grid lost blocks.
    assert!(project.place(0, 48, 0));
    assert!(project.placement_at(0, 48).is_some());
    assert!(project.placement_at(0, 60).is_some());
    assert!(project.unplace(0, 48));
    assert!(project.song.is_empty());
}

#[test]
fn the_song_is_as_long_as_the_last_thing_in_it_rounded_up_to_a_bar() {
    let mut project = Project::default();
    let long = project.add_pattern().unwrap();
    project.set_pattern_steps(long, 32);

    project.place(0, 32, 0); // sixteen steps, at step 32
    assert_eq!(project.song_steps(), 48);
    project.place(long, 64, 0); // thirty two steps, at step 64
    assert_eq!(project.song_steps(), 96);
    assert_eq!(project.song_bars(), 6);
}

#[test]
fn a_pattern_cannot_sound_over_the_top_of_itself() {
    let mut project = Project::default();
    assert!(project.place(0, 48, 0));
    assert!(project.place(0, 48, 0));
    assert_eq!(project.song.len(), 1);
    // Landing halfway across it takes the place of it rather than doubling it up.
    assert!(project.place(0, 56, 0));
    assert_eq!(project.song.len(), 1);
    assert_eq!(project.song[0].step, 56);
}

#[test]
fn a_block_can_be_dragged_along_the_song() {
    let mut project = Project::default();
    project.place(0, 0, 0);
    assert!(project.move_placement(0, 0, 5));
    assert_eq!(project.placement_at(0, 5).unwrap().length, 16);
    assert!(project.placement_at(0, 0).is_none());
    // Grabbing it anywhere along its length moves the whole block.
    assert!(project.move_placement(0, 12, 0));
    assert!(project.placed(0, 0));
    // Dragging past the end of the song we hold leaves it where it was.
    assert!(!project.move_placement(0, 0, MAX_SONG_STEPS as u32 - 4));
    assert!(project.placed(0, 0));
}

#[test]
fn a_block_is_at_least_one_step_long() {
    let mut project = Project::default();
    project.place(0, 0, 0);
    assert!(project.resize_placement(0, 0, 0));
    assert_eq!(project.placement_at(0, 0).unwrap().length, 1);
    assert!(project.placement_at(0, 1).is_none());
}

#[test]
fn clearing_a_bar_takes_out_everything_that_starts_in_it() {
    let mut project = Project::default();
    let short = project.add_pattern().unwrap();
    project.set_pattern_steps(short, 4);
    // Four short placements across the first bar, and one in the second.
    for step in [0, 4, 8, 12, 16] {
        project.place(short, step, 0);
    }
    project.place(0, 0, 0);

    assert_eq!(project.clear_bar(0), 5, "four short ones and the long one");
    assert_eq!(project.song.len(), 1);
    assert!(project.placed(short, 16));
}

#[test]
fn changing_a_length_leaves_the_song_alone() {
    let mut project = Project::default();
    project.set_pattern_steps(0, 4);
    for step in [0, 4, 8, 12] {
        project.place(0, step, 0);
    }
    assert_eq!(project.song.len(), 4);

    // Four steps to sixteen. The blocks are the length they were put down at, so nothing
    // piles up and nothing moves — the music the file describes does not change.
    assert_eq!(project.set_pattern_steps(0, 16), 16);
    assert_eq!(project.song.len(), 4);
    assert!(project.placed(0, 12));
    assert_eq!(project.placement_at(0, 12).unwrap().length, 4);
}

#[test]
fn the_song_will_not_hold_a_pattern_that_does_not_exist() {
    let mut project = Project::default();
    assert!(!project.place(7, 0, 0));
    assert!(project.song.is_empty());
}

#[test]
fn the_song_has_an_end_to_it() {
    let mut project = Project::default();
    // A step way past the longest song we hold is refused rather than wrapped.
    assert!(!project.place(0, 100_000, 0));
    // And so is a block that would run off the end.
    assert!(!project.place(0, MAX_SONG_STEPS as u32 - 4, 16));
    assert!(project.song.is_empty());
}

#[test]
fn deleting_a_pattern_takes_it_out_of_the_song() {
    let mut project = Project::default();
    let second = project.add_pattern().unwrap();
    project.place(0, 0, 0);
    project.place(second, 0, 0);
    project.place(second, 16, 0);

    assert!(project.remove_pattern(second));
    assert_eq!(project.song.len(), 1);
    assert!(project.placed(0, 0));

    // The last pattern stays put, whatever anyone asks.
    assert!(!project.remove_pattern(0));
    assert_eq!(project.patterns.len(), 1);
}

/// Being an instrument is the pattern's business, so two patterns can disagree about the
/// same track.
#[test]
fn a_track_can_be_an_instrument_in_one_pattern_and_a_drum_in_another() {
    let mut project = kit();
    let second = project.add_pattern().unwrap();
    assert!(project.pattern_mut(second).unwrap().set_pitched(0, true));
    assert!(project.pattern(second).unwrap().is_pitched(0));
    assert!(!project.pattern(0).unwrap().is_pitched(0));
    assert_eq!(project.pattern(second).unwrap().pitched_mask(), 1);
    assert_eq!(project.pattern(0).unwrap().pitched_mask(), 0);

    // A copy of a pattern carries it, because it is part of the part.
    let copy = project.duplicate_pattern(second).unwrap();
    assert!(project.pattern(copy).unwrap().is_pitched(0));

    // And deleting the track takes it out of every pattern.
    project.remove_track(0);
    assert!(!project.pattern(second).unwrap().is_pitched(0));
}

/// It used to belong to the track, which meant every pattern. An old project has to sound
/// the way it did, so opening one marks every pattern for a track that was pitched.
#[test]
fn an_old_project_keeps_its_instruments() {
    let mut project = kit();
    project.add_pattern().unwrap();
    project.track_mut(1).unwrap().pitched = true;

    project.repair();
    for pattern in &project.patterns {
        assert!(pattern.is_pitched(1), "pattern {} lost it", pattern.id);
        assert!(!pattern.is_pitched(0));
    }
    assert!(
        !project.track(1).unwrap().pitched,
        "the old flag is still set, so it would be read again"
    );
}

#[test]
fn a_sample_is_shared_until_the_last_track_using_it_goes() {
    let mut project = Project::default();
    for id in 0..2 {
        project.tracks.push(Track::new(
            id,
            "kick".into(),
            Some(SampleRef {
                path: "samples/kick.wav".into(),
                name: "kick".into(),
            }),
        ));
    }
    assert_eq!(project.sample_users("samples/kick.wav"), 2);
    project.remove_track(0);
    assert_eq!(project.sample_users("samples/kick.wav"), 1);
    project.remove_track(1);
    assert_eq!(project.sample_users("samples/kick.wav"), 0);
}
