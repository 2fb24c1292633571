//! What always holds, tried on values.

use std::path::{Component, Path};
use std::sync::Arc;

use weetbeats::browser::{sort_rows, Next, Place, Row, SampleEntry, Walk, MAX_DEPTH, MAX_FILES};
use weetbeats::command::{TrashBin, TRASH_CAPACITY};
use weetbeats::commands::{place_pattern, set_step};
use weetbeats::history::{History, Kind, MOST_STEPS};
use weetbeats::paths::{ending, file_name, join, stem, take_apart, Part};
use weetbeats::score::Score;
use weetbeats::spelling::{in_order, sort_names};
use weetbeats::text::{append_number, is_space, lower, same, shorten, trim};
use weetbeats::voice::{Level, Stage, Trigger, VoicePool, FULL, STEAL_FADE_FRAMES};
use weetbeats::wav::{wav_bytes, Noise};
use weetbeats::{
    EngineNote, Lane, Note, Pattern, Placement, Project, Sample, Shared, Single, Trash,
    MAX_PLACEMENTS, MAX_SONG_STEPS, MAX_VOICES,
};

fn single(x: f32) -> Single {
    Single { bits: x.to_bits() }
}

fn blocks(project: &Project) -> Vec<(u32, u16, u32)> {
    project
        .song
        .iter()
        .map(|p| (p.step, p.pattern, p.length))
        .collect()
}

// --- numbers and words --------------------------------------------------------

/// Holding a number between two others is what the arithmetic on the number itself does.
#[test]
fn a_number_is_held_as_its_value_would_be() {
    let mut values: Vec<f32> = vec![
        0.0,
        -0.0,
        1.0,
        -1.0,
        1.5,
        2.0,
        20.0,
        400.0,
        f32::MIN_POSITIVE,
        -f32::MIN_POSITIVE,
        f32::MAX,
        f32::MIN,
        f32::INFINITY,
        f32::NEG_INFINITY,
        f32::EPSILON,
    ];
    let mut noise = Noise::new();
    for _ in 0..2_000 {
        values.push(f32::from_bits(noise.next()));
    }
    for (low, high) in [(0.0f32, 1.5f32), (-3.0, 3.0), (20.0, 400.0), (-2.0, -1.0)] {
        for v in &values {
            let held = single(*v).clamp(single(low), single(high));
            if v.is_nan() {
                assert!(single(*v).is_nan());
                assert_eq!(held, single(*v));
            } else {
                assert!(!single(*v).is_nan());
                assert_eq!(f32::from_bits(held.bits), v.clamp(low, high));
            }
        }
    }
}

#[test]
fn a_number_is_written_as_it_is_read() {
    for n in [0u128, 7, 10, 99, 100, 12_345, u64::MAX as u128, u128::MAX] {
        let mut text = String::from("n = ");
        append_number(&mut text, n);
        assert_eq!(text, format!("n = {n}"));
    }
}

#[test]
fn white_space_is_what_it_is_everywhere() {
    for n in 0..=0x10ffffu32 {
        if let Some(c) = char::from_u32(n) {
            assert_eq!(is_space(c), c.is_whitespace(), "{n:x}");
        }
    }
    for text in ["", " ", "a", " a b ", "\t\u{85}x\u{2029}", "\u{3000}日本 語\u{a0}"] {
        assert_eq!(trim(text), text.trim());
    }
    assert_eq!(shorten("日本語", 2), "日本");
    assert_eq!(shorten("ab", 2), "ab");
    assert_eq!(lower("KICK-Ä 9"), "KICK-Ä 9".to_ascii_lowercase());
    assert!(same("a", "a") && !same("a", "A") && !same("a", "ab"));
}

#[test]
fn names_are_ordered_as_text_is() {
    let names = ["b", "a", "", "ab", "a b", "Z", "zz", "é", "日", "a\u{300}", "😀", "\u{ffff}"];
    for a in names {
        for b in names {
            assert_eq!(in_order(a, b), a <= b, "{a:?} {b:?}");
        }
    }
    let mut wanted: Vec<String> = names.iter().map(|n| n.to_string()).collect();
    let got = sort_names(wanted.clone());
    wanted.sort();
    assert_eq!(got, wanted);
}

/// A path comes apart as the standard library takes one apart.
#[test]
fn a_path_comes_apart_as_it_should() {
    for text in [
        "", ".", "..", "/", "//", "a", "a/b", "/a/b", "a//b", "a/./b", "./a", "a/../b", "../a",
        "a/", "/a/.", "/..", "a/b.c.d", ".hidden", "x/.hidden", "a.b/", "...", "/.../x.",
        "samples/kick 2.wav", "x/日本.wav",
    ] {
        let got: Vec<String> = take_apart(text)
            .iter()
            .map(|p| match p {
                Part::Root => "/".into(),
                Part::Here => ".".into(),
                Part::Up => "..".into(),
                Part::Name(n) => n.clone(),
            })
            .collect();
        let wanted: Vec<String> = Path::new(text)
            .components()
            .map(|c| match c {
                Component::RootDir => "/".into(),
                Component::CurDir => ".".into(),
                Component::ParentDir => "..".into(),
                other => other.as_os_str().to_str().unwrap().to_string(),
            })
            .collect();
        assert_eq!(got, wanted, "{text:?}");
        let path = Path::new(text);
        assert_eq!(
            file_name(text).as_deref(),
            path.file_name().map(|n| n.to_str().unwrap()),
            "{text:?}"
        );
        if let Some(name) = file_name(text) {
            assert_eq!(stem(&name), path.file_stem().unwrap().to_str().unwrap());
            assert_eq!(
                ending(&name).as_deref(),
                path.extension().map(|e| e.to_str().unwrap())
            );
        }
        assert_eq!(Path::new(&join(text, "x")), path.join("x"), "{text:?}");
    }
}

// --- patterns -----------------------------------------------------------------

#[test]
fn a_note_that_is_put_in_is_there_and_no_other_has_moved() {
    let mut lane = Lane::new(3);
    for step in [0, 4, 8] {
        lane.set_step(step, true);
    }
    let note = Note {
        step: 4,
        pitch: 67,
        velocity: 90,
        length: 3,
    };
    assert!(lane.set_note(note));
    assert_eq!(lane.note(4, 67), Some(note));
    assert!(lane.has_step(4) && lane.has_step(0) && lane.has_step(8));
    assert!(lane.clear_note(4, 67));
    assert_eq!(lane.note(4, 67), None);
    assert_eq!(lane.notes.len(), 3);
    assert_eq!(lane.find(8, 60), Some(2));
}

#[test]
fn drawing_for_one_track_leaves_the_others_alone() {
    let mut pattern = Pattern::new(0, "p".into());
    pattern.set_step(1, 3, true);
    pattern.set_step(2, 3, true);
    let before = pattern.lane(1).unwrap().notes.clone();
    pattern.set_step(2, 9, true);
    pattern.clear_note(2, 3, 60);
    pattern.set_pitched(2, true);
    assert_eq!(pattern.lane(1).unwrap().notes, before);
    assert!(!pattern.is_pitched(1));
    pattern.forget_track(2);
    assert!(pattern.lane(2).is_none() && !pattern.is_pitched(2));
    assert_eq!(pattern.lane(1).unwrap().notes, before);
}

#[test]
fn cutting_a_pattern_again_cuts_nothing() {
    let mut pattern = Pattern::new(0, "p".into());
    for step in [0u32, 3, 6] {
        pattern.set_note(
            0,
            Note {
                step,
                pitch: 60,
                velocity: 100,
                length: 5,
            },
        );
    }
    pattern.set_steps(7);
    let once = pattern.lane(0).unwrap().notes.clone();
    let lengths: Vec<u32> = once.iter().map(|n| n.length).collect();
    assert_eq!(lengths, vec![5, 4, 1]);
    pattern.set_steps(7);
    assert_eq!(pattern.lane(0).unwrap().notes, once);
}

#[test]
fn the_mask_has_a_bit_for_every_instrument() {
    let mut pattern = Pattern::new(0, "p".into());
    for track in [31, 0, 5, 5, 40] {
        assert!(pattern.set_pitched(track, true));
    }
    assert_eq!(pattern.pitched_mask(), (1 << 31) | 1 | (1 << 5));
    assert_eq!(pattern.pitched, vec![0, 5, 31, 40]);
    assert!(!pattern.set_pitched(5, false));
    assert_eq!(pattern.pitched_mask(), (1 << 31) | 1);
}

/// What the engine holds of a pattern, on its own.
#[test]
fn a_score_holds_what_it_is_given() {
    let mut score = Score::new(16);
    let note = |step, velocity| EngineNote {
        step,
        pitch: 60,
        velocity,
        length: 1,
    };
    for step in 0..3 {
        score.set_note(4, note(step, 100));
    }
    score.set_note(4, note(1, 50));
    assert_eq!(score.count(4), 3);
    assert_eq!(score.note(4, 1), note(1, 50));
    score.clear_note(4, 0, 60);
    // Order does not matter, so the last one fills the hole.
    assert_eq!(score.note(4, 0), note(2, 100));
    score.set_pitched(4, true);
    assert!(score.is_pitched(4));
    score.forget_track(4);
    assert_eq!(score.count(4), 0);
    assert!(!score.is_pitched(4));
    for step in 0..300 {
        score.set_note(0, note(step, 1));
    }
    assert_eq!(score.count(0), 256);
    assert_eq!(score.steps(), 16);
}

// --- the song -----------------------------------------------------------------

/// Whatever is done to it, a song stays in order, inside the longest song, and no pattern
/// overlaps itself.
#[test]
fn a_song_stays_tidy_whatever_is_done_to_it() {
    let mut noise = Noise::new();
    let mut throw = |sides: u32| (noise.next() >> 8) % sides;
    let mut project = Project::default();
    for _ in 0..3 {
        project.add_pattern().unwrap();
    }
    for _ in 0..4_000 {
        let pattern = throw(5) as u16;
        let step = throw(MAX_SONG_STEPS as u32 + 40);
        match throw(6) {
            0..=2 => {
                let length = throw(90);
                if project.place(pattern, step, length) {
                    assert!(project.placed(pattern, step));
                }
            }
            3 => {
                let was = project.placement_at(pattern, step).map(|b| b.length);
                let to = throw(MAX_SONG_STEPS as u32);
                if project.move_placement(pattern, step, to) {
                    assert_eq!(project.placement_at(pattern, to).unwrap().length, was.unwrap());
                }
            }
            4 => {
                let before = blocks(&project);
                if !project.resize_placement(pattern, step, throw(200)) {
                    assert_eq!(blocks(&project), before);
                }
            }
            _ => {
                project.unplace(pattern, step);
            }
        }
        let song = blocks(&project);
        assert!(song.len() <= MAX_PLACEMENTS);
        for (i, a) in song.iter().enumerate() {
            assert!(a.2 >= 1 && a.0 + a.2 <= MAX_SONG_STEPS as u32);
            assert!(project.pattern(a.1).is_some());
            for b in &song[i + 1..] {
                assert!((a.0, a.1) < (b.0, b.1));
                assert!(a.1 != b.1 || a.0 + a.2 <= b.0);
            }
        }
        let end = song.iter().map(|b| b.0 + b.2).max().unwrap_or(0);
        assert_eq!(project.song_steps(), end.div_ceil(16) * 16);
        assert_eq!(project.song_bars(), end.div_ceil(16));
    }
}

#[test]
fn a_song_holds_only_so_many_blocks() {
    let mut project = Project::default();
    project.set_pattern_steps(0, 1);
    let mut step = 0;
    while project.place(0, step, 1) {
        step += 2;
    }
    assert_eq!(project.song.len(), MAX_PLACEMENTS);
    // Taking one up makes room again, and putting it back gives the song there was.
    let before = blocks(&project);
    assert!(project.unplace(0, 4));
    assert!(project.place(0, 4, 1));
    assert_eq!(blocks(&project), before);
}

#[test]
fn blocks_that_share_a_step_overlap() {
    let block = |step, length| Placement {
        step,
        pattern: 0,
        length,
    };
    assert!(block(0, 4).overlaps(&block(3, 4)));
    assert!(block(3, 4).overlaps(&block(0, 4)));
    assert!(!block(0, 4).overlaps(&block(4, 4)));
    assert!(block(2, 4).covers(5) && !block(2, 4).covers(6) && !block(2, 4).covers(1));
    assert_eq!(block(2, 4).end(), 6);
    assert!(block(2, 4).ends_by(6) && !block(2, 4).ends_by(5));
}

// --- undo ---------------------------------------------------------------------

#[test]
fn undo_gives_back_the_project_there_was() {
    let mut history = History::new();
    let mut project = Project::default();
    history.remember(Kind::Boxes, 0, &project);
    set_step(&mut project, 0, 0, 3, true);
    history.remember(Kind::Song, 10_000, &project);
    place_pattern(&mut project, 0, 0, 0, true);

    assert!(history.undo(&mut project));
    assert!(project.song.is_empty() && project.pattern(0).unwrap().has_step(0, 3));
    assert!(history.undo(&mut project));
    assert!(!project.pattern(0).unwrap().has_step(0, 3));
    assert!(!history.undo(&mut project));
    assert!(history.redo(&mut project));
    assert!(history.redo(&mut project));
    assert_eq!(blocks(&project), vec![(0, 0, 16)]);
    assert!(!history.redo(&mut project));

    // An edit after an undo is the end of what was undone.
    history.undo(&mut project);
    history.remember(Kind::Name, 20_000, &project);
    assert!(!history.redo(&mut project));
    history.forget();
    assert!(!history.undo(&mut project));
}

#[test]
fn a_drag_is_undone_in_one_go() {
    let mut history = History::new();
    let mut project = Project::default();
    for n in 0..20u32 {
        history.remember(Kind::Boxes, n as u64 * 500, &project);
        set_step(&mut project, 0, 0, n % 16, n < 16);
    }
    assert!(history.undo(&mut project));
    assert_eq!(project.pattern(0).unwrap().note_count(), 0);
    assert!(!history.undo(&mut project));

    // Another kind of edit, or a pause, is a step of its own.
    let mut history = History::new();
    history.remember(Kind::Gain, 0, &project);
    history.remember(Kind::Mute, 10, &project);
    history.remember(Kind::Mute, 610, &project);
    assert!(history.undo(&mut project) && history.undo(&mut project));
    assert!(history.undo(&mut project) && !history.undo(&mut project));
}

#[test]
fn only_so_much_is_remembered() {
    let mut history = History::new();
    let mut project = Project::default();
    for n in 0..MOST_STEPS as u64 + 40 {
        history.remember(Kind::Tempo, n * 1_000, &project);
        project.bpm = single(60.0 + n as f32);
    }
    let mut steps = 0;
    while history.undo(&mut project) {
        steps += 1;
    }
    assert_eq!(steps, MOST_STEPS);
    assert_eq!(project.bpm, single(60.0 + 39.0));
}

// --- voices -------------------------------------------------------------------

fn a_bin() -> (TrashBin, rtrb::Consumer<Trash>) {
    let (tx, rx) = rtrb::RingBuffer::new(TRASH_CAPACITY);
    (TrashBin::new(tx, Arc::new(Shared::new())), rx)
}

fn asking(track: u16, hold: Option<u64>) -> Trigger {
    Trigger {
        sample: Arc::new(Sample::from_data("s", 48_000, 1, vec![single(1.0); 4])),
        track,
        pitch: 60,
        level: Level::Velocity(100),
        hold,
    }
}

#[test]
fn a_held_note_fades_when_it_is_over_and_not_before() {
    let (mut bin, mut rx) = a_bin();
    let mut pool = VoicePool::new();
    pool.trigger(asking(0, Some(300)), &mut bin);
    let mut levels = Vec::new();
    while let Some(level) = pool.tick(0) {
        levels.push(level);
    }
    // In over ninety six frames, held until the three hundredth, out over a hundred and twenty
    // eight, and never a jump.
    assert_eq!(levels[95], FULL);
    assert_eq!(levels[299], FULL);
    assert!(levels[300] < FULL);
    assert_eq!(levels.len() as u64, 300 + STEAL_FADE_FRAMES as u64 - 1);
    assert!(levels.windows(2).all(|w| w[0].abs_diff(w[1]) <= 4));

    pool.land(0, &mut bin);
    assert_eq!(pool.active(), 0);
    assert!(rx.pop().is_ok());
}

#[test]
fn a_one_shot_goes_on_until_its_sample_runs_out() {
    let (mut bin, _rx) = a_bin();
    let mut pool = VoicePool::new();
    pool.trigger(asking(0, None), &mut bin);
    for _ in 0..100_000 {
        assert!(pool.tick(0).is_some());
    }
    pool.run_out(0);
    assert_eq!(pool.tick(0), None);
}

#[test]
fn the_oldest_voice_makes_way() {
    let (mut bin, mut rx) = a_bin();
    let mut pool = VoicePool::new();
    for track in 0..MAX_VOICES as u16 {
        pool.trigger(asking(track, None), &mut bin);
    }
    assert_eq!(pool.active(), MAX_VOICES as u32);
    pool.trigger(asking(100, None), &mut bin);
    // The first one in fades out, and the new note starts when it has.
    assert_eq!(pool.voice(0).stage, Stage::Releasing);
    assert!(pool.voice(0).pending.is_some());
    assert_eq!(pool.voice(1).stage, Stage::Attack);
    while pool.tick(0).is_some() {}
    pool.land(0, &mut bin);
    assert_eq!(pool.voice(0).track, 100);
    assert_eq!(pool.voice(0).stage, Stage::Attack);
    assert!(rx.pop().is_ok(), "the stolen sample was not handed back");

    pool.release_track(100, &mut bin);
    assert_eq!(pool.voice(0).stage, Stage::Releasing);
    assert_eq!(pool.voice(1).stage, Stage::Attack);
    pool.release_all(&mut bin);
    assert_eq!(pool.voice(1).stage, Stage::Releasing);
    pool.clear(&mut bin);
    assert_eq!(pool.active(), 0);
}

/// A pool with every voice fading out and a note waiting for each, on tracks 200 and up.
fn a_queue(bin: &mut TrashBin) -> VoicePool {
    let mut pool = VoicePool::new();
    for n in 0..2 * MAX_VOICES as u16 {
        let track = if n < MAX_VOICES as u16 { n } else { 200 + n - MAX_VOICES as u16 };
        pool.trigger(asking(track, None), bin);
    }
    pool
}

fn taken(rx: &mut rtrb::Consumer<Trash>) -> usize {
    let mut count = 0;
    while rx.pop().is_ok() {
        count += 1;
    }
    count
}

#[test]
fn a_waiting_note_that_never_plays_gives_its_sample_back() {
    let (mut bin, mut rx) = a_bin();
    let mut pool = a_queue(&mut bin);
    assert_eq!(taken(&mut rx), 0);
    // Everything is on its way out, so this one takes the place of the note that waited longest.
    let mine = asking(300, None);
    let waited = Arc::clone(&pool.voice(0).pending.as_ref().unwrap().sample);
    pool.trigger(mine, &mut bin);
    assert_eq!(pool.voice(0).pending.as_ref().unwrap().track, 300);
    match rx.pop() {
        Ok(Trash::Sample(back)) => assert!(Arc::ptr_eq(&back, &waited)),
        Err(_) => panic!("the note that was waiting was freed"),
    }

    pool.release_all(&mut bin);
    assert_eq!(taken(&mut rx), MAX_VOICES);
    assert!((0..MAX_VOICES).all(|i| pool.voice(i).pending.is_none()));

    let mut pool = a_queue(&mut bin);
    pool.clear(&mut bin);
    assert_eq!(taken(&mut rx), 2 * MAX_VOICES);
    assert_eq!(pool.active(), 0);
}

#[test]
fn letting_a_track_go_gives_up_on_what_waits_for_its_voices() {
    let (mut bin, mut rx) = a_bin();
    let mut pool = a_queue(&mut bin);
    // Track 0 plays on the voice that a note of track 200 waits for.
    let waited = Arc::clone(&pool.voice(0).pending.as_ref().unwrap().sample);
    pool.release_track(0, &mut bin);
    match rx.pop() {
        Ok(Trash::Sample(back)) => assert!(Arc::ptr_eq(&back, &waited)),
        Err(_) => panic!("the note that was waiting was freed"),
    }
    assert!(pool.voice(0).pending.is_none());
    // Nothing plays track 201 yet, so there is nothing of it to let go.
    pool.release_track(201, &mut bin);
    assert_eq!(taken(&mut rx), 0);
    assert_eq!(pool.voice(1).pending.as_ref().unwrap().track, 201);
}

#[test]
fn a_project_as_edits_leave_it_needs_no_repair() {
    let mut project = Project::default();
    set_step(&mut project, 0, 0, 3, true);
    place_pattern(&mut project, 0, 32, 0, true);
    place_pattern(&mut project, 0, 0, 8, true);
    let before = format!("{project:?}");
    project.repair();
    assert_eq!(format!("{project:?}"), before);
}

// --- the browser --------------------------------------------------------------

fn listing(tree: &[&str]) -> Vec<String> {
    let children = |folder: &str| {
        let mut names: Vec<String> = tree
            .iter()
            .filter_map(|path| path.strip_prefix(folder))
            .filter_map(|rest| rest.strip_prefix('/'))
            .map(|rest| rest.split('/').next().unwrap().to_string())
            .collect();
        names.dedup();
        names.reverse();
        names
    };
    let mut walk = Walk::new("/pack", children("/pack"));
    loop {
        match walk.next() {
            Next::Done => break,
            Next::Again => {}
            Next::Look(place) => {
                if tree.contains(&place.path.as_str()) {
                    walk.saw_file(&place);
                } else {
                    let names = children(&place.path);
                    walk.saw_folder(&place, names);
                }
            }
        }
    }
    let list = walk.finish("/pack");
    assert_eq!(list.root, "/pack");
    list.entries
        .iter()
        .map(|e| format!("{}|{}|{}", e.folder, e.name, e.path))
        .collect()
}

#[test]
fn a_folder_is_listed_in_its_own_layout() {
    assert_eq!(
        listing(&[
            "/pack/Zap.wav",
            "/pack/drums/Kick.wav",
            "/pack/drums/clap.WAV",
            "/pack/drums/hats/open.flac",
            "/pack/drums/Äther.ogg",
            "/pack/notes.txt",
            "/pack/.git/secret.wav",
            "/pack/apple.mp3",
            "/pack/a/b/c/d/deep.wav",
            "/pack/a/b/c/d/e/too-deep.wav",
        ]),
        vec![
            "|apple|/pack/apple.mp3",
            "|Zap|/pack/Zap.wav",
            "a/b/c/d|deep|/pack/a/b/c/d/deep.wav",
            "drums|clap|/pack/drums/clap.WAV",
            "drums|Kick|/pack/drums/Kick.wav",
            "drums|Äther|/pack/drums/Äther.ogg",
            "drums/hats|open|/pack/drums/hats/open.flac",
        ]
    );
}

/// The names are ordered in small letters, whatever the alphabet: a capital past the end of the
/// plain ones comes where its small letter does.
#[test]
fn capitals_are_nothing_to_the_order() {
    assert_eq!(
        listing(&["/pack/ä1.wav", "/pack/Ä2.wav", "/pack/B.wav", "/pack/a.wav"]),
        vec![
            "|a|/pack/a.wav",
            "|B|/pack/B.wav",
            "|ä1|/pack/ä1.wav",
            "|Ä2|/pack/Ä2.wav",
        ]
    );
}

#[test]
fn a_list_stops_at_what_a_browser_can_show() {
    let names: Vec<String> = (0..MAX_FILES + 5).map(|n| format!("{n:05}.wav")).collect();
    let mut walk = Walk::new("/pack", names);
    loop {
        match walk.next() {
            Next::Done => break,
            Next::Again => {}
            Next::Look(place) => walk.saw_file(&place),
        }
    }
    let list = walk.finish("/pack");
    assert_eq!(list.entries.len(), MAX_FILES);
    assert!(list.truncated);
    assert_eq!(list.entries[0].name, "00000");
}

#[test]
fn a_folder_too_deep_is_not_looked_in() {
    let mut walk = Walk::new("/pack", vec!["a".into()]);
    let Next::Look(place) = walk.next() else {
        panic!("there is something to look at");
    };
    for (depth, more) in [(MAX_DEPTH, false), (usize::MAX, false), (MAX_DEPTH - 1, true)] {
        let deep = Place {
            path: place.path.clone(),
            name: place.name.clone(),
            folder: place.folder.clone(),
            depth,
        };
        walk.saw_folder(&deep, vec!["kick.wav".into()]);
        assert_eq!(matches!(walk.next(), Next::Look(_)), more, "{depth}");
    }
}

#[test]
fn a_full_list_is_cut_short_only_when_there_is_more() {
    for (extra, cut) in [(".hidden.wav", false), ("zz.txt", false), ("zz", false), ("zz.wav", true)] {
        let mut names: Vec<String> = (0..MAX_FILES).map(|n| format!("{n:05}.wav")).collect();
        names.push(extra.to_string());
        let mut walk = Walk::new("/pack", names);
        loop {
            match walk.next() {
                Next::Done => break,
                Next::Again => {}
                Next::Look(place) if place.name == "zz" => walk.saw_folder(&place, Vec::new()),
                Next::Look(place) => walk.saw_file(&place),
            }
        }
        let list = walk.finish("/pack");
        assert_eq!(list.entries.len(), MAX_FILES);
        assert_eq!(list.truncated, cut, "{extra}");
    }
}

#[test]
fn rows_that_tie_stay_as_they_came() {
    let row = |folder: &str, key: &str, path: &str| Row {
        entry: SampleEntry {
            path: path.into(),
            name: path.into(),
            folder: folder.into(),
        },
        key: key.into(),
    };
    let sorted = sort_rows(vec![
        row("b", "x", "1"),
        row("a", "y", "2"),
        row("a", "x", "3"),
        row("a", "y", "4"),
        row("", "z", "5"),
        row("a", "x", "6"),
    ]);
    let order: Vec<&str> = sorted.iter().map(|r| r.entry.path.as_str()).collect();
    assert_eq!(order, vec!["5", "3", "6", "2", "4", "1"]);
}

// --- the starter pack ---------------------------------------------------------

#[test]
fn the_noise_is_the_same_every_time_and_never_stops() {
    let mut a = Noise::new();
    let mut b = Noise::new();
    let mut x = 0x5eed_1234u32;
    for _ in 0..10_000 {
        x ^= x << 13;
        x ^= x >> 17;
        x ^= x << 5;
        let n = a.next();
        assert_eq!(n, x);
        assert_eq!(n, b.next());
        assert_ne!(n, 0);
    }
}

#[test]
fn a_file_says_what_is_in_it() {
    let bytes = wav_bytes(&vec![1, -2, 300]);
    assert_eq!(bytes.len(), 44 + 6);
    assert_eq!(&bytes[0..4], b"RIFF");
    assert_eq!(&bytes[4..8], &42u32.to_le_bytes());
    assert_eq!(&bytes[8..16], b"WAVEfmt ");
    assert_eq!(&bytes[24..28], &44_100u32.to_le_bytes());
    assert_eq!(&bytes[36..40], b"data");
    assert_eq!(&bytes[40..44], &6u32.to_le_bytes());
    assert_eq!(&bytes[44..], &[1, 0, 0xfe, 0xff, 0x2c, 1]);
}
