//! A project on disk: what goes where, what is refused, and what is made of an old file. The disk
//! is a list of files in memory.

use std::collections::BTreeMap;

use weetbeats::folder::{
    adding, candidate, importing, is_used, name_of, not_a_project, numbered, opened, project_file,
    project_name_for, removable, renamed, resolve, samples_dir, stash_dir, stashed, untitled,
    whined, writing_file, Adding, Imported, Importing, Occupied, LAST_ATTEMPT,
};
use weetbeats::paths::file_name;
use weetbeats::{Placement, Project, SampleRef, Single, Track, PROJECT_VERSION};

#[derive(Default)]
struct Disk {
    files: BTreeMap<String, Vec<u8>>,
}

impl Disk {
    fn file(&mut self, path: &str, contents: &[u8]) -> String {
        self.files.insert(path.to_string(), contents.to_vec());
        path.to_string()
    }

    fn import_sample(&mut self, dir: &str, source: &str) -> Result<Imported, String> {
        let name = file_name(source).expect("a file has a name");
        let contents = self.files[source].clone();
        let mut attempt = 1;
        loop {
            let target = format!("{}/{}", samples_dir(dir), candidate(&name, attempt));
            let found = match self.files.get(&target) {
                None => Occupied::Free,
                Some(there) if *there == contents => Occupied::Same,
                Some(_) => Occupied::Different,
            };
            match importing(&name, attempt, found) {
                Importing::Copy(imported) => {
                    self.files.insert(target, contents);
                    return Ok(imported);
                }
                Importing::Reuse(imported) => return Ok(imported),
                Importing::Next(next) => attempt = next,
                Importing::TooMany(why) => return Err(why),
            }
        }
    }

    fn remove_sample(&mut self, dir: &str, path: &str) -> Result<(), String> {
        self.files.remove(&removable(dir, path)?);
        Ok(())
    }

    fn samples(&self, dir: &str) -> Vec<String> {
        let inside = format!("{}/", samples_dir(dir));
        self.files
            .keys()
            .filter(|path| path.starts_with(&inside))
            .cloned()
            .collect()
    }

    fn forget_unused_samples(&mut self, dir: &str, project: &Project) -> usize {
        let stray: Vec<String> = self
            .samples(dir)
            .into_iter()
            .filter(|path| !is_used(project, &file_name(path).unwrap()))
            .collect();
        for path in &stray {
            self.files.remove(path);
        }
        stray.len()
    }

    fn read(&self, dir: &str, path: &str) -> Option<&[u8]> {
        self.files
            .get(&resolve(dir, path).unwrap())
            .map(|c| c.as_slice())
    }
}

fn track_playing(path: &str) -> Track {
    Track::new(
        0,
        "kick".into(),
        Some(SampleRef {
            path: path.into(),
            name: "kick".into(),
        }),
    )
}

/// Opening a project leaves the music where it is. An older version could write a
/// placement that no click could land on, and the answer to that is hit testing the
/// block rather than shoving it onto a grid it was never on.
#[test]
fn opening_a_project_does_not_move_anything() {
    let mut project = Project::default();
    project.set_pattern_steps(0, 32);
    project.place(0, 0, 0);
    // Where a length change under an older version would have left it: on the half bar.
    project.song[0].step = 48;

    let back = opened(project, "Wonky").unwrap();
    assert!(back.placed(0, 48), "it moved the music");
}

/// A placement of a pattern that is not there is the one thing worth throwing away.
#[test]
fn a_placement_of_a_pattern_that_is_gone_is_dropped() {
    let mut project = Project::default();
    project.place(0, 0, 0);
    project.song.push(Placement {
        step: 32,
        pattern: 9,
        length: 0,
    });

    let back = opened(project, "Orphan").unwrap();
    assert_eq!(back.song.len(), 1);
    assert!(back.placed(0, 0));
}

#[test]
fn a_project_from_the_future_says_so_rather_than_guessing() {
    let project = Project {
        version: PROJECT_VERSION + 5,
        ..Default::default()
    };
    let e = opened(project, "Later").unwrap_err();
    assert!(e.contains("newer Weetbeats"), "{e}");
    assert_eq!(
        e,
        format!(
            "Later was made by a newer Weetbeats (version {}), so this one will not open it",
            PROJECT_VERSION + 5
        )
    );
}

#[test]
fn a_project_with_no_patterns_is_refused() {
    let mut project = Project::default();
    project.patterns.clear();
    assert_eq!(
        opened(project, "Bare").unwrap_err(),
        "Bare has no patterns in it"
    );
}

#[test]
fn a_sample_is_copied_in_and_referred_to_relatively() {
    let mut disk = Disk::default();
    let dir = "/tmp/Song.beat";
    let source = disk.file("/tmp/kick.wav", b"boom");

    let sample = disk.import_sample(dir, &source).unwrap();
    assert_eq!(sample.path, "samples/kick.wav");
    assert!(!sample.reused);
    assert_eq!(disk.read(dir, &sample.path), Some(&b"boom"[..]));

    // The project keeps working when the original goes away, which is the whole point.
    disk.files.remove(&source);
    assert!(disk.read(dir, &sample.path).is_some());
}

#[test]
fn the_same_sample_twice_is_one_file() {
    let mut disk = Disk::default();
    let dir = "/tmp/Song.beat";
    let source = disk.file("/tmp/kick.wav", b"boom");

    let first = disk.import_sample(dir, &source).unwrap();
    let second = disk.import_sample(dir, &source).unwrap();
    assert_eq!(first.path, second.path);
    assert!(!first.reused);
    assert!(
        second.reused,
        "the second copy was not spotted as the same file"
    );
    assert_eq!(disk.samples(dir).len(), 1);
}

#[test]
fn two_different_samples_with_one_name_both_get_kept() {
    let mut disk = Disk::default();
    let dir = "/tmp/Song.beat";
    let mine = disk.file("/tmp/kick.wav", b"boom");
    let theirs = disk.file("/tmp/elsewhere/kick.wav", b"different boom");

    assert_eq!(
        disk.import_sample(dir, &mine).unwrap().path,
        "samples/kick.wav"
    );
    let theirs = disk.import_sample(dir, &theirs).unwrap();
    assert_eq!(theirs.path, "samples/kick 2.wav");
    assert!(
        !theirs.reused,
        "a different sound must not be taken for the same one"
    );
    assert_eq!(
        disk.read(dir, "samples/kick 2.wav"),
        Some(&b"different boom"[..])
    );
}

#[test]
fn a_name_is_given_up_on_in_the_end() {
    let mut disk = Disk::default();
    let dir = "/tmp/Song.beat";
    for attempt in 1..=LAST_ATTEMPT {
        let name = format!("{}/{}", samples_dir(dir), candidate("kick.wav", attempt));
        disk.file(&name, format!("{attempt}").as_bytes());
    }
    let source = disk.file("/tmp/kick.wav", b"boom");
    assert_eq!(
        disk.import_sample(dir, &source).unwrap_err(),
        "too many samples called kick.wav"
    );
    disk.files.remove("/tmp/Song.beat/samples/kick 998.wav");
    assert_eq!(
        disk.import_sample(dir, &source).unwrap().path,
        "samples/kick 998.wav"
    );
}

#[test]
fn a_sample_goes_when_its_track_does() {
    let mut disk = Disk::default();
    let dir = "/tmp/Song.beat";
    let source = disk.file("/tmp/clap.wav", b"clap");
    let path = disk.import_sample(dir, &source).unwrap().path;

    disk.remove_sample(dir, &path).unwrap();
    assert!(disk.read(dir, &path).is_none());
    // Asking twice is not an error: what matters is that it is gone.
    disk.remove_sample(dir, &path).unwrap();
}

#[test]
fn a_hand_edited_path_cannot_reach_out_of_the_project() {
    let mut disk = Disk::default();
    let dir = "/tmp/Song.beat";
    let outside = disk.file("/tmp/precious.wav", b"do not touch");

    assert!(resolve(dir, "../precious.wav").is_err());
    assert!(disk.remove_sample(dir, "../precious.wav").is_err());
    // An absolute path is not relative to anything, so it is refused too.
    assert!(disk.remove_sample(dir, &outside).is_err());
    assert!(
        disk.files.contains_key(&outside),
        "it deleted a file outside the project"
    );
}

#[test]
fn what_is_said_of_a_path_that_will_not_do() {
    assert_eq!(
        resolve("/p", "../x.wav").unwrap_err(),
        "../x.wav is not inside the project"
    );
    assert_eq!(
        resolve("/p", "").unwrap_err(),
        " is not inside the project"
    );
    assert_eq!(
        removable("/p", "project.json").unwrap_err(),
        "project.json is not one of the project's samples"
    );
    assert_eq!(
        removable("/p", "/etc/passwd").unwrap_err(),
        "/etc/passwd is not inside the project"
    );
    assert_eq!(removable("/p", "samples/x.wav").unwrap(), "/p/samples/x.wav");
}

#[test]
fn samples_nothing_refers_to_get_tidied_away() {
    let mut disk = Disk::default();
    let dir = "/tmp/Song.beat";
    let kick = disk.file("/tmp/kick.wav", b"boom");
    let kept = disk.import_sample(dir, &kick).unwrap().path;
    let stray = disk.file("/tmp/stray.wav", b"nobody wants me");
    disk.import_sample(dir, &stray).unwrap();

    let mut project = Project::default();
    project.tracks.push(track_playing(&kept));

    assert_eq!(disk.forget_unused_samples(dir, &project), 1);
    assert!(disk.read(dir, &kept).is_some());
    assert!(disk.read(dir, "samples/stray.wav").is_none());
}

#[test]
fn a_track_plays_a_file_however_its_path_is_spelled() {
    let mut project = Project::default();
    project.tracks.push(track_playing("samples//./kick.wav"));
    assert!(is_used(&project, "kick.wav"));
    assert!(!is_used(&project, "kick 2.wav"));
    project.tracks[0] = track_playing("samples/../samples/kick.wav");
    assert!(!is_used(&project, "kick.wav"));
    project.tracks[0] = track_playing("elsewhere/kick.wav");
    assert!(!is_used(&project, "kick.wav"));
}

#[test]
fn where_things_are_kept() {
    assert_eq!(project_file("/a/Song.beat"), "/a/Song.beat/project.json");
    assert_eq!(
        writing_file("/a/Song.beat"),
        "/a/Song.beat/project.json.writing"
    );
    assert_eq!(samples_dir("/a/Song.beat"), "/a/Song.beat/samples");
    assert_eq!(name_of("/a/MySong.beat"), "MySong");
    assert_eq!(name_of("/"), "Untitled");
    assert_eq!(untitled(1), "Untitled.beat");
    assert_eq!(untitled(2), "Untitled 2.beat");
    assert_eq!(project_name_for("/a/Song.beat"), None);
    assert_eq!(project_name_for("/a/Song"), Some("Song.beat".into()));
    assert_eq!(project_name_for("/a/Song.v2"), Some("Song.beat".into()));
}

#[test]
fn a_number_goes_before_the_ending() {
    assert_eq!(numbered("kick.wav", 2), "kick 2.wav");
    assert_eq!(numbered("kick", 3), "kick 3");
    assert_eq!(numbered(".hidden", 2), ".hidden 2");
    assert_eq!(numbered("a.b.c", 12), "a.b 12.c");
    assert_eq!(candidate("kick.wav", 1), "kick.wav");
}

#[test]
fn nothing_is_refused_in_silence() {
    assert!(matches!(adding("/x/kick.wav", false), Adding::Add));
    let Adding::Refuse(folder) = adding("/x/drums", true) else {
        panic!("a folder was taken for a sound");
    };
    assert_eq!(
        folder,
        "drums is a folder \u{2014} open it and pick the sounds inside"
    );
    let Adding::Refuse(other) = adding("/x/notes.txt", false) else {
        panic!("a text file was taken for a sound");
    };
    assert_eq!(other, "notes.txt is not a sound file");
    assert_eq!(
        not_a_project("/x/stuff"),
        "stuff is not a Weetbeats project \u{2014} look for a folder ending in .beat"
    );
    assert_eq!(
        whined("/x", "read", "no such file"),
        "could not read /x: no such file"
    );
}

/// An old project with blocks that say no length, one twice, out of order, is put right, and
/// putting it right again changes nothing.
#[test]
fn a_mended_project_needs_no_more_mending() {
    let mut project = Project {
        bpm: Single {
            bits: 143.0f32.to_bits(),
        },
        ..Default::default()
    };
    let second = project.add_pattern().unwrap();
    project.set_pattern_steps(second, 32);
    for (pattern, step) in [(second, 64), (0, 16), (0, 16), (0, 0)] {
        project.song.push(Placement {
            step,
            pattern,
            length: 0,
        });
    }
    let mut once = opened(project, "Old").unwrap();
    let blocks: Vec<(u32, u16, u32)> = once
        .song
        .iter()
        .map(|p| (p.step, p.pattern, p.length))
        .collect();
    assert_eq!(blocks, vec![(0, 0, 16), (16, 0, 16), (64, second, 32)]);
    assert_eq!(f32::from_bits(once.bpm.bits), 143.0);
    assert_eq!(once.repair(), 0);
    assert_eq!(once.song.len(), 3);
}

#[test]
fn a_sample_that_might_be_wanted_back_is_put_by() {
    assert_eq!(stash_dir("/a/Song.beat"), "/a/Song.beat/samples/.undo");
    assert_eq!(
        stashed("/a/Song.beat", "samples/kick 2.wav").unwrap(),
        "/a/Song.beat/samples/.undo/kick 2.wav"
    );
    assert_eq!(
        stashed("/a", "../kick.wav").unwrap_err(),
        "../kick.wav is not inside the project"
    );
    assert_eq!(
        stashed("/a", "kick.wav").unwrap_err(),
        "kick.wav is not one of the project's samples"
    );
}

#[test]
fn a_project_is_given_a_name_a_folder_can_have() {
    assert_eq!(renamed("  Night bus "), Ok("Night bus.beat".into()));
    assert_eq!(renamed("v1.2"), Ok("v1.2.beat".into()));
    for bad in ["", "   ", ".", "..", "a/b", "/a", "a/", "./a"] {
        assert_eq!(
            renamed(bad),
            Err("that is not a name for a project".into()),
            "{bad:?}"
        );
    }
}
