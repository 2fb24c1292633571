//! A project on disk: what everything in it is called, and what may be done to it.
//!
//! A project is a folder, so it can be sent to a friend in one piece:
//!
//! ```text
//! MySong.beat/
//!   project.json
//!   samples/
//!     kick.wav
//!     clap.wav
//! ```
//!
//! Sample paths in `project.json` are relative to the folder. A sample is copied in the
//! moment its track is added and deleted when the last track using it goes, rather than
//! being gathered up at save time. That way the folder is always complete — there is no
//! window where a project refers to a file somewhere else that could move or be deleted —
//! and the only way to break a project is to go into the folder and break it by hand.

use vstd::prelude::*;
use vstd::string::{StrSliceExecFns, StringExecFns};

use crate::paths::{
    a_name_is_its_stem_and_its_ending, a_name_on_the_end_is_one_more_piece,
    a_path_ends_in_the_name_on_its_end, a_path_starts_at_the_root_or_does_not, ending, ending_of,
    file_name, join, joined, last_dot, last_name, part_view, parts, parts_of, pieces, proper, stem,
    stem_of, take_apart, text_is_cut_at_every_slash, there_is_no_dot_after_the_last,
    what_a_piece_is, what_is_put_on_the_end_is_at_the_end, Part, PartModel,
};
use crate::project::{Project, Track, PROJECT_VERSION};
use crate::text::{append_number, digits, same, trim, trimmed};

verus! {

/// What a project folder is called, so the file picker can filter for it.
pub const PROJECT_EXTENSION: &'static str = "beat";

/// The file the project itself lives in.
pub const PROJECT_FILE: &'static str = "project.json";

/// The folder samples are copied into, inside the project folder.
pub const SAMPLES_DIR: &'static str = "samples";

/// The folder, inside that one, for the samples of deleted tracks that a step back might still
/// want. Opening a project throws it away.
pub const STASH_DIR: &'static str = ".undo";

pub fn project_file(dir: &str) -> (r: String)
    ensures
        r@ == joined(dir@, PROJECT_FILE@),
{
    join(dir, PROJECT_FILE)
}

/// Where the project is written before it is renamed into place, so a crash halfway through
/// cannot leave half a project behind.
pub fn writing_file(dir: &str) -> (r: String)
    ensures
        r@ == joined(dir@, "project.json.writing"@),
{
    join(dir, "project.json.writing")
}

pub fn samples_dir(dir: &str) -> (r: String)
    ensures
        r@ == joined(dir@, SAMPLES_DIR@),
{
    join(dir, SAMPLES_DIR)
}

/// What to call the project in the window: the folder name without the extension.
pub open spec fn called(dir: Seq<char>) -> Seq<char> {
    match last_name(dir) {
        Some(name) => stem_of(name),
        None => "Untitled"@,
    }
}

/// What to call the project in the window: the folder name without the extension.
pub fn name_of(dir: &str) -> (r: String)
    ensures
        r@ == called(dir@),
{
    match file_name(dir) {
        Some(name) => stem(name.as_str()),
        None => "Untitled".to_owned(),
    }
}

// --- staying inside -----------------------------------------------------------

/// A path that stays inside the folder it is taken from: names all the way, going nowhere else.
pub open spec fn inside(relative: Seq<char>) -> bool {
    &&& relative.len() > 0
    &&& forall|i: int| 0 <= i < parts(relative).len() ==> #[trigger] parts(relative)[i] is Name
}

/// Whether a path stays inside the folder it is taken from.
pub fn is_inside(relative: &str) -> (r: bool)
    ensures
        r == inside(relative@),
{
    if relative.unicode_len() == 0 {
        return false;
    }
    let all: Vec<Part> = take_apart(relative);
    let ghost model = parts(relative@);
    let mut i: usize = 0;
    while i < all.len()
        invariant
            i <= all@.len(),
            all@.map_values(part_view()) == model,
            model == parts(relative@),
            forall|k: int| 0 <= k < i ==> #[trigger] model[k] is Name,
        decreases all@.len() - i,
    {
        assert(model[i as int] == all@[i as int]@);
        match &all[i] {
            Part::Name(_) => {},
            _ => {
                return false;
            },
        }
        i = i + 1;
    }
    true
}

/// What is said of a path that does not.
pub open spec fn outside_said(relative: Seq<char>) -> Seq<char> {
    relative + " is not inside the project"@
}

/// Turn a path out of `project.json` into a real one, refusing anything that points
/// outside the project folder. A hand-edited file is not a reason to write elsewhere.
pub fn resolve(dir: &str, relative: &str) -> (r: Result<String, String>)
    ensures
        match r {
            Ok(path) => inside(relative@) && path@ == joined(dir@, relative@),
            Err(why) => !inside(relative@) && why@ == outside_said(relative@),
        },
{
    if is_inside(relative) {
        Ok(join(dir, relative))
    } else {
        let mut why: String = relative.to_owned();
        why.append(" is not inside the project");
        Err(why)
    }
}

/// A path to one of the project's samples.
pub open spec fn sample_path(relative: Seq<char>) -> bool {
    inside(relative) && parts(relative)[0] == PartModel::Name(SAMPLES_DIR@)
}

/// Whether a path that stays inside the project begins at its samples.
fn begins_at_samples(relative: &str) -> (r: bool)
    requires
        inside(relative@),
    ensures
        r == sample_path(relative@),
{
    let all: Vec<Part> = take_apart(relative);
    let ghost model = parts(relative@);
    proof {
        lemma_some_part(relative@);
        assert(model[0] == all@[0]@);
    }
    match &all[0] {
        Part::Name(name) => same(name.as_str(), SAMPLES_DIR),
        _ => false,
    }
}

/// A path that stays inside has a part.
proof fn lemma_some_part(relative: Seq<char>)
    requires
        inside(relative),
    ensures
        parts(relative).len() > 0,
{
    if relative[0] != '/' {
        lemma_front(relative);
    }
}

/// The first piece of a path that does not start with a slash has something in it, so it is a
/// part.
proof fn lemma_front(text: Seq<char>)
    requires
        text.len() > 0,
        text[0] != '/',
    ensures
        crate::paths::pieces(text).len() > 0,
        crate::paths::pieces(text)[0].len() > 0,
        crate::paths::parts_of(crate::paths::pieces(text)).len() > 0,
    decreases text.len(),
{
    let front = text.drop_last();
    let before = crate::paths::pieces(front);
    let now = crate::paths::pieces(text);
    if text.len() == 1 {
        assert(front =~= Seq::empty());
        assert(before =~= seq![Seq::<char>::empty()]);
        assert(now =~= seq![Seq::<char>::empty().push(text[0])]);
        lemma_parts_front(now);
    } else {
        assert(front[0] == text[0]);
        lemma_front(front);
        assert(now[0].len() > 0) by {
            if text.last() == '/' {
                assert(now[0] == before[0]);
            } else if before.len() == 1 {
                assert(now[0] == before[0].push(text.last()));
            } else {
                assert(now[0] == before[0]);
            }
        }
        lemma_parts_front(now);
    }
}

proof fn lemma_parts_front(pieces: Seq<Seq<char>>)
    requires
        pieces.len() > 0,
        pieces[0].len() > 0,
    ensures
        crate::paths::parts_of(pieces).len() > 0,
    decreases pieces.len(),
{
    if pieces.len() > 1 {
        lemma_parts_front(pieces.drop_last());
    } else {
        assert(pieces.last() == pieces[0]);
        assert(crate::paths::part(pieces.last(), true).len() == 1);
    }
}

/// The file to delete when a sample is to go from the project, refusing anything that is not
/// one of its samples.
pub fn removable(dir: &str, relative: &str) -> (r: Result<String, String>)
    ensures
        match r {
            Ok(path) => sample_path(relative@) && path@ == joined(dir@, relative@),
            Err(why) => if inside(relative@) {
                !sample_path(relative@) && why@ == relative@
                    + " is not one of the project's samples"@
            } else {
                why@ == outside_said(relative@)
            },
        },
{
    let full: String = match resolve(dir, relative) {
        Ok(full) => full,
        Err(why) => {
            return Err(why);
        },
    };
    if !begins_at_samples(relative) {
        let mut why: String = relative.to_owned();
        why.append(" is not one of the project's samples");
        return Err(why);
    }
    Ok(full)
}

/// Where the samples of deleted tracks are kept.
pub open spec fn stash(dir: Seq<char>) -> Seq<char> {
    joined(joined(dir, SAMPLES_DIR@), STASH_DIR@)
}

pub fn stash_dir(dir: &str) -> (r: String)
    ensures
        r@ == stash(dir@),
{
    join(join(dir, SAMPLES_DIR).as_str(), STASH_DIR)
}

/// Where a sample goes when the last track using it does, and comes back from when a step back
/// wants it again. Anything that is not one of the project's samples is refused.
pub fn stashed(dir: &str, relative: &str) -> (r: Result<String, String>)
    ensures
        match r {
            Ok(path) => sample_path(relative@) && (last_name(relative@) matches Some(name) && path@
                == joined(stash(dir@), name)),
            Err(why) => if inside(relative@) {
                !sample_path(relative@) && why@ == relative@
                    + " is not one of the project's samples"@
            } else {
                why@ == outside_said(relative@)
            },
        },
{
    match removable(dir, relative) {
        Ok(_) => {},
        Err(why) => {
            return Err(why);
        },
    }
    proof {
        lemma_some_part(relative@);
        let all = parts(relative@);
        assert(all[all.len() - 1] is Name);
    }
    match file_name(relative) {
        Some(name) => Ok(join(stash_dir(dir).as_str(), name.as_str())),
        None => Err(relative.to_owned()),
    }
}

/// The parts of the path of a sample in the project folder.
pub open spec fn sample_parts(name: Seq<char>) -> Seq<PartModel> {
    seq![PartModel::Name(SAMPLES_DIR@), PartModel::Name(name)]
}

impl Track {
    /// Whether the track plays the file of a name among the project's samples.
    pub open spec fn plays(self, name: Seq<char>) -> bool {
        self.sample matches Some(s) && inside(s.path@) && parts(s.path@) =~= sample_parts(name)
    }
}

fn names_sample(path: &str, name: &str) -> (r: bool)
    ensures
        r == (inside(path@) && parts(path@) =~= sample_parts(name@)),
{
    if !is_inside(path) {
        return false;
    }
    let all: Vec<Part> = take_apart(path);
    let ghost model = parts(path@);
    assert(model.len() == all@.len());
    if all.len() != 2 {
        return false;
    }
    assert(model[0] == all@[0]@);
    assert(model[1] == all@[1]@);
    match (&all[0], &all[1]) {
        (Part::Name(first), Part::Name(second)) => {
            same(first.as_str(), SAMPLES_DIR) && same(second.as_str(), name)
        },
        _ => false,
    }
}

/// Whether any track of the project plays the file of a name among its samples. The ones that
/// nothing plays are tidied away when a project is opened.
pub fn is_used(project: &Project, name: &str) -> (r: bool)
    ensures
        r == exists|i: int|
            0 <= i < project@.tracks.len() && (#[trigger] project@.tracks[i]).plays(name@),
{
    let mut i: usize = 0;
    while i < project.tracks.len()
        invariant
            i <= project.tracks@.len(),
            forall|k: int| 0 <= k < i ==> !(#[trigger] project@.tracks[k]).plays(name@),
        decreases project.tracks@.len() - i,
    {
        let found: bool = match &project.tracks[i].sample {
            Some(sample) => names_sample(sample.path.as_str(), name),
            None => false,
        };
        assert(found == project@.tracks[i as int].plays(name@));
        if found {
            return true;
        }
        i = i + 1;
    }
    false
}

// --- opening ------------------------------------------------------------------

/// Look a project over on the way in, so a file written by an older version cannot leave the app
/// holding something it has no way to edit. `name` is what the project is called.
pub fn opened(project: Project, name: &str) -> (r: Result<Project, String>)
    ensures
        match r {
            Ok(p) => {
                &&& project@.version <= PROJECT_VERSION
                &&& project@.patterns.len() > 0
                &&& p@ == project@.repaired()
            },
            Err(why) => if project@.version > PROJECT_VERSION {
                why@ == name@ + " was made by a newer Weetbeats (version "@ + digits(
                    project@.version as nat,
                ) + "), so this one will not open it"@
            } else {
                project@.patterns.len() == 0 && why@ == name@ + " has no patterns in it"@
            },
        },
{
    if project.version > PROJECT_VERSION {
        let mut why: String = name.to_owned();
        why.append(" was made by a newer Weetbeats (version ");
        append_number(&mut why, project.version as u128);
        why.append("), so this one will not open it");
        return Err(why);
    }
    if project.patterns.len() == 0 {
        let mut why: String = name.to_owned();
        why.append(" has no patterns in it");
        return Err(why);
    }
    let mut project = project;
    project.repair();
    Ok(project)
}

// --- bringing a sample in -----------------------------------------------------

/// A sample that is now in the project folder.
#[derive(Debug)]
pub struct Imported {
    /// Where it is, relative to the project folder.
    pub path: String,
    /// True when the file was already there, byte for byte. The caller can then keep using
    /// whatever it decoded last time; a fresh copy means anything it remembers is stale.
    pub reused: bool,
}

/// What is at the name a sample would be copied to.
#[derive(Clone, Copy, Debug, PartialEq, Eq, Structural)]
pub enum Occupied {
    /// Nothing.
    Free,
    /// A file with the same contents.
    Same,
    /// Something else.
    Different,
}

/// What to do about it.
pub enum Importing {
    /// Copy the file there.
    Copy(Imported),
    /// Nothing to copy: it is in the project already.
    Reuse(Imported),
    /// Try the next name.
    Next(u32),
    /// Give up.
    TooMany(String),
}

/// `kick.wav` and 2 becomes `kick 2.wav`.
pub open spec fn numbered_file(name: Seq<char>, n: nat) -> Seq<char> {
    if last_dot(name) > 0 {
        name.take(last_dot(name)) + " "@ + digits(n) + "."@ + name.skip(last_dot(name) + 1)
    } else {
        name + " "@ + digits(n)
    }
}

/// `kick.wav` and 2 becomes `kick 2.wav`.
pub fn numbered(name: &str, n: u32) -> (r: String)
    ensures
        r@ == numbered_file(name@, n as nat),
{
    match ending(name) {
        Some(end) => {
            let mut r: String = stem(name);
            r.append(" ");
            append_number(&mut r, n as u128);
            r.append(".");
            r.append(end.as_str());
            r
        },
        None => {
            let mut r: String = name.to_owned();
            r.append(" ");
            append_number(&mut r, n as u128);
            r
        },
    }
}

/// The first attempt at a name is the name itself; after that it has a number, two the first
/// time.
pub open spec fn attempted(name: Seq<char>, attempt: u32) -> Seq<char> {
    if attempt <= 1 {
        name
    } else {
        numbered_file(name, attempt as nat)
    }
}

/// What a sample is to be called at each attempt, counting from one.
pub fn candidate(name: &str, attempt: u32) -> (r: String)
    ensures
        r@ == attempted(name@, attempt),
{
    if attempt <= 1 {
        name.to_owned()
    } else {
        numbered(name, attempt)
    }
}

/// The last attempt at a name before giving up on it.
pub const LAST_ATTEMPT: u32 = 998;

/// Copy a sample into the project, or find that it is there.
///
/// A file already in there with the same name and the same contents is reused, so adding
/// the same kick twice does not leave two copies of it. One with the same name and
/// different contents gets a number, because two different kicks are both worth keeping.
pub fn importing(name: &str, attempt: u32, found: Occupied) -> (r: Importing)
    requires
        1 <= attempt <= LAST_ATTEMPT,
    ensures
        match r {
            Importing::Copy(to) => found == Occupied::Free && !to.reused && to.path@ == "samples/"@
                + attempted(name@, attempt),
            Importing::Reuse(at) => found == Occupied::Same && at.reused && at.path@ == "samples/"@
                + attempted(name@, attempt),
            Importing::Next(n) => found == Occupied::Different && n == attempt + 1 && n
                <= LAST_ATTEMPT,
            Importing::TooMany(why) => found == Occupied::Different && attempt == LAST_ATTEMPT
                && why@ == "too many samples called "@ + name@,
        },
{
    match found {
        Occupied::Free => Importing::Copy(
            Imported { path: relative(candidate(name, attempt).as_str()), reused: false },
        ),
        Occupied::Same => Importing::Reuse(
            Imported { path: relative(candidate(name, attempt).as_str()), reused: true },
        ),
        Occupied::Different => {
            if attempt == LAST_ATTEMPT {
                let mut why: String = "too many samples called ".to_owned();
                why.append(name);
                Importing::TooMany(why)
            } else {
                Importing::Next(attempt + 1)
            }
        },
    }
}

fn relative(name: &str) -> (r: String)
    ensures
        r@ == "samples/"@ + name@,
{
    let mut r: String = "samples/".to_owned();
    r.append(name);
    r
}

// --- what things are called ---------------------------------------------------

/// Name of the folder for a project that has never been saved anywhere: `Untitled.beat` the
/// first time, `Untitled 2.beat` if that one is taken, and so on.
pub fn untitled(n: u32) -> (r: String)
    ensures
        r@ == (if n <= 1 {
            "Untitled.beat"@
        } else {
            "Untitled "@ + digits(n as nat) + ".beat"@
        }),
{
    if n <= 1 {
        "Untitled.beat".to_owned()
    } else {
        let mut r: String = "Untitled ".to_owned();
        append_number(&mut r, n as u128);
        r.append(".beat");
        r
    }
}

/// Whether a folder's name says that it is a project.
pub open spec fn says_project(path: Seq<char>) -> bool {
    last_name(path) matches Some(name) && ending_of(name) == Some(PROJECT_EXTENSION@)
}

/// A project is a folder with a name that says what it is: the last name to give a folder that
/// someone has picked to save in, or `None` when the one they picked will do.
pub fn project_name_for(path: &str) -> (r: Option<String>)
    ensures
        match r {
            None => says_project(path@),
            Some(name) => !says_project(path@) && name@ == called(path@) + ".beat"@,
        },
{
    let fits: bool = match file_name(path) {
        Some(name) => match ending(name.as_str()) {
            Some(end) => same(end.as_str(), PROJECT_EXTENSION),
            None => false,
        },
        None => false,
    };
    if fits {
        None
    } else {
        let mut name: String = name_of(path);
        name.append(".beat");
        Some(name)
    }
}

/// A name that is one name and nothing else, so a folder can have it.
pub open spec fn one_name(text: Seq<char>) -> bool {
    parts(text) =~= seq![PartModel::Name(text)]
}

/// The folder name for a project that is given another name. The folder's name is the project's,
/// so it has to be a name a folder can have.
pub fn renamed(name: &str) -> (r: Result<String, String>)
    ensures
        match r {
            Ok(folder) => one_name(trimmed(name@)) && folder@ == trimmed(name@) + ".beat"@,
            Err(why) => !one_name(trimmed(name@)) && why@ == "that is not a name for a project"@,
        },
{
    let plain: String = trim(name);
    let all: Vec<Part> = take_apart(plain.as_str());
    let ghost model = parts(plain@);
    let mut good: bool = false;
    if all.len() == 1 {
        assert(model[0] == all@[0]@);
        match &all[0] {
            Part::Name(only) => {
                good = same(only.as_str(), plain.as_str());
            },
            _ => {},
        }
    }
    assert(good == one_name(plain@));
    if good {
        let mut folder: String = plain;
        folder.append(".beat");
        Ok(folder)
    } else {
        Err("that is not a name for a project".to_owned())
    }
}

/// What is said of a folder that does not hold a project.
pub fn not_a_project(path: &str) -> (r: String)
    ensures
        r@ == called(path@)
            + " is not a Weetbeats project \u{2014} look for a folder ending in .beat"@,
{
    let mut r: String = name_of(path);
    r.append(" is not a Weetbeats project \u{2014} look for a folder ending in .beat");
    r
}

/// What is said when the disk would not do something.
pub fn whined(path: &str, doing: &str, why: &str) -> (r: String)
    ensures
        r@ == "could not "@ + doing@ + " "@ + path@ + ": "@ + why@,
{
    let mut r: String = "could not ".to_owned();
    r.append(doing);
    r.append(" ");
    r.append(path);
    r.append(": ");
    r.append(why);
    r
}

/// What is to be done with a file that was picked or dropped to be added.
pub enum Adding {
    /// Give it a track.
    Add,
    /// Say why not.
    Refuse(String),
}

/// Nothing is refused in silence. A drop that quietly does nothing is worse than an error,
/// because there is no way to tell it apart from the app being broken.
pub fn adding(path: &str, is_folder: bool) -> (r: Adding)
    ensures
        ({
            let name = match last_name(path@) {
                Some(name) => name,
                None => "that"@,
            };
            match r {
                Adding::Add => !is_folder && crate::paths::audible_path(path@),
                Adding::Refuse(why) => if is_folder {
                    why@ == name
                        + " is a folder \u{2014} open it and pick the sounds inside"@
                } else {
                    !crate::paths::audible_path(path@) && why@ == name + " is not a sound file"@
                },
            }
        }),
{
    let mut name: String = match file_name(path) {
        Some(name) => name,
        None => "that".to_owned(),
    };
    if is_folder {
        name.append(" is a folder \u{2014} open it and pick the sounds inside");
        Adding::Refuse(name)
    } else if !crate::paths::is_audio_file(path) {
        name.append(" is not a sound file");
        Adding::Refuse(name)
    } else {
        Adding::Add
    }
}

// --- what always holds --------------------------------------------------------

/// Two attempts at one name never come to the same thing, so trying the next one always tries
/// somewhere new.
pub proof fn every_attempt_is_a_new_name(name: Seq<char>, a: u32, b: u32)
    requires
        a < b,
    ensures
        a <= 1 && b <= 1 || attempted(name, a) != attempted(name, b),
{
    if b > 1 {
        crate::text::reading_back_digits(a as nat);
        crate::text::reading_back_digits(b as nat);
        reveal_strlit(" ");
        reveal_strlit(".");
        let d = last_dot(name);
        lemma_last_dot(name);
        let x = numbered_file(name, b as nat);
        if a <= 1 {
            // A number makes a name longer.
            if d > 0 {
                assert(x.len() > name.len());
            } else {
                assert(x.len() > name.len());
            }
        } else {
            let y = numbered_file(name, a as nat);
            if x == y {
                let da = digits(a as nat);
                let db = digits(b as nat);
                if d > 0 {
                    assert(x.len() == d + 1 + db.len() + 1 + (name.len() - d - 1));
                    assert(y.len() == d + 1 + da.len() + 1 + (name.len() - d - 1));
                    assert(da =~= y.subrange(d + 1, d + 1 + da.len()));
                    assert(db =~= x.subrange(d + 1, d + 1 + db.len()));
                } else {
                    assert(da =~= y.skip(name.len() as int + 1));
                    assert(db =~= x.skip(name.len() as int + 1));
                }
                assert(da == db);
            }
        }
    }
}

proof fn lemma_last_dot(text: Seq<char>)
    ensures
        -1 <= last_dot(text) < text.len(),
    decreases text.len(),
{
    if text.len() > 0 {
        lemma_last_dot(text.drop_last());
    }
}

/// A path that reaches out of the project is never one to delete, nor one that any track is
/// taken to play.
pub proof fn nothing_outside_is_touched(relative: Seq<char>, i: int, t: Track, name: Seq<char>)
    requires
        0 <= i < parts(relative).len(),
        parts(relative)[i] !is Name,
    ensures
        !inside(relative),
        !sample_path(relative),
        t.sample matches Some(s) && s.path@ == relative ==> !t.plays(name),
{
}

/// Pieces come to names and nothing else when none of them is two dots and the first is not a dot.
#[verifier::rlimit(50)]
proof fn lemma_all_names(all: Seq<Seq<char>>)
    ensures
        (forall|i: int| 0 <= i < parts_of(all).len() ==> #[trigger] parts_of(all)[i] is Name) <==> (
        all.len() == 0 || (all[0] != seq!['.'] && !all.contains(seq!['.', '.']))),
        all.len() > 0 && proper(all[0]) ==> parts_of(all).len() > 0 && parts_of(all)[0]
            == PartModel::Name(all[0]),
    decreases all.len(),
{
    if all.len() > 0 {
        let front = all.drop_last();
        let piece = all.last();
        lemma_all_names(front);
        assert(front.push(piece) =~= all);
        what_a_piece_is(front, piece);
        let up = seq!['.', '.'];
        let here = seq!['.'];
        assert(up.len() == 2 && here.len() == 1);
        assert(all.contains(up) <==> front.contains(up) || piece == up) by {
            if all.contains(up) {
                let k = choose|k: int| 0 <= k < all.len() && all[k] == up;
                if k < front.len() {
                    assert(front[k] == up);
                }
            }
            if front.contains(up) {
                let k = choose|k: int| 0 <= k < front.len() && front[k] == up;
                assert(all[k] == up);
            }
            if piece == up {
                assert(all[all.len() - 1] == up);
            }
        }
        let was = parts_of(front);
        let now = parts_of(all);
        if front.len() > 0 {
            assert(all[0] == front[0]);
        } else {
            assert(all[0] == piece);
            assert(was.len() == 0);
        }
        if piece == up {
            assert(now[now.len() - 1] is Up);
        } else if front.len() == 0 && piece == here {
            assert(now[0] is Here);
        } else {
            assert(now.len() >= was.len());
            assert forall|i: int| 0 <= i < was.len() implies #[trigger] was[i] == now[i] by {}
            if forall|i: int| 0 <= i < now.len() ==> #[trigger] now[i] is Name {
                assert forall|i: int| 0 <= i < was.len() implies #[trigger] was[i] is Name by {
                    assert(now[i] is Name);
                }
            }
            if forall|i: int| 0 <= i < was.len() ==> #[trigger] was[i] is Name {
                assert forall|i: int| 0 <= i < now.len() implies #[trigger] now[i] is Name by {
                    if i < was.len() {
                        assert(was[i] is Name);
                    }
                }
            }
        }
    }
}

/// A path stays inside the folder it is taken from when it is not nothing, does not start at the
/// root or at the place itself, and never goes up.
pub proof fn what_stays_inside(relative: Seq<char>)
    ensures
        inside(relative) <==> relative.len() > 0 && relative[0] != '/' && pieces(relative)[0]
            != seq!['.'] && !pieces(relative).contains(seq!['.', '.']),
{
    lemma_all_names(pieces(relative));
    text_is_cut_at_every_slash(relative);
    a_path_starts_at_the_root_or_does_not(relative);
    if relative.len() > 0 && relative[0] == '/' {
        assert(parts(relative)[0] is Root);
    }
}

/// A path is to one of the project's samples when it stays inside and its first name is that of the
/// folder they are kept in.
pub proof fn what_is_a_sample_of_the_project(relative: Seq<char>)
    ensures
        sample_path(relative) <==> inside(relative) && pieces(relative)[0] == "samples"@,
{
    what_stays_inside(relative);
    if inside(relative) {
        let all = pieces(relative);
        lemma_front(relative);
        text_is_cut_at_every_slash(relative);
        lemma_all_names(all);
        a_path_starts_at_the_root_or_does_not(relative);
        assert(all[0] != seq!['.', '.']) by {
            if all[0] == seq!['.', '.'] {
                assert(all.contains(seq!['.', '.']));
            }
        }
        assert(!all[0].contains('/'));
        assert(proper(all[0]));
    }
}

/// A name is one name and nothing else when it is not nothing, has no slash in it, and is neither
/// the place itself nor the place above.
#[verifier::rlimit(50)]
pub proof fn what_a_folder_can_be_called(text: Seq<char>)
    ensures
        one_name(text) <==> text.len() > 0 && !text.contains('/') && text != seq!['.'] && text
            != seq!['.', '.'],
{
    a_path_starts_at_the_root_or_does_not(text);
    if proper(text) {
        a_name_on_the_end_is_one_more_piece(Seq::empty(), text);
        what_a_piece_is(Seq::empty(), text);
        assert(Seq::<Seq<char>>::empty().push(text) =~= seq![text]);
        assert(text[0] != '/') by {
            if text[0] == '/' {
                assert(text.contains(text[0]));
            }
        }
        assert(parts_of(Seq::<Seq<char>>::empty()) =~= Seq::empty());
        assert(parts(text) =~= seq![PartModel::Name(text)]);
    }
    if one_name(text) {
        let all = pieces(text);
        text_is_cut_at_every_slash(text);
        assert(parts(text)[0] == PartModel::Name(text));
        assert(parts(text).contains(PartModel::Name(text)));
        if text.len() > 0 && text[0] == '/' {
            assert(parts(text)[0] is Root);
        }
        assert(parts_of(all).contains(PartModel::Name(text)));
        lemma_names_are_pieces(all, text);
    }
}

/// Every name among some parts is one of the pieces they come from, and a proper one.
proof fn lemma_names_are_pieces(all: Seq<Seq<char>>, name: Seq<char>)
    requires
        parts_of(all).contains(PartModel::Name(name)),
        forall|i: int| 0 <= i < all.len() ==> !(#[trigger] all[i]).contains('/'),
    ensures
        proper(name),
    decreases all.len(),
{
    if all.len() > 0 {
        let front = all.drop_last();
        let piece = all.last();
        assert(front.push(piece) =~= all);
        what_a_piece_is(front, piece);
        assert(!all[all.len() - 1].contains('/'));
        assert(seq!['.'].len() == 1 && seq!['.', '.'].len() == 2);
        let k = choose|k: int|
            0 <= k < parts_of(all).len() && parts_of(all)[k] == PartModel::Name(name);
        if k < parts_of(front).len() {
            if parts_of(front)[k] == PartModel::Name(name) {
                assert(parts_of(front).contains(PartModel::Name(name)));
                assert forall|i: int| 0 <= i < front.len() implies !(#[trigger] front[i]).contains(
                    '/',
                ) by {
                    assert(front[i] == all[i]);
                }
                lemma_names_are_pieces(front, name);
            }
        }
    }
}

/// A project is called what its folder is, without the ending, and its folder says that it is one by
/// the ending it has. `stem` and `ending` are what the folder's name is made of.
pub proof fn a_project_is_called_what_its_folder_is(
    dir: Seq<char>,
    stem: Seq<char>,
    ending: Seq<char>,
)
    requires
        stem.len() > 0,
        !stem.contains('/'),
        ending.len() > 0,
        !ending.contains('/'),
        !ending.contains('.'),
    ensures
        called(joined(dir, stem.push('.') + ending)) == stem,
        says_project(joined(dir, stem.push('.') + ending)) <==> ending == "beat"@,
        proper(ending) ==> called(joined(dir, ending)) == ending && !says_project(
            joined(dir, ending),
        ),
        called(Seq::empty()) == "Untitled"@,
{
    let name = stem.push('.') + ending;
    assert(!name.contains('/')) by {
        if name.contains('/') {
            let k = choose|k: int| 0 <= k < name.len() && name[k] == '/';
            if k < stem.len() {
                assert(stem[k] == '/');
            } else if k > stem.len() {
                assert(ending[k - stem.len() - 1] == '/');
            }
        }
    }
    assert(seq!['.'].len() == 1 && seq!['.', '.'].len() == 2);
    what_is_put_on_the_end_is_at_the_end(dir, name);
    what_is_put_on_the_end_is_at_the_end(dir, ending);
    a_name_is_its_stem_and_its_ending(stem, ending);
    a_path_ends_in_the_name_on_its_end(dir, name);
}

/// A name that is taken gets a number: after its stem when it has an ending, which stays, and at
/// the end when it has none. The first attempt is at the name itself.
pub proof fn a_taken_name_gets_a_number(stem: Seq<char>, ending: Seq<char>, n: nat, attempt: u32)
    requires
        stem.len() > 0,
        !ending.contains('.'),
    ensures
        numbered_file(stem.push('.') + ending, n) == stem + seq![' '] + digits(n) + seq!['.']
            + ending,
        numbered_file(ending, n) == ending + seq![' '] + digits(n),
        attempted(stem, attempt) == (if attempt <= 1 {
            stem
        } else {
            numbered_file(stem, attempt as nat)
        }),
{
    reveal_strlit(" ");
    reveal_strlit(".");
    assert(" "@ =~= seq![' ']);
    assert("."@ =~= seq!['.']);
    let name = stem.push('.') + ending;
    a_name_is_its_stem_and_its_ending(stem, ending);
    there_is_no_dot_after_the_last(name);
    there_is_no_dot_after_the_last(ending);
    assert(name[stem.len() as int] == '.');
    if last_dot(ending) >= 0 {
        assert(ending.contains(ending[last_dot(ending)]));
    }
    let d = last_dot(name);
    if d > stem.len() {
        assert(name[d] == ending[d - stem.len() - 1]);
        assert(ending.contains('.'));
    }
    assert(name.take(d) =~= stem);
    assert(name.skip(d + 1) =~= ending);
}

/// A track plays a file among the project's samples when the path of its sample is that of the
/// folder they are kept in, a slash, and the file's name.
#[verifier::rlimit(50)]
pub proof fn a_track_plays_the_file_its_sample_is(t: Track, name: Seq<char>)
    requires
        proper(name),
    ensures
        t.sample is None ==> !t.plays(name),
        t.sample matches Some(s) ==> s.path@ == "samples"@.push('/') + name ==> t.plays(name),
{
    match t.sample {
        Some(s) => {
            if s.path@ == "samples"@.push('/') + name {
                reveal_strlit("samples");
                let folder = "samples"@;
                assert(!folder.contains('/'));
                assert(seq!['.'].len() == 1 && seq!['.', '.'].len() == 2);
                a_name_on_the_end_is_one_more_piece(Seq::empty(), folder);
                a_name_on_the_end_is_one_more_piece(folder, name);
                what_a_piece_is(seq![folder], name);
                what_a_piece_is(Seq::empty(), folder);
                assert(Seq::<Seq<char>>::empty().push(folder) =~= seq![folder]);
                assert(s.path@[0] == folder[0]);
                a_path_starts_at_the_root_or_does_not(s.path@);
                assert(parts_of(Seq::<Seq<char>>::empty()) =~= Seq::empty());
                assert(parts(s.path@) =~= sample_parts(name));
            }
        },
        None => {},
    }
}

/// The file that a track plays is one of the project's samples, and its path ends in the file's
/// name; so it plays no more than one.
pub proof fn a_track_plays_one_file_at_the_most(t: Track, name: Seq<char>, other: Seq<char>)
    ensures
        t.plays(name) ==> (t.sample matches Some(s) && sample_path(s.path@) && last_name(s.path@)
            == Some(name)),
        t.plays(name) && t.plays(other) ==> name == other,
{
    match t.sample {
        Some(s) => {
            if t.plays(name) {
                assert(parts(s.path@)[0] == PartModel::Name(SAMPLES_DIR@));
                assert(parts(s.path@).last() == PartModel::Name(name));
            }
            if t.plays(other) {
                assert(parts(s.path@).last() == PartModel::Name(other));
            }
        },
        None => {},
    }
}

/// The samples of deleted tracks are kept in a hidden folder of their own in that of the samples.
pub proof fn where_deleted_samples_are_kept(dir: Seq<char>)
    ensures
        stash(dir) == joined(joined(dir, "samples"@), ".undo"@),
        last_name(stash(dir)) == Some(".undo"@),
        last_name(joined(dir, "samples"@)) == Some("samples"@),
{
    reveal_strlit("samples");
    reveal_strlit(".undo");
    assert(seq!['.'].len() == 1 && seq!['.', '.'].len() == 2);
    assert(!"samples"@.contains('/'));
    assert(!".undo"@.contains('/'));
    what_is_put_on_the_end_is_at_the_end(dir, "samples"@);
    what_is_put_on_the_end_is_at_the_end(joined(dir, "samples"@), ".undo"@);
}

} // verus!
