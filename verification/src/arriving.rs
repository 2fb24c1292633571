//! Giving a sound file a track, one step at a time.
//!
//! The file is copied into the project before anything else is done with it. From that moment
//! the project owns the sound: moving or deleting the file it came from cannot break the
//! project, and there is no save step where it might not have been gathered up yet.

use std::sync::Arc;

use vstd::prelude::*;

use crate::commands::{add_track, room_for_track, Told};
use crate::folder::{adding, Adding, Imported};
use crate::paths::{audible_path, last_name};
use crate::project::{plays_from, Project, ProjectModel, Track};
use crate::sample::Sample;
use crate::single::{Single, DEFAULT_GAIN};
use crate::text::digits;
use crate::{Command, MAX_TRACKS};

verus! {

/// What is to be done next about a file that is to have a track.
pub enum Arrival {
    /// Copy it into the project, and say how that went.
    Import,
    /// Decode the sample at this path in the project, and say how that went.
    Load {
        path: String,
        /// Whether whatever was decoded from that path before is a different sound: the file is
        /// new, at a name the folder may well have used.
        stale: bool,
    },
    /// Delete the sample at this path, which nothing can play, and say why there is no track.
    Discard { path: String, why: String },
    /// Say why there is no track.
    Refuse(String),
    /// There is a track.
    Made(Told<Track>),
}

impl ProjectModel {
    /// Every slot has a track in it.
    pub open spec fn crowded(self) -> bool {
        forall|k: u16| k < MAX_TRACKS ==> #[trigger] self.has_track(k)
    }

    /// What is said when there is no slot for another track.
    pub open spec fn crowded_said(self) -> Seq<char> {
        "that is "@ + digits(self.tracks.len()) + " tracks, which is all of them"@
    }
}

/// What is said of a file that is not one to give a track: a folder, or something that is not
/// a sound.
pub open spec fn unwanted_said(path: Seq<char>, is_folder: bool) -> Seq<char> {
    let name = match last_name(path) {
        Some(name) => name,
        None => "that"@,
    };
    name + (if is_folder {
        " is a folder \u{2014} open it and pick the sounds inside"@
    } else {
        " is not a sound file"@
    })
}

/// A file was picked or dropped. Nothing gets copied for a track that cannot be made.
pub fn arrived(project: &Project, path: &str, is_folder: bool) -> (r: Arrival)
    ensures
        if is_folder || !audible_path(path@) {
            r matches Arrival::Refuse(why) && why@ == unwanted_said(path@, is_folder)
        } else if project@.crowded() {
            r matches Arrival::Refuse(why) && why@ == project@.crowded_said()
        } else {
            r is Import
        },
{
    match adding(path, is_folder) {
        Adding::Refuse(why) => Arrival::Refuse(why),
        Adding::Add => match room_for_track(project) {
            Ok(id) => {
                assert(!project@.has_track(id));
                Arrival::Import
            },
            Err(why) => Arrival::Refuse(why),
        },
    }
}

/// It was copied into the project, or could not be.
pub fn imported(outcome: Result<Imported, String>) -> (r: Arrival)
    ensures
        match outcome {
            Ok(i) => r matches Arrival::Load { path, stale } && path@ == i.path@ && stale
                == !i.reused,
            Err(e) => r matches Arrival::Refuse(why) && why@ == e@,
        },
{
    match outcome {
        Ok(i) => Arrival::Load { path: i.path, stale: !i.reused },
        Err(e) => Arrival::Refuse(e),
    }
}

/// There is no track for a sample. It goes too, unless a track plays it.
fn turned_down(project: &Project, path: String, why: String) -> (r: Arrival)
    ensures
        if project@.tracks.filter(plays_from(path@)).len() == 0 {
            r matches Arrival::Discard { path: p, why: w } && p@ == path@ && w@ == why@
        } else {
            r matches Arrival::Refuse(w) && w@ == why@
        },
{
    if project.sample_users(path.as_str()) == 0 {
        Arrival::Discard { path, why }
    } else {
        Arrival::Refuse(why)
    }
}

/// It was decoded, or could not be. A file that is not a sound, or that the last slot went before
/// it could have, is not left lying in the project folder, unless a track is using it.
pub fn loaded(project: &mut Project, path: String, outcome: Result<Arc<Sample>, String>) -> (r:
    Arrival)
    ensures
        match outcome {
            Err(e) => {
                &&& final(project)@ == old(project)@
                &&& if old(project)@.tracks.filter(plays_from(path@)).len() == 0 {
                    r matches Arrival::Discard { path: p, why } && p@ == path@ && why@ == e@
                } else {
                    r matches Arrival::Refuse(why) && why@ == e@
                }
            },
            Ok(sample) => if old(project)@.crowded() {
                &&& final(project)@ == old(project)@
                &&& if old(project)@.tracks.filter(plays_from(path@)).len() == 0 {
                    r matches Arrival::Discard { path: p, why } && p@ == path@ && why@ == old(
                        project,
                    )@.crowded_said()
                } else {
                    r matches Arrival::Refuse(why) && why@ == old(project)@.crowded_said()
                }
            } else {
                r matches Arrival::Made(told) && {
                    &&& old(project)@.lowest_free_track(told.reply.id as int)
                    &&& told.reply.name@ == sample.name@
                    &&& told.reply.sample matches Some(s) && s.path@ == path@ && s.name@
                        == sample.name@
                    &&& told.reply.gain == Single { bits: DEFAULT_GAIN }
                    &&& !told.reply.muted && !told.reply.soloed && !told.reply.pitched
                    &&& final(project)@ == (ProjectModel {
                        tracks: old(project)@.tracks.push(told.reply),
                        ..old(project)@
                    })
                    &&& told.commands@ == seq![
                        Command::AddTrack {
                            track: told.reply.id,
                            gain: Single { bits: DEFAULT_GAIN },
                        },
                        Command::SetTrackSample { track: told.reply.id, sample: Some(sample) },
                    ]
                    &&& told.touched
                }
            },
        },
{
    match outcome {
        Err(why) => turned_down(project, path, why),
        Ok(sample) => {
            match room_for_track(project) {
                Err(why) => turned_down(project, path, why),
                Ok(id) => {
                    assert(!project@.has_track(id));
                    match add_track(project, path, &sample) {
                        Some(told) => Arrival::Made(told),
                        None => Arrival::Refuse(String::new()),
                    }
                },
            }
        },
    }
}

} // verus!
