//! Undo and redo, as copies of the whole project.
//!
//! Not a list of changes and their opposites. Every edit would otherwise need an opposite, and
//! its opposite's opposite for redo, and the one that gets forgotten is the one that loses your
//! work. A project is a few hundred notes and a list of samples — small enough to copy — so it
//! is copied, before each edit.

use vstd::prelude::*;

use crate::project::{Project, ProjectModel};

verus! {

/// Steps back that are kept.
pub const MOST_STEPS: usize = 128;

/// Edits of the same kind closer together than this, in milliseconds, are one step, so a drag
/// across sixteen boxes comes back in one go rather than sixteen.
pub const ONE_STEP_WITHIN: u64 = 600;

/// What an edit is to, as far as telling a drag from two edits goes.
#[derive(Clone, Copy, Debug, PartialEq, Eq, Structural)]
pub enum Kind {
    Tracks,
    Gain,
    Mute,
    Solo,
    Pitched,
    Boxes,
    Notes,
    Patterns,
    Name,
    Colour,
    Length,
    Song,
    Tempo,
}

/// The history, as mathematics has it.
#[verifier::ext_equal]
pub struct HistoryModel {
    /// Oldest first.
    pub past: Seq<ProjectModel>,
    /// What was undone last comes last.
    pub future: Seq<ProjectModel>,
    /// The kind of the last edit and when it was, unless a step has been taken since.
    pub last: Option<(Kind, u64)>,
}

pub open spec fn project_view() -> spec_fn(Project) -> ProjectModel {
    |p: Project| p@
}

impl HistoryModel {
    pub open spec fn fresh() -> HistoryModel {
        HistoryModel { past: Seq::empty(), future: Seq::empty(), last: None }
    }

    /// Whether an edit goes on with the step the last one began.
    pub open spec fn goes_on(self, kind: Kind, now: u64) -> bool {
        self.last matches Some((k, at)) && k == kind && now < at + ONE_STEP_WITHIN
    }

    /// Before an edit: the project as it is has been kept, unless the edit goes on with a step
    /// already begun. Nothing that was undone can be done again after it.
    pub open spec fn remembering(self, kind: Kind, now: u64, project: ProjectModel) -> HistoryModel {
        if self.goes_on(kind, now) {
            HistoryModel { future: Seq::empty(), last: Some((kind, now)), ..self }
        } else {
            let longer = self.past.push(project);
            HistoryModel {
                past: if longer.len() > MOST_STEPS {
                    longer.drop_first()
                } else {
                    longer
                },
                future: Seq::empty(),
                last: Some((kind, now)),
            }
        }
    }

    /// A step back: the history, and the project as it was.
    pub open spec fn undone(self, project: ProjectModel) -> (HistoryModel, ProjectModel) {
        if self.past.len() == 0 {
            (self, project)
        } else {
            (
                HistoryModel {
                    past: self.past.drop_last(),
                    future: self.future.push(project),
                    last: None,
                },
                self.past.last(),
            )
        }
    }

    /// A step forward again.
    pub open spec fn redone(self, project: ProjectModel) -> (HistoryModel, ProjectModel) {
        if self.future.len() == 0 {
            (self, project)
        } else {
            (
                HistoryModel {
                    past: self.past.push(project),
                    future: self.future.drop_last(),
                    last: None,
                },
                self.future.last(),
            )
        }
    }
}

/// Where the project has been, and where it was taken back from.
#[derive(Debug)]
pub struct History {
    past: Vec<Project>,
    future: Vec<Project>,
    last: Option<(Kind, u64)>,
}

impl View for History {
    type V = HistoryModel;

    closed spec fn view(&self) -> HistoryModel {
        HistoryModel {
            past: self.past@.map_values(project_view()),
            future: self.future@.map_values(project_view()),
            last: self.last,
        }
    }
}

impl History {
    pub fn new() -> (r: Self)
        ensures
            r@ == HistoryModel::fresh(),
    {
        let r = History { past: Vec::new(), future: Vec::new(), last: None };
        assert(r@ =~= HistoryModel::fresh());
        r
    }

    /// Keep the project as it is, before an edit of a kind at a time in milliseconds.
    pub fn remember(&mut self, kind: Kind, now: u64, project: &Project)
        ensures
            final(self)@ == old(self)@.remembering(kind, now, project@),
    {
        let goes_on: bool = match self.last {
            Some((k, at)) => k == kind && (now < at || now - at < ONE_STEP_WITHIN),
            None => false,
        };
        if !goes_on {
            self.past.push(project.copy());
            assert(self.past@.map_values(project_view()) =~= old(self)@.past.push(project@));
            if self.past.len() > MOST_STEPS {
                let ghost longer = self.past@;
                self.past.remove(0);
                assert(self.past@.map_values(project_view()) =~= old(self)@.past.push(
                    project@,
                ).drop_first());
            }
        }
        self.future = Vec::new();
        self.last = Some((kind, now));
        assert(self@ =~= old(self)@.remembering(kind, now, project@));
    }

    /// Step back. False when there is nowhere further back to go.
    pub fn undo(&mut self, project: &mut Project) -> (moved: bool)
        ensures
            (final(self)@, final(project)@) == old(self)@.undone(old(project)@),
            moved == (old(self)@.past.len() > 0),
    {
        match self.past.pop() {
            Some(before) => {
                let mut swapped: Project = before;
                std::mem::swap(project, &mut swapped);
                self.future.push(swapped);
                self.last = None;
                proof {
                    assert(self@.past =~= old(self)@.past.drop_last());
                    assert(self@.future =~= old(self)@.future.push(old(project)@));
                }
                true
            },
            None => false,
        }
    }

    /// Step forward again. False when nothing has been undone since the last edit.
    pub fn redo(&mut self, project: &mut Project) -> (moved: bool)
        ensures
            (final(self)@, final(project)@) == old(self)@.redone(old(project)@),
            moved == (old(self)@.future.len() > 0),
    {
        match self.future.pop() {
            Some(after) => {
                let mut swapped: Project = after;
                std::mem::swap(project, &mut swapped);
                self.past.push(swapped);
                self.last = None;
                proof {
                    assert(self@.future =~= old(self)@.future.drop_last());
                    assert(self@.past =~= old(self)@.past.push(old(project)@));
                }
                true
            },
            None => false,
        }
    }

    /// Forget everything, for a project that has just been opened: the steps that got the last
    /// one here mean nothing in it.
    pub fn forget(&mut self)
        ensures
            final(self)@ == HistoryModel::fresh(),
    {
        self.past = Vec::new();
        self.future = Vec::new();
        self.last = None;
        assert(self@ =~= HistoryModel::fresh());
    }
}

impl Default for History {
    fn default() -> (r: Self)
        ensures
            r@ == HistoryModel::fresh(),
    {
        History::new()
    }
}

/// Undoing an edit gives the project back as it was before the step, and redoing it gives the
/// edited project back, with the history as it was.
pub proof fn undo_gives_back_what_was(
    h: HistoryModel,
    kind: Kind,
    now: u64,
    before: ProjectModel,
    after: ProjectModel,
)
    requires
        !h.goes_on(kind, now),
    ensures
        ({
            let kept = h.remembering(kind, now, before);
            let (back, was) = kept.undone(after);
            let (forward, again) = back.redone(was);
            &&& was == before
            &&& again == after
            &&& forward.past == kept.past
            &&& forward.future == kept.future
        }),
{
    let kept = h.remembering(kind, now, before);
    let longer = h.past.push(before);
    assert(kept.past.last() == before);
    let (back, was) = kept.undone(after);
    assert(kept.past.drop_last().push(before) =~= kept.past);
    assert(kept.future.push(after).drop_last() =~= kept.future);
}

/// A run of edits of one kind, each soon after the last, is one step: it takes one undo to get
/// back to before the first of them.
pub proof fn a_drag_is_one_step(
    h: HistoryModel,
    kind: Kind,
    first: u64,
    second: u64,
    before: ProjectModel,
    between: ProjectModel,
    after: ProjectModel,
)
    requires
        !h.goes_on(kind, first),
        first <= second < first + ONE_STEP_WITHIN,
    ensures
        h.remembering(kind, first, before).remembering(kind, second, between).undone(after).1
            == before,
{
    assert(h.remembering(kind, first, before).goes_on(kind, second));
    assert(h.remembering(kind, first, before).past.last() == before);
}

/// The history never holds more steps than it keeps.
pub proof fn the_history_is_bounded(
    h: HistoryModel,
    kind: Kind,
    now: u64,
    project: ProjectModel,
)
    requires
        h.past.len() + h.future.len() <= MOST_STEPS,
    ensures
        h.remembering(kind, now, project).past.len() + h.remembering(kind, now, project).future.len()
            <= MOST_STEPS,
        h.undone(project).0.past.len() + h.undone(project).0.future.len() <= MOST_STEPS,
        h.redone(project).0.past.len() + h.redone(project).0.future.len() <= MOST_STEPS,
{
}

/// An edit of another kind than the last, or six hundred milliseconds or more after it, or after a
/// step has been taken, or the first there is, is a step of its own: one undo gives back the
/// project as it was given, and another gives back what was kept before it.
pub proof fn a_step_of_its_own_is_undone_alone(
    h: HistoryModel,
    kind: Kind,
    now: u64,
    before: ProjectModel,
    after: ProjectModel,
    other: ProjectModel,
)
    requires
        match h.last {
            None => true,
            Some((k, at)) => k != kind || now >= at + 600,
        },
        h.past.len() <= 128,
    ensures
        ({
            let kept = h.remembering(kind, now, before);
            let (back, was) = kept.undone(after);
            &&& was == before
            &&& h.past.len() < 128 ==> back.past == h.past
            &&& h.past.len() == 128 ==> back.past == h.past.drop_first()
            &&& back.future == seq![after]
            &&& h.past.len() > 0 ==> back.undone(other).1 == h.past.last()
        }),
{
    let kept = h.remembering(kind, now, before);
    let longer = h.past.push(before);
    let (back, was) = kept.undone(after);
    assert(longer.drop_last() =~= h.past);
    if h.past.len() == 128 {
        assert(longer.drop_first().drop_last() =~= h.past.drop_first());
    }
    assert(kept.future.push(after) =~= seq![after]);
}

/// An edit of the same kind as the last and less than six hundred milliseconds after it goes on
/// with the same step: nothing more is kept, so an undo still gives back what was kept when the
/// step began. How long the step can go on is counted from this edit.
pub proof fn an_edit_soon_after_goes_on_with_the_step(
    h: HistoryModel,
    kind: Kind,
    at: u64,
    now: u64,
    between: ProjectModel,
    after: ProjectModel,
)
    requires
        h.last == Some((kind, at)),
        now < at + 600,
        h.past.len() > 0,
    ensures
        ({
            let kept = h.remembering(kind, now, between);
            &&& kept.past == h.past
            &&& kept.last == Some((kind, now))
            &&& kept.undone(after).1 == h.past.last()
        }),
{
}

/// Every edit is remembered by its kind and its time, and after it there is nothing to do again.
pub proof fn an_edit_leaves_nothing_to_do_again(
    h: HistoryModel,
    kind: Kind,
    now: u64,
    project: ProjectModel,
    later: ProjectModel,
)
    ensures
        h.remembering(kind, now, project).last == Some((kind, now)),
        h.remembering(kind, now, project).redone(later) == (
            h.remembering(kind, now, project),
            later,
        ),
{
}

/// A step back and a step forward undo each other, whatever was done; each is a step of its own,
/// after which the next edit is too. With nowhere to go, nothing changes.
pub proof fn back_and_forward_are_opposites(h: HistoryModel, project: ProjectModel)
    ensures
        h.past.len() > 0 ==> ({
            let (back, was) = h.undone(project);
            let (forward, again) = back.redone(was);
            &&& was == h.past.last()
            &&& again == project
            &&& forward.past == h.past
            &&& forward.future == h.future
            &&& back.last is None && forward.last is None
        }),
        h.future.len() > 0 ==> ({
            let (forward, then_on) = h.redone(project);
            let (back, again) = forward.undone(then_on);
            &&& then_on == h.future.last()
            &&& again == project
            &&& back.past == h.past
            &&& back.future == h.future
            &&& back.last is None && forward.last is None
        }),
        h.past.len() == 0 ==> h.undone(project) == (h, project),
        h.future.len() == 0 ==> h.redone(project) == (h, project),
{
    if h.past.len() > 0 {
        assert(h.past.drop_last().push(h.past.last()) =~= h.past);
        assert(h.future.push(project).drop_last() =~= h.future);
    }
    if h.future.len() > 0 {
        assert(h.future.drop_last().push(h.future.last()) =~= h.future);
        assert(h.past.push(project).drop_last() =~= h.past);
    }
}

/// A new history has nowhere to go, back or forward.
pub proof fn a_new_history_has_nowhere_to_go(project: ProjectModel)
    ensures
        HistoryModel::fresh().undone(project) == (HistoryModel::fresh(), project),
        HistoryModel::fresh().redone(project) == (HistoryModel::fresh(), project),
        HistoryModel::fresh().last is None,
{
}

} // verus!
