//! A whole walk through a folder: it lists the sounds in the tree of folders below, and nothing
//! else.

use vstd::prelude::*;

use crate::browser::{
    audible, contents, hidden, place_of, row_for, the_list_is_cut_short_only_when_there_is_more,
    PlaceModel, WalkModel, MAX_DEPTH, MAX_FILES,
};
use crate::paths::joined;
use crate::seqs::gathered;
use crate::spelling::{alphabetical, by_spelling, spelling_is_an_order};

verus! {

/// What is on a disk: the names in the folder at a path, or nothing when what is there is no
/// folder. One that would not open has no names in it.
pub type Disk = spec_fn(Seq<char>) -> Option<Seq<Seq<char>>>;

/// What is in a folder, in order.
pub open spec fn children(disk: Disk, p: PlaceModel) -> Seq<PlaceModel> {
    match disk(p.path) {
        Some(names) => contents(
            p.path,
            joined(p.folder, p.name),
            (p.depth + 1) as usize,
            names,
        ).reverse(),
        None => Seq::empty(),
    }
}

/// The files at a place and so many folders below it, in order. Nothing hidden is looked at.
pub open spec fn files(disk: Disk, p: PlaceModel, levels: nat) -> Seq<PlaceModel>
    decreases levels, 0nat,
{
    if hidden(p.name) {
        Seq::empty()
    } else if disk(p.path) is None {
        seq![p]
    } else if levels == 0 {
        Seq::empty()
    } else {
        all_files(disk, children(disk, p), (levels - 1) as nat)
    }
}

/// The files at several places and so many folders below them.
pub open spec fn all_files(disk: Disk, places: Seq<PlaceModel>, levels: nat) -> Seq<PlaceModel>
    decreases levels, 1 + places.len(),
{
    if places.len() == 0 {
        Seq::empty()
    } else {
        all_files(disk, places.drop_last(), levels) + files(disk, places.last(), levels)
    }
}

/// Everything that is looked at, at a place and so many folders below it.
pub open spec fn visits(disk: Disk, p: PlaceModel, levels: nat) -> Seq<PlaceModel>
    decreases levels, 0nat,
{
    seq![p] + (if hidden(p.name) || disk(p.path) is None || levels == 0 {
        Seq::empty()
    } else {
        all_visits(disk, children(disk, p).reverse(), (levels - 1) as nat)
    })
}

pub open spec fn all_visits(disk: Disk, places: Seq<PlaceModel>, levels: nat) -> Seq<PlaceModel>
    decreases levels, 1 + places.len(),
{
    if places.len() == 0 {
        Seq::empty()
    } else {
        all_visits(disk, places.drop_last(), levels) + visits(disk, places.last(), levels)
    }
}

/// The files so many folders down.
pub open spec fn files_down(disk: Disk, levels: nat) -> spec_fn(PlaceModel) -> Seq<PlaceModel> {
    |p: PlaceModel| files(disk, p, levels)
}

/// What is looked at so many folders down.
pub open spec fn visits_down(disk: Disk, levels: nat) -> spec_fn(PlaceModel) -> Seq<PlaceModel> {
    |p: PlaceModel| visits(disk, p, levels)
}

/// Several places are gathered from one by one.
proof fn lemma_one_by_one(disk: Disk, places: Seq<PlaceModel>, levels: nat)
    ensures
        all_files(disk, places, levels) == gathered(places, files_down(disk, levels)),
        all_visits(disk, places, levels) == gathered(places, visits_down(disk, levels)),
    decreases places.len(),
{
    if places.len() > 0 {
        lemma_one_by_one(disk, places.drop_last(), levels);
    }
}

/// How many folders below a place will be looked in.
pub open spec fn levels_below(p: PlaceModel) -> nat {
    (MAX_DEPTH - p.depth) as nat
}

/// The files at a place, as far down as a walk goes.
pub open spec fn files_at(disk: Disk) -> spec_fn(PlaceModel) -> Seq<PlaceModel> {
    |p: PlaceModel| files(disk, p, levels_below(p))
}

/// Everything a walk looks at from a place.
pub open spec fn visits_at(disk: Disk) -> spec_fn(PlaceModel) -> Seq<PlaceModel> {
    |p: PlaceModel| visits(disk, p, levels_below(p))
}

/// The files below a folder that was picked, in order.
pub open spec fn tree(disk: Disk, root: Seq<char>, names: Seq<Seq<char>>) -> Seq<PlaceModel> {
    gathered(contents(root, Seq::empty(), 0, names).reverse(), files_at(disk))
}

impl WalkModel {
    /// A walk that has begun at a folder.
    pub open spec fn begun(root: Seq<char>, names: Seq<Seq<char>>) -> WalkModel {
        (WalkModel { todo: Seq::empty(), entries: Seq::empty(), truncated: false }).entered(
            root,
            Seq::empty(),
            0,
            names,
        )
    }

    /// There is nothing more to look at, or nothing more to find out.
    pub open spec fn over(self) -> bool {
        self.todo.len() == 0 || self.truncated
    }

    /// The walk once it has been told what the next thing is.
    pub open spec fn told(self, disk: Disk) -> WalkModel {
        let top = self.todo.last();
        let rest = WalkModel { todo: self.todo.drop_last(), ..self };
        if self.over() {
            self
        } else if hidden(top.name) {
            rest
        } else {
            match disk(top.path) {
                Some(names) => rest.entered(
                    top.path,
                    joined(top.folder, top.name),
                    top.depth + 1,
                    names,
                ),
                None => rest.listed(top),
            }
        }
    }

    /// The walk once it has been told so many times.
    pub open spec fn walked(self, disk: Disk, times: nat) -> WalkModel
        decreases times,
    {
        if times == 0 {
            self
        } else {
            self.walked(disk, (times - 1) as nat).told(disk)
        }
    }

    /// The files that are still to come.
    pub open spec fn to_come(self, disk: Disk) -> Seq<PlaceModel> {
        gathered(self.todo.reverse(), files_at(disk))
    }

    /// Nothing to be looked at is too deep, and the list is cut short only when it is full.
    pub open spec fn sound(self) -> bool {
        &&& forall|i: int| 0 <= i < self.todo.len() ==> (#[trigger] self.todo[i]).depth <= MAX_DEPTH
        &&& self.truncated ==> self.entries.len() >= MAX_FILES
    }
}

// --- gathering ------------------------------------------------------------------

proof fn lemma_gathered_both<A, B>(a: Seq<A>, b: Seq<A>, each: spec_fn(A) -> Seq<B>)
    ensures
        gathered(a + b, each) == gathered(a, each) + gathered(b, each),
    decreases b.len(),
{
    if b.len() == 0 {
        assert(a + b =~= a);
        assert(gathered(a, each) + gathered(b, each) =~= gathered(a, each));
    } else {
        assert((a + b).drop_last() =~= a + b.drop_last());
        assert((a + b).last() == b.last());
        lemma_gathered_both(a, b.drop_last(), each);
        assert(gathered(a + b, each) =~= gathered(a, each) + gathered(b, each));
    }
}

proof fn lemma_gathered_one<A, B>(x: A, each: spec_fn(A) -> Seq<B>)
    ensures
        gathered(seq![x], each) == each(x),
{
    let one = seq![x];
    assert(one.drop_last() =~= Seq::empty());
    assert(one.last() == x);
    reveal_with_fuel(gathered, 2);
    assert(gathered(one, each) =~= each(x));
}

proof fn lemma_gathered_alike<A, B>(
    items: Seq<A>,
    one: spec_fn(A) -> Seq<B>,
    other: spec_fn(A) -> Seq<B>,
)
    requires
        forall|i: int| 0 <= i < items.len() ==> one(#[trigger] items[i]) == other(items[i]),
    ensures
        gathered(items, one) == gathered(items, other),
    decreases items.len(),
{
    if items.len() > 0 {
        let front = items.drop_last();
        assert forall|i: int| 0 <= i < front.len() implies one(#[trigger] front[i]) == other(
            front[i],
        ) by {
            assert(front[i] == items[i]);
        }
        lemma_gathered_alike(front, one, other);
        assert(items[items.len() - 1] == items.last());
    }
}

proof fn lemma_gathered_members<A, B>(items: Seq<A>, each: spec_fn(A) -> Seq<B>, x: B)
    ensures
        gathered(items, each).contains(x) <==> exists|i: int|
            0 <= i < items.len() && each(#[trigger] items[i]).contains(x),
    decreases items.len(),
{
    if items.len() > 0 {
        let front = items.drop_last();
        let before = gathered(front, each);
        let last = each(items.last());
        lemma_gathered_members(front, each, x);
        assert((before + last).contains(x) <==> before.contains(x) || last.contains(x)) by {
            if before.contains(x) {
                let k = choose|k: int| 0 <= k < before.len() && before[k] == x;
                assert((before + last)[k] == x);
            }
            if last.contains(x) {
                let k = choose|k: int| 0 <= k < last.len() && last[k] == x;
                assert((before + last)[before.len() + k] == x);
            }
        }
        if before.contains(x) {
            let i = choose|i: int| 0 <= i < front.len() && each(#[trigger] front[i]).contains(x);
            assert(each(items[i]).contains(x));
        }
        if last.contains(x) {
            assert(each(items[items.len() - 1]).contains(x));
        }
        if exists|i: int| 0 <= i < items.len() && each(#[trigger] items[i]).contains(x) {
            let i = choose|i: int| 0 <= i < items.len() && each(#[trigger] items[i]).contains(x);
            if i < items.len() - 1 {
                assert(each(front[i]).contains(x));
            }
        }
    }
}

/// Things that each come to different things, none twice, come together to nothing twice.
proof fn lemma_gathered_apart<A, B>(items: Seq<A>, each: spec_fn(A) -> Seq<B>)
    requires
        forall|i: int| 0 <= i < items.len() ==> each(#[trigger] items[i]).no_duplicates(),
        forall|i: int, j: int, x: B|
            0 <= i < j < items.len() && #[trigger] each(items[i]).contains(x)
                ==> !#[trigger] each(items[j]).contains(x),
    ensures
        gathered(items, each).no_duplicates(),
    decreases items.len(),
{
    if items.len() > 0 {
        let front = items.drop_last();
        let before = gathered(front, each);
        let last = each(items.last());
        assert(items[items.len() - 1] == items.last());
        assert forall|i: int| 0 <= i < front.len() implies each(
            #[trigger] front[i],
        ).no_duplicates() by {
            assert(front[i] == items[i]);
        }
        assert forall|i: int, j: int, x: B|
            0 <= i < j < front.len() && #[trigger] each(front[i]).contains(x) implies
            !#[trigger] each(front[j]).contains(x) by {
            assert(each(items[i]).contains(x));
        }
        lemma_gathered_apart(front, each);
        let all = before + last;
        assert forall|a: int, b: int| 0 <= a < b < all.len() implies all[a] != all[b] by {
            if a < before.len() && b >= before.len() {
                let x = all[a];
                assert(before.contains(before[a]));
                lemma_gathered_members(front, each, x);
                let i = choose|i: int|
                    0 <= i < front.len() && each(#[trigger] front[i]).contains(x);
                assert(each(items[i]).contains(x));
                assert(!each(items[items.len() - 1]).contains(x));
                if all[b] == x {
                    assert(last[b - before.len()] == x);
                }
            } else if a >= before.len() {
                assert(last[a - before.len()] != last[b - before.len()]);
            } else {
                assert(before[a] != before[b]);
            }
        }
    }
}

// --- a walk ---------------------------------------------------------------------

/// What is in a folder is one folder deeper than it.
proof fn lemma_contents(path: Seq<char>, folder: Seq<char>, depth: usize, names: Seq<Seq<char>>)
    ensures
        forall|i: int|
            0 <= i < contents(path, folder, depth, names).len() ==> (#[trigger] contents(
                path,
                folder,
                depth,
                names,
            )[i]).depth == depth,
{
    let listed = alphabetical(names).map_values(place_of(path, folder, depth));
    assert forall|i: int| 0 <= i < contents(path, folder, depth, names).len() implies (
    #[trigger] contents(path, folder, depth, names)[i]).depth == depth by {
        assert(contents(path, folder, depth, names)[i] == listed[listed.len() - 1 - i]);
    }
}

/// Files listed after another.
proof fn lemma_listed_first(w: WalkModel, first: PlaceModel, rest: Seq<PlaceModel>)
    ensures
        w.all_listed(seq![first] + rest) == w.listed(first).all_listed(rest),
    decreases rest.len(),
{
    let all = seq![first] + rest;
    if rest.len() == 0 {
        assert(all.drop_last() =~= Seq::empty());
        assert(all.last() == first);
        reveal_with_fuel(WalkModel::all_listed, 2);
    } else {
        assert(all.drop_last() =~= seq![first] + rest.drop_last());
        assert(all.last() == rest.last());
        lemma_listed_first(w, first, rest.drop_last());
    }
}

/// Listing says nothing of what is to be looked at.
proof fn lemma_listing_alone(a: WalkModel, b: WalkModel, seen: Seq<PlaceModel>)
    requires
        a.entries == b.entries,
        a.truncated == b.truncated,
    ensures
        a.all_listed(seen).entries == b.all_listed(seen).entries,
        a.all_listed(seen).truncated == b.all_listed(seen).truncated,
    decreases seen.len(),
{
    if seen.len() > 0 {
        lemma_listing_alone(a, b, seen.drop_last());
    }
}

/// A list that is cut short stays as it is.
proof fn lemma_cut_short(w: WalkModel, seen: Seq<PlaceModel>)
    requires
        w.truncated,
        w.entries.len() >= MAX_FILES,
    ensures
        w.all_listed(seen).entries == w.entries,
        w.all_listed(seen).truncated,
    decreases seen.len(),
{
    if seen.len() > 0 {
        lemma_cut_short(w, seen.drop_last());
    }
}

/// Being told what the next thing is changes nothing of how the walk will end, and there is less
/// to look at afterwards.
proof fn lemma_told(w: WalkModel, disk: Disk)
    requires
        w.sound(),
        !w.over(),
    ensures
        ({
            let now = w.told(disk);
            &&& now.sound()
            &&& now.all_listed(now.to_come(disk)).entries == w.all_listed(
                w.to_come(disk),
            ).entries
            &&& now.all_listed(now.to_come(disk)).truncated == w.all_listed(
                w.to_come(disk),
            ).truncated
            &&& gathered(now.todo, visits_at(disk)).len() + 1 == gathered(
                w.todo,
                visits_at(disk),
            ).len()
        }),
{
    let top = w.todo.last();
    let rest = w.todo.drop_last();
    let now = w.told(disk);
    assert(w.todo[w.todo.len() - 1] == top);
    assert(w.todo =~= rest + seq![top]);
    assert(w.todo.reverse() =~= seq![top] + rest.reverse());
    lemma_gathered_both(seq![top], rest.reverse(), files_at(disk));
    lemma_gathered_one(top, files_at(disk));
    lemma_gathered_both(rest, seq![top], visits_at(disk));
    lemma_gathered_one(top, visits_at(disk));
    let after = gathered(rest.reverse(), files_at(disk));
    assert(w.to_come(disk) == files_at(disk)(top) + after);
    assert forall|i: int| 0 <= i < rest.len() implies (#[trigger] rest[i]).depth <= MAX_DEPTH by {
        assert(rest[i] == w.todo[i]);
    }
    if hidden(top.name) {
        assert(w.to_come(disk) =~= after);
        lemma_listing_alone(w, now, after);
    } else {
        match disk(top.path) {
            None => {
                lemma_listed_first(w, top, after);
                assert(now.todo == rest);
                lemma_listing_alone(w.listed(top), now, after);
            },
            Some(names) => {
                let folder = joined(top.folder, top.name);
                if top.depth + 1 > MAX_DEPTH {
                    assert(levels_below(top) == 0);
                    assert(w.to_come(disk) =~= after);
                    lemma_listing_alone(w, now, after);
                } else {
                    let deeper = (top.depth + 1) as usize;
                    let inside = contents(top.path, folder, deeper, names);
                    let less = (levels_below(top) - 1) as nat;
                    let kids = children(disk, top);
                    lemma_contents(top.path, folder, deeper, names);
                    assert(kids == inside.reverse());
                    assert(kids.reverse() =~= inside);
                    assert(now.todo == rest + inside);
                    assert(now.todo.reverse() =~= kids + rest.reverse());
                    lemma_gathered_both(kids, rest.reverse(), files_at(disk));
                    let each = files_down(disk, less);
                    lemma_one_by_one(disk, kids, less);
                    assert forall|i: int| 0 <= i < kids.len() implies each(#[trigger] kids[i])
                        == files_at(disk)(kids[i]) by {
                        assert(kids[i] == inside[inside.len() - 1 - i]);
                    }
                    lemma_gathered_alike(kids, each, files_at(disk));
                    assert(files_at(disk)(top) == gathered(kids, each));
                    lemma_listing_alone(w, now, w.to_come(disk));
                    lemma_gathered_both(rest, inside, visits_at(disk));
                    let seen = visits_down(disk, less);
                    lemma_one_by_one(disk, inside, less);
                    assert forall|i: int| 0 <= i < inside.len() implies seen(#[trigger] inside[i])
                        == visits_at(disk)(inside[i]) by {}
                    lemma_gathered_alike(inside, seen, visits_at(disk));
                    assert(visits_at(disk)(top) == seq![top] + gathered(inside, seen));
                    assert forall|i: int| 0 <= i < now.todo.len() implies (
                    #[trigger] now.todo[i]).depth <= MAX_DEPTH by {
                        if i < rest.len() {
                            assert(now.todo[i] == rest[i]);
                        } else {
                            assert(now.todo[i] == inside[i - rest.len()]);
                        }
                    }
                }
            },
        }
    }
}

proof fn lemma_walked(w: WalkModel, disk: Disk, times: nat)
    requires
        w.sound(),
    ensures
        ({
            let now = w.walked(disk, times);
            &&& now.sound()
            &&& now.all_listed(now.to_come(disk)).entries == w.all_listed(
                w.to_come(disk),
            ).entries
            &&& now.all_listed(now.to_come(disk)).truncated == w.all_listed(
                w.to_come(disk),
            ).truncated
            &&& !now.over() ==> gathered(now.todo, visits_at(disk)).len() + times == gathered(
                w.todo,
                visits_at(disk),
            ).len()
        }),
    decreases times,
{
    if times > 0 {
        let before = w.walked(disk, (times - 1) as nat);
        lemma_walked(w, disk, (times - 1) as nat);
        if !before.over() {
            lemma_told(before, disk);
        }
    }
}

/// A walk that is over has listed the sounds in the tree of folders below the one that was
/// picked, in order, as many as there is room for, and says that there were more exactly when
/// there were. Every walk is over once everything has been looked at.
pub proof fn a_walk_lists_what_is_there(
    disk: Disk,
    root: Seq<char>,
    names: Seq<Seq<char>>,
    times: nat,
)
    ensures
        ({
            let end = WalkModel::begun(root, names).walked(disk, times);
            let found = tree(disk, root, names).filter(audible());
            let room = if found.len() < MAX_FILES { found.len() as int } else { MAX_FILES as int };
            end.over() ==> {
                &&& end.entries == found.take(room).map_values(row_for())
                &&& end.truncated <==> found.len() > MAX_FILES
            }
        }),
        times >= gathered(WalkModel::begun(root, names).todo, visits_at(disk)).len()
            ==> WalkModel::begun(root, names).walked(disk, times).over(),
{
    let begun = WalkModel::begun(root, names);
    let end = begun.walked(disk, times);
    let inside = contents(root, Seq::empty(), 0, names);
    let all = tree(disk, root, names);
    lemma_contents(root, Seq::empty(), 0, names);
    assert(begun.todo =~= inside);
    assert(begun.to_come(disk) == all);
    lemma_walked(begun, disk, times);
    the_list_is_cut_short_only_when_there_is_more(begun, all);
    if end.over() {
        if end.truncated {
            lemma_cut_short(end, end.to_come(disk));
        } else {
            assert(end.todo.reverse() =~= Seq::empty());
            assert(end.to_come(disk) =~= Seq::empty());
        }
    } else {
        let top = end.todo.last();
        assert(gathered(end.todo, visits_at(disk)).len() >= visits_at(disk)(top).len());
        assert(visits_at(disk)(top).len() >= 1);
    }
}

// --- what is in the tree --------------------------------------------------------

/// Whether a file is at a place, or in it so many folders down at the most, with nothing hidden
/// on the way.
pub open spec fn lies_in(disk: Disk, p: PlaceModel, file: PlaceModel, levels: nat) -> bool
    decreases levels,
{
    &&& !hidden(p.name)
    &&& match disk(p.path) {
        None => file == p,
        Some(names) => levels > 0 && exists|name: Seq<char>| #[trigger]
            names.contains(name) && lies_in(
                disk,
                place_of(p.path, joined(p.folder, p.name), (p.depth + 1) as usize)(name),
                file,
                (levels - 1) as nat,
            ),
    }
}

/// Sorting names loses none and adds none, and leaves none twice that was not.
proof fn lemma_alphabetical(names: Seq<Seq<char>>)
    ensures
        forall|name: Seq<char>| #[trigger]
            alphabetical(names).contains(name) <==> names.contains(name),
        names.no_duplicates() ==> alphabetical(names).no_duplicates(),
{
    let sorted = alphabetical(names);
    spelling_is_an_order();
    names.lemma_sort_by_ensures(by_spelling());
    names.to_multiset_ensures();
    sorted.to_multiset_ensures();
    assert forall|name: Seq<char>| #[trigger] sorted.contains(name) <==> names.contains(name) by {
        assert(sorted.to_multiset().count(name) == names.to_multiset().count(name));
    }
    if names.no_duplicates() {
        names.lemma_multiset_has_no_duplicates();
        sorted.lemma_multiset_has_no_duplicates_conv();
    }
}

/// What is in a folder is there for its names.
proof fn lemma_children(
    path: Seq<char>,
    folder: Seq<char>,
    depth: usize,
    names: Seq<Seq<char>>,
    q: PlaceModel,
)
    ensures
        contents(path, folder, depth, names).reverse().contains(q) <==> exists|name: Seq<char>|
            #[trigger]
            names.contains(name) && q == place_of(path, folder, depth)(name),
{
    let each = place_of(path, folder, depth);
    let sorted = alphabetical(names);
    let listed = sorted.map_values(each);
    let kids = contents(path, folder, depth, names).reverse();
    lemma_alphabetical(names);
    assert(kids =~= listed);
    if kids.contains(q) {
        let i = choose|i: int| 0 <= i < listed.len() && listed[i] == q;
        assert(sorted.contains(sorted[i]));
        assert(names.contains(sorted[i]));
    }
    if exists|name: Seq<char>| #[trigger] names.contains(name) && q == each(name) {
        let name = choose|name: Seq<char>| #[trigger] names.contains(name) && q == each(name);
        assert(sorted.contains(name));
        let i = choose|i: int| 0 <= i < sorted.len() && sorted[i] == name;
        assert(listed[i] == q);
    }
}

/// The files at a place are those that lie in it.
proof fn lemma_files(disk: Disk, p: PlaceModel, file: PlaceModel, levels: nat)
    ensures
        files(disk, p, levels).contains(file) <==> lies_in(disk, p, file, levels),
    decreases levels,
{
    if !hidden(p.name) {
        match disk(p.path) {
            None => {
                assert(seq![p][0] == p);
            },
            Some(names) => {
                if levels > 0 {
                    let less = (levels - 1) as nat;
                    let folder = joined(p.folder, p.name);
                    let deeper = (p.depth + 1) as usize;
                    let kids = children(disk, p);
                    let each = files_down(disk, less);
                    lemma_one_by_one(disk, kids, less);
                    lemma_gathered_members(kids, each, file);
                    if files(disk, p, levels).contains(file) {
                        let i = choose|i: int|
                            0 <= i < kids.len() && each(#[trigger] kids[i]).contains(file);
                        assert(kids.contains(kids[i]));
                        lemma_children(p.path, folder, deeper, names, kids[i]);
                        let name = choose|name: Seq<char>| #[trigger]
                            names.contains(name) && kids[i] == place_of(p.path, folder, deeper)(
                                name,
                            );
                        lemma_files(disk, kids[i], file, less);
                    }
                    if lies_in(disk, p, file, levels) {
                        let name = choose|name: Seq<char>| #[trigger]
                            names.contains(name) && lies_in(
                                disk,
                                place_of(p.path, folder, deeper)(name),
                                file,
                                less,
                            );
                        let q = place_of(p.path, folder, deeper)(name);
                        lemma_files(disk, q, file, less);
                        lemma_children(p.path, folder, deeper, names, q);
                        let i = choose|i: int| 0 <= i < kids.len() && kids[i] == q;
                        assert(each(kids[i]).contains(file));
                    }
                }
            },
        }
    }
}

/// The tree below a folder is every file that lies in it, four folders further down at the most,
/// with nothing hidden on the way.
pub proof fn the_tree_is_what_lies_below(
    disk: Disk,
    root: Seq<char>,
    names: Seq<Seq<char>>,
    file: PlaceModel,
)
    ensures
        tree(disk, root, names).contains(file) <==> exists|name: Seq<char>| #[trigger]
            names.contains(name) && lies_in(
                disk,
                place_of(root, Seq::empty(), 0)(name),
                file,
                MAX_DEPTH as nat,
            ),
{
    let kids = contents(root, Seq::empty(), 0, names).reverse();
    let each = place_of(root, Seq::empty(), 0);
    lemma_gathered_members(kids, files_at(disk), file);
    if tree(disk, root, names).contains(file) {
        let i = choose|i: int|
            0 <= i < kids.len() && files_at(disk)(#[trigger] kids[i]).contains(file);
        assert(kids.contains(kids[i]));
        lemma_children(root, Seq::empty(), 0, names, kids[i]);
        let name = choose|name: Seq<char>| #[trigger]
            names.contains(name) && kids[i] == each(name);
        lemma_files(disk, kids[i], file, MAX_DEPTH as nat);
    }
    if exists|name: Seq<char>| #[trigger]
        names.contains(name) && lies_in(disk, each(name), file, MAX_DEPTH as nat) {
        let name = choose|name: Seq<char>| #[trigger]
            names.contains(name) && lies_in(disk, each(name), file, MAX_DEPTH as nat);
        let q = each(name);
        lemma_files(disk, q, file, MAX_DEPTH as nat);
        lemma_children(root, Seq::empty(), 0, names, q);
        let i = choose|i: int| 0 <= i < kids.len() && kids[i] == q;
        assert(files_at(disk)(kids[i]).contains(file));
    }
}

// --- each file once -------------------------------------------------------------

/// A name of something in a folder: not nothing, and with no slash in it.
pub open spec fn plain(name: Seq<char>) -> bool {
    name.len() > 0 && !name.contains('/')
}

/// Names as a folder has them: plain ones, none of them twice.
pub open spec fn orderly(names: Seq<Seq<char>>) -> bool {
    &&& names.no_duplicates()
    &&& forall|i: int| 0 <= i < names.len() ==> plain(#[trigger] names[i])
}

/// A disk whose every folder has names as a folder has them.
pub open spec fn orderly_disk(disk: Disk) -> bool {
    forall|path: Seq<char>| #[trigger] disk(path) matches Some(names) ==> orderly(names)
}

/// Whether a path is a place's own, or that of something in it.
spec fn at_or_under(base: Seq<char>, path: Seq<char>) -> bool {
    &&& base.len() <= path.len()
    &&& path.take(base.len() as int) == base
    &&& path.len() > base.len() ==> path[base.len() as int] == '/'
}

/// Two names in one folder have nothing under both.
proof fn lemma_apart(dir: Seq<char>, a: Seq<char>, b: Seq<char>, path: Seq<char>)
    requires
        plain(a),
        plain(b),
        at_or_under(joined(dir, a), path),
        at_or_under(joined(dir, b), path),
    ensures
        a == b,
{
    let k = if dir.len() == 0 || dir.last() == '/' {
        dir.len() as int
    } else {
        (dir.len() + 1) as int
    };
    let whole_a = joined(dir, a);
    let whole_b = joined(dir, b);
    assert(whole_a.len() == k + a.len() && whole_b.len() == k + b.len());
    assert forall|i: int| 0 <= i < a.len() implies #[trigger] a[i] == path[k + i] by {
        assert(path.take(whole_a.len() as int)[k + i] == whole_a[k + i]);
    }
    assert forall|i: int| 0 <= i < b.len() implies #[trigger] b[i] == path[k + i] by {
        assert(path.take(whole_b.len() as int)[k + i] == whole_b[k + i]);
    }
    if a.len() < b.len() {
        assert(b[a.len() as int] == path[k + a.len()]);
        assert(b.contains('/'));
    } else if b.len() < a.len() {
        assert(a[b.len() as int] == path[k + b.len()]);
        assert(a.contains('/'));
    }
    assert(a =~= b);
}

/// What is under something in a place is under the place.
proof fn lemma_under(base: Seq<char>, name: Seq<char>, path: Seq<char>)
    requires
        base.len() > 0,
        base.last() != '/',
        plain(name),
        at_or_under(joined(base, name), path),
    ensures
        at_or_under(base, path),
        joined(base, name).len() > 0,
        joined(base, name).last() != '/',
{
    let whole = joined(base, name);
    assert(whole == base.push('/') + name);
    assert(whole.last() == name.last());
    assert(name[name.len() - 1] != '/') by {
        if name[name.len() - 1] == '/' {
            assert(name.contains('/'));
        }
    }
    assert(path.take(whole.len() as int)[base.len() as int] == whole[base.len() as int]);
    assert forall|i: int| 0 <= i < base.len() implies path[i] == base[i] by {
        assert(path.take(whole.len() as int)[i] == whole[i]);
    }
    assert(path.take(base.len() as int) =~= base);
}

/// What is in a folder with plain names has a path that does not end in a slash.
proof fn lemma_path_of(dir: Seq<char>, name: Seq<char>)
    requires
        plain(name),
    ensures
        joined(dir, name).len() > 0,
        joined(dir, name).last() != '/',
{
    assert(joined(dir, name).last() == name.last());
    if name[name.len() - 1] == '/' {
        assert(name.contains('/'));
    }
}

/// The children of an orderly folder are different, and every one has its name's path.
proof fn lemma_kids(path: Seq<char>, folder: Seq<char>, depth: usize, names: Seq<Seq<char>>)
    requires
        orderly(names),
    ensures
        ({
            let kids = contents(path, folder, depth, names).reverse();
            &&& forall|i: int|
                0 <= i < kids.len() ==> plain((#[trigger] kids[i]).name) && kids[i].path == joined(
                    path,
                    kids[i].name,
                )
            &&& forall|i: int, j: int|
                0 <= i < j < kids.len() ==> (#[trigger] kids[i]).name != (#[trigger] kids[j]).name
        }),
{
    let sorted = alphabetical(names);
    let kids = contents(path, folder, depth, names).reverse();
    lemma_alphabetical(names);
    assert(kids =~= sorted.map_values(place_of(path, folder, depth)));
    assert forall|i: int| 0 <= i < kids.len() implies plain((#[trigger] kids[i]).name)
        && kids[i].path == joined(path, kids[i].name) by {
        assert(sorted.contains(sorted[i]));
        assert(names.contains(sorted[i]));
        let k = choose|k: int| 0 <= k < names.len() && names[k] == sorted[i];
        assert(plain(names[k]));
    }
}

/// The files at a place are under it, and none is there twice.
proof fn lemma_files_once(disk: Disk, p: PlaceModel, levels: nat)
    requires
        orderly_disk(disk),
        p.path.len() > 0,
        p.path.last() != '/',
    ensures
        files(disk, p, levels).no_duplicates(),
        forall|i: int|
            0 <= i < files(disk, p, levels).len() ==> at_or_under(
                p.path,
                (#[trigger] files(disk, p, levels)[i]).path,
            ),
    decreases levels,
{
    if !hidden(p.name) {
        match disk(p.path) {
            None => {
                assert(p.path.take(p.path.len() as int) =~= p.path);
            },
            Some(names) => {
                if levels > 0 {
                    let less = (levels - 1) as nat;
                    let kids = children(disk, p);
                    let each = files_down(disk, less);
                    lemma_one_by_one(disk, kids, less);
                    lemma_kids(p.path, joined(p.folder, p.name), (p.depth + 1) as usize, names);
                    assert forall|i: int| 0 <= i < kids.len() implies each(
                        #[trigger] kids[i],
                    ).no_duplicates() && forall|x: PlaceModel| #[trigger]
                        each(kids[i]).contains(x) ==> at_or_under(kids[i].path, x.path) by {
                        lemma_path_of(p.path, kids[i].name);
                        lemma_files_once(disk, kids[i], less);
                    }
                    assert forall|i: int, j: int, x: PlaceModel|
                        0 <= i < j < kids.len() && #[trigger] each(kids[i]).contains(x) implies
                        !#[trigger] each(kids[j]).contains(x) by {
                        if each(kids[j]).contains(x) {
                            lemma_apart(p.path, kids[i].name, kids[j].name, x.path);
                        }
                    }
                    lemma_gathered_apart(kids, each);
                    let all = files(disk, p, levels);
                    assert forall|i: int| 0 <= i < all.len() implies at_or_under(
                        p.path,
                        (#[trigger] all[i]).path,
                    ) by {
                        let x = all[i];
                        assert(all.contains(x));
                        lemma_gathered_members(kids, each, x);
                        let k = choose|k: int|
                            0 <= k < kids.len() && each(#[trigger] kids[k]).contains(x);
                        lemma_under(p.path, kids[k].name, x.path);
                    }
                }
            },
        }
    }
}

/// Each file is in the tree once, when every folder has names as folders have them.
pub proof fn each_file_is_in_the_tree_once(disk: Disk, root: Seq<char>, names: Seq<Seq<char>>)
    requires
        orderly_disk(disk),
        orderly(names),
    ensures
        tree(disk, root, names).no_duplicates(),
{
    let kids = contents(root, Seq::empty(), 0, names).reverse();
    let each = files_at(disk);
    lemma_kids(root, Seq::empty(), 0, names);
    assert forall|i: int| 0 <= i < kids.len() implies each(#[trigger] kids[i]).no_duplicates()
        && forall|x: PlaceModel| #[trigger]
        each(kids[i]).contains(x) ==> at_or_under(kids[i].path, x.path) by {
        lemma_path_of(root, kids[i].name);
        lemma_files_once(disk, kids[i], levels_below(kids[i]));
    }
    assert forall|i: int, j: int, x: PlaceModel|
        0 <= i < j < kids.len() && #[trigger] each(kids[i]).contains(x) implies !#[trigger] each(
        kids[j],
    ).contains(x) by {
        if each(kids[j]).contains(x) {
            lemma_apart(root, kids[i].name, kids[j].name, x.path);
        }
    }
    lemma_gathered_apart(kids, each);
}

} // verus!
