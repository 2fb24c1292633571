//! Finding samples on disk.
//!
//! A [`Walk`] says what to look at next and is told what was there; reading the disk is the
//! caller's business.

use vstd::prelude::*;
use vstd::relations::sorted_by;

use crate::paths::{audible_path, is_audio_file, join, joined, stem, stem_of};
use crate::seqs::lemma_filter_members;
use crate::spelling::{
    alphabetical, by_spelling, in_order, not_after, sort_names, spelling_is_an_order, text_view,
};
use crate::text::{characters, same};

verus! {

/// How deep into a folder we will look. Sample packs nest a couple of levels; nobody
/// wants their whole home folder walked.
pub const MAX_DEPTH: usize = 4;

/// Files we will list from one folder. A wall of ten thousand names is not a browser.
pub const MAX_FILES: usize = 2_000;

/// One row in the sample list. Deliberately does not decode anything: scanning a folder
/// has to feel instant, and a sample is only read when it is clicked or dragged.
#[derive(Debug)]
pub struct SampleEntry {
    pub path: String,
    pub name: String,
    /// Folder relative to the one that was picked, so nested packs still make sense.
    pub folder: String,
}

/// A row, as mathematics has it.
pub struct EntryModel {
    pub path: Seq<char>,
    pub name: Seq<char>,
    pub folder: Seq<char>,
}

impl View for SampleEntry {
    type V = EntryModel;

    open spec fn view(&self) -> EntryModel {
        EntryModel { path: self.path@, name: self.name@, folder: self.folder@ }
    }
}

pub open spec fn entry_view() -> spec_fn(SampleEntry) -> EntryModel {
    |e: SampleEntry| e@
}

/// Something in a folder that has not been looked at yet.
#[derive(Debug)]
pub struct Place {
    pub path: String,
    pub name: String,
    /// The folder it is in, relative to the one that was picked.
    pub folder: String,
    /// How deep that folder is.
    pub depth: usize,
}

pub struct PlaceModel {
    pub path: Seq<char>,
    pub name: Seq<char>,
    pub folder: Seq<char>,
    pub depth: usize,
}

impl View for Place {
    type V = PlaceModel;

    open spec fn view(&self) -> PlaceModel {
        PlaceModel {
            path: self.path@,
            name: self.name@,
            folder: self.folder@,
            depth: self.depth,
        }
    }
}

pub open spec fn place_view() -> spec_fn(Place) -> PlaceModel {
    |p: Place| p@
}

pub open spec fn place_of(path: Seq<char>, folder: Seq<char>, depth: usize) -> spec_fn(
    Seq<char>,
) -> PlaceModel {
    |name: Seq<char>| PlaceModel { path: joined(path, name), name, folder, depth }
}

/// What is in a folder, last first, so that the same folder always lists in the same order.
pub open spec fn contents(
    path: Seq<char>,
    folder: Seq<char>,
    depth: usize,
    names: Seq<Seq<char>>,
) -> Seq<PlaceModel> {
    alphabetical(names).map_values(place_of(path, folder, depth)).reverse()
}

/// Hidden files, and the dot folders that come with sample packs, are not looked at.
pub open spec fn hidden(name: Seq<char>) -> bool {
    name.len() > 0 && name[0] == '.'
}

/// A walk, as mathematics has it.
#[verifier::ext_equal]
pub struct WalkModel {
    /// What is still to be looked at, the next thing last.
    pub todo: Seq<PlaceModel>,
    pub entries: Seq<EntryModel>,
    pub truncated: bool,
}

impl WalkModel {
    /// A folder opened: what is in it comes next, unless it is too deep.
    pub open spec fn entered(
        self,
        path: Seq<char>,
        folder: Seq<char>,
        depth: int,
        names: Seq<Seq<char>>,
    ) -> WalkModel {
        if depth > MAX_DEPTH {
            self
        } else {
            WalkModel {
                todo: self.todo + contents(path, folder, depth as usize, names),
                ..self
            }
        }
    }

    /// A file listed, if it looks like audio and there is room. When there is none, there are
    /// more files than are listed.
    pub open spec fn listed(self, p: PlaceModel) -> WalkModel {
        if !audible_path(p.path) {
            self
        } else if self.entries.len() < MAX_FILES {
            WalkModel { entries: self.entries.push(row_for()(p)), ..self }
        } else {
            WalkModel { truncated: true, ..self }
        }
    }

    /// Several files listed, in order.
    pub open spec fn all_listed(self, files: Seq<PlaceModel>) -> WalkModel
        decreases files.len(),
    {
        if files.len() == 0 {
            self
        } else {
            self.all_listed(files.drop_last()).listed(files.last())
        }
    }
}

/// The row for a file.
pub open spec fn row_for() -> spec_fn(PlaceModel) -> EntryModel {
    |p: PlaceModel| EntryModel { path: p.path, name: stem_of(p.name), folder: p.folder }
}

/// The test for a file that looks like audio.
pub open spec fn audible() -> spec_fn(PlaceModel) -> bool {
    |p: PlaceModel| audible_path(p.path)
}

/// A walk through a folder for anything that looks like audio.
#[derive(Debug)]
pub struct Walk {
    todo: Vec<Place>,
    entries: Vec<SampleEntry>,
    truncated: bool,
}

impl View for Walk {
    type V = WalkModel;

    closed spec fn view(&self) -> WalkModel {
        WalkModel {
            todo: self.todo@.map_values(place_view()),
            entries: self.entries@.map_values(entry_view()),
            truncated: self.truncated,
        }
    }
}

/// What a walk wants next.
#[derive(Debug)]
pub enum Next {
    /// Nothing: it is over.
    Done,
    /// To be asked again. What came next was hidden.
    Again,
    /// To know what this is.
    Look(Place),
}

/// What a scan found.
#[derive(Debug)]
pub struct Listing {
    pub root: String,
    pub entries: Vec<SampleEntry>,
    /// True when there were more files than we were willing to list.
    pub truncated: bool,
}

fn is_hidden(name: &str) -> (r: bool)
    ensures
        r == hidden(name@),
{
    let all: Vec<char> = characters(name);
    all.len() > 0 && all[0] == '.'
}

impl Walk {
    /// Start from a folder, given the names of what is in it.
    pub fn new(root: &str, names: Vec<String>) -> (r: Self)
        ensures
            r@ == (WalkModel {
                todo: Seq::empty(),
                entries: Seq::empty(),
                truncated: false,
            }).entered(root@, Seq::empty(), 0, names@.map_values(text_view())),
    {
        let mut r = Walk { todo: Vec::new(), entries: Vec::new(), truncated: false };
        proof {
            assert(r@ =~= WalkModel {
                todo: Seq::empty(),
                entries: Seq::empty(),
                truncated: false,
            });
            reveal_strlit("");
            assert(""@ =~= Seq::empty());
        }
        r.enter(root, "", 0, names);
        r
    }

    fn enter(&mut self, path: &str, folder: &str, depth: usize, names: Vec<String>)
        ensures
            final(self)@ == old(self)@.entered(
                path@,
                folder@,
                depth as int,
                names@.map_values(text_view()),
            ),
    {
        if depth > MAX_DEPTH {
            return;
        }
        let ghost model = names@.map_values(text_view());
        let sorted: Vec<String> = sort_names(names);
        let n: usize = sorted.len();
        let ghost all = contents(path@, folder@, depth, model);
        assert(all.len() == n) by {
            assert(alphabetical(model).len() == sorted@.len());
        }
        let mut i: usize = n;
        assert(self@.todo =~= old(self)@.todo + all.take(0));
        while i > 0
            invariant
                i <= n == sorted@.len(),
                all.len() == n,
                all == contents(path@, folder@, depth, model),
                sorted@.map_values(text_view()) == alphabetical(model),
                self.entries == old(self).entries,
                self.truncated == old(self).truncated,
                self@.todo == old(self)@.todo + all.take(n - i),
            decreases i,
        {
            i = i - 1;
            let name: String = sorted[i].clone();
            let place = Place {
                path: join(path, name.as_str()),
                name,
                folder: folder.to_owned(),
                depth,
            };
            proof {
                let k = n - i - 1;
                assert(alphabetical(model)[i as int] == sorted@[i as int]@);
                assert(all[k] == place@);
                assert(all.take(k + 1) =~= all.take(k).push(place@));
            }
            let ghost before = self@.todo;
            self.todo.push(place);
            assert(self@.todo =~= before.push(place@));
        }
        assert(all.take(n as int) =~= all);
    }

    /// What to look at next. Once a file has been found that there is no room to list, there is
    /// nothing more to find out and the walk is over.
    pub fn next(&mut self) -> (r: Next)
        ensures
            ({
                let m = old(self)@;
                let top = m.todo.last();
                if m.todo.len() == 0 || m.truncated {
                    r is Done && final(self)@ == m
                } else {
                    &&& final(self)@ == (WalkModel { todo: m.todo.drop_last(), ..m })
                    &&& if hidden(top.name) {
                        r is Again
                    } else {
                        r matches Next::Look(p) && p@ == top
                    }
                }
            }),
    {
        if self.todo.len() == 0 || self.truncated {
            return Next::Done;
        }
        let ghost before = self@;
        match self.todo.pop() {
            Some(place) => {
                assert(self@.todo =~= before.todo.drop_last());
                if is_hidden(place.name.as_str()) {
                    Next::Again
                } else {
                    Next::Look(place)
                }
            },
            None => Next::Done,
        }
    }

    /// It was a folder with these names in it. One that would not open has none.
    pub fn saw_folder(&mut self, place: &Place, names: Vec<String>)
        ensures
            final(self)@ == old(self)@.entered(
                place@.path,
                joined(place@.folder, place@.name),
                place@.depth + 1,
                names@.map_values(text_view()),
            ),
    {
        if place.depth >= MAX_DEPTH {
            return;
        }
        let folder: String = join(place.folder.as_str(), place.name.as_str());
        self.enter(place.path.as_str(), folder.as_str(), place.depth + 1, names);
    }

    /// It was a file.
    pub fn saw_file(&mut self, place: &Place)
        ensures
            final(self)@ == old(self)@.listed(place@),
    {
        if is_audio_file(place.path.as_str()) {
            if self.entries.len() >= MAX_FILES {
                self.truncated = true;
                return;
            }
            let entry = SampleEntry {
                path: place.path.clone(),
                name: stem(place.name.as_str()),
                folder: place.folder.clone(),
            };
            let ghost before = self@;
            self.entries.push(entry);
            assert(self@.entries =~= before.entries.push(entry@));
        }
    }

    /// The list, folder first, then name, so a pack's own layout survives the flattening. The
    /// names are ordered in small letters.
    pub fn finish(self, root: &str) -> (r: Listing)
        ensures
            r.root@ == root@,
            r.truncated == self@.truncated,
            sorted_by(r.entries@.map_values(entry_view()).map_values(keyed()), by_row()),
            forall|k: (Seq<char>, Seq<char>)| #[trigger]
                r.entries@.map_values(entry_view()).map_values(keyed()).filter(has_key(k))
                    == self@.entries.map_values(keyed()).filter(has_key(k)),
    {
        let rows = sort_rows(with_keys(&self.entries));
        proof {
            let all = self@.entries.map_values(keyed());
            assert forall|k: int| 0 <= k < rows@.len() implies (#[trigger] rows@[k])@ == keyed()(
                rows@[k]@.entry,
            ) by {
                let model = rows@.map_values(row_view());
                assert(model[k] == rows@[k]@);
                assert(model.contains(model[k]));
                the_list_is_what_was_found(all, model, model[k]);
                assert(all.contains(model[k]));
                let j = choose|j: int| 0 <= j < all.len() && all[j] == model[k];
                assert(all[j] == keyed()(self@.entries[j]));
            }
        }
        let entries = without_keys(rows);
        assert(entries@.map_values(entry_view()).map_values(keyed()) =~= rows@.map_values(
            row_view(),
        ));
        Listing { root: root.to_owned(), entries, truncated: self.truncated }
    }
}

// --- the order of the rows ----------------------------------------------------

/// Text in small letters, whatever the alphabet, as `str::to_lowercase` has it.
pub uninterp spec fn lowercased(text: Seq<char>) -> Seq<char>;

/// `str::to_lowercase`: the same text always gives the same text, and nothing else is claimed
/// of it.
#[verifier::external_body]
fn to_lowercase(text: &str) -> (r: String)
    ensures
        r@ == lowercased(text@),
{
    text.to_lowercase()
}

/// A row of the list, and what its name is ordered by.
#[derive(Debug)]
pub struct Row {
    pub entry: SampleEntry,
    pub key: String,
}

/// A row and its key, as mathematics has it.
pub struct RowModel {
    pub entry: EntryModel,
    pub key: Seq<char>,
}

impl View for Row {
    type V = RowModel;

    open spec fn view(&self) -> RowModel {
        RowModel { entry: self.entry@, key: self.key@ }
    }
}

pub open spec fn row_view() -> spec_fn(Row) -> RowModel {
    |r: Row| r@
}

/// A row of the list is ordered by its name in small letters.
pub open spec fn keyed() -> spec_fn(EntryModel) -> RowModel {
    |e: EntryModel| RowModel { entry: e, key: lowercased(e.name) }
}

/// What a row is ordered by.
pub open spec fn key(r: RowModel) -> (Seq<char>, Seq<char>) {
    (r.entry.folder, r.key)
}

pub open spec fn has_key(k: (Seq<char>, Seq<char>)) -> spec_fn(RowModel) -> bool {
    |r: RowModel| key(r) == k
}

fn entry_copy(e: &SampleEntry) -> (r: SampleEntry)
    ensures
        r@ == e@,
{
    SampleEntry { path: e.path.clone(), name: e.name.clone(), folder: e.folder.clone() }
}

/// Every row with its key.
fn with_keys(entries: &Vec<SampleEntry>) -> (r: Vec<Row>)
    ensures
        r@.map_values(row_view()) == entries@.map_values(entry_view()).map_values(keyed()),
{
    let mut r: Vec<Row> = Vec::new();
    let mut i: usize = 0;
    while i < entries.len()
        invariant
            i <= entries@.len(),
            r@.len() == i,
            forall|k: int| 0 <= k < i ==> (#[trigger] r@[k])@ == keyed()(entries@[k]@),
        decreases entries@.len() - i,
    {
        let key: String = to_lowercase(entries[i].name.as_str());
        r.push(Row { entry: entry_copy(&entries[i]), key });
        i = i + 1;
    }
    assert(r@.map_values(row_view()) =~= entries@.map_values(entry_view()).map_values(keyed()));
    r
}

/// Every row without its key.
fn without_keys(rows: Vec<Row>) -> (r: Vec<SampleEntry>)
    ensures
        r@.len() == rows@.len(),
        forall|k: int| 0 <= k < rows@.len() ==> (#[trigger] r@[k])@ == rows@[k]@.entry,
{
    let mut r: Vec<SampleEntry> = Vec::new();
    let mut i: usize = 0;
    while i < rows.len()
        invariant
            i <= rows@.len(),
            r@.len() == i,
            forall|k: int| 0 <= k < i ==> (#[trigger] r@[k])@ == rows@[k]@.entry,
        decreases rows@.len() - i,
    {
        r.push(entry_copy(&rows[i].entry));
        i = i + 1;
    }
    r
}

/// Whether a row may come before another: its folder does, or it is in the same one and its
/// name does.
pub open spec fn row_in_order(a: RowModel, b: RowModel) -> bool {
    if a.entry.folder == b.entry.folder {
        not_after(a.key, b.key)
    } else {
        not_after(a.entry.folder, b.entry.folder)
    }
}

pub open spec fn by_row() -> spec_fn(RowModel, RowModel) -> bool {
    |a: RowModel, b: RowModel| row_in_order(a, b)
}

proof fn lemma_rows(a: RowModel, b: RowModel, c: RowModel)
    ensures
        row_in_order(a, b) || row_in_order(b, a),
        row_in_order(a, b) && row_in_order(b, c) ==> row_in_order(a, c),
        row_in_order(a, b) && row_in_order(b, a) ==> key(a) == key(b),
{
    spelling_is_an_order();
    let le = by_spelling();
    let (la, lb, lc) = (a.key, b.key, c.key);
    assert(le(a.entry.folder, b.entry.folder) || le(b.entry.folder, a.entry.folder));
    assert(le(la, lb) || le(lb, la));
    if row_in_order(a, b) && row_in_order(b, c) {
        if a.entry.folder == b.entry.folder && b.entry.folder == c.entry.folder {
            assert(le(la, lb) && le(lb, lc));
            assert(le(la, lc));
        } else if a.entry.folder != b.entry.folder && b.entry.folder != c.entry.folder {
            assert(le(a.entry.folder, b.entry.folder) && le(b.entry.folder, c.entry.folder));
            assert(le(a.entry.folder, c.entry.folder));
            if a.entry.folder == c.entry.folder {
                assert(le(b.entry.folder, a.entry.folder));
            }
        }
    }
    if row_in_order(a, b) && row_in_order(b, a) {
        if a.entry.folder == b.entry.folder {
            assert(le(la, lb) && le(lb, la));
        } else {
            assert(le(a.entry.folder, b.entry.folder) && le(b.entry.folder, a.entry.folder));
        }
    }
}

fn rows_in_order(a: &Row, b: &Row) -> (r: bool)
    ensures
        r == row_in_order(a@, b@),
{
    if same(a.entry.folder.as_str(), b.entry.folder.as_str()) {
        in_order(a.key.as_str(), b.key.as_str())
    } else {
        in_order(a.entry.folder.as_str(), b.entry.folder.as_str())
    }
}

/// Where a row goes among rows in order: after everything that may come before it.
fn row_place(sorted: &Vec<Row>, row: &Row) -> (r: usize)
    requires
        sorted_by(sorted@.map_values(row_view()), by_row()),
    ensures
        r <= sorted@.len(),
        forall|k: int| 0 <= k < r ==> row_in_order((#[trigger] sorted@[k])@, row@),
        forall|k: int| r <= k < sorted@.len() ==> !row_in_order((#[trigger] sorted@[k])@, row@),
{
    let ghost model = sorted@.map_values(row_view());
    let mut i: usize = 0;
    while i < sorted.len()
        invariant
            i <= sorted@.len(),
            model == sorted@.map_values(row_view()),
            sorted_by(model, by_row()),
            forall|k: int| 0 <= k < i ==> row_in_order((#[trigger] sorted@[k])@, row@),
        decreases sorted@.len() - i,
    {
        if !rows_in_order(&sorted[i], row) {
            proof {
                assert forall|k: int| i <= k < sorted@.len() implies !row_in_order(
                    (#[trigger] sorted@[k])@,
                    row@,
                ) by {
                    if k > i {
                        assert(by_row()(model[i as int], model[k]));
                        lemma_rows(sorted@[i as int]@, sorted@[k]@, row@);
                    }
                }
            }
            return i;
        }
        i = i + 1;
    }
    i
}

/// The rows of two lists with some key, one list after the other.
proof fn lemma_filter_add(a: Seq<RowModel>, b: Seq<RowModel>, p: spec_fn(RowModel) -> bool)
    ensures
        (a + b).filter(p) == a.filter(p) + b.filter(p),
    decreases b.len(),
{
    reveal(Seq::filter);
    if b.len() == 0 {
        assert(a + b =~= a);
        assert(a.filter(p) + b.filter(p) =~= a.filter(p));
    } else {
        let front = b.drop_last();
        lemma_filter_add(a, front, p);
        assert((a + b).drop_last() =~= a + front);
        assert((a + b).last() == b.last());
        if p(b.last()) {
            assert((a + b).filter(p) =~= (a + front).filter(p).push(b.last()));
            assert(b.filter(p) =~= front.filter(p).push(b.last()));
            assert(a.filter(p) + b.filter(p) =~= (a.filter(p) + front.filter(p)).push(b.last()));
        } else {
            assert((a + b).filter(p) =~= (a + front).filter(p));
            assert(b.filter(p) =~= front.filter(p));
        }
    }
}

/// A row put after everything that may come before it, and before everything that may not, comes
/// last of those with its key.
proof fn lemma_inserted(sorted: Seq<RowModel>, at: int, row: RowModel, k: (Seq<char>, Seq<char>))
    requires
        0 <= at <= sorted.len(),
        forall|i: int| at <= i < sorted.len() ==> !row_in_order(#[trigger] sorted[i], row),
    ensures
        sorted.insert(at, row).filter(has_key(k)) == (if key(row) == k {
            sorted.filter(has_key(k)).push(row)
        } else {
            sorted.filter(has_key(k))
        }),
{
    let p = has_key(k);
    let front = sorted.take(at);
    let back = sorted.skip(at);
    let one = seq![row];
    assert(sorted.insert(at, row) =~= (front + one) + back);
    assert(sorted =~= front + back);
    lemma_filter_add(front + one, back, p);
    lemma_filter_add(front, one, p);
    lemma_filter_add(front, back, p);
    assert(one.filter(p) =~= (if p(row) { one } else { Seq::empty() })) by {
        reveal(Seq::filter);
        assert(one.drop_last() =~= Seq::empty());
        assert(one.last() == row);
        assert(Seq::<RowModel>::empty().filter(p) =~= Seq::empty());
    }
    if key(row) == k {
        assert(back.filter(p).len() == 0) by {
            lemma_filter_members(back, p);
            if back.filter(p).len() > 0 {
                let e = back.filter(p)[0];
                assert(back.filter(p).contains(e));
                assert(back.contains(e) && key(e) == k);
                let i = choose|i: int| 0 <= i < back.len() && back[i] == e;
                assert(sorted[at + i] == e);
                lemma_same_key(e, row);
            }
        }
        assert(back.filter(p) =~= Seq::empty());
        assert((front.filter(p) + one) + back.filter(p) =~= (front.filter(p) + back.filter(p)).push(
            row,
        ));
    } else {
        assert((front.filter(p) + Seq::empty()) + back.filter(p) =~= front.filter(p)
            + back.filter(p));
    }
}

/// Rows with one key may come in either order.
proof fn lemma_same_key(a: RowModel, b: RowModel)
    requires
        key(a) == key(b),
    ensures
        row_in_order(a, b),
{
    lemma_rows(a, b, a);
}

/// Rows in order, those that tie as they came.
pub fn sort_rows(rows: Vec<Row>) -> (r: Vec<Row>)
    ensures
        sorted_by(r@.map_values(row_view()), by_row()),
        forall|k: (Seq<char>, Seq<char>)| #[trigger]
            r@.map_values(row_view()).filter(has_key(k)) == rows@.map_values(
                row_view(),
            ).filter(has_key(k)),
{
    let ghost all = rows@.map_values(row_view());
    let mut sorted: Vec<Row> = Vec::new();
    let n: usize = rows.len();
    let mut i: usize = 0;
    assert(sorted@.map_values(row_view()) =~= Seq::empty());
    assert(all.take(0) =~= Seq::empty());
    while i < n
        invariant
            i <= n == rows@.len(),
            all == rows@.map_values(row_view()),
            sorted@.len() == i,
            sorted_by(sorted@.map_values(row_view()), by_row()),
            forall|k: (Seq<char>, Seq<char>)| #[trigger]
                sorted@.map_values(row_view()).filter(has_key(k)) == all.take(i as int).filter(
                    has_key(k),
                ),
        decreases n - i,
    {
        let row = Row { entry: entry_copy(&rows[i].entry), key: rows[i].key.clone() };
        let at: usize = row_place(&sorted, &row);
        let ghost before = sorted@.map_values(row_view());
        let ghost one = row@;
        sorted.insert(at, row);
        proof {
            let after = sorted@.map_values(row_view());
            assert(after =~= before.insert(at as int, one));
            assert forall|j: int, k: int| 0 <= j < k < after.len() implies #[trigger] by_row()(
                after[j],
                after[k],
            ) by {
                let a = if j < at { j } else { j - 1 };
                let b = if k < at { k } else { k - 1 };
                if j != at && k != at {
                    assert(by_row()(before[a], before[b]));
                } else if j == at {
                    lemma_rows(before[b], one, one);
                }
            }
            let upto = all.take(i as int + 1);
            assert(upto.drop_last() =~= all.take(i as int));
            assert(upto.last() == one);
            assert forall|k: (Seq<char>, Seq<char>)| #[trigger]
                after.filter(has_key(k)) == upto.filter(has_key(k)) by {
                reveal(Seq::filter);
                assert(before.filter(has_key(k)) == all.take(i as int).filter(has_key(k)));
                lemma_inserted(before, at as int, one, k);
            }
        }
        i = i + 1;
    }
    assert(all.take(n as int) =~= all);
    sorted
}

/// A walk never lists more than there is room for.
pub proof fn the_list_is_never_too_long(w: WalkModel, p: PlaceModel)
    requires
        w.entries.len() <= MAX_FILES,
    ensures
        w.listed(p).entries.len() <= MAX_FILES,
{
}

/// However many files are come upon, the list is the sounds among them in the order they were,
/// as many as there is room for, and it is said to be cut short exactly when there were more.
pub proof fn the_list_is_cut_short_only_when_there_is_more(w: WalkModel, files: Seq<PlaceModel>)
    requires
        w.entries.len() == 0,
        !w.truncated,
    ensures
        ({
            let found = files.filter(audible());
            let room = if found.len() < MAX_FILES { found.len() as int } else { MAX_FILES as int };
            &&& w.all_listed(files).entries == found.take(room).map_values(row_for())
            &&& w.all_listed(files).truncated <==> found.len() > MAX_FILES
            &&& w.all_listed(files).todo == w.todo
        }),
    decreases files.len(),
{
    reveal(Seq::filter);
    let found = files.filter(audible());
    let room = if found.len() < MAX_FILES { found.len() as int } else { MAX_FILES as int };
    if files.len() == 0 {
        assert(w.entries =~= found.take(room).map_values(row_for()));
    } else {
        let front = files.drop_last();
        let before = front.filter(audible());
        the_list_is_cut_short_only_when_there_is_more(w, front);
        if audible()(files.last()) {
            assert(found =~= before.push(files.last()));
            if before.len() < MAX_FILES {
                assert(before.take(before.len() as int) =~= before);
                assert(found.take(room) =~= found);
                assert(found.map_values(row_for()) =~= before.map_values(row_for()).push(
                    row_for()(files.last()),
                ));
            } else {
                assert(found.take(room) =~= before.take(room));
            }
        } else {
            assert(found =~= before);
        }
    }
}

/// Sorting the rows loses none of them and adds none.
pub proof fn the_list_is_what_was_found(
    found: Seq<RowModel>,
    listed: Seq<RowModel>,
    e: RowModel,
)
    requires
        forall|k: (Seq<char>, Seq<char>)| #[trigger]
            listed.filter(has_key(k)) == found.filter(has_key(k)),
    ensures
        listed.contains(e) <==> found.contains(e),
{
    let k = key(e);
    lemma_filter_members(listed, has_key(k));
    lemma_filter_members(found, has_key(k));
    assert(listed.filter(has_key(k)) == found.filter(has_key(k)));
    assert(listed.filter(has_key(k)).contains(e) <==> listed.contains(e));
    assert(found.filter(has_key(k)).contains(e) <==> found.contains(e));
}

/// A row shows where its file is, what it is called without the ending, and the folder it is in.
/// What starts with a dot is hidden, and nothing else is.
pub proof fn what_a_row_shows(p: PlaceModel, name: Seq<char>)
    ensures
        row_for()(p).path == p.path,
        row_for()(p).name == stem_of(p.name),
        row_for()(p).folder == p.folder,
        hidden(seq!['.'] + name),
        name.len() == 0 ==> !hidden(name),
        name.len() > 0 && name[0] != '.' ==> !hidden(name),
{
}

/// What is in a folder is every name of it, with the folder's path in front of it, and so deep; the
/// last in the order of spelling first.
#[verifier::rlimit(50)]
pub proof fn what_is_in_a_folder(
    path: Seq<char>,
    folder: Seq<char>,
    depth: usize,
    names: Seq<Seq<char>>,
    p: PlaceModel,
)
    ensures
        ({
            let all = contents(path, folder, depth, names);
            &&& all.len() == names.len()
            &&& all.contains(p) <==> names.contains(p.name) && p.path == joined(path, p.name)
                && p.folder == folder && p.depth == depth
            &&& forall|i: int, j: int|
                0 <= i < j < all.len() ==> not_after((#[trigger] all[j]).name, (
                #[trigger] all[i]).name)
        }),
{
    broadcast use vstd::seq_lib::group_to_multiset_ensures;

    let sorted = alphabetical(names);
    let all = contents(path, folder, depth, names);
    spelling_is_an_order();
    names.lemma_sort_by_ensures(by_spelling());
    assert(sorted.len() == names.len()) by {
        assert(sorted.to_multiset().len() == names.to_multiset().len());
    }
    assert(sorted.contains(p.name) <==> names.contains(p.name)) by {
        assert(sorted.to_multiset().count(p.name) == names.to_multiset().count(p.name));
    }
    assert forall|i: int| 0 <= i < all.len() implies #[trigger] all[i] == place_of(
        path,
        folder,
        depth,
    )(sorted[all.len() - 1 - i]) by {}
    if all.contains(p) {
        let i = choose|i: int| 0 <= i < all.len() && all[i] == p;
        assert(sorted.contains(sorted[all.len() - 1 - i]));
    }
    if names.contains(p.name) && p.path == joined(path, p.name) && p.folder == folder && p.depth
        == depth {
        let k = choose|k: int| 0 <= k < sorted.len() && sorted[k] == p.name;
        assert(all[all.len() - 1 - k] == p);
    }
    assert forall|i: int, j: int| 0 <= i < j < all.len() implies not_after(
        (#[trigger] all[j]).name,
        (#[trigger] all[i]).name,
    ) by {
        assert(by_spelling()(sorted[all.len() - 1 - j], sorted[all.len() - 1 - i]));
    }
}

/// A folder that is opened puts what is in it next, unless it is more than four folders down. A
/// file is listed when it looks like a sound, until there are two thousand; after that the list is
/// said to be cut short.
pub proof fn what_a_walk_does(
    w: WalkModel,
    path: Seq<char>,
    folder: Seq<char>,
    depth: int,
    names: Seq<Seq<char>>,
    p: PlaceModel,
)
    requires
        depth >= 0,
    ensures
        depth > 4 ==> w.entered(path, folder, depth, names) == w,
        depth <= 4 ==> {
            let now = w.entered(path, folder, depth, names);
            &&& now.todo == w.todo + contents(path, folder, depth as usize, names)
            &&& now.entries == w.entries && now.truncated == w.truncated
        },
        w.listed(p).todo == w.todo,
        !audible_path(p.path) ==> w.listed(p) == w,
        audible_path(p.path) && w.entries.len() < 2000 ==> w.listed(p).entries == w.entries.push(
            EntryModel { path: p.path, name: stem_of(p.name), folder: p.folder },
        ) && w.listed(p).truncated == w.truncated,
        audible_path(p.path) && w.entries.len() >= 2000 ==> w.listed(p).entries == w.entries
            && w.listed(p).truncated,
{
}

/// Rows are in the order of their folders, and in one folder in the order of their names in small
/// letters.
pub proof fn how_rows_are_ordered(a: EntryModel, b: EntryModel)
    ensures
        a.folder != b.folder ==> (row_in_order(keyed()(a), keyed()(b)) <==> not_after(
            a.folder,
            b.folder,
        )),
        a.folder == b.folder ==> (row_in_order(keyed()(a), keyed()(b)) <==> not_after(
            lowercased(a.name),
            lowercased(b.name),
        )),
        keyed()(a).entry == a,
{
}

} // verus!
