//! Paths as text, with a slash between one part and the next.

use vstd::prelude::*;
use vstd::string::{StrSliceExecFns, StringExecFns};

use crate::text::{characters, lower, spelled, all_small};

verus! {

/// The text between one slash and the next.
pub open spec fn pieces(text: Seq<char>) -> Seq<Seq<char>>
    decreases text.len(),
{
    if text.len() == 0 {
        seq![Seq::<char>::empty()]
    } else {
        let before = pieces(text.drop_last());
        if text.last() == '/' {
            before.push(Seq::empty())
        } else {
            before.drop_last().push(before.last().push(text.last()))
        }
    }
}

/// One part of a path.
pub enum PartModel {
    /// The top of everything.
    Root,
    /// The folder we are in, said out loud.
    Here,
    /// The folder above.
    Up,
    /// A file or a folder by name.
    Name(Seq<char>),
}

/// The part that a piece of text is. Nothing between two slashes is no part, and neither is a
/// dot, except at the front.
pub open spec fn part(piece: Seq<char>, front: bool) -> Seq<PartModel> {
    if piece.len() == 0 {
        Seq::empty()
    } else if piece == seq!['.'] {
        if front {
            seq![PartModel::Here]
        } else {
            Seq::empty()
        }
    } else if piece == seq!['.', '.'] {
        seq![PartModel::Up]
    } else {
        seq![PartModel::Name(piece)]
    }
}

pub open spec fn parts_of(pieces: Seq<Seq<char>>) -> Seq<PartModel>
    decreases pieces.len(),
{
    if pieces.len() == 0 {
        Seq::empty()
    } else {
        parts_of(pieces.drop_last()) + part(pieces.last(), pieces.len() == 1)
    }
}

/// The parts of a path.
pub open spec fn parts(text: Seq<char>) -> Seq<PartModel> {
    (if text.len() > 0 && text[0] == '/' {
        seq![PartModel::Root]
    } else {
        Seq::empty()
    }) + parts_of(pieces(text))
}

/// One part of a path.
#[derive(Debug)]
pub enum Part {
    Root,
    Here,
    Up,
    Name(String),
}

impl View for Part {
    type V = PartModel;

    open spec fn view(&self) -> PartModel {
        match self {
            Part::Root => PartModel::Root,
            Part::Here => PartModel::Here,
            Part::Up => PartModel::Up,
            Part::Name(name) => PartModel::Name(name@),
        }
    }
}

pub open spec fn part_view() -> spec_fn(Part) -> PartModel {
    |p: Part| p@
}

fn put_part(out: &mut Vec<Part>, all: &Vec<char>, from: usize, to: usize, front: bool)
    requires
        from <= to <= all@.len(),
    ensures
        final(out)@.map_values(part_view()) == old(out)@.map_values(part_view()) + part(
            all@.subrange(from as int, to as int),
            front,
        ),
{
    let ghost piece = all@.subrange(from as int, to as int);
    let ghost before = out@.map_values(part_view());
    let n: usize = to - from;
    if n == 0 {
        assert(out@.map_values(part_view()) =~= before + part(piece, front));
        return;
    }
    if n == 1 && all[from] == '.' {
        assert(piece =~= seq!['.']);
        if front {
            out.push(Part::Here);
        }
    } else if n == 2 && all[from] == '.' && all[from + 1] == '.' {
        assert(piece =~= seq!['.', '.']);
        assert(piece != seq!['.']);
        out.push(Part::Up);
    } else {
        proof {
            if piece == seq!['.'] {
                assert(piece.len() == 1 && piece[0] == '.');
                assert(all@[from as int] == piece[0]);
            }
            if piece == seq!['.', '.'] {
                assert(piece.len() == 2 && piece[0] == '.' && piece[1] == '.');
                assert(all@[from as int] == piece[0]);
                assert(all@[from as int + 1] == piece[1]);
            }
        }
        out.push(Part::Name(spelled(all, from, to)));
    }
    assert(out@.map_values(part_view()) =~= before + part(piece, front));
}

/// Take a path to pieces.
pub fn take_apart(text: &str) -> (r: Vec<Part>)
    ensures
        r@.map_values(part_view()) == parts(text@),
{
    let all: Vec<char> = characters(text);
    let mut out: Vec<Part> = Vec::new();
    let n: usize = all.len();
    if n > 0 && all[0] == '/' {
        out.push(Part::Root);
    }
    let ghost root = out@.map_values(part_view());
    let mut from: usize = 0;
    let mut i: usize = 0;
    let mut front: bool = true;
    proof {
        assert(all@.take(0) =~= Seq::empty());
        assert(pieces(all@.take(0)).drop_last() =~= Seq::empty());
        assert(out@.map_values(part_view()) =~= root + parts_of(pieces(all@.take(0)).drop_last()));
        assert(all@.subrange(0, 0) =~= Seq::empty());
    }
    while i < n
        invariant
            from <= i <= n == all@.len(),
            out@.map_values(part_view()) == root + parts_of(
                pieces(all@.take(i as int)).drop_last(),
            ),
            pieces(all@.take(i as int)).len() >= 1,
            pieces(all@.take(i as int)).last() == all@.subrange(from as int, i as int),
            front == (pieces(all@.take(i as int)).len() == 1),
        decreases n - i,
    {
        let ghost before = pieces(all@.take(i as int));
        proof {
            let upto = all@.take(i as int + 1);
            assert(upto.drop_last() =~= all@.take(i as int));
            assert(upto.last() == all@[i as int]);
        }
        if all[i] == '/' {
            put_part(&mut out, &all, from, i, front);
            proof {
                let now = pieces(all@.take(i as int + 1));
                assert(now.drop_last() =~= before);
                assert(out@.map_values(part_view()) =~= root + parts_of(before));
                assert(all@.subrange(i as int + 1, i as int + 1) =~= Seq::empty());
            }
            from = i + 1;
            front = false;
        } else {
            proof {
                let now = pieces(all@.take(i as int + 1));
                assert(now.drop_last() =~= before.drop_last());
                assert(all@.subrange(from as int, i as int).push(all@[i as int])
                    =~= all@.subrange(from as int, i as int + 1));
            }
        }
        i = i + 1;
    }
    put_part(&mut out, &all, from, n, front);
    proof {
        assert(all@.take(n as int) =~= all@);
        assert(out@.map_values(part_view()) =~= root + parts_of(pieces(all@)));
        assert(out@.map_values(part_view()) =~= parts(text@));
    }
    out
}

/// The name a path ends in, if it ends in one.
pub open spec fn last_name(text: Seq<char>) -> Option<Seq<char>> {
    let all = parts(text);
    if all.len() > 0 {
        match all.last() {
            PartModel::Name(name) => Some(name),
            _ => None,
        }
    } else {
        None
    }
}

/// The name a path ends in, if it ends in one.
pub fn file_name(text: &str) -> (r: Option<String>)
    ensures
        match r {
            Some(name) => last_name(text@) == Some(name@),
            None => last_name(text@) is None,
        },
{
    let mut all: Vec<Part> = take_apart(text);
    proof {
        let model = all@.map_values(part_view());
        assert(model.len() == all@.len());
        if all@.len() > 0 {
            assert(model.last() == all@.last()@);
        }
    }
    match all.pop() {
        Some(Part::Name(name)) => Some(name),
        _ => None,
    }
}

/// Where the last dot of some text is, or one before its start when there is none.
pub open spec fn last_dot(text: Seq<char>) -> int
    decreases text.len(),
{
    if text.len() == 0 {
        -1
    } else if text.last() == '.' {
        text.len() - 1
    } else {
        last_dot(text.drop_last())
    }
}

fn dot_in(all: &Vec<char>) -> (r: Option<usize>)
    ensures
        match r {
            Some(i) => i == last_dot(all@) && i < all@.len(),
            None => last_dot(all@) == -1,
        },
{
    let mut i: usize = all.len();
    assert(all@.take(i as int) =~= all@);
    while i > 0
        invariant
            i <= all@.len(),
            last_dot(all@) == last_dot(all@.take(i as int)),
        decreases i,
    {
        proof {
            assert(all@.take(i as int).last() == all@[i as int - 1]);
            assert(all@.take(i as int).drop_last() =~= all@.take(i as int - 1));
        }
        if all[i - 1] == '.' {
            return Some(i - 1);
        }
        i = i - 1;
    }
    assert(all@.take(0) =~= Seq::empty());
    None
}

/// A file's name without what comes after its last dot. A name that only starts with a dot has
/// nothing after it.
pub open spec fn stem_of(name: Seq<char>) -> Seq<char> {
    if last_dot(name) <= 0 {
        name
    } else {
        name.take(last_dot(name))
    }
}

/// What comes after a file name's last dot.
pub open spec fn ending_of(name: Seq<char>) -> Option<Seq<char>> {
    if last_dot(name) <= 0 {
        None
    } else {
        Some(name.skip(last_dot(name) + 1))
    }
}

pub fn stem(name: &str) -> (r: String)
    ensures
        r@ == stem_of(name@),
{
    let all: Vec<char> = characters(name);
    match dot_in(&all) {
        Some(i) => {
            if i == 0 {
                name.to_owned()
            } else {
                let r = spelled(&all, 0, i);
                assert(r@ =~= name@.take(i as int));
                r
            }
        },
        None => name.to_owned(),
    }
}

pub fn ending(name: &str) -> (r: Option<String>)
    ensures
        match r {
            Some(e) => ending_of(name@) == Some(e@),
            None => ending_of(name@) is None,
        },
{
    let all: Vec<char> = characters(name);
    match dot_in(&all) {
        Some(i) => {
            if i == 0 {
                None
            } else {
                let n: usize = all.len();
                let r = spelled(&all, i + 1, n);
                assert(r@ =~= name@.skip(i as int + 1));
                Some(r)
            }
        },
        None => None,
    }
}

/// A path with something put on the end of it.
pub open spec fn joined(dir: Seq<char>, more: Seq<char>) -> Seq<char> {
    if dir.len() == 0 || dir.last() == '/' {
        dir + more
    } else {
        dir.push('/') + more
    }
}

/// Put something on the end of a path.
pub fn join(dir: &str, more: &str) -> (r: String)
    ensures
        r@ == joined(dir@, more@),
{
    let all: Vec<char> = characters(dir);
    let mut r: String = dir.to_owned();
    if all.len() > 0 && all[all.len() - 1] != '/' {
        r.push('/');
    }
    r.append(more);
    assert(r@ =~= joined(dir@, more@));
    r
}

// --- sounds -------------------------------------------------------------------

/// What the names of files we will try to decode end in.
pub open spec fn sounds_like(ending: Seq<char>) -> bool {
    ||| ending == "wav"@
    ||| ending == "wave"@
    ||| ending == "mp3"@
    ||| ending == "flac"@
    ||| ending == "ogg"@
    ||| ending == "oga"@
    ||| ending == "aiff"@
    ||| ending == "aif"@
    ||| ending == "aifc"@
    ||| ending == "m4a"@
    ||| ending == "mp4"@
    ||| ending == "aac"@
    ||| ending == "caf"@
}

/// Whether a path looks like something we can decode: by the end of its name, in capitals or
/// not.
pub open spec fn audible_path(path: Seq<char>) -> bool {
    last_name(path) matches Some(name) && ending_of(name) matches Some(e) && sounds_like(
        all_small(e),
    )
}

/// File extensions we will try to decode, for the file picker to filter by.
pub fn audio_extensions() -> (r: Vec<String>)
    ensures
        forall|e: Seq<char>|
            sounds_like(e) <==> exists|i: int| 0 <= i < r@.len() && #[trigger] r@[i]@ == e,
{
    let mut r: Vec<String> = Vec::new();
    r.push("wav".to_owned());
    r.push("wave".to_owned());
    r.push("mp3".to_owned());
    r.push("flac".to_owned());
    r.push("ogg".to_owned());
    r.push("oga".to_owned());
    r.push("aiff".to_owned());
    r.push("aif".to_owned());
    r.push("aifc".to_owned());
    r.push("m4a".to_owned());
    r.push("mp4".to_owned());
    r.push("aac".to_owned());
    r.push("caf".to_owned());
    assert forall|e: Seq<char>|
        sounds_like(e) <==> exists|i: int| 0 <= i < r@.len() && #[trigger] r@[i]@ == e by {
        assert(r@[0]@ == "wav"@);
        assert(r@[1]@ == "wave"@);
        assert(r@[2]@ == "mp3"@);
        assert(r@[3]@ == "flac"@);
        assert(r@[4]@ == "ogg"@);
        assert(r@[5]@ == "oga"@);
        assert(r@[6]@ == "aiff"@);
        assert(r@[7]@ == "aif"@);
        assert(r@[8]@ == "aifc"@);
        assert(r@[9]@ == "m4a"@);
        assert(r@[10]@ == "mp4"@);
        assert(r@[11]@ == "aac"@);
        assert(r@[12]@ == "caf"@);
    }
    r
}

/// True if the path looks like something we can decode.
pub fn is_audio_file(path: &str) -> (r: bool)
    ensures
        r == audible_path(path@),
{
    let name: String = match file_name(path) {
        Some(name) => name,
        None => {
            return false;
        },
    };
    let end: String = match ending(name.as_str()) {
        Some(end) => end,
        None => {
            return false;
        },
    };
    let end: String = lower(end.as_str());
    listed(&audio_extensions(), &end)
}

/// Whether some text is in a list.
fn listed(list: &Vec<String>, what: &String) -> (r: bool)
    ensures
        r == exists|i: int| 0 <= i < list@.len() && #[trigger] list@[i]@ == what@,
{
    let mut i: usize = 0;
    while i < list.len()
        invariant
            i <= list@.len(),
            forall|k: int| 0 <= k < i ==> #[trigger] list@[k]@ != what@,
        decreases list@.len() - i,
    {
        if list[i] == *what {
            assert(list@[i as int]@ == what@);
            return true;
        }
        i = i + 1;
    }
    false
}

// --- what a path comes to -----------------------------------------------------------

/// Pieces of text with a slash between each and the next.
pub open spec fn strung(all: Seq<Seq<char>>) -> Seq<char>
    decreases all.len(),
{
    if all.len() <= 1 {
        all.first()
    } else {
        strung(all.drop_last()).push('/') + all.last()
    }
}

/// Text is cut at every slash and nowhere else: its pieces have none in them, and put back together
/// with slashes they are the text.
#[verifier::rlimit(50)]
pub proof fn text_is_cut_at_every_slash(text: Seq<char>)
    ensures
        pieces(text).len() > 0,
        strung(pieces(text)) == text,
        forall|i: int| 0 <= i < pieces(text).len() ==> !(#[trigger] pieces(text)[i]).contains('/'),
    decreases text.len(),
{
    let all = pieces(text);
    if text.len() == 0 {
        assert(all.first() =~= text);
    } else {
        let front = text.drop_last();
        let before = pieces(front);
        text_is_cut_at_every_slash(front);
        if text.last() == '/' {
            assert(all.drop_last() =~= before);
            assert(strung(all) =~= text);
        } else {
            let end = before.last().push(text.last());
            assert(all.last() == end);
            assert(all.drop_last() =~= before.drop_last());
            if all.len() == 1 {
                assert(all.first() == end);
                assert(before.first() == before.last());
                assert(strung(all) =~= text);
            } else {
                assert(strung(before) == strung(before.drop_last()).push('/') + before.last());
                assert(strung(all) =~= strung(before).push(text.last()));
                assert(strung(all) =~= text);
            }
            assert(!end.contains('/')) by {
                if end.contains('/') {
                    let k = choose|k: int| 0 <= k < end.len() && end[k] == '/';
                    assert(before.last()[k] == '/');
                    assert(before[before.len() - 1].contains('/'));
                }
            }
        }
        assert forall|i: int| 0 <= i < all.len() implies !(#[trigger] all[i]).contains('/') by {
            if text.last() == '/' {
                if i < before.len() {
                    assert(all[i] == before[i]);
                }
            } else if i < all.len() - 1 {
                assert(all[i] == before[i]);
            }
        }
    }
}

/// A slash and a name on the end of some text are one more piece.
pub proof fn a_name_on_the_end_is_one_more_piece(text: Seq<char>, name: Seq<char>)
    requires
        !name.contains('/'),
    ensures
        pieces(text.push('/') + name) == pieces(text).push(name),
        pieces(name) == seq![name],
    decreases name.len(),
{
    let whole = text.push('/') + name;
    if name.len() == 0 {
        assert(whole =~= text.push('/'));
        assert(whole.drop_last() =~= text);
        assert(name =~= Seq::empty());
    } else {
        let front = name.drop_last();
        assert(!front.contains('/')) by {
            if front.contains('/') {
                let k = choose|k: int| 0 <= k < front.len() && front[k] == '/';
                assert(name[k] == '/');
            }
        }
        a_name_on_the_end_is_one_more_piece(text, front);
        assert(whole.drop_last() =~= text.push('/') + front);
        assert(name[name.len() - 1] != '/');
        assert(whole.last() == name.last());
        assert(front.push(name.last()) =~= name);
        assert(pieces(whole) =~= pieces(text).push(name));
        assert(pieces(name) =~= seq![name]);
    }
}

/// Whether a name is one that something can have: not nothing, with no slash in it, and neither of
/// the two that mean a place.
pub open spec fn proper(name: Seq<char>) -> bool {
    name.len() > 0 && !name.contains('/') && name != seq!['.'] && name != seq!['.', '.']
}

/// What each piece of a path is: nothing when there is nothing between two slashes; nothing when it
/// is a dot, but at the front, where it is the place itself; the place above when it is two dots;
/// and a name otherwise.
pub proof fn what_a_piece_is(all: Seq<Seq<char>>, piece: Seq<char>)
    ensures
        ({
            let more = parts_of(all.push(piece));
            let was = parts_of(all);
            &&& piece.len() == 0 ==> more == was
            &&& piece == seq!['.'] && all.len() > 0 ==> more == was
            &&& piece == seq!['.'] && all.len() == 0 ==> more == seq![PartModel::Here]
            &&& piece == seq!['.', '.'] ==> more == was.push(PartModel::Up)
            &&& piece.len() > 0 && piece != seq!['.'] && piece != seq!['.', '.'] ==> more
                == was.push(PartModel::Name(piece))
        }),
        parts_of(Seq::empty()).len() == 0,
{
    assert(all.push(piece).drop_last() =~= all);
    assert(all.push(piece).last() == piece);
    let more = parts_of(all.push(piece));
    assert(more == parts_of(all) + part(piece, all.len() == 0));
    assert(parts_of(all) + Seq::<PartModel>::empty() =~= parts_of(all));
    if all.len() == 0 {
        assert(parts_of(all) =~= Seq::empty());
        assert(Seq::<PartModel>::empty() + seq![PartModel::Here] =~= seq![PartModel::Here]);
    }
    assert(parts_of(all) + seq![PartModel::Up] =~= parts_of(all).push(PartModel::Up));
    assert(parts_of(all) + seq![PartModel::Name(piece)] =~= parts_of(all).push(
        PartModel::Name(piece),
    ));
}

/// A path starts at the root when it starts with a slash, and has the parts its pieces are.
pub proof fn a_path_starts_at_the_root_or_does_not(text: Seq<char>)
    ensures
        text.len() > 0 && text[0] == '/' ==> parts(text) == seq![PartModel::Root] + parts_of(
            pieces(text),
        ),
        !(text.len() > 0 && text[0] == '/') ==> parts(text) == parts_of(pieces(text)),
{
    assert(Seq::<PartModel>::empty() + parts_of(pieces(text)) =~= parts_of(pieces(text)));
}

/// A path ends in the name that was put on the end of it, and a slash after that makes no
/// difference. One that ends in the place above does not end in a name.
#[verifier::rlimit(50)]
pub proof fn a_path_ends_in_the_name_on_its_end(text: Seq<char>, name: Seq<char>)
    ensures
        proper(name) ==> last_name(text.push('/') + name) == Some(name) && last_name(name) == Some(
            name,
        ),
        text.len() > 0 ==> last_name(text.push('/')) == last_name(text),
        last_name(text.push('/') + seq!['.', '.']) is None,
        last_name(Seq::empty()) is None,
{
    if proper(name) {
        a_name_on_the_end_is_one_more_piece(text, name);
        what_a_piece_is(pieces(text), name);
        what_a_piece_is(Seq::empty(), name);
        assert(Seq::<Seq<char>>::empty().push(name) =~= seq![name]);
    }
    if text.len() > 0 {
        let nothing = Seq::<char>::empty();
        assert(!nothing.contains('/'));
        a_name_on_the_end_is_one_more_piece(text, nothing);
        assert(text.push('/') + nothing =~= text.push('/'));
        what_a_piece_is(pieces(text), nothing);
        assert(text.push('/')[0] == text[0]);
    }
    let up = seq!['.', '.'];
    assert(!up.contains('/'));
    a_name_on_the_end_is_one_more_piece(text, up);
    what_a_piece_is(pieces(text), up);
    assert(Seq::<Seq<char>>::empty().push(Seq::<char>::empty()) =~= seq![Seq::<char>::empty()]);
    what_a_piece_is(Seq::empty(), Seq::empty());
}

/// The last dot is one, and there is none after it; where there is none in the whole text, it is
/// before the start.
pub proof fn there_is_no_dot_after_the_last(text: Seq<char>)
    ensures
        -1 <= last_dot(text) < text.len(),
        last_dot(text) >= 0 ==> text[last_dot(text)] == '.',
        forall|i: int| last_dot(text) < i < text.len() ==> #[trigger] text[i] != '.',
    decreases text.len(),
{
    if text.len() > 0 {
        let front = text.drop_last();
        there_is_no_dot_after_the_last(front);
        assert forall|i: int| last_dot(text) < i < text.len() implies #[trigger] text[i] != '.' by {
            if i < front.len() {
                assert(front[i] == text[i]);
            }
        }
    }
}

/// A file's name is its stem and its ending with a dot between, when there is a dot in it after the
/// first character; the ending is what follows the last of them. Any other name is all stem.
pub proof fn a_name_is_its_stem_and_its_ending(stem: Seq<char>, ending: Seq<char>)
    requires
        stem.len() > 0,
        !ending.contains('.'),
    ensures
        stem_of(stem.push('.') + ending) == stem,
        ending_of(stem.push('.') + ending) == Some(ending),
        stem_of(ending) == ending && ending_of(ending) is None,
        stem_of(seq!['.'] + ending) == seq!['.'] + ending && ending_of(seq!['.'] + ending) is None,
{
    let name = stem.push('.') + ending;
    there_is_no_dot_after_the_last(name);
    let at = stem.len() as int;
    assert(name[at] == '.');
    let d = last_dot(name);
    if d > at {
        assert(name[d] == ending[d - at - 1]);
        assert(ending.contains('.'));
    }
    assert(name.take(at) =~= stem);
    assert(name.skip(at + 1) =~= ending);
    there_is_no_dot_after_the_last(ending);
    if last_dot(ending) >= 0 {
        assert(ending.contains(ending[last_dot(ending)]));
    }
    let odd = seq!['.'] + ending;
    there_is_no_dot_after_the_last(odd);
    assert(odd[0] == '.');
    if last_dot(odd) > 0 {
        assert(odd[last_dot(odd)] == ending[last_dot(odd) - 1]);
        assert(ending.contains('.'));
    }
}

/// A path with something put on the end of it is the path, a slash where there is none at its end,
/// and what was put on. It ends in the name that was.
pub proof fn what_is_put_on_the_end_is_at_the_end(dir: Seq<char>, more: Seq<char>)
    ensures
        ({
            let whole = joined(dir, more);
            let slash: int = if dir.len() == 0 || dir[dir.len() - 1] == '/' {
                0
            } else {
                1
            };
            &&& whole.len() == dir.len() + slash + more.len()
            &&& whole.take(dir.len() as int) == dir
            &&& whole.skip(dir.len() + slash) == more
            &&& slash == 1 ==> whole[dir.len() as int] == '/'
            &&& proper(more) ==> last_name(whole) == Some(more)
        }),
{
    let whole = joined(dir, more);
    assert(whole.take(dir.len() as int) =~= dir);
    if dir.len() == 0 || dir[dir.len() - 1] == '/' {
        assert(whole.skip(dir.len() as int) =~= more);
        if dir.len() == 0 {
            assert(whole =~= more);
            a_path_ends_in_the_name_on_its_end(dir, more);
        } else {
            assert(dir.drop_last().push('/') =~= dir);
            a_path_ends_in_the_name_on_its_end(dir.drop_last(), more);
        }
    } else {
        assert(whole.skip(dir.len() as int + 1) =~= more);
        a_path_ends_in_the_name_on_its_end(dir, more);
    }
}

/// A file looks like a sound by the end of its name, in capitals or not, wherever it is, whatever
/// else it is called. One whose name has no ending does not.
#[verifier::rlimit(50)]
pub proof fn a_sound_is_told_by_its_ending(dir: Seq<char>, stem: Seq<char>, ending: Seq<char>)
    requires
        stem.len() > 0,
        !stem.contains('/'),
        !ending.contains('/'),
        !ending.contains('.'),
        ending.len() > 0,
    ensures
        audible_path(joined(dir, stem.push('.') + ending)) <==> ({
            let e = all_small(ending);
            ||| e == "wav"@ || e == "wave"@ || e == "mp3"@ || e == "flac"@ || e == "ogg"@
            ||| e == "oga"@ || e == "aiff"@ || e == "aif"@ || e == "aifc"@ || e == "m4a"@
            ||| e == "mp4"@ || e == "aac"@ || e == "caf"@
        }),
        proper(ending) ==> !audible_path(joined(dir, ending)),
{
    let name = stem.push('.') + ending;
    assert(!name.contains('/')) by {
        if name.contains('/') {
            let k = choose|k: int| 0 <= k < name.len() && name[k] == '/';
            if k < stem.len() {
                assert(stem[k] == '/');
            } else if k > stem.len() {
                assert(ending[k - stem.len() - 1] == '/');
            }
        }
    }
    assert(name.len() > 2);
    assert(name != seq!['.'] && name != seq!['.', '.']) by {
        assert(seq!['.'].len() == 1 && seq!['.', '.'].len() == 2);
    }
    what_is_put_on_the_end_is_at_the_end(dir, name);
    what_is_put_on_the_end_is_at_the_end(dir, ending);
    a_name_is_its_stem_and_its_ending(stem, ending);
}

} // verus!
