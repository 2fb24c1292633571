//! Text in alphabetical order.

use vstd::prelude::*;
use vstd::relations::{sorted_by, total_ordering};

use crate::text::characters;

verus! {

/// Whether some text comes no later than another in the order of a dictionary that goes by the
/// numbers of the characters.
pub open spec fn not_after(a: Seq<char>, b: Seq<char>) -> bool
    decreases a.len(),
{
    if a.len() == 0 {
        true
    } else if b.len() == 0 {
        false
    } else if a[0] != b[0] {
        a[0] < b[0]
    } else {
        not_after(a.drop_first(), b.drop_first())
    }
}

pub open spec fn by_spelling() -> spec_fn(Seq<char>, Seq<char>) -> bool {
    |a: Seq<char>, b: Seq<char>| not_after(a, b)
}

proof fn lemma_reflexive(a: Seq<char>)
    ensures
        not_after(a, a),
    decreases a.len(),
{
    if a.len() > 0 {
        lemma_reflexive(a.drop_first());
    }
}

proof fn lemma_antisymmetric(a: Seq<char>, b: Seq<char>)
    requires
        not_after(a, b),
        not_after(b, a),
    ensures
        a == b,
    decreases a.len(),
{
    if a.len() == 0 {
        assert(b.len() == 0);
        assert(a =~= b);
    } else {
        lemma_antisymmetric(a.drop_first(), b.drop_first());
        assert(a =~= seq![a[0]] + a.drop_first());
        assert(b =~= seq![b[0]] + b.drop_first());
    }
}

proof fn lemma_transitive(a: Seq<char>, b: Seq<char>, c: Seq<char>)
    requires
        not_after(a, b),
        not_after(b, c),
    ensures
        not_after(a, c),
    decreases a.len(),
{
    if a.len() > 0 && a[0] == b[0] && b[0] == c[0] {
        lemma_transitive(a.drop_first(), b.drop_first(), c.drop_first());
    }
}

proof fn lemma_either(a: Seq<char>, b: Seq<char>)
    ensures
        not_after(a, b) || not_after(b, a),
    decreases a.len(),
{
    if a.len() > 0 && b.len() > 0 && a[0] == b[0] {
        lemma_either(a.drop_first(), b.drop_first());
    }
}

/// Any two texts have an order, and only equal ones have none.
pub proof fn spelling_is_an_order()
    ensures
        total_ordering(by_spelling()),
{
    assert forall|a: Seq<char>| #[trigger] by_spelling()(a, a) by {
        lemma_reflexive(a);
    }
    assert forall|a: Seq<char>, b: Seq<char>| #[trigger]
        by_spelling()(a, b) && #[trigger] by_spelling()(b, a) implies a == b by {
        lemma_antisymmetric(a, b);
    }
    assert forall|a: Seq<char>, b: Seq<char>, c: Seq<char>| #[trigger]
        by_spelling()(a, b) && #[trigger] by_spelling()(b, c) implies by_spelling()(a, c) by {
        lemma_transitive(a, b, c);
    }
    assert forall|a: Seq<char>, b: Seq<char>| #[trigger]
        by_spelling()(a, b) || #[trigger] by_spelling()(b, a) by {
        lemma_either(a, b);
    }
}

fn earlier(a: char, b: char) -> (r: bool)
    ensures
        r == (a < b),
{
    let first: u32 = a as u32;
    let second: u32 = b as u32;
    first < second
}

/// Whether some text comes no later than another.
pub fn in_order(a: &str, b: &str) -> (r: bool)
    ensures
        r == not_after(a@, b@),
{
    let left: Vec<char> = characters(a);
    let right: Vec<char> = characters(b);
    let mut i: usize = 0;
    assert(left@.skip(0) =~= left@);
    assert(right@.skip(0) =~= right@);
    while i < left.len() && i < right.len()
        invariant
            i <= left@.len(),
            i <= right@.len(),
            left@ == a@,
            right@ == b@,
            not_after(left@, right@) == not_after(left@.skip(i as int), right@.skip(i as int)),
        decreases left@.len() - i,
    {
        assert(left@.skip(i as int)[0] == left@[i as int]);
        assert(right@.skip(i as int)[0] == right@[i as int]);
        if left[i] != right[i] {
            return earlier(left[i], right[i]);
        }
        assert(left@.skip(i as int).drop_first() =~= left@.skip(i as int + 1));
        assert(right@.skip(i as int).drop_first() =~= right@.skip(i as int + 1));
        i = i + 1;
    }
    i == left.len()
}

pub open spec fn text_view() -> spec_fn(String) -> Seq<char> {
    |s: String| s@
}

/// Some names in alphabetical order.
pub open spec fn alphabetical(names: Seq<Seq<char>>) -> Seq<Seq<char>> {
    names.sort_by(by_spelling())
}

/// Where a name goes among names in order: after everything that comes no later.
fn place_for(sorted: &Vec<String>, name: &String) -> (r: usize)
    requires
        sorted_by(sorted@.map_values(text_view()), by_spelling()),
    ensures
        r <= sorted@.len(),
        forall|k: int| 0 <= k < r ==> not_after(#[trigger] sorted@[k]@, name@),
        forall|k: int| r <= k < sorted@.len() ==> not_after(name@, #[trigger] sorted@[k]@),
{
    let ghost model = sorted@.map_values(text_view());
    let mut i: usize = 0;
    while i < sorted.len()
        invariant
            i <= sorted@.len(),
            model == sorted@.map_values(text_view()),
            sorted_by(model, by_spelling()),
            forall|k: int| 0 <= k < i ==> not_after(#[trigger] sorted@[k]@, name@),
        decreases sorted@.len() - i,
    {
        if !in_order(sorted[i].as_str(), name.as_str()) {
            proof {
                lemma_either(sorted@[i as int]@, name@);
                assert forall|k: int| i <= k < sorted@.len() implies not_after(
                    name@,
                    #[trigger] sorted@[k]@,
                ) by {
                    if k > i {
                        assert(by_spelling()(model[i as int], model[k]));
                        lemma_transitive(name@, sorted@[i as int]@, sorted@[k]@);
                    }
                }
            }
            return i;
        }
        i = i + 1;
    }
    i
}

/// Put some names in alphabetical order.
pub fn sort_names(names: Vec<String>) -> (r: Vec<String>)
    ensures
        r@.map_values(text_view()) == alphabetical(names@.map_values(text_view())),
{
    broadcast use vstd::seq_lib::group_to_multiset_ensures;

    let ghost all = names@.map_values(text_view());
    let mut sorted: Vec<String> = Vec::new();
    let n: usize = names.len();
    let mut i: usize = 0;
    assert(sorted@.map_values(text_view()) =~= Seq::empty());
    assert(all.take(0) =~= Seq::empty());
    while i < n
        invariant
            i <= n == names@.len(),
            all == names@.map_values(text_view()),
            sorted@.len() == i,
            sorted_by(sorted@.map_values(text_view()), by_spelling()),
            sorted@.map_values(text_view()).to_multiset() == all.take(i as int).to_multiset(),
        decreases n - i,
    {
        let name: String = names[i].clone();
        let at: usize = place_for(&sorted, &name);
        let ghost before = sorted@.map_values(text_view());
        sorted.insert(at, name);
        proof {
            let after = sorted@.map_values(text_view());
            assert(after =~= before.insert(at as int, name@));
            assert forall|j: int, k: int| 0 <= j < k < after.len() implies #[trigger] by_spelling()(
                after[j],
                after[k],
            ) by {
                let a = if j < at { j } else { j - 1 };
                let b = if k < at { k } else { k - 1 };
                if j != at && k != at {
                    assert(by_spelling()(before[a], before[b]));
                }
            }
            vstd::seq_lib::to_multiset_insert(before, at as int, name@);
            assert(name@ == all[i as int]);
            assert(all.take(i as int + 1) =~= all.take(i as int).push(name@));
            vstd::seq_lib::to_multiset_build(all.take(i as int), name@);
        }
        i = i + 1;
    }
    proof {
        assert(all.take(n as int) =~= all);
        spelling_is_an_order();
        all.lemma_sort_by_ensures(by_spelling());
        vstd::seq_lib::lemma_sorted_unique(
            sorted@.map_values(text_view()),
            alphabetical(all),
            by_spelling(),
        );
    }
    sorted
}

/// Some text comes no later than another when it is the front of it, or when the first character
/// in which they differ is the lesser in it.
pub proof fn the_first_difference_decides(a: Seq<char>, b: Seq<char>, k: int)
    requires
        0 <= k <= a.len(),
        k <= b.len(),
        a.take(k) == b.take(k),
    ensures
        k == a.len() ==> not_after(a, b),
        k == b.len() && k < a.len() ==> !not_after(a, b),
        k < a.len() && k < b.len() && a[k] != b[k] ==> (not_after(a, b) <==> a[k] < b[k]),
    decreases k,
{
    if k > 0 {
        assert(a.take(k)[0] == a[0]);
        assert(b.take(k)[0] == b[0]);
        let x = a.drop_first();
        let y = b.drop_first();
        assert(x.take(k - 1) =~= a.take(k).drop_first());
        assert(y.take(k - 1) =~= b.take(k).drop_first());
        if k < a.len() {
            assert(x[k - 1] == a[k]);
        }
        if k < b.len() {
            assert(y[k - 1] == b[k]);
        }
        the_first_difference_decides(x, y, k - 1);
    }
}

} // verus!
