//! Small tools over sequences: finding the first match, keeping some of a list, sorting one.

use vstd::prelude::*;
use vstd::relations::sorted_by;

verus! {

/// Where the first element that satisfies `p` is, or the length when none does.
pub open spec fn first_where<T>(s: Seq<T>, p: spec_fn(T) -> bool) -> int
    decreases s.len(),
{
    if s.len() == 0 {
        0
    } else if p(s[0]) {
        0
    } else {
        1 + first_where(s.drop_first(), p)
    }
}

/// An index with no match before it, and a match at it unless it is the end, is the first match.
pub proof fn lemma_first_where<T>(s: Seq<T>, p: spec_fn(T) -> bool, k: int)
    requires
        0 <= k <= s.len(),
        forall|j: int| 0 <= j < k ==> !p(#[trigger] s[j]),
        k < s.len() ==> p(s[k]),
    ensures
        first_where(s, p) == k,
    decreases s.len(),
{
    if s.len() > 0 && k > 0 {
        assert(!p(s[0]));
        let rest = s.drop_first();
        assert forall|j: int| 0 <= j < k - 1 implies !p(#[trigger] rest[j]) by {
            assert(rest[j] == s[j + 1]);
        }
        if k < s.len() {
            assert(rest[k - 1] == s[k]);
        }
        lemma_first_where(rest, p, k - 1);
    }
}

/// What `first_where` finds: a match, and the first one.
pub proof fn lemma_first_where_bounds<T>(s: Seq<T>, p: spec_fn(T) -> bool)
    ensures
        0 <= first_where(s, p) <= s.len(),
        first_where(s, p) < s.len() ==> p(s[first_where(s, p)]),
        forall|j: int| 0 <= j < first_where(s, p) ==> !p(#[trigger] s[j]),
    decreases s.len(),
{
    if s.len() > 0 && !p(s[0]) {
        let rest = s.drop_first();
        lemma_first_where_bounds(rest, p);
        assert forall|j: int| 0 <= j < first_where(s, p) implies !p(#[trigger] s[j]) by {
            if j > 0 {
                assert(rest[j - 1] == s[j]);
            }
        }
    }
}

/// Filtering and then viewing is viewing and then filtering.
pub proof fn lemma_filter_map<T, U>(
    s: Seq<T>,
    f: spec_fn(T) -> U,
    p: spec_fn(T) -> bool,
    q: spec_fn(U) -> bool,
)
    requires
        forall|x: T| #[trigger] p(x) == q(f(x)),
    ensures
        s.filter(p).map_values(f) == s.map_values(f).filter(q),
    decreases s.len(),
{
    reveal(Seq::filter);
    if s.len() == 0 {
        assert(s.filter(p).map_values(f) =~= s.map_values(f).filter(q));
    } else {
        let front = s.drop_last();
        lemma_filter_map(front, f, p, q);
        let m = s.map_values(f);
        assert(m.drop_last() =~= front.map_values(f));
        assert(m.last() == f(s.last()));
        assert(p(s.last()) == q(f(s.last())));
        assert(s.filter(p).map_values(f) =~= m.filter(q));
    }
}

/// A filter that keeps everything changes nothing.
pub proof fn lemma_filter_all<T>(s: Seq<T>, p: spec_fn(T) -> bool)
    requires
        forall|i: int| 0 <= i < s.len() ==> p(#[trigger] s[i]),
    ensures
        s.filter(p) == s,
    decreases s.len(),
{
    reveal(Seq::filter);
    if s.len() > 0 {
        let front = s.drop_last();
        assert forall|i: int| 0 <= i < front.len() implies p(#[trigger] front[i]) by {
            assert(front[i] == s[i]);
        }
        lemma_filter_all(front, p);
        assert(p(s[s.len() - 1]));
        assert(s.filter(p) =~= s);
    }
}

/// What survives a filter was there before, satisfies the test, and keeps its order.
pub proof fn lemma_filter_members<T>(s: Seq<T>, p: spec_fn(T) -> bool)
    ensures
        forall|x: T| #[trigger] s.filter(p).contains(x) <==> s.contains(x) && p(x),
        s.filter(p).len() <= s.len(),
    decreases s.len(),
{
    reveal(Seq::filter);
    if s.len() == 0 {
        assert forall|x: T| #[trigger] s.filter(p).contains(x) <==> s.contains(x) && p(x) by {}
    } else {
        let front = s.drop_last();
        lemma_filter_members(front, p);
        let kept = front.filter(p);
        assert forall|x: T| #[trigger] s.filter(p).contains(x) <==> s.contains(x) && p(x) by {
            if s.filter(p).contains(x) {
                let i = choose|i: int| 0 <= i < s.filter(p).len() && s.filter(p)[i] == x;
                if i < kept.len() {
                    assert(kept[i] == x);
                    assert(kept.contains(x));
                    assert(front.contains(x));
                    let j = choose|j: int| 0 <= j < front.len() && front[j] == x;
                    assert(s[j] == x);
                } else {
                    assert(x == s.last());
                    assert(s[s.len() - 1] == x);
                }
            }
            if s.contains(x) && p(x) {
                let j = choose|j: int| 0 <= j < s.len() && s[j] == x;
                if j < s.len() - 1 {
                    assert(front[j] == x);
                    assert(front.contains(x));
                    assert(kept.contains(x));
                    let i = choose|i: int| 0 <= i < kept.len() && kept[i] == x;
                    assert(s.filter(p)[i] == x);
                } else {
                    assert(s.filter(p)[s.filter(p).len() - 1] == x);
                }
            }
        }
    }
}

/// A relation that holds of every pair of elements, in order, still does after a filter.
pub proof fn lemma_filter_pairs<T>(s: Seq<T>, p: spec_fn(T) -> bool, r: spec_fn(T, T) -> bool)
    requires
        sorted_by(s, r),
    ensures
        sorted_by(s.filter(p), r),
    decreases s.len(),
{
    reveal(Seq::filter);
    if s.len() > 0 {
        let front = s.drop_last();
        assert(sorted_by(front, r));
        lemma_filter_pairs(front, p, r);
        lemma_filter_members(front, p);
        let kept = front.filter(p);
        let all = s.filter(p);
        assert forall|i: int, j: int| 0 <= i < j < all.len() implies #[trigger] r(all[i], all[j]) by {
            if j < kept.len() {
                assert(r(kept[i], kept[j]));
            } else {
                assert(kept.contains(kept[i]));
                let k = choose|k: int| 0 <= k < front.len() && front[k] == kept[i];
                assert(r(s[k], s[s.len() - 1]));
            }
        }
    }
}

/// Keep the elements that satisfy a test, in the order they are in.
pub(crate) fn retain<T, F: Fn(&T) -> bool>(list: &mut Vec<T>, keep: F, Ghost(p): Ghost<spec_fn(T) -> bool>)
    requires
        forall|x: T| #[trigger] call_requires(keep, (&x,)),
        forall|x: T, r: bool| #[trigger] call_ensures(keep, (&x,), r) ==> r == p(x),
    ensures
        final(list)@ == old(list)@.filter(p),
{
    let mut all: Vec<T> = Vec::new();
    let mut kept: Vec<T> = Vec::new();
    std::mem::swap(&mut all, list);
    let ghost whole = all@;
    for x in it: all
        invariant
            it.seq() == whole,
            kept@ == whole.take(it.index() as int).filter(p),
            forall|x: T| #[trigger] call_requires(keep, (&x,)),
            forall|x: T, r: bool| #[trigger] call_ensures(keep, (&x,), r) ==> r == p(x),
    {
        let ghost k = it.index() as int;
        proof {
            reveal(Seq::filter);
            assert(whole.take(k + 1).drop_last() =~= whole.take(k));
            assert(whole.take(k + 1).last() == x);
        }
        if keep(&x) {
            kept.push(x);
        }
    }
    proof {
        assert(whole.take(whole.len() as int) =~= whole);
    }
    *list = kept;
}

/// Something that can be put in order by a number.
pub trait Ranked: Copy {
    spec fn rank_of(self) -> int;

    fn rank(&self) -> (r: u128)
        ensures
            r == self.rank_of(),
    ;
}

impl Ranked for u16 {
    open spec fn rank_of(self) -> int {
        self as int
    }

    fn rank(&self) -> (r: u128) {
        *self as u128
    }
}

/// The order ranks give.
pub open spec fn by_rank<T: Ranked>() -> spec_fn(T, T) -> bool {
    |a: T, b: T| a.rank_of() <= b.rank_of()
}

/// A list in the order of its ranks. Which of two equal ranks comes first is left open.
pub open spec fn in_order<T: Ranked>(s: Seq<T>) -> bool {
    sorted_by(s, by_rank::<T>())
}

/// Put a list in order of rank.
pub(crate) fn sort<T: Ranked>(list: &mut Vec<T>)
    ensures
        in_order(final(list)@),
        final(list)@.to_multiset() == old(list)@.to_multiset(),
{
    let n: usize = list.len();
    let mut i: usize = 0;
    while i < n
        invariant
            0 <= i <= n,
            list@.len() == n,
            in_order(list@.take(i as int)),
            list@.to_multiset() == old(list)@.to_multiset(),
        decreases n - i,
    {
        let mut j: usize = i;
        let ghost le = by_rank::<T>();
        proof {
            let done = list@.take(i as int);
            assert forall|a: int, b: int| 0 <= a < b <= i && a != i && b != i implies #[trigger] le(
                list@[a],
                list@[b],
            ) by {
                assert(le(done[a], done[b]));
            }
        }
        while j > 0 && list[j].rank() < list[j - 1].rank()
            invariant
                0 <= j <= i < n,
                list@.len() == n,
                le == by_rank::<T>(),
                list@.to_multiset() == old(list)@.to_multiset(),
                forall|a: int, b: int|
                    0 <= a < b <= i && a != j && b != j ==> #[trigger] le(list@[a], list@[b]),
                forall|b: int| j < b <= i ==> le(list@[j as int], #[trigger] list@[b]),
            decreases j,
        {
            let ghost before = list@;
            let lower: T = list[j];
            let upper: T = list[j - 1];
            list.set(j, upper);
            list.set(j - 1, lower);
            proof {
                let ji = j as int;
                let mid = before.update(ji, upper);
                assert(list@ == mid.update(ji - 1, lower));
                vstd::seq_lib::to_multiset_update(before, ji, upper);
                vstd::seq_lib::to_multiset_update(mid, ji - 1, lower);
                assert(list@.to_multiset() =~= before.to_multiset()) by {
                    broadcast use vstd::multiset::group_multiset_axioms;
                    broadcast use vstd::seq_lib::to_multiset_contains;
                    assert(before.contains(before[ji]));
                    assert(mid[ji] == upper);
                    assert(mid[ji - 1] == upper);
                }
                assert forall|a: int, b: int|
                    0 <= a < b <= i && a != ji - 1 && b != ji - 1 implies #[trigger] le(list@[a], list@[b]) by {
                    if a == ji {
                        assert(le(before[ji - 1], before[b]));
                    } else if b == ji {
                        assert(le(before[a], before[ji - 1]));
                    } else {
                        assert(le(before[a], before[b]));
                    }
                }
                assert forall|b: int| ji - 1 < b <= i implies le(list@[ji - 1], #[trigger] list@[b]) by {
                    if b > ji {
                        assert(le(before[ji], before[b]));
                    }
                }
            }
            j = j - 1;
        }
        proof {
            let now = list@.take(i as int + 1);
            assert forall|a: int, b: int| 0 <= a < b < now.len() implies #[trigger] le(now[a], now[b]) by {
                if b == j as int {
                    if a < j as int - 1 {
                        assert(le(list@[a], list@[j as int - 1]));
                    }
                } else if a == j as int {
                    assert(le(list@[j as int], list@[b]));
                } else {
                    assert(le(list@[a], list@[b]));
                }
            }
        }
        i = i + 1;
    }
    proof {
        assert(list@.take(n as int) =~= list@);
    }
}

/// The first match is still the first once others have been left out, as long as it is kept.
pub proof fn lemma_first_kept<T>(
    s: Seq<T>,
    keep: spec_fn(T) -> bool,
    p: spec_fn(T) -> bool,
    k: int,
)
    requires
        0 <= k < s.len(),
        keep(s[k]),
        p(s[k]),
        forall|j: int| 0 <= j < k ==> !p(#[trigger] s[j]),
    ensures
        0 <= first_where(s.filter(keep), p) < s.filter(keep).len(),
        s.filter(keep)[first_where(s.filter(keep), p)] == s[k],
    decreases s.len(),
{
    reveal(Seq::filter);
    let front = s.drop_last();
    let kept = front.filter(keep);
    if k == s.len() - 1 {
        lemma_filter_members(front, keep);
        assert forall|j: int| 0 <= j < kept.len() implies !p(#[trigger] kept[j]) by {
            assert(kept.contains(kept[j]));
            assert(front.contains(kept[j]));
            let i = choose|i: int| 0 <= i < front.len() && front[i] == kept[j];
            assert(s[i] == kept[j]);
        }
        assert(s.filter(keep) =~= kept.push(s[k]));
        lemma_first_where(s.filter(keep), p, kept.len() as int);
    } else {
        assert(front[k] == s[k]);
        assert forall|j: int| 0 <= j < k implies !p(#[trigger] front[j]) by {
            assert(front[j] == s[j]);
        }
        lemma_first_kept(front, keep, p, k);
        lemma_first_where_bounds(kept, p);
        let i = first_where(kept, p);
        let all = s.filter(keep);
        assert forall|j: int| 0 <= j <= i implies #[trigger] all[j] == kept[j] by {}
        assert forall|j: int| 0 <= j < i implies !p(#[trigger] all[j]) by {
            assert(!p(kept[j]));
        }
        lemma_first_where(all, p, i);
    }
}

/// Whether a list is another with nothing or more put on the end.
pub open spec fn extends<T>(now: Seq<T>, was: Seq<T>) -> bool {
    was.len() <= now.len() && forall|i: int| 0 <= i < was.len() ==> #[trigger] now[i] == was[i]
}

/// What each of some things comes to, one after another.
pub open spec fn gathered<A, B>(items: Seq<A>, each: spec_fn(A) -> Seq<B>) -> Seq<B>
    decreases items.len(),
{
    if items.len() == 0 {
        Seq::empty()
    } else {
        gathered(items.drop_last(), each) + each(items.last())
    }
}

} // verus!
