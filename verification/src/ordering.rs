//! Ordering by location, which makes output deterministic.

use crate::text::{
    lemma_text_lt_irreflexive, lemma_text_lt_total, lemma_text_lt_transitive, same_text,
    text_before, text_lt,
};
use vstd::prelude::*;

verus! {

/// A function and a block in it.
pub type Location = (Seq<char>, Seq<char>);

/// Locations are ordered by function, then by block.
pub open spec fn location_lt(a: Location, b: Location) -> bool {
    text_lt(a.0, b.0) || (a.0 == b.0 && text_lt(a.1, b.1))
}

/// What stands at a location.
pub trait Placed: Sized {
    spec fn location(self) -> Location;
}

/// What can tell at run time where it stands.
pub trait Located: Placed {
    fn function_name(&self) -> (name: &str)
        ensures
            name@ == self.location().0,
    ;

    fn block_id(&self) -> (id: &str)
        ensures
            id@ == self.location().1,
    ;
}

/// The items of `s` at location `at`, in their order.
pub open spec fn items_at<T: Placed>(s: Seq<T>, at: Location) -> Seq<T>
    decreases s.len(),
{
    if s.len() == 0 {
        seq![]
    } else if s.last().location() == at {
        items_at(s.drop_last(), at).push(s.last())
    } else {
        items_at(s.drop_last(), at)
    }
}

/// No item comes after one with a greater location.
pub open spec fn in_order<T: Placed>(s: Seq<T>) -> bool {
    forall|i: int, j: int|
        0 <= i < j < s.len() ==> !location_lt(
            (#[trigger] s[j]).location(),
            (#[trigger] s[i]).location(),
        )
}

/// `after` is `before` in order of location; items at one location keep their order.
pub open spec fn is_stable_sort<T: Placed>(before: Seq<T>, after: Seq<T>) -> bool {
    &&& in_order(after)
    &&& forall|at: Location| #[trigger] items_at(after, at) == items_at(before, at)
}

/// Locations are totally ordered.
pub proof fn lemma_location_lt_total(a: Location, b: Location)
    ensures
        location_lt(a, b) || a == b || location_lt(b, a),
        !(location_lt(a, b) && location_lt(b, a)),
        !location_lt(a, a),
{
    lemma_text_lt_total(a.0, b.0);
    lemma_text_lt_total(a.1, b.1);
    lemma_text_lt_irreflexive(a.0);
    lemma_text_lt_irreflexive(a.1);
    if location_lt(a, b) && location_lt(b, a) {
        assert(a.0 == b.0);
    }
}

/// The order of locations is transitive.
pub proof fn lemma_location_lt_transitive(a: Location, b: Location, c: Location)
    requires
        location_lt(a, b),
        location_lt(b, c),
    ensures
        location_lt(a, c),
{
    if text_lt(a.0, b.0) && text_lt(b.0, c.0) {
        lemma_text_lt_transitive(a.0, b.0, c.0);
    } else if a.0 == b.0 && b.0 == c.0 {
        lemma_text_lt_transitive(a.1, b.1, c.1);
    }
}

/// What is at a location in two sequences, one behind the other.
pub proof fn lemma_items_at_add<T: Placed>(a: Seq<T>, b: Seq<T>, at: Location)
    ensures
        items_at(a + b, at) == items_at(a, at) + items_at(b, at),
    decreases b.len(),
{
    if b.len() == 0 {
        assert(a + b == a);
        assert(items_at(a, at) + items_at(b, at) == items_at(a, at));
    } else {
        assert((a + b).drop_last() == a + b.drop_last());
        lemma_items_at_add(a, b.drop_last(), at);
        assert(items_at(a + b, at) == items_at(a, at) + items_at(b, at));
    }
}

/// What is at a location in a sequence of one item.
pub proof fn lemma_items_at_single<T: Placed>(x: T, at: Location)
    ensures
        items_at(seq![x], at) == if x.location() == at {
            seq![x]
        } else {
            seq![]
        },
{
    assert(seq![x].drop_last() == Seq::<T>::empty());
    assert(items_at(Seq::<T>::empty(), at) == Seq::<T>::empty());
    assert(Seq::<T>::empty().push(x) == seq![x]);
}

/// Nothing is at a location that no item has.
proof fn lemma_items_at_none<T: Placed>(s: Seq<T>, at: Location)
    requires
        forall|i: int| 0 <= i < s.len() ==> (#[trigger] s[i]).location() != at,
    ensures
        items_at(s, at) == Seq::<T>::empty(),
    decreases s.len(),
{
    if s.len() > 0 {
        let init = s.drop_last();
        assert forall|i: int| 0 <= i < init.len() implies (#[trigger] init[i]).location() != at by {
            assert(init[i] == s[i]);
        }
        assert(s[s.len() - 1].location() != at);
        lemma_items_at_none(init, at);
    }
}

/// What is at a location is an item there, and every item there is found.
pub proof fn lemma_items_at_members<T: Placed>(s: Seq<T>, at: Location, x: T)
    ensures
        items_at(s, at).contains(x) <==> s.contains(x) && x.location() == at,
    decreases s.len(),
{
    if s.len() > 0 {
        let init = s.drop_last();
        lemma_items_at_members(init, at, x);
        let here = items_at(init, at);
        if s.last().location() == at {
            let all = here.push(s.last());
            if all.contains(x) {
                let i = choose|i: int| 0 <= i < all.len() && all[i] == x;
                if i < here.len() {
                    assert(here[i] == x);
                }
            }
            if here.contains(x) {
                let i = choose|i: int| 0 <= i < here.len() && here[i] == x;
                assert(all[i] == x);
            }
            assert(all[here.len() as int] == s.last());
        }
        if s.contains(x) {
            let i = choose|i: int| 0 <= i < s.len() && s[i] == x;
            if i < init.len() {
                assert(init[i] == x);
            }
        }
        if init.contains(x) {
            let i = choose|i: int| 0 <= i < init.len() && init[i] == x;
            assert(s[i] == x);
        }
        assert(s[s.len() - 1] == s.last());
    }
}

/// A stable sort has the same members.
pub proof fn lemma_stable_sort_members<T: Placed>(before: Seq<T>, after: Seq<T>, x: T)
    requires
        is_stable_sort(before, after),
    ensures
        after.contains(x) <==> before.contains(x),
{
    assert(items_at(after, x.location()) == items_at(before, x.location()));
    lemma_items_at_members(before, x.location(), x);
    lemma_items_at_members(after, x.location(), x);
}

/// Sequences in order with the same items at each location are the same.
pub proof fn lemma_in_order_unique<T: Placed>(a: Seq<T>, b: Seq<T>)
    requires
        in_order(a),
        in_order(b),
        forall|at: Location| #[trigger] items_at(a, at) == items_at(b, at),
    ensures
        a == b,
    decreases a.len() + b.len(),
{
    if a.len() == 0 && b.len() == 0 {
        assert(a == b);
    } else {
        if a.len() > 0 {
            lemma_items_at_members(a, a[0].location(), a[0]);
            lemma_items_at_members(b, a[0].location(), a[0]);
            assert(items_at(a, a[0].location()) == items_at(b, a[0].location()));
        }
        if b.len() > 0 {
            lemma_items_at_members(a, b[0].location(), b[0]);
            lemma_items_at_members(b, b[0].location(), b[0]);
            assert(items_at(a, b[0].location()) == items_at(b, b[0].location()));
        }
        assert(a.len() > 0 && b.len() > 0);
        let x = a[0];
        let y = b[0];
        let i = choose|i: int| 0 <= i < b.len() && b[i] == x;
        let j = choose|j: int| 0 <= j < a.len() && a[j] == y;
        assert(i == 0 || !location_lt(b[i].location(), b[0].location()));
        assert(j == 0 || !location_lt(a[j].location(), a[0].location()));
        lemma_location_lt_total(x.location(), y.location());
        assert(x.location() == y.location());
        let rest_a = a.drop_first();
        let rest_b = b.drop_first();
        assert(a == seq![x] + rest_a);
        assert(b == seq![y] + rest_b);
        assert forall|at: Location| #[trigger] items_at(rest_a, at) == items_at(rest_b, at) && x
            == y by {
            lemma_items_at_first(x, rest_a, x.location());
            lemma_items_at_first(y, rest_b, x.location());
            assert(items_at(a, x.location())[0] == x);
            assert(items_at(b, x.location())[0] == y);
            lemma_items_at_first(x, rest_a, at);
            lemma_items_at_first(y, rest_b, at);
            assert(items_at(a, at) == items_at(b, at));
            if x.location() == at {
                assert(items_at(rest_a, at) == items_at(a, at).drop_first());
                assert(items_at(rest_b, at) == items_at(b, at).drop_first());
            }
        }
        assert(items_at(rest_a, x.location()) == items_at(rest_b, x.location()));
        lemma_in_order_unique(rest_a, rest_b);
    }
}

/// The first item comes first among those at its location.
proof fn lemma_items_at_first<T: Placed>(x: T, rest: Seq<T>, at: Location)
    ensures
        items_at(seq![x] + rest, at) == if x.location() == at {
            seq![x] + items_at(rest, at)
        } else {
            items_at(rest, at)
        },
{
    lemma_items_at_add(seq![x], rest, at);
    lemma_items_at_single(x, at);
    assert(Seq::<T>::empty() + items_at(rest, at) == items_at(rest, at));
}

/// A sequence has one stable sort.
pub proof fn lemma_stable_sort_unique<T: Placed>(before: Seq<T>, a: Seq<T>, b: Seq<T>)
    requires
        is_stable_sort(before, a),
        is_stable_sort(before, b),
    ensures
        a == b,
{
    assert forall|at: Location| #[trigger] items_at(a, at) == items_at(b, at) by {
        assert(items_at(b, at) == items_at(before, at));
    }
    lemma_in_order_unique(a, b);
}

/// What is kept at a location is what is at the location, as far as it is kept.
proof fn lemma_items_at_filter<T: Placed>(s: Seq<T>, keep: spec_fn(T) -> bool, at: Location)
    ensures
        items_at(s.filter(keep), at) == items_at(s, at).filter(keep),
    decreases s.len(),
{
    reveal(Seq::filter);
    if s.len() > 0 {
        let init = s.drop_last();
        let last = s.last();
        lemma_items_at_filter(init, keep, at);
        assert(init.filter(keep).push(last).drop_last() == init.filter(keep));
        assert(items_at(init, at).push(last).drop_last() == items_at(init, at));
    }
}

/// Leaving items out keeps the order.
proof fn lemma_filter_in_order<T: Placed>(s: Seq<T>, keep: spec_fn(T) -> bool)
    requires
        in_order(s),
    ensures
        in_order(s.filter(keep)),
        forall|x: T| #[trigger] s.filter(keep).contains(x) ==> s.contains(x),
    decreases s.len(),
{
    reveal(Seq::filter);
    if s.len() > 0 {
        let init = s.drop_last();
        let last = s.last();
        let kept = init.filter(keep);
        let all = s.filter(keep);
        assert forall|i: int, j: int| 0 <= i < j < init.len() implies !location_lt(
            (#[trigger] init[j]).location(),
            (#[trigger] init[i]).location(),
        ) by {
            assert(init[i] == s[i] && init[j] == s[j]);
        }
        lemma_filter_in_order(init, keep);
        assert(s[s.len() - 1] == last);
        assert forall|x: T| #[trigger] all.contains(x) implies s.contains(x) by {
            let i = choose|i: int| 0 <= i < all.len() && all[i] == x;
            if i < kept.len() {
                assert(kept.contains(kept[i]));
                let k = choose|k: int| 0 <= k < init.len() && init[k] == x;
                assert(s[k] == x);
            }
        }
        assert forall|i: int, j: int| 0 <= i < j < all.len() implies !location_lt(
            (#[trigger] all[j]).location(),
            (#[trigger] all[i]).location(),
        ) by {
            assert(all[i] == kept[i]);
            if j == kept.len() {
                assert(kept.contains(kept[i]));
                let k = choose|k: int| 0 <= k < init.len() && init[k] == kept[i];
                assert(s[k] == kept[i]);
                assert(all[j] == s[s.len() - 1]);
            } else {
                assert(all[j] == kept[j]);
            }
        }
    }
}

/// Sorting and leaving items out can be done in either order.
pub proof fn lemma_stable_sort_filter<T: Placed>(
    before: Seq<T>,
    after: Seq<T>,
    keep: spec_fn(T) -> bool,
)
    requires
        is_stable_sort(before, after),
    ensures
        is_stable_sort(before.filter(keep), after.filter(keep)),
{
    lemma_filter_in_order(after, keep);
    assert forall|at: Location| #[trigger] items_at(after.filter(keep), at) == items_at(
        before.filter(keep),
        at,
    ) by {
        lemma_items_at_filter(before, keep, at);
        lemma_items_at_filter(after, keep, at);
        assert(items_at(after, at) == items_at(before, at));
    }
}

/// A stable sort of values is a stable sort of their views.
pub proof fn lemma_stable_sort_view<T: Placed + View>(before: Seq<T>, after: Seq<T>) where
    T::V: Placed,

    requires
        is_stable_sort(before, after),
        forall|x: T| (#[trigger] x@).location() == x.location(),
    ensures
        is_stable_sort(before.map_values(|x: T| x@), after.map_values(|x: T| x@)),
{
    let f = |x: T| x@;
    assert forall|at: Location| #[trigger]
        items_at(after.map_values(f), at) == items_at(before.map_values(f), at) by {
        lemma_items_at_view(before, at);
        lemma_items_at_view(after, at);
        assert(items_at(after, at) == items_at(before, at));
    }
    let models = after.map_values(f);
    assert forall|i: int, j: int| 0 <= i < j < models.len() implies !location_lt(
        (#[trigger] models[j]).location(),
        (#[trigger] models[i]).location(),
    ) by {
        assert(models[i] == after[i]@ && models[j] == after[j]@);
    }
}

proof fn lemma_items_at_view<T: Placed + View>(s: Seq<T>, at: Location) where T::V: Placed
    requires
        forall|x: T| (#[trigger] x@).location() == x.location(),
    ensures
        items_at(s.map_values(|x: T| x@), at) == items_at(s, at).map_values(|x: T| x@),
    decreases s.len(),
{
    let f = |x: T| x@;
    if s.len() == 0 {
        assert(items_at(s.map_values(f), at) == items_at(s, at).map_values(f));
    } else {
        lemma_items_at_view(s.drop_last(), at);
        assert(s.map_values(f).drop_last() == s.drop_last().map_values(f));
        assert(s.map_values(f).last() == s.last()@);
        assert(items_at(s.map_values(f), at) == items_at(s, at).map_values(f));
    }
}

/// Whether `a` stands before `b`.
fn located_before<T: Located>(a: &T, b: &T) -> (before: bool)
    ensures
        before == location_lt(a.location(), b.location()),
{
    if same_text(a.function_name(), b.function_name()) {
        proof {
            lemma_text_lt_irreflexive(a.location().0);
        }
        text_before(a.block_id(), b.block_id())
    } else {
        text_before(a.function_name(), b.function_name())
    }
}

/// Puts items in order of location. Items at one location keep their order.
pub fn sort_by_location<T: Located>(items: Vec<T>) -> (sorted: Vec<T>)
    ensures
        is_stable_sort(items@, sorted@),
{
    let mut items = items;
    let mut sorted: Vec<T> = Vec::new();
    let ghost all = items@;
    proof {
        assert forall|at: Location|
            #[trigger] items_at(all, at) == items_at(items@, at) + items_at(sorted@, at) by {
            assert(items_at(items@, at) + Seq::<T>::empty() == items_at(items@, at));
        }
    }
    while items.len() > 0
        invariant
            in_order(sorted@),
            forall|at: Location|
                #[trigger] items_at(all, at) == items_at(items@, at) + items_at(sorted@, at),
        decreases items@.len(),
    {
        let ghost waiting = items@;
        let x = items.remove(items.len() - 1);
        assert(items@ == waiting.drop_last());
        let mut pos: usize = 0;
        while pos < sorted.len() && located_before(&sorted[pos], &x)
            invariant
                pos <= sorted@.len(),
                forall|i: int|
                    0 <= i < pos ==> location_lt((#[trigger] sorted@[i]).location(), x.location()),
            decreases sorted@.len() - pos,
        {
            pos = pos + 1;
        }
        let ghost before = sorted@;
        sorted.insert(pos, x);
        proof {
            lemma_insert_in_order(before, x, pos as int);
            assert forall|at: Location|
                #[trigger] items_at(all, at) == items_at(items@, at) + items_at(sorted@, at) by {
                lemma_insert_items(before, x, pos as int, at);
                assert(items_at(all, at) == items_at(waiting, at) + items_at(before, at));
                assert(items_at(waiting, at) + items_at(before, at) == items_at(items@, at) + (
                if x.location() == at {
                    seq![x] + items_at(before, at)
                } else {
                    items_at(before, at)
                }));
            }
        }
    }
    proof {
        assert forall|at: Location| #[trigger] items_at(sorted@, at) == items_at(all, at) by {
            assert(items_at(all, at) == items_at(items@, at) + items_at(sorted@, at));
            assert(Seq::<T>::empty() + items_at(sorted@, at) == items_at(sorted@, at));
        }
    }
    sorted
}

/// Inserting an item at its place keeps the order.
proof fn lemma_insert_in_order<T: Placed>(s: Seq<T>, x: T, pos: int)
    requires
        in_order(s),
        0 <= pos <= s.len(),
        forall|i: int| 0 <= i < pos ==> location_lt((#[trigger] s[i]).location(), x.location()),
        pos < s.len() ==> !location_lt(s[pos].location(), x.location()),
    ensures
        in_order(s.insert(pos, x)),
{
    let after = s.insert(pos, x);
    assert forall|i: int, j: int| 0 <= i < j < after.len() implies !location_lt(
        (#[trigger] after[j]).location(),
        (#[trigger] after[i]).location(),
    ) by {
        if j == pos {
            assert(after[i] == s[i]);
            lemma_location_lt_total(s[i].location(), x.location());
        } else if i == pos {
            assert(after[j] == s[j - 1]);
            if j - 1 > pos && location_lt(s[j - 1].location(), x.location()) {
                lemma_location_lt_total(s[j - 1].location(), s[pos].location());
                lemma_location_lt_total(x.location(), s[pos].location());
                if location_lt(x.location(), s[pos].location()) {
                    lemma_location_lt_transitive(
                        s[j - 1].location(),
                        x.location(),
                        s[pos].location(),
                    );
                }
            }
        } else {
            let a = if i < pos { i } else { i - 1 };
            let b = if j < pos { j } else { j - 1 };
            assert(after[i] == s[a] && after[j] == s[b]);
        }
    }
}

/// An item inserted at its place comes first among those at its location.
proof fn lemma_insert_items<T: Placed>(s: Seq<T>, x: T, pos: int, at: Location)
    requires
        0 <= pos <= s.len(),
        forall|i: int| 0 <= i < pos ==> location_lt((#[trigger] s[i]).location(), x.location()),
    ensures
        items_at(s.insert(pos, x), at) == if x.location() == at {
            seq![x] + items_at(s, at)
        } else {
            items_at(s, at)
        },
{
    let left = s.take(pos);
    let right = s.skip(pos);
    assert(s == left + right);
    assert(s.insert(pos, x) == left + (seq![x] + right));
    lemma_items_at_add(left, right, at);
    lemma_items_at_add(left, seq![x] + right, at);
    lemma_items_at_first(x, right, at);
    if x.location() == at {
        assert forall|i: int| 0 <= i < left.len() implies (#[trigger] left[i]).location() != at by {
            assert(left[i] == s[i]);
            lemma_location_lt_total(x.location(), x.location());
        }
        lemma_items_at_none(left, at);
        assert(items_at(s.insert(pos, x), at) == seq![x] + items_at(s, at));
    }
}

/// The items at a location are those of the sequence that stand there, in their order.
pub proof fn law_items_at_are_those_that_stand_there<T: Placed>(s: Seq<T>, at: Location)
    ensures
        items_at(s, at) == s.filter(|x: T| x.location() == at),
    decreases s.len(),
{
    reveal(Seq::filter);
    if s.len() > 0 {
        law_items_at_are_those_that_stand_there(s.drop_last(), at);
    }
}

proof fn lemma_items_at_count<T: Placed>(s: Seq<T>, x: T)
    ensures
        s.to_multiset().count(x) == items_at(s, x.location()).to_multiset().count(x),
    decreases s.len(),
{
    if s.len() > 0 {
        let init = s.drop_last();
        lemma_items_at_count(init, x);
        init.to_multiset_ensures();
        items_at(init, x.location()).to_multiset_ensures();
        assert(s == init.push(s.last()));
        assert(s.to_multiset() == init.to_multiset().insert(s.last()));
    } else {
        assert(items_at(s, x.location()) == s);
    }
}

/// A stable sort moves items and does nothing else: it has the same items, each as often, and puts
/// them in order of function and then of block.
pub proof fn law_stable_sort_only_moves_items<T: Placed>(before: Seq<T>, after: Seq<T>)
    requires
        is_stable_sort(before, after),
    ensures
        after.to_multiset() == before.to_multiset(),
        after.len() == before.len(),
        forall|i: int, j: int|
            0 <= i < j < after.len() ==> {
                let a = (#[trigger] after[i]).location();
                let b = (#[trigger] after[j]).location();
                &&& !text_lt(b.0, a.0)
                &&& a.0 == b.0 ==> !text_lt(b.1, a.1)
            },
{
    assert forall|x: T| after.to_multiset().count(x) == before.to_multiset().count(x) by {
        lemma_items_at_count(before, x);
        lemma_items_at_count(after, x);
        assert(items_at(after, x.location()) == items_at(before, x.location()));
    }
    assert(after.to_multiset() == before.to_multiset());
    after.to_multiset_ensures();
    before.to_multiset_ensures();
    assert forall|i: int, j: int| 0 <= i < j < after.len() implies {
        let a = (#[trigger] after[i]).location();
        let b = (#[trigger] after[j]).location();
        &&& !text_lt(b.0, a.0)
        &&& a.0 == b.0 ==> !text_lt(b.1, a.1)
    } by {
        assert(!location_lt(after[j].location(), after[i].location()));
    }
}

/// A stable sort keeps the items at one location in their order.
pub proof fn law_stable_sort_keeps_order_at_a_location<T: Placed>(
    before: Seq<T>,
    after: Seq<T>,
    at: Location,
)
    requires
        is_stable_sort(before, after),
    ensures
        after.filter(|x: T| x.location() == at) == before.filter(|x: T| x.location() == at),
{
    law_items_at_are_those_that_stand_there(before, at);
    law_items_at_are_those_that_stand_there(after, at);
    assert(items_at(after, at) == items_at(before, at));
}

} // verus!
