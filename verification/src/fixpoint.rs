//! Running the pass on its own result changes nothing.
//!
//! The names from which the traversal starts come first in the
//! worklist, so their groups leave before any other group does, in the
//! order in which the names first occur. `gather` is that first part of
//! the result, `without_all` what is then still pending.

use crate::api::Api;
use crate::facts::{
    lemma_edges_add, lemma_named_absent, lemma_named_add, lemma_named_after_leave,
    lemma_named_members, lemma_named_of_group, lemma_roots_add, lemma_roots_members,
    lemma_roots_none,
};
use crate::laws::lemma_sweep_members;
use crate::reach::{
    edges, has_name, is_root, kept, lemma_split_by_name, named, not_named, roots, sweep,
};
use vstd::prelude::*;

verus! {

/// The groups of the names of `order`, one after the other; a name that
/// occurs again finds its group gone.
pub open spec fn gather<T>(apis: Seq<Api<T>>, order: Seq<Seq<char>>) -> Seq<Api<T>>
    decreases order.len(),
{
    if order.len() == 0 {
        Seq::empty()
    } else {
        named(apis, order.first()) + gather(not_named(apis, order.first()), order.drop_first())
    }
}

/// The declarations of `apis` that go by none of the names of `order`.
pub open spec fn without_all<T>(apis: Seq<Api<T>>, order: Seq<Seq<char>>) -> Seq<Api<T>>
    decreases order.len(),
{
    if order.len() == 0 {
        apis
    } else {
        without_all(not_named(apis, order.first()), order.drop_first())
    }
}

/// A worklist that begins with `first` lets the groups of those names
/// leave before anything else.
pub proof fn lemma_sweep_prefix<T>(
    pending: Seq<Api<T>>,
    first: Seq<Seq<char>>,
    then: Seq<Seq<char>>,
)
    ensures
        sweep(pending, first + then) == gather(pending, first) + sweep(
            without_all(pending, first),
            then + edges(gather(pending, first)),
        ),
    decreases first.len(),
{
    if first.len() == 0 {
        assert(first + then == then);
        assert(edges(gather(pending, first)) == Seq::<Seq<char>>::empty());
        assert(then + edges(gather(pending, first)) == then);
    } else {
        let head = first.first();
        let tail = first.drop_first();
        let found = named(pending, head);
        let rest = not_named(pending, head);
        assert((first + then).first() == head);
        assert((first + then).drop_first() == tail + then);
        lemma_named_members(pending, head);
        if found.len() == 0 {
            lemma_named_absent(pending, head);
            lemma_sweep_prefix(pending, tail, then);
            assert(gather(pending, first) == gather(pending, tail));
        } else {
            let more = then + edges(found);
            lemma_sweep_prefix(rest, tail, more);
            assert((tail + then) + edges(found) == tail + more);
            lemma_edges_add(found, gather(rest, tail));
            let group_edges = edges(gather(rest, tail));
            assert(more + group_edges == then + (edges(found) + group_edges));
            let after = sweep(without_all(rest, tail), more + group_edges);
            assert(found + (gather(rest, tail) + after) == (found + gather(rest, tail)) + after);
        }
    }
}

/// Following the same worklist through what has left lets all of it
/// leave again, in the same order.
pub proof fn lemma_sweep_again<T>(pending: Seq<Api<T>>, todo: Seq<Seq<char>>)
    ensures
        sweep(sweep(pending, todo), todo) == sweep(pending, todo),
    decreases pending.len(), todo.len(),
{
    let out = sweep(pending, todo);
    if todo.len() != 0 {
        let head = todo.first();
        let tail = todo.drop_first();
        let found = named(pending, head);
        lemma_split_by_name(pending, head);
        lemma_named_members(pending, head);
        if found.len() == 0 {
            lemma_sweep_members(pending, tail);
            lemma_named_absent(out, head);
            lemma_sweep_again(pending, tail);
        } else {
            let rest = not_named(pending, head);
            let next = tail + edges(found);
            let later = sweep(rest, next);
            lemma_sweep_members(rest, next);
            assert(!has_name(rest, head)) by {
                if has_name(rest, head) {
                    let i = choose|i: int|
                        0 <= i < rest.len() && (#[trigger] rest[i]).name@ == head;
                    assert(rest[i].name@ != head);
                }
            }
            lemma_named_absent(later, head);
            lemma_named_add(found, later, head);
            lemma_named_of_group(pending, head, head);
            assert(named(out, head) == found);
            assert(not_named(out, head) == later);
            lemma_sweep_again(rest, next);
        }
    }
}

/// What is gathered are declarations of `apis` that go by a name of
/// `order`; what is left are declarations of `apis` that do not.
pub proof fn lemma_gather_members<T>(apis: Seq<Api<T>>, order: Seq<Seq<char>>)
    ensures
        forall|i: int|
            0 <= i < gather(apis, order).len() ==> apis.contains(#[trigger] gather(apis, order)[i])
                && order.contains(gather(apis, order)[i].name@),
        forall|i: int|
            0 <= i < without_all(apis, order).len() ==> apis.contains(
                #[trigger] without_all(apis, order)[i],
            ) && !order.contains(without_all(apis, order)[i].name@),
    decreases order.len(),
{
    if order.len() != 0 {
        let head = order.first();
        let tail = order.drop_first();
        let found = named(apis, head);
        let rest = not_named(apis, head);
        let out = gather(apis, order);
        let left = without_all(apis, order);
        lemma_named_members(apis, head);
        lemma_gather_members(rest, tail);
        assert forall|i: int| 0 <= i < out.len() implies apis.contains(#[trigger] out[i])
            && order.contains(out[i].name@) by {
            if i < found.len() {
                assert(out[i] == found[i]);
                assert(order[0] == head);
            } else {
                let later = gather(rest, tail);
                assert(out[i] == later[i - found.len()]);
                assert(rest.contains(later[i - found.len()]));
                let at = choose|at: int| 0 <= at < rest.len() && rest[at] == out[i];
                assert(apis.contains(rest[at]));
                let k = choose|k: int| 0 <= k < tail.len() && tail[k] == out[i].name@;
                assert(order[k + 1] == out[i].name@);
            }
        }
        assert forall|i: int| 0 <= i < left.len() implies apis.contains(#[trigger] left[i])
            && !order.contains(left[i].name@) by {
            assert(left[i] == without_all(rest, tail)[i]);
            assert(rest.contains(left[i]));
            let at = choose|at: int| 0 <= at < rest.len() && rest[at] == left[i];
            assert(apis.contains(rest[at]));
            if order.contains(left[i].name@) {
                let k = choose|k: int| 0 <= k < order.len() && order[k] == left[i].name@;
                if k > 0 {
                    assert(tail[k - 1] == left[i].name@);
                }
            }
        }
    }
}

/// Declarations behind the others that go by none of the names of
/// `order` stay where they are.
pub proof fn lemma_gather_front<T>(front: Seq<Api<T>>, back: Seq<Api<T>>, order: Seq<Seq<char>>)
    requires
        forall|k: int| 0 <= k < order.len() ==> !has_name(back, #[trigger] order[k]),
    ensures
        gather(front + back, order) == gather(front, order),
        without_all(front + back, order) == without_all(front, order) + back,
    decreases order.len(),
{
    if order.len() != 0 {
        let head = order.first();
        let tail = order.drop_first();
        assert(!has_name(back, order[0]));
        lemma_named_absent(back, head);
        lemma_named_add(front, back, head);
        assert(named(front + back, head) == named(front, head));
        assert(not_named(front + back, head) == not_named(front, head) + back);
        assert forall|k: int| 0 <= k < tail.len() implies !has_name(back, #[trigger] tail[k]) by {
            assert(tail[k] == order[k + 1]);
        }
        lemma_gather_front(not_named(front, head), back, tail);
    }
}

/// Gathering by one list of names and then by another gathers by the
/// two put together.
pub proof fn lemma_gather_add<T>(apis: Seq<Api<T>>, first: Seq<Seq<char>>, then: Seq<Seq<char>>)
    ensures
        gather(apis, first + then) == gather(apis, first) + gather(without_all(apis, first), then),
        without_all(apis, first + then) == without_all(without_all(apis, first), then),
    decreases first.len(),
{
    if first.len() == 0 {
        assert(first + then == then);
    } else {
        let head = first.first();
        let tail = first.drop_first();
        assert((first + then).first() == head);
        assert((first + then).drop_first() == tail + then);
        let rest = not_named(apis, head);
        lemma_gather_add(rest, tail, then);
        assert(named(apis, head) + (gather(rest, tail) + gather(without_all(rest, tail), then))
            == (named(apis, head) + gather(rest, tail)) + gather(without_all(rest, tail), then));
    }
}

/// A list that holds one name only, once or more often, gathers the
/// group of that name.
pub proof fn lemma_gather_repeated<T>(apis: Seq<Api<T>>, order: Seq<Seq<char>>, name: Seq<char>)
    requires
        order.len() > 0,
        forall|k: int| 0 <= k < order.len() ==> #[trigger] order[k] == name,
    ensures
        gather(apis, order) == named(apis, name),
        without_all(apis, order) == not_named(apis, name),
    decreases order.len(),
{
    let tail = order.drop_first();
    let rest = not_named(apis, name);
    assert(order[0] == name);
    assert(gather(apis, order) == named(apis, name) + gather(rest, tail));
    assert(without_all(apis, order) == without_all(rest, tail));
    if tail.len() != 0 {
        assert forall|k: int| 0 <= k < tail.len() implies #[trigger] tail[k] == name by {
            assert(tail[k] == order[k + 1]);
        }
        lemma_gather_repeated(rest, tail, name);
        lemma_named_after_leave(apis, name, name);
        lemma_named_members(rest, name);
        lemma_named_absent(rest, name);
    }
}

/// What was gathered by names that the allowlist vouches for is
/// gathered again, whole and in the same order, by the names from which
/// its own traversal starts.
pub proof fn lemma_gather_again<T>(
    apis: Seq<Api<T>>,
    order: Seq<Seq<char>>,
    allowlist: Set<Seq<char>>,
)
    requires
        forall|k: int|
            0 <= k < order.len() && has_name(apis, #[trigger] order[k]) ==> is_root(
                apis,
                allowlist,
                order[k],
            ),
    ensures
        gather(gather(apis, order), roots(gather(apis, order), allowlist)) == gather(apis, order),
        without_all(gather(apis, order), roots(gather(apis, order), allowlist)) == Seq::<
            Api<T>,
        >::empty(),
    decreases order.len(),
{
    let out = gather(apis, order);
    if order.len() == 0 {
        assert(roots(out, allowlist) == Seq::<Seq<char>>::empty());
    } else {
        let head = order.first();
        let tail = order.drop_first();
        let found = named(apis, head);
        let rest = not_named(apis, head);
        let later = gather(rest, tail);
        lemma_named_members(apis, head);
        assert forall|k: int|
            0 <= k < tail.len() && has_name(rest, #[trigger] tail[k]) implies is_root(
            rest,
            allowlist,
            tail[k],
        ) by {
            let name = tail[k];
            assert(order[k + 1] == name);
            let j = choose|j: int| 0 <= j < rest.len() && (#[trigger] rest[j]).name@ == name;
            assert(apis.contains(rest[j]));
            let at = choose|at: int| 0 <= at < apis.len() && apis[at] == rest[j];
            assert(apis[at].name@ == name);
            assert(has_name(apis, name));
            let i = choose|i: int|
                0 <= i < apis.len() && allowlist.contains((#[trigger] apis[i]).allowlist_name@)
                    && apis[i].name@ == name;
            assert(rest.contains(apis[i]));
            let to = choose|to: int| 0 <= to < rest.len() && rest[to] == apis[i];
            assert(allowlist.contains(rest[to].allowlist_name@));
        }
        lemma_gather_again(rest, tail, allowlist);
        if found.len() == 0 {
            assert(out == later);
        } else {
            let own = roots(found, allowlist);
            lemma_roots_add(found, later, allowlist);
            assert(order[0] == head);
            assert(is_root(apis, allowlist, head));
            assert(is_root(found, allowlist, head)) by {
                let i = choose|i: int|
                    0 <= i < apis.len() && allowlist.contains((#[trigger] apis[i]).allowlist_name@)
                        && apis[i].name@ == head;
                assert(found.contains(apis[i]));
                let to = choose|to: int| 0 <= to < found.len() && found[to] == apis[i];
                assert(allowlist.contains(found[to].allowlist_name@));
            }
            lemma_roots_members(found, allowlist, head);
            assert forall|k: int| 0 <= k < own.len() implies #[trigger] own[k] == head by {
                assert(own.contains(own[k]));
                lemma_roots_members(found, allowlist, own[k]);
            }
            lemma_gather_add(out, own, roots(later, allowlist));
            lemma_gather_repeated(out, own, head);
            lemma_gather_members(rest, tail);
            assert(!has_name(later, head)) by {
                if has_name(later, head) {
                    let i = choose|i: int|
                        0 <= i < later.len() && (#[trigger] later[i]).name@ == head;
                    assert(rest.contains(later[i]));
                    let at = choose|at: int| 0 <= at < rest.len() && rest[at] == later[i];
                    assert(rest[at].name@ != head);
                }
            }
            lemma_named_absent(later, head);
            lemma_named_add(found, later, head);
            lemma_named_of_group(apis, head, head);
            assert(named(out, head) == found);
            assert(not_named(out, head) == later);
        }
    }
}

/// The pass has nothing left to do on its own result: run again under
/// the same allowlist, it keeps every declaration, in the same order.
pub proof fn kept_is_fixed_point<T>(apis: Seq<Api<T>>, allowlist: Set<Seq<char>>)
    ensures
        kept(kept(apis, allowlist), allowlist) == kept(apis, allowlist),
{
    let start = roots(apis, allowlist);
    let out = kept(apis, allowlist);
    let none = Seq::<Seq<char>>::empty();
    let first = gather(apis, start);
    let left = without_all(apis, start);
    let later = sweep(left, edges(first));

    // The groups of the starting names leave first.
    lemma_sweep_prefix(apis, start, none);
    assert(start + none == start);
    assert(none + edges(first) == edges(first));
    assert(out == first + later);

    // The allowlist holds nothing of what leaves after them.
    lemma_sweep_members(left, edges(first));
    lemma_gather_members(apis, start);
    assert forall|i: int| 0 <= i < later.len() implies !allowlist.contains(
        (#[trigger] later[i]).allowlist_name@,
    ) by {
        assert(left.contains(later[i]));
        let at = choose|at: int| 0 <= at < left.len() && left[at] == later[i];
        assert(apis.contains(left[at]));
        let to = choose|to: int| 0 <= to < apis.len() && apis[to] == later[i];
        if allowlist.contains(later[i].allowlist_name@) {
            assert(allowlist.contains(apis[to].allowlist_name@));
            lemma_roots_members(apis, allowlist, later[i].name@);
        }
    }
    lemma_roots_none(later, allowlist);
    lemma_roots_add(first, later, allowlist);
    let again = roots(first, allowlist);
    assert(roots(out, allowlist) == again);

    // So the second run starts from the names of the first part only,
    // and none of them is a name of the second part.
    assert forall|k: int| 0 <= k < again.len() implies !has_name(later, #[trigger] again[k]) by {
        let name = again[k];
        assert(again.contains(name));
        lemma_roots_members(first, allowlist, name);
        let i = choose|i: int|
            0 <= i < first.len() && allowlist.contains((#[trigger] first[i]).allowlist_name@)
                && first[i].name@ == name;
        assert(start.contains(first[i].name@));
        if has_name(later, name) {
            let j = choose|j: int| 0 <= j < later.len() && (#[trigger] later[j]).name@ == name;
            assert(left.contains(later[j]));
            let at = choose|at: int| 0 <= at < left.len() && left[at] == later[j];
            assert(!start.contains(left[at].name@));
        }
    }
    lemma_sweep_prefix(out, again, none);
    assert(again + none == again);
    lemma_gather_front(first, later, again);

    // It gathers the first part again, and then follows the same names
    // through the second part as the first run did.
    assert forall|k: int|
        0 <= k < start.len() && has_name(apis, #[trigger] start[k]) implies is_root(
        apis,
        allowlist,
        start[k],
    ) by {
        assert(start.contains(start[k]));
        lemma_roots_members(apis, allowlist, start[k]);
    }
    lemma_gather_again(apis, start, allowlist);
    assert(gather(out, again) == first);
    assert(without_all(out, again) == later);
    lemma_sweep_again(left, edges(first));
}

} // verus!
