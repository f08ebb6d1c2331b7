//! What holds of the declarations that the pass keeps.

use crate::api::Api;
use crate::facts::{
    lemma_edges_members, lemma_has_name_add, lemma_named_add, lemma_named_after_leave,
    lemma_named_members, lemma_named_of_group, lemma_roots_members,
};
use crate::reach::{
    edges, has_name, is_chain, is_root, kept, lemma_split_by_name, linked, listed, named, not_named,
    reachable, roots, sweep,
};
use vstd::prelude::*;

verus! {

/// Every declaration that leaves was pending.
pub proof fn lemma_sweep_members<T>(pending: Seq<Api<T>>, todo: Seq<Seq<char>>)
    ensures
        sweep(pending, todo).len() <= pending.len(),
        forall|i: int|
            0 <= i < sweep(pending, todo).len() ==> pending.contains(
                #[trigger] sweep(pending, todo)[i],
            ),
        forall|name: Seq<char>|
            has_name(sweep(pending, todo), name) ==> has_name(pending, name),
    decreases pending.len(), todo.len(),
{
    let out = sweep(pending, todo);
    if todo.len() != 0 {
        let name = todo.first();
        let found = named(pending, name);
        lemma_split_by_name(pending, name);
        lemma_named_members(pending, name);
        if found.len() == 0 {
            lemma_sweep_members(pending, todo.drop_first());
        } else {
            let rest = not_named(pending, name);
            let later = sweep(rest, todo.drop_first() + edges(found));
            lemma_sweep_members(rest, todo.drop_first() + edges(found));
            assert forall|i: int| 0 <= i < out.len() implies pending.contains(
                #[trigger] out[i],
            ) by {
                if i < found.len() {
                    assert(out[i] == found[i]);
                } else {
                    assert(out[i] == later[i - found.len()]);
                    assert(rest.contains(later[i - found.len()]));
                    let at = choose|at: int| 0 <= at < rest.len() && rest[at] == out[i];
                    assert(pending.contains(rest[at]));
                }
            }
        }
    }
    assert forall|name: Seq<char>| has_name(out, name) implies has_name(pending, name) by {
        let i = choose|i: int| 0 <= i < out.len() && (#[trigger] out[i]).name@ == name;
        assert(pending.contains(out[i]));
        let at = choose|at: int| 0 <= at < pending.len() && pending[at] == out[i];
        assert(pending[at].name@ == name);
    }
}

/// Declarations of one name leave together or not at all: among those
/// that leave, the group of a name is what it was among the pending
/// ones, or it is empty.
pub proof fn lemma_sweep_whole_groups<T>(
    pending: Seq<Api<T>>,
    todo: Seq<Seq<char>>,
    name: Seq<char>,
)
    ensures
        named(sweep(pending, todo), name) == named(pending, name) || named(
            sweep(pending, todo),
            name,
        ) == Seq::<Api<T>>::empty(),
    decreases pending.len(), todo.len(),
{
    reveal(Seq::filter);
    if todo.len() != 0 {
        let head = todo.first();
        let found = named(pending, head);
        lemma_split_by_name(pending, head);
        if found.len() == 0 {
            lemma_sweep_whole_groups(pending, todo.drop_first(), name);
        } else {
            let rest = not_named(pending, head);
            let later = sweep(rest, todo.drop_first() + edges(found));
            lemma_sweep_whole_groups(rest, todo.drop_first() + edges(found), name);
            lemma_named_add(found, later, name);
            lemma_named_of_group(pending, head, name);
            lemma_named_after_leave(pending, head, name);
        }
    }
}

/// A name of the worklist that some pending declaration goes by is the
/// name of a declaration that leaves.
pub proof fn lemma_sweep_reaches_todo<T>(
    pending: Seq<Api<T>>,
    todo: Seq<Seq<char>>,
    name: Seq<char>,
)
    requires
        todo.contains(name),
        has_name(pending, name),
    ensures
        has_name(sweep(pending, todo), name),
    decreases pending.len(), todo.len(),
{
    let head = todo.first();
    let found = named(pending, head);
    let tail = todo.drop_first();
    let at = choose|at: int| 0 <= at < todo.len() && todo[at] == name;
    lemma_split_by_name(pending, head);
    lemma_named_members(pending, head);
    if found.len() == 0 {
        assert(at != 0);
        assert(tail[at - 1] == name);
        lemma_sweep_reaches_todo(pending, tail, name);
    } else {
        let rest = not_named(pending, head);
        let next = tail + edges(found);
        lemma_has_name_add(found, sweep(rest, next));
        if name == head {
            lemma_named_members(found, name);
            lemma_named_of_group(pending, head, name);
        } else {
            assert(next[at - 1] == name);
            let i = choose|i: int| 0 <= i < pending.len() && (#[trigger] pending[i]).name@ == name;
            assert(rest.contains(pending[i]));
            let j = choose|j: int| 0 <= j < rest.len() && rest[j] == pending[i];
            assert(rest[j].name@ == name);
            lemma_sweep_reaches_todo(rest, next, name);
        }
    }
}

/// What leaves lacks nothing that was pending: a name that a departing
/// declaration depends on, and that some pending declaration goes by, is
/// the name of a declaration that leaves.
pub proof fn lemma_sweep_closed<T>(
    pending: Seq<Api<T>>,
    todo: Seq<Seq<char>>,
    i: int,
    dep: Seq<char>,
)
    requires
        0 <= i < sweep(pending, todo).len(),
        sweep(pending, todo)[i].spec_deps().contains(dep),
        has_name(pending, dep),
    ensures
        has_name(sweep(pending, todo), dep),
    decreases pending.len(), todo.len(),
{
    let head = todo.first();
    let found = named(pending, head);
    let tail = todo.drop_first();
    lemma_split_by_name(pending, head);
    lemma_named_members(pending, head);
    if found.len() == 0 {
        lemma_sweep_closed(pending, tail, i, dep);
    } else {
        let rest = not_named(pending, head);
        let next = tail + edges(found);
        let later = sweep(rest, next);
        lemma_has_name_add(found, later);
        if dep == head {
            lemma_named_members(found, head);
            lemma_named_of_group(pending, head, head);
        } else {
            let at = choose|at: int|
                0 <= at < pending.len() && (#[trigger] pending[at]).name@ == dep;
            assert(rest.contains(pending[at]));
            let j = choose|j: int| 0 <= j < rest.len() && rest[j] == pending[at];
            assert(rest[j].name@ == dep);
            if i < found.len() {
                assert(found[i].spec_deps().contains(dep));
                lemma_edges_members(found, dep);
                let e = choose|e: int| 0 <= e < edges(found).len() && edges(found)[e] == dep;
                assert(next[tail.len() + e] == dep);
                lemma_sweep_reaches_todo(rest, next, dep);
            } else {
                assert(later[i - found.len()] == sweep(pending, todo)[i]);
                lemma_sweep_closed(rest, next, i - found.len(), dep);
            }
        }
    }
}

/// Every declaration that leaves is reached from the worklist: the
/// result is a path within what leaves, from a name of the worklist to
/// the name of the declaration.
pub proof fn lemma_sweep_sound<T>(pending: Seq<Api<T>>, todo: Seq<Seq<char>>, i: int) -> (chain:
    Seq<Seq<char>>)
    requires
        0 <= i < sweep(pending, todo).len(),
    ensures
        is_chain(sweep(pending, todo), chain),
        todo.contains(chain.first()),
        chain.last() == sweep(pending, todo)[i].name@,
    decreases pending.len(), todo.len(),
{
    let out = sweep(pending, todo);
    let head = todo.first();
    let found = named(pending, head);
    let tail = todo.drop_first();
    lemma_split_by_name(pending, head);
    lemma_named_members(pending, head);
    if found.len() == 0 {
        let chain = lemma_sweep_sound(pending, tail, i);
        let at = choose|at: int| 0 <= at < tail.len() && tail[at] == chain.first();
        assert(todo[at + 1] == chain.first());
        chain
    } else {
        let rest = not_named(pending, head);
        let next = tail + edges(found);
        let later = sweep(rest, next);
        lemma_has_name_add(found, later);
        assert(out[0] == found[0]);
        assert(has_name(out, head));
        assert(todo[0] == head);
        if i < found.len() {
            assert(out[i] == found[i]);
            let chain = seq![head];
            assert(chain[0] == head);
            chain
        } else {
            let path = lemma_sweep_sound(rest, next, i - found.len());
            assert(later[i - found.len()] == out[i]);
            assert(is_chain(out, path)) by {
                assert forall|k: int| 0 <= k < path.len() implies has_name(
                    out,
                    #[trigger] path[k],
                ) by {
                    assert(has_name(later, path[k]));
                }
                assert forall|k: int| 0 <= k < path.len() - 1 implies linked(
                    out,
                    #[trigger] path[k],
                    path[k + 1],
                ) by {
                    assert(linked(later, path[k], path[k + 1]));
                }
            }
            let at = choose|at: int| 0 <= at < next.len() && next[at] == path.first();
            if at < tail.len() {
                assert(todo[at + 1] == path.first());
                path
            } else {
                assert(edges(found)[at - tail.len()] == path.first());
                lemma_edges_members(found, path.first());
                let j = choose|j: int|
                    0 <= j < found.len() && (#[trigger] found[j]).spec_deps().contains(
                        path.first(),
                    );
                assert(found[j].name@ == head);
                assert(linked(found, head, path.first()));
                let chain = seq![head] + path;
                assert(chain[0] == head);
                assert forall|k: int| 0 <= k < chain.len() implies has_name(
                    out,
                    #[trigger] chain[k],
                ) by {
                    if k > 0 {
                        assert(chain[k] == path[k - 1]);
                    }
                }
                assert forall|k: int| 0 <= k < chain.len() - 1 implies linked(
                    out,
                    #[trigger] chain[k],
                    chain[k + 1],
                ) by {
                    if k > 0 {
                        assert(chain[k] == path[k - 1]);
                        assert(chain[k + 1] == path[k]);
                        assert(linked(out, path[k - 1], path[k - 1 + 1]));
                    } else {
                        assert(chain[1] == path[0]);
                    }
                }
                assert(chain.last() == path.last());
                chain
            }
        }
    }
}

/// A path within what leaves is a path within what was pending.
pub proof fn lemma_chain_was_pending<T>(
    pending: Seq<Api<T>>,
    todo: Seq<Seq<char>>,
    chain: Seq<Seq<char>>,
)
    requires
        is_chain(sweep(pending, todo), chain),
    ensures
        is_chain(pending, chain),
{
    let out = sweep(pending, todo);
    lemma_sweep_members(pending, todo);
    assert forall|k: int| 0 <= k < chain.len() - 1 implies linked(
        pending,
        #[trigger] chain[k],
        chain[k + 1],
    ) by {
        let i = choose|i: int|
            0 <= i < out.len() && (#[trigger] out[i]).name@ == chain[k]
                && out[i].spec_deps().contains(chain[k + 1]);
        assert(pending.contains(out[i]));
        let at = choose|at: int| 0 <= at < pending.len() && pending[at] == out[i];
        assert(pending[at].name@ == chain[k]);
    }
}

/// Every name on a path within the pending declarations that begins in
/// the worklist is the name of a declaration that leaves.
pub proof fn lemma_sweep_follows_chain<T>(
    pending: Seq<Api<T>>,
    todo: Seq<Seq<char>>,
    chain: Seq<Seq<char>>,
    k: int,
)
    requires
        is_chain(pending, chain),
        todo.contains(chain.first()),
        0 <= k < chain.len(),
    ensures
        has_name(sweep(pending, todo), chain[k]),
    decreases k,
{
    let out = sweep(pending, todo);
    if k == 0 {
        lemma_sweep_reaches_todo(pending, todo, chain[0]);
    } else {
        lemma_sweep_follows_chain(pending, todo, chain, k - 1);
        let from = chain[k - 1];
        assert(linked(pending, from, chain[k - 1 + 1]));
        let at = choose|at: int|
            0 <= at < pending.len() && (#[trigger] pending[at]).name@ == from
                && pending[at].spec_deps().contains(chain[k]);
        lemma_sweep_whole_groups(pending, todo, from);
        lemma_named_members(pending, from);
        lemma_named_members(out, from);
        assert(named(out, from).len() > 0);
        assert(named(out, from).contains(pending[at]));
        let j = choose|j: int|
            0 <= j < named(out, from).len() && named(out, from)[j] == pending[at];
        assert(out.contains(named(out, from)[j]));
        let i = choose|i: int| 0 <= i < out.len() && out[i] == pending[at];
        lemma_sweep_closed(pending, todo, i, chain[k]);
    }
}

/// The declarations kept are exactly those that can be reached: of a
/// name that can be reached, all declarations are kept, in their
/// order; of any other name, none is.
pub proof fn kept_is_what_is_reachable<T>(
    apis: Seq<Api<T>>,
    allowlist: Set<Seq<char>>,
    name: Seq<char>,
)
    ensures
        named(kept(apis, allowlist), name) == if reachable(apis, allowlist, name) {
            named(apis, name)
        } else {
            Seq::<Api<T>>::empty()
        },
{
    let start = roots(apis, allowlist);
    let out = kept(apis, allowlist);
    lemma_sweep_whole_groups(apis, start, name);
    lemma_named_members(out, name);
    lemma_named_members(apis, name);
    if reachable(apis, allowlist, name) {
        let chain = choose|chain: Seq<Seq<char>>|
            #![trigger is_chain(apis, chain)]
            is_chain(apis, chain) && is_root(apis, allowlist, chain.first()) && chain.last()
                == name;
        lemma_roots_members(apis, allowlist, chain.first());
        lemma_sweep_follows_chain(apis, start, chain, chain.len() - 1);
    } else if has_name(out, name) {
        let i = choose|i: int| 0 <= i < out.len() && (#[trigger] out[i]).name@ == name;
        let chain = lemma_sweep_sound(apis, start, i);
        lemma_chain_was_pending(apis, start, chain);
        lemma_roots_members(apis, allowlist, chain.first());
        assert(is_chain(apis, chain));
    }
}

/// What is kept needs nothing that was dropped: a name that a kept
/// declaration depends on is the name of a kept declaration, unless no
/// declaration at all goes by it.
pub proof fn kept_is_closed<T>(apis: Seq<Api<T>>, allowlist: Set<Seq<char>>)
    ensures
        forall|i: int, dep: Seq<char>|
            0 <= i < kept(apis, allowlist).len() && (#[trigger] kept(
                apis,
                allowlist,
            )[i].spec_deps().contains(dep)) ==> has_name(kept(apis, allowlist), dep) || !has_name(
                apis,
                dep,
            ),
{
    let out = kept(apis, allowlist);
    assert forall|i: int, dep: Seq<char>|
        0 <= i < out.len() && (#[trigger] out[i].spec_deps().contains(dep)) implies has_name(
        out,
        dep,
    ) || !has_name(apis, dep) by {
        if has_name(apis, dep) {
            lemma_sweep_closed(apis, roots(apis, allowlist), i, dep);
        }
    }
}

/// Nothing is kept without a reason: to the name of every kept
/// declaration a path leads from the name of a declaration that the
/// allowlist holds, and every name on the path is the name of a kept
/// declaration.
pub proof fn kept_is_sound<T>(apis: Seq<Api<T>>, allowlist: Set<Seq<char>>, i: int)
    requires
        0 <= i < kept(apis, allowlist).len(),
    ensures
        exists|chain: Seq<Seq<char>>|
            #![trigger is_chain(kept(apis, allowlist), chain)]
            is_chain(kept(apis, allowlist), chain) && is_root(apis, allowlist, chain.first())
                && chain.last() == kept(apis, allowlist)[i].name@,
{
    let chain = lemma_sweep_sound(apis, roots(apis, allowlist), i);
    lemma_roots_members(apis, allowlist, chain.first());
    assert(is_chain(kept(apis, allowlist), chain));
}

/// Nothing is made up: the kept declarations are declarations of the
/// input, no more of them than the input has, and of each name either
/// all in their order or none.
pub proof fn kept_is_taken_from_input<T>(apis: Seq<Api<T>>, allowlist: Set<Seq<char>>)
    ensures
        kept(apis, allowlist).len() <= apis.len(),
        forall|i: int|
            0 <= i < kept(apis, allowlist).len() ==> apis.contains(
                #[trigger] kept(apis, allowlist)[i],
            ),
        forall|name: Seq<char>|
            #![trigger named(kept(apis, allowlist), name)]
            named(kept(apis, allowlist), name) == named(apis, name) || named(
                kept(apis, allowlist),
                name,
            ) == Seq::<Api<T>>::empty(),
{
    lemma_sweep_members(apis, roots(apis, allowlist));
    assert forall|name: Seq<char>|
        #![trigger named(kept(apis, allowlist), name)]
        named(kept(apis, allowlist), name) == named(apis, name) || named(
            kept(apis, allowlist),
            name,
        ) == Seq::<Api<T>>::empty() by {
        lemma_sweep_whole_groups(apis, roots(apis, allowlist), name);
    }
}

/// The allowlist matters only through its answers about the given
/// declarations: two allowlists that answer alike keep the same
/// declarations in the same order.
pub proof fn kept_depends_on_answers<T>(
    apis: Seq<Api<T>>,
    allowlist: Set<Seq<char>>,
    other: Set<Seq<char>>,
)
    requires
        forall|i: int|
            0 <= i < apis.len() ==> (allowlist.contains((#[trigger] apis[i]).allowlist_name@)
                <==> other.contains(apis[i].allowlist_name@)),
    ensures
        kept(apis, allowlist) == kept(apis, other),
{
    assert(listed(apis, allowlist) == listed(apis, other));
}

} // verus!
