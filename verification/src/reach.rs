//! What the pruning pass keeps, stated over sequences of declarations.
//!
//! The model follows a worklist of names. The declarations that have not
//! left yet are `pending`. The name at the head of the worklist is looked
//! up among them: if declarations of that name are pending, all of them
//! leave together, in the order they stand in, and the names they depend
//! on join the end of the worklist. Otherwise the name is passed over.
//!
//! The worklist fixes the order of the result. Which declarations are in
//! it can be said without a worklist: those whose name is `reachable`.

use crate::api::Api;
use vstd::prelude::*;

verus! {

/// The declarations of `apis` that go by `name`, in order.
pub open spec fn named<T>(apis: Seq<Api<T>>, name: Seq<char>) -> Seq<Api<T>> {
    apis.filter(|api: Api<T>| api.name@ == name)
}

/// The declarations of `apis` that go by another name than `name`, in order.
pub open spec fn not_named<T>(apis: Seq<Api<T>>, name: Seq<char>) -> Seq<Api<T>> {
    apis.filter(|api: Api<T>| api.name@ != name)
}

/// The names that the declarations of `apis` depend on: those of the
/// first declaration in their order, then those of the second, and so on.
pub open spec fn edges<T>(apis: Seq<Api<T>>) -> Seq<Seq<char>> {
    apis.map_values(|api: Api<T>| api.spec_deps()).flatten()
}

/// For each declaration of `apis`, whether `allowlist` holds the name
/// under which the allowlist is asked about it.
pub open spec fn listed<T>(apis: Seq<Api<T>>, allowlist: Set<Seq<char>>) -> Seq<bool> {
    apis.map_values(|api: Api<T>| allowlist.contains(api.allowlist_name@))
}

/// The declaration at place `i` is chosen: `chosen` holds `true` there.
/// Beyond the end of `chosen` nothing is chosen.
pub open spec fn is_chosen(chosen: Seq<bool>, i: int) -> bool {
    0 <= i < chosen.len() && chosen[i]
}

/// The names of the chosen declarations of `apis`, in the order of
/// `apis`. A name occurs as often as it has chosen declarations.
pub open spec fn chosen_names<T>(apis: Seq<Api<T>>, chosen: Seq<bool>) -> Seq<Seq<char>>
    decreases apis.len(),
{
    if apis.len() == 0 {
        Seq::empty()
    } else {
        let front = chosen_names(apis.drop_last(), chosen);
        if is_chosen(chosen, apis.len() - 1) {
            front.push(apis.last().name@)
        } else {
            front
        }
    }
}

/// The names from which the traversal starts: one entry for every
/// declaration that the allowlist holds, in the order of `apis`.
pub open spec fn roots<T>(apis: Seq<Api<T>>, allowlist: Set<Seq<char>>) -> Seq<Seq<char>> {
    chosen_names(apis, listed(apis, allowlist))
}

/// The declarations that leave `pending` when the names of `todo` are
/// followed from its head, in the order in which they leave.
pub open spec fn sweep<T>(pending: Seq<Api<T>>, todo: Seq<Seq<char>>) -> Seq<Api<T>>
    decreases pending.len(), todo.len(),
    via sweep_decreases::<T>
{
    if todo.len() == 0 {
        Seq::empty()
    } else {
        let name = todo.first();
        let found = named(pending, name);
        if found.len() == 0 {
            sweep(pending, todo.drop_first())
        } else {
            found + sweep(not_named(pending, name), todo.drop_first() + edges(found))
        }
    }
}

#[via_fn]
proof fn sweep_decreases<T>(pending: Seq<Api<T>>, todo: Seq<Seq<char>>) {
    if todo.len() != 0 {
        lemma_split_by_name(pending, todo.first());
    }
}

/// Some declaration of `apis` goes by `name`.
pub open spec fn has_name<T>(apis: Seq<Api<T>>, name: Seq<char>) -> bool {
    exists|i: int| 0 <= i < apis.len() && (#[trigger] apis[i]).name@ == name
}

/// Some declaration of `apis` that goes by `from` depends on `to`.
pub open spec fn linked<T>(apis: Seq<Api<T>>, from: Seq<char>, to: Seq<char>) -> bool {
    exists|i: int|
        0 <= i < apis.len() && (#[trigger] apis[i]).name@ == from && apis[i].spec_deps().contains(
            to,
        )
}

/// `chain` is a path within `apis`: each of its names is the name of a
/// declaration of `apis`, and each but the last is linked to the next.
pub open spec fn is_chain<T>(apis: Seq<Api<T>>, chain: Seq<Seq<char>>) -> bool {
    &&& chain.len() > 0
    &&& forall|k: int| 0 <= k < chain.len() ==> has_name(apis, #[trigger] chain[k])
    &&& forall|k: int|
        0 <= k < chain.len() - 1 ==> linked(apis, #[trigger] chain[k], chain[k + 1])
}

/// `name` is the name of a declaration of `apis` that `allowlist` holds.
pub open spec fn is_root<T>(apis: Seq<Api<T>>, allowlist: Set<Seq<char>>, name: Seq<char>) -> bool {
    exists|i: int|
        0 <= i < apis.len() && allowlist.contains((#[trigger] apis[i]).allowlist_name@)
            && apis[i].name@ == name
}

/// `name` can be reached within `apis`: a path leads to it from the name
/// of a declaration that `allowlist` holds.
pub open spec fn reachable<T>(
    apis: Seq<Api<T>>,
    allowlist: Set<Seq<char>>,
    name: Seq<char>,
) -> bool {
    exists|chain: Seq<Seq<char>>|
        #![trigger is_chain(apis, chain)]
        is_chain(apis, chain) && is_root(apis, allowlist, chain.first()) && chain.last() == name
}

/// What the pass keeps of `apis` under `allowlist`.
pub open spec fn kept<T>(apis: Seq<Api<T>>, allowlist: Set<Seq<char>>) -> Seq<Api<T>> {
    sweep(apis, roots(apis, allowlist))
}

/// Every declaration goes either by `name` or by another name.
pub proof fn lemma_split_by_name<T>(apis: Seq<Api<T>>, name: Seq<char>)
    ensures
        named(apis, name).len() + not_named(apis, name).len() == apis.len(),
    decreases apis.len(),
{
    reveal(Seq::filter);
    if apis.len() != 0 {
        lemma_split_by_name(apis.drop_last(), name);
    }
}

} // verus!
