//! The pruning pass itself.

use crate::allowlist::allowlist_names;
use crate::api::{names, Api};
use crate::facts::{lemma_edges_push, lemma_named_after_leave};
use crate::index::Index;
use crate::laws::kept_is_what_is_reachable;
use crate::reach::{
    chosen_names, edges, kept, lemma_split_by_name, listed, named, not_named, reachable, sweep,
};
use autocxx_parser::TypeConfig;
use vstd::hash_set::StringHashSet;
use vstd::prelude::*;

verus! {

/// Asks the allowlist about every declaration, in order.
pub fn on_allowlist<T>(apis: &Vec<Api<T>>, type_config: &TypeConfig) -> (answers: Vec<bool>)
    ensures
        answers@ == listed(apis@, allowlist_names(*type_config)),
{
    let mut answers: Vec<bool> = Vec::new();
    let mut i: usize = 0;
    while i < apis.len()
        invariant
            i <= apis.len(),
            answers@ == listed(apis@.take(i as int), allowlist_names(*type_config)),
        decreases apis.len() - i,
    {
        let answer = type_config.is_on_allowlist(apis[i].allowlist_name.as_str());
        answers.push(answer);
        i += 1;
    }
    assert(apis@.take(i as int) == apis@);
    answers
}

/// The names of the chosen declarations, in order: the names from which
/// the traversal starts.
fn start_names<T>(apis: &Vec<Api<T>>, chosen: &Vec<bool>) -> (todos: Vec<String>)
    ensures
        names(todos@) == chosen_names(apis@, chosen@),
{
    let mut todos: Vec<String> = Vec::new();
    let mut i: usize = 0;
    while i < apis.len()
        invariant
            i <= apis.len(),
            names(todos@) == chosen_names(apis@.take(i as int), chosen@),
        decreases apis.len() - i,
    {
        proof {
            assert(apis@.take(i + 1).drop_last() == apis@.take(i as int));
        }
        if i < chosen.len() && chosen[i] {
            todos.push(apis[i].name.clone());
        }
        i += 1;
    }
    assert(apis@.take(i as int) == apis@);
    todos
}

/// Groups the declarations by name, keeping their order.
fn group_by_name<T>(apis: Vec<Api<T>>) -> (by_name: Index<T>)
    ensures
        by_name.wf(),
        by_name.pending() == apis@,
{
    let mut by_name: Index<T> = Index::new();
    let ghost all = apis@;
    for api in it: apis
        invariant
            it.seq() == all,
            by_name.wf(),
            by_name.pending() == all.take(it.index() as int),
    {
        proof {
            assert(all.take(it.index() + 1) == all.take(it.index() as int).push(api));
        }
        by_name.add(api);
    }
    assert(all.take(all.len() as int) == all);
    by_name
}

/// Puts the names that the declarations of `group` depend on behind
/// `todos`, declaration by declaration.
fn enqueue_deps<T>(todos: &mut Vec<String>, group: &Vec<Api<T>>)
    ensures
        names(final(todos)@) == names(old(todos)@) + edges(group@),
{
    let ghost before = names(todos@);
    let mut i: usize = 0;
    while i < group.len()
        invariant
            i <= group.len(),
            names(todos@) == before + edges(group@.take(i as int)),
        decreases group.len() - i,
    {
        let deps = &group[i].deps;
        let ghost so_far = names(todos@);
        let mut j: usize = 0;
        while j < deps.len()
            invariant
                j <= deps.len(),
                names(todos@) == so_far + names(deps@.take(j as int)),
            decreases deps.len() - j,
        {
            proof {
                assert(deps@.take(j + 1) == deps@.take(j as int).push(deps@[j as int]));
                assert(names(deps@.take(j + 1)) == names(deps@.take(j as int)).push(
                    deps@[j as int]@,
                ));
            }
            todos.push(deps[j].clone());
            assert(names(todos@) == (so_far + names(deps@.take(j as int))).push(deps@[j as int]@));
            j += 1;
        }
        proof {
            assert(deps@.take(j as int) == deps@);
            assert(group@.take(i + 1) == group@.take(i as int).push(group@[i as int]));
            lemma_edges_push(group@.take(i as int), group@[i as int]);
            assert(before + edges(group@.take(i as int)) + names(deps@) == before + (edges(
                group@.take(i as int),
            ) + names(deps@)));
        }
        i += 1;
    }
    assert(group@.take(i as int) == group@);
}

/// Keeps the declarations that can be reached from the chosen ones.
///
/// The traversal starts from the names of the declarations at whose
/// place `chosen` holds `true`. Whenever it comes to a name for the first
/// time, all declarations of that name are kept, in their order, and the
/// names they depend on are visited later, in the order in which they
/// were met. A name that no declaration goes by is passed over.
pub fn filter_apis_by_following_edges<T>(apis: Vec<Api<T>>, chosen: &Vec<bool>) -> (output: Vec<
    Api<T>,
>)
    ensures
        output@ == sweep(apis@, chosen_names(apis@, chosen@)),
{
    let ghost all = apis@;
    let ghost start = chosen_names(apis@, chosen@);
    let mut todos = start_names(&apis, chosen);
    let mut by_name = group_by_name(apis);
    let mut done = StringHashSet::new();
    let mut output: Vec<Api<T>> = Vec::new();
    while !todos.is_empty()
        invariant
            by_name.wf(),
            forall|name: Seq<char>|
                done@.contains(name) ==> (#[trigger] named(by_name.pending(), name)).len() == 0,
            output@ + sweep(by_name.pending(), names(todos@)) == sweep(all, start),
        decreases by_name.pending().len(), todos.len(),
    {
        let ghost pending = by_name.pending();
        let ghost queue = names(todos@);
        let ghost kept_so_far = output@;
        let todo = todos.remove(0);
        assert(names(todos@) == queue.drop_first());
        if !done.contains(todo.as_str()) {
            if let Some(mut these_apis) = by_name.take(todo.as_str()) {
                let ghost found = these_apis@;
                enqueue_deps(&mut todos, &these_apis);
                output.append(&mut these_apis);
                proof {
                    lemma_split_by_name(pending, todo@);
                    assert forall|name: Seq<char>| done@.contains(name) implies (#[trigger] named(
                        by_name.pending(),
                        name,
                    )).len() == 0 by {
                        lemma_named_after_leave(pending, todo@, name);
                    }
                    lemma_named_after_leave(pending, todo@, todo@);
                    let rest = sweep(not_named(pending, todo@), queue.drop_first() + edges(found));
                    assert(kept_so_far + (found + rest) == (kept_so_far + found) + rest);
                }
            }
            done.insert(todo);
        }
    }
    output
}

/// Keeps the declarations that can be reached from those on the
/// allowlist of `type_config`, and drops the others.
///
/// Of every name that can be reached, all declarations are kept,
/// unchanged and in their order; of every other name, none. The groups
/// come out in the order in which the traversal first meets their names.
pub fn filter_apis_by_following_edges_from_allowlist<T>(
    apis: Vec<Api<T>>,
    type_config: &TypeConfig,
) -> (output: Vec<Api<T>>)
    ensures
        output@ == kept(apis@, allowlist_names(*type_config)),
        forall|name: Seq<char>|
            #![trigger named(output@, name)]
            named(output@, name) == if reachable(apis@, allowlist_names(*type_config), name) {
                named(apis@, name)
            } else {
                Seq::<Api<T>>::empty()
            },
{
    let ghost all = apis@;
    let answers = on_allowlist(&apis, type_config);
    let output = filter_apis_by_following_edges(apis, &answers);
    proof {
        assert forall|name: Seq<char>|
            #![trigger named(output@, name)]
            named(output@, name) == if reachable(all, allowlist_names(*type_config), name) {
                named(all, name)
            } else {
                Seq::<Api<T>>::empty()
            } by {
            kept_is_what_is_reachable(all, allowlist_names(*type_config), name);
        }
    }
    output
}

} // verus!
