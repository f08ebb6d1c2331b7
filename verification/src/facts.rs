//! Plain facts about groups, edges and starting names, on which the
//! proofs about the traversal rest.

use crate::api::Api;
use crate::reach::{
    chosen_names, edges, has_name, is_chosen, is_root, linked, listed, named, not_named, roots,
};
use vstd::prelude::*;

verus! {

/// The group of `name` holds the declarations of that name and no others.
pub proof fn lemma_named_members<T>(apis: Seq<Api<T>>, name: Seq<char>)
    ensures
        forall|j: int|
            0 <= j < named(apis, name).len() ==> (#[trigger] named(apis, name)[j]).name@ == name
                && apis.contains(named(apis, name)[j]),
        forall|i: int|
            0 <= i < apis.len() && (#[trigger] apis[i]).name@ == name ==> named(
                apis,
                name,
            ).contains(apis[i]),
        forall|j: int|
            0 <= j < not_named(apis, name).len() ==> (#[trigger] not_named(apis, name)[j]).name@
                != name && apis.contains(not_named(apis, name)[j]),
        forall|i: int|
            0 <= i < apis.len() && (#[trigger] apis[i]).name@ != name ==> not_named(
                apis,
                name,
            ).contains(apis[i]),
        has_name(apis, name) <==> named(apis, name).len() > 0,
    decreases apis.len(),
{
    reveal(Seq::filter);
    if apis.len() != 0 {
        let front = apis.drop_last();
        let last = apis.last();
        lemma_named_members(front, name);
        let group = named(apis, name);
        let others = not_named(apis, name);
        assert forall|j: int| 0 <= j < group.len() implies (#[trigger] group[j]).name@ == name
            && apis.contains(group[j]) by {
            if j < named(front, name).len() {
                let at = choose|at: int|
                    0 <= at < front.len() && front[at] == named(front, name)[j];
                assert(apis[at] == group[j]);
            } else {
                assert(apis[apis.len() - 1] == group[j]);
            }
        }
        assert forall|j: int| 0 <= j < others.len() implies (#[trigger] others[j]).name@ != name
            && apis.contains(others[j]) by {
            if j < not_named(front, name).len() {
                let at = choose|at: int|
                    0 <= at < front.len() && front[at] == not_named(front, name)[j];
                assert(apis[at] == others[j]);
            } else {
                assert(apis[apis.len() - 1] == others[j]);
            }
        }
        assert forall|i: int|
            0 <= i < apis.len() && (#[trigger] apis[i]).name@ == name implies group.contains(
            apis[i],
        ) by {
            if i < front.len() {
                assert(front[i] == apis[i]);
                let at = choose|at: int|
                    0 <= at < named(front, name).len() && named(front, name)[at] == front[i];
                assert(group[at] == apis[i]);
            } else {
                assert(group[group.len() - 1] == apis[i]);
            }
        }
        assert forall|i: int|
            0 <= i < apis.len() && (#[trigger] apis[i]).name@ != name implies others.contains(
            apis[i],
        ) by {
            if i < front.len() {
                assert(front[i] == apis[i]);
                let at = choose|at: int|
                    0 <= at < not_named(front, name).len() && not_named(front, name)[at]
                        == front[i];
                assert(others[at] == apis[i]);
            } else {
                assert(others[others.len() - 1] == apis[i]);
            }
        }
        if has_name(apis, name) {
            let i = choose|i: int| 0 <= i < apis.len() && (#[trigger] apis[i]).name@ == name;
            assert(group.contains(apis[i]));
        }
        if group.len() > 0 {
            assert(group[0].name@ == name);
            let at = choose|at: int| 0 <= at < apis.len() && apis[at] == group[0];
            assert(apis[at].name@ == name);
        }
    }
}

/// A sequence in which no declaration goes by `name` has an empty group
/// of that name, and loses nothing when that group leaves.
pub proof fn lemma_named_absent<T>(apis: Seq<Api<T>>, name: Seq<char>)
    requires
        !has_name(apis, name),
    ensures
        named(apis, name) == Seq::<Api<T>>::empty(),
        not_named(apis, name) == apis,
    decreases apis.len(),
{
    reveal(Seq::filter);
    if apis.len() != 0 {
        let front = apis.drop_last();
        assert(apis[apis.len() - 1].name@ != name);
        assert forall|i: int| 0 <= i < front.len() implies (#[trigger] front[i]).name@ != name by {
            assert(apis[i] == front[i]);
        }
        lemma_named_absent(front, name);
        assert(front.push(apis.last()) == apis);
    }
}

/// Adding a declaration at the end adds it to the group of its name and
/// to no other.
pub proof fn lemma_named_push<T>(apis: Seq<Api<T>>, api: Api<T>, name: Seq<char>)
    ensures
        named(apis.push(api), name) == if api.name@ == name {
            named(apis, name).push(api)
        } else {
            named(apis, name)
        },
        not_named(apis.push(api), name) == if api.name@ != name {
            not_named(apis, name).push(api)
        } else {
            not_named(apis, name)
        },
{
    reveal(Seq::filter);
    assert(apis.push(api).drop_last() == apis);
}

/// The group of a name within two sequences put together is its group
/// within the first, then its group within the second.
pub proof fn lemma_named_add<T>(a: Seq<Api<T>>, b: Seq<Api<T>>, name: Seq<char>)
    ensures
        named(a + b, name) == named(a, name) + named(b, name),
        not_named(a + b, name) == not_named(a, name) + not_named(b, name),
{
    Seq::filter_distributes_over_add(a, b, |api: Api<T>| api.name@ == name);
    Seq::filter_distributes_over_add(a, b, |api: Api<T>| api.name@ != name);
}

/// Within the group of `group_name`, the group of that name is the whole
/// and the group of any other name is empty.
pub proof fn lemma_named_of_group<T>(apis: Seq<Api<T>>, group_name: Seq<char>, name: Seq<char>)
    ensures
        named(named(apis, group_name), name) == if name == group_name {
            named(apis, group_name)
        } else {
            Seq::<Api<T>>::empty()
        },
        not_named(named(apis, group_name), group_name) == Seq::<Api<T>>::empty(),
    decreases apis.len(),
{
    reveal(Seq::filter);
    if apis.len() != 0 {
        let front = apis.drop_last();
        let last = apis.last();
        assert(front.push(last) == apis);
        lemma_named_of_group(front, group_name, name);
        lemma_named_push(front, last, group_name);
        if last.name@ == group_name {
            lemma_named_push(named(front, group_name), last, name);
            lemma_named_push(named(front, group_name), last, group_name);
        }
    }
}

/// When the group of `gone` has left, the groups of the other names are
/// what they were, and the group of `gone` is empty.
pub proof fn lemma_named_after_leave<T>(apis: Seq<Api<T>>, gone: Seq<char>, name: Seq<char>)
    ensures
        named(not_named(apis, gone), name) == if name == gone {
            Seq::<Api<T>>::empty()
        } else {
            named(apis, name)
        },
    decreases apis.len(),
{
    reveal(Seq::filter);
    if apis.len() != 0 {
        let front = apis.drop_last();
        let last = apis.last();
        assert(front.push(last) == apis);
        lemma_named_after_leave(front, gone, name);
        lemma_named_push(front, last, gone);
        lemma_named_push(front, last, name);
        if last.name@ != gone {
            lemma_named_push(not_named(front, gone), last, name);
        }
    }
}

/// A name occurs in two sequences put together exactly if it occurs in
/// one of them, and so does a link.
pub proof fn lemma_has_name_add<T>(a: Seq<Api<T>>, b: Seq<Api<T>>)
    ensures
        forall|name: Seq<char>|
            #[trigger] has_name(a + b, name) <==> has_name(a, name) || has_name(b, name),
        forall|from: Seq<char>, to: Seq<char>|
            linked(a, from, to) || linked(b, from, to) ==> #[trigger] linked(a + b, from, to),
{
    let both = a + b;
    assert forall|name: Seq<char>| #[trigger]
        has_name(a + b, name) <==> has_name(a, name) || has_name(b, name) by {
        if has_name(a, name) {
            let i = choose|i: int| 0 <= i < a.len() && (#[trigger] a[i]).name@ == name;
            assert(both[i] == a[i]);
        }
        if has_name(b, name) {
            let i = choose|i: int| 0 <= i < b.len() && (#[trigger] b[i]).name@ == name;
            assert(both[a.len() + i] == b[i]);
        }
        if has_name(both, name) {
            let i = choose|i: int| 0 <= i < both.len() && (#[trigger] both[i]).name@ == name;
            if i < a.len() {
                assert(a[i] == both[i]);
            } else {
                assert(b[i - a.len()] == both[i]);
            }
        }
    }
    assert forall|from: Seq<char>, to: Seq<char>|
        linked(a, from, to) || linked(b, from, to) implies #[trigger] linked(a + b, from, to) by {
        if linked(a, from, to) {
            let i = choose|i: int|
                0 <= i < a.len() && (#[trigger] a[i]).name@ == from && a[i].spec_deps().contains(
                    to,
                );
            assert(both[i] == a[i]);
        } else {
            let i = choose|i: int|
                0 <= i < b.len() && (#[trigger] b[i]).name@ == from && b[i].spec_deps().contains(
                    to,
                );
            assert(both[a.len() + i] == b[i]);
        }
    }
}

/// The names that a sequence with one more declaration depends on are
/// those of the sequence, then those of the added declaration.
pub proof fn lemma_edges_push<T>(apis: Seq<Api<T>>, last: Api<T>)
    ensures
        edges(apis.push(last)) == edges(apis) + last.spec_deps(),
{
    let per_api = |api: Api<T>| api.spec_deps();
    assert(apis.push(last).map_values(per_api) == apis.map_values(per_api).push(last.spec_deps()));
    apis.map_values(per_api).lemma_flatten_push(last.spec_deps());
}

/// The names that two sequences put together depend on are those of the
/// first, then those of the second.
pub proof fn lemma_edges_add<T>(a: Seq<Api<T>>, b: Seq<Api<T>>)
    ensures
        edges(a + b) == edges(a) + edges(b),
    decreases b.len(),
{
    if b.len() == 0 {
        assert(a + b == a);
        assert(edges(b) == Seq::<Seq<char>>::empty());
    } else {
        let front = b.drop_last();
        let last = b.last();
        assert(front.push(last) == b);
        assert((a + front).push(last) == a + b);
        lemma_edges_add(a, front);
        lemma_edges_push(a + front, last);
        lemma_edges_push(front, last);
    }
}

/// A name is among the names that a sequence depends on exactly if one
/// of its declarations depends on it.
pub proof fn lemma_edges_members<T>(apis: Seq<Api<T>>, name: Seq<char>)
    ensures
        edges(apis).contains(name) <==> exists|i: int|
            0 <= i < apis.len() && (#[trigger] apis[i]).spec_deps().contains(name),
    decreases apis.len(),
{
    if apis.len() == 0 {
        assert(edges(apis) == Seq::<Seq<char>>::empty());
    } else {
        let front = apis.drop_last();
        let last = apis.last();
        assert(front.push(last) == apis);
        lemma_edges_push(front, last);
        lemma_edges_members(front, name);
        let all = edges(front) + last.spec_deps();
        if edges(apis).contains(name) {
            let at = choose|at: int| 0 <= at < all.len() && all[at] == name;
            if at < edges(front).len() {
                assert(edges(front)[at] == name);
                let i = choose|i: int|
                    0 <= i < front.len() && (#[trigger] front[i]).spec_deps().contains(name);
                assert(apis[i] == front[i]);
            } else {
                assert(last.spec_deps()[at - edges(front).len()] == name);
                assert(apis[apis.len() - 1].spec_deps().contains(name));
            }
        }
        if exists|i: int| 0 <= i < apis.len() && (#[trigger] apis[i]).spec_deps().contains(name) {
            let i = choose|i: int|
                0 <= i < apis.len() && (#[trigger] apis[i]).spec_deps().contains(name);
            if i < front.len() {
                assert(front[i] == apis[i]);
                let at = choose|at: int| 0 <= at < edges(front).len() && edges(front)[at] == name;
                assert(all[at] == name);
            } else {
                let at = choose|at: int|
                    0 <= at < last.spec_deps().len() && last.spec_deps()[at] == name;
                assert(all[edges(front).len() + at] == name);
            }
        }
    }
}

/// The traversal starts from a name exactly if a chosen declaration
/// goes by it.
pub proof fn lemma_chosen_names_members<T>(apis: Seq<Api<T>>, chosen: Seq<bool>, name: Seq<char>)
    ensures
        chosen_names(apis, chosen).contains(name) <==> exists|i: int|
            0 <= i < apis.len() && is_chosen(chosen, i) && (#[trigger] apis[i]).name@ == name,
    decreases apis.len(),
{
    if apis.len() != 0 {
        let front = apis.drop_last();
        let last = apis.len() - 1;
        let before = chosen_names(front, chosen);
        let all = chosen_names(apis, chosen);
        lemma_chosen_names_members(front, chosen, name);
        if all.contains(name) {
            let at = choose|at: int| 0 <= at < all.len() && all[at] == name;
            if at < before.len() {
                assert(before[at] == name);
                let i = choose|i: int|
                    0 <= i < front.len() && is_chosen(chosen, i) && (#[trigger] front[i]).name@
                        == name;
                assert(apis[i] == front[i]);
            } else {
                assert(apis[last].name@ == name);
            }
        }
        if exists|i: int|
            0 <= i < apis.len() && is_chosen(chosen, i) && (#[trigger] apis[i]).name@ == name {
            let i = choose|i: int|
                0 <= i < apis.len() && is_chosen(chosen, i) && (#[trigger] apis[i]).name@ == name;
            if i < last {
                assert(front[i] == apis[i]);
                let at = choose|at: int| 0 <= at < before.len() && before[at] == name;
                assert(all[at] == name);
            } else {
                assert(all[all.len() - 1] == name);
            }
        }
    } else {
        assert(chosen_names(apis, chosen) == Seq::<Seq<char>>::empty());
    }
}

/// Only the choices made for the declarations at hand matter.
pub proof fn lemma_chosen_names_agree<T>(apis: Seq<Api<T>>, chosen: Seq<bool>, other: Seq<bool>)
    requires
        forall|i: int|
            0 <= i < apis.len() ==> (#[trigger] is_chosen(chosen, i) <==> is_chosen(other, i)),
    ensures
        chosen_names(apis, chosen) == chosen_names(apis, other),
    decreases apis.len(),
{
    if apis.len() != 0 {
        let last = apis.len() - 1;
        assert(is_chosen(chosen, last) <==> is_chosen(other, last));
        lemma_chosen_names_agree(apis.drop_last(), chosen, other);
    }
}

/// The traversal under an allowlist starts from the names of the
/// declarations that the allowlist holds, and from no others.
pub proof fn lemma_roots_members<T>(apis: Seq<Api<T>>, allowlist: Set<Seq<char>>, name: Seq<char>)
    ensures
        roots(apis, allowlist).contains(name) <==> is_root(apis, allowlist, name),
{
    lemma_chosen_names_members(apis, listed(apis, allowlist), name);
    let flags = listed(apis, allowlist);
    if is_root(apis, allowlist, name) {
        let i = choose|i: int|
            0 <= i < apis.len() && allowlist.contains((#[trigger] apis[i]).allowlist_name@)
                && apis[i].name@ == name;
        assert(is_chosen(flags, i));
    }
    if roots(apis, allowlist).contains(name) {
        let i = choose|i: int|
            0 <= i < apis.len() && is_chosen(flags, i) && (#[trigger] apis[i]).name@ == name;
        assert(allowlist.contains(apis[i].allowlist_name@));
    }
}

/// The traversal of a sequence with one more declaration starts from
/// one more name if the allowlist holds the added declaration.
pub proof fn lemma_roots_push<T>(apis: Seq<Api<T>>, last: Api<T>, allowlist: Set<Seq<char>>)
    ensures
        roots(apis.push(last), allowlist) == if allowlist.contains(last.allowlist_name@) {
            roots(apis, allowlist).push(last.name@)
        } else {
            roots(apis, allowlist)
        },
{
    let longer = apis.push(last);
    assert(longer.drop_last() == apis);
    let flags = listed(longer, allowlist);
    assert forall|i: int| 0 <= i < apis.len() implies (#[trigger] is_chosen(flags, i)
        <==> is_chosen(listed(apis, allowlist), i)) by {
        assert(longer[i] == apis[i]);
    }
    lemma_chosen_names_agree(apis, flags, listed(apis, allowlist));
    assert(flags[longer.len() - 1] == allowlist.contains(last.allowlist_name@));
}

/// The traversal of two sequences put together starts from the names
/// for the first, then from those for the second.
pub proof fn lemma_roots_add<T>(a: Seq<Api<T>>, b: Seq<Api<T>>, allowlist: Set<Seq<char>>)
    ensures
        roots(a + b, allowlist) == roots(a, allowlist) + roots(b, allowlist),
    decreases b.len(),
{
    if b.len() == 0 {
        assert(a + b == a);
        assert(roots(b, allowlist) == Seq::<Seq<char>>::empty());
    } else {
        let front = b.drop_last();
        let last = b.last();
        assert(front.push(last) == b);
        assert((a + front).push(last) == a + b);
        lemma_roots_add(a, front, allowlist);
        lemma_roots_push(a + front, last, allowlist);
        lemma_roots_push(front, last, allowlist);
    }
}

/// Where the allowlist holds no declaration, the traversal starts
/// from nothing.
pub proof fn lemma_roots_none<T>(apis: Seq<Api<T>>, allowlist: Set<Seq<char>>)
    requires
        forall|i: int|
            0 <= i < apis.len() ==> !allowlist.contains((#[trigger] apis[i]).allowlist_name@),
    ensures
        roots(apis, allowlist) == Seq::<Seq<char>>::empty(),
{
    let start = roots(apis, allowlist);
    if start.len() > 0 {
        assert(start.contains(start[0]));
        lemma_roots_members(apis, allowlist, start[0]);
    }
}

} // verus!
