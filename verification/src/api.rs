//! The declarations that the pruning pass works on.

use vstd::prelude::*;

verus! {

/// The strings of `strings` as sequences of characters.
pub open spec fn names(strings: Seq<String>) -> Seq<Seq<char>> {
    strings.map_values(|s: String| s@)
}

/// A discovered declaration: a type, a function, a method, a field.
///
/// Several declarations may share one `name`; they are then kept or
/// dropped together. `deps` holds the names that this declaration needs,
/// in the order in which they were found. `analysis` belongs to the
/// passes around this one and is never looked at here.
pub struct Api<T> {
    /// The name under which the declaration is grouped and found.
    pub name: String,
    /// The C++ name under which the allowlist is asked about it.
    pub allowlist_name: String,
    /// The names of the declarations this one depends on.
    pub deps: Vec<String>,
    /// Whatever the surrounding passes attach.
    pub analysis: T,
}

impl<T> Api<T> {
    /// The names this declaration depends on, in order.
    pub open spec fn spec_deps(&self) -> Seq<Seq<char>> {
        names(self.deps@)
    }

    /// A declaration made of the given parts.
    pub fn new(name: String, allowlist_name: String, deps: Vec<String>, analysis: T) -> (api: Self)
        ensures
            api.name == name,
            api.allowlist_name == allowlist_name,
            api.deps == deps,
            api.analysis == analysis,
    {
        Api { name, allowlist_name, deps, analysis }
    }
}

} // verus!
