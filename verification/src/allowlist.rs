//! The allowlist that the user's configuration carries.

use autocxx_parser::TypeConfig;
use vstd::prelude::*;

verus! {

/// `autocxx_parser::TypeConfig`, the part of the user's configuration
/// that speaks of types and functions by name. Nothing inside it is
/// visible here; it is only handed on.
#[verifier::external_type_specification]
#[verifier::external_body]
pub struct ExTypeConfig(TypeConfig);

/// The entries of a configuration's allowlist, each as a sequence of
/// characters. The configuration keeps them as a list of strings.
pub uninterp spec fn allowlist_names(config: TypeConfig) -> Set<Seq<char>>;

/// `TypeConfig::is_on_allowlist` is believed, not proved, to answer
/// whether the given C++ name equals one of the entries of the
/// configuration's allowlist, character by character. It looks at
/// nothing else, changes nothing and answers for every name.
pub assume_specification[ TypeConfig::is_on_allowlist ](
    config: &TypeConfig,
    cpp_name: &str,
) -> (answer: bool)
    ensures
        answer == allowlist_names(*config).contains(cpp_name@),
;

} // verus!
