//! Numbers are carried as `serde_yaml::Number` and known to the engine by the
//! text that they print as.

use vstd::prelude::*;

verus! {

/// `serde_yaml::Number`, carried as it is: nothing of its inside is known
/// here.
#[verifier::external_type_specification]
#[verifier::external_body]
pub struct ExNumber(serde_yaml::Number);

/// The text of a number: what `Display` writes for a `serde_yaml::Number`.
pub uninterp spec fn number_text(n: serde_yaml::Number) -> Seq<char>;

/// `Clone::clone` of `serde_yaml::Number`: the copy is the same number.
pub assume_specification[ <serde_yaml::Number as std::clone::Clone>::clone ](
    n: &serde_yaml::Number,
) -> (r: serde_yaml::Number)
    ensures
        r == *n,
;

/// `ToString::to_string` of `serde_yaml::Number`, which goes through its
/// `Display`: the result is the number's text, and depends on the number alone.
#[verifier::external_body]
pub(crate) fn number_to_text(n: &serde_yaml::Number) -> (r: String)
    ensures
        r@ == number_text(*n),
{
    n.to_string()
}

} // verus!
