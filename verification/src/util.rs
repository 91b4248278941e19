//! Sizes as people read them.

use vstd::prelude::*;

verus! {

/// The text that `indicatif::HumanBytes` displays for a number of bytes.
pub uninterp spec fn human_bytes_text(bytes: u64) -> Seq<char>;

/// Displays `indicatif::HumanBytes(bytes)`: the number with a binary prefix and
/// two decimals, or the plain number of bytes below 1024. The text depends on
/// the number alone; what it is for a given number is not stated.
#[verifier::external_body]
fn displayed_human_bytes(bytes: u64) -> (r: String)
    ensures
        r@ == human_bytes_text(bytes),
{
    indicatif::HumanBytes(bytes).to_string()
}

/// A number of bytes as shown to the user.
pub fn human_bytes(bytes: u64) -> (r: String)
    ensures
        r@ == human_bytes_text(bytes),
{
    displayed_human_bytes(bytes)
}

} // verus!
