use vstd::prelude::*;

use trust_dns_proto::rr::domain::Name;

verus! {

/// A domain name of trust-dns, carried through as it is.
#[verifier::external_type_specification]
#[verifier::external_body]
pub struct ExName(Name);

/// Relies on trust-dns's `Name::to_ascii`: the labels joined by dots, each
/// byte either a safe ASCII character or escaped with a backslash (`\040`
/// for a space), so every character is printable ASCII, never white space.
pub assume_specification[ Name::to_ascii ](name: &Name) -> (r: String)
    ensures
        forall|i: int| 0 <= i < r@.len() ==> printable_ascii(#[trigger] r@[i]),
;

/// A printable ASCII character: `!` to `~`.
pub open spec fn printable_ascii(c: char) -> bool {
    0x21 <= c as u32 && c as u32 <= 0x7E
}

} // verus!
