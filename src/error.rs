use vstd::prelude::*;

verus! {

/// Why a rule list could not be compiled or a name could not be classified.
#[derive(Debug, Clone, Copy, PartialEq, Eq, Structural)]
pub enum Error {
    /// The rule text holds no rule at all.
    EmptyList,
    /// A rule has an empty label.
    InvalidRule,
    /// The name is malformed: a leading dot, an empty label, or white space.
    InvalidInput,
}

} // verus!
