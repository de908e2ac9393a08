//! Classifies DNS names against a public suffix list: which trailing labels
//! are a registry-controlled suffix, which label above it can be registered,
//! and the root domain that the two make.

mod dns;
mod error;
mod laws;
mod list;
mod name;
mod text;

pub use error::Error;
pub use list::List;
pub use name::{DnsName, NameView};
