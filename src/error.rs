//! The errors a query can end in.
use vstd::prelude::*;

verus! {

/// Every failure aborts the query; none is recovered within it.
#[derive(Clone, Copy, Debug, PartialEq, Eq, Structural)]
pub enum Error {
    /// An input value lies outside its field.
    UnknownField,
    /// A peer's message is missing or malformed, or a record id was used twice.
    ProtocolFailure,
    /// The query's configuration is outside the supported set.
    ConfigInvalid,
    /// The input rows are not grouped by user as the histogram says.
    InputInvariantViolated,
}

} // verus!
