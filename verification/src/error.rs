//! Why an operation on the store did not take place.

use vstd::prelude::*;

verus! {

#[derive(Debug, Clone, Copy, PartialEq, Eq, Structural)]
pub enum StoreError {
    /// A record with this key is already stored.
    DuplicateKey,
    /// No record with this key is stored.
    NotFound,
    /// The durable storage did not complete a read or a commit.
    TransactionFailure,
}

} // verus!
