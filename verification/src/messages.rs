//! Plain request, response and error shapes used at the service boundary.
//! The HTTP layer mirrors these with its own serializable copies.

use vstd::prelude::*;

verus! {

/// An error reply carrying a human-readable description.
pub struct ErrorResponse {
    pub error: String,
}

/// A success reply carrying a human-readable message.
pub struct SuccessResponse {
    pub message: String,
}

/// The body of a request that submits a transfer to the mempool.
pub struct AddTransactionRequest {
    pub from_address: String,
    pub to_address: String,
    pub amount: u64,
}

/// A configuration or file-access failure, carrying the underlying cause.
pub struct ConfigError {
    pub message: String,
}

} // verus!
