//! The errors that a request can end with.

use vstd::prelude::*;

verus! {

/// The text of the error that a peer answered a request with.
#[derive(Debug)]
pub struct ResponseError(pub String);

/// Nobody is left to answer the request.
#[derive(Debug)]
pub struct ListenerForYourRequestHasBeenDeadError;

/// An error of `serde_json`. It is only ever carried.
#[verifier::external_type_specification]
#[verifier::external_body]
pub struct ExJsonError(serde_json::Error);

/// The error type of a node.
///
/// It can be made from every error that a request can end with, and can be turned into the text
/// that a peer is answered with.
pub trait ErrorT:
    Send
    + Sync
    + 'static
    + From<ResponseError>
    + Into<ResponseError>
    + From<serde_json::Error>
    + From<ListenerForYourRequestHasBeenDeadError> {

}

} // verus!
