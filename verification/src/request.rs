//! Requests: messages that want a response.

use vstd::prelude::*;

verus! {

/// A message that wants a response.
pub trait Request: Send + Sync + 'static {
    /// What a successful response carries.
    type Response;

    /// The number by which the receiver finds the handler.
    fn name() -> u16;
}

/// A request that can be received.
pub trait IncomingRequest: Request {

}

impl<T> IncomingRequest for T where T: Request {

}

/// A request that can be sent.
pub trait OutgoingRequest: Request {

}

impl<T> OutgoingRequest for T where T: Request {

}

} // verus!
