//! What a node is built from.

use crate::address::{copy_of, AddressT};
use crate::error::ErrorT;
use crate::packet::{Header, OpaquePacketWrapper, OutgoingMessage, RequestId, ResponseTo};
use bytes::Bytes;
use vstd::prelude::*;

verus! {

/// The types that a node is built from.
pub trait Config: Sized {
    /// The addresses of nodes.
    type Address: AddressT;

    /// What requests fail with.
    type Error: ErrorT;

    /// What a packet carries next to its header, before it is decoded.
    type EncodedData;

    /// The end of a connection that messages are sent into.
    type Sender;

    /// What waits for the response to a request.
    type Completion;

    /// A running request handler.
    type Task;

    /// The cleanup of a resource.
    type Cleanup;
}

/// How the headers of packets are made.
pub trait ConfigExt: Config {
    /// Addresses an encoded packet to the node that its header names.
    fn encode_outgoing(
        headers: &OpaquePacketWrapper<Self::Address>,
        message: Bytes,
    ) -> (r: OutgoingMessage<Self::Address>)
        ensures
            r.to == headers@.destination(),
            r.message == message,
    {
        let to = match headers {
            OpaquePacketWrapper::Response { request_origin, .. } => request_origin,
            OpaquePacketWrapper::Request { receiver, .. } => receiver,
        };
        OutgoingMessage { to: copy_of(to), message }
    }

    /// The header of a notification.
    fn encode_notification(sender: Self::Address, receiver: Self::Address, name: u16) -> (r:
        OpaquePacketWrapper<Self::Address>)
        ensures
            r@ == Header::notification(sender, receiver, name),
    {
        OpaquePacketWrapper::Request { sender, receiver, request: name, response: None }
    }

    /// The header of a response that carries an error.
    fn encode_error_response(
        rid: RequestId,
        me: Self::Address,
        request_origin: Self::Address,
        error: String,
    ) -> (r: OpaquePacketWrapper<Self::Address>)
        ensures
            r@ == Header::error_response(rid, me, request_origin, error@),
    {
        OpaquePacketWrapper::Response { rid, response_from: me, request_origin, error: Some(error) }
    }

    /// The header of a response that carries data.
    fn encode_response(rid: RequestId, me: Self::Address, request_origin: Self::Address) -> (r:
        OpaquePacketWrapper<Self::Address>)
        ensures
            r@ == Header::response(rid, me, request_origin),
    {
        OpaquePacketWrapper::Response { rid, response_from: me, request_origin, error: None }
    }

    /// The header of a request that waits for a response.
    fn encode_request(
        sender: Self::Address,
        receiver: Self::Address,
        rid: RequestId,
        name: u16,
    ) -> (r: OpaquePacketWrapper<Self::Address>)
        ensures
            r@ == Header::request(sender, receiver, rid, name),
    {
        OpaquePacketWrapper::Request {
            sender,
            receiver,
            request: name,
            response: Some(ResponseTo { rid }),
        }
    }
}

impl<C> ConfigExt for C where C: Config {

}

} // verus!
