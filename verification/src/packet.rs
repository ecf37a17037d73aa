//! Packet headers: who sends what to whom.

use crate::internal_handlers::Body;
use bytes::Bytes;
use vstd::prelude::*;

verus! {

/// The number of a request, unique among the requests of one node to one peer.
#[derive(Clone, Copy, PartialEq, Eq, Structural, Debug, Hash)]
pub struct RequestId(pub usize);

/// Where the answer to a request goes.
#[derive(Clone, Copy, PartialEq, Eq, Structural, Debug)]
pub struct ResponseTo {
    pub rid: RequestId,
}

/// The header of a packet.
pub enum OpaquePacketWrapper<Address> {
    /// A request, or a notification, which is a request that wants no response.
    Request { sender: Address, receiver: Address, request: u16, response: Option<ResponseTo> },
    /// The answer to a request.
    Response {
        rid: RequestId,
        response_from: Address,
        request_origin: Address,
        error: Option<String>,
    },
}

/// What a header says, with the error as a sequence of characters.
pub enum Header<Address> {
    Request { sender: Address, receiver: Address, request: u16, response: Option<ResponseTo> },
    Response {
        rid: RequestId,
        response_from: Address,
        request_origin: Address,
        error: Option<Seq<char>>,
    },
}

impl<Address> View for OpaquePacketWrapper<Address> {
    type V = Header<Address>;

    open spec fn view(&self) -> Header<Address> {
        match *self {
            OpaquePacketWrapper::Request { sender, receiver, request, response } => Header::Request {
                sender,
                receiver,
                request,
                response,
            },
            OpaquePacketWrapper::Response { rid, response_from, request_origin, error } =>
                Header::Response {
                rid,
                response_from,
                request_origin,
                error: match error {
                    Some(e) => Some(e@),
                    None => None,
                },
            },
        }
    }
}

impl<Address> Header<Address> {
    /// The node that the packet is for.
    pub open spec fn destination(self) -> Address {
        match self {
            Header::Response { request_origin, .. } => request_origin,
            Header::Request { receiver, .. } => receiver,
        }
    }

    /// The header of a notification.
    pub open spec fn notification(sender: Address, receiver: Address, name: u16) -> Self {
        Header::Request { sender, receiver, request: name, response: None }
    }

    /// The header of a request that waits for a response.
    pub open spec fn request(
        sender: Address,
        receiver: Address,
        rid: RequestId,
        name: u16,
    ) -> Self {
        Header::Request { sender, receiver, request: name, response: Some(ResponseTo { rid }) }
    }

    /// The header of a response that carries data.
    pub open spec fn response(rid: RequestId, me: Address, request_origin: Address) -> Self {
        Header::Response { rid, response_from: me, request_origin, error: None }
    }

    /// The header of a response that carries an error.
    pub open spec fn error_response(
        rid: RequestId,
        me: Address,
        request_origin: Address,
        error: Seq<char>,
    ) -> Self {
        Header::Response { rid, response_from: me, request_origin, error: Some(error) }
    }
}

/// A message on its way out.
pub struct OutgoingMessage<Address> {
    pub to: Address,
    pub message: Bytes,
}

/// A packet of the link itself, before it is encoded.
pub struct Packet<Address> {
    pub headers: OpaquePacketWrapper<Address>,
    pub body: Body<Address>,
}

/// What a packet says.
pub struct PacketView<Address> {
    pub header: Header<Address>,
    pub body: Body<Address>,
}

impl<Address> View for Packet<Address> {
    type V = PacketView<Address>;

    open spec fn view(&self) -> PacketView<Address> {
        PacketView { header: self.headers@, body: self.body }
    }
}

} // verus!
