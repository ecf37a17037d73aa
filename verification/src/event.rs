//! What happens to a node.

use crate::packet::OutgoingMessage;
use crate::resource::RegisterResources;
use crate::route::{
    ConnectionAdded, ConnectionRemoved, MinRttUpdated, RouteChange, ViaListSeconded,
    ViaListUnseconded,
};
use bytes::Bytes;
use vstd::prelude::*;
use vstd::std_specs::convert::FromSpecImpl;

verus! {

/// A message came in over the connection to a peer.
pub struct ConnectionMessage<Address> {
    pub packet_source: Address,
    pub message: Bytes,
}

/// The connection to a peer ended.
pub struct ConnectionEnding<Address> {
    pub from: Address,
}

/// What happens to a node.
pub enum RootEvent<Address, Cleanup> {
    ConnectionMessage(ConnectionMessage<Address>),
    ConnectionEnding(ConnectionEnding<Address>),
    OutgoingMessage(OutgoingMessage<Address>),
    RegisterResources(RegisterResources<Address, Cleanup>),
    MinRttUpdated(MinRttUpdated<Address>),
    ViaListSeconded(ViaListSeconded<Address>),
    ViaListUnseconded(ViaListUnseconded<Address>),
    ConnectionAdded(ConnectionAdded<Address>),
    ConnectionRemoved(ConnectionRemoved<Address>),
}

impl<Address, Cleanup> From<ConnectionMessage<Address>> for RootEvent<Address, Cleanup> {
    fn from(v: ConnectionMessage<Address>) -> (r: Self) {
        RootEvent::ConnectionMessage(v)
    }
}

impl<Address, Cleanup> FromSpecImpl<ConnectionMessage<Address>> for RootEvent<Address, Cleanup> {
    open spec fn obeys_from_spec() -> bool {
        true
    }

    open spec fn from_spec(v: ConnectionMessage<Address>) -> Self {
        RootEvent::ConnectionMessage(v)
    }
}

impl<Address, Cleanup> From<ConnectionEnding<Address>> for RootEvent<Address, Cleanup> {
    fn from(v: ConnectionEnding<Address>) -> (r: Self) {
        RootEvent::ConnectionEnding(v)
    }
}

impl<Address, Cleanup> FromSpecImpl<ConnectionEnding<Address>> for RootEvent<Address, Cleanup> {
    open spec fn obeys_from_spec() -> bool {
        true
    }

    open spec fn from_spec(v: ConnectionEnding<Address>) -> Self {
        RootEvent::ConnectionEnding(v)
    }
}

impl<Address, Cleanup> From<OutgoingMessage<Address>> for RootEvent<Address, Cleanup> {
    fn from(v: OutgoingMessage<Address>) -> (r: Self) {
        RootEvent::OutgoingMessage(v)
    }
}

impl<Address, Cleanup> FromSpecImpl<OutgoingMessage<Address>> for RootEvent<Address, Cleanup> {
    open spec fn obeys_from_spec() -> bool {
        true
    }

    open spec fn from_spec(v: OutgoingMessage<Address>) -> Self {
        RootEvent::OutgoingMessage(v)
    }
}

impl<Address, Cleanup> From<RegisterResources<Address, Cleanup>> for RootEvent<Address, Cleanup> {
    fn from(v: RegisterResources<Address, Cleanup>) -> (r: Self) {
        RootEvent::RegisterResources(v)
    }
}

impl<Address, Cleanup> FromSpecImpl<RegisterResources<Address, Cleanup>> for RootEvent<Address, Cleanup> {
    open spec fn obeys_from_spec() -> bool {
        true
    }

    open spec fn from_spec(v: RegisterResources<Address, Cleanup>) -> Self {
        RootEvent::RegisterResources(v)
    }
}

impl<Address, Cleanup> From<MinRttUpdated<Address>> for RootEvent<Address, Cleanup> {
    fn from(v: MinRttUpdated<Address>) -> (r: Self) {
        RootEvent::MinRttUpdated(v)
    }
}

impl<Address, Cleanup> FromSpecImpl<MinRttUpdated<Address>> for RootEvent<Address, Cleanup> {
    open spec fn obeys_from_spec() -> bool {
        true
    }

    open spec fn from_spec(v: MinRttUpdated<Address>) -> Self {
        RootEvent::MinRttUpdated(v)
    }
}

impl<Address, Cleanup> From<ViaListSeconded<Address>> for RootEvent<Address, Cleanup> {
    fn from(v: ViaListSeconded<Address>) -> (r: Self) {
        RootEvent::ViaListSeconded(v)
    }
}

impl<Address, Cleanup> FromSpecImpl<ViaListSeconded<Address>> for RootEvent<Address, Cleanup> {
    open spec fn obeys_from_spec() -> bool {
        true
    }

    open spec fn from_spec(v: ViaListSeconded<Address>) -> Self {
        RootEvent::ViaListSeconded(v)
    }
}

impl<Address, Cleanup> From<ViaListUnseconded<Address>> for RootEvent<Address, Cleanup> {
    fn from(v: ViaListUnseconded<Address>) -> (r: Self) {
        RootEvent::ViaListUnseconded(v)
    }
}

impl<Address, Cleanup> FromSpecImpl<ViaListUnseconded<Address>> for RootEvent<Address, Cleanup> {
    open spec fn obeys_from_spec() -> bool {
        true
    }

    open spec fn from_spec(v: ViaListUnseconded<Address>) -> Self {
        RootEvent::ViaListUnseconded(v)
    }
}

impl<Address, Cleanup> From<ConnectionAdded<Address>> for RootEvent<Address, Cleanup> {
    fn from(v: ConnectionAdded<Address>) -> (r: Self) {
        RootEvent::ConnectionAdded(v)
    }
}

impl<Address, Cleanup> FromSpecImpl<ConnectionAdded<Address>> for RootEvent<Address, Cleanup> {
    open spec fn obeys_from_spec() -> bool {
        true
    }

    open spec fn from_spec(v: ConnectionAdded<Address>) -> Self {
        RootEvent::ConnectionAdded(v)
    }
}

impl<Address, Cleanup> From<ConnectionRemoved<Address>> for RootEvent<Address, Cleanup> {
    fn from(v: ConnectionRemoved<Address>) -> (r: Self) {
        RootEvent::ConnectionRemoved(v)
    }
}

impl<Address, Cleanup> FromSpecImpl<ConnectionRemoved<Address>> for RootEvent<Address, Cleanup> {
    open spec fn obeys_from_spec() -> bool {
        true
    }

    open spec fn from_spec(v: ConnectionRemoved<Address>) -> Self {
        RootEvent::ConnectionRemoved(v)
    }
}

impl<Address, Cleanup> From<RouteChange<Address>> for RootEvent<Address, Cleanup> {
    fn from(v: RouteChange<Address>) -> (r: Self) {
        match v {
            RouteChange::MinRttUpdated(v) => RootEvent::MinRttUpdated(v),
            RouteChange::ViaListSeconded(v) => RootEvent::ViaListSeconded(v),
            RouteChange::ViaListUnseconded(v) => RootEvent::ViaListUnseconded(v),
            RouteChange::ConnectionAdded(v) => RootEvent::ConnectionAdded(v),
            RouteChange::ConnectionRemoved(v) => RootEvent::ConnectionRemoved(v),
        }
    }
}

impl<Address, Cleanup> FromSpecImpl<RouteChange<Address>> for RootEvent<Address, Cleanup> {
    open spec fn obeys_from_spec() -> bool {
        true
    }

    open spec fn from_spec(v: RouteChange<Address>) -> Self {
        match v {
            RouteChange::MinRttUpdated(v) => RootEvent::MinRttUpdated(v),
            RouteChange::ViaListSeconded(v) => RootEvent::ViaListSeconded(v),
            RouteChange::ViaListUnseconded(v) => RootEvent::ViaListUnseconded(v),
            RouteChange::ConnectionAdded(v) => RootEvent::ConnectionAdded(v),
            RouteChange::ConnectionRemoved(v) => RootEvent::ConnectionRemoved(v),
        }
    }
}

} // verus!
