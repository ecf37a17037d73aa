//! The notifications by which nodes keep their routes, requests and resources in step.

use crate::notification::Notification;
use crate::resource::ResourceId;
use crate::route::Rtt;
use crate::packet::RequestId;
use vstd::prelude::*;

verus! {

/// The name of [`AddForwarded`].
pub const ADD_FORWARDED: u16 = 0x0000;

/// The name of [`RemoveForwarded`].
pub const REMOVE_FORWARDED: u16 = 0x0001;

/// The name of [`CancelRequest`].
pub const CANCEL_REQUEST: u16 = 0x0002;

/// The name of [`ResourceDropped`].
pub const RESOURCE_DROPPED: u16 = 0x0003;

/// The sender can forward messages to a node, at the given round-trip time.
pub struct AddForwarded<Address> {
    pub to: Address,
    pub rtt: Rtt,
}

/// The sender can no longer forward messages to a node.
pub struct RemoveForwarded<Address> {
    pub to: Address,
}

/// The sender no longer waits for the response to a request.
pub struct CancelRequest {
    pub rid: RequestId,
}

/// The sender dropped its handle to a resource of the receiver.
pub struct ResourceDropped {
    pub id: ResourceId,
}

/// What a packet of the link itself carries.
pub enum Body<Address> {
    /// Nothing, as the answer to a refused request.
    Unit,
    AddForwarded(AddForwarded<Address>),
    RemoveForwarded(RemoveForwarded<Address>),
    CancelRequest(CancelRequest),
    ResourceDropped(ResourceDropped),
}

impl<Address> Body<Address> {
    /// The name of the notification, where this is one.
    pub open spec fn spec_name(self) -> u16 {
        match self {
            Body::Unit => 0,
            Body::AddForwarded(_) => ADD_FORWARDED,
            Body::RemoveForwarded(_) => REMOVE_FORWARDED,
            Body::CancelRequest(_) => CANCEL_REQUEST,
            Body::ResourceDropped(_) => RESOURCE_DROPPED,
        }
    }

    /// The name of the notification, where this is one.
    pub fn name(&self) -> (r: u16)
        ensures
            r == self.spec_name(),
    {
        match self {
            Body::Unit => 0,
            Body::AddForwarded(_) => AddForwarded::<Address>::name(),
            Body::RemoveForwarded(_) => RemoveForwarded::<Address>::name(),
            Body::CancelRequest(_) => CancelRequest::name(),
            Body::ResourceDropped(_) => ResourceDropped::name(),
        }
    }
}

/// Notifications of the link itself that have one name are of one kind.
pub proof fn names_tell_kinds_apart<Address>(a: Body<Address>, b: Body<Address>)
    requires
        a !is Unit,
        b !is Unit,
        a.spec_name() == b.spec_name(),
    ensures
        a is AddForwarded <==> b is AddForwarded,
        a is RemoveForwarded <==> b is RemoveForwarded,
        a is CancelRequest <==> b is CancelRequest,
        a is ResourceDropped <==> b is ResourceDropped,
{
}

impl<Address> Notification for AddForwarded<Address> {
    fn name() -> (r: u16)
        ensures
            r == ADD_FORWARDED,
    {
        ADD_FORWARDED
    }
}

impl<Address> Notification for RemoveForwarded<Address> {
    fn name() -> (r: u16)
        ensures
            r == REMOVE_FORWARDED,
    {
        REMOVE_FORWARDED
    }
}

impl Notification for CancelRequest {
    fn name() -> (r: u16)
        ensures
            r == CANCEL_REQUEST,
    {
        CANCEL_REQUEST
    }
}

impl Notification for ResourceDropped {
    fn name() -> (r: u16)
        ensures
            r == RESOURCE_DROPPED,
    {
        RESOURCE_DROPPED
    }
}

} // verus!
