use bifrostlink::config::{Config, ConfigExt};
use bifrostlink::error::{ErrorT, ListenerForYourRequestHasBeenDeadError, ResponseError};
use bifrostlink::event::{ConnectionEnding, RootEvent};
use bifrostlink::internal_handlers::{
    AddForwarded, Body, CancelRequest, RemoveForwarded, ResourceDropped,
};
use bifrostlink::notification::Notification;
use bifrostlink::packet::{OpaquePacketWrapper, OutgoingMessage, RequestId};
use bifrostlink::peers::{PeerTable, RequestIds};
use bifrostlink::request::Request;
use bifrostlink::resource::{RegisterResources, ResourceId};
use bifrostlink::route::{
    ConnectionAdded, ConnectionRemoved, MinRtt, MinRttUpdated, RouteChange, Rtt, Via,
    ViaListSeconded, ViaListUnseconded,
};
use bifrostlink::rpc::wait_for_connection_to;
use bytes::Bytes;

struct Failure;

impl From<ResponseError> for Failure {
    fn from(_: ResponseError) -> Self {
        Failure
    }
}

impl From<Failure> for ResponseError {
    fn from(_: Failure) -> Self {
        ResponseError("failure".to_string())
    }
}

impl From<serde_json::Error> for Failure {
    fn from(_: serde_json::Error) -> Self {
        Failure
    }
}

impl From<ListenerForYourRequestHasBeenDeadError> for Failure {
    fn from(_: ListenerForYourRequestHasBeenDeadError) -> Self {
        Failure
    }
}

impl ErrorT for Failure {}

struct Plain;

impl Config for Plain {
    type Address = u32;
    type Error = Failure;
    type EncodedData = ();
    type Sender = ();
    type Completion = ();
    type Task = ();
    type Cleanup = ();
}

struct Ping;

impl Notification for Ping {
    fn name() -> u16 {
        0x1234
    }
}

impl Request for Ping {
    type Response = u8;

    fn name() -> u16 {
        0x4321
    }
}

#[test]
fn references_go_by_the_name_of_what_they_refer_to() {
    assert_eq!(<Ping as Notification>::name(), 0x1234);
    assert_eq!(<&Ping as Notification>::name(), 0x1234);
    assert_eq!(<Ping as Request>::name(), 0x4321);
}

#[test]
fn link_notifications_have_their_own_names() {
    assert_eq!(Body::AddForwarded(AddForwarded { to: 1u32, rtt: Rtt(0) }).name(), 0);
    assert_eq!(Body::RemoveForwarded(RemoveForwarded { to: 1u32 }).name(), 1);
    assert_eq!(Body::<u32>::CancelRequest(CancelRequest { rid: RequestId(1) }).name(), 2);
    assert_eq!(Body::<u32>::ResourceDropped(ResourceDropped { id: ResourceId(1) }).name(), 3);
}

#[test]
fn packets_go_where_their_header_says() {
    let message = Bytes::from_static(b"message");
    let headers = Plain::encode_notification(1, 2, 7);
    let out = Plain::encode_outgoing(&headers, message.clone());
    assert_eq!(out.to, 2);
    assert_eq!(out.message, "message");
    let headers = Plain::encode_response(RequestId(3), 1, 4);
    assert_eq!(Plain::encode_outgoing(&headers, message).to, 4);
}

#[test]
fn headers_are_filled_in() {
    match Plain::encode_notification(1, 2, 7) {
        OpaquePacketWrapper::Request { sender, receiver, request, response } => {
            assert_eq!((sender, receiver, request), (1, 2, 7));
            assert!(response.is_none());
        }
        _ => panic!("expected a notification"),
    }
    match Plain::encode_request(1, 2, RequestId(5), 7) {
        OpaquePacketWrapper::Request { sender, receiver, request, response } => {
            assert_eq!((sender, receiver, request), (1, 2, 7));
            assert_eq!(response.unwrap().rid, RequestId(5));
        }
        _ => panic!("expected a request"),
    }
    match Plain::encode_response(RequestId(5), 2, 1) {
        OpaquePacketWrapper::Response { rid, response_from, request_origin, error } => {
            assert_eq!((rid, response_from, request_origin), (RequestId(5), 2, 1));
            assert!(error.is_none());
        }
        _ => panic!("expected a response"),
    }
    match Plain::encode_error_response(RequestId(5), 2, 1, "no".to_string()) {
        OpaquePacketWrapper::Response { rid, response_from, request_origin, error } => {
            assert_eq!((rid, response_from, request_origin), (RequestId(5), 2, 1));
            assert_eq!(error.unwrap(), "no");
        }
        _ => panic!("expected a response"),
    }
}

#[test]
fn tables_keep_one_value_per_key() {
    let mut table = PeerTable::new();
    table.insert(1u32, RequestId(1), "a");
    table.insert(2u32, RequestId(1), "b");
    table.insert(1u32, RequestId(2), "c");
    table.insert(1u32, RequestId(1), "d");
    assert_eq!(table.remove(&1, RequestId(1)), Some("d"));
    assert_eq!(table.remove(&1, RequestId(1)), None);
    assert_eq!(table.remove(&2, RequestId(1)), Some("b"));
    assert_eq!(table.remove(&1, RequestId(2)), Some("c"));
}

#[test]
fn numbers_are_given_per_peer() {
    let mut ids = RequestIds::new();
    assert_eq!(ids.last(&1u32), 0);
    assert_eq!(ids.next(&1), RequestId(1));
    assert_eq!(ids.next(&1), RequestId(2));
    assert_eq!(ids.next(&2), RequestId(1));
    assert_eq!(ids.last(&1), 2);
}

type Event = RootEvent<u32, ()>;

#[test]
fn events_are_made_from_what_happened() {
    let ending: Event = ConnectionEnding { from: 1 }.into();
    assert!(matches!(ending, RootEvent::ConnectionEnding(e) if e.from == 1));
    let out: Event = OutgoingMessage { to: 1, message: Bytes::new() }.into();
    assert!(matches!(out, RootEvent::OutgoingMessage(o) if o.to == 1));
    let register: Event = RegisterResources { holder: 1, items: vec![(ResourceId(1), ())] }.into();
    assert!(matches!(register, RootEvent::RegisterResources(r) if r.items.len() == 1));
}

#[test]
fn changes_become_events_of_their_kind() {
    let min = |rtt| MinRtt { via: Via::Direct, rtt: Rtt(rtt), second_best: None };
    let updated = MinRttUpdated { for_connection: 1, before: min(1), after: min(2) };
    assert!(matches!(Event::from(RouteChange::MinRttUpdated(updated)), RootEvent::MinRttUpdated(_)));
    let seconded = ViaListSeconded { initial_via: Via::Direct, for_connection: 1, rtt: Rtt(1) };
    assert!(matches!(
        Event::from(RouteChange::ViaListSeconded(seconded)),
        RootEvent::ViaListSeconded(_)
    ));
    let unseconded = ViaListUnseconded { only_via: Via::Direct, for_connection: 1 };
    assert!(matches!(
        Event::from(RouteChange::ViaListUnseconded(unseconded)),
        RootEvent::ViaListUnseconded(_)
    ));
    let added = ConnectionAdded { to: 1, via: Via::Direct, rtt: Rtt(1) };
    assert!(matches!(
        Event::from(RouteChange::ConnectionAdded(added)),
        RootEvent::ConnectionAdded(_)
    ));
    let removed = ConnectionRemoved { to: 1, via: Via::Direct };
    assert!(matches!(
        Event::from(RouteChange::ConnectionRemoved(removed)),
        RootEvent::ConnectionRemoved(_)
    ));
}

#[test]
fn waiting_ends_with_the_awaited_node() {
    assert!(matches!(wait_for_connection_to(&1u32, Some(1)), Some(Ok(()))));
    assert!(wait_for_connection_to(&1u32, Some(2)).is_none());
    assert!(matches!(wait_for_connection_to(&1u32, None), Some(Err(_))));
}
