//! Nodes that are linked with each other, run by one loop.

use bifrostlink::config::{Config, ConfigExt};
use bifrostlink::error::{ErrorT, ListenerForYourRequestHasBeenDeadError, ResponseError};
use bifrostlink::event::{ConnectionEnding, ConnectionMessage, RootEvent};
use bifrostlink::internal_handlers::{
    AddForwarded, Body, CancelRequest, ResourceDropped, ADD_FORWARDED, CANCEL_REQUEST,
    REMOVE_FORWARDED, RESOURCE_DROPPED,
};
use bifrostlink::node::{Delivery, Post};
use bifrostlink::packet::{OpaquePacketWrapper, Packet, RequestId, ResponseTo};
use bifrostlink::resource::{
    drop_notifier, receive, register_parked, with_decode, with_encode, DecodeContext,
    EncodeContext, Resource, ResourceId, ResourceIds,
};
use bifrostlink::route::Rtt;
use bifrostlink::rpc::{
    reply, request_outcome, start_handler, Action, CancelRequestGuard, Handled, RpcInner,
    Wait,
};
use bytes::Bytes;
use serde_json::Value;
use std::cell::{Cell, RefCell};
use std::collections::{BTreeMap, VecDeque};
use std::rc::Rc;

const GIVE: u16 = 0x1000;
const GIVE_MANY: u16 = 0x1001;
const TAKE: u16 = 0x2000;
const ASK: u16 = 0x2001;
const FAIL: u16 = 0x2002;
const HANG: u16 = 0x2003;

#[derive(Debug)]
struct TestError(String);

impl From<ResponseError> for TestError {
    fn from(e: ResponseError) -> Self {
        TestError(e.0)
    }
}

impl From<TestError> for ResponseError {
    fn from(e: TestError) -> Self {
        ResponseError(e.0)
    }
}

impl From<serde_json::Error> for TestError {
    fn from(e: serde_json::Error) -> Self {
        TestError(e.to_string())
    }
}

impl From<ListenerForYourRequestHasBeenDeadError> for TestError {
    fn from(_: ListenerForYourRequestHasBeenDeadError) -> Self {
        TestError("listener dead".to_string())
    }
}

impl ErrorT for TestError {}

type Cleanup = Box<dyn FnOnce()>;
type MakeDrop = Box<dyn Fn(ResourceId) -> Cleanup>;

struct TestConfig;

impl Config for TestConfig {
    type Address = u32;
    type Error = TestError;
    type EncodedData = Value;
    /// The peer at the other end.
    type Sender = u32;
    /// The place of the waiter.
    type Completion = usize;
    type Task = &'static str;
    type Cleanup = Cleanup;
}

/// A handle that runs its cleanup when it goes out of scope.
struct Handle(Resource<u64, Cleanup>);

impl Drop for Handle {
    fn drop(&mut self) {
        self.0.release();
    }
}

fn number(n: u64) -> Value {
    Value::from(n)
}

fn encode_headers(headers: &OpaquePacketWrapper<u32>) -> Value {
    Value::Array(match headers {
        OpaquePacketWrapper::Request { sender, receiver, request, response } => vec![
            Value::from("request"),
            number(*sender as u64),
            number(*receiver as u64),
            number(*request as u64),
            match response {
                Some(to) => number(to.rid.0 as u64),
                None => Value::Null,
            },
        ],
        OpaquePacketWrapper::Response { rid, response_from, request_origin, error } => vec![
            Value::from("response"),
            number(rid.0 as u64),
            number(*response_from as u64),
            number(*request_origin as u64),
            match error {
                Some(e) => Value::from(e.as_str()),
                None => Value::Null,
            },
        ],
    })
}

fn encode(headers: &OpaquePacketWrapper<u32>, data: Value) -> Bytes {
    let packet = Value::Array(vec![encode_headers(headers), data]);
    Bytes::from(serde_json::to_vec(&packet).unwrap())
}

fn decode(message: &Bytes) -> Option<(OpaquePacketWrapper<u32>, Value)> {
    let packet: Value = serde_json::from_slice(message).ok()?;
    let header = packet.get(0)?;
    let data = packet.get(1)?.clone();
    let field = |i: usize| header.get(i).and_then(|v| v.as_u64());
    let headers = match header.get(0)?.as_str()? {
        "request" => OpaquePacketWrapper::Request {
            sender: field(1)? as u32,
            receiver: field(2)? as u32,
            request: field(3)? as u16,
            response: field(4).map(|rid| ResponseTo { rid: RequestId(rid as usize) }),
        },
        "response" => OpaquePacketWrapper::Response {
            rid: RequestId(field(1)? as usize),
            response_from: field(2)? as u32,
            request_origin: field(3)? as u32,
            error: header.get(4)?.as_str().map(|e| e.to_string()),
        },
        _ => return None,
    };
    Some((headers, data))
}

fn encode_body(body: &Body<u32>) -> Value {
    match body {
        Body::Unit => Value::Null,
        Body::AddForwarded(add) => {
            Value::Array(vec![number(add.to as u64), number(add.rtt.0 as u64)])
        }
        Body::RemoveForwarded(remove) => number(remove.to as u64),
        Body::CancelRequest(cancel) => number(cancel.rid.0 as u64),
        Body::ResourceDropped(dropped) => number(dropped.id.0),
    }
}

struct World {
    nodes: BTreeMap<u32, RpcInner<TestConfig>>,
    ids: BTreeMap<u32, ResourceIds>,
    events: VecDeque<(u32, RootEvent<u32, Cleanup>)>,
    /// Packets that cleanups want to send.
    outbox: Rc<RefCell<Vec<(u32, Packet<u32>)>>>,
    waiters: Vec<Option<Result<Value, TestError>>>,
    /// What came to notification handlers: the node, the sender and the handles.
    given: Vec<(u32, u32, Vec<Handle>)>,
    /// Whether given handles are kept, or dropped at once.
    keep: bool,
    /// Where given handles are passed on to.
    pass_on: BTreeMap<u32, u32>,
    /// What `ASK` hands out, and when it is cleaned up.
    asked: Rc<Cell<usize>>,
    aborted: Vec<&'static str>,
    announced: Vec<(u32, u32)>,
    no_path: Vec<(u32, u32)>,
    log: Vec<&'static str>,
}

impl World {
    fn new(addresses: &[u32]) -> World {
        World {
            nodes: addresses.iter().map(|a| (*a, RpcInner::new(*a))).collect(),
            ids: addresses.iter().map(|a| (*a, ResourceIds::new())).collect(),
            events: VecDeque::new(),
            outbox: Rc::new(RefCell::new(Vec::new())),
            waiters: Vec::new(),
            given: Vec::new(),
            keep: false,
            pass_on: BTreeMap::new(),
            asked: Rc::new(Cell::new(0)),
            aborted: Vec::new(),
            announced: Vec::new(),
            no_path: Vec::new(),
            log: Vec::new(),
        }
    }

    fn linked() -> World {
        let mut world = World::new(&[1, 2]);
        world.connect(1, 2);
        world
    }

    fn node(&mut self, me: u32) -> &mut RpcInner<TestConfig> {
        self.nodes.get_mut(&me).unwrap()
    }

    fn connect(&mut self, a: u32, b: u32) {
        assert!(self.node(a).add_direct(b, b, Rtt(0)));
        self.drain(a);
        assert!(self.node(b).add_direct(a, a, Rtt(0)));
        self.drain(b);
    }

    fn send(&mut self, me: u32, headers: &OpaquePacketWrapper<u32>, data: Value) {
        let message = encode(headers, data);
        let out = TestConfig::encode_outgoing(headers, message);
        self.events.push_back((me, out.into()));
    }

    fn drain(&mut self, me: u32) {
        for post in self.node(me).take_posts() {
            match post {
                Post::Route(change) => self.events.push_back((me, change.into())),
                Post::Packet(packet) => self.send(me, &packet.headers, encode_body(&packet.body)),
            }
        }
    }

    fn flush_outbox(&mut self) {
        let packets: Vec<_> = self.outbox.borrow_mut().drain(..).collect();
        for (me, packet) in packets {
            self.send(me, &packet.headers, encode_body(&packet.body));
        }
    }

    /// Encodes handles for `to`, as the pairs of their numbers and values.
    fn encode_handles(&mut self, me: u32, to: u32, handles: &mut [Handle]) -> Value {
        let ids = self.ids.get_mut(&me).unwrap();
        let mut context = EncodeContext::new();
        let (pairs, parked) = with_encode(&mut context, |context| {
            let mut pairs = Vec::new();
            for handle in handles.iter_mut() {
                let id = handle.0.park(context, ids).unwrap();
                pairs.push(Value::Array(vec![number(id.0), number(*handle.0.deref())]));
            }
            pairs
        });
        if let Some(register) = register_parked(to, parked) {
            self.events.push_back((me, register.into()));
        }
        Value::Array(pairs)
    }

    fn decode_handles(&mut self, me: u32, owner: u32, data: &Value) -> Vec<Handle> {
        let mut context: DecodeContext<MakeDrop> = DecodeContext::new();
        let notifier = drop_notifier(me, owner);
        let outbox = self.outbox.clone();
        let make: MakeDrop = Box::new(move |id| {
            let packet = notifier.notice(id);
            let outbox = outbox.clone();
            Box::new(move || outbox.borrow_mut().push((me, packet)))
        });
        with_decode(&mut context, make, |context| {
            data.as_array()
                .unwrap()
                .iter()
                .map(|pair| {
                    let id = ResourceId(pair[0].as_u64().unwrap());
                    Handle(receive(context, id, pair[1].as_u64().unwrap()).ok().unwrap())
                })
                .collect()
        })
    }

    fn give(&mut self, me: u32, to: u32, name: u16, mut handles: Vec<Handle>) {
        let data = self.encode_handles(me, to, &mut handles);
        let headers = TestConfig::encode_notification(me, to, name);
        self.send(me, &headers, data);
    }

    fn request(&mut self, me: u32, to: u32, name: u16, data: Value) -> (usize, CancelRequestGuard<u32>) {
        let waiter = self.waiters.len();
        self.waiters.push(None);
        assert!(self.node(me).can_request(&to));
        let (headers, guard) = self.node(me).request(to, name, waiter);
        self.send(me, &headers, data);
        (waiter, guard)
    }

    fn handle_notification(&mut self, me: u32, source: u32, name: u16, data: Value) {
        match name {
            ADD_FORWARDED => {
                let add = AddForwarded {
                    to: data[0].as_u64().unwrap() as u32,
                    rtt: Rtt(data[1].as_u64().unwrap() as u32),
                };
                self.node(me).on_add_forwarded(source, add);
            }
            CANCEL_REQUEST => {
                let rid = RequestId(data.as_u64().unwrap() as usize);
                if let Some(task) = self.node(me).on_cancel_request(&source, CancelRequest { rid }) {
                    self.aborted.push(task);
                }
            }
            RESOURCE_DROPPED => {
                let id = ResourceId(data.as_u64().unwrap());
                if let Some(cleanup) = self.node(me).on_resource_dropped(ResourceDropped { id }) {
                    cleanup();
                }
            }
            GIVE | GIVE_MANY => {
                let handles = self.decode_handles(me, source, &data);
                if let Some(to) = self.pass_on.get(&me).copied() {
                    self.give(me, to, name, handles);
                } else if self.keep {
                    self.given.push((me, source, handles));
                } else {
                    drop(handles);
                }
            }
            _ => unreachable!(),
        }
    }

    fn handle_request(&mut self, me: u32, source: u32, name: u16, data: Value, rid: RequestId) {
        let (handled, response) = match name {
            TAKE => {
                if !data.is_array() {
                    (Handled::ParseFailed("expected handles".to_string()), Value::Null)
                } else {
                    let handles = self.decode_handles(me, source, &data);
                    let v = *handles[0].0.deref();
                    drop(handles);
                    (Handled::Done, number(v + 1))
                }
            }
            ASK => {
                let asked = self.asked.clone();
                let cleanup: Cleanup = Box::new(move || asked.set(asked.get() + 1));
                let mut handles = [Handle(Resource::new(99, cleanup))];
                let response = self.encode_handles(me, source, &mut handles);
                (Handled::Done, response)
            }
            FAIL => (Handled::Failed(ResponseError("out of order".to_string())), Value::Null),
            _ => return,
        };
        let headers = reply::<TestConfig>(rid, me, source, handled);
        self.send(me, &headers, response);
        self.node(me).request_finished(&source, rid);
    }

    fn deliver(&mut self, me: u32, connection: usize, message: Bytes) {
        let peer = *self.node(me).sender(connection);
        let input = ConnectionMessage { packet_source: me, message };
        self.events.push_back((peer, input.into()));
    }

    fn run(&mut self) {
        while let Some((me, event)) = self.events.pop_front() {
            match self.node(me).handle_event(event) {
                Action::Decode(input) => {
                    let decoded = decode(&input.message);
                    let delivery = self.node(me).handle_connection_message(
                        &input.packet_source,
                        decoded,
                        input.message,
                    );
                    match delivery {
                        Delivery::Malformed => self.log.push("malformed"),
                        Delivery::Refused => self.log.push("refused"),
                        Delivery::Complete { completion, outcome } => {
                            self.waiters[completion] = Some(outcome.map_err(TestError::from));
                        }
                        Delivery::TimedOut => self.log.push("timed out"),
                        Delivery::Forward { connection, message } => {
                            self.deliver(me, connection, message)
                        }
                        Delivery::NotForwarded => self.log.push("not forwarded"),
                        Delivery::RunRequest { handler, sender, data, rid, cancel_safe } => {
                            if cancel_safe {
                                self.node(me).request_started(sender, rid, "task");
                            }
                            self.handle_request(me, sender, handler, data, rid);
                        }
                        Delivery::NoRequestHandler => self.log.push("no request handler"),
                        Delivery::RunNotification { handler, sender, data, .. } => {
                            self.handle_notification(me, sender, handler, data)
                        }
                        Delivery::NoNotificationHandler => self.log.push("no notification handler"),
                    }
                }
                Action::Send { connection, message } => self.deliver(me, connection, message),
                Action::NoPath { to } => self.no_path.push((me, to)),
                Action::Announce { to } => self.announced.push((me, to)),
                Action::CleanUp { cleanups } => {
                    for cleanup in cleanups {
                        cleanup();
                    }
                }
                Action::Done => {}
            }
            self.drain(me);
            self.flush_outbox();
        }
    }
}

fn counter() -> (Rc<Cell<usize>>, Cleanup) {
    let count = Rc::new(Cell::new(0));
    let counted = count.clone();
    (count, Box::new(move || counted.set(counted.get() + 1)))
}

#[test]
fn remote_drop_runs_cleanup() {
    let mut world = World::linked();
    world.node(2).register_notification_handler(GIVE, false);
    let done = Rc::new(Cell::new(0));
    let done_tx = done.clone();
    let res = Resource::new(42, Box::new(move || done_tx.set(42)) as Cleanup);
    world.give(1, 2, GIVE, vec![Handle(res)]);
    world.run();
    assert_eq!(done.get(), 42, "cleanup should run on owner");
}

#[test]
fn unreachable_runs_cleanup() {
    let mut world = World::linked();
    world.node(2).register_notification_handler(GIVE, false);
    world.keep = true;
    let (done, cleanup) = counter();
    world.give(1, 2, GIVE, vec![Handle(Resource::new(7, cleanup))]);
    world.run();
    assert_eq!(world.given.len(), 1);
    assert_eq!(done.get(), 0);
    world.node(1).remove_direct(&2);
    world.drain(1);
    world.run();
    assert_eq!(done.get(), 1);
}

#[test]
fn request_argument_runs_cleanup() {
    let mut world = World::linked();
    world.node(2).register_request_handler(TAKE, false);
    let (done, cleanup) = counter();
    let data = world.encode_handles(1, 2, &mut [Handle(Resource::new(41, cleanup))]);
    let (waiter, _guard) = world.request(1, 2, TAKE, data);
    world.run();
    let resp = world.waiters[waiter].take().unwrap().expect("response");
    assert_eq!(resp, 42);
    assert_eq!(done.get(), 1);
}

#[test]
fn response_carries_resource() {
    let mut world = World::linked();
    world.node(2).register_request_handler(ASK, false);
    let (waiter, _guard) = world.request(1, 2, ASK, Value::Null);
    world.run();
    let resp = world.waiters[waiter].take().unwrap().expect("response");
    let handles = world.decode_handles(1, 2, &resp);
    assert_eq!(*handles[0].0.deref(), 99);
    assert_eq!(world.asked.get(), 0);
    drop(handles);
    world.flush_outbox();
    world.run();
    assert_eq!(world.asked.get(), 1);
}

#[test]
fn proxy_chain_cleanup() {
    let mut world = World::new(&[1, 2, 3]);
    world.connect(1, 2);
    world.connect(2, 3);
    world.node(2).register_notification_handler(GIVE, false);
    world.node(3).register_notification_handler(GIVE, false);
    world.pass_on.insert(2, 3);
    let (done, cleanup) = counter();
    world.give(1, 2, GIVE, vec![Handle(Resource::new(5, cleanup))]);
    world.run();
    assert_eq!(done.get(), 1);
}

#[test]
fn cleanup_runs_once() {
    let mut world = World::linked();
    world.node(2).register_notification_handler(GIVE, false);
    let (count, cleanup) = counter();
    world.give(1, 2, GIVE, vec![Handle(Resource::new(1, cleanup))]);
    world.run();
    assert_eq!(count.get(), 1);
    world.node(1).remove_direct(&2);
    world.drain(1);
    world.run();
    assert_eq!(count.get(), 1);
    assert!(world.node(1).on_resource_dropped(ResourceDropped { id: ResourceId(1) }).is_none());
}

#[test]
fn multiple_resources_in_one_message() {
    let mut world = World::linked();
    world.node(2).register_notification_handler(GIVE_MANY, false);
    let (r1, t1) = counter();
    let (r2, t2) = counter();
    let (r3, t3) = counter();
    let res = vec![
        Handle(Resource::new(1, t1)),
        Handle(Resource::new(2, t2)),
        Handle(Resource::new(3, t3)),
    ];
    world.give(1, 2, GIVE_MANY, res);
    world.run();
    assert_eq!(r1.get(), 1);
    assert_eq!(r2.get(), 1);
    assert_eq!(r3.get(), 1);
}

#[test]
fn requests_without_a_handler_are_refused() {
    let mut world = World::linked();
    let (waiter, _guard) = world.request(1, 2, ASK, Value::Null);
    world.run();
    match world.waiters[waiter].take() {
        Some(Err(e)) => assert_eq!(e.0, "no handler defined for 8193"),
        _ => panic!("expected an error"),
    }
    assert_eq!(world.log, ["no request handler"]);
}

#[test]
fn refusals_name_the_request() {
    let mut world = World::linked();
    for (name, text) in [
        (0u16, "no handler defined for 0"),
        (9, "no handler defined for 9"),
        (10, "no handler defined for 10"),
        (4005, "no handler defined for 4005"),
        (65535, "no handler defined for 65535"),
    ] {
        let (waiter, _guard) = world.request(1, 2, name, Value::Null);
        world.run();
        match world.waiters[waiter].take() {
            Some(Err(e)) => assert_eq!(e.0, text),
            _ => panic!("expected an error"),
        }
    }
}

#[test]
fn waits_begin_where_a_node_cannot_be_reached() {
    let mut world = World::new(&[1, 2]);
    assert!(matches!(world.nodes[&1].wait_begins(&2, "listener"), Wait::On("listener")));
    world.connect(1, 2);
    assert!(matches!(world.nodes[&1].wait_begins(&2, "listener"), Wait::Over));
    world.run();
    // Who listened from before the connection on, hears of it.
    assert!(world.announced.contains(&(1, 2)));
}

#[test]
fn requests_that_cannot_be_forwarded_are_refused() {
    let mut world = World::linked();
    // Node 1 believes that node 2 can forward to node 9, which nobody is connected to.
    world.run();
    world.node(1).on_add_forwarded(2, AddForwarded { to: 9, rtt: Rtt(3) });
    world.drain(1);
    let (waiter, _guard) = world.request(1, 9, ASK, Value::Null);
    world.run();
    // The refusal comes from node 2, and nobody waits for an answer of node 2.
    assert!(world.waiters[waiter].is_none());
    assert!(world.log.contains(&"not forwarded"));
    assert!(world.log.contains(&"timed out"));
}

#[test]
fn failing_handlers_answer_with_their_error() {
    let mut world = World::linked();
    world.node(2).register_request_handler(FAIL, false);
    let (waiter, _guard) = world.request(1, 2, FAIL, Value::Null);
    world.run();
    match world.waiters[waiter].take() {
        Some(Err(e)) => assert_eq!(e.0, "out of order"),
        _ => panic!("expected an error"),
    }
}

#[test]
fn requests_that_cannot_be_parsed_are_refused() {
    let mut world = World::linked();
    world.node(2).register_request_handler(TAKE, false);
    let (waiter, _guard) = world.request(1, 2, TAKE, number(5));
    world.run();
    match world.waiters[waiter].take() {
        Some(Err(e)) => assert_eq!(e.0, "failed to parse request: expected handles"),
        _ => panic!("expected an error"),
    }
}

#[test]
fn notifications_are_forwarded() {
    let mut world = World::new(&[1, 2, 3]);
    world.connect(1, 2);
    world.connect(2, 3);
    world.run();
    assert!(world.nodes[&1].has(&3));
    assert!(world.nodes[&3].has(&1));
    world.node(3).register_notification_handler(GIVE, false);
    world.keep = true;
    let (done, cleanup) = counter();
    world.give(1, 3, GIVE, vec![Handle(Resource::new(8, cleanup))]);
    world.run();
    let (to, from, handles) = world.given.pop().unwrap();
    assert_eq!((to, from, *handles[0].0.deref()), (3, 1, 8));
    assert_eq!(done.get(), 0);
    drop(handles);
    world.flush_outbox();
    world.run();
    assert_eq!(done.get(), 1);
}

#[test]
fn requests_are_forwarded() {
    let mut world = World::new(&[1, 2, 3]);
    world.connect(1, 2);
    world.connect(2, 3);
    world.run();
    world.node(3).register_request_handler(HANG, true);
    let (_, guard) = world.request(1, 3, HANG, Value::Null);
    world.run();
    // The handler runs at node 3, until node 1 gives up.
    world.node(1).cancel(&guard);
    world.drain(1);
    world.run();
    assert_eq!(world.aborted, ["task"]);
}

#[test]
fn answers_are_refused_from_peers_that_are_no_way_to_the_asker() {
    let mut world = World::new(&[1, 2, 3]);
    world.connect(1, 2);
    world.connect(2, 3);
    world.run();
    world.node(3).register_request_handler(FAIL, false);
    let (waiter, _guard) = world.request(1, 3, FAIL, Value::Null);
    world.run();
    // Node 3 reaches node 1 through node 2 only, so node 2 takes no messages for it from node 3.
    assert!(world.waiters[waiter].is_none());
    assert_eq!(world.log, ["refused"]);
}

#[test]
fn dropped_guards_abort_the_handler() {
    let mut world = World::linked();
    world.node(2).register_request_handler(HANG, true);
    let (waiter, guard) = world.request(1, 2, HANG, Value::Null);
    world.run();
    world.node(1).cancel(&guard);
    world.drain(1);
    world.run();
    assert_eq!(world.aborted, ["task"]);
    assert!(world.node(1).complete_response(&2, guard.rid).is_none());
    assert!(world.waiters[waiter].is_none());
}

#[test]
fn defused_guards_do_nothing() {
    let mut world = World::linked();
    world.node(2).register_request_handler(HANG, true);
    let (waiter, mut guard) = world.request(1, 2, HANG, Value::Null);
    guard.defuse();
    assert!(guard.cancellation().is_none());
    world.run();
    world.node(1).cancel(&guard);
    world.drain(1);
    world.run();
    assert!(world.aborted.is_empty());
    assert_eq!(world.node(1).complete_response(&2, guard.rid), Some(waiter));
}

#[test]
fn handlers_that_are_not_cancel_safe_are_not_aborted() {
    let mut world = World::linked();
    world.node(2).register_request_handler(HANG, false);
    let (_, guard) = world.request(1, 2, HANG, Value::Null);
    world.run();
    world.node(1).cancel(&guard);
    world.drain(1);
    world.run();
    assert!(world.aborted.is_empty());
}

#[test]
fn second_responses_time_out() {
    let mut world = World::linked();
    world.node(2).register_request_handler(FAIL, false);
    let (waiter, guard) = world.request(1, 2, FAIL, Value::Null);
    world.run();
    assert!(world.waiters[waiter].is_some());
    let headers = TestConfig::encode_response(guard.rid, 2, 1);
    world.send(2, &headers, Value::Null);
    world.run();
    assert_eq!(world.log, ["timed out"]);
}

#[test]
fn request_numbers_count_up_per_peer() {
    let mut world = World::new(&[1, 2, 3]);
    world.connect(1, 2);
    world.connect(1, 3);
    assert_eq!(world.request(1, 2, FAIL, Value::Null).1.rid, RequestId(1));
    assert_eq!(world.request(1, 2, FAIL, Value::Null).1.rid, RequestId(2));
    assert_eq!(world.request(1, 3, FAIL, Value::Null).1.rid, RequestId(1));
}

#[test]
fn malformed_messages_are_dropped() {
    let mut world = World::linked();
    world.run();
    let input = ConnectionMessage { packet_source: 1, message: Bytes::from_static(b"no json") };
    world.events.push_back((2, input.into()));
    world.run();
    assert_eq!(world.log, ["malformed"]);
}

#[test]
fn messages_by_wrong_ways_are_refused() {
    let mut world = World::linked();
    world.run();
    // Node 1 hands node 2 a message that claims to come from node 9.
    let headers = TestConfig::encode_notification(9, 2, GIVE);
    let input = ConnectionMessage { packet_source: 1, message: encode(&headers, Value::Null) };
    world.events.push_back((2, input.into()));
    let headers = TestConfig::encode_error_response(RequestId(1), 1, 9, "no".to_string());
    let input = ConnectionMessage { packet_source: 1, message: encode(&headers, Value::Null) };
    world.events.push_back((2, input.into()));
    world.run();
    assert_eq!(world.log, ["refused", "refused"]);
}

#[test]
fn unknown_notifications_are_dropped() {
    let mut world = World::linked();
    world.give(1, 2, GIVE, Vec::new());
    world.run();
    assert_eq!(world.log, ["no notification handler"]);
}

#[test]
fn messages_without_a_way_are_dropped() {
    let mut world = World::linked();
    world.give(1, 9, GIVE, Vec::new());
    world.run();
    assert_eq!(world.no_path, [(1, 9)]);
}

#[test]
fn ending_connections_are_removed() {
    let mut world = World::linked();
    world.run();
    assert!(world.nodes[&1].has(&2));
    assert_eq!(world.nodes[&1].forwarder_for(&2), Some(0));
    world.events.push_back((1, ConnectionEnding { from: 2 }.into()));
    world.run();
    assert!(!world.nodes[&1].has(&2));
    assert_eq!(world.nodes[&1].forwarder_for(&2), None);
}

#[test]
fn connections_are_added_once() {
    let mut world = World::linked();
    world.run();
    assert!(world.nodes[&1].is_connected(&2));
    assert!(!world.nodes[&1].is_connected(&9));
    assert!(!world.node(1).add_direct(2, 2, Rtt(7)));
    assert!(world.node(1).take_posts().is_empty());
    world.node(1).remove_direct(&9);
    assert!(world.node(1).take_posts().is_empty());
}

#[test]
fn strangers_are_not_listened_to() {
    let mut world = World::linked();
    world.run();
    assert!(!world.node(1).on_add_forwarded(9, AddForwarded { to: 8, rtt: Rtt(1) }));
    assert!(!world.nodes[&1].has(&8));
    assert!(world.node(1).on_add_forwarded(2, AddForwarded { to: 8, rtt: Rtt(1) }));
    assert!(world.nodes[&1].has(&8));
}

#[test]
fn new_nodes_are_announced() {
    let mut world = World::new(&[1, 2, 3]);
    world.connect(1, 2);
    world.connect(2, 3);
    world.run();
    assert!(world.announced.contains(&(1, 2)));
    assert!(world.announced.contains(&(1, 3)));
    assert!(world.announced.contains(&(3, 1)));
}

#[test]
fn newcomers_are_greeted() {
    let mut node: RpcInner<TestConfig> = RpcInner::new(1);
    assert_eq!(node.me(), 1);
    assert!(node.add_direct(2, 2, Rtt(4)));
    let greetings: Vec<(u32, u32)> = node
        .take_posts()
        .iter()
        .filter_map(|post| match post {
            Post::Packet(Packet { body: Body::AddForwarded(add), .. }) => Some((add.to, add.rtt.0)),
            _ => None,
        })
        .collect();
    assert_eq!(greetings, [(2, 4)]);
    assert!(node.add_direct(3, 3, Rtt(5)));
    let greetings: Vec<(u32, u32)> = node
        .take_posts()
        .iter()
        .filter_map(|post| match post {
            Post::Packet(Packet { body: Body::AddForwarded(add), .. }) => Some((add.to, add.rtt.0)),
            _ => None,
        })
        .collect();
    assert_eq!(greetings, [(2, 4), (3, 5)]);
}

#[test]
fn removing_a_new_connection_restores_the_routes() {
    let mut world = World::new(&[1, 2, 3]);
    world.connect(1, 2);
    world.run();
    world.node(1).add_direct(3, 3, Rtt(1));
    assert!(world.nodes[&1].has(&3));
    world.node(1).remove_direct(&3);
    assert!(!world.nodes[&1].has(&3));
    assert!(world.nodes[&1].has(&2));
    assert_eq!(world.nodes[&1].forwarder_for(&2), Some(0));
}

#[test]
fn the_link_handles_its_own_notifications() {
    let node: RpcInner<TestConfig> = RpcInner::new(1);
    assert!(node.has_notification_handler(ADD_FORWARDED));
    assert!(node.has_notification_handler(CANCEL_REQUEST));
    assert!(node.has_notification_handler(RESOURCE_DROPPED));
    assert!(!node.has_notification_handler(REMOVE_FORWARDED));
    assert!(!node.has_request_handler(ASK));
}

#[test]
fn handlers_are_called_once_with_what_was_decoded() {
    let calls = Cell::new(0);
    let handler = |source: u32, data: u64| {
        calls.set(calls.get() + 1);
        source as u64 + data
    };
    assert_eq!(start_handler(1, Ok::<u64, &str>(4), handler), Ok(5));
    assert_eq!(calls.get(), 1);
    assert_eq!(start_handler(1, Err::<u64, &str>("bad"), handler), Err("bad"));
    assert_eq!(calls.get(), 1);
}

#[test]
fn handlers_keep_the_flag_that_they_were_registered_with() {
    for flag in [false, true] {
        let mut node: RpcInner<TestConfig> = RpcInner::new(1);
        node.add_direct(2, 2, Rtt(0));
        node.take_posts();
        node.register_notification_handler(GIVE, flag);
        node.register_request_handler(ASK, flag);
        let headers = TestConfig::encode_notification(2, 1, GIVE);
        let delivery =
            node.handle_connection_message(&2, Some((headers, Value::Null)), Bytes::new());
        assert!(matches!(
            delivery,
            Delivery::RunNotification { handler: GIVE, sender: 2, blocking, .. } if blocking == flag
        ));
        let headers = TestConfig::encode_request(2, 1, RequestId(6), ASK);
        let delivery =
            node.handle_connection_message(&2, Some((headers, Value::Null)), Bytes::new());
        assert!(matches!(
            delivery,
            Delivery::RunRequest { handler: ASK, sender: 2, rid: RequestId(6), cancel_safe, .. }
                if cancel_safe == flag
        ));
        assert!(node.take_posts().is_empty());
    }
}

#[test]
fn the_link_notifies_its_peers() {
    let mut world = World::linked();
    world.run();
    world.node(1).notify(&2, Body::AddForwarded(AddForwarded { to: 9, rtt: Rtt(3) }));
    world.drain(1);
    world.run();
    assert!(world.nodes[&2].has(&9));
}

#[test]
fn dead_listeners_are_reported() {
    let dead = request_outcome::<TestConfig>(None);
    assert_eq!(dead.unwrap_err().0, "listener dead");
    let failed = request_outcome::<TestConfig>(Some(Err(TestError("no".to_string()))));
    assert_eq!(failed.unwrap_err().0, "no");
    let done = request_outcome::<TestConfig>(Some(Ok(number(3))));
    assert_eq!(done.unwrap(), 3);
}
