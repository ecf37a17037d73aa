//! The state of a node, and what it does on each event.

use crate::address::{copy_of, same, AddressT};
use crate::config::{Config, ConfigExt};
use crate::error::{ListenerForYourRequestHasBeenDeadError, ResponseError};
use crate::event::{ConnectionMessage, RootEvent};
use crate::internal_handlers::{
    AddForwarded, Body, CancelRequest, ResourceDropped, ADD_FORWARDED, CANCEL_REQUEST,
    RESOURCE_DROPPED,
};
use crate::node::{
    awaited_were_numbered, cleanups_of, decimal, distinct_held, greeting, holding_all,
    lemma_held_filtered, lemma_ways_with, lemma_ways_without, notice, place_held, place_of,
    refusal, spread, Connection, Delivery, Held, Node, Post, Posted,
};
use crate::packet::{Header, OpaquePacketWrapper, Packet, RequestId};
use crate::peers::{last_id, PeerTable, RequestIds};
use crate::resource::{RegisterResources, ResourceId};
use crate::route::{
    lemma_best, listing, reaches, told, told_to, MinRtt, RouteChange, RouteSet, Rtt, Via,
};
use bytes::Bytes;
use std::collections::HashMap;
use vstd::prelude::*;
use vstd::string::StringExecFns;

verus! {

broadcast use vstd::std_specs::hash::group_hash_axioms;

fn decimal_text(n: u16) -> (r: String)
    ensures
        r@ == decimal(n as nat),
    decreases n,
{
    let mut text = if n < 10 {
        String::new()
    } else {
        decimal_text(n / 10)
    };
    text.push((0x30 + (n % 10) as u8) as char);
    assert(text@ =~= decimal(n as nat));
    text
}

/// The state of a node.
pub struct RpcInner<C: Config> {
    me: C::Address,
    set: RouteSet<C::Address>,
    connections: Vec<Connection<C::Address, C::Sender>>,
    request_handler: HashMap<u16, bool>,
    notification_handler: HashMap<u16, bool>,
    running_requests: PeerTable<C::Address, C::Task>,
    responses: PeerTable<C::Address, C::Completion>,
    last_request_id: RequestIds<C::Address>,
    resources: Vec<Held<C::Address, C::Cleanup>>,
    posts: Vec<Post<C::Address>>,
}

impl<C: Config> View for RpcInner<C> {
    type V = Node<C>;

    closed spec fn view(&self) -> Node<C> {
        Node {
            me: self.me,
            hops: self.set@,
            connections: self.connections@,
            request_handlers: self.request_handler@,
            notification_handlers: self.notification_handler@,
            running: self.running_requests@,
            responses: self.responses@,
            issued: self.last_request_id@,
            held: self.resources@,
            posts: self.posts@.map_values(|post: Post<C::Address>| post@),
        }
    }
}

impl<C: Config> RpcInner<C> {
    /// What holds of the state at all times.
    pub closed spec fn wf(self) -> bool {
        &&& self.running_requests.wf()
        &&& self.responses.wf()
        &&& self.last_request_id.wf()
        &&& self@.ok()
    }

    /// What holds of the node at all times.
    pub proof fn lemma_wf(self)
        requires
            self.wf(),
        ensures
            self@.ok(),
    {
    }

    /// A node without connections. It listens to what peers say of the nodes that they can forward
    /// to, of the requests that they gave up on and of the resources that they let go of.
    pub fn new(me: C::Address) -> (r: Self)
        ensures
            r.wf(),
            r@ == (Node::<C> {
                me,
                hops: Seq::empty(),
                connections: Seq::empty(),
                request_handlers: Map::empty(),
                notification_handlers: map![
                    ADD_FORWARDED => true,
                    CANCEL_REQUEST => true,
                    RESOURCE_DROPPED => true,
                ],
                running: Map::empty(),
                responses: Map::empty(),
                issued: Map::empty(),
                held: Seq::empty(),
                posts: Seq::empty(),
            }),
    {
        let mut r = RpcInner {
            me,
            set: RouteSet::new(),
            connections: Vec::new(),
            request_handler: HashMap::new(),
            notification_handler: HashMap::new(),
            running_requests: PeerTable::new(),
            responses: PeerTable::new(),
            last_request_id: RequestIds::new(),
            resources: Vec::new(),
            posts: Vec::new(),
        };
        r.register_notification_handler(ADD_FORWARDED, true);
        r.register_notification_handler(CANCEL_REQUEST, true);
        r.register_notification_handler(RESOURCE_DROPPED, true);
        assert(r@.notification_handlers =~= map![
            ADD_FORWARDED => true,
            CANCEL_REQUEST => true,
            RESOURCE_DROPPED => true,
        ]);
        assert(r@.posts =~= Seq::empty());
        r
    }

    /// Whether requests of this name are handled.
    pub fn has_request_handler(&self, name: u16) -> (r: bool)
        ensures
            r == self@.request_handlers.contains_key(name),
    {
        self.request_handler.contains_key(&name)
    }

    /// Whether notifications of this name are handled.
    pub fn has_notification_handler(&self, name: u16) -> (r: bool)
        ensures
            r == self@.notification_handlers.contains_key(name),
    {
        self.notification_handler.contains_key(&name)
    }

    /// From now on requests of this name are handled. No handler may have that name yet.
    pub fn register_request_handler(&mut self, name: u16, cancellable: bool)
        requires
            old(self).wf(),
            !old(self)@.request_handlers.contains_key(name),
        ensures
            final(self).wf(),
            final(self)@ == (Node {
                request_handlers: old(self)@.request_handlers.insert(name, cancellable),
                ..old(self)@
            }),
    {
        self.request_handler.insert(name, cancellable);
    }

    /// From now on notifications of this name are handled. No handler may have that name yet.
    pub fn register_notification_handler(&mut self, name: u16, blocking: bool)
        requires
            old(self).wf(),
            !old(self)@.notification_handlers.contains_key(name),
        ensures
            final(self).wf(),
            final(self)@ == (Node {
                notification_handlers: old(self)@.notification_handlers.insert(name, blocking),
                ..old(self)@
            }),
    {
        self.notification_handler.insert(name, blocking);
    }

    fn connection_to(&self, address: &C::Address) -> (r: Option<usize>)
        requires
            self.wf(),
        ensures
            r matches Some(i) ==> i < self@.connections.len() && place_of(
                self@.connections,
                *address,
            ) == Some(i as int),
            r is None ==> place_of(self@.connections, *address) is None,
    {
        for i in 0..self.connections.len()
            invariant
                self.wf(),
                forall|j: int| 0 <= j < i ==> (#[trigger] self@.connections[j]).address != *address,
        {
            if same(&self.connections[i].address, address) {
                assert(self@.connections[i as int].address == *address);
                return Some(i);
            }
        }
        None
    }

    /// Whether there is a connection to a peer.
    pub fn is_connected(&self, peer: &C::Address) -> (r: bool)
        requires
            self.wf(),
        ensures
            r == self@.connected(*peer),
    {
        self.connection_to(peer).is_some()
    }

    /// The place of the connection over which messages to a node leave.
    pub fn forwarder_for(&self, address: &C::Address) -> (r: Option<usize>)
        requires
            self.wf(),
        ensures
            r matches Some(i) ==> i < self@.connections.len() && self@.route_to(*address) == Some(
                i as int,
            ),
            r is None ==> self@.route_to(*address) is None,
    {
        let forwarder = match self.set.forwarder_for(address, &Vec::new()) {
            Some(via) => via,
            None => return None,
        };
        proof {
            lemma_best(self@.hops, *address, Seq::empty());
        }
        match forwarder {
            Via::Address(peer) => self.connection_to(&peer),
            Via::Direct => self.connection_to(address),
        }
    }

    /// The end of the connection at a place that messages are sent into.
    pub fn sender(&self, connection: usize) -> (r: &C::Sender)
        requires
            connection < self@.connections.len(),
        ensures
            *r == self@.connections[connection as int].sender,
    {
        &self.connections[connection].sender
    }

    /// The address of this node.
    pub fn me(&self) -> (r: C::Address)
        ensures
            r == self@.me,
    {
        copy_of(&self.me)
    }

    /// Whether a node can be reached.
    pub fn has(&self, address: &C::Address) -> (r: bool)
        ensures
            r == reaches(self@.hops, *address),
    {
        self.set.has(address)
    }

    /// Begins to wait for a node. `listener` hears of every node that is announced from now on:
    /// it is there before it is asked whether the node can be reached. Where it can, the wait is
    /// over at once.
    pub fn wait_begins<L>(&self, address: &C::Address, listener: L) -> (r: Wait<L>)
        ensures
            r == (if reaches(self@.hops, *address) {
                Wait::Over
            } else {
                Wait::On(listener)
            }),
    {
        if self.has(address) {
            Wait::Over
        } else {
            Wait::On(listener)
        }
    }

    /// Hands out what was posted.
    pub fn take_posts(&mut self) -> (r: Vec<Post<C::Address>>)
        requires
            old(self).wf(),
        ensures
            final(self).wf(),
            final(self)@ == (Node { posts: Seq::empty(), ..old(self)@ }),
            r@.map_values(|post: Post<C::Address>| post@) == old(self)@.posts,
    {
        let mut r = Vec::new();
        r.append(&mut self.posts);
        assert(self@.posts =~= Seq::empty());
        r
    }

    fn post(&mut self, post: Post<C::Address>)
        requires
            old(self).wf(),
        ensures
            final(self).wf(),
            final(self)@ == old(self)@.posting(seq![post@]),
    {
        self.posts.push(post);
        assert(self@.posts =~= old(self)@.posts + seq![post@]);
    }

    fn post_all(&mut self, posts: Vec<Post<C::Address>>)
        requires
            old(self).wf(),
        ensures
            final(self).wf(),
            final(self)@ == old(self)@.posting(
                posts@.map_values(|post: Post<C::Address>| post@),
            ),
    {
        let mut posts = posts;
        let ghost added = posts@.map_values(|post: Post<C::Address>| post@);
        self.posts.append(&mut posts);
        assert(self@.posts =~= old(self)@.posts + added);
    }

    fn post_changes(&mut self, changes: Vec<RouteChange<C::Address>>)
        requires
            old(self).wf(),
        ensures
            final(self).wf(),
            final(self)@ == old(self)@.posting(
                changes@.map_values(|change: RouteChange<C::Address>| Posted::Route(change)),
            ),
    {
        let ghost all = changes@;
        let mut posts: Vec<Post<C::Address>> = Vec::new();
        for change in iter: changes
            invariant
                iter.seq() == all,
                posts@.len() == iter.index(),
                forall|i: int| 0 <= i < iter.index() ==> #[trigger] posts@[i] == Post::Route(all[i]),
        {
            posts.push(Post::Route(change));
        }
        assert(posts@.map_values(|post: Post<C::Address>| post@) =~= all.map_values(
            |change: RouteChange<C::Address>| Posted::Route(change),
        ));
        self.post_all(posts);
    }

    fn packet(&self, to: &C::Address, body: Body<C::Address>) -> (r: Packet<C::Address>)
        ensures
            Posted::Packet(r@) == notice(self@.me, *to, body),
    {
        let name = body.name();
        Packet { headers: C::encode_notification(copy_of(&self.me), copy_of(to), name), body }
    }

    /// Posts a notification of the link itself.
    pub fn notify(&mut self, to: &C::Address, body: Body<C::Address>)
        requires
            old(self).wf(),
            body !is Unit,
        ensures
            final(self).wf(),
            final(self)@ == old(self)@.posting(seq![notice(old(self)@.me, *to, body)]),
    {
        let packet = self.packet(to, body);
        self.post(Post::Packet(packet));
    }

    /// Posts the answer to a refused request.
    pub fn respond_with_error(&mut self, rid: RequestId, to: C::Address, error: String)
        requires
            old(self).wf(),
        ensures
            final(self).wf(),
            final(self)@ == old(self)@.posting(seq![refusal(old(self)@.me, to, rid, error@)]),
    {
        let headers = C::encode_error_response(rid, copy_of(&self.me), to, error);
        self.post(Post::Packet(Packet { headers, body: Body::Unit }));
    }

    /// A connection to a peer was made. Returns whether it is used: where there is one already, it
    /// is not, and nothing happens. Otherwise the peer is told of every node that can be reached.
    pub fn add_direct(&mut self, to: C::Address, sender: C::Sender, rtt: Rtt) -> (r: bool)
        requires
            old(self).wf(),
        ensures
            final(self).wf(),
            r == !old(self)@.connected(to),
            final(self)@ == old(self)@.with_direct(to, sender, rtt),
    {
        if self.is_connected(&to) {
            return false;
        }
        let changes = self.set.on_add_direct_connection(copy_of(&to), rtt);
        self.connections.push(Connection { address: copy_of(&to), sender });
        proof {
            let n = old(self)@.connections.len() as int;
            assert(self.connections@[n].address == to);
            assert(place_of(self.connections@, to) is Some);
            lemma_ways_with(
                old(self)@.hops,
                old(self)@.connections,
                to,
                Via::Direct,
                rtt,
                self.connections@,
            );
            assert forall|i: int, j: int| 0 <= i < j < self.connections@.len() implies (
            #[trigger] self.connections@[i]).address != (#[trigger] self.connections@[j]).address by {
                if j == n {
                    assert(old(self)@.connections[i].address != to);
                }
            }
        }
        self.post_changes(changes);
        let greetings = self.greetings(&to);
        self.post_all(greetings);
        true
    }

    fn greetings(&self, to: &C::Address) -> (r: Vec<Post<C::Address>>)
        ensures
            r@.map_values(|post: Post<C::Address>| post@) == greeting(
                self@.me,
                *to,
                listing(self@.hops),
            ),
    {
        let view = Ghost(|post: Post<C::Address>| post@);
        let tell = Ghost(
            |route: (C::Address, MinRtt<C::Address>)|
                match route.1.spec_offer(*to) {
                    Some(rtt) => Some(
                        notice(
                            self@.me,
                            *to,
                            Body::AddForwarded(AddForwarded { to: route.0, rtt }),
                        ),
                    ),
                    None => None,
                },
        );
        let routes = self.set.list();
        let mut posts: Vec<Post<C::Address>> = Vec::new();
        for i in 0..routes.len()
            invariant
                routes@ == listing(self@.hops),
                posts@.map_values(view@) == routes@.take(i as int).filter_map(tell@),
                view@ == (|post: Post<C::Address>| post@),
                tell@ == (|route: (C::Address, MinRtt<C::Address>)|
                    match route.1.spec_offer(*to) {
                        Some(rtt) => Some(
                            notice(
                                self@.me,
                                *to,
                                Body::AddForwarded(AddForwarded { to: route.0, rtt }),
                            ),
                        ),
                        None => None,
                    }),
        {
            proof {
                assert(routes@.take(i + 1).drop_last() =~= routes@.take(i as int));
                assert(routes@.take(i + 1).last() == routes@[i as int]);
            }
            let ghost before = posts@;
            match routes[i].1.offer(to) {
                Some(rtt) => {
                    let add = AddForwarded { to: copy_of(&routes[i].0), rtt };
                    let packet = self.packet(to, Body::AddForwarded(add));
                    posts.push(Post::Packet(packet));
                    assert(posts@.map_values(view@) =~= before.map_values(view@).push(
                        posts@.last()@,
                    ));
                    assert(posts@.map_values(view@) =~= routes@.take(i + 1).filter_map(tell@));
                },
                None => {},
            }
        }
        assert(routes@.take(routes@.len() as int) =~= routes@);
        posts
    }

    /// The connection to a peer went. Where there is none, nothing happens.
    pub fn remove_direct(&mut self, to: &C::Address)
        requires
            old(self).wf(),
        ensures
            final(self).wf(),
            final(self)@ == old(self)@.without_direct(*to),
    {
        let position = match self.connection_to(to) {
            Some(position) => position,
            None => return,
        };
        proof {
            lemma_ways_without(self@.hops, self@.connections, position as int);
        }
        self.connections.remove(position);
        let changes = self.set.on_remove_direct_connection(to);
        self.post_changes(changes);
    }

    /// A peer said that it can forward messages to a node. Returns whether it is listened to.
    pub fn on_add_forwarded(&mut self, source: C::Address, add: AddForwarded<C::Address>) -> (r:
        bool)
        requires
            old(self).wf(),
        ensures
            final(self).wf(),
            r == old(self)@.connected(source),
            final(self)@ == old(self)@.with_forwarded(source, add),
    {
        if !self.is_connected(&source) {
            return false;
        }
        proof {
            lemma_ways_with(
                self@.hops,
                self@.connections,
                add.to,
                Via::Address(source),
                add.rtt,
                self@.connections,
            );
        }
        let changes = self.set.inc(add.to, Via::Address(source), add.rtt);
        self.post_changes(changes);
        true
    }

    /// Makes a request. Returns the header to send it with, and a guard that gives up on the
    /// request. `completion` waits for the response.
    pub fn request(&mut self, to: C::Address, name: u16, completion: C::Completion) -> (r: (
        OpaquePacketWrapper<C::Address>,
        CancelRequestGuard<C::Address>,
    ))
        requires
            old(self).wf(),
            last_id(old(self)@.issued, to) < usize::MAX,
        ensures
            final(self).wf(),
            final(self)@ == old(self)@.with_request(to, completion),
            r.0@ == Header::request(old(self)@.me, to, old(self)@.next_request(to), name),
            r.1 == (CancelRequestGuard {
                me: old(self)@.me,
                to,
                rid: old(self)@.next_request(to),
                defused: false,
            }),
    {
        let id = self.last_request_id.next(&to);
        self.responses.insert(copy_of(&to), id, completion);
        assert(awaited_were_numbered(self@.responses, self@.issued));
        let headers = C::encode_request(copy_of(&self.me), copy_of(&to), id, name);
        (headers, CancelRequestGuard { me: copy_of(&self.me), to, rid: id, defused: false })
    }

    /// The last number that was given to a request to a node is not the last number there is.
    pub fn can_request(&self, to: &C::Address) -> (r: bool)
        requires
            self.wf(),
        ensures
            r == (last_id(self@.issued, *to) < usize::MAX),
    {
        self.last_request_id.last(to) < usize::MAX
    }

    /// The guard of a request was dropped: unless it was defused, nothing waits for the response
    /// any more, and the receiver is told.
    pub fn cancel(&mut self, guard: &CancelRequestGuard<C::Address>)
        requires
            old(self).wf(),
        ensures
            final(self).wf(),
            final(self)@ == (if guard.defused {
                old(self)@
            } else {
                old(self)@.giving_up(guard.me, guard.to, guard.rid)
            }),
    {
        if let Some(packet) = guard.cancellation() {
            let _ = self.responses.remove(&guard.to, guard.rid);
            self.post(Post::Packet(packet));
        }
    }

    /// A response came. Returns what waits for it, if anything does.
    pub fn complete_response(&mut self, from: &C::Address, id: RequestId) -> (r: Option<
        C::Completion,
    >)
        requires
            old(self).wf(),
        ensures
            final(self).wf(),
            final(self)@ == (Node {
                responses: old(self)@.responses.remove((*from, id)),
                ..old(self)@
            }),
            r == (if old(self)@.responses.contains_key((*from, id)) {
                Some(old(self)@.responses[(*from, id)])
            } else {
                None
            }),
    {
        self.responses.remove(from, id)
    }

    /// A request handler was started whose task is safe to cancel.
    pub fn request_started(&mut self, sender: C::Address, rid: RequestId, task: C::Task)
        requires
            old(self).wf(),
        ensures
            final(self).wf(),
            final(self)@ == (Node {
                running: old(self)@.running.insert((sender, rid), task),
                ..old(self)@
            }),
    {
        self.running_requests.insert(sender, rid, task);
    }

    /// A request handler is done.
    pub fn request_finished(&mut self, sender: &C::Address, rid: RequestId)
        requires
            old(self).wf(),
        ensures
            final(self).wf(),
            final(self)@ == (Node {
                running: old(self)@.running.remove((*sender, rid)),
                ..old(self)@
            }),
    {
        let _ = self.running_requests.remove(sender, rid);
    }

    /// A node gave up on a request. Returns the task to abort, if there is one.
    pub fn on_cancel_request(&mut self, source: &C::Address, cancel: CancelRequest) -> (r: Option<
        C::Task,
    >)
        requires
            old(self).wf(),
        ensures
            final(self).wf(),
            final(self)@ == (Node {
                running: old(self)@.running.remove((*source, cancel.rid)),
                ..old(self)@
            }),
            r == (if old(self)@.running.contains_key((*source, cancel.rid)) {
                Some(old(self)@.running[(*source, cancel.rid)])
            } else {
                None
            }),
    {
        self.running_requests.remove(source, cancel.rid)
    }

    fn pass_on(&self, to: &C::Address, message: Bytes) -> (r: Delivery<C>)
        requires
            self.wf(),
        ensures
            r == self@.passing_on(*to, message),
    {
        match self.forwarder_for(to) {
            Some(connection) => Delivery::Forward { connection, message },
            None => Delivery::NotForwarded,
        }
    }

    /// A message came in over the connection to `packet_source`. `decoded` is its header with what
    /// it carries, or nothing where the header could not be decoded.
    pub fn handle_connection_message(
        &mut self,
        packet_source: &C::Address,
        decoded: Option<(OpaquePacketWrapper<C::Address>, C::EncodedData)>,
        original_message: Bytes,
    ) -> (r: Delivery<C>)
        requires
            old(self).wf(),
        ensures
            final(self).wf(),
            (final(self)@, r) == old(self)@.receiving(*packet_source, decoded, original_message),
    {
        let (opaque, data) = match decoded {
            Some(v) => v,
            None => return Delivery::Malformed,
        };
        let via = Via::Address(copy_of(packet_source));
        match opaque {
            OpaquePacketWrapper::Response { rid, response_from, request_origin, error } => {
                if !self.set.may_be_forwarder_for(&via, &request_origin) {
                    return Delivery::Refused;
                }
                if same(&request_origin, &self.me) {
                    let outcome = match error {
                        Some(e) => Err(ResponseError(e)),
                        None => Ok(data),
                    };
                    return match self.complete_response(&response_from, rid) {
                        Some(completion) => Delivery::Complete { completion, outcome },
                        None => {
                            assert(self@.responses =~= old(self)@.responses);
                            Delivery::TimedOut
                        },
                    };
                }
                self.pass_on(&request_origin, original_message)
            },
            OpaquePacketWrapper::Request { sender, receiver, request, response } => {
                if !self.set.may_be_forwarder_for(&via, &sender) {
                    return Delivery::Refused;
                }
                if same(&receiver, &self.me) {
                    return match response {
                        Some(response) => match self.request_handler.get(&request) {
                            Some(cancel_safe) => Delivery::RunRequest {
                                handler: request,
                                sender,
                                data,
                                rid: response.rid,
                                cancel_safe: *cancel_safe,
                            },
                            None => {
                                let mut error = "no handler defined for ".to_owned();
                                error.append(&decimal_text(request));
                                self.respond_with_error(response.rid, sender, error);
                                Delivery::NoRequestHandler
                            },
                        },
                        None => match self.notification_handler.get(&request) {
                            Some(blocking) => Delivery::RunNotification {
                                handler: request,
                                sender,
                                data,
                                blocking: *blocking,
                            },
                            None => Delivery::NoNotificationHandler,
                        },
                    };
                }
                let delivery = self.pass_on(&receiver, original_message);
                if let Delivery::NotForwarded = delivery {
                    if let Some(response) = response {
                        self.respond_with_error(
                            response.rid,
                            sender,
                            "could not forward message: no connection".to_owned(),
                        );
                    }
                }
                delivery
            },
        }
    }

    fn place_of_resource(&self, id: ResourceId) -> (r: Option<usize>)
        requires
            distinct_held(self@.held),
        ensures
            r matches Some(i) ==> i < self@.held.len() && place_held(self@.held, id) == Some(
                i as int,
            ),
            r is None ==> place_held(self@.held, id) is None,
    {
        for i in 0..self.resources.len()
            invariant
                distinct_held(self@.held),
                forall|j: int| 0 <= j < i ==> (#[trigger] self@.held[j]).id != id,
        {
            if self.resources[i].id.0 == id.0 {
                assert(self@.held[i as int].id == id);
                return Some(i);
            }
        }
        None
    }

    /// Resources went to a peer in a message.
    pub fn register_resources(&mut self, register: RegisterResources<C::Address, C::Cleanup>)
        requires
            old(self).wf(),
        ensures
            final(self).wf(),
            final(self)@ == (Node {
                held: holding_all(old(self)@.held, register.holder, register.items@),
                ..old(self)@
            }),
    {
        let ghost items = register.items@;
        let holder = register.holder;
        for item in iter: register.items
            invariant
                iter.seq() == items,
                self.wf(),
                self@ == (Node {
                    held: holding_all(old(self)@.held, holder, items.take(iter.index())),
                    ..old(self)@
                }),
        {
            let (id, cleanup) = item;
            proof {
                let i = iter.index();
                assert(items.take(i + 1).drop_last() =~= items.take(i));
                assert(items.take(i + 1).last() == items[i]);
            }
            let held = Held { id, holder: copy_of(&holder), cleanup };
            match self.place_of_resource(id) {
                Some(i) => {
                    self.resources.set(i, held);
                },
                None => {
                    self.resources.push(held);
                },
            }
        }
        assert(items.take(items.len() as int) =~= items);
    }

    /// A peer let go of a resource. Returns the cleanup to run, if there is one.
    pub fn on_resource_dropped(&mut self, dropped: ResourceDropped) -> (r: Option<C::Cleanup>)
        requires
            old(self).wf(),
        ensures
            final(self).wf(),
            final(self)@ == old(self)@.without_resource(dropped.id),
            r == old(self)@.cleanup_of(dropped.id),
    {
        match self.place_of_resource(dropped.id) {
            Some(i) => {
                let held = self.resources.remove(i);
                Some(held.cleanup)
            },
            None => None,
        }
    }

    /// A peer cannot be reached any more. Returns the cleanups of the resources that it holds.
    pub fn on_unreachable(&mut self, holder: &C::Address) -> (r: Vec<C::Cleanup>)
        requires
            old(self).wf(),
        ensures
            final(self).wf(),
            final(self)@ == (Node {
                held: old(self)@.held.filter(
                    |h: Held<C::Address, C::Cleanup>| h.holder != *holder,
                ),
                ..old(self)@
            }),
            r@ == cleanups_of(old(self)@.held, *holder),
    {
        let ghost all = self.resources@;
        let ghost gone = |h: Held<C::Address, C::Cleanup>| h.holder == *holder;
        let ghost stays = |h: Held<C::Address, C::Cleanup>| h.holder != *holder;
        let ghost cleanup = |h: Held<C::Address, C::Cleanup>| h.cleanup;
        let mut cleanups: Vec<C::Cleanup> = Vec::new();
        let mut kept: Vec<Held<C::Address, C::Cleanup>> = Vec::new();
        let mut resources: Vec<Held<C::Address, C::Cleanup>> = Vec::new();
        resources.append(&mut self.resources);
        for held in iter: resources
            invariant
                iter.seq() == all,
                gone == (|h: Held<C::Address, C::Cleanup>| h.holder == *holder),
                stays == (|h: Held<C::Address, C::Cleanup>| h.holder != *holder),
                cleanup == (|h: Held<C::Address, C::Cleanup>| h.cleanup),
                cleanups@ == all.take(iter.index()).filter(gone).map_values(cleanup),
                kept@ == all.take(iter.index()).filter(stays),
        {
            proof {
                reveal(Seq::filter);
                let i = iter.index();
                assert(all.take(i + 1).drop_last() =~= all.take(i));
                assert(all.take(i + 1).last() == all[i]);
                if gone(all[i]) {
                    assert(all.take(i + 1).filter(gone).map_values(cleanup) =~= all.take(i).filter(
                        gone,
                    ).map_values(cleanup).push(all[i].cleanup));
                }
            }
            if same(&held.holder, holder) {
                cleanups.push(held.cleanup);
            } else {
                kept.push(held);
            }
        }
        proof {
            assert(all.take(all.len() as int) =~= all);
            lemma_held_filtered(all, stays);
        }
        self.resources = kept;
        cleanups
    }

    fn spreading(&self, change: &RouteChange<C::Address>) -> (r: Vec<Post<C::Address>>)
        ensures
            r@.map_values(|post: Post<C::Address>| post@) == spread(
                self@.me,
                self@.connections,
                *change,
            ),
    {
        let ghost view = |post: Post<C::Address>| post@;
        let ghost tell = |c: Connection<C::Address, C::Sender>|
            match told(*change, c.address) {
                Some(body) => Some(notice(self@.me, c.address, body)),
                None => None,
            };
        let mut posts: Vec<Post<C::Address>> = Vec::new();
        for i in 0..self.connections.len()
            invariant
                posts@.map_values(view) == self.connections@.take(i as int).filter_map(tell),
                view == (|post: Post<C::Address>| post@),
                tell == (|c: Connection<C::Address, C::Sender>|
                    match told(*change, c.address) {
                        Some(body) => Some(notice(self@.me, c.address, body)),
                        None => None,
                    }),
        {
            proof {
                assert(self.connections@.take(i + 1).drop_last() =~= self.connections@.take(
                    i as int,
                ));
                assert(self.connections@.take(i + 1).last() == self.connections@[i as int]);
            }
            let ghost before = posts@;
            let address = &self.connections[i].address;
            if let Some(body) = told_to(change, address) {
                let packet = self.packet(address, body);
                posts.push(Post::Packet(packet));
                assert(posts@.map_values(view) =~= before.map_values(view).push(posts@.last()@));
                assert(posts@.map_values(view) =~= self.connections@.take(i + 1).filter_map(tell));
            }
        }
        assert(self.connections@.take(self.connections@.len() as int) =~= self.connections@);
        posts
    }

    /// Tells the peers of a change of the routes.
    pub fn spread_change(&mut self, change: &RouteChange<C::Address>)
        requires
            old(self).wf(),
        ensures
            final(self).wf(),
            final(self)@ == old(self)@.posting(
                spread(old(self)@.me, old(self)@.connections, *change),
            ),
    {
        let posts = self.spreading(change);
        self.post_all(posts);
    }

    /// Handles an event, and returns what is left to do.
    pub fn handle_event(&mut self, event: RootEvent<C::Address, C::Cleanup>) -> (r: Action<C>)
        requires
            old(self).wf(),
        ensures
            final(self).wf(),
            handled(old(self)@, event, final(self)@, r),
    {
        match event {
            RootEvent::ConnectionMessage(input) => Action::Decode(input),
            RootEvent::ConnectionEnding(ending) => {
                self.remove_direct(&ending.from);
                Action::Done
            },
            RootEvent::OutgoingMessage(out) => match self.forwarder_for(&out.to) {
                Some(connection) => Action::Send { connection, message: out.message },
                None => Action::NoPath { to: out.to },
            },
            RootEvent::RegisterResources(register) => {
                self.register_resources(register);
                Action::Done
            },
            RootEvent::MinRttUpdated(updated) => {
                self.spread_change(&RouteChange::MinRttUpdated(updated));
                Action::Done
            },
            RootEvent::ViaListSeconded(seconded) => {
                self.spread_change(&RouteChange::ViaListSeconded(seconded));
                Action::Done
            },
            RootEvent::ViaListUnseconded(unseconded) => {
                self.spread_change(&RouteChange::ViaListUnseconded(unseconded));
                Action::Done
            },
            RootEvent::ConnectionAdded(added) => {
                let to = copy_of(&added.to);
                self.spread_change(&RouteChange::ConnectionAdded(added));
                Action::Announce { to }
            },
            RootEvent::ConnectionRemoved(removed) => {
                let to = copy_of(&removed.to);
                self.spread_change(&RouteChange::ConnectionRemoved(removed));
                let cleanups = self.on_unreachable(&to);
                Action::CleanUp { cleanups }
            },
        }
    }
}

/// What is left to do about an event.
pub enum Action<C: Config> {
    /// Decode the header of the message, and hand both back.
    Decode(ConnectionMessage<C::Address>),
    /// Send the message over the connection at this place.
    Send { connection: usize, message: Bytes },
    /// The message cannot be sent: no way leads to its receiver.
    NoPath { to: C::Address },
    /// Tell those who wait for it that a node can be reached.
    Announce { to: C::Address },
    /// Run the cleanups.
    CleanUp { cleanups: Vec<C::Cleanup> },
    /// Nothing.
    Done,
}

/// What an event makes of a node, and what is left to do about it.
pub open spec fn handled<C: Config>(
    before: Node<C>,
    event: RootEvent<C::Address, C::Cleanup>,
    after: Node<C>,
    action: Action<C>,
) -> bool {
    match event {
        RootEvent::ConnectionMessage(input) => after == before && action == Action::<C>::Decode(
            input,
        ),
        RootEvent::ConnectionEnding(ending) => after == before.without_direct(ending.from)
            && action is Done,
        RootEvent::OutgoingMessage(out) => after == before && action == (match before.route_to(
            out.to,
        ) {
            Some(i) => Action::<C>::Send { connection: i as usize, message: out.message },
            None => Action::<C>::NoPath { to: out.to },
        }),
        RootEvent::RegisterResources(register) => after == (Node {
            held: holding_all(before.held, register.holder, register.items@),
            ..before
        }) && action is Done,
        RootEvent::MinRttUpdated(updated) => after == before.posting(
            spread(before.me, before.connections, RouteChange::MinRttUpdated(updated)),
        ) && action is Done,
        RootEvent::ViaListSeconded(seconded) => after == before.posting(
            spread(before.me, before.connections, RouteChange::ViaListSeconded(seconded)),
        ) && action is Done,
        RootEvent::ViaListUnseconded(unseconded) => after == before.posting(
            spread(before.me, before.connections, RouteChange::ViaListUnseconded(unseconded)),
        ) && action is Done,
        RootEvent::ConnectionAdded(added) => after == before.posting(
            spread(before.me, before.connections, RouteChange::ConnectionAdded(added)),
        ) && action == (Action::<C>::Announce { to: added.to }),
        RootEvent::ConnectionRemoved(removed) => {
            &&& after == (Node {
                held: before.held.filter(
                    |h: Held<C::Address, C::Cleanup>| h.holder != removed.to,
                ),
                ..before
            }).posting(spread(before.me, before.connections, RouteChange::ConnectionRemoved(removed)))
            &&& action matches Action::CleanUp { cleanups }
            &&& cleanups@ == cleanups_of(before.held, removed.to)
        },
    }
}

/// Starts a handler. `decoded` is what the message carries: the handler is called with it, once,
/// and what it gave back is returned. Where the data could not be decoded, the handler is not
/// called.
pub fn start_handler<A, T, E, R>(
    source: A,
    decoded: Result<T, E>,
    handler: impl FnOnce(A, T) -> R,
) -> (r: Result<R, E>)
    requires
        decoded matches Ok(data) ==> call_requires(handler, (source, data)),
    ensures
        match decoded {
            Ok(data) => r matches Ok(started) && call_ensures(handler, (source, data), started),
            Err(e) => r == Err::<R, E>(e),
        },
{
    match decoded {
        Ok(data) => Ok(handler(source, data)),
        Err(e) => Err(e),
    }
}

/// How a request handler ended.
pub enum Handled {
    /// The request could not be decoded.
    ParseFailed(String),
    /// There is a response.
    Done,
    /// There is none, but an error.
    Failed(ResponseError),
}

/// The header of the answer to a request whose handler ended.
pub fn reply<C: Config>(
    rid: RequestId,
    me: C::Address,
    respond_to: C::Address,
    handled: Handled,
) -> (r: OpaquePacketWrapper<C::Address>)
    ensures
        r@ == (match handled {
            Handled::ParseFailed(e) => Header::error_response(
                rid,
                me,
                respond_to,
                "failed to parse request: "@ + e@,
            ),
            Handled::Done => Header::response(rid, me, respond_to),
            Handled::Failed(e) => Header::error_response(rid, me, respond_to, e.0@),
        }),
{
    match handled {
        Handled::ParseFailed(e) => {
            let mut error = "failed to parse request: ".to_owned();
            error.append(&e);
            C::encode_error_response(rid, me, respond_to, error)
        },
        Handled::Done => C::encode_response(rid, me, respond_to),
        Handled::Failed(e) => C::encode_error_response(rid, me, respond_to, e.0),
    }
}

/// How a request ends: `received` is what came to the one who waits for the response, or nothing
/// where nobody is left who could send it.
pub fn request_outcome<C: Config>(received: Option<Result<C::EncodedData, C::Error>>) -> (r: Result<
    C::EncodedData,
    C::Error,
>)
    ensures
        received matches Some(outcome) ==> r == outcome,
        received is None ==> (r matches Err(e) && call_ensures(
            <C::Error as From<ListenerForYourRequestHasBeenDeadError>>::from,
            (ListenerForYourRequestHasBeenDeadError,),
            e,
        )),
{
    match received {
        Some(outcome) => outcome,
        None => Err(From::from(ListenerForYourRequestHasBeenDeadError)),
    }
}

/// Whether there is something to wait for.
pub enum Wait<L> {
    /// The node can be reached already.
    Over,
    /// The node is waited for, by listening to the announcements.
    On(L),
}

/// The node that was waited for will not be announced any more.
pub struct WaitError;

/// What waiting for a node ends with when `announced` is the next node that is announced, or
/// nothing where no more announcements come; nothing where the wait goes on.
pub open spec fn wait_step<A>(address: A, announced: Option<A>) -> Option<Result<(), WaitError>> {
    match announced {
        Some(a) => if a == address {
            Some(Ok(()))
        } else {
            None
        },
        None => Some(Err(WaitError)),
    }
}

/// What waiting for a node ends with when these are the next announcements.
pub open spec fn wait_outcome<A>(address: A, announced: Seq<Option<A>>) -> Option<
    Result<(), WaitError>,
>
    decreases announced.len(),
{
    if announced.len() == 0 {
        None
    } else {
        match wait_outcome(address, announced.drop_last()) {
            Some(done) => Some(done),
            None => wait_step(address, announced.last()),
        }
    }
}

/// What waiting for a node ends with when `announced` is the next node that is announced, or
/// nothing where no more announcements come; nothing where the wait goes on.
pub fn wait_for_connection_to<A: AddressT>(address: &A, announced: Option<A>) -> (r: Option<
    Result<(), WaitError>,
>)
    ensures
        r == wait_step(*address, announced),
{
    match announced {
        Some(a) => if same(&a, address) {
            Some(Ok(()))
        } else {
            None
        },
        None => Some(Err(WaitError)),
    }
}

/// Gives up on a request when it is dropped, unless it was defused.
pub struct CancelRequestGuard<A> {
    pub me: A,
    pub to: A,
    pub rid: RequestId,
    pub defused: bool,
}

impl<A: AddressT> CancelRequestGuard<A> {
    /// From now on dropping the guard does nothing.
    pub fn defuse(&mut self)
        ensures
            *final(self) == (CancelRequestGuard { defused: true, ..*old(self) }),
    {
        self.defused = true;
    }

    /// What the receiver of the request is told when the guard is dropped.
    pub fn cancellation(&self) -> (r: Option<Packet<A>>)
        ensures
            r is None <==> self.defused,
            r matches Some(packet) ==> Posted::Packet(packet@) == notice(
                self.me,
                self.to,
                Body::CancelRequest(CancelRequest { rid: self.rid }),
            ),
    {
        if self.defused {
            return None;
        }
        Some(
            Packet {
                headers: OpaquePacketWrapper::Request {
                    sender: copy_of(&self.me),
                    receiver: copy_of(&self.to),
                    request: CANCEL_REQUEST,
                    response: None,
                },
                body: Body::CancelRequest(CancelRequest { rid: self.rid }),
            },
        )
    }
}

} // verus!
