//! What a node is, and what each event makes of it.

use crate::config::Config;
use crate::error::ResponseError;
use crate::internal_handlers::{AddForwarded, Body, CancelRequest};
use crate::packet::{Header, OpaquePacketWrapper, Packet, PacketView, RequestId};
use crate::peers::last_id;
use crate::resource::ResourceId;
use crate::route::{
    best, changes_for, changes_of, destinations, distinct_hops, listing, may_forward, min_rtt,
    outlives, told, with_hop, without_peer, Hop, MinRtt, RouteChange, Rtt, Via,
};
use bytes::Bytes;
use vstd::prelude::*;

verus! {

/// A connection to a peer.
pub struct Connection<Address, Sender> {
    pub address: Address,
    pub sender: Sender,
}

/// A resource that a peer holds a handle to.
pub struct Held<Address, Cleanup> {
    pub id: ResourceId,
    pub holder: Address,
    pub cleanup: Cleanup,
}

/// Something that a node posts to its own event loop.
pub enum Post<Address> {
    /// A change of the routes, to tell peers of.
    Route(RouteChange<Address>),
    /// A packet of the link itself, to encode and send.
    Packet(Packet<Address>),
}

/// What was posted.
pub enum Posted<Address> {
    Route(RouteChange<Address>),
    Packet(PacketView<Address>),
}

impl<Address> View for Post<Address> {
    type V = Posted<Address>;

    open spec fn view(&self) -> Posted<Address> {
        match *self {
            Post::Route(change) => Posted::Route(change),
            Post::Packet(packet) => Posted::Packet(packet@),
        }
    }
}

/// What there is to do with a message that came in.
pub enum Delivery<C: Config> {
    /// The header could not be decoded: the message is dropped.
    Malformed,
    /// The message came by a way that does not lead to its origin: it is dropped.
    Refused,
    /// The response that was waited for: hand over the data.
    Complete { completion: C::Completion, outcome: Result<C::EncodedData, ResponseError> },
    /// Nobody waits for the response: it is dropped.
    TimedOut,
    /// The message is for another node: send it on over the connection at this place.
    Forward { connection: usize, message: Bytes },
    /// The message is for a node that cannot be reached.
    NotForwarded,
    /// Run a request handler. If it is safe to cancel, keep its task.
    RunRequest {
        handler: u16,
        sender: C::Address,
        data: C::EncodedData,
        rid: RequestId,
        cancel_safe: bool,
    },
    /// No handler has the name of the request.
    NoRequestHandler,
    /// Run a notification handler. If it is blocking, wait until it is done.
    RunNotification { handler: u16, sender: C::Address, data: C::EncodedData, blocking: bool },
    /// No handler has the name of the notification.
    NoNotificationHandler,
}

/// The place of the connection to a peer.
pub open spec fn place_of<A, S>(connections: Seq<Connection<A, S>>, address: A) -> Option<int> {
    if exists|i: int| 0 <= i < connections.len() && (#[trigger] connections[i]).address == address {
        Some(
            choose|i: int|
                0 <= i < connections.len() && (#[trigger] connections[i]).address == address,
        )
    } else {
        None
    }
}

/// Whether a peer is known as reachable over the connection to it.
pub open spec fn is_direct<A>(hops: Seq<Hop<A>>, peer: A) -> bool {
    exists|i: int|
        0 <= i < hops.len() && (#[trigger] hops[i]).to == peer && hops[i].via is Direct
}

/// The place of a resource.
pub open spec fn place_held<A, F>(held: Seq<Held<A, F>>, id: ResourceId) -> Option<int> {
    if exists|i: int| 0 <= i < held.len() && (#[trigger] held[i]).id == id {
        Some(choose|i: int| 0 <= i < held.len() && (#[trigger] held[i]).id == id)
    } else {
        None
    }
}

/// The resources after one more was registered, in the place of the one that had its number.
pub open spec fn holding<A, F>(held: Seq<Held<A, F>>, new: Held<A, F>) -> Seq<Held<A, F>> {
    match place_held(held, new.id) {
        Some(i) => held.update(i, new),
        None => held.push(new),
    }
}

/// The resources after more were registered, one after the other.
pub open spec fn holding_all<A, F>(
    held: Seq<Held<A, F>>,
    holder: A,
    items: Seq<(ResourceId, F)>,
) -> Seq<Held<A, F>>
    decreases items.len(),
{
    if items.len() == 0 {
        held
    } else {
        let (id, cleanup) = items.last();
        holding(
            holding_all(held, holder, items.drop_last()),
            Held { id, holder, cleanup },
        )
    }
}

/// The cleanup that is kept under a number.
pub open spec fn cleanup_in<A, F>(held: Seq<Held<A, F>>, id: ResourceId) -> Option<F> {
    match place_held(held, id) {
        Some(i) => Some(held[i].cleanup),
        None => None,
    }
}

/// The cleanups of the resources that a peer holds, in the order in which they were registered.
pub open spec fn cleanups_of<A, F>(held: Seq<Held<A, F>>, holder: A) -> Seq<F> {
    held.filter(|h: Held<A, F>| h.holder == holder).map_values(|h: Held<A, F>| h.cleanup)
}

/// A notification of the link itself.
pub open spec fn notice<A>(me: A, to: A, body: Body<A>) -> Posted<A> {
    Posted::Packet(
        PacketView { header: Header::notification(me, to, body.spec_name()), body },
    )
}

/// The answer to a refused request.
pub open spec fn refusal<A>(me: A, to: A, rid: RequestId, error: Seq<char>) -> Posted<A> {
    Posted::Packet(
        PacketView { header: Header::error_response(rid, me, to, error), body: Body::Unit },
    )
}

/// The digit `n` as a character.
pub open spec fn digit(n: nat) -> char {
    (('0' as u32) + n) as char
}

/// A number as decimal digits.
pub open spec fn decimal(n: nat) -> Seq<char>
    decreases n,
{
    if n < 10 {
        seq![digit(n)]
    } else {
        decimal(n / 10).push(digit(n % 10))
    }
}

/// What a request is answered with that no handler has the name of.
pub open spec fn no_handler_text(name: u16) -> Seq<char> {
    "no handler defined for "@ + decimal(name as nat)
}

/// What a newly connected peer is told: of each node that can be reached, how near it is for that
/// peer.
pub open spec fn greeting<A>(me: A, peer: A, routes: Seq<(A, MinRtt<A>)>) -> Seq<Posted<A>> {
    routes.filter_map(
        |route: (A, MinRtt<A>)|
            match route.1.spec_offer(peer) {
                Some(rtt) => Some(
                    notice(me, peer, Body::AddForwarded(AddForwarded { to: route.0, rtt })),
                ),
                None => None,
            },
    )
}

/// What a change of the routes makes a node tell its peers, in the order of the connections.
pub open spec fn spread<A, S>(
    me: A,
    connections: Seq<Connection<A, S>>,
    change: RouteChange<A>,
) -> Seq<Posted<A>> {
    connections.filter_map(
        |c: Connection<A, S>|
            match told(change, c.address) {
                Some(body) => Some(notice(me, c.address, body)),
                None => None,
            },
    )
}

/// There is one connection at most to each peer.
pub open spec fn distinct_connections<A, S>(connections: Seq<Connection<A, S>>) -> bool {
    forall|i: int, j: int|
        0 <= i < j < connections.len() ==> (#[trigger] connections[i]).address != (
        #[trigger] connections[j]).address
}

/// Every way to a node leads over a connection, and every connection is a way to its peer.
pub open spec fn ways_out<A, S>(hops: Seq<Hop<A>>, connections: Seq<Connection<A, S>>) -> bool {
    &&& forall|i: int|
        0 <= i < hops.len() ==> place_of(connections, (#[trigger] hops[i]).first()) is Some
    &&& forall|i: int|
        0 <= i < connections.len() ==> is_direct(hops, (#[trigger] connections[i]).address)
}

/// Only responses to requests that were numbered are waited for.
pub open spec fn awaited_were_numbered<A, V>(
    responses: Map<(A, RequestId), V>,
    issued: Map<A, usize>,
) -> bool {
    forall|key: (A, RequestId)| #[trigger]
        responses.contains_key(key) ==> 0 < key.1.0 <= last_id(issued, key.0)
}

/// No two resources have one number.
pub open spec fn distinct_held<A, F>(held: Seq<Held<A, F>>) -> bool {
    forall|i: int, j: int|
        0 <= i < j < held.len() ==> (#[trigger] held[i]).id != (#[trigger] held[j]).id
}

/// A node.
#[verifier::ext_equal]
pub struct Node<C: Config> {
    pub me: C::Address,
    pub hops: Seq<Hop<C::Address>>,
    pub connections: Seq<Connection<C::Address, C::Sender>>,
    /// The names of the request handlers, and whether they are safe to cancel.
    pub request_handlers: Map<u16, bool>,
    /// The names of the notification handlers, and whether they are blocking.
    pub notification_handlers: Map<u16, bool>,
    /// The request handlers that run, by the sender and the number of the request.
    pub running: Map<(C::Address, RequestId), C::Task>,
    /// What waits for responses, by the receiver and the number of the request.
    pub responses: Map<(C::Address, RequestId), C::Completion>,
    /// The last number that was given to a request to each peer.
    pub issued: Map<C::Address, usize>,
    /// The resources that peers hold handles to.
    pub held: Seq<Held<C::Address, C::Cleanup>>,
    /// What the node posted to its event loop.
    pub posts: Seq<Posted<C::Address>>,
}

impl<C: Config> Node<C> {
    /// What holds of a node at all times.
    pub open spec fn ok(self) -> bool {
        &&& distinct_hops(self.hops)
        &&& distinct_connections(self.connections)
        &&& ways_out(self.hops, self.connections)
        &&& awaited_were_numbered(self.responses, self.issued)
        &&& distinct_held(self.held)
    }

    /// Whether there is a connection to a peer.
    pub open spec fn connected(self, peer: C::Address) -> bool {
        place_of(self.connections, peer) is Some
    }

    /// The node after it posted something.
    pub open spec fn posting(self, posts: Seq<Posted<C::Address>>) -> Self {
        Node { posts: self.posts + posts, ..self }
    }

    /// The place of the connection over which messages to a node leave.
    pub open spec fn route_to(self, to: C::Address) -> Option<int> {
        match best(self.hops, to, Seq::empty()) {
            Some(hop) => place_of(self.connections, hop.first()),
            None => None,
        }
    }

    /// The node after a connection was made; nothing happens where there is one already.
    pub open spec fn with_direct(self, to: C::Address, sender: C::Sender, rtt: Rtt) -> Self {
        if self.connected(to) {
            self
        } else {
            let hops = with_hop(self.hops, to, Via::Direct, rtt);
            Node {
                hops,
                connections: self.connections.push(Connection { address: to, sender }),
                ..self
            }.posting(
                changes_of(to, min_rtt(self.hops, to), min_rtt(hops, to)).map_values(
                    |change: RouteChange<C::Address>| Posted::Route(change),
                ),
            ).posting(greeting(self.me, to, listing(hops)))
        }
    }

    /// The node after the connection to a peer went; nothing happens where there is none.
    pub open spec fn without_direct(self, peer: C::Address) -> Self {
        match place_of(self.connections, peer) {
            None => self,
            Some(i) => {
                let hops = without_peer(self.hops, peer);
                Node { hops, connections: self.connections.remove(i), ..self }.posting(
                    changes_for(destinations(self.hops), self.hops, hops).map_values(
                        |change: RouteChange<C::Address>| Posted::Route(change),
                    ),
                )
            },
        }
    }

    /// The node after a peer said that it can forward messages; a node that is no peer is not
    /// listened to.
    pub open spec fn with_forwarded(
        self,
        source: C::Address,
        add: AddForwarded<C::Address>,
    ) -> Self {
        if self.connected(source) {
            let hops = with_hop(self.hops, add.to, Via::Address(source), add.rtt);
            Node { hops, ..self }.posting(
                changes_of(add.to, min_rtt(self.hops, add.to), min_rtt(hops, add.to)).map_values(
                    |change: RouteChange<C::Address>| Posted::Route(change),
                ),
            )
        } else {
            self
        }
    }

    /// The number of the next request to a node.
    pub open spec fn next_request(self, to: C::Address) -> RequestId {
        RequestId((last_id(self.issued, to) + 1) as usize)
    }

    /// The node after a request was made whose response `completion` waits for.
    pub open spec fn with_request(self, to: C::Address, completion: C::Completion) -> Self {
        let rid = self.next_request(to);
        Node {
            issued: self.issued.insert(to, rid.0),
            responses: self.responses.insert((to, rid), completion),
            ..self
        }
    }

    /// The node after it gave up on a request that `me` made: nothing waits for the response any
    /// more, and the receiver is told.
    pub open spec fn giving_up(self, me: C::Address, to: C::Address, rid: RequestId) -> Self {
        Node { responses: self.responses.remove((to, rid)), ..self }.posting(
            seq![notice(me, to, Body::CancelRequest(CancelRequest { rid }))],
        )
    }

    /// The node after it let go of a resource.
    pub open spec fn without_resource(self, id: ResourceId) -> Self {
        match place_held(self.held, id) {
            Some(i) => Node { held: self.held.remove(i), ..self },
            None => self,
        }
    }

    /// The cleanup of a resource.
    pub open spec fn cleanup_of(self, id: ResourceId) -> Option<C::Cleanup> {
        cleanup_in(self.held, id)
    }

    /// What becomes of a message for another node.
    pub open spec fn passing_on(self, to: C::Address, message: Bytes) -> Delivery<C> {
        match self.route_to(to) {
            Some(i) => Delivery::Forward { connection: i as usize, message },
            None => Delivery::NotForwarded,
        }
    }

    /// What becomes of the node and of a message that came in over the connection to `source`.
    pub open spec fn receiving(
        self,
        source: C::Address,
        decoded: Option<(OpaquePacketWrapper<C::Address>, C::EncodedData)>,
        message: Bytes,
    ) -> (Self, Delivery<C>) {
        match decoded {
            None => (self, Delivery::Malformed),
            Some(
                (OpaquePacketWrapper::Response { rid, response_from, request_origin, error }, data),
            ) => {
                if !may_forward(self.hops, Via::Address(source), request_origin) {
                    (self, Delivery::Refused)
                } else if request_origin == self.me {
                    self.completing(
                        response_from,
                        rid,
                        match error {
                            Some(e) => Err(ResponseError(e)),
                            None => Ok(data),
                        },
                    )
                } else {
                    (self, self.passing_on(request_origin, message))
                }
            },
            Some((OpaquePacketWrapper::Request { sender, receiver, request, response }, data)) => {
                if !may_forward(self.hops, Via::Address(source), sender) {
                    (self, Delivery::Refused)
                } else if receiver == self.me {
                    match response {
                        Some(to) => if self.request_handlers.contains_key(request) {
                            (
                                self,
                                Delivery::RunRequest {
                                    handler: request,
                                    sender,
                                    data,
                                    rid: to.rid,
                                    cancel_safe: self.request_handlers[request],
                                },
                            )
                        } else {
                            (
                                self.posting(
                                    seq![
                                        refusal(self.me, sender, to.rid, no_handler_text(request)),
                                    ],
                                ),
                                Delivery::NoRequestHandler,
                            )
                        },
                        None => if self.notification_handlers.contains_key(request) {
                            (
                                self,
                                Delivery::RunNotification {
                                    handler: request,
                                    sender,
                                    data,
                                    blocking: self.notification_handlers[request],
                                },
                            )
                        } else {
                            (self, Delivery::NoNotificationHandler)
                        },
                    }
                } else {
                    let delivery = self.passing_on(receiver, message);
                    if delivery is NotForwarded && response is Some {
                        (
                            self.posting(
                                seq![
                                    refusal(
                                        self.me,
                                        sender,
                                        response->0.rid,
                                        "could not forward message: no connection"@,
                                    ),
                                ],
                            ),
                            delivery,
                        )
                    } else {
                        (self, delivery)
                    }
                }
            },
        }
    }

    /// What becomes of the node and of a response to one of its requests.
    pub open spec fn completing(
        self,
        from: C::Address,
        rid: RequestId,
        outcome: Result<C::EncodedData, ResponseError>,
    ) -> (Self, Delivery<C>) {
        if self.responses.contains_key((from, rid)) {
            (
                Node { responses: self.responses.remove((from, rid)), ..self },
                Delivery::Complete { completion: self.responses[(from, rid)], outcome },
            )
        } else {
            (self, Delivery::TimedOut)
        }
    }
}

impl<A> Hop<A> {
    /// The peer that messages are handed to first.
    pub open spec fn first(self) -> A {
        match self.via {
            Via::Address(peer) => peer,
            Via::Direct => self.to,
        }
    }
}

/// A way over a connection that is there, or is made, keeps the ways and the connections in step.
pub proof fn lemma_ways_with<A, S>(
    hops: Seq<Hop<A>>,
    connections: Seq<Connection<A, S>>,
    to: A,
    via: Via<A>,
    rtt: Rtt,
    after: Seq<Connection<A, S>>,
)
    requires
        ways_out(hops, connections),
        connections.is_prefix_of(after),
        place_of(after, (Hop { to, via, rtt }).first()) is Some,
        forall|i: int|
            connections.len() <= i < after.len() ==> (#[trigger] after[i]).address == to,
        connections.len() < after.len() ==> via is Direct,
    ensures
        ways_out(with_hop(hops, to, via, rtt), after),
{
    let new = with_hop(hops, to, via, rtt);
    assert forall|a: A| place_of(connections, a) is Some implies #[trigger] place_of(
        after,
        a,
    ) is Some by {
        let k = choose|k: int|
            0 <= k < connections.len() && (#[trigger] connections[k]).address == a;
        assert(after[k].address == a);
    }
    assert forall|i: int| 0 <= i < new.len() implies place_of(
        after,
        (#[trigger] new[i]).first(),
    ) is Some by {
        if i < hops.len() {
            assert(place_of(connections, hops[i].first()) is Some);
            assert(place_of(after, hops[i].first()) is Some);
        }
    }
    assert forall|i: int| 0 <= i < after.len() implies is_direct(
        new,
        (#[trigger] after[i]).address,
    ) by {
        if i < connections.len() {
            assert(after[i] == connections[i]);
            let k = choose|k: int|
                0 <= k < hops.len() && (#[trigger] hops[k]).to == connections[i].address
                    && hops[k].via is Direct;
            assert(new[k].to == connections[i].address && new[k].via is Direct);
        } else {
            assert(via is Direct && after[i].address == to);
            if exists|k: int|
                0 <= k < hops.len() && (#[trigger] hops[k]).to == to && hops[k].via == via {
                let k = choose|k: int|
                    0 <= k < hops.len() && (#[trigger] hops[k]).to == to && hops[k].via == via;
                assert(new[k] == (Hop { to, via, rtt }));
            } else {
                assert(new[hops.len() as int].to == to);
            }
        }
    }
}

/// Taking away a connection together with every way over it keeps the ways and the connections in
/// step.
pub proof fn lemma_ways_without<A, S>(
    hops: Seq<Hop<A>>,
    connections: Seq<Connection<A, S>>,
    i: int,
)
    requires
        ways_out(hops, connections),
        distinct_connections(connections),
        0 <= i < connections.len(),
    ensures
        ways_out(without_peer(hops, connections[i].address), connections.remove(i)),
        distinct_connections(connections.remove(i)),
{
    let peer = connections[i].address;
    let keep = |hop: Hop<A>| outlives(hop, peer);
    let new = without_peer(hops, peer);
    let after = connections.remove(i);
    assert forall|a: int, b: int| 0 <= a < b < after.len() implies (#[trigger] after[a]).address
        != (#[trigger] after[b]).address by {
        let m = if a < i {
            a
        } else {
            a + 1
        };
        let n = if b < i {
            b
        } else {
            b + 1
        };
        assert(after[a] == connections[m] && after[b] == connections[n]);
    }
    assert forall|k: int| 0 <= k < new.len() implies place_of(
        after,
        (#[trigger] new[k]).first(),
    ) is Some by {
        hops.lemma_filter_pred(keep, k);
        assert(new.contains(new[k]));
        hops.lemma_filter_contains_rev(keep, new[k]);
        let m = choose|m: int| 0 <= m < hops.len() && hops[m] == new[k];
        let first = hops[m].first();
        assert(first != peer);
        let c = choose|c: int|
            0 <= c < connections.len() && (#[trigger] connections[c]).address == first;
        let d = if c < i {
            c
        } else {
            c - 1
        };
        assert(after[d].address == first);
    }
    assert forall|a: int| 0 <= a < after.len() implies is_direct(
        new,
        (#[trigger] after[a]).address,
    ) by {
        let m = if a < i {
            a
        } else {
            a + 1
        };
        assert(after[a] == connections[m]);
        let address = connections[m].address;
        if m < i {
            assert(connections[m].address != connections[i].address);
        } else {
            assert(connections[i].address != connections[m].address);
        }
        let k = choose|k: int|
            0 <= k < hops.len() && (#[trigger] hops[k]).to == address && hops[k].via is Direct;
        assert(keep(hops[k]));
        hops.lemma_filter_contains(keep, k);
        let n = choose|n: int| 0 <= n < new.len() && new[n] == hops[k];
        assert(new[n].to == address && new[n].via is Direct);
    }
}

/// No two of the resources that are kept have one number.
pub proof fn lemma_held_filtered<A, F>(held: Seq<Held<A, F>>, keep: spec_fn(Held<A, F>) -> bool)
    requires
        distinct_held(held),
    ensures
        distinct_held(held.filter(keep)),
    decreases held.len(),
{
    reveal(Seq::filter);
    if held.len() > 0 {
        let earlier = held.drop_last();
        assert forall|i: int, j: int| 0 <= i < j < earlier.len() implies (#[trigger] earlier[i]).id
            != (#[trigger] earlier[j]).id by {
            assert(earlier[i] == held[i] && earlier[j] == held[j]);
        }
        lemma_held_filtered(earlier, keep);
        let kept = earlier.filter(keep);
        assert forall|i: int| 0 <= i < kept.len() implies (#[trigger] kept[i]).id
            != held.last().id by {
            assert(kept.contains(kept[i]));
            earlier.lemma_filter_contains_rev(keep, kept[i]);
            let k = choose|k: int| 0 <= k < earlier.len() && earlier[k] == kept[i];
            assert(held[k] == kept[i]);
            assert(held[held.len() - 1] == held.last());
        }
    }
}

} // verus!
