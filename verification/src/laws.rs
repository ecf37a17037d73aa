//! What holds of nodes over several events, and of several nodes together.

use crate::config::Config;
use crate::error::ResponseError;
use crate::internal_handlers::{AddForwarded, Body, CancelRequest, ResourceDropped};
use crate::node::{
    cleanup_in, cleanups_of, distinct_held, greeting, holding, holding_all, is_direct,
    lemma_held_filtered, no_handler_text, notice, place_held, place_of, refusal, Delivery, Held,
    Node, Posted,
};
use crate::packet::{Header, OpaquePacketWrapper, PacketView, RequestId, ResponseTo};
use crate::peers::last_id;
use crate::resource::{drop_notice, parking, ResourceId};
use crate::route::{
    best, changes_for, changes_of, destinations, leads, lemma_best, lemma_destinations, listing,
    may_forward, min_rtt, min_rtt_gives_offers, offer, outlives, reaches, with_hop, without_peer,
    ConnectionAdded, ConnectionRemoved, Hop, MinRtt, RouteChange, Rtt, Via,
};
use crate::rpc::wait_outcome;
use bytes::Bytes;
use vstd::prelude::*;

verus! {

/// A node that can be reached has a connection over which messages to it leave, and no other node
/// has.
pub proof fn reachable_nodes_have_a_connection<C: Config>(node: Node<C>, to: C::Address)
    requires
        node.ok(),
    ensures
        match node.route_to(to) {
            Some(i) => 0 <= i < node.connections.len() && reaches(node.hops, to),
            None => !reaches(node.hops, to),
        },
{
    let none = Seq::<Via<C::Address>>::empty();
    lemma_best(node.hops, to, none);
    match best(node.hops, to, none) {
        Some(hop) => {
            let i = choose|i: int| 0 <= i < node.hops.len() && node.hops[i] == hop;
            assert(node.hops[i].to == to);
            assert(place_of(node.connections, node.hops[i].first()) is Some);
        },
        None => {
            if reaches(node.hops, to) {
                let i = choose|i: int| 0 <= i < node.hops.len() && #[trigger] node.hops[i].to == to;
                assert(leads(node.hops[i], to, none));
            }
        },
    }
}

/// A peer can be reached, and what it says for itself over its connection is listened to.
pub proof fn peers_are_listened_to<C: Config>(node: Node<C>, peer: C::Address)
    requires
        node.ok(),
        node.connected(peer),
    ensures
        reaches(node.hops, peer),
        may_forward(node.hops, Via::Address(peer), peer),
{
    let i = choose|i: int|
        0 <= i < node.connections.len() && (#[trigger] node.connections[i]).address == peer;
    assert(is_direct(node.hops, node.connections[i].address));
    let k = choose|k: int|
        0 <= k < node.hops.len() && (#[trigger] node.hops[k]).to == peer && node.hops[k].via
            is Direct;
    assert(node.hops[k].to == peer);
}

/// A message that comes by a way that does not lead to its origin changes nothing, and nobody is
/// told.
pub proof fn messages_by_wrong_ways_change_nothing<C: Config>(
    node: Node<C>,
    source: C::Address,
    header: OpaquePacketWrapper<C::Address>,
    data: C::EncodedData,
    message: Bytes,
)
    requires
        match header {
            OpaquePacketWrapper::Request { sender, .. } => !may_forward(
                node.hops,
                Via::Address(source),
                sender,
            ),
            OpaquePacketWrapper::Response { request_origin, .. } => !may_forward(
                node.hops,
                Via::Address(source),
                request_origin,
            ),
        },
    ensures
        node.receiving(source, Some((header, data)), message) == (node, Delivery::<C>::Refused),
{
}

/// A request that comes by a right way and is not handled, here or by a node that it can be sent
/// on to, is answered at once: one error goes to its sender, under the number of the request and
/// in the name of this node. A request that is handled is not. Where this node is not the one that
/// was asked, the answer finds nobody: see [`answers_of_others_find_nobody`].
pub proof fn refused_requests_are_answered<C: Config>(
    node: Node<C>,
    source: C::Address,
    sender: C::Address,
    receiver: C::Address,
    request: u16,
    rid: RequestId,
    data: C::EncodedData,
    message: Bytes,
)
    requires
        may_forward(node.hops, Via::Address(source), sender),
    ensures
        ({
            let header = OpaquePacketWrapper::Request {
                sender,
                receiver,
                request,
                response: Some(ResponseTo { rid }),
            };
            let (after, delivery) = node.receiving(source, Some((header, data)), message);
            let handled = if receiver == node.me {
                node.request_handlers.contains_key(request)
            } else {
                node.route_to(receiver) is Some
            };
            &&& handled ==> after == node && (delivery is RunRequest || delivery is Forward)
            &&& !handled ==> after == node.posting(
                seq![
                    refusal(
                        node.me,
                        sender,
                        rid,
                        if receiver == node.me {
                            no_handler_text(request)
                        } else {
                            "could not forward message: no connection"@
                        },
                    ),
                ],
            )
        }),
{
}

/// A node waits for the answer of the node that it asked. The answer of another one, such as a
/// node that could not send the request on, does not end that wait; and it finds nobody, unless
/// that other node was asked too, under the same number.
pub proof fn answers_of_others_find_nobody<C: Config>(
    asker: Node<C>,
    source: C::Address,
    asked: C::Address,
    other: C::Address,
    rid: RequestId,
    error: Option<String>,
    data: C::EncodedData,
    message: Bytes,
)
    requires
        may_forward(asker.hops, Via::Address(source), asker.me),
        other != asked,
    ensures
        ({
            let response = answering(other, asker.me, rid, error);
            let (after, delivery) = asker.receiving(source, Some((response, data)), message);
            &&& error matches Some(e) ==> Posted::Packet(
                PacketView { header: response@, body: Body::Unit },
            ) == refusal(other, asker.me, rid, e@)
            &&& asker.responses.contains_key((asked, rid)) ==> after.responses.contains_key(
                (asked, rid),
            ) && after.responses[(asked, rid)] == asker.responses[(asked, rid)]
            &&& !asker.responses.contains_key((other, rid)) ==> after == asker
                && delivery is TimedOut
        }),
{
}

/// A request or notification to a node runs the handler that was registered under its name, with
/// the flag that it was registered with, and changes nothing: nobody is told.
pub proof fn handlers_run_as_registered<C: Config>(
    node: Node<C>,
    source: C::Address,
    sender: C::Address,
    name: u16,
    flag: bool,
    rid: RequestId,
    data: C::EncodedData,
    message: Bytes,
)
    requires
        may_forward(node.hops, Via::Address(source), sender),
    ensures
        ({
            let notified = Node::<C> {
                notification_handlers: node.notification_handlers.insert(name, flag),
                ..node
            };
            let notification = OpaquePacketWrapper::Request {
                sender,
                receiver: node.me,
                request: name,
                response: None,
            };
            &&& notified.receiving(source, Some((notification, data)), message) == (
                notified,
                Delivery::<C>::RunNotification { handler: name, sender, data, blocking: flag },
            )
        }),
        ({
            let asked = Node::<C> {
                request_handlers: node.request_handlers.insert(name, flag),
                ..node
            };
            let request = asking(sender, node.me, rid, name);
            &&& asked.receiving(source, Some((request, data)), message) == (
                asked,
                Delivery::<C>::RunRequest { handler: name, sender, data, rid, cancel_safe: flag },
            )
        }),
{
}

/// A message that is sent on leaves over a connection, and as it came.
pub proof fn messages_are_sent_on_as_they_came<C: Config>(
    node: Node<C>,
    source: C::Address,
    header: OpaquePacketWrapper<C::Address>,
    data: C::EncodedData,
    message: Bytes,
)
    requires
        node.ok(),
        node.connections.len() <= usize::MAX,
    ensures
        node.receiving(source, Some((header, data)), message).1 matches Delivery::Forward {
            connection,
            message: sent,
        } ==> {
            &&& sent == message
            &&& connection < node.connections.len()
            &&& node.route_to(header@.destination()) == Some(connection as int)
            &&& header@.destination() != node.me
        },
{
    reachable_nodes_have_a_connection(node, header@.destination());
}

/// Notifications and responses are never answered.
pub proof fn only_requests_are_answered<C: Config>(
    node: Node<C>,
    source: C::Address,
    header: OpaquePacketWrapper<C::Address>,
    data: C::EncodedData,
    message: Bytes,
)
    requires
        header matches OpaquePacketWrapper::Request { response, .. } ==> response is None,
    ensures
        node.receiving(source, Some((header, data)), message).0.posts == node.posts,
{
}

/// The number of a new request is not the number of one that is still waited for.
pub proof fn request_numbers_are_fresh<C: Config>(node: Node<C>, to: C::Address)
    requires
        node.ok(),
        last_id(node.issued, to) < usize::MAX,
    ensures
        !node.responses.contains_key((to, node.next_request(to))),
{
}

/// Two requests to one node have different numbers.
pub proof fn request_numbers_differ<C: Config>(
    node: Node<C>,
    to: C::Address,
    first: C::Completion,
)
    requires
        last_id(node.issued, to) < usize::MAX - 1,
    ensures
        node.with_request(to, first).next_request(to) != node.next_request(to),
{
}

/// The response to a request goes to what waits for it, once: a second response finds nobody. What
/// waits for other responses goes on waiting.
pub proof fn requests_are_completed_once<C: Config>(
    node: Node<C>,
    to: C::Address,
    completion: C::Completion,
    outcome: Result<C::EncodedData, ResponseError>,
    again: Result<C::EncodedData, ResponseError>,
)
    requires
        node.ok(),
        last_id(node.issued, to) < usize::MAX,
    ensures
        ({
            let rid = node.next_request(to);
            let (after, delivery) = node.with_request(to, completion).completing(to, rid, outcome);
            &&& delivery == (Delivery::<C>::Complete { completion, outcome })
            &&& after.responses == node.responses
            &&& after.completing(to, rid, again) == (after, Delivery::<C>::TimedOut)
        }),
{
    let rid = node.next_request(to);
    request_numbers_are_fresh(node, to);
    assert(node.responses.insert((to, rid), completion).remove((to, rid)) =~= node.responses);
}

/// Nobody waits for the response to a request that was given up on. What waits for other responses
/// goes on waiting.
pub proof fn cancelled_requests_time_out<C: Config>(
    node: Node<C>,
    to: C::Address,
    rid: RequestId,
    outcome: Result<C::EncodedData, ResponseError>,
    other: (C::Address, RequestId),
)
    ensures
        ({
            let after = node.giving_up(node.me, to, rid);
            &&& after.completing(to, rid, outcome) == (after, Delivery::<C>::TimedOut)
            &&& other != (to, rid) ==> after.completing(other.0, other.1, outcome).1
                == node.completing(other.0, other.1, outcome).1
        }),
{
}

/// Making a connection and taking it away again leaves the routes and the connections as they
/// were.
pub proof fn removing_undoes_adding<C: Config>(
    node: Node<C>,
    to: C::Address,
    sender: C::Sender,
    rtt: Rtt,
)
    requires
        node.ok(),
        !node.connected(to),
    ensures
        ({
            let after = node.with_direct(to, sender, rtt).without_direct(to);
            &&& after.hops == node.hops
            &&& after.connections == node.connections
        }),
{
    let with = node.with_direct(to, sender, rtt);
    let n = node.connections.len() as int;
    let hop = Hop { to, via: Via::Direct, rtt };
    assert forall|i: int| 0 <= i < node.hops.len() implies outlives(
        #[trigger] node.hops[i],
        to,
    ) by {
        assert(place_of(node.connections, node.hops[i].first()) is Some);
    }
    assert(with.hops == node.hops.push(hop));
    assert(with.connections[n].address == to);
    let p = place_of(with.connections, to)->0;
    assert(0 <= p < with.connections.len() && with.connections[p].address == to);
    if p < n {
        assert(node.connections[p].address == to);
    }
    assert(with.connections.remove(n) =~= node.connections);
    let keep = |h: Hop<C::Address>| outlives(h, to);
    reveal(Seq::filter);
    assert(node.hops.push(hop).drop_last() =~= node.hops);
    assert(!keep(hop));
    assert(without_peer(with.hops, to) == node.hops.filter(keep));
    lemma_filter_all(node.hops, keep);
}

/// What is filtered stays as it is where everything is kept.
pub proof fn lemma_filter_all<T>(s: Seq<T>, keep: spec_fn(T) -> bool)
    requires
        forall|i: int| 0 <= i < s.len() ==> keep(#[trigger] s[i]),
    ensures
        s.filter(keep) == s,
    decreases s.len(),
{
    reveal(Seq::filter);
    if s.len() > 0 {
        assert(forall|i: int| 0 <= i < s.drop_last().len() ==> s.drop_last()[i] == s[i]);
        lemma_filter_all(s.drop_last(), keep);
        assert(s.drop_last().push(s.last()) =~= s);
    } else {
        assert(s.filter(keep) =~= s);
    }
}

/// A newly connected peer is told of every node that it can reach through this one, and how near
/// that node is for it.
pub proof fn newcomers_hear_of_every_offer<A>(me: A, peer: A, hops: Seq<Hop<A>>, to: A, rtt: Rtt)
    requires
        offer(hops, to, peer) == Some(rtt),
    ensures
        greeting(me, peer, listing(hops)).contains(
            notice(me, peer, Body::AddForwarded(AddForwarded { to, rtt })),
        ),
{
    let one = seq![Via::Address(peer)];
    lemma_best(hops, to, one);
    let hop = best(hops, to, one)->0;
    let k = choose|k: int| 0 <= k < hops.len() && hops[k] == hop;
    assert(hops[k].to == to);
    assert(reaches(hops, to));
    lemma_destinations(hops);
    let list = destinations(hops);
    assert(list.contains(to));
    let d = choose|d: int| 0 <= d < list.len() && list[d] == to;
    min_rtt_gives_offers(hops, to, peer);
    lemma_best(hops, to, Seq::empty());
    assert(leads(hops[k], to, Seq::empty()));
    let routes = listing(hops);
    assert(routes[d] == (to, min_rtt(hops, to)->0));
    let tell = |route: (A, MinRtt<A>)|
        match route.1.spec_offer(peer) {
            Some(rtt) => Some(
                notice(me, peer, Body::AddForwarded(AddForwarded { to: route.0, rtt })),
            ),
            None => None,
        };
    lemma_filter_map_contains(routes, tell, d);
}

proof fn lemma_filter_map_contains<T, U>(s: Seq<T>, f: spec_fn(T) -> Option<U>, i: int)
    requires
        0 <= i < s.len(),
        f(s[i]) is Some,
    ensures
        s.filter_map(f).contains(f(s[i])->0),
    decreases s.len(),
{
    reveal(Seq::filter_map);
    let before = s.drop_last().filter_map(f);
    if i < s.len() - 1 {
        assert(s.drop_last()[i] == s[i]);
        lemma_filter_map_contains(s.drop_last(), f, i);
        let k = choose|k: int| 0 <= k < before.len() && before[k] == f(s[i])->0;
        assert(s.filter_map(f)[k] == f(s[i])->0);
    } else {
        assert(s.filter_map(f) == before + seq![f(s[i])->0]);
        assert(s.filter_map(f)[before.len() as int] == f(s[i])->0);
    }
}

/// Waiting for a node that cannot be reached yet ends well as soon as that node is announced, and
/// in an error where the announcements end before. The announcements of other nodes do not end it.
pub proof fn waits_end_as_announced<A>(address: A, announced: Seq<Option<A>>)
    ensures
        match wait_outcome(address, announced) {
            Some(Ok(_)) => exists|i: int|
                0 <= i < announced.len() && #[trigger] announced[i] == Some(address) && goes_on(
                    address,
                    announced,
                    i,
                ),
            Some(Err(_)) => exists|i: int|
                0 <= i < announced.len() && #[trigger] announced[i] is None && goes_on(
                    address,
                    announced,
                    i,
                ),
            None => goes_on(address, announced, announced.len() as int),
        },
    decreases announced.len(),
{
    if announced.len() > 0 {
        let before = announced.drop_last();
        let n = before.len() as int;
        waits_end_as_announced(address, before);
        assert(announced[n] == announced.last());
        assert(forall|i: int| 0 <= i < n ==> #[trigger] before[i] == announced[i]);
        assert forall|i: int| 0 <= i <= n && #[trigger] goes_on(address, before, i) implies goes_on(
            address,
            announced,
            i,
        ) by {
            assert(forall|j: int| 0 <= j < i ==> #[trigger] announced[j] == before[j]);
        }
        match wait_outcome(address, before) {
            Some(Ok(_)) => {
                let i = choose|i: int|
                    0 <= i < n && #[trigger] before[i] == Some(address) && goes_on(
                        address,
                        before,
                        i,
                    );
                assert(announced[i] == before[i]);
            },
            Some(Err(_)) => {
                let i = choose|i: int|
                    0 <= i < n && #[trigger] before[i] is None && goes_on(address, before, i);
                assert(announced[i] == before[i]);
            },
            None => {
                assert(goes_on(address, announced, n));
            },
        }
    }
}

/// The first `n` announcements are all of other nodes.
pub open spec fn goes_on<A>(address: A, announced: Seq<Option<A>>, n: int) -> bool {
    forall|i: int|
        0 <= i < n ==> #[trigger] announced[i] is Some && announced[i] != Some(address)
}

/// A node that comes within reach is announced: making a connection, or hearing of one from a
/// peer, posts it. So who listens before it finds out that a node cannot be reached, hears of it
/// when it can.
pub proof fn new_nodes_are_announced<C: Config>(
    node: Node<C>,
    to: C::Address,
    sender: C::Sender,
    rtt: Rtt,
    source: C::Address,
    add: AddForwarded<C::Address>,
    address: C::Address,
)
    requires
        !reaches(node.hops, address),
    ensures
        reaches(node.with_direct(to, sender, rtt).hops, address) ==> node.with_direct(
            to,
            sender,
            rtt,
        ).posts.contains(announcement(address, Via::Direct, rtt)),
        reaches(node.with_forwarded(source, add).hops, address) ==> node.with_forwarded(
            source,
            add,
        ).posts.contains(announcement(address, Via::Address(source), add.rtt)),
        !reaches(node.without_direct(to).hops, address),
{
    lemma_reach_added(node.hops, to, Via::Direct, rtt, address);
    lemma_reach_added(node.hops, add.to, Via::Address(source), add.rtt, address);
    let n = node.posts.len() as int;
    if reaches(node.with_direct(to, sender, rtt).hops, address) {
        assert(node.with_direct(to, sender, rtt).posts[n] == announcement(
            address,
            Via::Direct,
            rtt,
        ));
    }
    if reaches(node.with_forwarded(source, add).hops, address) {
        assert(node.with_forwarded(source, add).posts[n] == announcement(
            address,
            Via::Address(source),
            add.rtt,
        ));
    }
    if node.connected(to) {
        let after = without_peer(node.hops, to);
        let keep = |hop: Hop<C::Address>| outlives(hop, to);
        if reaches(after, address) {
            let k = choose|k: int| 0 <= k < after.len() && #[trigger] after[k].to == address;
            assert(after.contains(after[k]));
            node.hops.lemma_filter_contains_rev(keep, after[k]);
            let m = choose|m: int| 0 <= m < node.hops.len() && node.hops[m] == after[k];
            assert(node.hops[m].to == address);
        }
    }
}

/// What a node posts of one that came within reach.
pub open spec fn announcement<A>(to: A, via: Via<A>, rtt: Rtt) -> Posted<A> {
    Posted::Route(RouteChange::ConnectionAdded(ConnectionAdded { to, via, rtt }))
}

proof fn lemma_reach_added<A>(hops: Seq<Hop<A>>, to: A, via: Via<A>, rtt: Rtt, address: A)
    requires
        !reaches(hops, address),
    ensures
        reaches(with_hop(hops, to, via, rtt), address) ==> {
            &&& address == to
            &&& changes_of(to, min_rtt(hops, to), min_rtt(with_hop(hops, to, via, rtt), to))
                == seq![RouteChange::ConnectionAdded(ConnectionAdded { to, via, rtt })]
        },
{
    let after = with_hop(hops, to, via, rtt);
    if reaches(after, address) {
        let k = choose|k: int| 0 <= k < after.len() && #[trigger] after[k].to == address;
        if address != to {
            assert(k < hops.len());
            assert(hops[k].to == address);
        }
        assert forall|i: int| 0 <= i < hops.len() implies (#[trigger] hops[i]).to != to by {}
        assert(after == hops.push(Hop { to, via, rtt }));
        let none = Seq::<Via<A>>::empty();
        lemma_best(hops, to, none);
        if best(hops, to, none) is Some {
            let hop = best(hops, to, none)->0;
            let m = choose|m: int| 0 <= m < hops.len() && hops[m] == hop;
            assert(hops[m].to == to);
        }
        assert(after.drop_last() =~= hops);
        assert(leads(after.last(), to, none));
        assert(best(after, to, none) == Some(Hop { to, via, rtt }));
    }
}

/// What a request is sent with.
pub open spec fn asking<A>(from: A, to: A, rid: RequestId, name: u16) -> OpaquePacketWrapper<A> {
    OpaquePacketWrapper::Request {
        sender: from,
        receiver: to,
        request: name,
        response: Some(ResponseTo { rid }),
    }
}

/// What the answer to a request is sent with.
pub open spec fn answering<A>(
    from: A,
    to: A,
    rid: RequestId,
    error: Option<String>,
) -> OpaquePacketWrapper<A> {
    OpaquePacketWrapper::Response { rid, response_from: from, request_origin: to, error }
}

/// A request to a peer that has a handler for it runs that handler, and what the handler answers
/// goes to what waits for it, as far as the peer may forward messages to the one that asks.
pub proof fn answers_come_back<C: Config>(
    asker: Node<C>,
    answerer: Node<C>,
    name: u16,
    completion: C::Completion,
    question: C::EncodedData,
    asked: Bytes,
    answer: C::EncodedData,
    error: Option<String>,
    answered: Bytes,
)
    requires
        asker.ok(),
        answerer.ok(),
        last_id(asker.issued, answerer.me) < usize::MAX,
        answerer.connected(asker.me),
        answerer.request_handlers.contains_key(name),
        may_forward(asker.hops, Via::Address(answerer.me), asker.me),
    ensures
        ({
            let rid = asker.next_request(answerer.me);
            let request = asking(asker.me, answerer.me, rid, name);
            let response = answering(answerer.me, asker.me, rid, error);
            let (_, run) = answerer.receiving(asker.me, Some((request, question)), asked);
            let (_, done) = asker.with_request(answerer.me, completion).receiving(
                answerer.me,
                Some((response, answer)),
                answered,
            );
            &&& request@ == Header::request(asker.me, answerer.me, rid, name)
            &&& run == (Delivery::<C>::RunRequest {
                handler: name,
                sender: asker.me,
                data: question,
                rid,
                cancel_safe: answerer.request_handlers[name],
            })
            &&& error is None ==> response@ == Header::response(rid, answerer.me, asker.me)
            &&& error matches Some(e) ==> response@ == Header::error_response(
                rid,
                answerer.me,
                asker.me,
                e@,
            )
            &&& done == (Delivery::<C>::Complete {
                completion,
                outcome: match error {
                    Some(e) => Err(ResponseError(e)),
                    None => Ok(answer),
                },
            })
        }),
{
    peers_are_listened_to(answerer, asker.me);
    assert(answering(answerer.me, asker.me, asker.next_request(answerer.me), error)@ is Response);
}

/// A node tells a newly connected peer that it can forward messages to the peer itself. The peer
/// then takes answers that come over that connection.
pub proof fn greetings_let_answers_through<C: Config>(
    node: Node<C>,
    peer: Node<C>,
    sender: C::Sender,
    rtt: Rtt,
)
    requires
        !node.connected(peer.me),
        peer.connected(node.me),
    ensures
        ({
            let hops = with_hop(node.hops, peer.me, Via::Direct, rtt);
            let add = AddForwarded { to: peer.me, rtt: offer(hops, peer.me, peer.me)->0 };
            &&& offer(hops, peer.me, peer.me) is Some
            &&& node.with_direct(peer.me, sender, rtt).posts.contains(
                notice(node.me, peer.me, Body::AddForwarded(add)),
            )
            &&& may_forward(
                peer.with_forwarded(node.me, add).hops,
                Via::Address(node.me),
                peer.me,
            )
        }),
{
    let to = peer.me;
    let hops = with_hop(node.hops, to, Via::Direct, rtt);
    let one = seq![Via::Address(to)];
    lemma_with_hop(node.hops, to, Via::Direct, rtt);
    let k = choose|k: int|
        0 <= k < hops.len() && (#[trigger] hops[k]) == (Hop { to, via: Via::Direct, rtt });
    assert(leads(hops[k], to, one));
    lemma_best(hops, to, one);
    let near = best(hops, to, one)->0.rtt;
    newcomers_hear_of_every_offer(node.me, to, hops, to, near);
    let add = AddForwarded { to, rtt: near };
    let told = notice(node.me, to, Body::AddForwarded(add));
    let greetings = greeting(node.me, to, listing(hops));
    let posts = node.with_direct(to, sender, rtt).posts;
    let before = posts.len() - greetings.len();
    let g = choose|g: int| 0 <= g < greetings.len() && greetings[g] == told;
    assert(posts[before + g] == told);
    let via = Via::Address(node.me);
    lemma_with_hop(peer.hops, to, via, near);
    let after = peer.with_forwarded(node.me, add).hops;
    let m = choose|m: int|
        0 <= m < after.len() && (#[trigger] after[m]) == (Hop { to, via, rtt: near });
    assert(after[m].to == to && after[m].via == via);
}

proof fn lemma_with_hop<A>(hops: Seq<Hop<A>>, to: A, via: Via<A>, rtt: Rtt)
    ensures
        exists|k: int|
            0 <= k < with_hop(hops, to, via, rtt).len() && (#[trigger] with_hop(
                hops,
                to,
                via,
                rtt,
            )[k]) == (Hop { to, via, rtt }),
{
    let new = with_hop(hops, to, via, rtt);
    if exists|i: int| 0 <= i < hops.len() && (#[trigger] hops[i]).to == to && hops[i].via == via {
        let i = choose|i: int|
            0 <= i < hops.len() && (#[trigger] hops[i]).to == to && hops[i].via == via;
        assert(new[i] == (Hop { to, via, rtt }));
    } else {
        assert(new[hops.len() as int] == (Hop { to, via, rtt }));
    }
}

/// When the connection to a peer goes, the node posts of every node that could be reached through
/// it only, the peer itself among them, that it can no longer be reached.
pub proof fn lost_nodes_are_announced<C: Config>(node: Node<C>, peer: C::Address, to: C::Address)
    requires
        node.connected(peer),
        reaches(node.hops, to),
        !reaches(without_peer(node.hops, peer), to),
    ensures
        node.without_direct(peer).posts.contains(
            Posted::Route(
                RouteChange::ConnectionRemoved(
                    ConnectionRemoved { to, via: min_rtt(node.hops, to)->0.via },
                ),
            ),
        ),
{
    lemma_destinations(node.hops);
    let list = destinations(node.hops);
    assert(list.contains(to));
    let d = choose|d: int| 0 <= d < list.len() && list[d] == to;
    let after = without_peer(node.hops, peer);
    let none = Seq::<Via<C::Address>>::empty();
    lemma_best(node.hops, to, none);
    lemma_best(after, to, none);
    let k = choose|k: int| 0 <= k < node.hops.len() && #[trigger] node.hops[k].to == to;
    assert(leads(node.hops[k], to, none));
    if best(after, to, none) is Some {
        let hop = best(after, to, none)->0;
        let m = choose|m: int| 0 <= m < after.len() && after[m] == hop;
        assert(after[m].to == to);
    }
    let via = best(node.hops, to, none)->0.via;
    let change = RouteChange::ConnectionRemoved(ConnectionRemoved { to, via });
    assert(changes_of(to, min_rtt(node.hops, to), min_rtt(after, to)) == seq![change]);
    assert(changes_of(to, min_rtt(node.hops, to), min_rtt(after, to))[0] == change);
    let changes = changes_for(list, node.hops, after);
    lemma_changes_contain(list, node.hops, after, d, 0);
    let c = choose|c: int| 0 <= c < changes.len() && changes[c] == change;
    assert(node.without_direct(peer).posts[node.posts.len() + c] == Posted::Route(change));
}

proof fn lemma_changes_contain<A>(
    tos: Seq<A>,
    before: Seq<Hop<A>>,
    after: Seq<Hop<A>>,
    d: int,
    c: int,
)
    requires
        0 <= d < tos.len(),
        0 <= c < changes_of(
            tos[d],
            min_rtt(before, tos[d]),
            min_rtt(after, tos[d]),
        ).len(),
    ensures
        changes_for(tos, before, after).contains(
            changes_of(tos[d], min_rtt(before, tos[d]), min_rtt(after, tos[d]))[c],
        ),
    decreases tos.len(),
{
    let change = changes_of(
        tos[d],
        min_rtt(before, tos[d]),
        min_rtt(after, tos[d]),
    )[c];
    let all = changes_for(tos, before, after);
    let earlier = changes_for(tos.drop_last(), before, after);
    if d < tos.len() - 1 {
        assert(tos.drop_last()[d] == tos[d]);
        lemma_changes_contain(tos.drop_last(), before, after, d, c);
        let k = choose|k: int| 0 <= k < earlier.len() && earlier[k] == change;
        assert(all[k] == change);
    } else {
        assert(all[earlier.len() + c] == change);
    }
}

proof fn lemma_place_held<A, F>(held: Seq<Held<A, F>>, i: int)
    requires
        distinct_held(held),
        0 <= i < held.len(),
    ensures
        place_held(held, held[i].id) == Some(i),
{
    let id = held[i].id;
    let k = choose|k: int| 0 <= k < held.len() && (#[trigger] held[k]).id == id;
    if k < i {
        assert(held[k].id != held[i].id);
    } else if i < k {
        assert(held[i].id != held[k].id);
    }
}

proof fn lemma_holding<A, F>(held: Seq<Held<A, F>>, new: Held<A, F>, other: ResourceId)
    requires
        distinct_held(held),
    ensures
        distinct_held(holding(held, new)),
        cleanup_in(holding(held, new), new.id) == Some(new.cleanup),
        other != new.id ==> cleanup_in(holding(held, new), other) == cleanup_in(held, other),
{
    let after = holding(held, new);
    let p = match place_held(held, new.id) {
        Some(i) => i,
        None => held.len() as int,
    };
    assert(after[p] == new);
    lemma_place_held(after, p);
    if other != new.id {
        match place_held(held, other) {
            Some(i) => {
                assert(after[i] == held[i]);
                lemma_place_held(after, i);
            },
            None => {
                if place_held(after, other) is Some {
                    let i = place_held(after, other)->0;
                    assert(after[i].id == other);
                    assert(held[i].id == other);
                }
            },
        }
    }
}

proof fn lemma_holding_all<A, F>(
    held: Seq<Held<A, F>>,
    holder: A,
    items: Seq<(ResourceId, F)>,
    other: ResourceId,
)
    requires
        distinct_held(held),
    ensures
        distinct_held(holding_all(held, holder, items)),
        (forall|i: int| 0 <= i < items.len() ==> (#[trigger] items[i]).0 != other) ==> cleanup_in(
            holding_all(held, holder, items),
            other,
        ) == cleanup_in(held, other),
    decreases items.len(),
{
    if items.len() > 0 {
        let earlier = items.drop_last();
        let (id, cleanup) = items.last();
        lemma_holding_all(held, holder, earlier, other);
        lemma_holding(
            holding_all(held, holder, earlier),
            Held { id, holder, cleanup },
            other,
        );
        if forall|i: int| 0 <= i < items.len() ==> (#[trigger] items[i]).0 != other {
            assert(forall|i: int| 0 <= i < earlier.len() ==> (#[trigger] earlier[i]) == items[i]);
            assert(items[items.len() - 1].0 != other);
        }
    }
}

/// The cleanup of every resource that went to a peer is kept under the number of the resource. The
/// cleanups of other resources are kept as they were.
pub proof fn registered_cleanups_are_kept<C: Config>(
    node: Node<C>,
    holder: C::Address,
    items: Seq<(ResourceId, C::Cleanup)>,
    id: ResourceId,
)
    requires
        node.ok(),
        forall|a: int, b: int|
            0 <= a < b < items.len() ==> (#[trigger] items[a]).0 != (#[trigger] items[b]).0,
    ensures
        ({
            let after = Node::<C> { held: holding_all(node.held, holder, items), ..node };
            &&& forall|i: int|
                0 <= i < items.len() && (#[trigger] items[i]).0 == id ==> after.cleanup_of(id)
                    == Some(items[i].1)
            &&& (forall|i: int| 0 <= i < items.len() ==> (#[trigger] items[i]).0 != id)
                ==> after.cleanup_of(id) == node.cleanup_of(id)
        }),
    decreases items.len(),
{
    lemma_holding_all(node.held, holder, items, id);
    if items.len() > 0 {
        let earlier = items.drop_last();
        let (last, cleanup) = items.last();
        assert(items[items.len() - 1] == items.last());
        assert forall|a: int, b: int| 0 <= a < b < earlier.len() implies (
        #[trigger] earlier[a]).0 != (#[trigger] earlier[b]).0 by {
            assert(items[a].0 != items[b].0);
        }
        registered_cleanups_are_kept(node, holder, earlier, id);
        lemma_holding_all(node.held, holder, earlier, id);
        lemma_holding(
            holding_all(node.held, holder, earlier),
            Held { id: last, holder, cleanup },
            id,
        );
        let after = Node::<C> { held: holding_all(node.held, holder, items), ..node };
        let before = Node::<C> { held: holding_all(node.held, holder, earlier), ..node };
        assert forall|i: int| 0 <= i < items.len() && (#[trigger] items[i]).0 == id implies
            after.cleanup_of(id) == Some(items[i].1) by {
            if i < earlier.len() {
                assert(earlier[i] == items[i]);
                assert(items[i].0 != items[items.len() - 1].0);
                assert(before.cleanup_of(id) == Some(items[i].1));
            }
        }
    }
}

/// The cleanup of a resource that is put in a message is the one that is kept once the message has
/// gone to a peer: a handle that was received can be passed on, and its cleanup with it.
pub proof fn parked_cleanups_are_kept<C: Config>(
    node: Node<C>,
    holder: C::Address,
    cleanup: C::Cleanup,
    parked: Seq<(ResourceId, C::Cleanup)>,
    next: u64,
)
    requires
        node.ok(),
        forall|a: int, b: int|
            0 <= a < b < parked.len() ==> (#[trigger] parked[a]).0 != (#[trigger] parked[b]).0,
        forall|a: int| 0 <= a < parked.len() ==> (#[trigger] parked[a]).0 != ResourceId(next),
    ensures
        ({
            let (_, items, _, id) = parking(Some(cleanup), Some(parked), next);
            &&& items is Some
            &&& id is Ok
            &&& (Node::<C> {
                held: holding_all(node.held, holder, items->0),
                ..node
            }).cleanup_of(id->Ok_0) == Some(cleanup)
        }),
{
    let items = parked.push((ResourceId(next), cleanup));
    assert(items[parked.len() as int].0 == ResourceId(next));
    registered_cleanups_are_kept(node, holder, items, ResourceId(next));
}

/// The cleanup of a resource is handed out once: afterwards nothing is kept under its number. The
/// cleanups of other resources are kept as they were.
pub proof fn cleanups_are_handed_out_once<C: Config>(
    node: Node<C>,
    id: ResourceId,
    other: ResourceId,
)
    requires
        node.ok(),
    ensures
        node.without_resource(id).cleanup_of(id) is None,
        node.without_resource(id).without_resource(id) == node.without_resource(id),
        other != id ==> node.without_resource(id).cleanup_of(other) == node.cleanup_of(other),
{
    match place_held(node.held, id) {
        None => {},
        Some(p) => {
            let after = node.held.remove(p);
            assert(node.held[p].id == id);
            assert forall|i: int| 0 <= i < after.len() implies (#[trigger] after[i]).id != id by {
                if i < p {
                    assert(after[i] == node.held[i]);
                } else {
                    assert(after[i] == node.held[i + 1]);
                }
            }
            if other != id {
                lemma_removed_held(node.held, p, other);
            }
        },
    }
}

proof fn lemma_removed_held<A, F>(held: Seq<Held<A, F>>, p: int, other: ResourceId)
    requires
        distinct_held(held),
        0 <= p < held.len(),
        held[p].id != other,
    ensures
        cleanup_in(held.remove(p), other) == cleanup_in(held, other),
{
    let after = held.remove(p);
    assert forall|i: int, j: int| 0 <= i < j < after.len() implies (#[trigger] after[i]).id != (
    #[trigger] after[j]).id by {
        let m = if i < p {
            i
        } else {
            i + 1
        };
        let n = if j < p {
            j
        } else {
            j + 1
        };
        assert(after[i] == held[m] && after[j] == held[n]);
    }
    match place_held(held, other) {
        Some(i) => {
            let k = if i < p {
                i
            } else {
                i - 1
            };
            assert(after[k] == held[i]);
            lemma_place_held(after, k);
        },
        None => {
            if place_held(after, other) is Some {
                let i = place_held(after, other)->0;
                let k = if i < p {
                    i
                } else {
                    i + 1
                };
                assert(after[i] == held[k]);
            }
        },
    }
}

/// When a peer cannot be reached any more, the cleanup of every resource that it holds is handed
/// out, and nothing that it holds is kept. The cleanups of what others hold are kept as they were.
pub proof fn unreachable_holders_let_go<C: Config>(
    node: Node<C>,
    holder: C::Address,
    i: int,
)
    requires
        node.ok(),
        0 <= i < node.held.len(),
    ensures
        ({
            let after = Node::<C> {
                held: node.held.filter(
                    |h: Held<C::Address, C::Cleanup>| h.holder != holder,
                ),
                ..node
            };
            let held = node.held[i];
            if held.holder == holder {
                &&& cleanups_of(node.held, holder).contains(held.cleanup)
                &&& after.cleanup_of(held.id) is None
            } else {
                after.cleanup_of(held.id) == Some(held.cleanup)
            }
        }),
{
    let stays = |h: Held<C::Address, C::Cleanup>| h.holder != holder;
    let gone = |h: Held<C::Address, C::Cleanup>| h.holder == holder;
    let kept = node.held.filter(stays);
    let held = node.held[i];
    lemma_held_filtered(node.held, stays);
    if held.holder == holder {
        node.held.lemma_filter_contains(gone, i);
        let out = node.held.filter(gone);
        let k = choose|k: int| 0 <= k < out.len() && out[k] == held;
        assert(cleanups_of(node.held, holder)[k] == held.cleanup);
        if place_held(kept, held.id) is Some {
            let k = place_held(kept, held.id)->0;
            node.held.lemma_filter_pred(stays, k);
            assert(kept.contains(kept[k]));
            node.held.lemma_filter_contains_rev(stays, kept[k]);
            let m = choose|m: int| 0 <= m < node.held.len() && node.held[m] == kept[k];
            if m < i {
                assert(node.held[m].id != node.held[i].id);
            } else if i < m {
                assert(node.held[i].id != node.held[m].id);
            }
        }
    } else {
        node.held.lemma_filter_contains(stays, i);
        let k = choose|k: int| 0 <= k < kept.len() && kept[k] == held;
        lemma_place_held(kept, k);
    }
}

/// A notification of the link itself that comes by a right way runs the handler of its name.
pub proof fn notices_run_their_handlers<C: Config>(
    node: Node<C>,
    source: C::Address,
    from: C::Address,
    body: Body<C::Address>,
    data: C::EncodedData,
    message: Bytes,
)
    requires
        may_forward(node.hops, Via::Address(source), from),
        node.notification_handlers.contains_key(body.spec_name()),
    ensures
        ({
            let header = OpaquePacketWrapper::Request {
                sender: from,
                receiver: node.me,
                request: body.spec_name(),
                response: None,
            };
            &&& notice(from, node.me, body) == Posted::Packet(PacketView { header: header@, body })
            &&& node.receiving(source, Some((header, data)), message) == (
                node,
                Delivery::<C>::RunNotification {
                    handler: body.spec_name(),
                    sender: from,
                    data,
                    blocking: node.notification_handlers[body.spec_name()],
                },
            )
        }),
{
}

/// When a node lets go of a resource that it received, it sends the owner the notice that runs the
/// owner's handler for such notices.
pub proof fn drop_notices_are_notices<A>(me: A, owner: A, id: ResourceId)
    ensures
        Posted::Packet(drop_notice(me, owner, id)) == notice(
            me,
            owner,
            Body::ResourceDropped(ResourceDropped { id }),
        ),
{
}

/// A node that gives up on a request sends its receiver the notice that runs the receiver's
/// handler for such notices.
pub proof fn cancellations_are_notices<C: Config>(node: Node<C>, to: C::Address, rid: RequestId)
    ensures
        node.giving_up(node.me, to, rid).posts == node.posts.push(
            notice(node.me, to, Body::CancelRequest(CancelRequest { rid })),
        ),
{
}

} // verus!
