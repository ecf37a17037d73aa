//! What becomes of messages, said of who sent what to whom.

use crate::config::Config;
use crate::error::ResponseError;
use crate::internal_handlers::{Body, CancelRequest, CANCEL_REQUEST};
use crate::node::{decimal, notice, place_of, Connection, Delivery, Node, Posted};
use crate::packet::{Header, OpaquePacketWrapper, PacketView, RequestId, ResponseTo};
use crate::peers::last_id;
use crate::route::{best, may_forward, reaches, Hop, Via};
use crate::route_laws::{
    hops_are_what_reaches, messages_come_by_known_ways, the_nearest_way_is_taken,
};
use bytes::Bytes;
use vstd::prelude::*;

verus! {

/// Whether messages from `origin` come by a right way over the connection to `source`: that is the
/// connection to `origin` itself, or `source` has said that it forwards to it.
pub open spec fn right_way<A>(hops: Seq<Hop<A>>, source: A, origin: A) -> bool {
    exists|hop: Hop<A>| #[trigger]
        hops.contains(hop) && hop.to == origin && (hop.via == Via::Address(source) || source
            == origin && hop.via == Via::<A>::Direct)
}

proof fn lemma_right_way<A>(hops: Seq<Hop<A>>, source: A, origin: A)
    ensures
        right_way(hops, source, origin) <==> may_forward(hops, Via::Address(source), origin),
{
    messages_come_by_known_ways(hops, source, origin);
}

/// Whether messages to `to` leave over the connection at this place: the one that the nearest hop
/// to it leads over; of hops equally near, the one that was learnt first.
pub open spec fn nearest_leaves_over<A, S>(
    hops: Seq<Hop<A>>,
    connections: Seq<Connection<A, S>>,
    to: A,
    place: int,
) -> bool {
    exists|k: int|
        {
            &&& 0 <= k < hops.len()
            &&& (#[trigger] hops[k]).to == to
            &&& forall|i: int|
                0 <= i < hops.len() && (#[trigger] hops[i]).to == to ==> hops[k].rtt.0
                    <= hops[i].rtt.0
            &&& forall|i: int|
                0 <= i < k && (#[trigger] hops[i]).to == to ==> hops[k].rtt.0 < hops[i].rtt.0
            &&& 0 <= place < connections.len()
            &&& connections[place].address == match hops[k].via {
                Via::Direct => to,
                Via::Address(peer) => peer,
            }
        }
}

/// Messages to a node that can be reached leave over the connection that the nearest hop to it
/// leads over. To other nodes none do.
pub proof fn messages_leave_by_the_nearest_way<C: Config>(node: Node<C>, to: C::Address)
    requires
        node.ok(),
    ensures
        match node.route_to(to) {
            Some(place) => nearest_leaves_over(node.hops, node.connections, to, place),
            None => forall|i: int| 0 <= i < node.hops.len() ==> (#[trigger] node.hops[i]).to != to,
        },
{
    let none = Seq::<Via<C::Address>>::empty();
    the_nearest_way_is_taken(node.hops, to, none);
    if best(node.hops, to, none) is Some {
        let hop = best(node.hops, to, none)->0;
        let k = choose|k: int|
            {
                &&& 0 <= k < node.hops.len()
                &&& #[trigger] node.hops[k] == hop
                &&& hop.to == to
                &&& forall|i: int|
                    0 <= i < node.hops.len() && (#[trigger] node.hops[i]).to == to
                        && !none.contains(node.hops[i].via) ==> hop.rtt.0 <= node.hops[i].rtt.0
                &&& forall|i: int|
                    0 <= i < k && (#[trigger] node.hops[i]).to == to && !none.contains(
                        node.hops[i].via,
                    ) ==> hop.rtt.0 < node.hops[i].rtt.0
            };
        assert(place_of(node.connections, node.hops[k].first()) is Some);
        assert(node.hops[k].to == to);
    } else {
        assert forall|i: int| 0 <= i < node.hops.len() implies (#[trigger] node.hops[i]).to
            != to by {
            assert(!none.contains(node.hops[i].via));
        }
    }
}

/// The refusal that a node posts: an error under the number of the request, from this node to the
/// one that asked.
pub open spec fn refused<A>(me: A, sender: A, rid: RequestId, error: Seq<char>) -> Posted<A> {
    Posted::Packet(
        PacketView {
            header: Header::Response {
                rid,
                response_from: me,
                request_origin: sender,
                error: Some(error),
            },
            body: Body::Unit,
        },
    )
}

/// A request or notification runs a handler of this node only where it is for this node: the one
/// of its name, with its sender, its data and its number. For another node it is sent on as it
/// came, over the connection that the nearest way leads over, whatever handlers this node has. By
/// a wrong way it is refused. What is not handled and not sent on is answered where it asks for an
/// answer. Nothing else about the node changes.
pub proof fn requests_go_to_their_receiver<C: Config>(
    node: Node<C>,
    source: C::Address,
    sender: C::Address,
    receiver: C::Address,
    request: u16,
    response: Option<ResponseTo>,
    data: C::EncodedData,
    message: Bytes,
)
    requires
        node.ok(),
        node.connections.len() <= usize::MAX,
    ensures
        ({
            let header = OpaquePacketWrapper::Request { sender, receiver, request, response };
            let (after, delivery) = node.receiving(source, Some((header, data)), message);
            let right = right_way(node.hops, source, sender);
            let here = receiver == node.me;
            let way = exists|hop: Hop<C::Address>| #[trigger]
                node.hops.contains(hop) && hop.to == receiver;
            let asked = node.request_handlers.contains_key(request);
            let notified = node.notification_handlers.contains_key(request);
            &&& delivery is Refused <==> !right
            &&& delivery is RunRequest <==> right && here && response is Some && asked
            &&& delivery is NoRequestHandler <==> right && here && response is Some && !asked
            &&& delivery is RunNotification <==> right && here && response is None && notified
            &&& delivery is NoNotificationHandler <==> right && here && response is None
                && !notified
            &&& delivery is Forward <==> right && !here && way
            &&& delivery is NotForwarded <==> right && !here && !way
            &&& delivery matches Delivery::RunRequest { handler, sender: s, data: d, rid, cancel_safe }
                ==> {
                &&& handler == request
                &&& s == sender
                &&& d == data
                &&& rid == response->0.rid
                &&& cancel_safe == node.request_handlers[request]
            }
            &&& delivery matches Delivery::RunNotification { handler, sender: s, data: d, blocking }
                ==> {
                &&& handler == request
                &&& s == sender
                &&& d == data
                &&& blocking == node.notification_handlers[request]
            }
            &&& delivery matches Delivery::Forward { connection, message: sent } ==> {
                &&& sent == message
                &&& nearest_leaves_over(
                    node.hops,
                    node.connections,
                    receiver,
                    connection as int,
                )
            }
            &&& after == Node::<C> { posts: after.posts, ..node }
            &&& after.posts == match delivery {
                Delivery::NoRequestHandler => node.posts.push(
                    refused(
                        node.me,
                        sender,
                        response->0.rid,
                        "no handler defined for "@ + decimal(request as nat),
                    ),
                ),
                Delivery::NotForwarded => match response {
                    Some(to) => node.posts.push(
                        refused(
                            node.me,
                            sender,
                            to.rid,
                            "could not forward message: no connection"@,
                        ),
                    ),
                    None => node.posts,
                },
                _ => node.posts,
            }
        }),
{
    lemma_right_way(node.hops, source, sender);
    messages_leave_by_the_nearest_way(node, receiver);
    hops_are_what_reaches(node.hops, receiver);
    crate::laws::reachable_nodes_have_a_connection(node, receiver);
}

/// A response for this node goes to what waits for it, by the node that answered and the number of
/// the request, with the data, or the error where there is one; where nothing waits, it is dropped.
/// A response for another node is sent on as it came, over the connection that the nearest way
/// leads over. By a wrong way it is refused. Nobody is told anything, and nothing but the wait that
/// it ends changes.
pub proof fn responses_go_to_their_asker<C: Config>(
    node: Node<C>,
    source: C::Address,
    rid: RequestId,
    from: C::Address,
    origin: C::Address,
    error: Option<String>,
    data: C::EncodedData,
    message: Bytes,
)
    requires
        node.ok(),
        node.connections.len() <= usize::MAX,
    ensures
        ({
            let header = OpaquePacketWrapper::Response {
                rid,
                response_from: from,
                request_origin: origin,
                error,
            };
            let (after, delivery) = node.receiving(source, Some((header, data)), message);
            let right = right_way(node.hops, source, origin);
            let here = origin == node.me;
            let way = exists|hop: Hop<C::Address>| #[trigger]
                node.hops.contains(hop) && hop.to == origin;
            let awaited = node.responses.contains_key((from, rid));
            &&& delivery is Refused <==> !right
            &&& delivery is Complete <==> right && here && awaited
            &&& delivery is TimedOut <==> right && here && !awaited
            &&& delivery is Forward <==> right && !here && way
            &&& delivery is NotForwarded <==> right && !here && !way
            &&& delivery matches Delivery::Complete { completion, outcome } ==> {
                &&& completion == node.responses[(from, rid)]
                &&& outcome == match error {
                    Some(e) => Err::<C::EncodedData, ResponseError>(ResponseError(e)),
                    None => Ok(data),
                }
            }
            &&& delivery matches Delivery::Forward { connection, message: sent } ==> {
                &&& sent == message
                &&& nearest_leaves_over(node.hops, node.connections, origin, connection as int)
            }
            &&& after == Node::<C> {
                responses: if delivery is Complete {
                    node.responses.remove((from, rid))
                } else {
                    node.responses
                },
                ..node
            }
        }),
{
    lemma_right_way(node.hops, source, origin);
    messages_leave_by_the_nearest_way(node, origin);
    hops_are_what_reaches(node.hops, origin);
    crate::laws::reachable_nodes_have_a_connection(node, origin);
}

/// A message whose header cannot be decoded changes nothing.
pub proof fn malformed_messages_change_nothing<C: Config>(
    node: Node<C>,
    source: C::Address,
    message: Bytes,
)
    ensures
        node.receiving(source, None, message) == (node, Delivery::<C>::Malformed),
{
}

/// What is sent as a notification or a request arrives as one at the node that it is addressed to,
/// from its sender, under its name and number; what is sent as a response arrives as one at the
/// node that asked, from the node that answers.
pub proof fn headers_arrive_as_they_were_made<C: Config>(
    node: Node<C>,
    source: C::Address,
    other: C::Address,
    name: u16,
    rid: RequestId,
    error: Seq<char>,
    header: OpaquePacketWrapper<C::Address>,
    data: C::EncodedData,
    message: Bytes,
)
    ensures
        ({
            let (_, delivery) = node.receiving(source, Some((header, data)), message);
            let from_other = right_way(node.hops, source, other);
            let to_me = right_way(node.hops, source, node.me);
            &&& header@ == Header::notification(other, node.me, name) && from_other
                && node.notification_handlers.contains_key(name) ==> delivery == (
            Delivery::<C>::RunNotification {
                handler: name,
                sender: other,
                data,
                blocking: node.notification_handlers[name],
            })
            &&& header@ == Header::request(other, node.me, rid, name) && from_other
                && node.request_handlers.contains_key(name) ==> delivery == (
            Delivery::<C>::RunRequest {
                handler: name,
                sender: other,
                data,
                rid,
                cancel_safe: node.request_handlers[name],
            })
            &&& header@ == Header::response(rid, other, node.me) && to_me
                && node.responses.contains_key((other, rid)) ==> delivery == (
            Delivery::<C>::Complete { completion: node.responses[(other, rid)], outcome: Ok(data) })
            &&& header@ == Header::error_response(rid, other, node.me, error) && to_me
                && node.responses.contains_key((other, rid)) ==> {
                &&& delivery matches Delivery::Complete { completion, outcome: Err(e) }
                &&& completion == node.responses[(other, rid)]
                &&& e.0@ == error
            }
        }),
{
    lemma_right_way(node.hops, source, other);
    lemma_right_way(node.hops, source, node.me);
}

/// The node that a header names as the one that the packet is for is the one that does not send it
/// on: every other node does, or cannot.
pub proof fn packets_end_at_their_destination<C: Config>(
    node: Node<C>,
    source: C::Address,
    header: OpaquePacketWrapper<C::Address>,
    data: C::EncodedData,
    message: Bytes,
)
    ensures
        ({
            let (_, delivery) = node.receiving(source, Some((header, data)), message);
            delivery is Refused || (header@.destination() != node.me <==> (delivery is Forward
                || delivery is NotForwarded))
        }),
{
}

/// The requests to a node are numbered one after the other, from one on. A request changes nothing
/// of other nodes' numbers, and nothing of what other requests wait for.
pub proof fn requests_are_counted<C: Config>(
    node: Node<C>,
    to: C::Address,
    completion: C::Completion,
)
    requires
        last_id(node.issued, to) < usize::MAX,
    ensures
        ({
            let after = node.with_request(to, completion);
            let rid = node.next_request(to);
            &&& !node.issued.contains_key(to) ==> rid.0 == 1
            &&& node.issued.contains_key(to) ==> rid.0 == node.issued[to] + 1
            &&& after.issued == node.issued.insert(to, rid.0)
            &&& after.responses == node.responses.insert((to, rid), completion)
            &&& after == Node::<C> { issued: after.issued, responses: after.responses, ..node }
        }),
{
}

/// Giving up on a request ends its wait and no other, and tells the node that was asked, and nobody
/// else, which request it was.
pub proof fn giving_up_tells_the_one_asked<C: Config>(
    node: Node<C>,
    me: C::Address,
    to: C::Address,
    rid: RequestId,
)
    ensures
        node.giving_up(me, to, rid) == (Node::<C> {
            responses: node.responses.remove((to, rid)),
            posts: node.posts.push(
                Posted::Packet(
                    PacketView {
                        header: Header::Request {
                            sender: me,
                            receiver: to,
                            request: CANCEL_REQUEST,
                            response: None,
                        },
                        body: Body::CancelRequest(CancelRequest { rid }),
                    },
                ),
            ),
            ..node
        }),
{
}

/// What is forwarded runs at the node that it is for, and there only: a node between the sender and
/// the receiver of a request sends it on, and the receiver runs its handler on what the sender
/// sent.
pub proof fn forwarded_requests_run_at_their_receiver<C: Config>(
    between: Node<C>,
    end: Node<C>,
    sender: C::Address,
    came_from: C::Address,
    name: u16,
    rid: RequestId,
    data: C::EncodedData,
    message: Bytes,
)
    requires
        between.ok(),
        between.connections.len() <= usize::MAX,
        between.me != end.me,
        right_way(between.hops, came_from, sender),
        reaches(between.hops, end.me),
        right_way(end.hops, between.me, sender),
        end.request_handlers.contains_key(name),
    ensures
        ({
            let header = OpaquePacketWrapper::Request {
                sender,
                receiver: end.me,
                request: name,
                response: Some(ResponseTo { rid }),
            };
            &&& between.receiving(came_from, Some((header, data)), message).0 == between
            &&& between.receiving(
                came_from,
                Some((header, data)),
                message,
            ).1 matches Delivery::Forward { connection, message: sent }
            &&& nearest_leaves_over(
                between.hops,
                between.connections,
                end.me,
                connection as int,
            )
            &&& end.receiving(between.me, Some((header, data)), sent).1 == (
            Delivery::<C>::RunRequest {
                handler: name,
                sender,
                data,
                rid,
                cancel_safe: end.request_handlers[name],
            })
        }),
{
    lemma_right_way(between.hops, came_from, sender);
    lemma_right_way(end.hops, between.me, sender);
    messages_leave_by_the_nearest_way(between, end.me);
    crate::laws::reachable_nodes_have_a_connection(between, end.me);
}

/// A notification of the link itself goes from the node that posts it to the one that it is for,
/// under the name of what it carries, and wants no response.
pub proof fn notices_say_who_tells_whom<A>(me: A, to: A, body: Body<A>)
    ensures
        notice(me, to, body) == Posted::Packet(
            PacketView {
                header: Header::Request {
                    sender: me,
                    receiver: to,
                    request: body.spec_name(),
                    response: None,
                },
                body,
            },
        ),
{
}

} // verus!
