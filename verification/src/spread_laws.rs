//! What events make of a node, and what peers are sent when the routes change.

use crate::config::Config;
use crate::delivery_laws::{messages_leave_by_the_nearest_way, nearest_leaves_over};
use crate::event::{ConnectionEnding, ConnectionMessage, RootEvent};
use crate::internal_handlers::{AddForwarded, Body, RemoveForwarded};
use crate::node::{
    distinct_connections, greeting, lemma_ways_without, notice, place_of, spread, Connection, Node,
    Posted,
};
use crate::packet::{Header, OutgoingMessage};
use crate::resource::RegisterResources;
use crate::route::{
    changes_for, changes_of, destinations, heard, lemma_destinations, listing, min_rtt,
    min_rtt_gives_offers, offer, peers_hear_of_lost_ways, peers_hear_of_new_ways, reaches, told,
    with_hop, ConnectionAdded, ConnectionRemoved, Hop, MinRtt, MinRttUpdated, RouteChange, Rtt, Via,
    ViaListSeconded, ViaListUnseconded,
};
use crate::route_laws::{
    believing, hops_are_what_reaches, keeps_order, lemma_filter_keeps_order,
    what_is_learnt_is_known, what_led_over_a_lost_connection_goes,
};
use crate::rpc::{handled, Action};
use vstd::prelude::*;
use vstd::std_specs::convert::FromSpec;

verus! {

/// What a post says to a peer, where it is a notification of `me` to it.
pub open spec fn said_to<A>(post: Posted<A>, me: A, peer: A) -> Option<Body<A>> {
    match post {
        Posted::Route(_) => None,
        Posted::Packet(packet) => if packet.header == (Header::Request {
            sender: me,
            receiver: peer,
            request: packet.body.spec_name(),
            response: None,
        }) {
            Some(packet.body)
        } else {
            None
        },
    }
}

/// Whether a post is a notification of `me` to somebody.
pub open spec fn says<A>(post: Posted<A>, me: A) -> bool {
    exists|peer: A| #[trigger] said_to(post, me, peer) is Some
}

/// What posts say to a peer, in their order.
pub open spec fn sent_to<A>(posts: Seq<Posted<A>>, me: A, peer: A) -> Seq<Body<A>> {
    posts.filter_map(|post: Posted<A>| said_to(post, me, peer))
}

/// The changes of the routes that were posted, in their order.
pub open spec fn changes_in<A>(posts: Seq<Posted<A>>) -> Seq<RouteChange<A>> {
    posts.filter_map(
        |post: Posted<A>|
            match post {
                Posted::Route(change) => Some(change),
                Posted::Packet(_) => None,
            },
    )
}

/// The event by which a node is told of a change that it posted.
pub open spec fn event_of<A, F>(change: RouteChange<A>) -> RootEvent<A, F> {
    match change {
        RouteChange::MinRttUpdated(v) => RootEvent::MinRttUpdated(v),
        RouteChange::ViaListSeconded(v) => RootEvent::ViaListSeconded(v),
        RouteChange::ViaListUnseconded(v) => RootEvent::ViaListUnseconded(v),
        RouteChange::ConnectionAdded(v) => RootEvent::ConnectionAdded(v),
        RouteChange::ConnectionRemoved(v) => RootEvent::ConnectionRemoved(v),
    }
}

/// A change becomes the event of its kind.
pub proof fn changes_become_their_events<A, F>(change: RouteChange<A>)
    ensures
        <RootEvent<A, F> as FromSpec<RouteChange<A>>>::from_spec(change) == event_of::<A, F>(
            change,
        ),
{
}

proof fn lemma_filter_map_add<T, U>(a: Seq<T>, b: Seq<T>, f: spec_fn(T) -> Option<U>)
    ensures
        (a + b).filter_map(f) == a.filter_map(f) + b.filter_map(f),
    decreases b.len(),
{
    reveal(Seq::filter_map);
    if b.len() == 0 {
        assert(a + b =~= a);
        assert(a.filter_map(f) + b.filter_map(f) =~= a.filter_map(f));
    } else {
        assert((a + b).drop_last() =~= a + b.drop_last());
        assert((a + b).last() == b.last());
        lemma_filter_map_add(a, b.drop_last(), f);
        assert((a + b).filter_map(f) =~= a.filter_map(f) + b.filter_map(f));
    }
}

proof fn lemma_filter_map_none<T, U>(s: Seq<T>, f: spec_fn(T) -> Option<U>)
    requires
        forall|i: int| 0 <= i < s.len() ==> f(#[trigger] s[i]) is None,
    ensures
        s.filter_map(f) == Seq::<U>::empty(),
    decreases s.len(),
{
    reveal(Seq::filter_map);
    if s.len() > 0 {
        assert(f(s[s.len() - 1]) is None);
        assert(forall|i: int| 0 <= i < s.drop_last().len() ==> #[trigger] s.drop_last()[i] == s[i]);
        lemma_filter_map_none(s.drop_last(), f);
    }
}

/// Where there is one connection at most to each peer, what a change of the routes makes a node say
/// to a peer is what the change has for that peer, where there is a connection to it, and nothing
/// where there is none.
proof fn lemma_spread<A, S>(
    me: A,
    connections: Seq<Connection<A, S>>,
    change: RouteChange<A>,
    peer: A,
)
    requires
        distinct_connections(connections),
    ensures
        sent_to(spread(me, connections, change), me, peer) == (if place_of(connections, peer) is Some
            && told(change, peer) is Some {
            seq![told(change, peer)->0]
        } else {
            Seq::empty()
        }),
    decreases connections.len(),
{
    let f = |post: Posted<A>| said_to(post, me, peer);
    let g = |c: Connection<A, S>|
        match told(change, c.address) {
            Some(body) => Some(notice(me, c.address, body)),
            None => None,
        };
    let all = spread(me, connections, change);
    reveal(Seq::filter_map);
    if connections.len() > 0 {
        let before = connections.drop_last();
        let c = connections.last();
        assert(connections[connections.len() - 1] == c);
        assert forall|i: int, j: int| 0 <= i < j < before.len() implies (
        #[trigger] before[i]).address != (#[trigger] before[j]).address by {
            assert(before[i] == connections[i] && before[j] == connections[j]);
        }
        lemma_spread(me, before, change, peer);
        assert(spread(me, before, change) == before.filter_map(g));
        assert(all == connections.filter_map(g));
        if place_of(before, peer) is Some {
            let k = place_of(before, peer)->0;
            assert(before[k].address == peer);
            assert(connections[k].address == peer);
            assert(c.address != peer);
        } else if place_of(connections, peer) is Some {
            let k = place_of(connections, peer)->0;
            assert(connections[k].address == peer);
            if k < before.len() {
                assert(before[k].address == peer);
            }
            assert(c.address == peer);
        } else {
            assert(c.address != peer);
        }
        match told(change, c.address) {
            Some(body) => {
                let post = notice(me, c.address, body);
                assert(g(c) == Some(post));
                assert(all == before.filter_map(g) + seq![post]);
                lemma_filter_map_add(before.filter_map(g), seq![post], f);
                Seq::<Posted<A>>::lemma_filter_map_singleton(post, f);
                if c.address == peer {
                    assert(f(post) == Some(body));
                    assert(place_of(connections, peer) is Some) by {
                        assert(connections[connections.len() - 1].address == peer);
                    }
                } else {
                    assert(f(post) is None);
                }
            },
            None => {
                assert(g(c) is None);
                assert(all == before.filter_map(g));
            },
        }
        assert(sent_to(all, me, peer) =~= (if place_of(connections, peer) is Some && told(
            change,
            peer,
        ) is Some {
            seq![told(change, peer)->0]
        } else {
            Seq::empty()
        }));
    } else {
        assert(place_of(connections, peer) is None);
    }
}

/// When a node is told of a change that it posted, each of its peers is sent what the change has
/// for it, and nobody else is sent anything. Nothing else is posted, and nothing else about the
/// node changes, but that what a node holds that went out of reach is let go of. Only of a node
/// that came within reach those are told who wait for it.
pub proof fn changes_are_passed_on<C: Config>(
    before: Node<C>,
    change: RouteChange<C::Address>,
    after: Node<C>,
    action: Action<C>,
    peer: C::Address,
)
    requires
        before.ok(),
        handled(before, event_of(change), after, action),
    ensures
        ({
            let posted = after.posts.skip(before.posts.len() as int);
            let connected = exists|i: int|
                0 <= i < before.connections.len() && (#[trigger] before.connections[i]).address
                    == peer;
            &&& before.posts.is_prefix_of(after.posts)
            &&& sent_to(posted, before.me, peer) == (if connected && told(change, peer) is Some {
                seq![told(change, peer)->0]
            } else {
                Seq::empty()
            })
            &&& forall|i: int| 0 <= i < posted.len() ==> says(#[trigger] posted[i], before.me)
            &&& after == Node::<C> { posts: after.posts, held: after.held, ..before }
            &&& change !is ConnectionRemoved ==> after.held == before.held
            &&& change matches RouteChange::ConnectionAdded(added) ==> action == (
            Action::<C>::Announce { to: added.to })
            &&& change is ConnectionRemoved ==> action is CleanUp
            &&& change !is ConnectionAdded && change !is ConnectionRemoved ==> action is Done
        }),
{
    let said = spread(before.me, before.connections, change);
    let posted = after.posts.skip(before.posts.len() as int);
    assert(after.posts == before.posts + said);
    assert(posted =~= said);
    lemma_spread(before.me, before.connections, change, peer);
    assert forall|i: int| 0 <= i < posted.len() implies says(
        #[trigger] posted[i],
        before.me,
    ) by {
        let g = |c: Connection<C::Address, C::Sender>|
            match told(change, c.address) {
                Some(body) => Some(notice(before.me, c.address, body)),
                None => None,
            };
        assert(said == before.connections.filter_map(g));
        assert(said.contains(said[i]));
        before.connections.lemma_filter_map_contains(g, said[i]);
        let c = choose|c: Connection<C::Address, C::Sender>|
            before.connections.contains(c) && g(c) == Some(said[i]);
        assert(said_to(posted[i], before.me, c.address) is Some);
    }
}

/// What the other events make of a node: messages that come in are decoded; a connection that ended
/// is removed; messages go out over the connection that the nearest way leads over, or not at all
/// where no way leads to their receiver.
pub proof fn other_events_do_their_part<C: Config>(
    before: Node<C>,
    event: RootEvent<C::Address, C::Cleanup>,
    after: Node<C>,
    action: Action<C>,
)
    requires
        before.ok(),
        before.connections.len() <= usize::MAX,
        handled(before, event, after, action),
    ensures
        event matches RootEvent::ConnectionMessage(input) ==> after == before && action
            == Action::<C>::Decode(input),
        event matches RootEvent::ConnectionEnding(ending) ==> after == before.without_direct(
            ending.from,
        ) && action is Done,
        event matches RootEvent::OutgoingMessage(out) ==> {
            &&& after == before
            &&& (exists|hop: Hop<C::Address>| #[trigger]
                before.hops.contains(hop) && hop.to == out.to) ==> {
                &&& action matches Action::Send { connection, message }
                &&& message == out.message
                &&& nearest_leaves_over(
                    before.hops,
                    before.connections,
                    out.to,
                    connection as int,
                )
            }
            &&& !(exists|hop: Hop<C::Address>| #[trigger]
                before.hops.contains(hop) && hop.to == out.to) ==> action == (
            Action::<C>::NoPath { to: out.to })
        },
        event is RegisterResources ==> action is Done && after == (Node::<C> {
            held: after.held,
            ..before
        }),
{
    if let RootEvent::OutgoingMessage(out) = event {
        messages_leave_by_the_nearest_way(before, out.to);
        hops_are_what_reaches(before.hops, out.to);
        crate::laws::reachable_nodes_have_a_connection(before, out.to);
    }
}

/// A peer is connected exactly where one of the connections is to it.
pub proof fn peers_are_those_with_a_connection<C: Config>(node: Node<C>, peer: C::Address)
    ensures
        node.connected(peer) <==> exists|i: int|
            0 <= i < node.connections.len() && (#[trigger] node.connections[i]).address == peer,
{
}

/// A new connection is used where there is none to that peer: it stands after the others, and the
/// hop over it is known with its round-trip time. Everything else that was known stays. Where there
/// is one already, nothing happens.
pub proof fn connections_are_made<C: Config>(
    node: Node<C>,
    to: C::Address,
    sender: C::Sender,
    rtt: Rtt,
    hop: Hop<C::Address>,
)
    ensures
        ({
            let after = node.with_direct(to, sender, rtt);
            if exists|i: int|
                0 <= i < node.connections.len() && (#[trigger] node.connections[i]).address == to {
                after == node
            } else {
                &&& after.connections == node.connections.push(Connection { address: to, sender })
                &&& after.hops.contains(hop) <==> {
                    ||| hop == (Hop { to, via: Via::Direct, rtt })
                    ||| node.hops.contains(hop) && !(hop.to == to && hop.via == Via::<
                        C::Address,
                    >::Direct)
                }
                &&& after == Node::<C> {
                    connections: after.connections,
                    hops: after.hops,
                    posts: after.posts,
                    ..node
                }
                &&& node.posts.is_prefix_of(after.posts)
            }
        }),
{
    what_is_learnt_is_known(node.hops, to, Via::Direct, rtt, hop);
}

/// When a connection goes, exactly what led over it goes: the connection, the hop to the peer, and
/// the hops that the peer forwards. Where there is none, nothing happens.
pub proof fn connections_are_lost<C: Config>(
    node: Node<C>,
    peer: C::Address,
    hop: Hop<C::Address>,
    connection: Connection<C::Address, C::Sender>,
)
    requires
        node.ok(),
    ensures
        ({
            let after = node.without_direct(peer);
            if exists|i: int|
                0 <= i < node.connections.len() && (#[trigger] node.connections[i]).address == peer {
                &&& after.connections.contains(connection) <==> node.connections.contains(
                    connection,
                ) && connection.address != peer
                &&& keeps_order(node.connections, after.connections)
                &&& after.hops.contains(hop) <==> node.hops.contains(hop) && hop.via
                    != Via::Address(peer) && !(hop.to == peer && hop.via == Via::<
                    C::Address,
                >::Direct)
                &&& keeps_order(node.hops, after.hops)
                &&& after == Node::<C> {
                    connections: after.connections,
                    hops: after.hops,
                    posts: after.posts,
                    ..node
                }
                &&& node.posts.is_prefix_of(after.posts)
            } else {
                after == node
            }
        }),
{
    what_led_over_a_lost_connection_goes(node.hops, peer, hop);
    if place_of(node.connections, peer) is Some {
        let p = place_of(node.connections, peer)->0;
        assert(0 <= p < node.connections.len() && node.connections[p].address == peer);
        let all = node.connections;
        let left = all.remove(p);
        let keep = |c: Connection<C::Address, C::Sender>| c.address != peer;
        lemma_remove_is_filter(all, p, keep);
        lemma_filter_keeps_order(all, keep);
        if left.contains(connection) {
            let i = choose|i: int| 0 <= i < left.len() && left[i] == connection;
            all.lemma_filter_pred(keep, i);
            all.lemma_filter_contains_rev(keep, connection);
        }
        if all.contains(connection) && connection.address != peer {
            let i = choose|i: int| 0 <= i < all.len() && all[i] == connection;
            all.lemma_filter_contains(keep, i);
        }
    }
}

proof fn lemma_remove_is_filter<A, S>(
    all: Seq<Connection<A, S>>,
    p: int,
    keep: spec_fn(Connection<A, S>) -> bool,
)
    requires
        distinct_connections(all),
        0 <= p < all.len(),
        forall|c: Connection<A, S>| #[trigger] keep(c) <==> c.address != all[p].address,
    ensures
        all.remove(p) == all.filter(keep),
    decreases all.len(),
{
    reveal(Seq::filter);
    let before = all.drop_last();
    let n = before.len() as int;
    assert(all[n] == all.last());
    assert forall|i: int, j: int| 0 <= i < j < before.len() implies (#[trigger] before[i]).address
        != (#[trigger] before[j]).address by {
        assert(before[i] == all[i] && before[j] == all[j]);
    }
    if p < n {
        assert(before[p] == all[p]);
        lemma_remove_is_filter(before, p, keep);
        assert(all[p].address != all[n].address);
        assert(keep(all.last()));
        assert(all.remove(p) =~= before.remove(p).push(all.last()));
    } else {
        assert forall|i: int| 0 <= i < before.len() implies keep(#[trigger] before[i]) by {
            assert(before[i] == all[i]);
            assert(all[i].address != all[n].address);
        }
        crate::laws::lemma_filter_all(before, keep);
        assert(!keep(all.last()));
        assert(all.remove(p) =~= before);
    }
}

/// After a peer has said how near a node is for messages that it forwards, the hop through that
/// peer is known with exactly that round-trip time, whatever was known of it before. Every other
/// hop stays as it was. Who is no peer is not listened to.
pub proof fn the_last_word_of_a_peer_counts<C: Config>(
    node: Node<C>,
    source: C::Address,
    add: AddForwarded<C::Address>,
    hop: Hop<C::Address>,
)
    ensures
        ({
            let after = node.with_forwarded(source, add);
            if exists|i: int|
                0 <= i < node.connections.len() && (#[trigger] node.connections[i]).address
                    == source {
                &&& after.hops.contains(hop) <==> {
                    ||| hop == (Hop { to: add.to, via: Via::Address(source), rtt: add.rtt })
                    ||| node.hops.contains(hop) && !(hop.to == add.to && hop.via == Via::Address(
                        source,
                    ))
                }
                &&& forall|i: int|
                    0 <= i < node.hops.len() ==> {
                        &&& (#[trigger] after.hops[i]).to == node.hops[i].to
                        &&& after.hops[i].via == node.hops[i].via
                    }
                &&& after == Node::<C> { hops: after.hops, posts: after.posts, ..node }
                &&& node.posts.is_prefix_of(after.posts)
            } else {
                after == node
            }
        }),
{
    what_is_learnt_is_known(node.hops, add.to, Via::Address(source), add.rtt, hop);
}

/// Whether a node is `after` once it was told of these changes, one after the other.
pub open spec fn handles_all<C: Config>(
    before: Node<C>,
    changes: Seq<RouteChange<C::Address>>,
    after: Node<C>,
) -> bool
    decreases changes.len(),
{
    if changes.len() == 0 {
        after == before
    } else {
        exists|between: Node<C>, action: Action<C>|
            #![trigger handled(between, event_of(changes.last()), after, action)]
            handles_all(before, changes.drop_last(), between) && handled(
                between,
                event_of(changes.last()),
                after,
                action,
            )
    }
}

/// What a node says to a peer while it is told of changes is what the changes have for that peer.
proof fn lemma_handles_all<C: Config>(
    before: Node<C>,
    changes: Seq<RouteChange<C::Address>>,
    after: Node<C>,
    peer: C::Address,
)
    requires
        distinct_connections(before.connections),
        place_of(before.connections, peer) is Some,
        handles_all(before, changes, after),
    ensures
        after.me == before.me,
        after.connections == before.connections,
        after.hops == before.hops,
        before.posts.is_prefix_of(after.posts),
        sent_to(after.posts.skip(before.posts.len() as int), before.me, peer) == heard(
            changes,
            peer,
        ),
    decreases changes.len(),
{
    let f = |post: Posted<C::Address>| said_to(post, before.me, peer);
    let n = before.posts.len() as int;
    reveal(Seq::filter_map);
    if changes.len() == 0 {
        assert(after.posts.skip(n) =~= Seq::empty());
        assert(sent_to(after.posts.skip(n), before.me, peer) =~= heard(changes, peer));
    } else {
        let change = changes.last();
        let (between, action) = choose|between: Node<C>, action: Action<C>|
            #![trigger handled(between, event_of(changes.last()), after, action)]
            handles_all(before, changes.drop_last(), between) && handled(
                between,
                event_of(changes.last()),
                after,
                action,
            );
        lemma_handles_all(before, changes.drop_last(), between, peer);
        let said = spread(between.me, between.connections, change);
        assert(after.posts == between.posts + said);
        lemma_spread(between.me, between.connections, change, peer);
        assert(after.posts.skip(n) =~= between.posts.skip(n) + said);
        lemma_filter_map_add(between.posts.skip(n), said, f);
        assert(sent_to(after.posts.skip(n), before.me, peer) =~= heard(changes, peer));
    }
}

proof fn lemma_posted_changes<A>(changes: Seq<RouteChange<A>>, me: A, peer: A)
    ensures
        changes_in(changes.map_values(|change: RouteChange<A>| Posted::Route(change))) == changes,
        sent_to(
            changes.map_values(|change: RouteChange<A>| Posted::Route(change)),
            me,
            peer,
        ) == Seq::<Body<A>>::empty(),
    decreases changes.len(),
{
    let post = |change: RouteChange<A>| Posted::Route(change);
    let posts = changes.map_values(post);
    reveal(Seq::filter_map);
    if changes.len() > 0 {
        lemma_posted_changes(changes.drop_last(), me, peer);
        assert(posts.drop_last() =~= changes.drop_last().map_values(post));
        assert(posts.last() == Posted::Route(changes.last()));
        assert(changes_in(posts) =~= changes_in(posts.drop_last()).push(changes.last()));
        assert(changes.drop_last().push(changes.last()) =~= changes);
    } else {
        assert(changes_in(posts) =~= changes);
    }
}

/// What a peer is to be sent of a node when what it can count on goes from `before` to `after`:
/// what that is now, or that there is nothing any more; nothing where it stays.
pub open spec fn news<A>(to: A, before: Option<Rtt>, after: Option<Rtt>) -> Seq<Body<A>> {
    if before == after {
        Seq::empty()
    } else {
        match after {
            Some(rtt) => seq![Body::AddForwarded(AddForwarded { to, rtt })],
            None => seq![Body::RemoveForwarded(RemoveForwarded { to })],
        }
    }
}

/// When a peer has said how near a node is for messages that it forwards, and the node was told of
/// the changes that it posted about that, every other peer was sent, in all, what it can count on
/// for that node now, where that changed, and nothing where it did not.
pub proof fn peers_are_sent_what_was_learnt<C: Config>(
    node: Node<C>,
    source: C::Address,
    add: AddForwarded<C::Address>,
    done: Node<C>,
    peer: C::Address,
)
    requires
        node.ok(),
        node.connected(peer),
        peer != add.to,
        ({
            let learnt = node.with_forwarded(source, add);
            handles_all(learnt, changes_in(learnt.posts.skip(node.posts.len() as int)), done)
        }),
    ensures
        node.posts.is_prefix_of(done.posts),
        sent_to(done.posts.skip(node.posts.len() as int), node.me, peer) == news(
            add.to,
            offer(node.hops, add.to, peer),
            offer(done.hops, add.to, peer),
        ),
        done.hops == node.with_forwarded(source, add).hops,
{
    let n = node.posts.len() as int;
    let learnt = node.with_forwarded(source, add);
    if node.connected(source) {
        let via = Via::Address(source);
        let changes = changes_of(add.to, min_rtt(node.hops, add.to), min_rtt(learnt.hops, add.to));
        lemma_posted_changes(changes, node.me, peer);
        let posted = changes.map_values(
            |change: RouteChange<C::Address>| Posted::Route(change),
        );
        assert(learnt.posts == node.posts + posted);
        assert(learnt.posts.skip(n) =~= posted);
        lemma_handles_all(learnt, changes, done, peer);
        peers_hear_of_new_ways(node.hops, add.to, via, add.rtt, peer);
        lemma_sent_in_two(node.posts, learnt.posts, done.posts, node.me, peer);
    } else {
        assert(learnt.posts.skip(n) =~= Seq::empty());
        reveal(Seq::filter_map);
        assert(done == learnt);
        assert(done.posts.skip(n) =~= Seq::empty());
    }
}

proof fn lemma_sent_in_two<A>(
    first: Seq<Posted<A>>,
    second: Seq<Posted<A>>,
    third: Seq<Posted<A>>,
    me: A,
    peer: A,
)
    requires
        first.is_prefix_of(second),
        second.is_prefix_of(third),
    ensures
        first.is_prefix_of(third),
        sent_to(third.skip(first.len() as int), me, peer) == sent_to(
            second.skip(first.len() as int),
            me,
            peer,
        ) + sent_to(third.skip(second.len() as int), me, peer),
{
    let f = |post: Posted<A>| said_to(post, me, peer);
    assert(third.skip(first.len() as int) =~= second.skip(first.len() as int) + third.skip(
        second.len() as int,
    ));
    lemma_filter_map_add(second.skip(first.len() as int), third.skip(second.len() as int), f);
}

proof fn lemma_greeting<A>(me: A, peer: A, routes: Seq<(A, MinRtt<A>)>, other: A, to: A)
    requires
        forall|i: int, j: int|
            0 <= i < j < routes.len() ==> (#[trigger] routes[i]).0 != (#[trigger] routes[j]).0,
    ensures
        ({
            let said = sent_to(greeting(me, peer, routes), me, peer);
            &&& changes_in(greeting(me, peer, routes)) == Seq::<RouteChange<A>>::empty()
            &&& other != peer ==> sent_to(greeting(me, peer, routes), me, other) == Seq::<
                Body<A>,
            >::empty()
            &&& said.len() == greeting(me, peer, routes).len()
            &&& forall|i: int| 0 <= i < said.len() ==> #[trigger] said[i] is AddForwarded
            &&& forall|i: int, j: int|
                0 <= i < j < said.len() ==> (#[trigger] said[i])->AddForwarded_0.to != (
                #[trigger] said[j])->AddForwarded_0.to
            &&& forall|i: int|
                0 <= i < said.len() ==> exists|k: int|
                    0 <= k < routes.len() && routes[k].0 == (
                    #[trigger] said[i])->AddForwarded_0.to
            &&& forall|i: int|
                0 <= i < routes.len() && (#[trigger] routes[i]).0 == to ==> believing(
                    said,
                    to,
                    None,
                ) == routes[i].1.spec_offer(peer)
            &&& (forall|i: int| 0 <= i < routes.len() ==> (#[trigger] routes[i]).0 != to)
                ==> believing(said, to, None) is None
        }),
    decreases routes.len(),
{
    let tell = |route: (A, MinRtt<A>)|
        match route.1.spec_offer(peer) {
            Some(rtt) => Some(
                notice(me, peer, Body::AddForwarded(AddForwarded { to: route.0, rtt })),
            ),
            None => None,
        };
    let to_peer = |post: Posted<A>| said_to(post, me, peer);
    let to_other = |post: Posted<A>| said_to(post, me, other);
    let change = |post: Posted<A>|
        match post {
            Posted::Route(change) => Some(change),
            Posted::Packet(_) => None,
        };
    let all = greeting(me, peer, routes);
    reveal(Seq::filter_map);
    if routes.len() > 0 {
        let before = routes.drop_last();
        let n = before.len() as int;
        let route = routes.last();
        assert(routes[n] == route);
        assert(forall|i: int| 0 <= i < n ==> #[trigger] before[i] == routes[i]);
        lemma_greeting(me, peer, before, other, to);
        let earlier = greeting(me, peer, before);
        let was = sent_to(earlier, me, peer);
        assert(earlier == before.filter_map(tell));
        assert(all == routes.filter_map(tell));
        assert forall|i: int| 0 <= i < was.len() implies exists|k: int|
            0 <= k < n && routes[k].0 == (#[trigger] was[i])->AddForwarded_0.to by {
            let k = choose|k: int|
                0 <= k < before.len() && before[k].0 == was[i]->AddForwarded_0.to;
            assert(routes[k].0 == was[i]->AddForwarded_0.to);
        }
        match route.1.spec_offer(peer) {
            Some(rtt) => {
                let body = Body::AddForwarded(AddForwarded { to: route.0, rtt });
                let post = notice(me, peer, body);
                assert(all == earlier + seq![post]);
                lemma_filter_map_add(earlier, seq![post], to_peer);
                Seq::<Posted<A>>::lemma_filter_map_singleton(post, to_peer);
                lemma_filter_map_add(earlier, seq![post], to_other);
                Seq::<Posted<A>>::lemma_filter_map_singleton(post, to_other);
                lemma_filter_map_add(earlier, seq![post], change);
                Seq::<Posted<A>>::lemma_filter_map_singleton(post, change);
                let said = sent_to(all, me, peer);
                assert(said =~= was.push(body));
                assert(said.drop_last() =~= was);
                assert(said.last() == body);
                assert forall|i: int| 0 <= i < was.len() implies (
                #[trigger] was[i])->AddForwarded_0.to != route.0 by {
                    let k = choose|k: int| 0 <= k < n && routes[k].0 == was[i]->AddForwarded_0.to;
                    assert(routes[k].0 != routes[n].0);
                }
                assert forall|i: int| 0 <= i < said.len() implies exists|k: int|
                    0 <= k < routes.len() && routes[k].0 == (
                    #[trigger] said[i])->AddForwarded_0.to by {
                    if i < was.len() {
                        assert(said[i] == was[i]);
                        let k = choose|k: int|
                            0 <= k < n && routes[k].0 == was[i]->AddForwarded_0.to;
                        assert(routes[k].0 == said[i]->AddForwarded_0.to);
                    } else {
                        assert(routes[n].0 == said[i]->AddForwarded_0.to);
                    }
                }
                assert(sent_to(all, me, other) =~= sent_to(earlier, me, other) + (if other == peer {
                    seq![body]
                } else {
                    Seq::empty()
                }));
                assert(changes_in(all) =~= changes_in(earlier));
            },
            None => {
                assert(all == earlier);
            },
        }
        assert forall|i: int| 0 <= i < routes.len() && (#[trigger] routes[i]).0 == to implies believing(
            sent_to(all, me, peer),
            to,
            None,
        ) == routes[i].1.spec_offer(peer) by {
            if i < n {
                assert(before[i].0 == to);
                assert(routes[i].0 != routes[n].0);
            } else if route.1.spec_offer(peer) is None {
                assert forall|k: int| 0 <= k < before.len() implies (
                #[trigger] before[k]).0 != to by {
                    assert(routes[k].0 != routes[n].0);
                }
            }
        }
    }
}

/// A newly connected peer is sent at once, of every node that it can reach through this one, how
/// near that node is for it, and of each node one thing at most. Nobody else is sent anything yet.
pub proof fn newcomers_are_sent_every_offer<C: Config>(
    node: Node<C>,
    to: C::Address,
    sender: C::Sender,
    rtt: Rtt,
    of: C::Address,
    other: C::Address,
)
    requires
        !node.connected(to),
        other != to,
    ensures
        ({
            let after = node.with_direct(to, sender, rtt);
            let posted = after.posts.skip(node.posts.len() as int);
            let said = sent_to(posted, node.me, to);
            &&& believing(said, of, None) == offer(after.hops, of, to)
            &&& forall|i: int| 0 <= i < said.len() ==> #[trigger] said[i] is AddForwarded
            &&& forall|i: int, j: int|
                0 <= i < j < said.len() ==> (#[trigger] said[i])->AddForwarded_0.to != (
                #[trigger] said[j])->AddForwarded_0.to
            &&& sent_to(posted, node.me, other) == Seq::<Body<C::Address>>::empty()
        }),
{
    let hops = with_hop(node.hops, to, Via::Direct, rtt);
    let after = node.with_direct(to, sender, rtt);
    let changes = changes_of(to, min_rtt(node.hops, to), min_rtt(hops, to));
    let posted = changes.map_values(|change: RouteChange<C::Address>| Posted::Route(change));
    let routes = listing(hops);
    let greetings = greeting(node.me, to, routes);
    let to_peer = |post: Posted<C::Address>| said_to(post, node.me, to);
    let to_other = |post: Posted<C::Address>| said_to(post, node.me, other);
    lemma_posted_changes(changes, node.me, to);
    lemma_posted_changes(changes, node.me, other);
    assert(after.posts == node.posts + posted + greetings);
    assert(after.posts.skip(node.posts.len() as int) =~= posted + greetings);
    lemma_filter_map_add(posted, greetings, to_peer);
    lemma_filter_map_add(posted, greetings, to_other);
    lemma_destinations(hops);
    let list = destinations(hops);
    assert forall|i: int, j: int| 0 <= i < j < routes.len() implies (#[trigger] routes[i]).0 != (
    #[trigger] routes[j]).0 by {
        assert(list[i] != list[j]);
    }
    lemma_greeting(node.me, to, routes, other, of);
    let said = sent_to(greetings, node.me, to);
    assert(sent_to(posted + greetings, node.me, to) =~= said);
    assert(sent_to(posted + greetings, node.me, other) =~= Seq::empty());
    min_rtt_gives_offers(hops, of, to);
    if reaches(hops, of) {
        assert(list.contains(of));
        let i = choose|i: int| 0 <= i < list.len() && list[i] == of;
        assert(routes[i].0 == of);
        hops_are_what_reaches(hops, of);
    } else {
        assert forall|i: int| 0 <= i < routes.len() implies (#[trigger] routes[i]).0 != of by {
            assert(list.contains(list[i]));
        }
        hops_are_what_reaches(hops, of);
    }
}

/// When a connection was made, and the node was told of the changes that it posted about that,
/// every peer that was there before was sent, in all, what it can count on for the newcomer now,
/// where that changed, and nothing where it did not.
pub proof fn peers_are_sent_who_came<C: Config>(
    node: Node<C>,
    to: C::Address,
    sender: C::Sender,
    rtt: Rtt,
    done: Node<C>,
    peer: C::Address,
)
    requires
        node.ok(),
        !node.connected(to),
        node.connected(peer),
        ({
            let made = node.with_direct(to, sender, rtt);
            handles_all(made, changes_in(made.posts.skip(node.posts.len() as int)), done)
        }),
    ensures
        node.posts.is_prefix_of(done.posts),
        sent_to(done.posts.skip(node.posts.len() as int), node.me, peer) == news(
            to,
            offer(node.hops, to, peer),
            offer(done.hops, to, peer),
        ),
        done.hops == node.with_direct(to, sender, rtt).hops,
{
    let made = node.with_direct(to, sender, rtt);
    let n = node.posts.len() as int;
    let changes = changes_of(to, min_rtt(node.hops, to), min_rtt(made.hops, to));
    let posted = changes.map_values(|change: RouteChange<C::Address>| Posted::Route(change));
    let greetings = greeting(node.me, to, listing(made.hops));
    let change = |post: Posted<C::Address>|
        match post {
            Posted::Route(change) => Some(change),
            Posted::Packet(_) => None,
        };
    lemma_posted_changes(changes, node.me, peer);
    newcomers_are_sent_every_offer(node, to, sender, rtt, to, peer);
    lemma_destinations(made.hops);
    let list = destinations(made.hops);
    let routes = listing(made.hops);
    assert forall|i: int, j: int| 0 <= i < j < routes.len() implies (#[trigger] routes[i]).0 != (
    #[trigger] routes[j]).0 by {
        assert(list[i] != list[j]);
    }
    lemma_greeting(node.me, to, routes, peer, to);
    assert(made.posts == node.posts + posted + greetings);
    assert(made.posts.skip(n) =~= posted + greetings);
    lemma_filter_map_add(posted, greetings, change);
    assert(changes_in(made.posts.skip(n)) =~= changes);
    let k = place_of(node.connections, peer)->0;
    assert(made.connections[k].address == peer);
    assert forall|i: int, j: int| 0 <= i < j < made.connections.len() implies (
    #[trigger] made.connections[i]).address != (#[trigger] made.connections[j]).address by {
        if j < node.connections.len() {
            assert(made.connections[j] == node.connections[j]);
        }
        assert(made.connections[i] == node.connections[i]);
    }
    lemma_handles_all(made, changes, done, peer);
    peers_hear_of_new_ways(node.hops, to, Via::Direct, rtt, peer);
    lemma_sent_in_two(node.posts, made.posts, done.posts, node.me, peer);
}

/// Whether something that is said is about a node.
pub open spec fn is_about<A>(body: Body<A>, to: A) -> bool {
    match body {
        Body::AddForwarded(add) => add.to == to,
        Body::RemoveForwarded(remove) => remove.to == to,
        _ => false,
    }
}

/// What of things that are said is about a node.
pub open spec fn about<A>(said: Seq<Body<A>>, to: A) -> Seq<Body<A>> {
    said.filter(|body: Body<A>| is_about(body, to))
}

proof fn lemma_filter_add<T>(a: Seq<T>, b: Seq<T>, keep: spec_fn(T) -> bool)
    ensures
        (a + b).filter(keep) == a.filter(keep) + b.filter(keep),
    decreases b.len(),
{
    reveal(Seq::filter);
    if b.len() == 0 {
        assert(a + b =~= a);
        assert(a.filter(keep) + b.filter(keep) =~= a.filter(keep));
    } else {
        assert((a + b).drop_last() =~= a + b.drop_last());
        assert((a + b).last() == b.last());
        lemma_filter_add(a, b.drop_last(), keep);
        assert((a + b).filter(keep) =~= a.filter(keep) + b.filter(keep));
    }
}

proof fn lemma_filter_none<T>(s: Seq<T>, keep: spec_fn(T) -> bool)
    requires
        forall|i: int| 0 <= i < s.len() ==> !keep(#[trigger] s[i]),
    ensures
        s.filter(keep) == Seq::<T>::empty(),
    decreases s.len(),
{
    reveal(Seq::filter);
    if s.len() > 0 {
        assert(!keep(s[s.len() - 1]));
        assert(forall|i: int| 0 <= i < s.drop_last().len() ==> #[trigger] s.drop_last()[i] == s[i]);
        lemma_filter_none(s.drop_last(), keep);
    }
}

proof fn lemma_heard_about<A>(
    of: A,
    before: Option<MinRtt<A>>,
    after: Option<MinRtt<A>>,
    peer: A,
    to: A,
)
    ensures
        about(heard(changes_of(of, before, after), peer), to) == (if of == to {
            heard(changes_of(of, before, after), peer)
        } else {
            Seq::empty()
        }),
{
    let changes = changes_of(of, before, after);
    let said = heard(changes, peer);
    let tell = |change: RouteChange<A>| told(change, peer);
    let keep = |body: Body<A>| is_about(body, to);
    assert forall|i: int| 0 <= i < said.len() implies is_about(#[trigger] said[i], of) by {
        assert(said.contains(said[i]));
        changes.lemma_filter_map_contains(tell, said[i]);
        let change = choose|change: RouteChange<A>|
            changes.contains(change) && tell(change) == Some(said[i]);
        let k = choose|k: int| 0 <= k < changes.len() && changes[k] == change;
        assert(changes[k] == change);
    }
    if of == to {
        crate::laws::lemma_filter_all(said, keep);
    } else {
        lemma_filter_none(said, keep);
    }
}

proof fn lemma_heard_of_all<A>(
    tos: Seq<A>,
    before: Seq<Hop<A>>,
    after: Seq<Hop<A>>,
    peer: A,
    to: A,
)
    requires
        tos.no_duplicates(),
    ensures
        about(heard(changes_for(tos, before, after), peer), to) == (if tos.contains(to) {
            heard(changes_of(to, min_rtt(before, to), min_rtt(after, to)), peer)
        } else {
            Seq::empty()
        }),
    decreases tos.len(),
{
    let tell = |change: RouteChange<A>| told(change, peer);
    let keep = |body: Body<A>| is_about(body, to);
    if tos.len() == 0 {
        reveal(Seq::filter_map);
        reveal(Seq::filter);
        assert(about(heard(changes_for(tos, before, after), peer), to) =~= Seq::empty());
    } else {
        let earlier = tos.drop_last();
        let of = tos.last();
        assert(tos[tos.len() - 1] == of);
        assert(earlier.no_duplicates()) by {
            assert forall|i: int, j: int|
                0 <= i < earlier.len() && 0 <= j < earlier.len() && i != j implies earlier[i]
                != earlier[j] by {
                assert(tos[i] != tos[j]);
            }
        }
        lemma_heard_of_all(earlier, before, after, peer, to);
        let a = changes_for(earlier, before, after);
        let b = changes_of(of, min_rtt(before, of), min_rtt(after, of));
        lemma_filter_map_add(a, b, tell);
        lemma_filter_add(heard(a, peer), heard(b, peer), keep);
        lemma_heard_about(of, min_rtt(before, of), min_rtt(after, of), peer, to);
        if earlier.contains(to) {
            let i = choose|i: int| 0 <= i < earlier.len() && earlier[i] == to;
            assert(tos[i] == to);
            assert(tos[i] != tos[tos.len() - 1]);
        } else if tos.contains(to) {
            let i = choose|i: int| 0 <= i < tos.len() && tos[i] == to;
            if i < earlier.len() {
                assert(earlier[i] == to);
            }
        }
        assert(about(heard(changes_for(tos, before, after), peer), to) =~= (if tos.contains(to) {
            heard(changes_of(to, min_rtt(before, to), min_rtt(after, to)), peer)
        } else {
            Seq::empty()
        }));
    }
}

/// When a connection went, and the node was told of the changes that it posted about that, every
/// peer that is left was sent, in all, of every other node what it can count on now, or that there
/// is nothing any more, where that changed, and nothing where it did not.
pub proof fn peers_are_sent_who_went<C: Config>(
    node: Node<C>,
    gone: C::Address,
    done: Node<C>,
    peer: C::Address,
    to: C::Address,
)
    requires
        node.ok(),
        node.connected(peer),
        peer != gone,
        peer != to,
        ({
            let left = node.without_direct(gone);
            handles_all(left, changes_in(left.posts.skip(node.posts.len() as int)), done)
        }),
    ensures
        node.posts.is_prefix_of(done.posts),
        about(sent_to(done.posts.skip(node.posts.len() as int), node.me, peer), to) == news(
            to,
            offer(node.hops, to, peer),
            offer(done.hops, to, peer),
        ),
        done.hops == node.without_direct(gone).hops,
{
    let n = node.posts.len() as int;
    let left = node.without_direct(gone);
    reveal(Seq::filter_map);
    reveal(Seq::filter);
    if node.connected(gone) {
        let p = place_of(node.connections, gone)->0;
        assert(0 <= p < node.connections.len() && node.connections[p].address == gone);
        lemma_ways_without(node.hops, node.connections, p);
        let tos = destinations(node.hops);
        let changes = changes_for(tos, node.hops, left.hops);
        let posted = changes.map_values(
            |change: RouteChange<C::Address>| Posted::Route(change),
        );
        lemma_posted_changes(changes, node.me, peer);
        assert(left.posts == node.posts + posted);
        assert(left.posts.skip(n) =~= posted);
        let k = place_of(node.connections, peer)->0;
        assert(node.connections[k].address == peer);
        let m = if k < p {
            k
        } else {
            k - 1
        };
        assert(left.connections[m].address == peer);
        lemma_handles_all(left, changes, done, peer);
        lemma_sent_in_two(node.posts, left.posts, done.posts, node.me, peer);
        assert(sent_to(done.posts.skip(n), node.me, peer) =~= heard(changes, peer));
        lemma_destinations(node.hops);
        lemma_heard_of_all(tos, node.hops, left.hops, peer, to);
        peers_hear_of_lost_ways(node.hops, gone, to, peer);
        if !tos.contains(to) {
            hops_are_what_reaches(node.hops, to);
            hops_are_what_reaches(left.hops, to);
            min_rtt_gives_offers(node.hops, to, peer);
            min_rtt_gives_offers(left.hops, to, peer);
            if reaches(left.hops, to) {
                let hop = choose|hop: Hop<C::Address>| #[trigger]
                    left.hops.contains(hop) && hop.to == to;
                what_led_over_a_lost_connection_goes(node.hops, gone, hop);
            }
        }
    } else {
        assert(left.posts.skip(n) =~= Seq::empty());
        assert(done == left);
        assert(done.posts.skip(n) =~= Seq::empty());
        assert(about(sent_to(done.posts.skip(n), node.me, peer), to) =~= Seq::empty());
    }
}

/// Whether a change that says that a node came within reach, or went out of it, is right about it.
pub open spec fn is_right<A>(
    change: RouteChange<A>,
    before: Seq<Hop<A>>,
    after: Seq<Hop<A>>,
) -> bool {
    match change {
        RouteChange::ConnectionAdded(added) => !reaches(before, added.to) && reaches(
            after,
            added.to,
        ),
        RouteChange::ConnectionRemoved(removed) => reaches(before, removed.to) && !reaches(
            after,
            removed.to,
        ),
        _ => true,
    }
}

proof fn lemma_changes_are_right<A>(to: A, before: Seq<Hop<A>>, after: Seq<Hop<A>>, i: int)
    requires
        0 <= i < changes_of(to, min_rtt(before, to), min_rtt(after, to)).len(),
    ensures
        is_right(changes_of(to, min_rtt(before, to), min_rtt(after, to))[i], before, after),
{
    hops_are_what_reaches(before, to);
    hops_are_what_reaches(after, to);
}

proof fn lemma_all_changes_are_right<A>(
    tos: Seq<A>,
    before: Seq<Hop<A>>,
    after: Seq<Hop<A>>,
    i: int,
)
    requires
        0 <= i < changes_for(tos, before, after).len(),
    ensures
        is_right(changes_for(tos, before, after)[i], before, after),
    decreases tos.len(),
{
    let earlier = changes_for(tos.drop_last(), before, after);
    if i < earlier.len() {
        lemma_all_changes_are_right(tos.drop_last(), before, after, i);
    } else {
        lemma_changes_are_right(tos.last(), before, after, i - earlier.len());
    }
}

/// A node posts that another one came within reach only where it did, and that it went out of reach
/// only where it did: nothing that a node holds is cleaned up while it can be reached.
pub proof fn reach_is_announced_only_where_it_changed<C: Config>(
    node: Node<C>,
    to: C::Address,
    sender: C::Sender,
    rtt: Rtt,
    add: AddForwarded<C::Address>,
    change: RouteChange<C::Address>,
)
    ensures
        ({
            let n = node.posts.len() as int;
            let made = node.with_direct(to, sender, rtt);
            let lost = node.without_direct(to);
            let learnt = node.with_forwarded(to, add);
            let post = Posted::Route(change);
            &&& made.posts.skip(n).contains(post) ==> is_right(change, node.hops, made.hops)
            &&& lost.posts.skip(n).contains(post) ==> is_right(change, node.hops, lost.hops)
            &&& learnt.posts.skip(n).contains(post) ==> is_right(change, node.hops, learnt.hops)
        }),
{
    let n = node.posts.len() as int;
    let made = node.with_direct(to, sender, rtt);
    let lost = node.without_direct(to);
    let learnt = node.with_forwarded(to, add);
    let post = Posted::Route(change);
    let map = |change: RouteChange<C::Address>| Posted::Route(change);
    if made.posts.skip(n).contains(post) && !node.connected(to) {
        let changes = changes_of(to, min_rtt(node.hops, to), min_rtt(made.hops, to));
        let greetings = greeting(node.me, to, listing(made.hops));
        assert(made.posts.skip(n) =~= changes.map_values(map) + greetings);
        let i = choose|i: int| 0 <= i < made.posts.skip(n).len() && made.posts.skip(n)[i] == post;
        if i < changes.len() {
            assert(changes[i] == change);
            lemma_changes_are_right(to, node.hops, made.hops, i);
        } else {
            let tell = |route: (C::Address, MinRtt<C::Address>)|
                match route.1.spec_offer(to) {
                    Some(rtt) => Some(
                        notice(
                            node.me,
                            to,
                            Body::AddForwarded(AddForwarded { to: route.0, rtt }),
                        ),
                    ),
                    None => None,
                };
            assert(greetings == listing(made.hops).filter_map(tell));
            assert(greetings[i - changes.len()] == post);
            assert(greetings.contains(post));
            listing(made.hops).lemma_filter_map_contains(tell, post);
        }
    }
    if learnt.posts.skip(n).contains(post) && node.connected(to) {
        let changes = changes_of(
            add.to,
            min_rtt(node.hops, add.to),
            min_rtt(learnt.hops, add.to),
        );
        assert(learnt.posts.skip(n) =~= changes.map_values(map));
        let i = choose|i: int|
            0 <= i < learnt.posts.skip(n).len() && learnt.posts.skip(n)[i] == post;
        assert(changes[i] == change);
        lemma_changes_are_right(add.to, node.hops, learnt.hops, i);
    }
    if lost.posts.skip(n).contains(post) && node.connected(to) {
        let changes = changes_for(destinations(node.hops), node.hops, lost.hops);
        assert(lost.posts.skip(n) =~= changes.map_values(map));
        let i = choose|i: int| 0 <= i < lost.posts.skip(n).len() && lost.posts.skip(n)[i] == post;
        assert(changes[i] == change);
        lemma_all_changes_are_right(destinations(node.hops), node.hops, lost.hops, i);
    }
}

/// What happened becomes the event of its kind.
pub proof fn what_happened_becomes_its_event<A, F>(
    message: ConnectionMessage<A>,
    ending: ConnectionEnding<A>,
    out: OutgoingMessage<A>,
    register: RegisterResources<A, F>,
    change: RouteChange<A>,
)
    ensures
        <RootEvent<A, F> as FromSpec<ConnectionMessage<A>>>::from_spec(message) == RootEvent::<
            A,
            F,
        >::ConnectionMessage(message),
        <RootEvent<A, F> as FromSpec<ConnectionEnding<A>>>::from_spec(ending) == RootEvent::<
            A,
            F,
        >::ConnectionEnding(ending),
        <RootEvent<A, F> as FromSpec<OutgoingMessage<A>>>::from_spec(out) == RootEvent::<
            A,
            F,
        >::OutgoingMessage(out),
        <RootEvent<A, F> as FromSpec<RegisterResources<A, F>>>::from_spec(register) == RootEvent::<
            A,
            F,
        >::RegisterResources(register),
        change matches RouteChange::MinRttUpdated(v) ==> <RootEvent<A, F> as FromSpec<
            MinRttUpdated<A>,
        >>::from_spec(v) == event_of::<A, F>(change),
        change matches RouteChange::ViaListSeconded(v) ==> <RootEvent<A, F> as FromSpec<
            ViaListSeconded<A>,
        >>::from_spec(v) == event_of::<A, F>(change),
        change matches RouteChange::ViaListUnseconded(v) ==> <RootEvent<A, F> as FromSpec<
            ViaListUnseconded<A>,
        >>::from_spec(v) == event_of::<A, F>(change),
        change matches RouteChange::ConnectionAdded(v) ==> <RootEvent<A, F> as FromSpec<
            ConnectionAdded<A>,
        >>::from_spec(v) == event_of::<A, F>(change),
        change matches RouteChange::ConnectionRemoved(v) ==> <RootEvent<A, F> as FromSpec<
            ConnectionRemoved<A>,
        >>::from_spec(v) == event_of::<A, F>(change),
{
}

} // verus!
