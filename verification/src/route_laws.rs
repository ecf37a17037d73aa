//! What holds of routes, said of the hops themselves.

use crate::internal_handlers::{AddForwarded, Body, RemoveForwarded};
use crate::route::{
    best, changes_of, destinations, distinct_hops, heard, lemma_destinations, listing, may_forward,
    min_rtt, offer, outlives, peers_hear_of_lost_ways, peers_hear_of_new_ways, reaches, told,
    with_hop, without_peer, ConnectionAdded, ConnectionRemoved, Hop, MinRtt, MinRttUpdated,
    RouteChange, Rtt, Via, ViaListSeconded, ViaListUnseconded,
};
use vstd::prelude::*;

verus! {

/// The way that is taken is one of the hops that lead to the node and are not avoided; none of
/// these is nearer, and of those that are equally near it was learnt first. Where no way is taken,
/// every hop that leads to the node is avoided.
pub proof fn the_nearest_way_is_taken<A>(hops: Seq<Hop<A>>, to: A, avoid: Seq<Via<A>>)
    ensures
        match best(hops, to, avoid) {
            None => forall|i: int|
                0 <= i < hops.len() && (#[trigger] hops[i]).to == to ==> avoid.contains(
                    hops[i].via,
                ),
            Some(hop) => exists|k: int|
                {
                    &&& 0 <= k < hops.len()
                    &&& #[trigger] hops[k] == hop
                    &&& hop.to == to
                    &&& !avoid.contains(hop.via)
                    &&& forall|i: int|
                        0 <= i < hops.len() && (#[trigger] hops[i]).to == to && !avoid.contains(
                            hops[i].via,
                        ) ==> hop.rtt.0 <= hops[i].rtt.0
                    &&& forall|i: int|
                        0 <= i < k && (#[trigger] hops[i]).to == to && !avoid.contains(hops[i].via)
                            ==> hop.rtt.0 < hops[i].rtt.0
                },
        },
    decreases hops.len(),
{
    if hops.len() > 0 {
        let before = hops.drop_last();
        let n = before.len() as int;
        the_nearest_way_is_taken(before, to, avoid);
        assert(hops[n] == hops.last());
        assert(forall|i: int| 0 <= i < n ==> #[trigger] before[i] == hops[i]);
        assert(forall|i: int| 0 <= i < n ==> #[trigger] hops[i] == before[i]);
        match best(before, to, avoid) {
            None => {
                if best(hops, to, avoid) is Some {
                    assert(hops[n] == best(hops, to, avoid)->0);
                }
            },
            Some(hop) => {
                let k = choose|k: int|
                    {
                        &&& 0 <= k < before.len()
                        &&& #[trigger] before[k] == hop
                        &&& hop.to == to
                        &&& !avoid.contains(hop.via)
                        &&& forall|i: int|
                            0 <= i < before.len() && (#[trigger] before[i]).to == to
                                && !avoid.contains(before[i].via) ==> hop.rtt.0 <= before[i].rtt.0
                        &&& forall|i: int|
                            0 <= i < k && (#[trigger] before[i]).to == to && !avoid.contains(
                                before[i].via,
                            ) ==> hop.rtt.0 < before[i].rtt.0
                    };
                assert(hops[k] == hop);
                if best(hops, to, avoid) == Some(hops.last()) {
                    assert(hops[n] == hops.last());
                } else {
                    assert(best(hops, to, avoid) == Some(hop));
                }
            },
        }
    }
}

/// A node can be reached exactly where a hop leads to it, and that is where a way is taken.
pub proof fn hops_are_what_reaches<A>(hops: Seq<Hop<A>>, to: A)
    ensures
        reaches(hops, to) <==> exists|hop: Hop<A>| #[trigger] hops.contains(hop) && hop.to == to,
        reaches(hops, to) <==> best(hops, to, Seq::empty()) is Some,
{
    the_nearest_way_is_taken(hops, to, Seq::empty());
    if reaches(hops, to) {
        let i = choose|i: int| 0 <= i < hops.len() && #[trigger] hops[i].to == to;
        assert(hops.contains(hops[i]));
    }
    if exists|hop: Hop<A>| #[trigger] hops.contains(hop) && hop.to == to {
        let hop = choose|hop: Hop<A>| #[trigger] hops.contains(hop) && hop.to == to;
        let i = choose|i: int| 0 <= i < hops.len() && hops[i] == hop;
        assert(hops[i].to == to);
    }
    if best(hops, to, Seq::empty()) is Some {
        let hop = best(hops, to, Seq::empty())->0;
        let k = choose|k: int| 0 <= k < hops.len() && hops[k] == hop && hop.to == to;
        assert(hops[k].to == to);
    }
}

/// Once a way is learnt, it is among the hops with exactly the round-trip time that was learnt,
/// and no other round-trip time is known of it. Every other hop stays, and stays in its place.
pub proof fn what_is_learnt_is_known<A>(
    hops: Seq<Hop<A>>,
    to: A,
    via: Via<A>,
    rtt: Rtt,
    hop: Hop<A>,
)
    ensures
        with_hop(hops, to, via, rtt).contains(hop) <==> {
            ||| hop == Hop { to, via, rtt }
            ||| hops.contains(hop) && !(hop.to == to && hop.via == via)
        },
        hops.len() <= with_hop(hops, to, via, rtt).len() <= hops.len() + 1,
        forall|i: int|
            0 <= i < hops.len() ==> {
                &&& (#[trigger] with_hop(hops, to, via, rtt)[i]).to == hops[i].to
                &&& with_hop(hops, to, via, rtt)[i].via == hops[i].via
            },
{
    let new = with_hop(hops, to, via, rtt);
    let learnt = Hop { to, via, rtt };
    if exists|i: int| 0 <= i < hops.len() && (#[trigger] hops[i]).to == to && hops[i].via == via {
        let k = choose|i: int|
            0 <= i < hops.len() && (#[trigger] hops[i]).to == to && hops[i].via == via;
        assert(new[k] == learnt);
    } else {
        assert(new[hops.len() as int] == learnt);
    }
    if new.contains(hop) && hop != learnt {
        let i = choose|i: int| 0 <= i < new.len() && new[i] == hop;
        assert(hops[i] == hop);
    }
    if hops.contains(hop) && !(hop.to == to && hop.via == via) {
        let i = choose|i: int| 0 <= i < hops.len() && hops[i] == hop;
        assert(new[i] == hop);
    }
}

/// When the connection to a peer goes, exactly the hops that lead over it go: the one to the peer
/// itself, and those that the peer forwards. The others stay in their order.
pub proof fn what_led_over_a_lost_connection_goes<A>(hops: Seq<Hop<A>>, peer: A, hop: Hop<A>)
    ensures
        without_peer(hops, peer).contains(hop) <==> hops.contains(hop) && hop.via != Via::Address(
            peer,
        ) && !(hop.to == peer && hop.via == Via::<A>::Direct),
        keeps_order(hops, without_peer(hops, peer)),
{
    let keep = |h: Hop<A>| outlives(h, peer);
    let new = without_peer(hops, peer);
    if new.contains(hop) {
        let i = choose|i: int| 0 <= i < new.len() && new[i] == hop;
        hops.lemma_filter_pred(keep, i);
        hops.lemma_filter_contains_rev(keep, hop);
    }
    if hops.contains(hop) && keep(hop) {
        let i = choose|i: int| 0 <= i < hops.len() && hops[i] == hop;
        hops.lemma_filter_contains(keep, i);
    }
    lemma_filter_keeps_order(hops, keep);
}

/// Whether what is left of a sequence stands in the order in which it stood there.
pub open spec fn keeps_order<T>(all: Seq<T>, left: Seq<T>) -> bool {
    exists|places: Seq<int>| #[trigger] is_selection(all, left, places)
}

/// Whether `places` are the places of `left` in `all`, from the first to the last.
pub open spec fn is_selection<T>(all: Seq<T>, left: Seq<T>, places: Seq<int>) -> bool {
    &&& places.len() == left.len()
    &&& forall|i: int|
        0 <= i < left.len() ==> 0 <= #[trigger] places[i] < all.len() && all[places[i]] == left[i]
    &&& forall|i: int, j: int|
        0 <= i < j < left.len() ==> #[trigger] places[i] < #[trigger] places[j]
}

/// What is filtered stands in its order.
pub proof fn lemma_filter_keeps_order<T>(all: Seq<T>, keep: spec_fn(T) -> bool)
    ensures
        keeps_order(all, all.filter(keep)),
    decreases all.len(),
{
    reveal(Seq::filter);
    if all.len() == 0 {
        assert(is_selection(all, all.filter(keep), Seq::empty()));
    } else {
        let before = all.drop_last();
        lemma_filter_keeps_order(before, keep);
        let places = choose|places: Seq<int>| #[trigger]
            is_selection(before, before.filter(keep), places);
        let new = if keep(all.last()) {
            places.push(all.len() - 1)
        } else {
            places
        };
        assert(is_selection(all, all.filter(keep), new)) by {
            assert forall|i: int| 0 <= i < all.filter(keep).len() implies 0 <= #[trigger] new[i]
                < all.len() && all[new[i]] == all.filter(keep)[i] by {
                if i < places.len() {
                    assert(new[i] == places[i]);
                    assert(before[places[i]] == before.filter(keep)[i]);
                }
            }
            assert forall|i: int, j: int| 0 <= i < j < all.filter(keep).len() implies
                #[trigger] new[i] < #[trigger] new[j] by {
                assert(new[i] == places[i]);
                if j < places.len() {
                    assert(new[j] == places[j]);
                }
            }
        }
    }
}

/// Messages from a node may come over the connection to it, where there is a hop to it over that
/// connection, and by a peer that has said that it forwards to it; not by another way.
pub proof fn messages_come_by_known_ways<A>(hops: Seq<Hop<A>>, source: A, origin: A)
    ensures
        may_forward(hops, Via::Address(source), origin) <==> {
            ||| exists|hop: Hop<A>| #[trigger]
                hops.contains(hop) && hop.to == origin && hop.via == Via::Address(source)
            ||| source == origin && exists|hop: Hop<A>| #[trigger]
                hops.contains(hop) && hop.to == origin && hop.via == Via::<A>::Direct
        },
        may_forward(hops, Via::Direct, origin) <==> exists|hop: Hop<A>| #[trigger]
            hops.contains(hop) && hop.to == origin && hop.via == Via::<A>::Direct,
{
    if may_forward(hops, Via::Direct, origin) {
        let i = choose|i: int|
            0 <= i < hops.len() && (#[trigger] hops[i]).to == origin && (hops[i].via
                == Via::<A>::Direct || hops[i].via is Direct && Via::<A>::Direct == Via::Address(
                origin,
            ));
        assert(hops.contains(hops[i]));
    }
    if may_forward(hops, Via::Address(source), origin) {
        let i = choose|i: int|
            0 <= i < hops.len() && (#[trigger] hops[i]).to == origin && (hops[i].via
                == Via::Address(source) || hops[i].via is Direct && Via::Address(source)
                == Via::Address(origin));
        assert(hops.contains(hops[i]));
    }
    if exists|hop: Hop<A>| #[trigger]
        hops.contains(hop) && hop.to == origin && hop.via == Via::Address(source) {
        let hop = choose|hop: Hop<A>| #[trigger]
            hops.contains(hop) && hop.to == origin && hop.via == Via::Address(source);
        let i = choose|i: int| 0 <= i < hops.len() && hops[i] == hop;
        assert(hops[i].to == origin);
    }
    if exists|hop: Hop<A>| #[trigger]
        hops.contains(hop) && hop.to == origin && hop.via == Via::<A>::Direct {
        let hop = choose|hop: Hop<A>| #[trigger]
            hops.contains(hop) && hop.to == origin && hop.via == Via::<A>::Direct;
        let i = choose|i: int| 0 <= i < hops.len() && hops[i] == hop;
        assert(hops[i].to == origin);
    }
}

/// What a peer can count on through this node is the round-trip time of the nearest hop that does
/// not lead through the peer itself; it can count on nothing where every hop does.
pub proof fn offers_are_nearest_without_the_peer<A>(hops: Seq<Hop<A>>, to: A, peer: A, rtt: Rtt)
    ensures
        offer(hops, to, peer) == Some(rtt) <==> {
            &&& exists|hop: Hop<A>| #[trigger]
                hops.contains(hop) && hop.to == to && hop.via != Via::Address(peer) && hop.rtt
                    == rtt
            &&& forall|hop: Hop<A>| #[trigger]
                hops.contains(hop) && hop.to == to && hop.via != Via::Address(peer) ==> rtt.0
                    <= hop.rtt.0
        },
        offer(hops, to, peer) is None <==> forall|hop: Hop<A>| #[trigger]
            hops.contains(hop) && hop.to == to ==> hop.via == Via::Address(peer),
{
    let one = seq![Via::Address(peer)];
    assert(forall|via: Via<A>| #[trigger] one.contains(via) <==> via == Via::Address(peer)) by {
        assert(one[0] == Via::Address(peer));
    }
    the_nearest_way_is_taken(hops, to, one);
    match best(hops, to, one) {
        Some(near) => {
            let k = choose|k: int| 0 <= k < hops.len() && hops[k] == near && near.to == to;
            assert(hops.contains(near));
            assert forall|hop: Hop<A>| #[trigger]
                hops.contains(hop) && hop.to == to && hop.via != Via::Address(peer) implies near.rtt.0
                <= hop.rtt.0 by {
                let i = choose|i: int| 0 <= i < hops.len() && hops[i] == hop;
                assert(hops[i].to == to);
            }
        },
        None => {
            assert forall|hop: Hop<A>| #[trigger] hops.contains(hop) && hop.to == to implies hop.via
                == Via::Address(peer) by {
                let i = choose|i: int| 0 <= i < hops.len() && hops[i] == hop;
                assert(hops[i].to == to);
            }
        },
    }
}

/// Every node that can be reached is listed, and listed once, with the nearest way to it, and with
/// the round-trip time of the nearest hop that leaves by another way.
pub proof fn every_route_is_listed_once<A>(hops: Seq<Hop<A>>, to: A)
    ensures
        reaches(hops, to) <==> exists|i: int|
            0 <= i < listing(hops).len() && (#[trigger] listing(hops)[i]).0 == to,
        forall|i: int, j: int|
            0 <= i < j < listing(hops).len() ==> (#[trigger] listing(hops)[i]).0 != (
            #[trigger] listing(hops)[j]).0,
        forall|i: int|
            0 <= i < listing(hops).len() && (#[trigger] listing(hops)[i]).0 == to ==> {
                let min = listing(hops)[i].1;
                &&& best(hops, to, Seq::empty()) matches Some(hop)
                &&& min.via == hop.via
                &&& min.rtt == hop.rtt
                &&& match best(hops, to, seq![hop.via]) {
                    Some(next) => min.second_best == Some(next.rtt),
                    None => min.second_best is None,
                }
            },
{
    lemma_destinations(hops);
    hops_are_what_reaches(hops, to);
    let list = destinations(hops);
    if reaches(hops, to) {
        assert(list.contains(to));
        let i = choose|i: int| 0 <= i < list.len() && list[i] == to;
        assert(listing(hops)[i].0 == to);
    }
    assert forall|i: int| 0 <= i < listing(hops).len() && (#[trigger] listing(hops)[i]).0
        == to implies reaches(hops, to) by {
        assert(list[i] == to);
        assert(list.contains(list[i]));
    }
}

/// What a peer believes of a node after it was told things, if it believed `belief` before.
pub open spec fn believing<A>(said: Seq<Body<A>>, to: A, belief: Option<Rtt>) -> Option<Rtt>
    decreases said.len(),
{
    if said.len() == 0 {
        belief
    } else {
        match said.last() {
            Body::AddForwarded(add) => if add.to == to {
                Some(add.rtt)
            } else {
                believing(said.drop_last(), to, belief)
            },
            Body::RemoveForwarded(remove) => if remove.to == to {
                None
            } else {
                believing(said.drop_last(), to, belief)
            },
            _ => believing(said.drop_last(), to, belief),
        }
    }
}

/// When a way is learnt, what every other peer is told makes it believe what it can count on now,
/// if it believed what it could count on before. It is told one thing at most, and nothing where
/// that did not change. Of other nodes it is told nothing.
pub proof fn peers_keep_up_with_new_ways<A>(
    hops: Seq<Hop<A>>,
    to: A,
    via: Via<A>,
    rtt: Rtt,
    peer: A,
    other: A,
    belief: Option<Rtt>,
)
    requires
        distinct_hops(hops),
        peer != to,
        other != to,
    ensures
        ({
            let after = with_hop(hops, to, via, rtt);
            let said = heard(changes_of(to, min_rtt(hops, to), min_rtt(after, to)), peer);
            &&& believing(said, to, offer(hops, to, peer)) == offer(after, to, peer)
            &&& said.len() <= 1
            &&& said.len() == 0 <==> offer(hops, to, peer) == offer(after, to, peer)
            &&& believing(said, other, belief) == belief
        }),
{
    peers_hear_of_new_ways(hops, to, via, rtt, peer);
    reveal_with_fuel(believing, 2);
}

/// When a connection goes, what every other peer is told of a node makes it believe what it can
/// count on now, if it believed what it could count on before. It is told one thing at most, and
/// nothing where that did not change.
pub proof fn peers_keep_up_with_lost_ways<A>(
    hops: Seq<Hop<A>>,
    gone: A,
    to: A,
    peer: A,
    other: A,
    belief: Option<Rtt>,
)
    requires
        peer != to,
        peer != gone,
        other != to,
    ensures
        ({
            let after = without_peer(hops, gone);
            let said = heard(changes_of(to, min_rtt(hops, to), min_rtt(after, to)), peer);
            &&& believing(said, to, offer(hops, to, peer)) == offer(after, to, peer)
            &&& said.len() <= 1
            &&& said.len() == 0 <==> offer(hops, to, peer) == offer(after, to, peer)
            &&& believing(said, other, belief) == belief
        }),
{
    peers_hear_of_lost_ways(hops, gone, to, peer);
    reveal_with_fuel(believing, 2);
}

/// A peer is told of a node that came within reach, or went out of it, unless it is that node, or
/// the one that the way leads, or led, through. Of a second way, and of its end, only the peer is
/// told that the other way leads through.
pub proof fn peers_are_told_what_is_news_to_them<A>(
    to: A,
    via: Via<A>,
    rtt: Rtt,
    peer: A,
)
    ensures
        told(RouteChange::ConnectionAdded(ConnectionAdded { to, via, rtt }), peer) == (if peer != to
            && via != Via::Address(peer) {
            Some(Body::AddForwarded(AddForwarded { to, rtt }))
        } else {
            None
        }),
        told(RouteChange::ConnectionRemoved(ConnectionRemoved { to, via }), peer) == (if peer != to
            && via != Via::Address(peer) {
            Some(Body::RemoveForwarded(RemoveForwarded { to }))
        } else {
            None
        }),
        told(
            RouteChange::ViaListSeconded(
                ViaListSeconded { initial_via: via, for_connection: to, rtt },
            ),
            peer,
        ) == (if via == Via::Address(peer) {
            Some(Body::AddForwarded(AddForwarded { to, rtt }))
        } else {
            None
        }),
        told(
            RouteChange::ViaListUnseconded(ViaListUnseconded { only_via: via, for_connection: to }),
            peer,
        ) == (if via == Via::Address(peer) {
            Some(Body::RemoveForwarded(RemoveForwarded { to }))
        } else {
            None
        }),
{
}

/// Of a new nearest way, or of a new one after it, a peer is told exactly where the nearest way
/// that does not lead through the peer itself has another round-trip time than before, as long as
/// there was one before and is one now: what it is now.
pub proof fn peers_are_told_of_nearer_and_farther_ways<A>(
    to: A,
    before: MinRtt<A>,
    after: MinRtt<A>,
    peer: A,
)
    ensures
        ({
            let was = if before.via == Via::Address(peer) {
                before.second_best
            } else {
                Some(before.rtt)
            };
            let is = if after.via == Via::Address(peer) {
                after.second_best
            } else {
                Some(after.rtt)
            };
            let change = RouteChange::MinRttUpdated(
                MinRttUpdated { for_connection: to, before, after },
            );
            told(change, peer) == (if was is Some && is is Some && was != is {
                Some(Body::AddForwarded(AddForwarded { to, rtt: is->0 }))
            } else {
                None
            })
        }),
{
}

/// A change says that a node came within reach only where it did, and that it went out of reach
/// only where it did; and then it says so.
pub proof fn changes_say_what_came_and_went<A>(
    to: A,
    before: Option<MinRtt<A>>,
    after: Option<MinRtt<A>>,
    i: int,
)
    ensures
        before is None && after is Some ==> changes_of(to, before, after) == seq![
            RouteChange::ConnectionAdded(
                ConnectionAdded { to, via: after->0.via, rtt: after->0.rtt },
            ),
        ],
        before is Some && after is None ==> changes_of(to, before, after) == seq![
            RouteChange::ConnectionRemoved(ConnectionRemoved { to, via: before->0.via }),
        ],
        (before is None <==> after is None) && 0 <= i < changes_of(to, before, after).len() ==> {
            &&& changes_of(to, before, after)[i] !is ConnectionAdded
            &&& changes_of(to, before, after)[i] !is ConnectionRemoved
        },
        before == after ==> changes_of(to, before, after).len() == 0,
{
}

} // verus!
