//! Routes: through which peers a node can be reached, and what peers are told of it.

use crate::address::{copy_of, same, AddressT};
use crate::internal_handlers::{AddForwarded, Body, RemoveForwarded};
use vstd::prelude::*;

verus! {

/// A round-trip time.
#[derive(Clone, Copy, PartialEq, Eq, Structural, Debug)]
pub struct Rtt(pub u32);

/// How the messages to a node leave this one.
pub enum Via<Address> {
    /// Over a connection to the node itself.
    Direct,
    /// Over a connection to a peer, which forwards them.
    Address(Address),
}

/// One way to reach a node.
pub struct Hop<Address> {
    pub to: Address,
    pub via: Via<Address>,
    pub rtt: Rtt,
}

/// The nearest way to a node, and how near the next one is.
pub struct MinRtt<Address> {
    pub via: Via<Address>,
    pub rtt: Rtt,
    pub second_best: Option<Rtt>,
}

/// The nearest way to a node changed, or the one after it.
pub struct MinRttUpdated<Address> {
    pub for_connection: Address,
    pub before: MinRtt<Address>,
    pub after: MinRtt<Address>,
}

/// A node that could be reached in one way can now be reached in another one too.
pub struct ViaListSeconded<Address> {
    pub initial_via: Via<Address>,
    pub for_connection: Address,
    pub rtt: Rtt,
}

/// A node that could be reached in several ways can now be reached in one only.
pub struct ViaListUnseconded<Address> {
    pub only_via: Via<Address>,
    pub for_connection: Address,
}

/// A node can now be reached.
pub struct ConnectionAdded<Address> {
    pub to: Address,
    pub via: Via<Address>,
    pub rtt: Rtt,
}

/// A node can no longer be reached.
pub struct ConnectionRemoved<Address> {
    pub to: Address,
    pub via: Via<Address>,
}

/// A change of the routes.
pub enum RouteChange<Address> {
    MinRttUpdated(MinRttUpdated<Address>),
    ViaListSeconded(ViaListSeconded<Address>),
    ViaListUnseconded(ViaListUnseconded<Address>),
    ConnectionAdded(ConnectionAdded<Address>),
    ConnectionRemoved(ConnectionRemoved<Address>),
}

/// Compares two ways out.
pub fn same_via<A: AddressT>(a: &Via<A>, b: &Via<A>) -> (r: bool)
    ensures
        r == (*a == *b),
{
    match (a, b) {
        (Via::Direct, Via::Direct) => true,
        (Via::Address(x), Via::Address(y)) => same(x, y),
        _ => false,
    }
}

/// Whether messages that leave by `via` leave over the connection to the forwarder `peer`.
pub fn is_through<A: AddressT>(via: &Via<A>, peer: &A) -> (r: bool)
    ensures
        r == (*via == Via::Address(*peer)),
{
    match via {
        Via::Direct => false,
        Via::Address(x) => same(x, peer),
    }
}

/// Copies a way out.
pub fn copy_of_via<A: AddressT>(via: &Via<A>) -> (r: Via<A>)
    ensures
        r == *via,
{
    match via {
        Via::Direct => Via::Direct,
        Via::Address(x) => Via::Address(copy_of(x)),
    }
}

/// Whether a hop leads to `to` and does not leave by any of the ways in `avoid`.
pub open spec fn leads<A>(hop: Hop<A>, to: A, avoid: Seq<Via<A>>) -> bool {
    hop.to == to && !avoid.contains(hop.via)
}

/// The nearest hop that leads to `to`; of hops equally near, the one that was learnt first.
pub open spec fn best<A>(hops: Seq<Hop<A>>, to: A, avoid: Seq<Via<A>>) -> Option<Hop<A>>
    decreases hops.len(),
{
    if hops.len() == 0 {
        None
    } else {
        let earlier = best(hops.drop_last(), to, avoid);
        let hop = hops.last();
        if leads(hop, to, avoid) && (earlier matches Some(e) ==> hop.rtt.0 < e.rtt.0) {
            Some(hop)
        } else {
            earlier
        }
    }
}

/// Whether a node can be reached.
pub open spec fn reaches<A>(hops: Seq<Hop<A>>, to: A) -> bool {
    exists|i: int| 0 <= i < hops.len() && #[trigger] hops[i].to == to
}

/// Whether messages from `to` may arrive by `via`: that is a known way to it, or the connection to
/// it itself.
pub open spec fn may_forward<A>(hops: Seq<Hop<A>>, via: Via<A>, to: A) -> bool {
    exists|i: int|
        0 <= i < hops.len() && (#[trigger] hops[i]).to == to && (hops[i].via == via
            || hops[i].via is Direct && via == Via::Address(to))
}

/// The nearest way to a node, and how near the next one is.
pub open spec fn min_rtt<A>(hops: Seq<Hop<A>>, to: A) -> Option<MinRtt<A>> {
    match best(hops, to, Seq::empty()) {
        None => None,
        Some(hop) => Some(
            MinRtt {
                via: hop.via,
                rtt: hop.rtt,
                second_best: match best(hops, to, seq![hop.via]) {
                    None => None,
                    Some(second) => Some(second.rtt),
                },
            },
        ),
    }
}

/// How near `to` is for a peer that reaches it through this node: over a way that does not lead
/// through that peer itself.
pub open spec fn offer<A>(hops: Seq<Hop<A>>, to: A, peer: A) -> Option<Rtt> {
    match best(hops, to, seq![Via::Address(peer)]) {
        None => None,
        Some(hop) => Some(hop.rtt),
    }
}

/// The nodes that can be reached, each once, in the order in which they were first learnt of.
pub open spec fn destinations<A>(hops: Seq<Hop<A>>) -> Seq<A>
    decreases hops.len(),
{
    if hops.len() == 0 {
        Seq::empty()
    } else {
        let earlier = destinations(hops.drop_last());
        if earlier.contains(hops.last().to) {
            earlier
        } else {
            earlier.push(hops.last().to)
        }
    }
}

/// The hops after a way to `to` was learnt, or its round-trip time.
pub open spec fn with_hop<A>(hops: Seq<Hop<A>>, to: A, via: Via<A>, rtt: Rtt) -> Seq<Hop<A>> {
    if exists|i: int| 0 <= i < hops.len() && (#[trigger] hops[i]).to == to && hops[i].via == via {
        hops.map_values(
            |hop: Hop<A>|
                if hop.to == to && hop.via == via {
                    Hop { to, via, rtt }
                } else {
                    hop
                },
        )
    } else {
        hops.push(Hop { to, via, rtt })
    }
}

/// Whether a hop stays when the connection to `peer` goes.
pub open spec fn outlives<A>(hop: Hop<A>, peer: A) -> bool {
    match hop.via {
        Via::Direct => hop.to != peer,
        Via::Address(a) => a != peer,
    }
}

/// The hops after the connection to `peer` went.
pub open spec fn without_peer<A>(hops: Seq<Hop<A>>, peer: A) -> Seq<Hop<A>> {
    hops.filter(|hop: Hop<A>| outlives(hop, peer))
}

/// What changed for a node whose nearest way was `before` and is `after`.
pub open spec fn changes_of<A>(
    to: A,
    before: Option<MinRtt<A>>,
    after: Option<MinRtt<A>>,
) -> Seq<RouteChange<A>> {
    match (before, after) {
        (None, None) => Seq::empty(),
        (None, Some(a)) => seq![
            RouteChange::ConnectionAdded(ConnectionAdded { to, via: a.via, rtt: a.rtt }),
        ],
        (Some(b), None) => seq![
            RouteChange::ConnectionRemoved(ConnectionRemoved { to, via: b.via }),
        ],
        (Some(b), Some(a)) => {
            let seconded = if b.second_best is None && a.second_best is Some {
                seq![
                    RouteChange::ViaListSeconded(
                        ViaListSeconded {
                            initial_via: b.via,
                            for_connection: to,
                            rtt: a.avoiding(b.via),
                        },
                    ),
                ]
            } else if b.second_best is Some && a.second_best is None {
                seq![
                    RouteChange::ViaListUnseconded(
                        ViaListUnseconded { only_via: a.via, for_connection: to },
                    ),
                ]
            } else {
                Seq::empty()
            };
            if b == a {
                seconded
            } else {
                seconded.push(
                    RouteChange::MinRttUpdated(
                        MinRttUpdated { for_connection: to, before: b, after: a },
                    ),
                )
            }
        },
    }
}

/// What changed for the nodes in `tos`, one after the other, when the hops went from `before` to
/// `after`.
pub open spec fn changes_for<A>(
    tos: Seq<A>,
    before: Seq<Hop<A>>,
    after: Seq<Hop<A>>,
) -> Seq<RouteChange<A>>
    decreases tos.len(),
{
    if tos.len() == 0 {
        Seq::empty()
    } else {
        changes_for(tos.drop_last(), before, after) + changes_of(
            tos.last(),
            min_rtt(before, tos.last()),
            min_rtt(after, tos.last()),
        )
    }
}

/// What a change of the routes makes this node tell the peer at the other end of a connection.
pub open spec fn told<A>(change: RouteChange<A>, peer: A) -> Option<Body<A>> {
    match change {
        RouteChange::MinRttUpdated(u) => match u.spec_update_for(peer) {
            Some(add) => Some(Body::AddForwarded(add)),
            None => None,
        },
        RouteChange::ViaListSeconded(s) => if s.initial_via == Via::Address(peer) {
            Some(Body::AddForwarded(AddForwarded { to: s.for_connection, rtt: s.rtt }))
        } else {
            None
        },
        RouteChange::ViaListUnseconded(u) => if u.only_via == Via::Address(peer) {
            Some(Body::RemoveForwarded(RemoveForwarded { to: u.for_connection }))
        } else {
            None
        },
        RouteChange::ConnectionAdded(a) => if a.to == peer || a.via == Via::Address(peer) {
            None
        } else {
            Some(Body::AddForwarded(AddForwarded { to: a.to, rtt: a.rtt }))
        },
        RouteChange::ConnectionRemoved(r) => if r.to == peer || r.via == Via::Address(peer) {
            None
        } else {
            Some(Body::RemoveForwarded(RemoveForwarded { to: r.to }))
        },
    }
}

impl<A> MinRtt<A> {
    /// How near the node is for a peer that reaches it through this node.
    pub open spec fn spec_offer(self, peer: A) -> Option<Rtt> {
        if self.via == Via::Address(peer) {
            self.second_best
        } else {
            Some(self.rtt)
        }
    }

    /// How near the node is over the nearest way that is not `via`, where there is one.
    pub open spec fn avoiding(self, via: Via<A>) -> Rtt {
        match self.second_best {
            Some(second) => if self.via == via {
                second
            } else {
                self.rtt
            },
            None => self.rtt,
        }
    }
}

impl<A> MinRttUpdated<A> {
    /// What a peer is told: the round-trip time that it can count on, where there was one before,
    /// there is one now, and they differ.
    pub open spec fn spec_update_for(self, peer: A) -> Option<AddForwarded<A>> {
        match (self.before.spec_offer(peer), self.after.spec_offer(peer)) {
            (Some(b), Some(a)) => if a != b {
                Some(AddForwarded { to: self.for_connection, rtt: a })
            } else {
                None
            },
            _ => None,
        }
    }
}

impl<A: AddressT> MinRtt<A> {
    /// How near the node is for a peer that reaches it through this node.
    pub fn offer(&self, peer: &A) -> (r: Option<Rtt>)
        ensures
            r == self.spec_offer(*peer),
    {
        if is_through(&self.via, peer) {
            self.second_best
        } else {
            Some(self.rtt)
        }
    }
}

impl<A: AddressT> MinRttUpdated<A> {
    /// What a peer is told of the update, if anything.
    pub fn update_for(&self, peer: &A) -> (r: Option<AddForwarded<A>>)
        ensures
            r == self.spec_update_for(*peer),
    {
        match (self.before.offer(peer), self.after.offer(peer)) {
            (Some(b), Some(a)) => {
                if a.0 != b.0 {
                    Some(AddForwarded { to: copy_of(&self.for_connection), rtt: a })
                } else {
                    None
                }
            },
            _ => None,
        }
    }
}

/// What a change of the routes makes this node tell the peer at the other end of a connection.
pub fn told_to<A: AddressT>(change: &RouteChange<A>, peer: &A) -> (r: Option<Body<A>>)
    ensures
        r == told(*change, *peer),
{
    match change {
        RouteChange::MinRttUpdated(updated) => match updated.update_for(peer) {
            Some(add) => Some(Body::AddForwarded(add)),
            None => None,
        },
        RouteChange::ViaListSeconded(seconded) => {
            if !is_through(&seconded.initial_via, peer) {
                return None;
            }
            Some(
                Body::AddForwarded(
                    AddForwarded { to: copy_of(&seconded.for_connection), rtt: seconded.rtt },
                ),
            )
        },
        RouteChange::ViaListUnseconded(unseconded) => {
            if !is_through(&unseconded.only_via, peer) {
                return None;
            }
            Some(
                Body::RemoveForwarded(
                    RemoveForwarded { to: copy_of(&unseconded.for_connection) },
                ),
            )
        },
        RouteChange::ConnectionAdded(added) => {
            if same(&added.to, peer) || is_through(&added.via, peer) {
                return None;
            }
            Some(Body::AddForwarded(AddForwarded { to: copy_of(&added.to), rtt: added.rtt }))
        },
        RouteChange::ConnectionRemoved(removed) => {
            if same(&removed.to, peer) || is_through(&removed.via, peer) {
                return None;
            }
            Some(Body::RemoveForwarded(RemoveForwarded { to: copy_of(&removed.to) }))
        },
    }
}

/// No two hops lead to one node by one way.
pub open spec fn distinct_hops<A>(hops: Seq<Hop<A>>) -> bool {
    forall|i: int, j: int|
        0 <= i < j < hops.len() && (#[trigger] hops[i]).to == (#[trigger] hops[j]).to
            ==> hops[i].via != hops[j].via
}

fn lists_via<A: AddressT>(vias: &Vec<Via<A>>, via: &Via<A>) -> (r: bool)
    ensures
        r == vias@.contains(*via),
{
    for i in 0..vias.len()
        invariant
            forall|j: int| 0 <= j < i ==> vias@[j] != *via,
    {
        if same_via(&vias[i], via) {
            return true;
        }
    }
    false
}

fn only<A>(via: Via<A>) -> (r: Vec<Via<A>>)
    ensures
        r@ == seq![via],
{
    let mut r = Vec::new();
    r.push(via);
    r
}

/// The place of the nearest hop that leads to `to`.
fn best_of<A: AddressT>(hops: &Vec<Hop<A>>, to: &A, avoid: &Vec<Via<A>>) -> (r: Option<usize>)
    ensures
        r matches Some(i) ==> i < hops@.len() && best(hops@, *to, avoid@) == Some(hops@[i as int]),
        r is None ==> best(hops@, *to, avoid@) is None,
{
    let mut found: Option<usize> = None;
    for i in 0..hops.len()
        invariant
            found matches Some(k) ==> k < i && best(hops@.take(i as int), *to, avoid@) == Some(
                hops@[k as int],
            ),
            found is None ==> best(hops@.take(i as int), *to, avoid@) is None,
    {
        proof {
            assert(hops@.take(i + 1).drop_last() =~= hops@.take(i as int));
            assert(hops@.take(i + 1).last() == hops@[i as int]);
        }
        if same(&hops[i].to, to) && !lists_via(avoid, &hops[i].via) {
            let nearer = match found {
                Some(k) => hops[i].rtt.0 < hops[k].rtt.0,
                None => true,
            };
            if nearer {
                found = Some(i);
            }
        }
    }
    assert(hops@.take(hops@.len() as int) =~= hops@);
    found
}

fn min_of<A: AddressT>(hops: &Vec<Hop<A>>, to: &A) -> (r: Option<MinRtt<A>>)
    ensures
        r == min_rtt(hops@, *to),
{
    match best_of(hops, to, &Vec::new()) {
        None => None,
        Some(i) => {
            let avoid = only(copy_of_via(&hops[i].via));
            let second_best = match best_of(hops, to, &avoid) {
                None => None,
                Some(k) => Some(hops[k].rtt),
            };
            Some(MinRtt { via: copy_of_via(&hops[i].via), rtt: hops[i].rtt, second_best })
        },
    }
}

fn changed<A: AddressT>(to: &A, before: Option<MinRtt<A>>, after: Option<MinRtt<A>>) -> (r: Vec<
    RouteChange<A>,
>)
    ensures
        r@ == changes_of(*to, before, after),
{
    let mut r = Vec::new();
    match (before, after) {
        (None, None) => {},
        (None, Some(a)) => {
            r.push(
                RouteChange::ConnectionAdded(
                    ConnectionAdded { to: copy_of(to), via: a.via, rtt: a.rtt },
                ),
            );
        },
        (Some(b), None) => {
            r.push(
                RouteChange::ConnectionRemoved(ConnectionRemoved { to: copy_of(to), via: b.via }),
            );
        },
        (Some(b), Some(a)) => {
            let same_way = same_via(&b.via, &a.via);
            if b.second_best.is_none() && a.second_best.is_some() {
                let rtt = match a.second_best {
                    Some(second) => if same_way {
                        second
                    } else {
                        a.rtt
                    },
                    None => a.rtt,
                };
                r.push(
                    RouteChange::ViaListSeconded(
                        ViaListSeconded {
                            initial_via: copy_of_via(&b.via),
                            for_connection: copy_of(to),
                            rtt,
                        },
                    ),
                );
            } else if b.second_best.is_some() && a.second_best.is_none() {
                r.push(
                    RouteChange::ViaListUnseconded(
                        ViaListUnseconded {
                            only_via: copy_of_via(&a.via),
                            for_connection: copy_of(to),
                        },
                    ),
                );
            }
            let same_second = match (b.second_best, a.second_best) {
                (None, None) => true,
                (Some(x), Some(y)) => x.0 == y.0,
                _ => false,
            };
            if !(same_way && b.rtt.0 == a.rtt.0 && same_second) {
                r.push(
                    RouteChange::MinRttUpdated(
                        MinRttUpdated { for_connection: copy_of(to), before: b, after: a },
                    ),
                );
            }
        },
    }
    r
}

/// All that is known of ways to other nodes.
pub struct RouteSet<A> {
    hops: Vec<Hop<A>>,
}

impl<A> View for RouteSet<A> {
    type V = Seq<Hop<A>>;

    closed spec fn view(&self) -> Seq<Hop<A>> {
        self.hops@
    }
}

impl<A: AddressT> RouteSet<A> {
    /// Nothing is known.
    pub fn new() -> (r: Self)
        ensures
            r@ == Seq::<Hop<A>>::empty(),
    {
        RouteSet { hops: Vec::new() }
    }

    /// Whether a node can be reached.
    pub fn has(&self, to: &A) -> (r: bool)
        ensures
            r == reaches(self@, *to),
    {
        for i in 0..self.hops.len()
            invariant
                forall|j: int| 0 <= j < i ==> (#[trigger] self@[j]).to != *to,
        {
            if same(&self.hops[i].to, to) {
                assert(self@[i as int].to == *to);
                return true;
            }
        }
        false
    }

    /// The nearest way to a node among those that are not in `blacklist`.
    pub fn forwarder_for(&self, to: &A, blacklist: &Vec<Via<A>>) -> (r: Option<Via<A>>)
        ensures
            r == (match best(self@, *to, blacklist@) {
                Some(hop) => Some(hop.via),
                None => None,
            }),
    {
        match best_of(&self.hops, to, blacklist) {
            Some(i) => Some(copy_of_via(&self.hops[i].via)),
            None => None,
        }
    }

    /// Whether messages from `to` may arrive by `via`.
    pub fn may_be_forwarder_for(&self, via: &Via<A>, to: &A) -> (r: bool)
        ensures
            r == may_forward(self@, *via, *to),
    {
        for i in 0..self.hops.len()
            invariant
                forall|j: int|
                    0 <= j < i ==> !((#[trigger] self@[j]).to == *to && (self@[j].via == *via
                        || self@[j].via is Direct && *via == Via::Address(*to))),
        {
            if same(&self.hops[i].to, to) {
                let by_connection = match self.hops[i].via {
                    Via::Direct => is_through(via, to),
                    Via::Address(_) => false,
                };
                if by_connection || same_via(&self.hops[i].via, via) {
                    assert(self@[i as int].to == *to);
                    return true;
                }
            }
        }
        false
    }

    /// Every node that can be reached, with the nearest way to it.
    pub fn list(&self) -> (r: Vec<(A, MinRtt<A>)>)
        ensures
            r@ == listing(self@),
    {
        let tos = destinations_of(&self.hops);
        let mut r = Vec::new();
        for i in 0..tos.len()
            invariant
                tos@ == destinations(self@),
                r@ == listing(self@).take(i as int),
        {
            proof {
                lemma_destinations(self@);
                assert(destinations(self@).contains(tos@[i as int]));
                lemma_best(self@, tos@[i as int], Seq::empty());
                assert(listing(self@).take(i + 1) =~= listing(self@).take(i as int).push(
                    listing(self@)[i as int],
                ));
            }
            match min_of(&self.hops, &tos[i]) {
                Some(min) => {
                    r.push((copy_of(&tos[i]), min));
                },
                None => {},
            }
        }
        assert(listing(self@).take(tos@.len() as int) =~= listing(self@));
        r
    }

    /// Learns a way to a node, or its round-trip time, and returns what changed.
    pub fn inc(&mut self, to: A, via: Via<A>, rtt: Rtt) -> (r: Vec<RouteChange<A>>)
        requires
            distinct_hops(old(self)@),
        ensures
            distinct_hops(final(self)@),
            final(self)@ == with_hop(old(self)@, to, via, rtt),
            r@ == changes_of(to, min_rtt(old(self)@, to), min_rtt(final(self)@, to)),
    {
        let before = min_of(&self.hops, &to);
        let mut place: Option<usize> = None;
        for i in 0..self.hops.len()
            invariant
                self.hops@ == old(self)@,
                place matches Some(k) ==> k < i && self.hops@[k as int].to == to
                    && self.hops@[k as int].via == via,
                place is None ==> forall|j: int|
                    0 <= j < i ==> !((#[trigger] self.hops@[j]).to == to && self.hops@[j].via
                        == via),
        {
            if same(&self.hops[i].to, &to) && same_via(&self.hops[i].via, &via) {
                place = Some(i);
            }
        }
        match place {
            Some(i) => {
                self.hops.set(i, Hop { to: copy_of(&to), via, rtt });
                assert(self.hops@ =~= with_hop(old(self)@, to, via, rtt));
            },
            None => {
                self.hops.push(Hop { to: copy_of(&to), via, rtt });
            },
        }
        let after = min_of(&self.hops, &to);
        changed(&to, before, after)
    }

    /// A connection to a node was made.
    pub fn on_add_direct_connection(&mut self, to: A, rtt: Rtt) -> (r: Vec<RouteChange<A>>)
        requires
            distinct_hops(old(self)@),
        ensures
            distinct_hops(final(self)@),
            final(self)@ == with_hop(old(self)@, to, Via::Direct, rtt),
            r@ == changes_of(to, min_rtt(old(self)@, to), min_rtt(final(self)@, to)),
    {
        self.inc(to, Via::Direct, rtt)
    }

    /// The connection to a peer went, and with it every way through that peer.
    pub fn on_remove_direct_connection(&mut self, peer: &A) -> (r: Vec<RouteChange<A>>)
        requires
            distinct_hops(old(self)@),
        ensures
            distinct_hops(final(self)@),
            final(self)@ == without_peer(old(self)@, *peer),
            r@ == changes_for(destinations(old(self)@), old(self)@, final(self)@),
    {
        let ghost keep = |hop: Hop<A>| outlives(hop, *peer);
        let tos = destinations_of(&self.hops);
        let mut kept: Vec<Hop<A>> = Vec::new();
        for i in 0..self.hops.len()
            invariant
                self.hops@ == old(self)@,
                keep == (|hop: Hop<A>| outlives(hop, *peer)),
                kept@ == self.hops@.take(i as int).filter(keep),
        {
            proof {
                reveal(Seq::filter);
                assert(self.hops@.take(i + 1).drop_last() =~= self.hops@.take(i as int));
            }
            let stays = match &self.hops[i].via {
                Via::Direct => !same(&self.hops[i].to, peer),
                Via::Address(a) => !same(a, peer),
            };
            if stays {
                kept.push(
                    Hop {
                        to: copy_of(&self.hops[i].to),
                        via: copy_of_via(&self.hops[i].via),
                        rtt: self.hops[i].rtt,
                    },
                );
            }
        }
        assert(self.hops@.take(self.hops@.len() as int) =~= self.hops@);
        proof {
            lemma_filter_distinct(old(self)@, *peer);
        }
        let mut r = Vec::new();
        for i in 0..tos.len()
            invariant
                self.hops@ == old(self)@,
                kept@ == without_peer(old(self)@, *peer),
                r@ == changes_for(tos@.take(i as int), old(self)@, kept@),
        {
            assert(tos@.take(i + 1).drop_last() =~= tos@.take(i as int));
            let before = min_of(&self.hops, &tos[i]);
            let after = min_of(&kept, &tos[i]);
            let mut news = changed(&tos[i], before, after);
            r.append(&mut news);
        }
        assert(tos@.take(tos@.len() as int) =~= tos@);
        self.hops = kept;
        r
    }
}

/// Every node that can be reached, with the nearest way to it.
pub open spec fn listing<A>(hops: Seq<Hop<A>>) -> Seq<(A, MinRtt<A>)> {
    destinations(hops).map_values(|to: A| (to, min_rtt(hops, to)->0))
}

fn destinations_of<A: AddressT>(hops: &Vec<Hop<A>>) -> (r: Vec<A>)
    ensures
        r@ == destinations(hops@),
{
    let mut r: Vec<A> = Vec::new();
    for i in 0..hops.len()
        invariant
            r@ == destinations(hops@.take(i as int)),
    {
        assert(hops@.take(i + 1).drop_last() =~= hops@.take(i as int));
        if !lists_address(&r, &hops[i].to) {
            r.push(copy_of(&hops[i].to));
        }
    }
    assert(hops@.take(hops@.len() as int) =~= hops@);
    r
}

/// Whether an address is in a list.
pub fn lists_address<A: AddressT>(list: &Vec<A>, a: &A) -> (r: bool)
    ensures
        r == list@.contains(*a),
{
    for i in 0..list.len()
        invariant
            forall|j: int| 0 <= j < i ==> list@[j] != *a,
    {
        if same(&list[i], a) {
            return true;
        }
    }
    false
}

/// The nearest hop is one that leads there, and none that does is nearer; there is one exactly
/// where some hop leads there.
pub proof fn lemma_best<A>(hops: Seq<Hop<A>>, to: A, avoid: Seq<Via<A>>)
    ensures
        best(hops, to, avoid) matches Some(hop) ==> hops.contains(hop) && leads(hop, to, avoid),
        forall|i: int|
            0 <= i < hops.len() && leads(#[trigger] hops[i], to, avoid) ==> {
                &&& best(hops, to, avoid) is Some
                &&& best(hops, to, avoid)->0.rtt.0 <= hops[i].rtt.0
            },
    decreases hops.len(),
{
    if hops.len() > 0 {
        let earlier = hops.drop_last();
        lemma_best(earlier, to, avoid);
        assert(hops[hops.len() - 1] == hops.last());
        assert forall|i: int| 0 <= i < hops.len() && leads(#[trigger] hops[i], to, avoid) implies {
            &&& best(hops, to, avoid) is Some
            &&& best(hops, to, avoid)->0.rtt.0 <= hops[i].rtt.0
        } by {
            if i < earlier.len() {
                assert(earlier[i] == hops[i]);
            }
        }
        if best(earlier, to, avoid) is Some {
            let hop = best(earlier, to, avoid)->0;
            let k = choose|k: int| 0 <= k < earlier.len() && earlier[k] == hop;
            assert(hops[k] == hop);
        }
    }
}

/// The list of destinations holds the nodes that can be reached, and each of them once.
pub proof fn lemma_destinations<A>(hops: Seq<Hop<A>>)
    ensures
        forall|to: A| #[trigger] destinations(hops).contains(to) <==> reaches(hops, to),
        destinations(hops).no_duplicates(),
    decreases hops.len(),
{
    if hops.len() > 0 {
        let earlier = hops.drop_last();
        lemma_destinations(earlier);
        let list = destinations(earlier);
        let to = hops.last().to;
        assert(hops[hops.len() - 1].to == to);
        assert forall|a: A| #[trigger] destinations(hops).contains(a) <==> reaches(hops, a) by {
            if reaches(hops, a) && a != to {
                let i = choose|i: int| 0 <= i < hops.len() && #[trigger] hops[i].to == a;
                assert(earlier[i].to == a);
            }
            if reaches(earlier, a) {
                let i = choose|i: int| 0 <= i < earlier.len() && #[trigger] earlier[i].to == a;
                assert(hops[i].to == a);
            }
            if !list.contains(to) {
                assert(list.push(to)[list.len() as int] == to);
                if list.contains(a) {
                    let k = choose|k: int| 0 <= k < list.len() && list[k] == a;
                    assert(list.push(to)[k] == a);
                }
            }
        }
    }
}

proof fn lemma_filter_distinct<A>(hops: Seq<Hop<A>>, peer: A)
    requires
        distinct_hops(hops),
    ensures
        distinct_hops(without_peer(hops, peer)),
    decreases hops.len(),
{
    reveal(Seq::filter);
    if hops.len() > 0 {
        let earlier = hops.drop_last();
        assert forall|i: int, j: int|
            0 <= i < j < earlier.len() && (#[trigger] earlier[i]).to == (
            #[trigger] earlier[j]).to implies earlier[i].via != earlier[j].via by {
            assert(earlier[i] == hops[i] && earlier[j] == hops[j]);
        }
        lemma_filter_distinct(earlier, peer);
        let kept = without_peer(earlier, peer);
        assert forall|i: int| 0 <= i < kept.len() && (#[trigger] kept[i]).to
            == hops.last().to implies kept[i].via != hops.last().via by {
            earlier.lemma_filter_contains_rev(|hop: Hop<A>| outlives(hop, peer), kept[i]);
            let k = choose|k: int| 0 <= k < earlier.len() && earlier[k] == kept[i];
            assert(hops[k] == kept[i]);
            assert(hops[hops.len() - 1] == hops.last());
        }
    }
}

/// What a peer has to be told when the round-trip time that it can count on goes from `before` to
/// `after`.
pub open spec fn offer_change<A>(to: A, before: Option<Rtt>, after: Option<Rtt>) -> Seq<Body<A>> {
    match (before, after) {
        (_, Some(a)) => if before == after {
            Seq::empty()
        } else {
            seq![Body::AddForwarded(AddForwarded { to, rtt: a })]
        },
        (Some(_), None) => seq![Body::RemoveForwarded(RemoveForwarded { to })],
        (None, None) => Seq::empty(),
    }
}

/// What a peer is told of changes, in their order.
pub open spec fn heard<A>(changes: Seq<RouteChange<A>>, peer: A) -> Seq<Body<A>> {
    changes.filter_map(|change: RouteChange<A>| told(change, peer))
}

/// The nearest way to a node, and how near the next one is, say how near the node is for each
/// peer that reaches it through this node.
pub proof fn min_rtt_gives_offers<A>(hops: Seq<Hop<A>>, to: A, peer: A)
    ensures
        offer(hops, to, peer) == (match min_rtt(hops, to) {
            Some(min) => min.spec_offer(peer),
            None => None,
        }),
{
    let none = Seq::<Via<A>>::empty();
    let one = seq![Via::Address(peer)];
    lemma_best(hops, to, none);
    lemma_best(hops, to, one);
    assert(one.contains(Via::Address(peer))) by {
        assert(one[0] == Via::Address(peer));
    }
    match best(hops, to, none) {
        Some(hop) => {
            if hop.via != Via::Address(peer) {
                let i = choose|i: int| 0 <= i < hops.len() && hops[i] == hop;
                assert(leads(hops[i], to, one));
                let near = best(hops, to, one)->0;
                let k = choose|k: int| 0 <= k < hops.len() && hops[k] == near;
                assert(leads(hops[k], to, none));
            }
        },
        None => {
            if best(hops, to, one) is Some {
                let near = best(hops, to, one)->0;
                let k = choose|k: int| 0 <= k < hops.len() && hops[k] == near;
                assert(leads(hops[k], to, none));
            }
        },
    }
}

proof fn lemma_heard<A>(to: A, before: Option<MinRtt<A>>, after: Option<MinRtt<A>>, peer: A)
    requires
        peer != to,
        before is None && after is Some ==> after->0.second_best is None,
        before is Some && after is None ==> before->0.via != Via::Address(peer),
        before is Some && after is Some && before->0.second_best is None
            && after->0.second_best is None ==> before->0.via == after->0.via,
    ensures
        heard(changes_of(to, before, after), peer) == offer_change(
            to,
            match before {
                Some(min) => min.spec_offer(peer),
                None => None,
            },
            match after {
                Some(min) => min.spec_offer(peer),
                None => None,
            },
        ),
{
    reveal(Seq::filter_map);
    reveal_with_fuel(Seq::filter_map, 3);
    let changes = changes_of(to, before, after);
    let f = |change: RouteChange<A>| told(change, peer);
    if changes.len() == 1 {
        assert(changes.drop_last() =~= Seq::empty());
    } else if changes.len() == 2 {
        assert(changes.drop_last().drop_last() =~= Seq::empty());
    }
    assert(heard(changes, peer) =~= offer_change(
        to,
        match before {
            Some(min) => min.spec_offer(peer),
            None => None,
        },
        match after {
            Some(min) => min.spec_offer(peer),
            None => None,
        },
    ));
}

/// Two ways to a node that lead by different ways make the list of its ways longer than one.
proof fn lemma_single<A>(hops: Seq<Hop<A>>, to: A, i: int)
    requires
        0 <= i < hops.len(),
        hops[i].to == to,
    ensures
        min_rtt(hops, to) is Some,
        min_rtt(hops, to)->0.second_best is None ==> min_rtt(hops, to)->0.via == hops[i].via,
{
    let none = Seq::<Via<A>>::empty();
    lemma_best(hops, to, none);
    assert(leads(hops[i], to, none));
    let via = best(hops, to, none)->0.via;
    lemma_best(hops, to, seq![via]);
    if hops[i].via != via {
        assert(leads(hops[i], to, seq![via]));
    }
}

proof fn lemma_min_contained<A>(hops: Seq<Hop<A>>, to: A) -> (i: int)
    requires
        min_rtt(hops, to) is Some,
    ensures
        0 <= i < hops.len(),
        hops[i].to == to,
        hops[i].via == min_rtt(hops, to)->0.via,
{
    lemma_best(hops, to, Seq::empty());
    choose|i: int| 0 <= i < hops.len() && hops[i] == best(hops, to, Seq::empty())->0
}

/// When a way to a node is learnt, or its round-trip time, every other peer is told, once, if and
/// only if the round-trip time that it can count on through this node changed: what that is now.
pub proof fn peers_hear_of_new_ways<A>(
    hops: Seq<Hop<A>>,
    to: A,
    via: Via<A>,
    rtt: Rtt,
    peer: A,
)
    requires
        distinct_hops(hops),
        peer != to,
    ensures
        heard(
            changes_of(to, min_rtt(hops, to), min_rtt(with_hop(hops, to, via, rtt), to)),
            peer,
        ) == offer_change(
            to,
            offer(hops, to, peer),
            offer(with_hop(hops, to, via, rtt), to, peer),
        ),
{
    let after = with_hop(hops, to, via, rtt);
    min_rtt_gives_offers(hops, to, peer);
    min_rtt_gives_offers(after, to, peer);
    let known = exists|i: int|
        0 <= i < hops.len() && (#[trigger] hops[i]).to == to && hops[i].via == via;
    if known {
        let k = choose|i: int|
            0 <= i < hops.len() && (#[trigger] hops[i]).to == to && hops[i].via == via;
        lemma_single(hops, to, k);
        assert(after[k].to == to && after[k].via == via);
        lemma_single(after, to, k);
    } else {
        assert(after[hops.len() as int].to == to);
        lemma_single(after, to, hops.len() as int);
        if min_rtt(hops, to) is None {
            lemma_best(hops, to, Seq::empty());
            let first = best(after, to, Seq::empty())->0.via;
            lemma_best(after, to, seq![first]);
            lemma_best(after, to, Seq::empty());
            if best(after, to, seq![first]) is Some {
                let other = best(after, to, seq![first])->0;
                let j = choose|j: int| 0 <= j < after.len() && after[j] == other;
                let h = best(after, to, Seq::empty())->0;
                let m = choose|m: int| 0 <= m < after.len() && after[m] == h;
                if j < hops.len() {
                    assert(leads(hops[j], to, Seq::empty()));
                }
                if m < hops.len() {
                    assert(leads(hops[m], to, Seq::empty()));
                }
                assert(seq![first][0] == first);
            }
        }
    }
    if min_rtt(hops, to) is Some {
        let i = lemma_min_contained(hops, to);
        assert(after[i].to == to && after[i].via == hops[i].via);
        lemma_single(after, to, i);
    }
    lemma_heard(to, min_rtt(hops, to), min_rtt(after, to), peer);
}

/// When the connection to a peer goes, every other peer is told, once, of each node for which the
/// round-trip time that it can count on through this node changed: what that is now, or that there
/// is none any more. Of the other nodes it is told nothing.
pub proof fn peers_hear_of_lost_ways<A>(hops: Seq<Hop<A>>, gone: A, to: A, peer: A)
    requires
        peer != to,
        peer != gone,
    ensures
        heard(
            changes_of(to, min_rtt(hops, to), min_rtt(without_peer(hops, gone), to)),
            peer,
        ) == offer_change(
            to,
            offer(hops, to, peer),
            offer(without_peer(hops, gone), to, peer),
        ),
{
    let after = without_peer(hops, gone);
    let keep = |hop: Hop<A>| outlives(hop, gone);
    min_rtt_gives_offers(hops, to, peer);
    min_rtt_gives_offers(after, to, peer);
    if min_rtt(after, to) is Some {
        let j = lemma_min_contained(after, to);
        hops.lemma_filter_contains_rev(keep, after[j]);
        let i = choose|i: int| 0 <= i < hops.len() && hops[i] == after[j];
        lemma_single(hops, to, i);
    } else if min_rtt(hops, to) is Some {
        let i = lemma_min_contained(hops, to);
        if hops[i].via == Via::Address(peer) {
            assert(keep(hops[i]));
            hops.lemma_filter_contains(keep, i);
            let j = choose|j: int| 0 <= j < after.len() && after[j] == hops[i];
            lemma_single(after, to, j);
        }
    }
    lemma_heard(to, min_rtt(hops, to), min_rtt(after, to), peer);
}

proof fn lemma_best_elsewhere<A>(
    hops: Seq<Hop<A>>,
    to: A,
    via: Via<A>,
    rtt: Rtt,
    other: A,
    avoid: Seq<Via<A>>,
)
    requires
        other != to,
    ensures
        best(with_hop(hops, to, via, rtt), other, avoid) == best(hops, other, avoid),
{
    let after = with_hop(hops, to, via, rtt);
    if exists|i: int| 0 <= i < hops.len() && (#[trigger] hops[i]).to == to && hops[i].via == via {
        lemma_best_mapped(hops, to, via, rtt, other, avoid);
    } else {
        assert(after.drop_last() =~= hops);
    }
}

proof fn lemma_best_mapped<A>(
    hops: Seq<Hop<A>>,
    to: A,
    via: Via<A>,
    rtt: Rtt,
    other: A,
    avoid: Seq<Via<A>>,
)
    requires
        other != to,
    ensures
        best(
            hops.map_values(
                |hop: Hop<A>|
                    if hop.to == to && hop.via == via {
                        Hop { to, via, rtt }
                    } else {
                        hop
                    },
            ),
            other,
            avoid,
        ) == best(hops, other, avoid),
    decreases hops.len(),
{
    let f = |hop: Hop<A>|
        if hop.to == to && hop.via == via {
            Hop { to, via, rtt }
        } else {
            hop
        };
    if hops.len() > 0 {
        lemma_best_mapped(hops.drop_last(), to, via, rtt, other, avoid);
        assert(hops.map_values(f).drop_last() =~= hops.drop_last().map_values(f));
    }
}

/// Learning a way to one node changes nothing for any other.
pub proof fn other_routes_stay<A>(hops: Seq<Hop<A>>, to: A, via: Via<A>, rtt: Rtt, other: A)
    requires
        other != to,
    ensures
        min_rtt(with_hop(hops, to, via, rtt), other) == min_rtt(hops, other),
{
    lemma_best_elsewhere(hops, to, via, rtt, other, Seq::empty());
    if best(hops, other, Seq::empty()) is Some {
        let first = best(hops, other, Seq::empty())->0.via;
        lemma_best_elsewhere(hops, to, via, rtt, other, seq![first]);
    }
}

} // verus!
