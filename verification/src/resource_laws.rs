//! Who holds which resource, and whose cleanup runs when.

use crate::config::Config;
use crate::event::RootEvent;
use crate::internal_handlers::{Body, ResourceDropped, RESOURCE_DROPPED};
use crate::node::{distinct_held, holding, holding_all, place_held, Held, Node};
use crate::packet::{Header, PacketView};
use crate::resource::{
    drop_notice, parking, EncodeContext, RegisterResources, ResourceError, ResourceId,
};
use crate::route::ConnectionRemoved;
use crate::route_laws::{keeps_order, lemma_filter_keeps_order};
use crate::rpc::{handled, Action};
use vstd::prelude::*;

verus! {

proof fn lemma_holding_contains<A, F>(held: Seq<Held<A, F>>, new: Held<A, F>, h: Held<A, F>)
    requires
        distinct_held(held),
    ensures
        distinct_held(holding(held, new)),
        holding(held, new).contains(h) <==> h == new || held.contains(h) && h.id != new.id,
{
    let after = holding(held, new);
    let p = match place_held(held, new.id) {
        Some(i) => i,
        None => held.len() as int,
    };
    assert(after[p] == new);
    if after.contains(h) && h != new {
        let i = choose|i: int| 0 <= i < after.len() && after[i] == h;
        assert(held[i] == h);
        if h.id == new.id {
            assert(place_held(held, new.id) is Some);
            assert(held[p].id == new.id);
            if i < p {
                assert(held[i].id != held[p].id);
            } else if p < i {
                assert(held[p].id != held[i].id);
            }
        }
    }
    if held.contains(h) && h.id != new.id {
        let i = choose|i: int| 0 <= i < held.len() && held[i] == h;
        assert(after[i] == h);
    }
}

proof fn lemma_holding_all_contains<A, F>(
    held: Seq<Held<A, F>>,
    holder: A,
    items: Seq<(ResourceId, F)>,
    h: Held<A, F>,
)
    requires
        distinct_held(held),
        forall|a: int, b: int|
            0 <= a < b < items.len() ==> (#[trigger] items[a]).0 != (#[trigger] items[b]).0,
    ensures
        distinct_held(holding_all(held, holder, items)),
        holding_all(held, holder, items).contains(h) <==> {
            ||| exists|i: int|
                0 <= i < items.len() && h == (Held {
                    id: (#[trigger] items[i]).0,
                    holder,
                    cleanup: items[i].1,
                })
            ||| held.contains(h) && forall|i: int|
                0 <= i < items.len() ==> (#[trigger] items[i]).0 != h.id
        },
    decreases items.len(),
{
    if items.len() > 0 {
        let earlier = items.drop_last();
        let n = earlier.len() as int;
        let (id, cleanup) = items.last();
        assert(items[n] == items.last());
        assert(forall|i: int| 0 <= i < n ==> #[trigger] earlier[i] == items[i]);
        assert(forall|i: int| 0 <= i < n ==> #[trigger] items[i] == earlier[i]);
        lemma_holding_all_contains(held, holder, earlier, h);
        let new = Held { id, holder, cleanup };
        lemma_holding_contains(holding_all(held, holder, earlier), new, h);
        if exists|i: int|
            0 <= i < items.len() && h == (Held {
                id: (#[trigger] items[i]).0,
                holder,
                cleanup: items[i].1,
            }) {
            let i = choose|i: int|
                0 <= i < items.len() && h == (Held {
                    id: (#[trigger] items[i]).0,
                    holder,
                    cleanup: items[i].1,
                });
            if i < n {
                assert(items[i].0 != items[n].0);
                assert(earlier[i].0 == h.id);
            }
        }
        if exists|i: int|
            0 <= i < earlier.len() && h == (Held {
                id: (#[trigger] earlier[i]).0,
                holder,
                cleanup: earlier[i].1,
            }) {
            let i = choose|i: int|
                0 <= i < earlier.len() && h == (Held {
                    id: (#[trigger] earlier[i]).0,
                    holder,
                    cleanup: earlier[i].1,
                });
            assert(items[i].0 == h.id);
            assert(items[i].0 != items[n].0);
        }
    }
}

/// What goes to a peer in a message is kept as held by that peer, each resource under its number
/// and with its cleanup. What others hold under other numbers is kept as it was.
pub proof fn resources_are_held_by_whom_they_went_to<C: Config>(
    before: Node<C>,
    register: RegisterResources<C::Address, C::Cleanup>,
    after: Node<C>,
    action: Action<C>,
    h: Held<C::Address, C::Cleanup>,
)
    requires
        before.ok(),
        handled(before, RootEvent::RegisterResources(register), after, action),
        forall|a: int, b: int|
            0 <= a < b < register.items@.len() ==> (#[trigger] register.items@[a]).0 != (
            #[trigger] register.items@[b]).0,
    ensures
        after.held.contains(h) <==> {
            ||| exists|i: int|
                0 <= i < register.items@.len() && h == (Held {
                    id: (#[trigger] register.items@[i]).0,
                    holder: register.holder,
                    cleanup: register.items@[i].1,
                })
            ||| before.held.contains(h) && forall|i: int|
                0 <= i < register.items@.len() ==> (#[trigger] register.items@[i]).0 != h.id
        },
        after == (Node::<C> { held: after.held, ..before }),
        distinct_held(after.held),
{
    lemma_holding_all_contains(before.held, register.holder, register.items@, h);
}

/// When a node goes out of reach, the cleanup of each resource that it holds is handed out, once
/// and in the order in which they are kept, and no other. What it held is let go of; what others
/// hold is kept.
pub proof fn what_a_lost_node_holds_is_cleaned_up<C: Config>(
    before: Node<C>,
    removed: ConnectionRemoved<C::Address>,
    after: Node<C>,
    action: Action<C>,
    h: Held<C::Address, C::Cleanup>,
)
    requires
        handled(before, RootEvent::ConnectionRemoved(removed), after, action),
    ensures
        after.held.contains(h) <==> before.held.contains(h) && h.holder != removed.to,
        keeps_order(before.held, after.held),
        action matches Action::CleanUp { cleanups } && {
            let held = before.held.filter(
                |h: Held<C::Address, C::Cleanup>| h.holder == removed.to,
            );
            &&& cleanups@.len() == held.len()
            &&& cleanups@.len() + after.held.len() == before.held.len()
            &&& forall|i: int| 0 <= i < held.len() ==> #[trigger] cleanups@[i] == held[i].cleanup
            &&& before.held.contains(h) && h.holder == removed.to ==> cleanups@.contains(h.cleanup)
        },
{
    let stays = |h: Held<C::Address, C::Cleanup>| h.holder != removed.to;
    let goes = |h: Held<C::Address, C::Cleanup>| h.holder == removed.to;
    let kept = before.held.filter(stays);
    let lost = before.held.filter(goes);
    lemma_filter_keeps_order(before.held, stays);
    lemma_filter_parts(before.held, stays, goes);
    if kept.contains(h) {
        let i = choose|i: int| 0 <= i < kept.len() && kept[i] == h;
        before.held.lemma_filter_pred(stays, i);
        before.held.lemma_filter_contains_rev(stays, h);
    }
    if before.held.contains(h) {
        let i = choose|i: int| 0 <= i < before.held.len() && before.held[i] == h;
        if stays(h) {
            before.held.lemma_filter_contains(stays, i);
        } else {
            before.held.lemma_filter_contains(goes, i);
            let k = choose|k: int| 0 <= k < lost.len() && lost[k] == h;
            if let Action::CleanUp { cleanups } = action {
                assert(cleanups@[k] == lost[k].cleanup);
            }
        }
    }
}

proof fn lemma_filter_parts<T>(s: Seq<T>, a: spec_fn(T) -> bool, b: spec_fn(T) -> bool)
    requires
        forall|x: T| #[trigger] a(x) != b(x),
    ensures
        s.filter(a).len() + s.filter(b).len() == s.len(),
    decreases s.len(),
{
    reveal(Seq::filter);
    if s.len() > 0 {
        lemma_filter_parts(s.drop_last(), a, b);
        assert(a(s.last()) != b(s.last()));
    }
}

/// What a peer holds is what it is cleaned up for: the cleanups of all that went to it in a message
/// are among those that are handed out when it goes out of reach; when another node does, they are
/// kept.
pub proof fn what_went_to_a_node_is_cleaned_up_with_it<C: Config>(
    before: Node<C>,
    register: RegisterResources<C::Address, C::Cleanup>,
    registered: Node<C>,
    done: Action<C>,
    removed: ConnectionRemoved<C::Address>,
    after: Node<C>,
    action: Action<C>,
    i: int,
)
    requires
        before.ok(),
        handled(before, RootEvent::RegisterResources(register), registered, done),
        handled(registered, RootEvent::ConnectionRemoved(removed), after, action),
        forall|a: int, b: int|
            0 <= a < b < register.items@.len() ==> (#[trigger] register.items@[a]).0 != (
            #[trigger] register.items@[b]).0,
        0 <= i < register.items@.len(),
    ensures
        ({
            let (id, cleanup) = register.items@[i];
            let held = Held { id, holder: register.holder, cleanup };
            if removed.to == register.holder {
                &&& action matches Action::CleanUp { cleanups }
                &&& cleanups@.contains(cleanup)
                &&& !after.held.contains(held)
            } else {
                after.held.contains(held)
            }
        }),
{
    let (id, cleanup) = register.items@[i];
    let held = Held { id, holder: register.holder, cleanup };
    resources_are_held_by_whom_they_went_to(before, register, registered, done, held);
    assert(register.items@[i].0 == id);
    what_a_lost_node_holds_is_cleaned_up(registered, removed, after, action, held);
}

/// The cleanup that a drop notice makes a node hand out is that of the resource with that number;
/// there is none where it keeps no such resource. That resource is let go of, and no other.
pub proof fn dropped_resources_are_cleaned_up<C: Config>(
    node: Node<C>,
    id: ResourceId,
    h: Held<C::Address, C::Cleanup>,
)
    requires
        node.ok(),
    ensures
        node.held.contains(h) && h.id == id ==> node.cleanup_of(id) == Some(h.cleanup),
        (forall|k: Held<C::Address, C::Cleanup>| #[trigger]
            node.held.contains(k) ==> k.id != id) ==> node.cleanup_of(id) is None,
        node.without_resource(id).held.contains(h) <==> node.held.contains(h) && h.id != id,
        node.without_resource(id) == (Node::<C> { held: node.without_resource(id).held, ..node }),
{
    let p = place_held(node.held, id);
    if node.held.contains(h) && h.id == id {
        let i = choose|i: int| 0 <= i < node.held.len() && node.held[i] == h;
        assert(p is Some);
        assert(node.held[p->0].id == id);
        if i < p->0 {
            assert(node.held[i].id != node.held[p->0].id);
        } else if p->0 < i {
            assert(node.held[p->0].id != node.held[i].id);
        }
    }
    if p is Some {
        let k = p->0;
        assert(node.held[k].id == id);
        assert(node.held.contains(node.held[k]));
        let after = node.held.remove(k);
        if after.contains(h) {
            let i = choose|i: int| 0 <= i < after.len() && after[i] == h;
            if i < k {
                assert(node.held[i] == h);
                assert(node.held[i].id != node.held[k].id);
            } else {
                assert(node.held[i + 1] == h);
                assert(node.held[k].id != node.held[i + 1].id);
            }
        }
        if node.held.contains(h) && h.id != id {
            let i = choose|i: int| 0 <= i < node.held.len() && node.held[i] == h;
            if i < k {
                assert(after[i] == h);
            } else {
                assert(after[i - 1] == h);
            }
        }
    }
}

/// A resource can be put in a message exactly where one is being encoded and the resource still has
/// its cleanup. The cleanup then leaves the resource and stands last in the message, under the
/// number that is handed back, which is the next one. Where it cannot, nothing changes.
pub proof fn cleanups_move_into_messages<F>(
    cleanup: Option<F>,
    context: Option<Seq<(ResourceId, F)>>,
    next: u64,
)
    ensures
        ({
            let (left, message, following, r) = parking(cleanup, context, next);
            &&& r is Ok <==> cleanup is Some && context is Some
            &&& r matches Ok(id) ==> {
                &&& id.0 == next
                &&& left is None
                &&& message == Some(context->0.push((id, cleanup->0)))
                &&& following == (next + 1) % 0x1_0000_0000_0000_0000
            }
            &&& r matches Err(e) ==> {
                &&& left == cleanup
                &&& message == context
                &&& following == next
                &&& e == (if context is None {
                    ResourceError::SerializedOutsideMessage
                } else {
                    ResourceError::AlreadySerialized
                })
            }
        }),
{
}

/// The notice that a handle was dropped goes from the node that dropped it to the owner, and names
/// the resource.
pub proof fn drop_notices_name_the_resource<A>(me: A, owner: A, id: ResourceId)
    ensures
        drop_notice(me, owner, id) == (PacketView {
            header: Header::Request {
                sender: me,
                receiver: owner,
                request: RESOURCE_DROPPED,
                response: None,
            },
            body: Body::ResourceDropped(ResourceDropped { id }),
        }),
{
}

/// What is handed out of a message is everything that was put in it, in that order; nothing, where
/// no message is being encoded.
pub proof fn everything_in_a_message_is_handed_out<F>(context: EncodeContext<F>)
    ensures
        match context@ {
            Some(parked) => context.spec_parked() == parked,
            None => context.spec_parked().len() == 0,
        },
{
}

} // verus!
