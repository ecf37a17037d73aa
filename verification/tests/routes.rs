use bifrostlink::address::{copy_of, same};
use bifrostlink::internal_handlers::Body;
use bifrostlink::route::{
    told_to, ConnectionAdded, ConnectionRemoved, MinRtt, MinRttUpdated, RouteChange, RouteSet, Rtt,
    Via, ViaListSeconded, ViaListUnseconded,
};

/// A text that says what changed.
fn show(change: &RouteChange<u32>) -> String {
    let via = |via: &Via<u32>| match via {
        Via::Direct => "direct".to_string(),
        Via::Address(a) => format!("via {}", a),
    };
    match change {
        RouteChange::MinRttUpdated(u) => format!(
            "{} {} {} -> {} {}",
            u.for_connection,
            via(&u.before.via),
            u.before.rtt.0,
            via(&u.after.via),
            u.after.rtt.0
        ),
        RouteChange::ViaListSeconded(s) => {
            format!("{} seconded {} {}", s.for_connection, via(&s.initial_via), s.rtt.0)
        }
        RouteChange::ViaListUnseconded(u) => {
            format!("{} unseconded {}", u.for_connection, via(&u.only_via))
        }
        RouteChange::ConnectionAdded(a) => format!("{} added {} {}", a.to, via(&a.via), a.rtt.0),
        RouteChange::ConnectionRemoved(r) => format!("{} removed {}", r.to, via(&r.via)),
    }
}

fn shown(changes: Vec<RouteChange<u32>>) -> Vec<String> {
    changes.iter().map(show).collect()
}

fn told(change: &RouteChange<u32>, peer: u32) -> Option<String> {
    told_to(change, &peer).map(|body| match body {
        Body::AddForwarded(add) => format!("add {} {}", add.to, add.rtt.0),
        Body::RemoveForwarded(remove) => format!("remove {}", remove.to),
        _ => panic!("unexpected"),
    })
}

#[test]
fn nothing_is_known_at_first() {
    let set: RouteSet<u32> = RouteSet::new();
    assert!(!set.has(&1));
    assert!(set.forwarder_for(&1, &Vec::new()).is_none());
    assert!(set.list().is_empty());
}

#[test]
fn the_nearest_way_is_taken() {
    let mut set: RouteSet<u32> = RouteSet::new();
    set.on_add_direct_connection(1, Rtt(10));
    set.inc(1, Via::Address(2), Rtt(4));
    set.inc(1, Via::Address(3), Rtt(4));
    assert!(set.has(&1));
    assert!(matches!(set.forwarder_for(&1, &Vec::new()), Some(Via::Address(2))));
    let avoid = vec![Via::Address(2)];
    assert!(matches!(set.forwarder_for(&1, &avoid), Some(Via::Address(3))));
    let avoid = vec![Via::Address(2), Via::Address(3)];
    assert!(matches!(set.forwarder_for(&1, &avoid), Some(Via::Direct)));
    let avoid = vec![Via::Address(2), Via::Address(3), Via::Direct];
    assert!(set.forwarder_for(&1, &avoid).is_none());
}

#[test]
fn messages_may_come_by_known_ways_only() {
    let mut set: RouteSet<u32> = RouteSet::new();
    set.on_add_direct_connection(1, Rtt(1));
    set.inc(2, Via::Address(1), Rtt(2));
    assert!(set.may_be_forwarder_for(&Via::Address(1), &1));
    assert!(set.may_be_forwarder_for(&Via::Direct, &1));
    assert!(set.may_be_forwarder_for(&Via::Address(1), &2));
    assert!(!set.may_be_forwarder_for(&Via::Address(2), &2));
    assert!(!set.may_be_forwarder_for(&Via::Address(2), &1));
    assert!(!set.may_be_forwarder_for(&Via::Address(1), &3));
}

#[test]
fn new_ways_are_reported() {
    let mut set: RouteSet<u32> = RouteSet::new();
    assert_eq!(shown(set.on_add_direct_connection(1, Rtt(10))), ["1 added direct 10"]);
    assert_eq!(
        shown(set.inc(1, Via::Address(2), Rtt(4))),
        ["1 seconded direct 4", "1 direct 10 -> via 2 4"]
    );
    assert!(set.inc(1, Via::Address(2), Rtt(4)).is_empty());
    assert_eq!(shown(set.inc(1, Via::Address(2), Rtt(20))), ["1 via 2 4 -> direct 10"]);
    assert!(set.inc(1, Via::Address(3), Rtt(30)).is_empty());
}

#[test]
fn lost_ways_are_reported() {
    let mut set: RouteSet<u32> = RouteSet::new();
    set.on_add_direct_connection(1, Rtt(10));
    set.on_add_direct_connection(2, Rtt(1));
    set.inc(1, Via::Address(2), Rtt(4));
    set.inc(3, Via::Address(2), Rtt(5));
    assert_eq!(
        shown(set.on_remove_direct_connection(&2)),
        [
            "1 unseconded direct",
            "1 via 2 4 -> direct 10",
            "2 removed direct",
            "3 removed via 2"
        ]
    );
    assert!(set.has(&1));
    assert!(!set.has(&2));
    assert!(!set.has(&3));
    assert!(set.on_remove_direct_connection(&2).is_empty());
}

#[test]
fn routes_are_listed_with_the_nearest_way() {
    let mut set: RouteSet<u32> = RouteSet::new();
    set.on_add_direct_connection(1, Rtt(10));
    set.inc(2, Via::Address(1), Rtt(7));
    set.inc(1, Via::Address(2), Rtt(4));
    let list = set.list();
    assert_eq!(list.len(), 2);
    assert_eq!(list[0].0, 1);
    assert!(matches!(list[0].1.via, Via::Address(2)));
    assert_eq!(list[0].1.rtt, Rtt(4));
    assert_eq!(list[0].1.second_best, Some(Rtt(10)));
    assert_eq!(list[1].0, 2);
    assert!(matches!(list[1].1.via, Via::Address(1)));
    assert_eq!(list[1].1.second_best, None);
}

#[test]
fn offers_avoid_the_peer_itself() {
    let min = MinRtt { via: Via::Address(2u32), rtt: Rtt(4), second_best: Some(Rtt(10)) };
    assert_eq!(min.offer(&2), Some(Rtt(10)));
    assert_eq!(min.offer(&3), Some(Rtt(4)));
    let only = MinRtt { via: Via::Address(2u32), rtt: Rtt(4), second_best: None };
    assert_eq!(only.offer(&2), None);
}

#[test]
fn peers_are_told_of_changes() {
    let added = RouteChange::ConnectionAdded(ConnectionAdded {
        to: 1,
        via: Via::Address(2),
        rtt: Rtt(5),
    });
    assert_eq!(told(&added, 1), None);
    assert_eq!(told(&added, 2), None);
    assert_eq!(told(&added, 3).unwrap(), "add 1 5");
    let removed = RouteChange::ConnectionRemoved(ConnectionRemoved { to: 1, via: Via::Direct });
    assert_eq!(told(&removed, 1), None);
    assert_eq!(told(&removed, 3).unwrap(), "remove 1");
    let seconded = RouteChange::ViaListSeconded(ViaListSeconded {
        initial_via: Via::Address(2),
        for_connection: 1,
        rtt: Rtt(6),
    });
    assert_eq!(told(&seconded, 2).unwrap(), "add 1 6");
    assert_eq!(told(&seconded, 3), None);
    let unseconded = RouteChange::ViaListUnseconded(ViaListUnseconded {
        only_via: Via::Address(2),
        for_connection: 1,
    });
    assert_eq!(told(&unseconded, 2).unwrap(), "remove 1");
    assert_eq!(told(&unseconded, 3), None);
    let updated = RouteChange::MinRttUpdated(MinRttUpdated {
        for_connection: 1,
        before: MinRtt { via: Via::Address(2), rtt: Rtt(4), second_best: Some(Rtt(10)) },
        after: MinRtt { via: Via::Address(2), rtt: Rtt(6), second_best: Some(Rtt(10)) },
    });
    assert_eq!(told(&updated, 2), None);
    assert_eq!(told(&updated, 3).unwrap(), "add 1 6");
}

/// What `peer` believes about `to` after it was told of changes.
fn believes(changes: &[RouteChange<u32>], peer: u32, to: u32, mut belief: Option<u32>) -> Option<u32> {
    for change in changes {
        match told_to(change, &peer) {
            Some(Body::AddForwarded(add)) if add.to == to => belief = Some(add.rtt.0),
            Some(Body::RemoveForwarded(remove)) if remove.to == to => belief = None,
            _ => {}
        }
    }
    belief
}

#[test]
fn peers_know_what_they_can_count_on() {
    let mut set: RouteSet<u32> = RouteSet::new();
    let mut beliefs = [None, None];
    let mut learn = |set: &mut RouteSet<u32>, via: Via<u32>, rtt: u32| {
        let changes = set.inc(1, via, Rtt(rtt));
        for (i, peer) in [2, 3].iter().enumerate() {
            beliefs[i] = believes(&changes, *peer, 1, beliefs[i]);
            let list = set.list();
            assert_eq!(beliefs[i], list[0].1.offer(peer).map(|rtt| rtt.0));
        }
    };
    learn(&mut set, Via::Address(2), 5);
    learn(&mut set, Via::Address(3), 7);
    learn(&mut set, Via::Address(3), 4);
    learn(&mut set, Via::Direct, 6);
    learn(&mut set, Via::Direct, 1);
    learn(&mut set, Via::Address(2), 5);
}

#[test]
fn other_destinations_keep_their_ways() {
    let mut set: RouteSet<u32> = RouteSet::new();
    set.on_add_direct_connection(1, Rtt(3));
    set.inc(2, Via::Address(1), Rtt(4));
    set.inc(2, Via::Address(1), Rtt(9));
    let list = set.list();
    assert_eq!(list[0].1.rtt, Rtt(3));
    assert_eq!(list[1].1.rtt, Rtt(9));
}

#[test]
fn addresses_are_compared_and_copied() {
    assert!(same(&3u32, &3));
    assert!(!same(&3u32, &4));
    assert_eq!(copy_of(&5u32), 5);
}
