//! What a node keeps per peer and request.

use crate::address::{copy_of, same, AddressT};
use crate::packet::RequestId;
use vstd::prelude::*;

verus! {

/// Whether an entry is kept under a key.
pub open spec fn keyed<A, V>(entry: (A, RequestId, V), key: (A, RequestId)) -> bool {
    (entry.0, entry.1) == key
}

/// What is kept under each key.
pub open spec fn table_of<A, V>(entries: Seq<(A, RequestId, V)>) -> Map<(A, RequestId), V> {
    Map::new(
        |key: (A, RequestId)|
            exists|i: int| 0 <= i < entries.len() && keyed(#[trigger] entries[i], key),
        |key: (A, RequestId)|
            entries[choose|i: int| 0 <= i < entries.len() && keyed(#[trigger] entries[i], key)].2,
    )
}

/// A table with the requests of, or to, peers as its keys.
pub struct PeerTable<A, V> {
    entries: Vec<(A, RequestId, V)>,
}

impl<A, V> View for PeerTable<A, V> {
    type V = Map<(A, RequestId), V>;

    closed spec fn view(&self) -> Map<(A, RequestId), V> {
        table_of(self.entries@)
    }
}

impl<A: AddressT, V> PeerTable<A, V> {
    /// No key occurs twice.
    pub closed spec fn wf(self) -> bool {
        forall|i: int, j: int|
            0 <= i < j < self.entries@.len() ==> !keyed(
                #[trigger] self.entries@[i],
                ((#[trigger] self.entries@[j]).0, self.entries@[j].1),
            )
    }

    /// An empty table.
    pub fn new() -> (r: Self)
        ensures
            r.wf(),
            r@ == Map::<(A, RequestId), V>::empty(),
    {
        let r = PeerTable { entries: Vec::new() };
        assert(r@ =~= Map::<(A, RequestId), V>::empty());
        r
    }

    fn position(&self, peer: &A, rid: RequestId) -> (r: Option<usize>)
        ensures
            r matches Some(i) ==> i < self.entries@.len() && keyed(
                self.entries@[i as int],
                (*peer, rid),
            ),
            r is None ==> forall|i: int|
                0 <= i < self.entries@.len() ==> !keyed(#[trigger] self.entries@[i], (*peer, rid)),
    {
        for i in 0..self.entries.len()
            invariant
                forall|j: int|
                    0 <= j < i ==> !keyed(#[trigger] self.entries@[j], (*peer, rid)),
        {
            if same(&self.entries[i].0, peer) && self.entries[i].1.0 == rid.0 {
                return Some(i);
            }
        }
        None
    }

    /// Takes out what is kept under a key.
    pub fn remove(&mut self, peer: &A, rid: RequestId) -> (r: Option<V>)
        requires
            old(self).wf(),
        ensures
            final(self).wf(),
            final(self)@ == old(self)@.remove((*peer, rid)),
            r == (if old(self)@.contains_key((*peer, rid)) {
                Some(old(self)@[(*peer, rid)])
            } else {
                None
            }),
    {
        let ghost before = self.entries@;
        let ghost key = (*peer, rid);
        match self.position(peer, rid) {
            None => {
                assert(self@.remove(key) =~= self@);
                None
            },
            Some(i) => {
                let (_, _, value) = self.entries.remove(i);
                proof {
                    let after = self.entries@;
                    assert forall|k: (A, RequestId)| #[trigger]
                        table_of(after).contains_key(k) <==> table_of(before).remove(
                            key,
                        ).contains_key(k) by {
                        if table_of(after).contains_key(k) {
                            let j = choose|j: int|
                                0 <= j < after.len() && keyed(#[trigger] after[j], k);
                            let m = if j < i {
                                j
                            } else {
                                j + 1
                            };
                            assert(before[m] == after[j]);
                            assert(keyed(before[m], k));
                            if m < i {
                                assert(!keyed(before[m], (before[i as int].0, before[i as int].1)));
                            } else {
                                assert(!keyed(before[i as int], (before[m].0, before[m].1)));
                            }
                        }
                        if table_of(before).contains_key(k) && k != key {
                            let m = choose|m: int|
                                0 <= m < before.len() && keyed(#[trigger] before[m], k);
                            let j = if m < i {
                                m
                            } else {
                                m - 1
                            };
                            assert(after[j] == before[m]);
                            assert(keyed(after[j], k));
                        }
                    }
                    assert forall|k: (A, RequestId)| #[trigger]
                        table_of(after).contains_key(k) implies table_of(after)[k] == table_of(
                        before,
                    )[k] by {
                        let j = choose|j: int| 0 <= j < after.len() && keyed(#[trigger] after[j], k);
                        let m = if j < i {
                            j
                        } else {
                            j + 1
                        };
                        assert(before[m] == after[j]);
                        lemma_lookup(before, m);
                    }
                    lemma_lookup(before, i as int);
                    assert(table_of(after) =~= table_of(before).remove(key));
                    assert forall|a: int, b: int| 0 <= a < b < after.len() implies !keyed(
                        #[trigger] after[a],
                        ((#[trigger] after[b]).0, after[b].1),
                    ) by {
                        let m = if a < i {
                            a
                        } else {
                            a + 1
                        };
                        let n = if b < i {
                            b
                        } else {
                            b + 1
                        };
                        assert(before[m] == after[a] && before[n] == after[b]);
                    }
                }
                Some(value)
            },
        }
    }

    /// Keeps a value under a key, in the place of what was kept there.
    pub fn insert(&mut self, peer: A, rid: RequestId, value: V)
        requires
            old(self).wf(),
        ensures
            final(self).wf(),
            final(self)@ == old(self)@.insert((peer, rid), value),
    {
        let _ = self.remove(&peer, rid);
        let ghost before = self.entries@;
        let ghost key = (peer, rid);
        assert(!table_of(before).contains_key(key));
        self.entries.push((peer, rid, value));
        proof {
            let after = self.entries@;
            let n = before.len() as int;
            assert forall|j: int| 0 <= j < n implies !keyed(#[trigger] before[j], key) by {
                if keyed(before[j], key) {
                    assert(table_of(before).contains_key(key));
                }
            }
            assert forall|a: int, b: int| 0 <= a < b < after.len() implies !keyed(
                #[trigger] after[a],
                ((#[trigger] after[b]).0, after[b].1),
            ) by {
                assert(after[a] == before[a]);
                if b < n {
                    assert(after[b] == before[b]);
                }
            }
            assert(keyed(after[n], key));
            assert forall|k: (A, RequestId)| #[trigger] table_of(after).contains_key(k)
                <==> table_of(before).insert(key, value).contains_key(k) by {
                if table_of(after).contains_key(k) && k != key {
                    let j = choose|j: int| 0 <= j < after.len() && keyed(#[trigger] after[j], k);
                    assert(keyed(before[j], k));
                }
                if table_of(before).contains_key(k) {
                    let j = choose|j: int| 0 <= j < n && keyed(#[trigger] before[j], k);
                    assert(keyed(after[j], k));
                }
            }
            assert forall|k: (A, RequestId)| #[trigger]
                table_of(after).contains_key(k) implies table_of(after)[k] == table_of(
                before,
            ).insert(key, value)[k] by {
                let j = choose|j: int| 0 <= j < after.len() && keyed(#[trigger] after[j], k);
                lemma_lookup(after, j);
                if j < n {
                    assert(after[j] == before[j]);
                    lemma_lookup(before, j);
                }
            }
            assert(table_of(after) =~= table_of(before).insert(key, value));
            assert(self@ =~= old(self)@.insert(key, value));
        }
    }
}

proof fn lemma_lookup<A, V>(entries: Seq<(A, RequestId, V)>, i: int)
    requires
        0 <= i < entries.len(),
        forall|a: int, b: int|
            0 <= a < b < entries.len() ==> !keyed(
                #[trigger] entries[a],
                ((#[trigger] entries[b]).0, entries[b].1),
            ),
    ensures
        table_of(entries).contains_key((entries[i].0, entries[i].1)),
        table_of(entries)[(entries[i].0, entries[i].1)] == entries[i].2,
{
    let key = (entries[i].0, entries[i].1);
    assert(keyed(entries[i], key));
    let j = choose|j: int| 0 <= j < entries.len() && keyed(#[trigger] entries[j], key);
    if i < j {
        assert(!keyed(entries[i], (entries[j].0, entries[j].1)));
    } else if j < i {
        assert(!keyed(entries[j], (entries[i].0, entries[i].1)));
    }
}

/// The last number that was given to a request to a peer; zero if there was none.
pub open spec fn last_id<A>(issued: Map<A, usize>, to: A) -> usize {
    if issued.contains_key(to) {
        issued[to]
    } else {
        0
    }
}

/// The last number of each peer that requests were numbered for.
pub open spec fn issued_of<A>(entries: Seq<(A, usize)>) -> Map<A, usize> {
    Map::new(
        |to: A| exists|i: int| 0 <= i < entries.len() && (#[trigger] entries[i]).0 == to,
        |to: A|
            entries[choose|i: int| 0 <= i < entries.len() && (#[trigger] entries[i]).0 == to].1,
    )
}

/// Numbers the requests to each peer.
pub struct RequestIds<A> {
    last: Vec<(A, usize)>,
}

impl<A> View for RequestIds<A> {
    type V = Map<A, usize>;

    closed spec fn view(&self) -> Map<A, usize> {
        issued_of(self.last@)
    }
}

impl<A: AddressT> RequestIds<A> {
    /// No peer occurs twice.
    pub closed spec fn wf(self) -> bool {
        forall|i: int, j: int|
            0 <= i < j < self.last@.len() ==> (#[trigger] self.last@[i]).0 != (
            #[trigger] self.last@[j]).0
    }

    /// No request was numbered.
    pub fn new() -> (r: Self)
        ensures
            r.wf(),
            r@ == Map::<A, usize>::empty(),
    {
        let r = RequestIds { last: Vec::new() };
        assert(r@ =~= Map::<A, usize>::empty());
        r
    }

    fn position(&self, to: &A) -> (r: Option<usize>)
        ensures
            r matches Some(i) ==> i < self.last@.len() && self.last@[i as int].0 == *to,
            r is None ==> forall|i: int|
                0 <= i < self.last@.len() ==> (#[trigger] self.last@[i]).0 != *to,
    {
        for i in 0..self.last.len()
            invariant
                forall|j: int| 0 <= j < i ==> (#[trigger] self.last@[j]).0 != *to,
        {
            if same(&self.last[i].0, to) {
                return Some(i);
            }
        }
        None
    }

    /// The last number that was given to a request to a peer; zero if there was none.
    pub fn last(&self, to: &A) -> (r: usize)
        requires
            self.wf(),
        ensures
            r == last_id(self@, *to),
    {
        match self.position(to) {
            Some(i) => {
                proof {
                    lemma_issued(self.last@, i as int);
                }
                self.last[i].1
            },
            None => 0,
        }
    }

    /// Numbers the next request to a peer.
    pub fn next(&mut self, to: &A) -> (r: RequestId)
        requires
            old(self).wf(),
            last_id(old(self)@, *to) < usize::MAX,
        ensures
            final(self).wf(),
            r.0 == last_id(old(self)@, *to) + 1,
            final(self)@ == old(self)@.insert(*to, r.0),
    {
        let ghost before = self.last@;
        match self.position(to) {
            Some(i) => {
                proof {
                    lemma_issued(before, i as int);
                }
                let id: usize = self.last[i].1 + 1;
                self.last.set(i, (copy_of(to), id));
                proof {
                    let after = self.last@;
                    assert forall|a: A| #[trigger] issued_of(after).contains_key(a)
                        <==> issued_of(before).insert(*to, id).contains_key(a) by {
                        if issued_of(after).contains_key(a) {
                            let j = choose|j: int|
                                0 <= j < after.len() && (#[trigger] after[j]).0 == a;
                            assert(before[j].0 == a);
                        }
                        if issued_of(before).contains_key(a) {
                            let j = choose|j: int|
                                0 <= j < before.len() && (#[trigger] before[j]).0 == a;
                            assert(after[j].0 == a);
                        }
                        assert(after[i as int].0 == *to);
                    }
                    assert forall|a: A| #[trigger] issued_of(after).contains_key(a) implies
                        issued_of(after)[a] == issued_of(before).insert(*to, id)[a] by {
                        let j = choose|j: int| 0 <= j < after.len() && (#[trigger] after[j]).0 == a;
                        assert(self.wf());
                        lemma_issued(after, j);
                        lemma_issued(before, j);
                    }
                    assert(issued_of(after) =~= issued_of(before).insert(*to, id));
                }
                return RequestId(id);
            },
            None => {},
        }
        self.last.push((copy_of(to), 1));
        proof {
            let after = self.last@;
            let n = before.len() as int;
            assert(!issued_of(before).contains_key(*to));
            assert(after[n].0 == *to);
            assert forall|a: A| #[trigger] issued_of(after).contains_key(a) <==> issued_of(
                before,
            ).insert(*to, 1).contains_key(a) by {
                if issued_of(after).contains_key(a) && a != *to {
                    let j = choose|j: int| 0 <= j < after.len() && (#[trigger] after[j]).0 == a;
                    assert(before[j].0 == a);
                }
                if issued_of(before).contains_key(a) {
                    let j = choose|j: int| 0 <= j < n && (#[trigger] before[j]).0 == a;
                    assert(after[j].0 == a);
                }
            }
            assert forall|a: A| #[trigger] issued_of(after).contains_key(a) implies issued_of(
                after,
            )[a] == issued_of(before).insert(*to, 1)[a] by {
                let j = choose|j: int| 0 <= j < after.len() && (#[trigger] after[j]).0 == a;
                assert(self.wf());
                lemma_issued(after, j);
                if j < n {
                    assert(after[j] == before[j]);
                    lemma_issued(before, j);
                }
            }
            assert(issued_of(after) =~= issued_of(before).insert(*to, 1));
        }
        RequestId(1)
    }
}

proof fn lemma_issued<A>(entries: Seq<(A, usize)>, i: int)
    requires
        0 <= i < entries.len(),
        forall|a: int, b: int|
            0 <= a < b < entries.len() ==> (#[trigger] entries[a]).0 != (#[trigger] entries[b]).0,
    ensures
        issued_of(entries).contains_key(entries[i].0),
        issued_of(entries)[entries[i].0] == entries[i].1,
{
    let j = choose|j: int| 0 <= j < entries.len() && (#[trigger] entries[j]).0 == entries[i].0;
    if i < j {
        assert(entries[i].0 != entries[j].0);
    } else if j < i {
        assert(entries[j].0 != entries[i].0);
    }
}

} // verus!
