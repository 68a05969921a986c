//! The keyed-list reconciler: it owns the rendered nodes and, for each new
//! snapshot, decides which of them are kept, which are created and which are
//! destroyed.

use crate::index::KeyIndex;
use crate::key::Key;
use crate::model::{
    keys, minted_after, not_among, reconciled, released, snapshot_keys, well_formed, Slot,
};
use crate::model_lemmas::{
    lemma_distinct, lemma_minted_after_grows, lemma_push_contains, lemma_reconciled_append,
    lemma_reconciled_keys, lemma_reconciled_repeat, lemma_reconciled_well_formed,
    lemma_snapshot_keys_push,
};
use vstd::prelude::*;

verus! {

/// A rendered node. Its `id` is what makes it this node: a node that is
/// reused keeps its id, a node that is created gets an id no node had before.
#[derive(Debug, PartialEq, Eq)]
pub struct Node<I> {
    pub id: u64,
    pub item: I,
}

/// The slot that stands for a keyed node in contracts.
pub open spec fn slot_of<K: View, I>(entry: (K, Node<I>)) -> Slot<K::V, I> {
    Slot { key: entry.0@, id: entry.1.id as nat, item: entry.1.item }
}

/// The slots that stand for a list of keyed nodes.
pub open spec fn slots_of<K: View, I>(entries: Seq<(K, Node<I>)>) -> Seq<Slot<K::V, I>> {
    entries.map_values(|e: (K, Node<I>)| slot_of(e))
}

/// A snapshot as contracts see it: every key by its view.
pub open spec fn snapshot_of<K: View, I>(snapshot: Seq<(K, I)>) -> Seq<(K::V, I)> {
    snapshot.map_values(|e: (K, I)| (e.0@, e.1))
}

/// The hash codes of the keys of a list, in order.
pub open spec fn codes_of<K: Key, X>(entries: Seq<(K, X)>) -> Seq<u64> {
    entries.map_values(|e: (K, X)| K::code_of(e.0@))
}

/// Finds the entry of `entries` whose key is `key`, by way of the index.
fn lookup<K: Key, X>(entries: &Vec<(K, X)>, index: &KeyIndex, key: &K) -> (found: Option<usize>)
    requires
        index.covers(codes_of(entries@)),
    ensures
        match found {
            Some(i) => i < entries.len() && entries[i as int].0@ == key@,
            None => forall|j: int| 0 <= j < entries.len() ==> entries[j].0@ != key@,
        },
{
    let ghost codes = codes_of(entries@);
    match index.bucket(key.code(), Ghost(codes)) {
        None => {
            proof {
                assert forall|j: int| 0 <= j < entries.len() implies entries[j].0@ != key@ by {
                    assert(codes[j] != K::code_of(key@));
                }
            }
            None
        },
        Some(positions) => {
            let mut n: usize = 0;
            while n < positions.len()
                invariant
                    n <= positions.len(),
                    codes == codes_of(entries@),
                    forall|m: int|
                        0 <= m < positions.len() ==> (#[trigger] positions[m]) < entries.len(),
                    forall|m: int| 0 <= m < n ==> entries[positions[m] as int].0@ != key@,
                decreases positions.len() - n,
            {
                let i = positions[n];
                if entries[i].0.same_key(key) {
                    return Some(i);
                }
                n += 1;
            }
            proof {
                assert forall|j: int| 0 <= j < entries.len() implies entries[j].0@ != key@ by {
                    if entries[j].0@ == key@ {
                        assert(codes[j] == K::code_of(key@));
                        let m = choose|m: int|
                            0 <= m < positions.len() && positions[m] == j as usize;
                        assert(entries[positions[m] as int].0@ == key@);
                    }
                }
            }
            None
        },
    }
}

/// What holds between the pairs of a snapshot: `live` is the list that the
/// pairs `seen` so far leave behind, `next_id` the next unused id, and
/// `consumed` marks the previous nodes whose key has been seen.
spec fn in_step<K: View, I>(
    previous: Seq<(K, Node<I>)>,
    consumed: Seq<bool>,
    live: Seq<(K, Node<I>)>,
    next_id: u64,
    seen: Seq<(K::V, I)>,
    start: nat,
) -> bool {
    &&& slots_of(live) == reconciled(slots_of(previous), seen, start)
    &&& next_id == minted_after(slots_of(previous), seen, start)
    &&& consumed.len() == previous.len()
    &&& forall|i: int|
        0 <= i < previous.len() ==> (consumed[i] <==> snapshot_keys(seen).contains(
            #[trigger] previous[i].0@,
        ))
}

/// Takes one pair of the snapshot into `live`: a key seen before in this
/// snapshot updates its node, a key that `previous` holds keeps its node and
/// is marked as consumed, any other key gets a new node.
fn place<K: Key, I>(
    previous: &Vec<(K, Node<I>)>,
    previous_index: &KeyIndex,
    consumed: &mut Vec<bool>,
    live: &mut Vec<(K, Node<I>)>,
    live_index: &mut KeyIndex,
    next_id: &mut u64,
    key: K,
    item: I,
    Ghost(seen): Ghost<Seq<(K::V, I)>>,
    Ghost(start): Ghost<nat>,
)
    requires
        well_formed(slots_of(previous@), start),
        in_step(previous@, old(consumed)@, old(live)@, *old(next_id), seen, start),
        minted_after(slots_of(previous@), seen.push((key@, item)), start) <= u64::MAX,
        previous_index.covers(codes_of(previous@)),
        old(live_index).covers(codes_of(old(live)@)),
    ensures
        in_step(
            previous@,
            final(consumed)@,
            final(live)@,
            *final(next_id),
            seen.push((key@, item)),
            start,
        ),
        final(live_index).covers(codes_of(final(live)@)),
{
    let ghost before = slots_of(previous@);
    let ghost so_far = reconciled(before, seen, start);
    proof {
        lemma_snapshot_keys_push(seen, key@, item);
        lemma_reconciled_keys(before, seen, start);
        lemma_distinct(snapshot_keys(seen));
        lemma_push_contains(snapshot_keys(seen), key@);
    }
    match lookup(live, live_index, &key) {
        Some(q) => {
            let id = live[q].1.id;
            let ghost codes = codes_of(live@);
            proof {
                assert(so_far[q as int].key == key@);
                assert(keys(so_far)[q as int] == key@);
                assert(snapshot_keys(seen).contains(key@));
                lemma_reconciled_repeat(before, seen, key@, item, start, q as int);
            }
            live.set(q, (key, Node { id, item }));
            proof {
                assert(slots_of(live@) =~= so_far.update(
                    q as int,
                    Slot { key: key@, id: id as nat, item },
                ));
                assert(codes_of(live@) =~= codes);
            }
        },
        None => {
            proof {
                assert(!keys(so_far).contains(key@)) by {
                    if keys(so_far).contains(key@) {
                        let j = choose|j: int| 0 <= j < keys(so_far).len() && keys(so_far)[j] == key@;
                        assert(slots_of(live@)[j].key == key@);
                    }
                }
                lemma_reconciled_append(before, seen, key@, item, start);
            }
            let code = key.code();
            live_index.add(code, live.len(), Ghost(codes_of(live@)));
            let ghost codes = codes_of(live@).push(code);
            match lookup(previous, previous_index, &key) {
                Some(r) => {
                    let id = previous[r].1.id;
                    proof {
                        assert(keys(before)[r as int] == key@);
                        assert(keys(before).contains(key@));
                        assert(keys(before).index_of(key@) == r);
                        assert(before[r as int].id == id);
                    }
                    consumed.set(r, true);
                    live.push((key, Node { id, item }));
                    proof {
                        assert(codes_of(live@) =~= codes);
                        assert(slots_of(live@) =~= so_far.push(
                            Slot { key: key@, id: id as nat, item },
                        ));
                        assert forall|i: int| 0 <= i < previous.len() && i != r implies previous[i].0@
                            != key@ by {
                            assert(keys(before)[i] != keys(before)[r as int]);
                        }
                    }
                },
                None => {
                    let id = *next_id;
                    proof {
                        assert(!keys(before).contains(key@)) by {
                            if keys(before).contains(key@) {
                                let j = choose|j: int|
                                    0 <= j < keys(before).len() && keys(before)[j] == key@;
                                assert(previous[j].0@ == key@);
                            }
                        }
                    }
                    live.push((key, Node { id, item }));
                    *next_id = id + 1;
                    proof {
                        assert(codes_of(live@) =~= codes);
                        assert(slots_of(live@) =~= so_far.push(
                            Slot { key: key@, id: id as nat, item },
                        ));
                    }
                },
            }
        },
    }
}

/// Owns the rendered nodes of one keyed list, in list order.
pub struct Reconciler<K, I> {
    entries: Vec<(K, Node<I>)>,
    index: KeyIndex,
    next_id: u64,
}

impl<K: Key, I> View for Reconciler<K, I> {
    type V = Seq<Slot<K::V, I>>;

    /// The live nodes, in list order.
    closed spec fn view(&self) -> Seq<Slot<K::V, I>> {
        slots_of(self.entries@)
    }
}

impl<K: Key, I> Reconciler<K, I> {
    /// How many node ids this reconciler has handed out so far. Ids are
    /// handed out in ascending order, starting at 0.
    pub closed spec fn minted(&self) -> nat {
        self.next_id as nat
    }

    /// The key index lists the live nodes, each under the code of its key.
    pub closed spec fn indexed(&self) -> bool {
        self.index.covers(codes_of(self.entries@))
    }

    /// No key and no node occurs twice among the live nodes, every live node
    /// has one of the ids handed out so far, and the key index is in step
    /// with the live nodes.
    pub open spec fn wf(&self) -> bool {
        &&& well_formed(self@, self.minted())
        &&& self.indexed()
    }

    /// A reconciler that has rendered nothing yet.
    pub fn new() -> (fresh: Self)
        ensures
            fresh.wf(),
            fresh@ == Seq::<Slot<K::V, I>>::empty(),
            fresh.minted() == 0,
    {
        let fresh = Reconciler { entries: Vec::new(), index: KeyIndex::new(), next_id: 0 };
        assert(fresh@ =~= Seq::<Slot<K::V, I>>::empty());
        assert(codes_of(fresh.entries@) =~= Seq::<u64>::empty());
        fresh
    }

    /// The number of live nodes.
    pub fn len(&self) -> (n: usize)
        ensures
            n == self@.len(),
    {
        self.entries.len()
    }

    /// Whether no node is live.
    pub fn is_empty(&self) -> (empty: bool)
        ensures
            empty == (self@.len() == 0),
    {
        self.entries.len() == 0
    }

    /// The live nodes with their keys, in list order.
    pub fn nodes(&self) -> (entries: &Vec<(K, Node<I>)>)
        ensures
            slots_of(entries@) == self@,
    {
        &self.entries
    }

    /// The live node that stands for `key`, if there is one.
    pub fn find(&self, key: &K) -> (found: Option<&Node<I>>)
        requires
            self.wf(),
        ensures
            match found {
                Some(node) => exists|i: int|
                    0 <= i < self@.len() && #[trigger] self@[i] == (Slot {
                        key: key@,
                        id: node.id as nat,
                        item: node.item,
                    }),
                None => !keys(self@).contains(key@),
            },
    {
        match lookup(&self.entries, &self.index, key) {
            Some(i) => {
                proof {
                    assert(self@[i as int] == slot_of(self.entries[i as int]));
                }
                Some(&self.entries[i].1)
            },
            None => {
                proof {
                    if keys(self@).contains(key@) {
                        let j = choose|j: int| 0 <= j < keys(self@).len() && keys(self@)[j] == key@;
                        assert(self.entries[j].0@ == key@);
                    }
                }
                None
            },
        }
    }

    /// How many node ids have been handed out so far.
    pub fn issued(&self) -> (n: u64)
        ensures
            n == self.minted(),
    {
        self.next_id
    }

    /// Whether `count` more nodes can be created before the ids run out. A
    /// snapshot creates at most one node per pair, so there is room for any
    /// snapshot of up to `count` pairs.
    pub fn has_room(&self, count: usize) -> (ok: bool)
        ensures
            ok == (self.minted() + count <= u64::MAX),
            ok ==> forall|snapshot: Seq<(K::V, I)>|
                snapshot.len() <= count ==> #[trigger] minted_after(
                    self@,
                    snapshot,
                    self.minted(),
                ) <= u64::MAX,
    {
        proof {
            assert forall|snapshot: Seq<(K::V, I)>| snapshot.len() <= count implies #[trigger] minted_after(
                self@,
                snapshot,
                self.minted(),
            ) <= self.minted() + count by {
                lemma_minted_after_grows(self@, snapshot, self.minted(), 0);
            }
        }
        count as u64 <= u64::MAX - self.next_id
    }

    /// Reconciles the live nodes against `snapshot` and returns the nodes
    /// that were destroyed, in their old list order.
    ///
    /// Afterwards there is one live node per distinct key of the snapshot, in
    /// the order in which the keys first occur. A key that had a node keeps
    /// it; any other key gets a new node. Every node shows the item that the
    /// snapshot gives last for its key: a key that occurs again within the
    /// snapshot updates the node it already has, and creates none.
    ///
    /// The ids of the new nodes have to fit in a `u64`; `has_room` tells
    /// whether they do.
    pub fn reconcile(&mut self, snapshot: Vec<(K, I)>) -> (destroyed: Vec<(K, Node<I>)>)
        requires
            old(self).wf(),
            minted_after(old(self)@, snapshot_of(snapshot@), old(self).minted()) <= u64::MAX,
        ensures
            final(self).wf(),
            final(self)@ == reconciled(old(self)@, snapshot_of(snapshot@), old(self).minted()),
            final(self).minted() == minted_after(
                old(self)@,
                snapshot_of(snapshot@),
                old(self).minted(),
            ),
            slots_of(destroyed@) == released(old(self)@, snapshot_of(snapshot@)),
    {
        let ghost before = self@;
        let ghost start = self.minted();
        let ghost wanted = snapshot_of(snapshot@);
        let mut previous: Vec<(K, Node<I>)> = Vec::new();
        let mut previous_index = KeyIndex::new();
        std::mem::swap(&mut self.entries, &mut previous);
        std::mem::swap(&mut self.index, &mut previous_index);
        let mut consumed: Vec<bool> = Vec::new();
        let mut p: usize = 0;
        while p < previous.len()
            invariant
                p <= previous.len(),
                consumed.len() == p,
                forall|i: int| 0 <= i < p ==> !consumed[i],
            decreases previous.len() - p,
        {
            consumed.push(false);
            p += 1;
        }
        let mut live: Vec<(K, Node<I>)> = Vec::new();
        let mut live_index = KeyIndex::new();
        let mut next_id = self.next_id;
        proof {
            assert(wanted.take(0) =~= Seq::<(K::V, I)>::empty());
            assert(reconciled(before, wanted.take(0), start) =~= slots_of(live@));
            assert(codes_of(live@) =~= Seq::<u64>::empty());
        }
        for entry in it: snapshot
            invariant
                before == slots_of(previous@),
                well_formed(before, start),
                wanted == snapshot_of(it.seq()),
                minted_after(before, wanted, start) <= u64::MAX,
                in_step(previous@, consumed@, live@, next_id, wanted.take(it.index()), start),
                previous_index.covers(codes_of(previous@)),
                live_index.covers(codes_of(live@)),
        {
            let (key, item) = entry;
            proof {
                assert(wanted.take(it.index() + 1) =~= wanted.take(it.index()).push((key@, item)));
                lemma_minted_after_grows(before, wanted, start, it.index() + 1);
            }
            place(
                &previous,
                &previous_index,
                &mut consumed,
                &mut live,
                &mut live_index,
                &mut next_id,
                key,
                item,
                Ghost(wanted.take(it.index())),
                Ghost(start),
            );
        }
        proof {
            assert(wanted.take(wanted.len() as int) =~= wanted);
            lemma_reconciled_well_formed(before, wanted, start);
        }
        let destroyed = release(previous, &consumed, Ghost(snapshot_keys(wanted)));
        self.entries = live;
        self.index = live_index;
        self.next_id = next_id;
        destroyed
    }
}

/// Hands out the nodes of `previous` that are not marked as consumed.
fn release<K: Key, I>(
    previous: Vec<(K, Node<I>)>,
    consumed: &Vec<bool>,
    Ghost(kept): Ghost<Seq<K::V>>,
) -> (destroyed: Vec<(K, Node<I>)>)
    requires
        consumed.len() == previous.len(),
        forall|i: int|
            0 <= i < previous.len() ==> (consumed[i] <==> kept.contains(#[trigger] previous[i].0@)),
    ensures
        slots_of(destroyed@) == slots_of(previous@).filter(not_among(kept)),
{
    let ghost all = slots_of(previous@);
    let ghost gone = not_among::<K::V, I>(kept);
    let mut destroyed: Vec<(K, Node<I>)> = Vec::new();
    proof {
        reveal(Seq::filter);
        assert(all.take(0) =~= Seq::<Slot<K::V, I>>::empty());
        assert(slots_of(destroyed@) =~= all.take(0).filter(gone));
    }
    let mut p: usize = 0;
    for entry in it: previous
        invariant
            p == it.index(),
            all == slots_of(it.seq()),
            gone == not_among::<K::V, I>(kept),
            consumed.len() == it.seq().len(),
            forall|i: int|
                0 <= i < it.seq().len() ==> (consumed[i] <==> kept.contains(
                    #[trigger] it.seq()[i].0@,
                )),
            slots_of(destroyed@) == all.take(it.index()).filter(gone),
    {
        let ghost n = it.index();
        proof {
            reveal(Seq::filter);
            assert(all.take(n + 1).drop_last() =~= all.take(n));
            assert(all.take(n + 1).last() == slot_of(entry));
            assert(gone(slot_of(entry)) == !kept.contains(entry.0@));
        }
        if !consumed[p] {
            destroyed.push(entry);
            proof {
                assert(slots_of(destroyed@) =~= all.take(n).filter(gone).push(slot_of(entry)));
            }
        }
        p = p + 1;
    }
    proof {
        assert(all.take(all.len() as int) =~= all);
    }
    destroyed
}

} // verus!
