//! The mathematical model of keyed-list reconciliation.
//!
//! A rendered list is a sequence of slots, one per live node; a snapshot is a
//! sequence of `(key, item)` pairs. `reconciled` says which slots a snapshot
//! leaves behind, `released` which ones it lets go, and `minted_after` how
//! many node ids have been handed out afterwards.

use vstd::prelude::*;

verus! {

/// One live node as the contracts see it: the key it stands for, the id that
/// makes it this node and no other, and the item it currently shows.
pub struct Slot<KV, I> {
    pub key: KV,
    pub id: nat,
    pub item: I,
}

/// The keys of a rendered list, in order.
pub open spec fn keys<KV, I>(slots: Seq<Slot<KV, I>>) -> Seq<KV> {
    slots.map_values(|s: Slot<KV, I>| s.key)
}

/// The node ids of a rendered list, in order.
pub open spec fn ids<KV, I>(slots: Seq<Slot<KV, I>>) -> Seq<nat> {
    slots.map_values(|s: Slot<KV, I>| s.id)
}

/// The keys of a snapshot, in order.
pub open spec fn snapshot_keys<KV, I>(snapshot: Seq<(KV, I)>) -> Seq<KV> {
    snapshot.map_values(|e: (KV, I)| e.0)
}

/// A rendered list is well formed when no key and no node id occurs twice,
/// and every id is one of the `minted` ids handed out so far.
pub open spec fn well_formed<KV, I>(slots: Seq<Slot<KV, I>>, minted: nat) -> bool {
    &&& keys(slots).no_duplicates()
    &&& ids(slots).no_duplicates()
    &&& forall|i: int| 0 <= i < slots.len() ==> (#[trigger] slots[i]).id < minted
}

/// The elements of `s` without repetitions, each at the place of its first
/// occurrence.
pub open spec fn distinct<A>(s: Seq<A>) -> Seq<A>
    decreases s.len(),
{
    if s.len() == 0 {
        Seq::empty()
    } else {
        let earlier = distinct(s.drop_last());
        if earlier.contains(s.last()) {
            earlier
        } else {
            earlier.push(s.last())
        }
    }
}

/// The item a snapshot gives for `key`: that of the last pair with this key.
pub open spec fn item_for<KV, I>(snapshot: Seq<(KV, I)>, key: KV) -> I
    decreases snapshot.len(),
{
    if snapshot.len() == 0 {
        arbitrary()
    } else if snapshot.last().0 == key {
        snapshot.last().1
    } else {
        item_for(snapshot.drop_last(), key)
    }
}

/// The id of the node that `previous` holds for `key`, if it holds one.
pub open spec fn id_for<KV, I>(previous: Seq<Slot<KV, I>>, key: KV) -> Option<nat> {
    if keys(previous).contains(key) {
        Some(previous[keys(previous).index_of(key)].id)
    } else {
        None
    }
}

/// How many of the first `j` keys of `order` are not among `known`.
pub open spec fn fresh_before<KV>(known: Seq<KV>, order: Seq<KV>, j: int) -> nat
    decreases j,
{
    if j <= 0 {
        0
    } else {
        fresh_before(known, order, j - 1) + if known.contains(order[j - 1]) {
            0nat
        } else {
            1nat
        }
    }
}

/// The rendered list after `snapshot` has been reconciled against `previous`,
/// `minted` ids having been handed out before.
///
/// There is one slot per distinct key of the snapshot, in the order in which
/// the keys first occur. A key that `previous` holds keeps its node; any other
/// key gets a new node, and new nodes take the ids `minted`, `minted + 1`, ...
/// in list order. Every slot shows the item of the last pair with its key, so
/// a key that is repeated within one snapshot updates its slot in place.
pub open spec fn reconciled<KV, I>(
    previous: Seq<Slot<KV, I>>,
    snapshot: Seq<(KV, I)>,
    minted: nat,
) -> Seq<Slot<KV, I>> {
    let order = distinct(snapshot_keys(snapshot));
    Seq::new(
        order.len(),
        |j: int|
            Slot {
                key: order[j],
                id: match id_for(previous, order[j]) {
                    Some(id) => id,
                    None => minted + fresh_before(keys(previous), order, j),
                },
                item: item_for(snapshot, order[j]),
            },
    )
}

/// The number of ids handed out once `snapshot` has been reconciled against
/// `previous`: one more for every distinct key that `previous` lacks.
pub open spec fn minted_after<KV, I>(
    previous: Seq<Slot<KV, I>>,
    snapshot: Seq<(KV, I)>,
    minted: nat,
) -> nat {
    let order = distinct(snapshot_keys(snapshot));
    minted + fresh_before(keys(previous), order, order.len() as int)
}

/// The test that picks the slots whose key is not among `kept`.
pub open spec fn not_among<KV, I>(kept: Seq<KV>) -> spec_fn(Slot<KV, I>) -> bool {
    |s: Slot<KV, I>| !kept.contains(s.key)
}

/// The slots of `previous` that `snapshot` lets go, in their old order: those
/// whose key the snapshot does not mention.
pub open spec fn released<KV, I>(previous: Seq<Slot<KV, I>>, snapshot: Seq<(KV, I)>) -> Seq<
    Slot<KV, I>,
> {
    previous.filter(not_among(snapshot_keys(snapshot)))
}

} // verus!
