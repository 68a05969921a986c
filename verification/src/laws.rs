//! What reconciliation guarantees, stated over the model and proved.

use crate::model::{
    distinct, fresh_before, id_for, ids, item_for, keys, minted_after, not_among, reconciled,
    released, snapshot_keys, well_formed, Slot,
};
use crate::model_lemmas::{
    lemma_distinct, lemma_distinct_of_unique, lemma_filter_all, lemma_filter_none,
    lemma_filter_single, lemma_fresh_before_grows, lemma_fresh_before_none,
    lemma_item_for_last, lemma_reconciled_keys, lemma_reconciled_well_formed,
};
use vstd::prelude::*;

verus! {

/// The live nodes are in bijection with the keys of the latest snapshot: the
/// reconciled list is well formed, so no key and no node occurs twice in it,
/// and its keys are exactly the keys that the snapshot mentions.
pub proof fn law_live_nodes_match_keys<KV, I>(
    previous: Seq<Slot<KV, I>>,
    snapshot: Seq<(KV, I)>,
    minted: nat,
)
    requires
        well_formed(previous, minted),
    ensures
        well_formed(
            reconciled(previous, snapshot, minted),
            minted_after(previous, snapshot, minted),
        ),
        keys(reconciled(previous, snapshot, minted)).to_set() == snapshot_keys(snapshot).to_set(),
{
    lemma_reconciled_well_formed(previous, snapshot, minted);
}

/// For a snapshot with unique keys, the output follows the snapshot: slot
/// `j` has the key and shows the item of pair `j`.
pub proof fn law_order_follows_snapshot<KV, I>(
    previous: Seq<Slot<KV, I>>,
    snapshot: Seq<(KV, I)>,
    minted: nat,
)
    requires
        snapshot_keys(snapshot).no_duplicates(),
    ensures
        reconciled(previous, snapshot, minted).len() == snapshot.len(),
        keys(reconciled(previous, snapshot, minted)) == snapshot_keys(snapshot),
        forall|j: int|
            0 <= j < snapshot.len() ==> {
                &&& (#[trigger] reconciled(previous, snapshot, minted)[j]).key == snapshot[j].0
                &&& reconciled(previous, snapshot, minted)[j].item == snapshot[j].1
            },
{
    let after = reconciled(previous, snapshot, minted);
    lemma_distinct_of_unique(snapshot_keys(snapshot));
    lemma_reconciled_keys(previous, snapshot, minted);
    assert forall|j: int| 0 <= j < snapshot.len() implies {
        &&& (#[trigger] after[j]).key == snapshot[j].0
        &&& after[j].item == snapshot[j].1
    } by {
        assert forall|k: int| j < k < snapshot.len() implies snapshot[k].0 != snapshot[j].0 by {
            assert(snapshot_keys(snapshot)[k] != snapshot_keys(snapshot)[j]);
        }
        lemma_item_for_last(snapshot, snapshot[j].0, j);
    }
}

/// A key that already has a node keeps that node, wherever the key now
/// stands in the list.
pub proof fn law_kept_key_keeps_node<KV, I>(
    previous: Seq<Slot<KV, I>>,
    snapshot: Seq<(KV, I)>,
    minted: nat,
    p: int,
    j: int,
)
    requires
        well_formed(previous, minted),
        0 <= p < previous.len(),
        0 <= j < reconciled(previous, snapshot, minted).len(),
        reconciled(previous, snapshot, minted)[j].key == previous[p].key,
    ensures
        reconciled(previous, snapshot, minted)[j].id == previous[p].id,
{
    let known = keys(previous);
    assert(known[p] == previous[p].key);
    assert(known.contains(previous[p].key));
    let r = known.index_of(previous[p].key);
    if r != p {
        assert(known[r] != known[p]);
    }
}

/// A key that had no node gets a node that did not exist before: its id is
/// none of the ids handed out earlier.
pub proof fn law_new_key_gets_new_node<KV, I>(
    previous: Seq<Slot<KV, I>>,
    snapshot: Seq<(KV, I)>,
    minted: nat,
    j: int,
)
    requires
        well_formed(previous, minted),
        0 <= j < reconciled(previous, snapshot, minted).len(),
        !keys(previous).contains(reconciled(previous, snapshot, minted)[j].key),
    ensures
        minted <= reconciled(previous, snapshot, minted)[j].id < minted_after(
            previous,
            snapshot,
            minted,
        ),
        !ids(previous).contains(reconciled(previous, snapshot, minted)[j].id),
{
    let order = distinct(snapshot_keys(snapshot));
    let id = reconciled(previous, snapshot, minted)[j].id;
    lemma_fresh_before_grows(keys(previous), order, j, order.len() as int);
    if ids(previous).contains(id) {
        let p = choose|p: int| 0 <= p < ids(previous).len() && ids(previous)[p] == id;
        assert(previous[p].id < minted);
    }
}

/// Two passes from nothing: after `first` and then `second`, both with
/// unique keys, there is exactly one node per key of `second`, in the order
/// of `second`; a key that both snapshots mention has the node that the first
/// pass made for it, and every other key has a node that the first pass did
/// not make.
pub proof fn law_second_pass_reuses_nodes<KV, I>(first: Seq<(KV, I)>, second: Seq<(KV, I)>)
    requires
        snapshot_keys(first).no_duplicates(),
        snapshot_keys(second).no_duplicates(),
    ensures
        ({
            let nothing = Seq::<Slot<KV, I>>::empty();
            let one = reconciled(nothing, first, 0);
            let two = reconciled(one, second, minted_after(nothing, first, 0));
            &&& one.len() == first.len()
            &&& two.len() == second.len()
            &&& keys(two) == snapshot_keys(second)
            &&& ids(two).no_duplicates()
            &&& forall|i: int, j: int|
                0 <= i < first.len() && 0 <= j < second.len() && first[i].0 == second[j].0
                    ==> #[trigger] two[j].id == #[trigger] one[i].id
            &&& forall|j: int|
                0 <= j < second.len() && !snapshot_keys(first).contains(second[j].0) ==> !ids(
                    one,
                ).contains(#[trigger] two[j].id)
        }),
{
    let nothing = Seq::<Slot<KV, I>>::empty();
    let minted = minted_after(nothing, first, 0);
    let one = reconciled(nothing, first, 0);
    let two = reconciled(one, second, minted);
    assert(well_formed(nothing, 0));
    lemma_reconciled_well_formed(nothing, first, 0);
    lemma_reconciled_well_formed(one, second, minted);
    law_order_follows_snapshot(nothing, first, 0);
    law_order_follows_snapshot(one, second, minted);
    assert forall|i: int, j: int|
        0 <= i < first.len() && 0 <= j < second.len() && first[i].0 == second[j].0 implies
        #[trigger] two[j].id == #[trigger] one[i].id by {
        law_kept_key_keeps_node(one, second, minted, i, j);
    }
    assert forall|j: int|
        0 <= j < second.len() && !snapshot_keys(first).contains(second[j].0) implies !ids(
        one,
    ).contains(#[trigger] two[j].id) by {
        law_new_key_gets_new_node(one, second, minted, j);
    }
}

/// Dropping one key destroys exactly the node of that key: when the snapshot
/// mentions every previous key but that of slot `i`, and no other key, then
/// slot `i` is the only one released, no node is created, and every other
/// node is still live.
pub proof fn law_removed_key_destroys_its_node<KV, I>(
    previous: Seq<Slot<KV, I>>,
    snapshot: Seq<(KV, I)>,
    minted: nat,
    i: int,
)
    requires
        well_formed(previous, minted),
        0 <= i < previous.len(),
        snapshot_keys(snapshot).to_set() == keys(previous).to_set().remove(previous[i].key),
    ensures
        released(previous, snapshot) == seq![previous[i]],
        minted_after(previous, snapshot, minted) == minted,
        !ids(reconciled(previous, snapshot, minted)).contains(previous[i].id),
        forall|p: int|
            0 <= p < previous.len() && p != i ==> ids(
                reconciled(previous, snapshot, minted),
            ).contains(#[trigger] previous[p].id),
{
    let known = keys(previous);
    let wanted = snapshot_keys(snapshot);
    let order = distinct(wanted);
    let after = reconciled(previous, snapshot, minted);
    lemma_distinct(wanted);
    assert forall|k: KV| wanted.contains(k) <==> (known.contains(k) && k != previous[i].key) by {
        assert(wanted.to_set().contains(k) <==> known.to_set().remove(previous[i].key).contains(k));
    }
    assert forall|p: int| 0 <= p < previous.len() implies (not_among::<KV, I>(wanted)(
        #[trigger] previous[p],
    ) <==> p == i) by {
        assert(known[p] == previous[p].key);
        if p != i {
            assert(known[p] != known[i]);
        }
    }
    lemma_filter_single(previous, not_among::<KV, I>(wanted), i);
    assert forall|j: int| 0 <= j < order.len() implies known.contains(#[trigger] order[j]) by {
        assert(order.contains(order[j]));
    }
    lemma_fresh_before_none(known, order, order.len() as int);
    assert forall|p: int| 0 <= p < previous.len() && p != i implies ids(after).contains(
        #[trigger] previous[p].id,
    ) by {
        assert(known[p] == previous[p].key);
        assert(known[p] != known[i]);
        assert(order.contains(previous[p].key));
        let j = choose|j: int| 0 <= j < order.len() && order[j] == previous[p].key;
        law_kept_key_keeps_node(previous, snapshot, minted, p, j);
        assert(ids(after)[j] == previous[p].id);
    }
    if ids(after).contains(previous[i].id) {
        let j = choose|j: int| 0 <= j < ids(after).len() && ids(after)[j] == previous[i].id;
        assert(order.contains(order[j]));
        assert(known.contains(order[j]));
        let p = known.index_of(order[j]);
        assert(known[p] == order[j]);
        assert(ids(previous)[p] == ids(previous)[i]);
    }
}

/// Reordering without a change of membership creates and destroys nothing:
/// when the snapshot mentions exactly the previous keys, no slot is released,
/// no id is handed out, the live nodes are the same nodes as before, and each
/// key still has its own node.
pub proof fn law_reordering_keeps_every_node<KV, I>(
    previous: Seq<Slot<KV, I>>,
    snapshot: Seq<(KV, I)>,
    minted: nat,
)
    requires
        well_formed(previous, minted),
        snapshot_keys(snapshot).to_set() == keys(previous).to_set(),
    ensures
        released(previous, snapshot) == Seq::<Slot<KV, I>>::empty(),
        minted_after(previous, snapshot, minted) == minted,
        reconciled(previous, snapshot, minted).len() == previous.len(),
        ids(reconciled(previous, snapshot, minted)).to_set() == ids(previous).to_set(),
        forall|p: int, j: int|
            0 <= p < previous.len() && 0 <= j < previous.len() && (#[trigger] reconciled(
                previous,
                snapshot,
                minted,
            )[j]).key == (#[trigger] previous[p]).key ==> reconciled(previous, snapshot, minted)[j].id
                == previous[p].id,
{
    let known = keys(previous);
    let wanted = snapshot_keys(snapshot);
    let order = distinct(wanted);
    let after = reconciled(previous, snapshot, minted);
    lemma_distinct(wanted);
    lemma_reconciled_keys(previous, snapshot, minted);
    assert forall|k: KV| wanted.contains(k) <==> known.contains(k) by {
        assert(wanted.to_set().contains(k) <==> known.to_set().contains(k));
    }
    assert forall|p: int| 0 <= p < previous.len() implies !not_among::<KV, I>(wanted)(
        #[trigger] previous[p],
    ) by {
        assert(known[p] == previous[p].key);
    }
    lemma_filter_none(previous, not_among::<KV, I>(wanted));
    assert forall|j: int| 0 <= j < order.len() implies known.contains(#[trigger] order[j]) by {
        assert(order.contains(order[j]));
    }
    lemma_fresh_before_none(known, order, order.len() as int);
    assert(order.to_set() =~= known.to_set());
    order.unique_seq_to_set();
    known.unique_seq_to_set();
    assert forall|p: int, j: int|
        0 <= p < previous.len() && 0 <= j < previous.len() && (#[trigger] after[j]).key == (
        #[trigger] previous[p]).key implies after[j].id == previous[p].id by {
        law_kept_key_keeps_node(previous, snapshot, minted, p, j);
    }
    assert forall|id: nat| ids(after).to_set().contains(id) <==> ids(previous).to_set().contains(
        id,
    ) by {
        if ids(after).contains(id) {
            let j = choose|j: int| 0 <= j < ids(after).len() && ids(after)[j] == id;
            let p = known.index_of(order[j]);
            assert(known[p] == order[j]);
            assert(ids(previous)[p] == id);
        }
        if ids(previous).contains(id) {
            let p = choose|p: int| 0 <= p < ids(previous).len() && ids(previous)[p] == id;
            assert(known[p] == previous[p].key);
            assert(order.contains(previous[p].key));
            let j = choose|j: int| 0 <= j < order.len() && order[j] == previous[p].key;
            law_kept_key_keeps_node(previous, snapshot, minted, p, j);
            assert(ids(after)[j] == id);
        }
    }
    assert(ids(after).to_set() =~= ids(previous).to_set());
}

/// A snapshot that only reorders, and gives every key the item its node
/// already shows, changes no node: the same slots are live afterwards.
pub proof fn law_reordering_changes_no_data<KV, I>(
    previous: Seq<Slot<KV, I>>,
    snapshot: Seq<(KV, I)>,
    minted: nat,
)
    requires
        well_formed(previous, minted),
        snapshot_keys(snapshot).to_set() == keys(previous).to_set(),
        forall|p: int|
            0 <= p < previous.len() ==> item_for(snapshot, (#[trigger] previous[p]).key)
                == previous[p].item,
    ensures
        reconciled(previous, snapshot, minted).to_set() == previous.to_set(),
{
    let known = keys(previous);
    let wanted = snapshot_keys(snapshot);
    let order = distinct(wanted);
    let after = reconciled(previous, snapshot, minted);
    lemma_distinct(wanted);
    assert forall|k: KV| wanted.contains(k) <==> known.contains(k) by {
        assert(wanted.to_set().contains(k) <==> known.to_set().contains(k));
    }
    assert forall|s: Slot<KV, I>| after.to_set().contains(s) <==> previous.to_set().contains(
        s,
    ) by {
        if after.contains(s) {
            let j = choose|j: int| 0 <= j < after.len() && after[j] == s;
            assert(order.contains(order[j]));
            let p = known.index_of(order[j]);
            assert(known[p] == order[j]);
            assert(previous[p] == s);
        }
        if previous.contains(s) {
            let p = choose|p: int| 0 <= p < previous.len() && previous[p] == s;
            assert(known[p] == s.key);
            assert(order.contains(s.key));
            let j = choose|j: int| 0 <= j < order.len() && order[j] == s.key;
            law_kept_key_keeps_node(previous, snapshot, minted, p, j);
            assert(after[j] == s);
        }
    }
    assert(after.to_set() =~= previous.to_set());
}

/// An empty snapshot destroys every node and leaves an empty list.
pub proof fn law_empty_snapshot_releases_all<KV, I>(previous: Seq<Slot<KV, I>>, minted: nat)
    ensures
        reconciled(previous, Seq::<(KV, I)>::empty(), minted) == Seq::<Slot<KV, I>>::empty(),
        released(previous, Seq::<(KV, I)>::empty()) == previous,
        minted_after(previous, Seq::<(KV, I)>::empty(), minted) == minted,
{
    let nothing = Seq::<(KV, I)>::empty();
    assert(reconciled(previous, nothing, minted) =~= Seq::<Slot<KV, I>>::empty());
    assert forall|p: int| 0 <= p < previous.len() implies not_among::<KV, I>(
        snapshot_keys(nothing),
    )(#[trigger] previous[p]) by {}
    lemma_filter_all(previous, not_among::<KV, I>(snapshot_keys(nothing)));
}

/// A key that is repeated within one snapshot has one slot, at the place
/// where the key first occurs, and that slot shows the item of the key's
/// last pair.
pub proof fn law_repeated_key_last_item_wins<KV, I>(
    previous: Seq<Slot<KV, I>>,
    snapshot: Seq<(KV, I)>,
    minted: nat,
    last: int,
    j: int,
)
    requires
        0 <= last < snapshot.len(),
        forall|k: int| last < k < snapshot.len() ==> snapshot[k].0 != snapshot[last].0,
        0 <= j < reconciled(previous, snapshot, minted).len(),
        reconciled(previous, snapshot, minted)[j].key == snapshot[last].0,
    ensures
        reconciled(previous, snapshot, minted)[j].item == snapshot[last].1,
        keys(reconciled(previous, snapshot, minted)).no_duplicates(),
        reconciled(previous, snapshot, minted).len() <= snapshot.len(),
{
    lemma_item_for_last(snapshot, snapshot[last].0, last);
    lemma_distinct(snapshot_keys(snapshot));
    lemma_reconciled_keys(previous, snapshot, minted);
}

} // verus!
