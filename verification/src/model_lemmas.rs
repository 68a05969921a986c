//! Facts about the reconciliation model that the reconciler and the laws
//! are proved from.

use crate::model::{
    distinct, fresh_before, id_for, ids, item_for, keys, minted_after, reconciled,
    snapshot_keys, well_formed, Slot,
};
use vstd::prelude::*;

verus! {

/// `distinct` keeps exactly the elements of `s`, each once.
pub proof fn lemma_distinct<A>(s: Seq<A>)
    ensures
        distinct(s).no_duplicates(),
        distinct(s).len() <= s.len(),
        forall|a: A|
            #![trigger distinct(s).contains(a)]
            #![trigger s.contains(a)]
            distinct(s).contains(a) <==> s.contains(a),
    decreases s.len(),
{
    if s.len() > 0 {
        let front = s.drop_last();
        let earlier = distinct(front);
        let all = distinct(s);
        lemma_distinct(front);
        assert(front.len() == s.len() - 1);
        assert forall|a: A| all.contains(a) <==> s.contains(a) by {
            if s.contains(a) {
                let i = choose|i: int| 0 <= i < s.len() && s[i] == a;
                if i < s.len() - 1 {
                    assert(front[i] == a);
                    assert(front.contains(a));
                    assert(earlier.contains(a));
                    let j = choose|j: int| 0 <= j < earlier.len() && earlier[j] == a;
                    assert(all[j] == a);
                } else {
                    assert(a == s.last());
                    if earlier.contains(a) {
                        let j = choose|j: int| 0 <= j < earlier.len() && earlier[j] == a;
                        assert(all[j] == a);
                    } else {
                        assert(all[earlier.len() as int] == a);
                    }
                }
                assert(all.contains(a));
            }
            if all.contains(a) {
                let j = choose|j: int| 0 <= j < all.len() && all[j] == a;
                if j < earlier.len() {
                    assert(earlier[j] == a);
                    assert(earlier.contains(a));
                    assert(front.contains(a));
                    let i = choose|i: int| 0 <= i < front.len() && front[i] == a;
                    assert(s[i] == a);
                } else {
                    assert(s[s.len() - 1] == a);
                }
                assert(s.contains(a));
            }
        }
    }
}

/// A sequence without repetitions is its own `distinct`.
pub proof fn lemma_distinct_of_unique<A>(s: Seq<A>)
    requires
        s.no_duplicates(),
    ensures
        distinct(s) == s,
    decreases s.len(),
{
    if s.len() > 0 {
        let front = s.drop_last();
        lemma_distinct_of_unique(front);
        lemma_distinct(front);
        if front.contains(s.last()) {
            let i = choose|i: int| 0 <= i < front.len() && front[i] == s.last();
            assert(s[i] == s[s.len() - 1]);
        }
        assert(front.push(s.last()) =~= s);
    } else {
        assert(distinct(s) =~= s);
    }
}

/// `fresh_before` looks only at the first `j` keys of the order.
pub proof fn lemma_fresh_before_prefix<KV>(known: Seq<KV>, a: Seq<KV>, b: Seq<KV>, j: int)
    requires
        0 <= j <= a.len(),
        j <= b.len(),
        forall|i: int| 0 <= i < j ==> a[i] == b[i],
    ensures
        fresh_before(known, a, j) == fresh_before(known, b, j),
    decreases j,
{
    if j > 0 {
        lemma_fresh_before_prefix(known, a, b, j - 1);
    }
}

/// `fresh_before` never decreases, and it grows past every fresh key.
pub proof fn lemma_fresh_before_grows<KV>(known: Seq<KV>, order: Seq<KV>, i: int, j: int)
    requires
        0 <= i <= j,
    ensures
        fresh_before(known, order, i) <= fresh_before(known, order, j),
        i < j && !known.contains(order[i]) ==> fresh_before(known, order, i) < fresh_before(
            known,
            order,
            j,
        ),
    decreases j - i,
{
    if i < j {
        lemma_fresh_before_grows(known, order, i, j - 1);
    }
}

/// What a sequence holds after a push.
pub proof fn lemma_push_contains<A>(s: Seq<A>, a: A)
    ensures
        forall|x: A| #[trigger] s.push(a).contains(x) <==> s.contains(x) || x == a,
{
    assert forall|x: A| #[trigger] s.push(a).contains(x) <==> s.contains(x) || x == a by {
        if s.contains(x) {
            let i = choose|i: int| 0 <= i < s.len() && s[i] == x;
            assert(s.push(a)[i] == x);
        }
        if x == a {
            assert(s.push(a)[s.len() as int] == x);
        }
        if s.push(a).contains(x) {
            let i = choose|i: int| 0 <= i < s.push(a).len() && s.push(a)[i] == x;
            if i < s.len() {
                assert(s[i] == x);
            }
        }
    }
}

/// The key sequence of a snapshot grows with the snapshot.
pub proof fn lemma_snapshot_keys_push<KV, I>(snapshot: Seq<(KV, I)>, key: KV, item: I)
    ensures
        snapshot_keys(snapshot.push((key, item))) == snapshot_keys(snapshot).push(key),
        snapshot.push((key, item)).drop_last() == snapshot,
        snapshot_keys(snapshot).push(key).drop_last() == snapshot_keys(snapshot),
{
    assert(snapshot_keys(snapshot.push((key, item))) =~= snapshot_keys(snapshot).push(key));
    assert(snapshot.push((key, item)).drop_last() =~= snapshot);
    assert(snapshot_keys(snapshot).push(key).drop_last() =~= snapshot_keys(snapshot));
}

/// The keys of a reconciled list are the distinct keys of the snapshot.
pub proof fn lemma_reconciled_keys<KV, I>(
    previous: Seq<Slot<KV, I>>,
    snapshot: Seq<(KV, I)>,
    minted: nat,
)
    ensures
        keys(reconciled(previous, snapshot, minted)) == distinct(snapshot_keys(snapshot)),
{
    assert(keys(reconciled(previous, snapshot, minted)) =~= distinct(snapshot_keys(snapshot)));
}

/// One more pair whose key the snapshot already mentions: the slot of that
/// key takes the new item, and nothing else changes.
pub proof fn lemma_reconciled_repeat<KV, I>(
    previous: Seq<Slot<KV, I>>,
    snapshot: Seq<(KV, I)>,
    key: KV,
    item: I,
    minted: nat,
    q: int,
)
    requires
        0 <= q < reconciled(previous, snapshot, minted).len(),
        reconciled(previous, snapshot, minted)[q].key == key,
    ensures
        reconciled(previous, snapshot.push((key, item)), minted) == reconciled(
            previous,
            snapshot,
            minted,
        ).update(q, Slot { key, id: reconciled(previous, snapshot, minted)[q].id, item }),
        minted_after(previous, snapshot.push((key, item)), minted) == minted_after(
            previous,
            snapshot,
            minted,
        ),
{
    let longer = snapshot.push((key, item));
    let order = distinct(snapshot_keys(snapshot));
    lemma_snapshot_keys_push(snapshot, key, item);
    lemma_distinct(snapshot_keys(snapshot));
    assert(order[q] == key);
    assert(distinct(snapshot_keys(longer)) == order);
    let before = reconciled(previous, snapshot, minted);
    let after = reconciled(previous, longer, minted);
    assert forall|j: int| 0 <= j < order.len() implies after[j] == before.update(
        q,
        Slot { key, id: before[q].id, item },
    )[j] by {
        if j != q {
            assert(order[j] != order[q]);
        }
    }
    assert(after =~= before.update(q, Slot { key, id: before[q].id, item }));
}

/// One more pair whose key the snapshot has not mentioned yet: the list gains
/// a slot at its end, which keeps the node that `previous` holds for the key
/// or else takes the next unused id.
pub proof fn lemma_reconciled_append<KV, I>(
    previous: Seq<Slot<KV, I>>,
    snapshot: Seq<(KV, I)>,
    key: KV,
    item: I,
    minted: nat,
)
    requires
        !keys(reconciled(previous, snapshot, minted)).contains(key),
    ensures
        reconciled(previous, snapshot.push((key, item)), minted) == reconciled(
            previous,
            snapshot,
            minted,
        ).push(
            Slot {
                key,
                id: match id_for(previous, key) {
                    Some(id) => id,
                    None => minted_after(previous, snapshot, minted),
                },
                item,
            },
        ),
        minted_after(previous, snapshot.push((key, item)), minted) == minted_after(
            previous,
            snapshot,
            minted,
        ) + if keys(previous).contains(key) {
            0nat
        } else {
            1nat
        },
{
    let longer = snapshot.push((key, item));
    let order = distinct(snapshot_keys(snapshot));
    let longer_order = distinct(snapshot_keys(longer));
    let known = keys(previous);
    lemma_snapshot_keys_push(snapshot, key, item);
    lemma_reconciled_keys(previous, snapshot, minted);
    assert(longer_order == order.push(key));
    let before = reconciled(previous, snapshot, minted);
    let after = reconciled(previous, longer, minted);
    let slot = Slot {
        key,
        id: match id_for(previous, key) {
            Some(id) => id,
            None => minted_after(previous, snapshot, minted),
        },
        item,
    };
    assert forall|j: int| 0 <= j < longer_order.len() implies after[j] == before.push(slot)[j] by {
        lemma_fresh_before_prefix(known, longer_order, order, if j < order.len() {
            j
        } else {
            order.len() as int
        });
        if j < order.len() {
            assert(order[j] != key) by {
                assert(keys(before)[j] == order[j]);
            }
        }
    }
    assert(after =~= before.push(slot));
    lemma_fresh_before_prefix(known, longer_order, order, order.len() as int);
}

/// Every pair of a snapshot creates at most one node: the count of ids never
/// falls as the snapshot grows, and rises by at most one per pair.
pub proof fn lemma_minted_after_grows<KV, I>(
    previous: Seq<Slot<KV, I>>,
    snapshot: Seq<(KV, I)>,
    minted: nat,
    n: int,
)
    requires
        0 <= n <= snapshot.len(),
    ensures
        minted <= minted_after(previous, snapshot.take(n), minted) <= minted + n,
        minted_after(previous, snapshot.take(n), minted) <= minted_after(
            previous,
            snapshot,
            minted,
        ),
        minted_after(previous, snapshot, minted) <= minted + snapshot.len(),
    decreases snapshot.len() - n,
{
    let known = keys(previous);
    let seen = snapshot.take(n);
    let order = distinct(snapshot_keys(seen));
    lemma_distinct(snapshot_keys(seen));
    lemma_fresh_before_grows(known, order, 0, order.len() as int);
    lemma_fresh_before_at_most(known, order, order.len() as int);
    if n < snapshot.len() {
        let (key, item) = snapshot[n];
        assert(snapshot.take(n + 1) =~= seen.push((key, item)));
        lemma_reconciled_keys(previous, seen, minted);
        if keys(reconciled(previous, seen, minted)).contains(key) {
            let q = keys(reconciled(previous, seen, minted)).index_of(key);
            lemma_reconciled_repeat(previous, seen, key, item, minted, q);
        } else {
            lemma_reconciled_append(previous, seen, key, item, minted);
        }
        lemma_minted_after_grows(previous, snapshot, minted, n + 1);
    } else {
        assert(seen =~= snapshot);
    }
}

/// At most `j` of the first `j` keys are fresh.
pub proof fn lemma_fresh_before_at_most<KV>(known: Seq<KV>, order: Seq<KV>, j: int)
    requires
        0 <= j,
    ensures
        fresh_before(known, order, j) <= j,
    decreases j,
{
    if j > 0 {
        lemma_fresh_before_at_most(known, order, j - 1);
    }
}

/// Reconciling keeps a well-formed list well formed.
pub proof fn lemma_reconciled_well_formed<KV, I>(
    previous: Seq<Slot<KV, I>>,
    snapshot: Seq<(KV, I)>,
    minted: nat,
)
    requires
        well_formed(previous, minted),
    ensures
        well_formed(
            reconciled(previous, snapshot, minted),
            minted_after(previous, snapshot, minted),
        ),
        minted <= minted_after(previous, snapshot, minted),
        keys(reconciled(previous, snapshot, minted)).to_set() == snapshot_keys(snapshot).to_set(),
{
    let order = distinct(snapshot_keys(snapshot));
    let known = keys(previous);
    let after = reconciled(previous, snapshot, minted);
    let total = minted_after(previous, snapshot, minted);
    lemma_distinct(snapshot_keys(snapshot));
    lemma_reconciled_keys(previous, snapshot, minted);
    assert(order.to_set() =~= snapshot_keys(snapshot).to_set());
    assert forall|j: int| 0 <= j < after.len() implies (#[trigger] after[j]).id < total by {
        lemma_fresh_before_grows(known, order, j, order.len() as int);
        if known.contains(order[j]) {
            let p = known.index_of(order[j]);
            assert(previous[p].id < minted);
        }
    }
    assert forall|i: int, j: int| 0 <= i < after.len() && 0 <= j < after.len() && i < j implies ids(
        after,
    )[i] != ids(after)[j] by {
        lemma_fresh_before_grows(known, order, i, j);
        assert(order[i] != order[j]);
        if known.contains(order[i]) {
            let p = known.index_of(order[i]);
            assert(previous[p].id < minted);
            if known.contains(order[j]) {
                let r = known.index_of(order[j]);
                assert(known[p] != known[r]);
                assert(ids(previous)[p] != ids(previous)[r]);
            }
        } else if known.contains(order[j]) {
            let r = known.index_of(order[j]);
            assert(previous[r].id < minted);
        }
    }
    assert(ids(after).no_duplicates()) by {
        assert forall|i: int, j: int|
            0 <= i < ids(after).len() && 0 <= j < ids(after).len() && i != j implies ids(after)[i]
            != ids(after)[j] by {
            if i < j {
            } else {
                assert(ids(after)[j] != ids(after)[i]);
            }
        }
    }
    lemma_fresh_before_grows(known, order, 0, order.len() as int);
}

/// The item that a snapshot gives for a key is that of the key's last pair.
pub proof fn lemma_item_for_last<KV, I>(snapshot: Seq<(KV, I)>, key: KV, i: int)
    requires
        0 <= i < snapshot.len(),
        snapshot[i].0 == key,
        forall|k: int| i < k < snapshot.len() ==> snapshot[k].0 != key,
    ensures
        item_for(snapshot, key) == snapshot[i].1,
    decreases snapshot.len(),
{
    if i < snapshot.len() - 1 {
        assert(snapshot.last().0 != key);
        lemma_item_for_last(snapshot.drop_last(), key, i);
    }
}

/// No key among the first `j` of `order` is fresh when `known` holds them all.
pub proof fn lemma_fresh_before_none<KV>(known: Seq<KV>, order: Seq<KV>, j: int)
    requires
        0 <= j <= order.len(),
        forall|i: int| 0 <= i < j ==> known.contains(#[trigger] order[i]),
    ensures
        fresh_before(known, order, j) == 0,
    decreases j,
{
    if j > 0 {
        lemma_fresh_before_none(known, order, j - 1);
    }
}

/// A filter that no element passes leaves nothing.
pub proof fn lemma_filter_none<A>(s: Seq<A>, pred: spec_fn(A) -> bool)
    requires
        forall|i: int| 0 <= i < s.len() ==> !pred(#[trigger] s[i]),
    ensures
        s.filter(pred) == Seq::<A>::empty(),
    decreases s.len(),
{
    reveal(Seq::filter);
    if s.len() > 0 {
        lemma_filter_none(s.drop_last(), pred);
    }
}

/// A filter that every element passes leaves the sequence as it is.
pub proof fn lemma_filter_all<A>(s: Seq<A>, pred: spec_fn(A) -> bool)
    requires
        forall|i: int| 0 <= i < s.len() ==> pred(#[trigger] s[i]),
    ensures
        s.filter(pred) == s,
    decreases s.len(),
{
    reveal(Seq::filter);
    if s.len() > 0 {
        lemma_filter_all(s.drop_last(), pred);
        assert(s.drop_last().push(s.last()) =~= s);
    }
}

/// A filter that exactly one element passes leaves that element.
pub proof fn lemma_filter_single<A>(s: Seq<A>, pred: spec_fn(A) -> bool, i: int)
    requires
        0 <= i < s.len(),
        pred(s[i]),
        forall|j: int| 0 <= j < s.len() && j != i ==> !pred(#[trigger] s[j]),
    ensures
        s.filter(pred) == seq![s[i]],
    decreases s.len(),
{
    reveal(Seq::filter);
    let front = s.drop_last();
    if i == s.len() - 1 {
        lemma_filter_none(front, pred);
        assert(Seq::<A>::empty().push(s[i]) =~= seq![s[i]]);
    } else {
        lemma_filter_single(front, pred, i);
    }
}

} // verus!
