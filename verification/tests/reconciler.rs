use keyed_grid::key::Key;
use keyed_grid::reconciler::{Node, Reconciler};

fn snapshot(pairs: &[(&str, u32)]) -> Vec<(String, u32)> {
    pairs.iter().map(|(k, v)| (k.to_string(), *v)).collect()
}

fn keys_of(r: &Reconciler<String, u32>) -> Vec<String> {
    r.nodes().iter().map(|(k, _)| k.clone()).collect()
}

fn ids_of(r: &Reconciler<String, u32>) -> Vec<u64> {
    r.nodes().iter().map(|(_, n)| n.id).collect()
}

fn items_of(r: &Reconciler<String, u32>) -> Vec<u32> {
    r.nodes().iter().map(|(_, n)| n.item).collect()
}

fn id_of(r: &Reconciler<String, u32>, key: &str) -> u64 {
    r.find(&key.to_string()).expect("key is live").id
}

#[test]
fn new_reconciler_is_empty() {
    let r: Reconciler<String, u32> = Reconciler::new();
    assert!(r.is_empty());
    assert_eq!(r.len(), 0);
    assert_eq!(r.issued(), 0);
    assert!(r.nodes().is_empty());
}

#[test]
fn first_pass_creates_one_node_per_key_in_order() {
    let mut r = Reconciler::new();
    let destroyed = r.reconcile(snapshot(&[("a", 1), ("b", 2), ("c", 3)]));
    assert!(destroyed.is_empty());
    assert_eq!(keys_of(&r), vec!["a", "b", "c"]);
    assert_eq!(ids_of(&r), vec![0, 1, 2]);
    assert_eq!(items_of(&r), vec![1, 2, 3]);
    assert_eq!(r.issued(), 3);
    assert_eq!(r.len(), 3);
    assert!(!r.is_empty());
}

#[test]
fn second_pass_reuses_nodes_of_shared_keys() {
    let mut r = Reconciler::new();
    r.reconcile(snapshot(&[("a", 1), ("b", 2), ("c", 3)]));
    let a = id_of(&r, "a");
    let b = id_of(&r, "b");
    let c = id_of(&r, "c");
    let destroyed = r.reconcile(snapshot(&[("b", 20), ("d", 40), ("a", 10)]));
    assert_eq!(keys_of(&r), vec!["b", "d", "a"]);
    assert_eq!(r.len(), 3);
    assert_eq!(id_of(&r, "b"), b);
    assert_eq!(id_of(&r, "a"), a);
    let d = id_of(&r, "d");
    assert!(d != a && d != b && d != c);
    assert_eq!(ids_of(&r), vec![1, 3, 0]);
    assert_eq!(items_of(&r), vec![20, 40, 10]);
    assert_eq!(destroyed, vec![("c".to_string(), Node { id: c, item: 3 })]);
    assert_eq!(r.issued(), 4);
}

#[test]
fn output_order_equals_snapshot_order() {
    let mut r = Reconciler::new();
    r.reconcile(snapshot(&[("x", 1), ("y", 2), ("z", 3), ("w", 4)]));
    r.reconcile(snapshot(&[("w", 4), ("q", 9), ("y", 2), ("x", 1)]));
    assert_eq!(keys_of(&r), vec!["w", "q", "y", "x"]);
    assert_eq!(items_of(&r), vec![4, 9, 2, 1]);
}

#[test]
fn removing_a_key_destroys_exactly_its_node() {
    let mut r = Reconciler::new();
    r.reconcile(snapshot(&[("a", 1), ("b", 2), ("c", 3)]));
    let before = ids_of(&r);
    let destroyed = r.reconcile(snapshot(&[("a", 1), ("c", 3)]));
    assert_eq!(destroyed, vec![("b".to_string(), Node { id: before[1], item: 2 })]);
    assert_eq!(ids_of(&r), vec![before[0], before[2]]);
    assert_eq!(r.issued(), 3);
    assert!(r.find(&"b".to_string()).is_none());
}

#[test]
fn reordering_creates_and_destroys_nothing() {
    let mut r = Reconciler::new();
    r.reconcile(snapshot(&[("a", 1), ("b", 2), ("c", 3)]));
    let a = id_of(&r, "a");
    let b = id_of(&r, "b");
    let c = id_of(&r, "c");
    let destroyed = r.reconcile(snapshot(&[("c", 3), ("a", 1), ("b", 2)]));
    assert!(destroyed.is_empty());
    assert_eq!(r.issued(), 3);
    assert_eq!(keys_of(&r), vec!["c", "a", "b"]);
    assert_eq!(ids_of(&r), vec![c, a, b]);
    assert_eq!(items_of(&r), vec![3, 1, 2]);
}

#[test]
fn empty_snapshot_destroys_every_node() {
    let mut r = Reconciler::new();
    r.reconcile(snapshot(&[("a", 1), ("b", 2)]));
    let destroyed = r.reconcile(Vec::new());
    assert!(r.is_empty());
    assert_eq!(
        destroyed,
        vec![
            ("a".to_string(), Node { id: 0, item: 1 }),
            ("b".to_string(), Node { id: 1, item: 2 }),
        ]
    );
    assert_eq!(r.issued(), 2);
}

#[test]
fn empty_snapshot_on_empty_reconciler() {
    let mut r: Reconciler<String, u32> = Reconciler::new();
    let destroyed = r.reconcile(Vec::new());
    assert!(destroyed.is_empty());
    assert!(r.is_empty());
    assert_eq!(r.issued(), 0);
}

#[test]
fn destroyed_ids_are_not_handed_out_again() {
    let mut r = Reconciler::new();
    r.reconcile(snapshot(&[("a", 1), ("b", 2)]));
    r.reconcile(Vec::new());
    r.reconcile(snapshot(&[("a", 5)]));
    assert_eq!(ids_of(&r), vec![2]);
    assert_eq!(r.issued(), 3);
}

#[test]
fn same_key_updates_the_node_in_place() {
    let mut r = Reconciler::new();
    r.reconcile(snapshot(&[("5-5-0", 100)]));
    let node = id_of(&r, "5-5-0");
    let destroyed = r.reconcile(snapshot(&[("5-5-0", 200)]));
    assert!(destroyed.is_empty());
    assert_eq!(id_of(&r, "5-5-0"), node);
    assert_eq!(items_of(&r), vec![200]);
    assert_eq!(r.issued(), 1);
}

#[test]
fn repeated_key_in_one_snapshot_keeps_first_place_and_last_item() {
    let mut r = Reconciler::new();
    let destroyed = r.reconcile(snapshot(&[("a", 1), ("b", 2), ("a", 3), ("c", 4), ("b", 5)]));
    assert!(destroyed.is_empty());
    assert_eq!(keys_of(&r), vec!["a", "b", "c"]);
    assert_eq!(items_of(&r), vec![3, 5, 4]);
    assert_eq!(ids_of(&r), vec![0, 1, 2]);
    assert_eq!(r.issued(), 3);
}

#[test]
fn repeated_key_of_a_live_node_reuses_it_once() {
    let mut r = Reconciler::new();
    r.reconcile(snapshot(&[("a", 1), ("b", 2)]));
    let destroyed = r.reconcile(snapshot(&[("b", 7), ("b", 8), ("z", 9)]));
    assert_eq!(keys_of(&r), vec!["b", "z"]);
    assert_eq!(ids_of(&r), vec![1, 2]);
    assert_eq!(items_of(&r), vec![8, 9]);
    assert_eq!(destroyed, vec![("a".to_string(), Node { id: 0, item: 1 })]);
}

#[test]
fn find_returns_the_node_of_a_key() {
    let mut r = Reconciler::new();
    r.reconcile(snapshot(&[("a", 1), ("b", 2)]));
    assert_eq!(r.find(&"b".to_string()), Some(&Node { id: 1, item: 2 }));
    assert_eq!(r.find(&"c".to_string()), None);
}

#[test]
fn has_room_counts_against_the_id_space() {
    let mut r = Reconciler::new();
    assert!(r.has_room(0));
    assert!(r.has_room(usize::MAX));
    r.reconcile(snapshot(&[("a", 1)]));
    assert!(r.has_room(10));
    assert_eq!(r.has_room(usize::MAX), (usize::MAX as u128) + 1 <= u64::MAX as u128);
}

#[test]
fn integer_keys_work_like_text_keys() {
    let mut r: Reconciler<usize, bool> = Reconciler::new();
    r.reconcile(vec![(10, false), (11, true), (12, false)]);
    let destroyed = r.reconcile(vec![(12, true), (10, true)]);
    let ids: Vec<u64> = r.nodes().iter().map(|(_, n)| n.id).collect();
    let keys: Vec<usize> = r.nodes().iter().map(|(k, _)| *k).collect();
    assert_eq!(keys, vec![12, 10]);
    assert_eq!(ids, vec![2, 0]);
    assert_eq!(destroyed, vec![(11, Node { id: 1, item: true })]);
}

#[test]
fn u64_keys_are_compared_by_value() {
    let mut r: Reconciler<u64, u8> = Reconciler::new();
    r.reconcile(vec![(1, 1), (2, 2)]);
    r.reconcile(vec![(2, 3), (3, 4)]);
    let ids: Vec<u64> = r.nodes().iter().map(|(_, n)| n.id).collect();
    assert_eq!(ids, vec![1, 2]);
}

#[test]
fn keys_with_the_same_code_are_still_different_keys() {
    let one = "\u{1}\u{0}".to_string();
    let other = "\u{0}\u{1f}".to_string();
    assert_eq!(one.code(), other.code());
    assert!(!one.same_key(&other));
    let mut r: Reconciler<String, u32> = Reconciler::new();
    r.reconcile(vec![(one.clone(), 1), (other.clone(), 2)]);
    assert_eq!(r.len(), 2);
    assert_eq!(r.find(&one), Some(&Node { id: 0, item: 1 }));
    assert_eq!(r.find(&other), Some(&Node { id: 1, item: 2 }));
    let destroyed = r.reconcile(vec![(other.clone(), 3)]);
    assert_eq!(destroyed, vec![(one.clone(), Node { id: 0, item: 1 })]);
    assert_eq!(r.find(&other), Some(&Node { id: 1, item: 3 }));
    assert_eq!(r.find(&one), None);
}

#[test]
fn many_keys_are_reconciled_like_few() {
    let mut r: Reconciler<usize, usize> = Reconciler::new();
    r.reconcile((0..500).map(|k| (k, k)).collect());
    let destroyed = r.reconcile((250..750).rev().map(|k| (k, k + 1)).collect());
    assert_eq!(destroyed.len(), 250);
    assert!(destroyed.iter().enumerate().all(|(i, (k, n))| *k == i && n.id == i as u64));
    assert_eq!(r.len(), 500);
    for (place, (key, node)) in r.nodes().iter().enumerate() {
        assert_eq!(*key, 749 - place);
        assert_eq!(node.item, key + 1);
        if *key < 500 {
            assert_eq!(node.id, *key as u64);
        } else {
            assert_eq!(node.id, 500 + place as u64);
        }
    }
    assert_eq!(r.issued(), 750);
}
