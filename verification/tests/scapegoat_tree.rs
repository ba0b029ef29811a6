use libfim::scapegoat_tree::ScapegoatTree;

fn setup() -> ScapegoatTree<u64> {
    let mut tree = ScapegoatTree::new(3, 4);
    for i in 0..100u64 {
        tree.insert(i, 100 - i);
    }
    tree
}

#[test]
pub fn test_get() {
    let tree = setup();
    for i in 0..100usize {
        let el = tree.get(i).unwrap();
        assert!(el.0 == i as u64 && el.1 == 100 - i as u64);
    }
}

#[test]
pub fn test_get_none() {
    let tree = setup();
    assert!(tree.get(100).is_none());
}

#[test]
pub fn test_get_mut() {
    let mut tree = setup();
    for i in 0..100usize {
        let el = tree.get_mut(i).unwrap();
        *el = i as u64 * 2;
    }
    for i in 0..100usize {
        let el = tree.get(i).unwrap();
        assert!(el.0 == i as u64 && el.1 == i as u64 * 2);
    }
}

#[test]
pub fn test_get_mut_none() {
    let mut tree = setup();
    assert!(tree.get_mut(101).is_none());
}

#[test]
fn scapegoat_insert_descending_keeps_order() {
    let mut tree: ScapegoatTree<u64> = ScapegoatTree::new(2, 3);
    for i in (0..50u64).rev() {
        tree.insert(i, i * 10);
    }
    assert_eq!(tree.len(), 50);
    for i in 0..50usize {
        assert_eq!(tree.get(i), Some(&(i as u64, i as u64 * 10)));
    }
}

#[test]
fn scapegoat_insert_duplicate_key_is_ignored() {
    let mut tree: ScapegoatTree<&str> = ScapegoatTree::new(3, 4);
    tree.insert(5, "five");
    tree.insert(3, "three");
    tree.insert(5, "again");
    assert_eq!(tree.len(), 2);
    assert_eq!(tree.get(0), Some(&(3, "three")));
    assert_eq!(tree.get(1), Some(&(5, "five")));
}

#[test]
fn scapegoat_insert_rank_places_by_rank() {
    let mut tree: ScapegoatTree<char> = ScapegoatTree::new(3, 4);
    tree.insert(10, 'a');
    tree.insert_rank(0, 99, 'b');
    tree.insert_rank(2, 1, 'c');
    tree.insert_rank(1, 50, 'd');
    tree.insert_rank(9, 7, 'e');
    assert_eq!(tree.len(), 4);
    let order: Vec<char> = (0..4).map(|i| tree.get(i).unwrap().1).collect();
    assert_eq!(order, vec!['b', 'd', 'a', 'c']);
}

#[test]
fn scapegoat_search_finds_values() {
    let mut tree: ScapegoatTree<u64> = ScapegoatTree::new(3, 4);
    for k in [40u64, 10, 70, 20, 60, 30, 50] {
        tree.insert(k, k + 1);
    }
    assert_eq!(tree.search(60), Some(&61));
    assert_eq!(tree.search(65), None);
    *tree.search_mut(20).unwrap() = 0;
    assert_eq!(tree.search(20), Some(&0));
    assert!(tree.search_mut(99).is_none());
}

#[test]
fn scapegoat_many_inserts_stay_sorted() {
    let mut tree: ScapegoatTree<u32> = ScapegoatTree::new(3, 5);
    let mut x: u64 = 7;
    let mut keys = Vec::new();
    for _ in 0..500 {
        x = (x * 1103515245 + 12345) % 1000003;
        tree.insert(x, 0);
        if !keys.contains(&x) {
            keys.push(x);
        }
    }
    keys.sort();
    assert_eq!(tree.len(), keys.len());
    for (i, k) in keys.iter().enumerate() {
        assert_eq!(tree.get(i).unwrap().0, *k);
    }
}

#[test]
fn scapegoat_delete_removes_only_that_key() {
    let mut tree = setup();
    assert_eq!(tree.delete(50), Some(50));
    assert_eq!(tree.len(), 99);
    assert_eq!(tree.search(50), None);
    for i in 0..99usize {
        let k = if i < 50 { i as u64 } else { i as u64 + 1 };
        assert_eq!(tree.get(i), Some(&(k, 100 - k)));
    }
}

#[test]
fn scapegoat_delete_absent_key_changes_nothing() {
    let mut tree = setup();
    assert_eq!(tree.delete(1000), None);
    assert_eq!(tree.len(), 100);
    assert_eq!(tree.get(99), Some(&(99, 1)));
}

#[test]
fn scapegoat_delete_everything_in_mixed_order() {
    let mut tree: ScapegoatTree<u64> = ScapegoatTree::new(2, 3);
    let keys = [40u64, 10, 70, 20, 60, 30, 50, 5, 15, 65, 75, 1];
    for k in keys {
        tree.insert(k, k * 3);
    }
    let mut left: Vec<u64> = keys.to_vec();
    left.sort();
    for k in [40u64, 1, 75, 20, 60, 10, 5, 70, 15, 30, 65, 50] {
        assert_eq!(tree.delete(k), Some(k * 3));
        left.retain(|x| *x != k);
        assert_eq!(tree.len(), left.len());
        for (i, key) in left.iter().enumerate() {
            assert_eq!(tree.get(i), Some(&(*key, *key * 3)));
        }
    }
    assert!(tree.get(0).is_none());
    assert_eq!(tree.delete(40), None);
}

#[test]
fn scapegoat_insert_then_delete_restores_entries() {
    let mut tree: ScapegoatTree<u64> = ScapegoatTree::new(3, 4);
    for k in [8u64, 4, 12, 2, 6, 10, 14] {
        tree.insert(k, k);
    }
    tree.insert(7, 70);
    assert_eq!(tree.delete(7), Some(70));
    let keys: Vec<u64> = (0..tree.len()).map(|i| tree.get(i).unwrap().0).collect();
    assert_eq!(keys, vec![2, 4, 6, 8, 10, 12, 14]);
}

#[test]
fn scapegoat_search_and_delete_with_comparators() {
    let mut tree = setup();
    assert_eq!(tree.search_with(|e| 42u64.cmp(&e.0)), Some(&(42, 58)));
    assert_eq!(tree.search_with(|e| 500u64.cmp(&e.0)), None);
    *tree.search_with_mut(|e| 7u64.cmp(&e.0)).unwrap() = 0;
    assert_eq!(tree.search(7), Some(&0));
    assert!(tree.search_with_mut(|e| 700u64.cmp(&e.0)).is_none());
    assert_eq!(tree.delete_with(|e| 10u64.cmp(&e.0)), Some((10, 90)));
    assert_eq!(tree.search(10), None);
    assert_eq!(tree.len(), 99);
    assert_eq!(tree.delete_with(|_| std::cmp::Ordering::Less), None);
    assert_eq!(tree.len(), 99);
    assert_eq!(tree.get(10), Some(&(11, 89)));
}

#[test]
fn red_black_tree_starts_empty() {
    let tree: libfim::rb_tree::RBTree<u64> = libfim::rb_tree::RBTree::new();
    assert_eq!(tree.search_with(|v| 3u64.cmp(v)), None);
}

#[test]
fn scapegoat_fresh_tree_has_no_slots() {
    let mut tree: ScapegoatTree<u8> = ScapegoatTree::new(3, 4);
    assert_eq!(tree.slots(), 0);
    tree.insert(1, 1);
    assert_eq!(tree.len(), 1);
}

#[test]
fn scapegoat_inserts_from_new_stay_sorted_without_duplicates() {
    let mut t: ScapegoatTree<u64> = ScapegoatTree::new(2, 3);
    let keys = [50u64, 20, 80, 20, 10, 90, 50, 30, 70, 60, 40, 10];
    for (i, k) in keys.iter().enumerate() {
        let before = t.len();
        let present = t.search(*k).is_some();
        t.insert(*k, i as u64);
        assert_eq!(t.len(), if present { before } else { before + 1 });
        assert!(t.search(*k).is_some());
        assert!(t.search_with(|e| k.cmp(&e.0)).is_some());
    }
    assert_eq!(t.len(), 9);
    let mut prev: Option<u64> = None;
    for r in 0..t.len() {
        let k = t.get(r).unwrap().0;
        if let Some(p) = prev {
            assert!(p < k);
        }
        prev = Some(k);
    }
    assert_eq!(t.search(20), Some(&1));
    assert_eq!(t.search(10), Some(&4));
}
