use rtree::RadixTree;

#[test]
pub fn test_radix_tree() {
    let mut tree: RadixTree<u64> = RadixTree::new();

    let element = 6786;
    let hash = 4567;

    tree.insert(element, hash);

    assert_eq!(element, tree.get(hash).unwrap()[0]);
}

#[test]
pub fn test_radix_tree_masked() {
    let mut tree: RadixTree<u64> = RadixTree::new();

    tree.insert(1, 0b1);
    tree.insert(2, 0b0);

    assert_eq!(tree.get(0b1).unwrap()[0], 1);
    assert_eq!(tree.get(0b0).unwrap()[0], 2);

    assert_eq!(vec![vec![2], vec![1]], tree.get_masked(0b1, 0b1));
    assert_eq!(vec![vec![2], vec![1]], tree.get_masked(0b0, 0b1));
    assert_eq!(vec![vec![1]], tree.get_masked(0b1, 0b0));
    assert_eq!(vec![vec![2]], tree.get_masked(0b0, 0b0));
}

#[test]
fn round_trip_last_inserted() {
    let mut tree: RadixTree<u32> = RadixTree::new();
    tree.insert(7, 99);
    tree.insert(8, 99);
    tree.insert(9, 1234567890123456789);
    let bucket = tree.get(99).unwrap();
    assert_eq!(*bucket.last().unwrap(), 8);
    let bucket = tree.get(1234567890123456789).unwrap();
    assert_eq!(*bucket.last().unwrap(), 9);
}

#[test]
fn accumulation_keeps_order_and_duplicates() {
    let mut tree: RadixTree<&'static str> = RadixTree::new();
    tree.insert("a", 5);
    tree.insert("b", 5);
    tree.insert("a", 5);
    assert_eq!(tree.get(5).unwrap(), &["a", "b", "a"]);
}

#[test]
fn absent_key_reports_none() {
    let mut tree: RadixTree<u64> = RadixTree::new();
    assert!(tree.get(0).is_none());
    assert!(tree.get(u64::MAX).is_none());
    tree.insert(1, 42);
    tree.insert(2, 43);
    assert!(tree.get(44).is_none());
    // same low byte as 42, different higher bytes
    assert!(tree.get(42 + (1 << 8)).is_none());
}

#[test]
fn extreme_keys() {
    let mut tree: RadixTree<u8> = RadixTree::new();
    tree.insert(1, 0);
    tree.insert(2, u64::MAX);
    assert_eq!(tree.get(0).unwrap(), &[1]);
    assert_eq!(tree.get(u64::MAX).unwrap(), &[2]);
}

#[test]
fn len_counts_all_elements() {
    let mut tree: RadixTree<u64> = RadixTree::new();
    assert!(tree.is_empty());
    assert_eq!(tree.len(), 0);
    tree.insert(10, 1);
    tree.insert(11, 1);
    tree.insert(12, 2);
    assert!(!tree.is_empty());
    assert_eq!(tree.len(), 3);
}

#[test]
fn iter_visits_buckets_in_creation_order() {
    let mut tree: RadixTree<u64> = RadixTree::new();
    assert!(tree.iter().is_empty());
    tree.insert(10, 7);
    tree.insert(20, 300);
    tree.insert(11, 7);
    let elems: Vec<u64> = tree.iter().into_iter().copied().collect();
    assert_eq!(elems, vec![10, 11, 20]);
}

#[test]
fn masked_full_wildcard_returns_every_bucket() {
    let mut tree: RadixTree<u64> = RadixTree::new();
    tree.insert(10, 0b1);
    tree.insert(20, 0b0);
    tree.insert(30, 0x100);
    // depth-first, ascending slot order: byte 0 first, least-significant
    let all = tree.get_masked(0xdead_beef, u64::MAX);
    assert_eq!(all, vec![vec![20], vec![30], vec![10]]);
}

#[test]
fn masked_full_significance_is_exact_lookup() {
    let mut tree: RadixTree<u64> = RadixTree::new();
    tree.insert(10, 77);
    tree.insert(20, 78);
    assert_eq!(tree.get_masked(77, 0), vec![vec![10]]);
    assert_eq!(tree.get_masked(78, 0), vec![vec![20]]);
    assert!(tree.get_masked(79, 0).is_empty());
}

#[test]
fn masked_wildcard_in_top_byte() {
    let mut tree: RadixTree<u64> = RadixTree::new();
    let low = 1u64 << 56;
    let high = 2u64 << 56;
    tree.insert(1, low);
    tree.insert(2, high);
    assert_eq!(tree.get(low).unwrap(), &[1]);
    assert_eq!(tree.get(high).unwrap(), &[2]);
    let top_wild = 0xFF00_0000_0000_0000u64;
    assert_eq!(tree.get_masked(0, top_wild), vec![vec![1], vec![2]]);
    assert_eq!(tree.get_masked(high, 0), vec![vec![2]]);
    assert!(tree.get_masked(3u64 << 56, 0).is_empty());
}

#[test]
fn masked_wildcard_spans_byte_boundary() {
    let mut tree: RadixTree<u64> = RadixTree::new();
    tree.insert(1, 0x0000);
    tree.insert(2, 0x0100);
    // second byte is all wildcard: both stored keys match
    assert_eq!(tree.get_masked(0, 0xFF00), vec![vec![1], vec![2]]);
    // low byte wildcard, second byte significant: only 0x0100 matches
    assert_eq!(tree.get_masked(0x0100, 0x00FF), vec![vec![2]]);
    assert_eq!(tree.get_masked(0x0000, 0x00FF), vec![vec![1]]);
}
