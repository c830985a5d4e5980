use rikubox::bst::BinarySearchTree;
use std::sync::atomic::{AtomicUsize, Ordering};
use std::sync::Mutex;

static NODE_DROPS: AtomicUsize = AtomicUsize::new(0);

static LOCK: Mutex<()> = Mutex::new(());

/// A key that counts how often one of its kind is finalised. A node holds
/// one key, so a tree that goes away finalises as many keys as it has nodes.
#[derive(PartialEq, Eq, PartialOrd, Ord)]
struct Counted(i32);

impl Drop for Counted {
    fn drop(&mut self) {
        NODE_DROPS.fetch_add(1, Ordering::SeqCst);
    }
}

fn balanced_order(start: i32, end: i32, out: &mut Vec<i32>) {
    if start >= end {
        return;
    }
    let mid = start + (end - start) / 2;
    out.push(mid);
    balanced_order(start, mid, out);
    balanced_order(mid + 1, end, out);
}

#[test]
fn drop_count_matches_number_of_inserted_nodes() {
    let _g = LOCK.lock().unwrap();
    NODE_DROPS.store(0, Ordering::SeqCst);

    let mut t = BinarySearchTree::new();

    let mut order = Vec::new();
    balanced_order(0, 1024, &mut order);
    for v in &order {
        t.insert(Counted(*v));
    }

    for _ in 0..1000 {
        t.insert(Counted(123));
        t.insert(Counted(500));
        t.insert(Counted(0));
    }

    // Every refused duplicate was finalised at once; the stored keys live on.
    let before = NODE_DROPS.load(Ordering::SeqCst);
    assert_eq!(before, 3000);

    drop(t);

    assert_eq!(NODE_DROPS.load(Ordering::SeqCst) - before, 1024);
}

#[test]
fn one_node_for_a_value_inserted_three_times() {
    let _g = LOCK.lock().unwrap();
    NODE_DROPS.store(0, Ordering::SeqCst);

    let mut t = BinarySearchTree::new();
    t.insert(Counted(5));
    assert_eq!(NODE_DROPS.load(Ordering::SeqCst), 0);
    t.insert(Counted(5));
    assert_eq!(NODE_DROPS.load(Ordering::SeqCst), 1);
    t.insert(Counted(5));
    assert_eq!(NODE_DROPS.load(Ordering::SeqCst), 2);

    assert!(t.contains(&Counted(5)));
    assert!(!t.contains(&Counted(4)));
    assert!(!t.contains(&Counted(6)));

    // The five probes above were finalised as well.
    let before = NODE_DROPS.load(Ordering::SeqCst);
    assert_eq!(before, 5);
    drop(t);
    assert_eq!(NODE_DROPS.load(Ordering::SeqCst) - before, 1);
}

#[test]
fn one_finalisation_for_each_distinct_value() {
    let _g = LOCK.lock().unwrap();
    NODE_DROPS.store(0, Ordering::SeqCst);

    let mut t = BinarySearchTree::new();
    let mut seen = vec![false; 500];
    let mut distinct = 0;
    let mut x: u32 = 7;
    for _ in 0..2000 {
        x = x.wrapping_mul(1664525).wrapping_add(1013904223);
        let v = (x >> 16) % 500;
        if !seen[v as usize] {
            seen[v as usize] = true;
            distinct += 1;
        }
        t.insert(Counted(v as i32));
    }
    assert_eq!(NODE_DROPS.load(Ordering::SeqCst), 2000 - distinct);

    NODE_DROPS.store(0, Ordering::SeqCst);
    drop(t);
    assert_eq!(NODE_DROPS.load(Ordering::SeqCst), distinct);
}

#[test]
fn empty_tree_finalises_nothing() {
    let _g = LOCK.lock().unwrap();
    NODE_DROPS.store(0, Ordering::SeqCst);

    let t = BinarySearchTree::<Counted>::new();
    drop(t);
    assert_eq!(NODE_DROPS.load(Ordering::SeqCst), 0);
}

#[test]
fn degenerate_tree_finalises_every_node() {
    let _g = LOCK.lock().unwrap();
    NODE_DROPS.store(0, Ordering::SeqCst);

    let mut t = BinarySearchTree::new();
    for v in 0..3000 {
        t.insert(Counted(v));
    }
    assert_eq!(NODE_DROPS.load(Ordering::SeqCst), 0);
    drop(t);
    assert_eq!(NODE_DROPS.load(Ordering::SeqCst), 3000);
}
