use rikubox::bst::BinarySearchTree;
use std::cmp::Ordering;
use std::sync::Mutex;

static FINALISED: Mutex<Vec<u32>> = Mutex::new(Vec::new());

/// Compared by `key` alone; `tag` tells two equal values apart when they
/// are finalised.
struct Tagged {
    key: i32,
    tag: u32,
}

impl PartialEq for Tagged {
    fn eq(&self, other: &Self) -> bool {
        self.key == other.key
    }
}

impl Eq for Tagged {}

impl PartialOrd for Tagged {
    fn partial_cmp(&self, other: &Self) -> Option<Ordering> {
        Some(self.cmp(other))
    }
}

impl Ord for Tagged {
    fn cmp(&self, other: &Self) -> Ordering {
        self.key.cmp(&other.key)
    }
}

impl Drop for Tagged {
    fn drop(&mut self) {
        FINALISED.lock().unwrap().push(self.tag);
    }
}

#[test]
fn first_of_equal_values_stays() {
    let mut t = BinarySearchTree::new();
    t.insert(Tagged { key: 1, tag: 10 });
    t.insert(Tagged { key: 2, tag: 20 });
    t.insert(Tagged { key: 1, tag: 11 });
    t.insert(Tagged { key: 2, tag: 21 });
    t.insert(Tagged { key: 0, tag: 30 });

    // The later of two equal values is given up at once.
    assert_eq!(*FINALISED.lock().unwrap(), vec![11, 21]);

    drop(t);

    let mut all = FINALISED.lock().unwrap().clone();
    all.sort();
    assert_eq!(all, vec![10, 11, 20, 21, 30]);
}
