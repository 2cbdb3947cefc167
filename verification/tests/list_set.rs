use sync_primitives::list_set::FineGrainedListSet;

fn collect(set: &FineGrainedListSet) -> Vec<u64> {
    let mut out = Vec::new();
    let mut it = set.iter();
    while let Some(v) = it.next() {
        out.push(v);
    }
    out
}

#[test]
fn set_iter_is_sorted_scenario() {
    let mut set = FineGrainedListSet::new();
    assert!(set.insert(5));
    assert!(set.insert(3));
    assert!(set.insert(8));
    assert_eq!(collect(&set), vec![3, 5, 8]);
}

#[test]
fn set_round_trip() {
    let mut set = FineGrainedListSet::new();
    assert!(set.insert(42));
    assert!(set.contains(42));
    assert!(!set.insert(42), "a second insert must report the duplicate");
    assert!(set.remove(42));
    assert!(!set.contains(42));
    assert!(!set.remove(42), "a second remove must report the absence");
}

#[test]
fn set_contains_on_empty() {
    let set = FineGrainedListSet::new();
    assert!(!set.contains(0));
    assert!(!set.contains(u64::MAX));
}

#[test]
fn set_stays_sorted_and_duplicate_free() {
    let mut set = FineGrainedListSet::new();
    let values = [9u64, 1, 7, 3, 7, 1, 100, 0, 55, 9];
    for v in values {
        set.insert(v);
    }
    set.remove(7);
    set.remove(2);
    set.insert(4);
    let out = collect(&set);
    for pair in out.windows(2) {
        assert!(pair[0] < pair[1], "iteration must be strictly increasing");
    }
    assert_eq!(out, vec![0, 1, 3, 4, 9, 55, 100]);
}

#[test]
fn set_remove_head_middle_tail() {
    let mut set = FineGrainedListSet::new();
    for v in [1u64, 2, 3, 4, 5] {
        assert!(set.insert(v));
    }
    assert!(set.remove(1));
    assert!(set.remove(3));
    assert!(set.remove(5));
    assert_eq!(collect(&set), vec![2, 4]);
}

#[test]
fn set_extreme_values() {
    let mut set = FineGrainedListSet::new();
    assert!(set.insert(u64::MAX));
    assert!(set.insert(0));
    assert_eq!(collect(&set), vec![0, u64::MAX]);
}

#[test]
fn set_batches_make_the_union_in_any_order() {
    let first = [1u64, 3, 5];
    let second = [2u64, 4, 6];

    let mut interleaved = FineGrainedListSet::new();
    for (a, b) in first.iter().zip(second.iter()) {
        assert!(interleaved.insert(*a));
        assert!(interleaved.insert(*b));
    }

    let mut one_after_the_other = FineGrainedListSet::new();
    for v in second.iter().chain(first.iter()) {
        assert!(one_after_the_other.insert(*v));
    }

    let union = vec![1, 2, 3, 4, 5, 6];
    assert_eq!(collect(&interleaved), union);
    assert_eq!(collect(&one_after_the_other), union);
}

#[test]
fn set_default_is_empty() {
    let set = FineGrainedListSet::default();
    let mut it = set.iter();
    assert_eq!(it.next(), None);
}

#[test]
fn set_iter_is_single_pass() {
    let mut set = FineGrainedListSet::new();
    set.insert(10);
    let mut it = set.iter();
    assert_eq!(it.next(), Some(10));
    assert_eq!(it.next(), None);
    assert_eq!(it.next(), None);
}
