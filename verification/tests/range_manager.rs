use os4::address::{VPNRange, VirtPageNum};
use os4::range_manager::{RangeManager, RangesChanged};

fn rng(s: usize, e: usize) -> VPNRange {
    VPNRange::new(VirtPageNum(s), VirtPageNum(e))
}

#[test]
fn test_range_manager() {
    let mut manager = RangeManager::new();
    manager.insert(&rng(0x3, 0x7));
    manager.insert(&rng(0x20, 0x40));
    manager.insert(&rng(0x10, 0x14));

    assert_eq!(manager.insert(&rng(0x9, 0x12)), None);
    assert_eq!(manager.insert(&rng(0x9, 0x15)), None);
    assert_eq!(manager.insert(&rng(0x11, 0x12)), None);
    assert_eq!(manager.insert(&rng(0x11, 0x15)), None);
    assert_eq!(manager.insert(&rng(0x5, 0x15)), None);

    let res = manager.insert(&rng(0x0, 0x2));
    assert_eq!(res.unwrap(), RangesChanged::Inserted(rng(0x0, 0x2)));
    let res = manager.insert(&rng(0x50, 0x60));
    assert_eq!(res.unwrap(), RangesChanged::Inserted(rng(0x50, 0x60)));
    let res = manager.insert(&rng(0x40, 0x41));
    assert_eq!(res.unwrap(), RangesChanged::Extended(rng(0x20, 0x40), rng(0x20, 0x41)));
    let res = manager.insert(&rng(0x18, 0x20));
    assert_eq!(res.unwrap(), RangesChanged::Extended(rng(0x20, 0x41), rng(0x18, 0x41)));
    let res = manager.insert(&rng(0x41, 0x50));
    assert_eq!(res.unwrap(), RangesChanged::Combined(rng(0x18, 0x41), rng(0x50, 0x60)));

    assert_eq!(manager.remove(&rng(0x16, 0x17)), None);
    assert_eq!(manager.remove(&rng(0x16, 0x20)), None);
    assert_eq!(manager.remove(&rng(0x50, 0x90)), None);
    assert_eq!(manager.remove(&rng(0x80, 0x90)), None);
    assert_eq!(manager.remove(&rng(0x16, 0x90)), None);

    let res = manager.remove(&rng(0x3, 0x7));
    assert_eq!(res.unwrap(), RangesChanged::Removed(rng(0x3, 0x7)));

    let res = manager.remove(&rng(0x54, 0x60));
    assert_eq!(res.unwrap(), RangesChanged::Shrinked(rng(0x18, 0x60), rng(0x18, 0x54)));
    let res = manager.remove(&rng(0x18, 0x23));
    assert_eq!(res.unwrap(), RangesChanged::Shrinked(rng(0x18, 0x54), rng(0x23, 0x54)));
    let res = manager.remove(&rng(0x30, 0x40));
    assert_eq!(res.unwrap(), RangesChanged::Splitted(rng(0x23, 0x30), rng(0x40, 0x54)));
}

#[test]
fn insert_same_range_twice_fails() {
    let mut m = RangeManager::new();
    assert_eq!(m.insert(&rng(4, 8)), Some(RangesChanged::Inserted(rng(4, 8))));
    assert_eq!(m.insert(&rng(4, 8)), None);
    assert_eq!(m.insert(&rng(5, 6)), None);
    assert_eq!(m.insert(&rng(2, 5)), None);
    assert_eq!(m.insert(&rng(7, 9)), None);
}

#[test]
fn insert_then_remove_gives_back_the_ranges() {
    let mut m = RangeManager::new();
    m.insert(&rng(10, 20));
    assert_eq!(m.insert(&rng(30, 40)), Some(RangesChanged::Inserted(rng(30, 40))));
    assert_eq!(m.remove(&rng(30, 40)), Some(RangesChanged::Removed(rng(30, 40))));
    // Back as before: the same insertion is accepted again.
    assert_eq!(m.insert(&rng(30, 40)), Some(RangesChanged::Inserted(rng(30, 40))));
    // A joined insertion is undone by cutting the pages out again.
    assert_eq!(m.insert(&rng(20, 25)), Some(RangesChanged::Extended(rng(10, 20), rng(10, 25))));
    assert_eq!(m.remove(&rng(20, 25)), Some(RangesChanged::Shrinked(rng(10, 25), rng(10, 20))));
    assert_eq!(m.insert(&rng(20, 30)), Some(RangesChanged::Combined(rng(10, 20), rng(30, 40))));
    assert_eq!(m.remove(&rng(20, 30)), Some(RangesChanged::Splitted(rng(10, 20), rng(30, 40))));
}

#[test]
fn remove_twice_fails() {
    let mut m = RangeManager::new();
    m.insert(&rng(0, 10));
    assert_eq!(m.remove(&rng(3, 5)), Some(RangesChanged::Splitted(rng(0, 3), rng(5, 10))));
    assert_eq!(m.remove(&rng(3, 5)), None);
    assert_eq!(m.remove(&rng(0, 3)), Some(RangesChanged::Removed(rng(0, 3))));
    assert_eq!(m.remove(&rng(0, 3)), None);
}

#[test]
fn remove_needs_one_covering_range() {
    let mut m = RangeManager::new();
    m.insert(&rng(0, 4));
    m.insert(&rng(6, 10));
    assert_eq!(m.remove(&rng(2, 8)), None);
    assert_eq!(m.remove(&rng(4, 6)), None);
    assert_eq!(m.remove(&rng(12, 14)), None);
    assert_eq!(m.remove(&rng(6, 8)), Some(RangesChanged::Shrinked(rng(6, 10), rng(8, 10))));
}

#[test]
fn empty_ranges() {
    let mut m = RangeManager::new();
    // An empty range is stored as it is.
    assert_eq!(m.insert(&rng(5, 5)), Some(RangesChanged::Inserted(rng(5, 5))));
    m.insert(&rng(10, 20));
    // An empty range strictly inside a stored one stands in the way.
    assert_eq!(m.insert(&rng(12, 12)), None);
    // One at the start of a stored range joins it, changing nothing.
    assert_eq!(m.insert(&rng(10, 10)), Some(RangesChanged::Extended(rng(10, 20), rng(10, 20))));
    // Taking away an empty range inside a stored one cuts it in two touching halves.
    assert_eq!(m.remove(&rng(15, 15)), Some(RangesChanged::Splitted(rng(10, 15), rng(15, 20))));
}

#[test]
fn blocked_insert_changes_nothing() {
    let mut m = RangeManager::new();
    m.insert(&rng(10, 20));
    assert_eq!(m.insert(&rng(15, 25)), None);
    assert_eq!(m.remove(&rng(10, 20)), Some(RangesChanged::Removed(rng(10, 20))));
    assert_eq!(m.remove(&rng(20, 25)), None);
}
