use pddb::free_keys::{FreeIndexHeap, FreeKeyCases, FreeKeyRange};

#[test]
fn compare_to_classifies_each_position() {
    let r = FreeKeyRange { start: 10, run: 2 };
    assert_eq!(r.compare_to(5), FreeKeyCases::LessThan);
    assert_eq!(r.compare_to(9), FreeKeyCases::LeftAdjacent);
    assert_eq!(r.compare_to(10), FreeKeyCases::Within);
    assert_eq!(r.compare_to(12), FreeKeyCases::Within);
    assert_eq!(r.compare_to(13), FreeKeyCases::RightAdjacent);
    assert_eq!(r.compare_to(14), FreeKeyCases::GreaterThan);
}

#[test]
fn push_bridges_two_runs() {
    let mut heap = FreeIndexHeap::new();
    heap.push(5);
    heap.push(7);
    assert_eq!(heap.ranges.len(), 2);
    heap.push(6);
    assert_eq!(heap.ranges.len(), 1);
    assert_eq!(heap.ranges[0].start, 5);
    assert_eq!(heap.ranges[0].run, 2);
    assert_eq!(heap.pop(), Some(5));
    assert_eq!(heap.pop(), Some(6));
    assert_eq!(heap.pop(), Some(7));
    assert_eq!(heap.pop(), None);
}
