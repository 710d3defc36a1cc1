use priority_heap::Heap;
use priority_heap::MaxHeap;
use priority_heap::MaxOrder;
use priority_heap::MinHeap;
use priority_heap::MinOrder;

#[test]
fn test_empty_heap() {
    let mut heap = MaxHeap::new::<i32>();
    assert_eq!(heap.next(), None);
}

#[test]
fn test_min_heap() {
    let mut heap = MinHeap::new();
    heap.add(4);
    heap.add(2);
    heap.add(9);
    heap.add(11);
    assert_eq!(heap.len(), 4);
    assert_eq!(heap.next(), Some(2));
    assert_eq!(heap.next(), Some(4));
    assert_eq!(heap.next(), Some(9));
    heap.add(1);
    assert_eq!(heap.next(), Some(1));
}

#[test]
fn test_max_heap() {
    let mut heap = MaxHeap::new();
    heap.add(4);
    heap.add(2);
    heap.add(9);
    heap.add(11);
    assert_eq!(heap.len(), 4);
    assert_eq!(heap.next(), Some(11));
    assert_eq!(heap.next(), Some(9));
    assert_eq!(heap.next(), Some(4));
    heap.add(1);
    assert_eq!(heap.next(), Some(2));
}

#[test]
fn fresh_heaps_are_empty() {
    let mut min = Heap::<i32, MinOrder>::new_min();
    assert_eq!(min.len(), 0);
    assert!(min.is_empty());
    assert_eq!(min.next(), None);

    let mut max = Heap::<i32, MaxOrder>::new_max();
    assert_eq!(max.len(), 0);
    assert!(max.is_empty());
    assert_eq!(max.next(), None);
}

#[test]
fn explicit_comparator_construction() {
    let mut heap = Heap::new(MinOrder);
    heap.add(30);
    heap.add(10);
    heap.add(20);
    assert_eq!(heap.next(), Some(10));
    assert_eq!(heap.next(), Some(20));
    assert_eq!(heap.next(), Some(30));

    let mut heap = Heap::new(MaxOrder);
    heap.add(30);
    heap.add(10);
    heap.add(20);
    assert_eq!(heap.next(), Some(30));
}

#[test]
fn size_accounting_through_interleaved_calls() {
    let mut heap = MinHeap::new::<i32>();
    let mut adds: usize = 0;
    let mut taken: usize = 0;
    assert_eq!(heap.len(), adds - taken);
    for v in [5, 3, 8, 1, 9, 2] {
        heap.add(v);
        adds += 1;
        assert_eq!(heap.len(), adds - taken);
    }
    for _ in 0..2 {
        if heap.next().is_some() {
            taken += 1;
        }
        assert_eq!(heap.len(), adds - taken);
    }
    for v in [7, 0] {
        heap.add(v);
        adds += 1;
        assert_eq!(heap.len(), adds - taken);
    }
    while let Some(_) = heap.next() {
        taken += 1;
        assert_eq!(heap.len(), adds - taken);
    }
    assert_eq!(adds, taken);
    assert_eq!(heap.len(), 0);
}

#[test]
fn draining_empty_heap_is_idempotent() {
    let mut heap = MinHeap::new::<i32>();
    for _ in 0..5 {
        assert_eq!(heap.next(), None);
        assert_eq!(heap.len(), 0);
    }
    heap.add(1);
    assert_eq!(heap.next(), Some(1));
    for _ in 0..5 {
        assert_eq!(heap.next(), None);
        assert_eq!(heap.len(), 0);
    }
}

#[test]
fn full_drain_sorts_ascending() {
    let values = [83, 16, 95, 16, 4, 42, 77, 0, -13, 42, 58, 91, -2, 33, 7];
    let mut heap = MinHeap::new::<i32>();
    for v in values {
        heap.add(v);
    }
    let drained = heap.drain();
    let mut expected = values.to_vec();
    expected.sort();
    assert_eq!(drained, expected);
    assert_eq!(heap.len(), 0);
}

#[test]
fn full_drain_sorts_descending() {
    let values = [83, 16, 95, 16, 4, 42, 77, 0, -13, 42, 58, 91, -2, 33, 7];
    let mut heap = MaxHeap::new::<i32>();
    for v in values {
        heap.add(v);
    }
    let drained = heap.drain();
    let mut expected = values.to_vec();
    expected.sort();
    expected.reverse();
    assert_eq!(drained, expected);
}

#[test]
fn interleaved_operations_keep_extraction_order() {
    // A scripted mix of insertions and extractions; every extraction
    // must yield the smallest element present at that time, and the
    // final full drain must come out ascending.
    let mut heap = MinHeap::new::<i32>();
    let script = [12, 5, 20, 5, -4, 31, 8, 0, 27, 15];
    let mut present: Vec<i32> = Vec::new();
    for (step, v) in script.into_iter().enumerate() {
        heap.add(v);
        present.push(v);
        if step % 3 == 2 {
            let got = heap.next().unwrap();
            let smallest = *present.iter().min().unwrap();
            assert_eq!(got, smallest);
            let spot = present.iter().position(|x| *x == got).unwrap();
            present.remove(spot);
        }
    }
    let drained = heap.drain();
    let mut expected = present.clone();
    expected.sort();
    assert_eq!(drained, expected);
}

#[test]
fn unsigned_keys_work_too() {
    let mut heap = MinHeap::new::<u64>();
    heap.add(18_446_744_073_709_551_615);
    heap.add(0);
    heap.add(7);
    assert_eq!(heap.next(), Some(0));
    assert_eq!(heap.next(), Some(7));
    assert_eq!(heap.next(), Some(18_446_744_073_709_551_615));
}

#[test]
fn duplicate_keys_all_come_out() {
    let mut heap = MinHeap::new::<i32>();
    for _ in 0..4 {
        heap.add(6);
    }
    heap.add(1);
    assert_eq!(heap.len(), 5);
    assert_eq!(heap.next(), Some(1));
    for _ in 0..4 {
        assert_eq!(heap.next(), Some(6));
    }
    assert_eq!(heap.next(), None);
}
