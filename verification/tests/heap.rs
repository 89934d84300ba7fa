use nearest_points::buffer::swap;
use nearest_points::candidate::DistancePoint;
use nearest_points::heap::BoundedHeap;

fn held(heap: BoundedHeap) -> Vec<u64> {
    let mut distances: Vec<u64> = heap.into_vec().iter().map(|c| c.distance).collect();
    distances.sort();
    distances
}

#[test]
fn a_new_heap_is_empty() {
    let heap = BoundedHeap::new(4);
    assert_eq!(heap.len(), 0);
    assert_eq!(heap.capacity(), 4);
    assert_eq!(heap.peek(), None);
    assert!(heap.into_vec().is_empty());
}

#[test]
fn the_top_of_the_heap_is_the_farthest() {
    let mut heap = BoundedHeap::new(8);
    let mut farthest: u64 = 0;
    for (i, d) in [5u64, 1, 9, 3, 9, 2, 7, 4].iter().enumerate() {
        heap.push(DistancePoint::new(*d, i));
        if *d > farthest {
            farthest = *d;
        }
        assert_eq!(heap.len(), i + 1);
        assert_eq!(heap.peek().unwrap().distance, farthest);
    }
    assert_eq!(held(heap), vec![1, 2, 3, 4, 5, 7, 9, 9]);
}

#[test]
fn replacing_the_top_evicts_the_farthest() {
    let mut heap = BoundedHeap::new(5);
    for (i, d) in [10u64, 40, 20, 50, 30].iter().enumerate() {
        heap.push(DistancePoint::new(*d, i));
    }
    let evicted = heap.replace_top(DistancePoint::new(25, 5));
    assert_eq!(evicted, DistancePoint::new(50, 3));
    assert_eq!(heap.peek(), Some(DistancePoint::new(40, 1)));
    let evicted = heap.replace_top(DistancePoint::new(5, 6));
    assert_eq!(evicted, DistancePoint::new(40, 1));
    assert_eq!(heap.peek(), Some(DistancePoint::new(30, 4)));
    assert_eq!(heap.len(), 5);
    assert_eq!(held(heap), vec![5, 10, 20, 25, 30]);
}

#[test]
fn a_heap_with_room_takes_every_offer() {
    let mut heap = BoundedHeap::new(3);
    assert!(heap.offer(DistancePoint::new(7, 0)));
    assert!(heap.offer(DistancePoint::new(9, 1)));
    assert!(heap.offer(DistancePoint::new(7, 2)));
    assert_eq!(heap.len(), 3);
    assert_eq!(held(heap), vec![7, 7, 9]);
}

#[test]
fn a_full_heap_takes_only_what_is_strictly_nearer() {
    let mut heap = BoundedHeap::new(2);
    assert!(heap.offer(DistancePoint::new(6, 0)));
    assert!(heap.offer(DistancePoint::new(4, 1)));
    assert!(!heap.offer(DistancePoint::new(6, 2)));
    assert!(!heap.offer(DistancePoint::new(8, 3)));
    assert_eq!(heap.peek(), Some(DistancePoint::new(6, 0)));
    assert!(heap.offer(DistancePoint::new(5, 4)));
    assert_eq!(heap.peek(), Some(DistancePoint::new(5, 4)));
    assert!(heap.offer(DistancePoint::new(0, 5)));
    assert_eq!(heap.len(), 2);
    assert_eq!(held(heap), vec![0, 4]);
}

#[test]
fn a_heap_without_room_takes_nothing() {
    let mut heap = BoundedHeap::new(0);
    assert!(!heap.offer(DistancePoint::new(0, 0)));
    assert!(!heap.offer(DistancePoint::new(1, 1)));
    assert_eq!(heap.len(), 0);
    assert_eq!(heap.peek(), None);
}

#[test]
fn a_heap_keeps_its_order_through_many_offers() {
    let mut heap = BoundedHeap::new(16);
    let mut seen: Vec<u64> = Vec::new();
    let mut state: u64 = 12345;
    for i in 0..2000usize {
        state = state.wrapping_mul(6364136223846793005).wrapping_add(1442695040888963407);
        let distance: u64 = (state >> 40) % 500;
        seen.push(distance);
        heap.offer(DistancePoint::new(distance, i));
        let mut nearest = seen.clone();
        nearest.sort();
        nearest.truncate(16);
        assert_eq!(heap.peek().unwrap().distance, *nearest.last().unwrap());
    }
    seen.sort();
    seen.truncate(16);
    assert_eq!(held(heap), seen);
}

#[test]
fn swapping_exchanges_two_entries() {
    let mut buffer =
        vec![DistancePoint::new(1, 0), DistancePoint::new(2, 1), DistancePoint::new(3, 2)];
    swap(&mut buffer, 0, 2);
    assert_eq!(
        buffer,
        vec![DistancePoint::new(3, 2), DistancePoint::new(2, 1), DistancePoint::new(1, 0)]
    );
    swap(&mut buffer, 1, 1);
    assert_eq!(buffer[1], DistancePoint::new(2, 1));
}

#[test]
fn a_candidate_keeps_its_fields() {
    let candidate = DistancePoint::new(42, 7);
    assert_eq!(candidate.distance, 42);
    assert_eq!(candidate.point, 7);
}
