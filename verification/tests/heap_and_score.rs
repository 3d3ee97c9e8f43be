use graph_algos::graph::DijkstraScore;
use graph_algos::heap::Heap;
use std::cmp::Ordering;
use std::collections::BinaryHeap;

/// The score ordering as a full `Ord`, for the standard library's
/// `BinaryHeap`: by score, an unknown score greatest.
struct ByScore(DijkstraScore);

impl PartialEq for ByScore {
    fn eq(&self, other: &Self) -> bool {
        self.cmp(other) == Ordering::Equal
    }
}

impl Eq for ByScore {}

impl PartialOrd for ByScore {
    fn partial_cmp(&self, other: &Self) -> Option<Ordering> {
        Some(self.cmp(other))
    }
}

impl Ord for ByScore {
    fn cmp(&self, other: &Self) -> Ordering {
        match (self.0.score, other.0.score) {
            (None, None) => Ordering::Equal,
            (None, Some(_)) => Ordering::Greater,
            (Some(x), Some(y)) => x.cmp(&y),
            (Some(_), None) => Ordering::Less,
        }
    }
}

#[test]
fn test_binary_heap() {
    let mut custom_heap = Heap::<DijkstraScore>::default();
    let mut std_heap = BinaryHeap::<ByScore>::default();

    custom_heap.insert(DijkstraScore::from(1, 3));
    custom_heap.insert(DijkstraScore::from(2, 2));
    custom_heap.insert(DijkstraScore::from(3, 1));

    std_heap.push(ByScore(DijkstraScore::from(1, 3)));
    std_heap.push(ByScore(DijkstraScore::from(2, 2)));
    std_heap.push(ByScore(DijkstraScore::from(3, 1)));

    // max-heap
    let std_score = std_heap.pop().unwrap();
    assert_eq!(std_score.0, DijkstraScore::from(1, 3));

    // min-heap
    let score = custom_heap.extract_min().unwrap();
    assert_eq!(score, DijkstraScore::from(3, 1));

    custom_heap.insert(DijkstraScore::from(6, 7));
    custom_heap.insert(DijkstraScore::from(5, 6));
    custom_heap.insert(DijkstraScore::from(4, 5));
    // delete element
    assert_eq!(custom_heap.delete_by_id(1_usize).unwrap(), DijkstraScore::from(1, 3));
    assert_eq!(custom_heap.delete_by_id(2_usize).unwrap(), DijkstraScore::from(2, 2));
    assert_eq!(custom_heap.extract_min().unwrap(), DijkstraScore::from(4, 5));
}

#[test]
fn test_bubble_down() {
    let mut heap = Heap::<DijkstraScore>::default();

    heap.insert(DijkstraScore { node_num: 1, score: None });
    heap.insert(DijkstraScore { node_num: 2, score: None });
    heap.insert(DijkstraScore { node_num: 3, score: Some(2) });
    heap.insert(DijkstraScore { node_num: 4, score: Some(1) });
    heap.insert(DijkstraScore { node_num: 5, score: None });

    assert_eq!(4, heap.extract_min().unwrap().node_num);
    assert_eq!(3, heap.extract_min().unwrap().node_num);
    assert_eq!(heap.size(), 3);
}

#[test]
fn delete_by_id_from_heap() {
    let mut heap = Heap::<DijkstraScore>::default();

    heap.insert(DijkstraScore { node_num: 1, score: None });
    heap.insert(DijkstraScore { node_num: 2, score: None });
    heap.insert(DijkstraScore { node_num: 3, score: Some(2) });
    heap.insert(DijkstraScore { node_num: 4, score: Some(1) });
    heap.insert(DijkstraScore { node_num: 5, score: None });

    assert_eq!(heap.delete_by_id(1).unwrap().node_num, 1);
    assert_eq!(heap.size(), 4);

    assert_eq!(heap.delete_by_id(4).unwrap().node_num, 4);
    assert_eq!(heap.extract_min().unwrap().node_num, 3);
}

#[test]
fn test_score_ordering() {
    assert!(
        DijkstraScore { node_num: 1, score: None } > DijkstraScore { node_num: 2, score: Some(2) }
    );
}

#[test]
fn extract_interleaved_is_non_decreasing() {
    // inserts interleaved with extractions; every insert after an
    // extraction scores at least the last extracted minimum
    let mut heap = Heap::<DijkstraScore>::default();
    heap.insert(DijkstraScore::from(1, 4));
    heap.insert(DijkstraScore::from(2, 9));
    heap.insert(DijkstraScore::from(3, 2));

    let m1 = heap.extract_min().unwrap();
    assert_eq!(m1, DijkstraScore::from(3, 2));
    heap.insert(DijkstraScore::from(4, 3));
    heap.insert(DijkstraScore::from(5, 7));

    let m2 = heap.extract_min().unwrap();
    assert_eq!(m2, DijkstraScore::from(4, 3));
    heap.insert(DijkstraScore::from(6, 5));

    let mut last = m2.score.unwrap();
    while let Some(m) = heap.extract_min() {
        let s = m.score.unwrap();
        assert!(s >= last);
        last = s;
    }
    assert!(heap.is_empty());
}

#[test]
fn deleted_identity_never_reappears() {
    let mut heap = Heap::<DijkstraScore>::default();
    for (id, score) in [(1, 10), (2, 20), (3, 30), (4, 40)] {
        heap.insert(DijkstraScore::from(id, score));
    }
    assert_eq!(heap.size(), 4);
    assert!(heap.contains_id(&3));

    let removed = heap.delete_by_id(3).unwrap();
    assert_eq!(removed, DijkstraScore::from(3, 30));
    assert!(!heap.contains_id(&3));
    assert_eq!(heap.size(), 3);

    while let Some(m) = heap.extract_min() {
        assert_ne!(m.node_num, 3);
    }
    assert_eq!(heap.size(), 0);
    assert!(heap.delete_by_id(3).is_none());
    assert!(heap.extract_min().is_none());
}

#[test]
fn heap_sort_ascending() {
    // the heap-sort property: distinct keys come out fully sorted
    let mut heap = Heap::<DijkstraScore>::default();
    let keys = [41_usize, 7, 23, 1, 99, 58, 12, 64];
    for (i, key) in keys.iter().enumerate() {
        heap.insert(DijkstraScore::from(i + 1, *key));
    }

    let n = heap.size();
    let mut previous: Option<usize> = None;
    for _ in 0..n - 1 {
        let m = heap.extract_min().unwrap().score.unwrap();
        if let Some(p) = previous {
            assert!(p <= m);
        }
        previous = Some(m);
    }
    assert_eq!(heap.size(), 1);
    assert_eq!(heap.extract_min().unwrap().score, Some(99));
}

#[test]
fn drain_yields_sorted_contents() {
    let mut heap = Heap::<DijkstraScore>::default();
    for (id, score) in [(1, 5), (2, 1), (3, 4), (4, 1), (5, 8)] {
        heap.insert(DijkstraScore::from(id, score));
    }
    let drained = heap.extract_all();
    let scores: Vec<usize> = drained.iter().map(|d| d.score.unwrap()).collect();
    assert_eq!(scores, vec![1, 1, 4, 5, 8]);
    assert!(heap.is_empty());
}
