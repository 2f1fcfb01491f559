use postfix_segment_tree::node_id::{LeafNodeId, NodeId};
use postfix_segment_tree::skipping_iterator::{
    get_pivot, max_reachable_elements_for_current_index, min_reachable_index_for_elements,
    step_increasing_skipping_iterator,
    IncreasingSkippingIterator, SkippingIterator,
};

fn id(index: usize, level: u32) -> NodeId {
    NodeId::new(index, level)
}

fn descending(len: usize) -> Vec<NodeId> {
    let mut iter = SkippingIterator::new(len);
    let mut ids = Vec::new();
    while let Some(node_id) = iter.next() {
        ids.push(node_id);
    }
    ids
}

fn ascending(index: usize, end: usize) -> Vec<NodeId> {
    let mut iter = IncreasingSkippingIterator::new(index, end);
    let mut ids = Vec::new();
    while let Some(node_id) = iter.next() {
        ids.push(node_id);
    }
    ids
}

fn combined(index: usize, end: usize) -> (Vec<NodeId>, Vec<NodeId>) {
    let mut iter = SkippingIterator::new(end);
    let pivot = iter.skip_to_pivot(index);
    let first = ascending(index, pivot);
    let mut second = Vec::new();
    while let Some(node_id) = iter.next() {
        second.push(node_id);
    }
    (first, second)
}

fn first_non_monotonically_decreasing(iter: &mut SkippingIterator) -> Option<NodeId> {
    let mut prev_level = None;
    while let Some(node_id) = iter.next() {
        if let Some(prev_level) = prev_level {
            if node_id.level() >= prev_level {
                return Some(node_id);
            }
        }
        prev_level = Some(node_id.level());
    }
    None
}

fn first_non_monotonically_increasing(iter: &mut IncreasingSkippingIterator) -> Option<NodeId> {
    let mut prev_level = None;
    while let Some(node_id) = iter.next() {
        if let Some(prev_level) = prev_level {
            if node_id.level() <= prev_level {
                return Some(node_id);
            }
        }
        prev_level = Some(node_id.level());
    }
    None
}

#[test]
fn test_skipping_iterator() {
    assert_eq!(descending(0), vec![]);
    assert_eq!(descending(1), vec![id(0, 0)]);
    assert_eq!(descending(2), vec![id(1, 1)]);
    assert_eq!(descending(3), vec![id(1, 1), id(2, 0)]);
    assert_eq!(descending(4), vec![id(3, 2)]);
    assert_eq!(descending(5), vec![id(3, 2), id(4, 0)]);
    assert_eq!(descending(6), vec![id(3, 2), id(5, 1)]);
    assert_eq!(descending(7), vec![id(3, 2), id(5, 1), id(6, 0)]);
    assert_eq!(descending(8), vec![id(7, 3)]);
}

#[test]
fn test_skipping_iterator_levels_monotonically_decreasing() {
    const N: usize = 100;
    for i in 0..N {
        let mut iter = SkippingIterator::new(i);
        let first = first_non_monotonically_decreasing(&mut iter);
        assert_eq!(first, None);
    }
}

#[test]
fn test_skip_to_pivot_index() {
    assert_eq!(get_pivot(0, 0), 0);

    assert_eq!(get_pivot(0, 1), 0);
    assert_eq!(get_pivot(1, 1), 1);

    assert_eq!(get_pivot(0, 2), 0);
    assert_eq!(get_pivot(1, 2), 2);
    assert_eq!(get_pivot(2, 2), 2);

    assert_eq!(get_pivot(0, 3), 0);
    assert_eq!(get_pivot(1, 3), 2);
    assert_eq!(get_pivot(2, 3), 2);
    assert_eq!(get_pivot(3, 3), 3);

    assert_eq!(get_pivot(0, 4), 0);
    assert_eq!(get_pivot(1, 4), 4);
    assert_eq!(get_pivot(2, 4), 4);
    assert_eq!(get_pivot(3, 4), 4);
    assert_eq!(get_pivot(4, 4), 4);

    assert_eq!(get_pivot(0, 5), 0);
    assert_eq!(get_pivot(1, 5), 4);
    assert_eq!(get_pivot(2, 5), 4);
    assert_eq!(get_pivot(3, 5), 4);
    assert_eq!(get_pivot(4, 5), 4);
    assert_eq!(get_pivot(5, 5), 5);

    assert_eq!(get_pivot(0, 6), 0);
    assert_eq!(get_pivot(1, 6), 4);
    assert_eq!(get_pivot(2, 6), 4);
    assert_eq!(get_pivot(3, 6), 4);
    assert_eq!(get_pivot(4, 6), 4);
    assert_eq!(get_pivot(5, 6), 6);
    assert_eq!(get_pivot(6, 6), 6);

    assert_eq!(get_pivot(0, 7), 0);
    assert_eq!(get_pivot(1, 7), 4);
    assert_eq!(get_pivot(2, 7), 4);
    assert_eq!(get_pivot(3, 7), 4);
    assert_eq!(get_pivot(4, 7), 4);
    assert_eq!(get_pivot(5, 7), 6);
    assert_eq!(get_pivot(6, 7), 6);
    assert_eq!(get_pivot(7, 7), 7);

    assert_eq!(get_pivot(0, 8), 0);
    assert_eq!(get_pivot(1, 8), 8);
    assert_eq!(get_pivot(2, 8), 8);
    assert_eq!(get_pivot(3, 8), 8);
    assert_eq!(get_pivot(4, 8), 8);
    assert_eq!(get_pivot(5, 8), 8);
    assert_eq!(get_pivot(6, 8), 8);
    assert_eq!(get_pivot(7, 8), 8);
    assert_eq!(get_pivot(8, 8), 8);
}

#[test]
fn test_min_index_of_pivot_should_be_greater_than_or_equal_to_index() {
    const N: usize = 100;
    for index in 0..N {
        for end in index..N {
            let pivot = get_pivot(index, end);
            let min_reachable_index = min_reachable_index_for_elements(pivot);

            assert!(index <= pivot);
            assert!(min_reachable_index <= index);
        }
    }
}

#[test]
fn test_increasing_skip_indexing_iterator() {
    assert_eq!(ascending(0, 0), vec![]);

    assert_eq!(ascending(0, 1), vec![id(0, 0)]);
    assert_eq!(ascending(1, 1), vec![]);

    assert_eq!(ascending(0, 2), vec![id(1, 1)]);
    assert_eq!(ascending(1, 2), vec![id(1, 0)]);
    assert_eq!(ascending(2, 2), vec![]);

    assert_eq!(ascending(2, 3), vec![id(2, 0)]);
    assert_eq!(ascending(3, 3), vec![]);

    assert_eq!(ascending(0, 4), vec![id(3, 2)]);
    assert_eq!(ascending(1, 4), vec![id(1, 0), id(3, 1)]);
    assert_eq!(ascending(2, 4), vec![id(3, 1)]);
    assert_eq!(ascending(3, 4), vec![id(3, 0)]);
    assert_eq!(ascending(4, 4), vec![]);

    assert_eq!(ascending(4, 5), vec![id(4, 0)]);
    assert_eq!(ascending(5, 5), vec![]);

    assert_eq!(ascending(4, 6), vec![id(5, 1)]);
    assert_eq!(ascending(5, 6), vec![id(5, 0)]);
    assert_eq!(ascending(6, 6), vec![]);

    assert_eq!(ascending(6, 7), vec![id(6, 0)]);
    assert_eq!(ascending(7, 7), vec![]);

    assert_eq!(ascending(0, 8), vec![id(7, 3)]);
    assert_eq!(ascending(1, 8), vec![id(1, 0), id(3, 1), id(7, 2)]);
    assert_eq!(ascending(2, 8), vec![id(3, 1), id(7, 2)]);
    assert_eq!(ascending(3, 8), vec![id(3, 0), id(7, 2)]);
    assert_eq!(ascending(4, 8), vec![id(7, 2)]);
    assert_eq!(ascending(5, 8), vec![id(5, 0), id(7, 1)]);
    assert_eq!(ascending(6, 8), vec![id(7, 1)]);
    assert_eq!(ascending(7, 8), vec![id(7, 0)]);
    assert_eq!(ascending(8, 8), vec![]);
}

#[test]
fn test_increasing_skipping_iterator_levels_monotonically_increasing() {
    const N: usize = 100;
    for elements in 0..N {
        let min_index = min_reachable_index_for_elements(elements);
        for i in min_index..N {
            let mut iter = IncreasingSkippingIterator::new(i, elements);
            let first = first_non_monotonically_increasing(&mut iter);
            assert_eq!(first, None);
        }
    }
}

#[test]
fn test_combined_iterator() {
    assert_eq!(combined(0, 0), (vec![], vec![]));

    assert_eq!(combined(0, 1), (vec![], vec![id(0, 0)]));
    assert_eq!(combined(1, 1), (vec![], vec![]));

    assert_eq!(combined(0, 2), (vec![], vec![id(1, 1)]));
    assert_eq!(combined(1, 2), (vec![id(1, 0)], vec![]));
    assert_eq!(combined(2, 2), (vec![], vec![]));

    assert_eq!(combined(0, 3), (vec![], vec![id(1, 1), id(2, 0)]));
    assert_eq!(combined(1, 3), (vec![id(1, 0)], vec![id(2, 0)]));
    assert_eq!(combined(2, 3), (vec![], vec![id(2, 0)]));
    assert_eq!(combined(3, 3), (vec![], vec![]));

    assert_eq!(combined(0, 4), (vec![], vec![id(3, 2)]));
    assert_eq!(combined(1, 4), (vec![id(1, 0), id(3, 1)], vec![]));
    assert_eq!(combined(2, 4), (vec![id(3, 1)], vec![]));
    assert_eq!(combined(3, 4), (vec![id(3, 0)], vec![]));
    assert_eq!(combined(4, 4), (vec![], vec![]));

    assert_eq!(combined(0, 5), (vec![], vec![id(3, 2), id(4, 0)]));
    assert_eq!(combined(1, 5), (vec![id(1, 0), id(3, 1)], vec![id(4, 0)]));
    assert_eq!(combined(2, 5), (vec![id(3, 1)], vec![id(4, 0)]));
    assert_eq!(combined(3, 5), (vec![id(3, 0)], vec![id(4, 0)]));
    assert_eq!(combined(4, 5), (vec![], vec![id(4, 0)]));
    assert_eq!(combined(5, 5), (vec![], vec![]));

    assert_eq!(combined(0, 6), (vec![], vec![id(3, 2), id(5, 1)]));
    assert_eq!(combined(1, 6), (vec![id(1, 0), id(3, 1)], vec![id(5, 1)]));
    assert_eq!(combined(2, 6), (vec![id(3, 1)], vec![id(5, 1)]));
    assert_eq!(combined(3, 6), (vec![id(3, 0)], vec![id(5, 1)]));
    assert_eq!(combined(4, 6), (vec![], vec![id(5, 1)]));
    assert_eq!(combined(5, 6), (vec![id(5, 0)], vec![]));
    assert_eq!(combined(6, 6), (vec![], vec![]));

    assert_eq!(combined(0, 7), (vec![], vec![id(3, 2), id(5, 1), id(6, 0)]));
    assert_eq!(
        combined(1, 7),
        (vec![id(1, 0), id(3, 1)], vec![id(5, 1), id(6, 0)])
    );
    assert_eq!(combined(2, 7), (vec![id(3, 1)], vec![id(5, 1), id(6, 0)]));
    assert_eq!(combined(3, 7), (vec![id(3, 0)], vec![id(5, 1), id(6, 0)]));
    assert_eq!(combined(4, 7), (vec![], vec![id(5, 1), id(6, 0)]));
    assert_eq!(combined(5, 7), (vec![id(5, 0)], vec![id(6, 0)]));
    assert_eq!(combined(6, 7), (vec![], vec![id(6, 0)]));
    assert_eq!(combined(7, 7), (vec![], vec![]));

    assert_eq!(combined(0, 8), (vec![], vec![id(7, 3)]));
    assert_eq!(combined(1, 8), (vec![id(1, 0), id(3, 1), id(7, 2)], vec![]));
    assert_eq!(combined(2, 8), (vec![id(3, 1), id(7, 2)], vec![]));
    assert_eq!(combined(3, 8), (vec![id(3, 0), id(7, 2)], vec![]));
    assert_eq!(combined(4, 8), (vec![id(7, 2)], vec![]));
    assert_eq!(combined(5, 8), (vec![id(5, 0), id(7, 1)], vec![]));
    assert_eq!(combined(6, 8), (vec![id(7, 1)], vec![]));
    assert_eq!(combined(7, 8), (vec![id(7, 0)], vec![]));
    assert_eq!(combined(8, 8), (vec![], vec![]));
}

#[test]
fn reachable_bounds_exact_values() {
    assert_eq!(max_reachable_elements_for_current_index(0), usize::MAX);
    assert_eq!(max_reachable_elements_for_current_index(4), 7);
    assert_eq!(max_reachable_elements_for_current_index(6), 7);
    assert_eq!(max_reachable_elements_for_current_index(8), 15);
    assert_eq!(min_reachable_index_for_elements(0), 0);
    assert_eq!(min_reachable_index_for_elements(8), 0);
    assert_eq!(min_reachable_index_for_elements(6), 4);
    assert_eq!(min_reachable_index_for_elements(7), 6);
}

#[test]
fn ascending_step_from_any_aligned_start() {
    assert_eq!(step_increasing_skipping_iterator(6, LeafNodeId::new(0)), Some(id(1, 1)));
    assert_eq!(step_increasing_skipping_iterator(6, LeafNodeId::new(4)), Some(id(5, 1)));
    assert_eq!(step_increasing_skipping_iterator(8, LeafNodeId::new(0)), Some(id(7, 3)));
    assert_eq!(step_increasing_skipping_iterator(6, LeafNodeId::new(6)), None);
}
