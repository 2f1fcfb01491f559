use postfix_segment_tree::PostfixSegmentTree;

#[test]
fn iter_forward_and_backward_round_trip() {
    let values: Vec<u64> = vec![4, 8, 15, 16, 23, 42];
    let mut tree = PostfixSegmentTree::new();
    for &v in values.iter() {
        tree.push(v);
    }
    let mut forward = Vec::new();
    let mut iter = tree.iter();
    while let Some(v) = iter.next() {
        forward.push(*v);
    }
    assert_eq!(forward, values);
    let mut backward = Vec::new();
    let mut iter = tree.iter();
    while let Some(v) = iter.next_back() {
        backward.push(*v);
    }
    let mut reversed = values.clone();
    reversed.reverse();
    assert_eq!(backward, reversed);
}

#[test]
fn iter_yields_last_element() {
    let tree = PostfixSegmentTree::from_vec(vec![1u64, 2, 3]);
    let mut iter = tree.iter();
    assert_eq!(iter.next(), Some(&1));
    assert_eq!(iter.next(), Some(&2));
    assert_eq!(iter.next(), Some(&3));
    assert_eq!(iter.next(), None);
    assert_eq!(iter.next_back(), None);
}

#[test]
fn iter_from_both_ends() {
    let tree = PostfixSegmentTree::from_vec(vec![1u64, 2, 3, 4]);
    let mut iter = tree.iter();
    assert_eq!(iter.size_hint(), (4, Some(4)));
    assert_eq!(iter.next(), Some(&1));
    assert_eq!(iter.next_back(), Some(&4));
    assert_eq!(iter.size_hint(), (2, Some(2)));
    assert_eq!(iter.next_back(), Some(&3));
    assert_eq!(iter.next(), Some(&2));
    assert_eq!(iter.next(), None);
    assert_eq!(iter.next_back(), None);
    assert_eq!(iter.size_hint(), (0, Some(0)));
}

#[test]
fn iter_nth_and_last() {
    let tree = PostfixSegmentTree::from_vec(vec![10u64, 20, 30, 40, 50]);
    let mut iter = tree.iter();
    assert_eq!(iter.nth(1), Some(&20));
    assert_eq!(iter.next(), Some(&30));
    assert_eq!(iter.nth_back(0), Some(&50));
    assert_eq!(iter.last(), Some(&40));

    let mut iter = tree.iter();
    assert_eq!(iter.nth_back(3), Some(&20));
    assert_eq!(iter.next(), Some(&10));
    assert_eq!(iter.next(), None);

    let mut iter = tree.iter();
    assert_eq!(iter.nth(5), None);
    assert_eq!(iter.next(), None);

    let mut iter = tree.iter();
    assert_eq!(iter.nth_back(9), None);
    assert_eq!(iter.next_back(), None);
    assert_eq!(iter.last(), None);
}

#[test]
fn iter_on_empty_tree() {
    let tree: PostfixSegmentTree<i32> = PostfixSegmentTree::new();
    let mut iter = tree.iter();
    assert_eq!(iter.size_hint(), (0, Some(0)));
    assert_eq!(iter.next(), None);
    assert_eq!(iter.next_back(), None);
    assert_eq!(tree.iter().last(), None);
}
