use postfix_segment_tree::summable::Summable;
use postfix_segment_tree::PostfixSegmentTree;

fn sample(n: usize) -> Vec<i64> {
    (0..n).map(|i| ((i * 37 + 11) % 101) as i64 - 50).collect()
}

fn elements<T: Copy>(tree: &PostfixSegmentTree<T>) -> Vec<T> {
    (0..tree.len()).map(|i| *tree.get(i).unwrap()).collect()
}

fn check_sums(tree: &PostfixSegmentTree<i64>, model: &[i64]) {
    assert_eq!(tree.len(), model.len());
    for k in 0..=model.len() {
        assert_eq!(tree.prefix_sum(k), model[..k].iter().sum::<i64>());
        assert_eq!(tree.postfix_sum(k), model[k..].iter().sum::<i64>());
    }
    for index in 0..=model.len() {
        for count in 0..=(model.len() - index) {
            assert_eq!(tree.sum(index, count), model[index..index + count].iter().sum::<i64>());
        }
    }
}

#[test]
fn push_then_prefix_sums() {
    let mut tree = PostfixSegmentTree::new();
    tree.push(1);
    tree.push(2);
    tree.push(3);
    assert_eq!(tree.prefix_sum(0), 0);
    assert_eq!(tree.prefix_sum(1), 1);
    assert_eq!(tree.prefix_sum(2), 3);
    assert_eq!(tree.prefix_sum(3), 6);
}

#[test]
fn range_sums_of_four_elements() {
    let tree = PostfixSegmentTree::from_vec(vec![1, 2, 3, 4]);
    assert_eq!(tree.sum(0, 0), 0);
    assert_eq!(tree.sum(0, 3), 6);
    assert_eq!(tree.sum(1, 2), 5);
    assert_eq!(tree.sum(2, 2), 7);
}

#[test]
fn update_changes_element_and_sums() {
    let mut tree = PostfixSegmentTree::from_vec(vec![1, 2, 3]);
    tree.update(1, 4);
    assert_eq!(*tree.index(0), 1);
    assert_eq!(*tree.index(1), 4);
    assert_eq!(*tree.index(2), 3);
    assert_eq!(tree.prefix_sum(1), 1);
    assert_eq!(tree.prefix_sum(2), 5);
    assert_eq!(tree.prefix_sum(3), 8);
}

#[test]
fn four_pushes_make_seven_nodes() {
    let mut tree = PostfixSegmentTree::new();
    tree.push(1);
    assert_eq!(tree.nodes_len(), 1);
    tree.push(2);
    assert_eq!(tree.nodes_len(), 3);
    tree.push(3);
    assert_eq!(tree.nodes_len(), 4);
    tree.push(4);
    assert_eq!(tree.nodes_len(), 7);
}

#[test]
fn postfix_sums_of_three_elements() {
    let tree = PostfixSegmentTree::from_vec(vec![1, 2, 3]);
    assert_eq!(tree.postfix_sum(0), 6);
    assert_eq!(tree.postfix_sum(1), 5);
    assert_eq!(tree.postfix_sum(2), 3);
    assert_eq!(tree.postfix_sum(3), 0);
}

#[test]
fn get_inside_and_outside() {
    let tree = PostfixSegmentTree::from_vec(vec![1, 2, 3]);
    assert_eq!(tree.get(1), Some(&2));
    assert_eq!(tree.get(3), None);
    assert_eq!(tree.get(usize::MAX), None);
    assert_eq!(tree.len(), 3);
}

#[test]
fn empty_tree() {
    let tree: PostfixSegmentTree<u64> = PostfixSegmentTree::new();
    assert_eq!(tree.len(), 0);
    assert_eq!(tree.nodes_len(), 0);
    assert_eq!(tree.prefix_sum(0), 0);
    assert_eq!(tree.sum(0, 0), 0);
    assert_eq!(tree.postfix_sum(0), 0);
    assert_eq!(tree.get(0), None);
}

#[test]
fn truncate_keeps_prefix() {
    let mut tree = PostfixSegmentTree::from_vec(vec![1, 2, 3]);
    tree.truncate(2);
    assert_eq!(tree.len(), 2);
    assert_eq!(tree.nodes_len(), 3);
    assert_eq!(tree.prefix_sum(2), 3);
    tree.truncate(5);
    assert_eq!(tree.len(), 2);
    tree.truncate(0);
    assert_eq!(tree.len(), 0);
    assert_eq!(tree.nodes_len(), 0);
}

#[test]
fn pop_returns_last() {
    let mut tree = PostfixSegmentTree::from_vec(vec![5i64, 6, 7, 8]);
    assert_eq!(tree.pop(), 8);
    assert_eq!(tree.len(), 3);
    assert_eq!(tree.nodes_len(), 4);
    assert_eq!(tree.prefix_sum(3), 18);
    assert_eq!(tree.pop(), 7);
    assert_eq!(tree.pop(), 6);
    assert_eq!(tree.pop(), 5);
    assert_eq!(tree.len(), 0);
    assert_eq!(tree.nodes_len(), 0);
}

#[test]
fn prefix_sum_is_sum_of_elements() {
    let values = sample(77);
    let mut tree = PostfixSegmentTree::new();
    for &v in values.iter() {
        tree.push(v);
    }
    for k in 0..=values.len() {
        let expected: i64 = (0..k).map(|i| *tree.get(i).unwrap()).sum();
        assert_eq!(tree.prefix_sum(k), expected);
    }
}

#[test]
fn sum_is_difference_of_prefix_sums() {
    let tree = PostfixSegmentTree::from_vec(sample(40));
    for index in 0..=40 {
        for count in 0..=(40 - index) {
            assert_eq!(
                tree.sum(index, count),
                tree.prefix_sum(index + count) - tree.prefix_sum(index)
            );
        }
    }
}

#[test]
fn insert_then_remove_restores() {
    let values = sample(21);
    for i in 0..=values.len() {
        let mut tree = PostfixSegmentTree::from_vec(values.clone());
        tree.insert(i, 1000);
        assert_eq!(*tree.index(i), 1000);
        assert_eq!(tree.len(), values.len() + 1);
        assert_eq!(tree.remove(i), 1000);
        assert_eq!(elements(&tree), values);
        check_sums(&tree, &values);
    }
}

#[test]
fn insert_matches_vec_model() {
    let mut model: Vec<i64> = Vec::new();
    let mut tree = PostfixSegmentTree::new();
    for step in 0..40usize {
        let at = (step * 7) % (model.len() + 1);
        let value = (step as i64) * 3 - 20;
        model.insert(at, value);
        tree.insert(at, value);
        assert_eq!(elements(&tree), model);
    }
    check_sums(&tree, &model);
}

#[test]
fn remove_matches_vec_model() {
    let mut model = sample(33);
    let mut tree = PostfixSegmentTree::from_vec(model.clone());
    while !model.is_empty() {
        let at = (model.len() * 5) % model.len().max(1) + model.len() / 3;
        let at = at % model.len();
        assert_eq!(tree.remove(at), model.remove(at));
        check_sums(&tree, &model);
    }
    assert_eq!(tree.nodes_len(), 0);
}

#[test]
fn update_matches_vec_model() {
    let mut model = sample(19);
    let mut tree = PostfixSegmentTree::from_vec(model.clone());
    for step in 0..19usize {
        let at = (step * 11) % 19;
        model[at] = step as i64 * 9 - 70;
        tree.update(at, model[at]);
        check_sums(&tree, &model);
    }
}

#[test]
fn push_keeps_earlier_sums() {
    let values = sample(64);
    let mut tree = PostfixSegmentTree::new();
    let mut nodes_lens = Vec::new();
    for (n, &v) in values.iter().enumerate() {
        tree.push(v);
        nodes_lens.push(tree.nodes_len());
        assert_eq!(tree.prefix_sum(n + 1), values[..=n].iter().sum::<i64>());
    }
    for w in nodes_lens.windows(2) {
        assert!(w[0] < w[1]);
    }
    check_sums(&tree, &values);
}

#[test]
fn wrapping_sums() {
    let tree = PostfixSegmentTree::from_vec(vec![u32::MAX, 1, 5]);
    assert_eq!(tree.prefix_sum(2), 0);
    assert_eq!(tree.sum(0, 3), 5);
    let tree = PostfixSegmentTree::from_vec(vec![i32::MAX, 1]);
    assert_eq!(tree.prefix_sum(2), i32::MIN);
    let tree = PostfixSegmentTree::from_vec(vec![u64::MAX, u64::MAX]);
    assert_eq!(tree.postfix_sum(0), u64::MAX - 1);
}

#[test]
fn summable_integers() {
    let mut a: i64 = 5;
    a.accumulate(&-7);
    assert_eq!(a, -2);
    assert_eq!(<i64 as Summable>::zero(), 0);
    let mut b: u32 = 7;
    b.accumulate(&u32::MAX);
    assert_eq!(b, 6);
    assert_eq!(<u32 as Summable>::zero(), 0);
    let mut c: i32 = i32::MIN;
    c.accumulate(&-1);
    assert_eq!(c, i32::MAX);
    let mut d: u64 = 1;
    d.accumulate(&2);
    assert_eq!(d, 3);
}

#[test]
fn capacity_operations_keep_elements() {
    let mut tree = PostfixSegmentTree::from_vec(vec![1u64, 2, 3]);
    tree.reserve(100);
    assert!(tree.nodes_capacity() >= 199);
    tree.reserve_exact(200);
    assert!(tree.nodes_capacity() >= 399);
    tree.reserve_nodes(10);
    tree.reserve_nodes_exact(10);
    tree.shrink_to(10);
    assert!(tree.nodes_capacity() >= tree.nodes_len());
    tree.shrink_nodes_to(4);
    tree.shrink_to_fit();
    assert!(tree.nodes_capacity() >= 4);
    assert_eq!(elements(&tree), vec![1, 2, 3]);
    assert_eq!(tree.sum(0, 3), 6);
}

#[test]
fn sum_is_wrapping_difference_of_prefix_sums() {
    let tree = PostfixSegmentTree::from_vec(vec![i64::MAX, 5, i64::MIN, -3, 7, i64::MAX]);
    for index in 0..=6 {
        for count in 0..=(6 - index) {
            assert_eq!(
                tree.sum(index, count),
                tree.prefix_sum(index + count).wrapping_sub(tree.prefix_sum(index))
            );
        }
    }
}

#[test]
fn reserve_on_empty_tree() {
    let mut tree: PostfixSegmentTree<u64> = PostfixSegmentTree::new();
    tree.reserve(4);
    assert!(tree.nodes_capacity() >= 7);
    tree.reserve_exact(8);
    assert!(tree.nodes_capacity() >= 15);
    tree.shrink_to_fit();
    assert_eq!(tree.len(), 0);
}
