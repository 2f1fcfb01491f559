use postfix_segment_tree::bits::{count_ones_of, ilog2_of, pow2_of, trailing_ones_of, trailing_zeros_of};

#[test]
fn bit_counts_match_std() {
    let samples = [1usize, 2, 3, 5, 6, 7, 8, 12, 255, 256, 1023, 4096, usize::MAX / 2, usize::MAX];
    for &x in samples.iter() {
        assert_eq!(count_ones_of(x), x.count_ones() as usize);
        assert_eq!(trailing_ones_of(x), x.trailing_ones());
        assert_eq!(trailing_zeros_of(x), x.trailing_zeros());
        assert_eq!(ilog2_of(x), x.ilog2());
    }
    assert_eq!(count_ones_of(0), 0);
    assert_eq!(trailing_ones_of(0), 0);
}

#[test]
fn bit_counts_exact_values() {
    assert_eq!(count_ones_of(0b1011), 3);
    assert_eq!(trailing_ones_of(0b1011), 2);
    assert_eq!(trailing_zeros_of(0b1000), 3);
    assert_eq!(ilog2_of(9), 3);
    assert_eq!(pow2_of(0), 1);
    assert_eq!(pow2_of(5), 32);
}
