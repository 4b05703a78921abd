use circle_fold::bitrev::{
    circle_bitrev_idx, circle_bitrev_idx_inv, circle_bitrev_permute, log2_strict,
    reverse_bits_len, CircleBitrevPermutation,
};

#[test]
fn test_circle_bitrev() {
    assert_eq!(circle_bitrev_permute(&[0]), vec![0]);
    assert_eq!(circle_bitrev_permute(&[0, 1]), vec![0, 1]);
    assert_eq!(circle_bitrev_permute(&[0, 1, 2, 3]), vec![0, 3, 1, 2]);
    assert_eq!(
        circle_bitrev_permute(&[0, 1, 2, 3, 4, 5, 6, 7]),
        vec![0, 7, 3, 4, 1, 6, 2, 5]
    );
}

#[test]
fn test_reverse_bits_len_values() {
    assert_eq!(reverse_bits_len(0, 3), 0);
    assert_eq!(reverse_bits_len(1, 3), 4);
    assert_eq!(reverse_bits_len(3, 3), 6);
    assert_eq!(reverse_bits_len(5, 3), 5);
    assert_eq!(reverse_bits_len(6, 4), 6);
}

#[test]
fn test_log2_strict_values() {
    assert_eq!(log2_strict(1), 0);
    assert_eq!(log2_strict(2), 1);
    assert_eq!(log2_strict(256), 8);
    assert_eq!(log2_strict(1 << 20), 20);
}

#[test]
fn test_permute_index_matches_idx() {
    for bits in 0..5usize {
        let n = 1usize << bits;
        for i in 0..n {
            assert_eq!(
                CircleBitrevPermutation::permute_index(i, n),
                circle_bitrev_idx(i, bits)
            );
        }
    }
}

#[test]
fn test_bitrev_index_roundtrip() {
    for bits in 0..=6usize {
        let n = 1usize << bits;
        for i in 0..n {
            let fwd = circle_bitrev_idx(i, bits);
            assert!(fwd < n);
            assert_eq!(circle_bitrev_idx_inv(fwd, bits), i);
            let bwd = circle_bitrev_idx_inv(i, bits);
            assert!(bwd < n);
            assert_eq!(circle_bitrev_idx(bwd, bits), i);
        }
    }
}

#[test]
fn test_permute_roundtrip_via_inverse() {
    // Recover a permuted vector's original order through the explicit
    // inverse map; the map is not its own inverse, so composing the forward
    // map twice must not restore the vector in general.
    let xs: Vec<u64> = (100..116).collect();
    let ys = circle_bitrev_permute(&xs);
    let bits = 4usize;
    for j in 0..xs.len() {
        assert_eq!(xs[j], ys[circle_bitrev_idx_inv(j, bits)]);
    }
    let twice = circle_bitrev_permute(&ys);
    assert_ne!(twice, xs);
}
