use spectral_dqg::cheeger::bipartition_from_mask;

#[test]
fn mask_bits_pick_the_vertices_after_zero() {
    assert_eq!(bipartition_from_mask(4, 0b101), vec![true, true, false, true]);
    assert_eq!(bipartition_from_mask(4, 0), vec![true, false, false, false]);
    assert_eq!(bipartition_from_mask(3, 0b111), vec![true, true, true]);
    assert_eq!(bipartition_from_mask(0, 5), Vec::<bool>::new());
    let all = bipartition_from_mask(33, u32::MAX);
    assert!(all.iter().all(|&b| b));
}

#[test]
fn masks_below_the_top_bit_number_each_bipartition_once() {
    let n = 5;
    let mut seen = std::collections::HashSet::new();
    for mask in 0u32..(1 << (n - 1)) {
        let side = bipartition_from_mask(n, mask);
        assert!(side[0]);
        assert!(seen.insert(side));
    }
    assert_eq!(seen.len(), 1 << (n - 1));
}
