use mikke::ranges::sort_ranges;

#[test]
fn sort_ranges_is_stable_by_start() {
    let r = vec![(5, 6), (1, 9), (1, 2), (0, 3)];
    assert_eq!(sort_ranges(&r), vec![(0, 3), (1, 9), (1, 2), (5, 6)]);
    assert!(sort_ranges(&vec![]).is_empty());
}
