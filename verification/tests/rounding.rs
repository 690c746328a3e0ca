use infogeom::rounding::nearest_quotient;

#[test]
fn nearest_quotient_rounds_to_the_nearer_whole_number() {
    assert_eq!(nearest_quotient(0, 8), 0);
    assert_eq!(nearest_quotient(3, 8), 0);
    assert_eq!(nearest_quotient(5, 8), 1);
    assert_eq!(nearest_quotient(8, 8), 1);
    assert_eq!(nearest_quotient(11, 8), 1);
    assert_eq!(nearest_quotient(13, 8), 2);
    assert_eq!(nearest_quotient(1000, 7), 143);
    assert_eq!(nearest_quotient(1004, 7), 143);
    assert_eq!(nearest_quotient(1005, 7), 144);
}

#[test]
fn nearest_quotient_breaks_ties_towards_even() {
    assert_eq!(nearest_quotient(4, 8), 0);
    assert_eq!(nearest_quotient(12, 8), 2);
    assert_eq!(nearest_quotient(20, 8), 2);
    assert_eq!(nearest_quotient(28, 8), 4);
    assert_eq!(nearest_quotient(1, 2), 0);
    assert_eq!(nearest_quotient(3, 2), 2);
}

#[test]
fn nearest_quotient_by_one_changes_nothing() {
    assert_eq!(nearest_quotient(0, 1), 0);
    assert_eq!(nearest_quotient(7, 1), 7);
    assert_eq!(nearest_quotient(u64::MAX - 1, 1), u64::MAX - 1);
}
