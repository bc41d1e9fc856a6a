use simplepir::decomp::num_digits;

#[test]
fn test_num_digits_exact() {
    // ceil(log_p(q - 1)) at the reference moduli
    assert_eq!(num_digits(2, 3329), 12);
    assert_eq!(num_digits(3, 3329), 8);
    assert_eq!(num_digits(2, 2), 0);
    assert_eq!(num_digits(2, 5), 2);
    assert_eq!(num_digits(10, 1001), 3);
}
