use taocp::euclid::gcd;

#[test]
fn gcd_of_small_numbers() {
    assert_eq!(gcd(12, 18), 6);
    assert_eq!(gcd(18, 12), 6);
    assert_eq!(gcd(42, 56), 14);
    assert_eq!(gcd(544, 119), 17);
}

#[test]
fn gcd_of_coprime_numbers_is_one() {
    assert_eq!(gcd(7, 13), 1);
    assert_eq!(gcd(1, 65535), 1);
    assert_eq!(gcd(65535, 65534), 1);
}

#[test]
fn gcd_of_a_number_with_itself() {
    assert_eq!(gcd(5, 5), 5);
    assert_eq!(gcd(1, 1), 1);
    assert_eq!(gcd(65535, 65535), 65535);
}

#[test]
fn gcd_of_a_number_and_its_multiple() {
    assert_eq!(gcd(9, 81), 9);
    assert_eq!(gcd(81, 9), 9);
    assert_eq!(gcd(255, 65535), 255);
}

#[test]
fn gcd_divides_both_and_nothing_larger_does() {
    for n in 1u16..40 {
        for m in 1u16..40 {
            let g = gcd(n, m);
            assert_eq!(n % g, 0);
            assert_eq!(m % g, 0);
            for d in (g + 1)..=n.min(m) {
                assert!(n % d != 0 || m % d != 0);
            }
        }
    }
}
