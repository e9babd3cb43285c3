use shamir::field::Field;
use shamir::polynomial::get_polynomial_value;

#[test]
fn value_of_a_cubic() {
    // 3x^3 + 4x^2 + 18x + 554
    let f = Field::new(2147483647).unwrap();
    let coeffs = [3i64, 4, 18, 554];
    assert_eq!(get_polynomial_value(&f, 2, &coeffs), 630);
    assert_eq!(get_polynomial_value(&f, 0, &coeffs), 554);
    assert_eq!(get_polynomial_value(&f, 1, &coeffs), 579);
    assert_eq!(get_polynomial_value(&f, -3, &coeffs), 455);
}

#[test]
fn value_is_reduced() {
    let f = Field::new(7).unwrap();
    assert_eq!(get_polynomial_value(&f, 2, &[3, 4, 18, 554]), 0);
    assert_eq!(get_polynomial_value(&f, 10, &[5]), 5);
    assert_eq!(get_polynomial_value(&f, 3, &[-1]), 6);
}

#[test]
fn value_of_no_coefficients_is_zero() {
    let f = Field::new(7).unwrap();
    assert_eq!(get_polynomial_value(&f, 5, &[]), 0);
}

#[test]
fn value_at_zero_is_the_last_coefficient() {
    let f = Field::new(1613).unwrap();
    assert_eq!(get_polynomial_value(&f, 0, &[94, 166, 1234]), 1234);
    assert_eq!(get_polynomial_value(&f, 1613, &[94, 166, 1234]), 1234);
}

#[test]
fn value_with_large_terms() {
    let f = Field::new(2147483647).unwrap();
    // (-1)^2 * (-1) + (-1) * (-1) + 1 == 1, with every number taken as p - 1
    assert_eq!(get_polynomial_value(&f, 2147483646, &[2147483646, 2147483646, 1]), 1);
}

#[test]
fn values_of_the_textbook_quadratic() {
    // 94x^2 + 166x + 1234 modulo 1613
    let f = Field::new(1613).unwrap();
    let coeffs = [94i64, 166, 1234];
    let expected = [1494i64, 329, 965, 176, 1188, 775];
    for (i, &y) in expected.iter().enumerate() {
        assert_eq!(get_polynomial_value(&f, i as i64 + 1, &coeffs), y);
    }
}
