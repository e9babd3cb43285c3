use rand::rngs::StdRng;
use rand::SeedableRng;
use shamir::error::Error;
use shamir::field::Field;
use shamir::generate::{
    contains_value, distinct_points, get_coefficients, get_shares, pick_unused, shares_at,
};
use shamir::polynomial::get_polynomial_value;
use shamir::reconstruct::reconstruct_secret;
use shamir::share::Share;

const MERSENNE: i64 = 2147483647;

fn all_distinct(xs: &[i64]) -> bool {
    let mut sorted = xs.to_vec();
    sorted.sort();
    sorted.windows(2).all(|w| w[0] != w[1])
}

#[test]
fn threshold_above_the_number_of_shares_is_invalid() {
    let f = Field::new(MERSENNE).unwrap();
    let mut rng = StdRng::seed_from_u64(1);
    assert_eq!(get_shares(&f, &mut rng, 3, 5, 42), Err(Error::InvalidParameters));
}

#[test]
fn threshold_below_one_is_invalid() {
    let f = Field::new(MERSENNE).unwrap();
    let mut rng = StdRng::seed_from_u64(2);
    assert_eq!(get_shares(&f, &mut rng, 3, 0, 42), Err(Error::InvalidParameters));
    assert_eq!(get_shares(&f, &mut rng, 3, -1, 42), Err(Error::InvalidParameters));
    assert_eq!(get_shares(&f, &mut rng, 0, 0, 42), Err(Error::InvalidParameters));
    assert_eq!(get_shares(&f, &mut rng, -4, -5, 42), Err(Error::InvalidParameters));
}

#[test]
fn more_shares_than_points_is_invalid() {
    let f = Field::new(7).unwrap();
    let mut rng = StdRng::seed_from_u64(3);
    assert_eq!(get_shares(&f, &mut rng, 7, 2, 3), Err(Error::InvalidParameters));
    assert_eq!(get_shares(&f, &mut rng, 100, 2, 3), Err(Error::InvalidParameters));
    assert!(get_shares(&f, &mut rng, 6, 2, 3).is_ok());
}

#[test]
fn a_secret_outside_the_field_is_invalid() {
    let f = Field::new(7).unwrap();
    let mut rng = StdRng::seed_from_u64(4);
    assert_eq!(get_shares(&f, &mut rng, 3, 2, 7), Err(Error::InvalidParameters));
    assert_eq!(get_shares(&f, &mut rng, 3, 2, -1), Err(Error::InvalidParameters));
    assert!(get_shares(&f, &mut rng, 3, 2, 6).is_ok());
    assert!(get_shares(&f, &mut rng, 3, 2, 0).is_ok());
}

#[test]
fn six_shares_with_threshold_three() {
    let f = Field::new(MERSENNE).unwrap();
    let mut rng = StdRng::seed_from_u64(1234);
    let shares = get_shares(&f, &mut rng, 6, 3, 1234).unwrap();
    assert_eq!(shares.len(), 6);
    let mut wrong_pairs = 0;
    let mut pairs = 0;
    for a in 0..6 {
        for b in (a + 1)..6 {
            pairs += 1;
            if reconstruct_secret(&f, vec![shares[a], shares[b]]) != Ok(1234) {
                wrong_pairs += 1;
            }
            for c in (b + 1)..6 {
                assert_eq!(reconstruct_secret(&f, vec![shares[a], shares[b], shares[c]]), Ok(1234));
                assert_eq!(reconstruct_secret(&f, vec![shares[c], shares[a], shares[b]]), Ok(1234));
            }
        }
    }
    assert_eq!(pairs, 15);
    assert!(wrong_pairs > 0);
    assert_eq!(reconstruct_secret(&f, shares), Ok(1234));
}

#[test]
fn round_trip_over_many_parameters() {
    let f = Field::new(MERSENNE).unwrap();
    let mut rng = StdRng::seed_from_u64(99);
    let secrets = [0i64, 1, 42, 1234, 2147483646];
    for n in 1i64..9 {
        for t in 1..=n {
            for &secret in secrets.iter() {
                let shares = get_shares(&f, &mut rng, n, t, secret).unwrap();
                assert_eq!(shares.len() as i64, n);
                let first: Vec<Share> = shares[..t as usize].to_vec();
                let last: Vec<Share> = shares[(n - t) as usize..].to_vec();
                assert_eq!(reconstruct_secret(&f, first), Ok(secret));
                assert_eq!(reconstruct_secret(&f, last), Ok(secret));
                assert_eq!(reconstruct_secret(&f, shares), Ok(secret));
            }
        }
    }
}

#[test]
fn round_trip_in_a_small_field() {
    let f = Field::new(7).unwrap();
    let mut rng = StdRng::seed_from_u64(5);
    for secret in 0i64..7 {
        for t in 1i64..=6 {
            let shares = get_shares(&f, &mut rng, 6, t, secret).unwrap();
            let chosen: Vec<Share> = shares[..t as usize].to_vec();
            assert_eq!(reconstruct_secret(&f, chosen), Ok(secret));
        }
    }
}

#[test]
fn threshold_one_gives_the_secret_in_every_share() {
    let f = Field::new(MERSENNE).unwrap();
    let mut rng = StdRng::seed_from_u64(6);
    let shares = get_shares(&f, &mut rng, 5, 1, 777).unwrap();
    for s in shares.iter() {
        assert_eq!(s.y, 777);
        assert_eq!(reconstruct_secret(&f, vec![*s]), Ok(777));
    }
}

#[test]
fn abscissae_are_distinct_and_not_zero() {
    let f = Field::new(MERSENNE).unwrap();
    let mut rng = StdRng::seed_from_u64(7);
    for n in [1i64, 2, 3, 10, 100, 1000] {
        let shares = get_shares(&f, &mut rng, n, 1, 5).unwrap();
        let xs: Vec<i64> = shares.iter().map(|s| s.x).collect();
        assert_eq!(xs.len() as i64, n);
        assert!(all_distinct(&xs));
        assert!(xs.iter().all(|&x| 1 <= x && x < MERSENNE));
    }
}

#[test]
fn abscissae_are_distinct_where_the_range_is_narrow() {
    let f = Field::new(101).unwrap();
    for seed in 0u64..50 {
        let mut rng = StdRng::seed_from_u64(seed);
        let shares = get_shares(&f, &mut rng, 100, 3, 9).unwrap();
        let mut xs: Vec<i64> = shares.iter().map(|s| s.x).collect();
        xs.sort();
        let expected: Vec<i64> = (1..=100).collect();
        assert_eq!(xs, expected);
    }
}

#[test]
fn shares_are_field_elements_on_one_polynomial() {
    let f = Field::new(1613).unwrap();
    let mut rng = StdRng::seed_from_u64(8);
    let shares = get_shares(&f, &mut rng, 20, 4, 1000).unwrap();
    for s in shares.iter() {
        assert!(1 <= s.x && s.x < 1613);
        assert!(0 <= s.y && s.y < 1613);
    }
    // any four fix the polynomial, and with it the secret
    for start in 0..17 {
        let chosen: Vec<Share> = shares[start..start + 4].to_vec();
        assert_eq!(reconstruct_secret(&f, chosen), Ok(1000));
    }
}

#[test]
fn distinct_points_fill_the_field() {
    let f = Field::new(7).unwrap();
    for seed in 0u64..100 {
        let mut rng = StdRng::seed_from_u64(seed);
        let mut xs = distinct_points(&f, &mut rng, 6).unwrap();
        xs.sort();
        assert_eq!(xs, vec![1, 2, 3, 4, 5, 6]);
    }
}

#[test]
fn distinct_points_reject_a_count_that_does_not_fit() {
    let f = Field::new(7).unwrap();
    let mut rng = StdRng::seed_from_u64(9);
    assert_eq!(distinct_points(&f, &mut rng, 7), Err(Error::InvalidParameters));
    assert_eq!(distinct_points(&f, &mut rng, -1), Err(Error::InvalidParameters));
    assert_eq!(distinct_points(&f, &mut rng, 0), Ok(Vec::new()));
}

#[test]
fn distinct_points_vary() {
    // a source that handed back one end of the range would give one sample
    let f = Field::new(MERSENNE).unwrap();
    let mut rng = StdRng::seed_from_u64(10);
    let a = distinct_points(&f, &mut rng, 20).unwrap();
    let b = distinct_points(&f, &mut rng, 20).unwrap();
    assert!(all_distinct(&a));
    assert!(all_distinct(&b));
    assert_ne!(a, b);
    assert!(a.iter().any(|&x| x != 1));
}

#[test]
fn coefficients_end_in_the_secret() {
    let f = Field::new(MERSENNE).unwrap();
    let mut rng = StdRng::seed_from_u64(11);
    for t in 1i64..20 {
        let coeffs = get_coefficients(&f, &mut rng, t, 554).unwrap();
        assert_eq!(coeffs.len() as i64, t);
        assert_eq!(*coeffs.last().unwrap(), 554);
        assert!(coeffs.iter().all(|&c| 0 <= c && c < MERSENNE));
    }
}

#[test]
fn coefficients_vary() {
    // a source that handed back one end of the range would give zeros, or the modulus
    let f = Field::new(MERSENNE).unwrap();
    let mut rng = StdRng::seed_from_u64(12);
    let coeffs = get_coefficients(&f, &mut rng, 50, 0).unwrap();
    assert!(coeffs[..49].iter().any(|&c| c != 0));
    assert!(coeffs.iter().all(|&c| c != MERSENNE));
    assert!(!all_equal(&coeffs[..49]));
}

fn all_equal(xs: &[i64]) -> bool {
    xs.windows(2).all(|w| w[0] == w[1])
}

#[test]
fn coefficients_reject_bad_parameters() {
    let f = Field::new(7).unwrap();
    let mut rng = StdRng::seed_from_u64(13);
    assert_eq!(get_coefficients(&f, &mut rng, 0, 3), Err(Error::InvalidParameters));
    assert_eq!(get_coefficients(&f, &mut rng, -2, 3), Err(Error::InvalidParameters));
    assert_eq!(get_coefficients(&f, &mut rng, 2, 7), Err(Error::InvalidParameters));
    assert_eq!(get_coefficients(&f, &mut rng, 2, -1), Err(Error::InvalidParameters));
    assert_eq!(get_coefficients(&f, &mut rng, 1, 3), Ok(vec![3]));
}

#[test]
fn shares_at_given_points() {
    let f = Field::new(1613).unwrap();
    let shares = shares_at(&f, &[94, 166, 1234], &[1, 2, 3, 4, 5, 6]);
    let expected: Vec<Share> = [1494i64, 329, 965, 176, 1188, 775]
        .iter()
        .enumerate()
        .map(|(i, &y)| Share { x: i as i64 + 1, y })
        .collect();
    assert_eq!(shares, expected);
    assert_eq!(shares_at(&f, &[94, 166, 1234], &[]), Vec::new());
}

#[test]
fn shares_at_agree_with_the_polynomial() {
    let f = Field::new(MERSENNE).unwrap();
    let coeffs = [5i64, 0, 17, 3];
    let xs = [9i64, 1, 2147483646, 12345];
    let shares = shares_at(&f, &coeffs, &xs);
    assert_eq!(shares.len(), 4);
    for (s, &x) in shares.iter().zip(xs.iter()) {
        assert_eq!(s.x, x);
        assert_eq!(s.y, get_polynomial_value(&f, x, &coeffs));
    }
}

#[test]
fn pick_unused_prefers_the_candidate() {
    assert_eq!(pick_unused(&[3, 5, 8], 4, 9), 4);
    assert_eq!(pick_unused(&[3, 5, 8], 5, 9), 9);
    assert_eq!(pick_unused(&[], 5, 9), 5);
    assert_eq!(pick_unused(&[5], 5, 6), 6);
}

#[test]
fn contains_value_finds_what_is_there() {
    assert!(contains_value(&[3, 5, 8], 3));
    assert!(contains_value(&[3, 5, 8], 8));
    assert!(!contains_value(&[3, 5, 8], 4));
    assert!(!contains_value(&[], 4));
}
