use shamir::error::Error;
use shamir::field::Field;

fn field(p: i64) -> Field {
    Field::new(p).unwrap()
}

#[test]
fn new_accepts_primes() {
    for p in [2i64, 3, 5, 7, 1613, 65537, 2147483647, 4294967311, 1000000000039] {
        let f = Field::new(p);
        assert!(f.is_ok(), "{} is prime", p);
        assert_eq!(f.unwrap().modulus(), p);
    }
}

#[test]
fn new_rejects_what_is_not_prime() {
    for p in [i64::MIN, -7, -1, 0, 1, 4, 9, 15, 1611, 65536, 2147483649, 1000000000041] {
        assert!(matches!(Field::new(p), Err(Error::InvalidParameters)), "{} is not prime", p);
    }
}

#[test]
fn new_rejects_the_square_of_a_prime() {
    assert!(matches!(Field::new(46337 * 46337), Err(Error::InvalidParameters)));
    assert!(matches!(Field::new(25), Err(Error::InvalidParameters)));
}

#[test]
fn reduce_gives_the_euclidean_remainder() {
    let f = field(7);
    assert_eq!(f.reduce(0), 0);
    assert_eq!(f.reduce(6), 6);
    assert_eq!(f.reduce(7), 0);
    assert_eq!(f.reduce(8), 1);
    assert_eq!(f.reduce(-1), 6);
    assert_eq!(f.reduce(-7), 0);
    assert_eq!(f.reduce(-8), 6);
    assert_eq!(f.reduce(i64::MIN), 6);
    assert_eq!(f.reduce(i64::MAX), 0);
    let g = field(1000000000039);
    assert_eq!(g.reduce(i64::MIN), 963504935739);
    assert_eq!(g.reduce(i64::MAX), 36495064299);
    assert_eq!(g.reduce(-1), 1000000000038);
}

#[test]
fn reduce_agrees_with_rem_euclid() {
    let f = field(1613);
    for v in -5000i64..5000 {
        assert_eq!(f.reduce(v), v.rem_euclid(1613));
    }
}

#[test]
fn plus_minus_times_exact_values() {
    let f = field(1000000000039);
    assert_eq!(f.plus(999999999999, 888888888888), 888888888848);
    assert_eq!(f.minus(999999999999, 888888888888), 111111111111);
    assert_eq!(f.minus(888888888888, 999999999999), 888888888928);
    assert_eq!(f.times(999999999999, 888888888888), 444444445884);
    assert_eq!(f.times(i64::MIN, i64::MAX), 827304273341);
    let g = field(7);
    assert_eq!(g.times(-5, 3), 6);
    assert_eq!(g.plus(i64::MAX, i64::MAX), 0);
    assert_eq!(g.minus(i64::MIN, i64::MAX), 6);
}

#[test]
fn arithmetic_agrees_with_wide_integers() {
    let p = 2147483647i64;
    let f = field(p);
    let samples = [0i64, 1, 2, 46341, 2147483646, 2147483647, 2147483648, -1, -2147483647, 123456789012];
    for &a in samples.iter() {
        for &b in samples.iter() {
            let (wa, wb, wp) = (a as i128, b as i128, p as i128);
            assert_eq!(f.plus(a, b) as i128, (wa + wb).rem_euclid(wp));
            assert_eq!(f.minus(a, b) as i128, (wa - wb).rem_euclid(wp));
            assert_eq!(f.times(a, b) as i128, (wa * wb).rem_euclid(wp));
        }
    }
}

#[test]
fn inverse_exact_values() {
    let f = field(7);
    assert_eq!(f.inverse(1), Some(1));
    assert_eq!(f.inverse(2), Some(4));
    assert_eq!(f.inverse(3), Some(5));
    assert_eq!(f.inverse(6), Some(6));
    assert_eq!(f.inverse(-1), Some(6));
    assert_eq!(f.inverse(10), Some(5));
    let g = field(2147483647);
    assert_eq!(g.inverse(3), Some(1431655765));
    assert_eq!(g.inverse(1234567), Some(934930065));
    let h = field(1000000000039);
    assert_eq!(h.inverse(999999999999), Some(975000000038));
}

#[test]
fn zero_has_no_inverse() {
    let f = field(7);
    assert_eq!(f.inverse(0), None);
    assert_eq!(f.inverse(7), None);
    assert_eq!(f.inverse(-14), None);
}

#[test]
fn inverse_times_the_number_is_one() {
    let f = field(101);
    for a in 1i64..101 {
        let b = f.inverse(a).unwrap();
        assert!(0 < b && b < 101);
        assert_eq!(f.times(a, b), 1);
    }
    let g = field(2);
    assert_eq!(g.inverse(1), Some(1));
    assert_eq!(g.inverse(3), Some(1));
}
