use shamir::error::Error;
use shamir::field::Field;
use shamir::reconstruct::{basis_value, has_duplicate_abscissa, reconstruct_secret};
use shamir::share::Share;

fn textbook() -> (Field, Vec<Share>) {
    // points of 94x^2 + 166x + 1234 modulo 1613
    let ys = [1494i64, 329, 965, 176, 1188, 775];
    let shares = ys.iter().enumerate().map(|(i, &y)| Share { x: i as i64 + 1, y }).collect();
    (Field::new(1613).unwrap(), shares)
}

#[test]
fn three_textbook_shares_recover_the_secret() {
    let (f, s) = textbook();
    assert_eq!(reconstruct_secret(&f, vec![s[0], s[1], s[2]]), Ok(1234));
    assert_eq!(reconstruct_secret(&f, vec![s[5], s[1], s[3]]), Ok(1234));
}

#[test]
fn every_subset_of_three_or_more_recovers_the_secret() {
    let (f, s) = textbook();
    for mask in 0u32..64 {
        let chosen: Vec<Share> = (0..6).filter(|i| mask & (1 << i) != 0).map(|i| s[i]).collect();
        if chosen.len() >= 3 {
            assert_eq!(reconstruct_secret(&f, chosen), Ok(1234));
        }
    }
}

#[test]
fn two_shares_of_a_quadratic_miss_the_secret_by_the_leading_term() {
    // 1234 - 94 * (-1) * (-2) modulo 1613
    let (f, s) = textbook();
    assert_eq!(reconstruct_secret(&f, vec![s[0], s[1]]), Ok(1046));
    assert_ne!(reconstruct_secret(&f, vec![s[2], s[4]]), Ok(1234));
}

#[test]
fn no_pair_of_textbook_shares_recovers_the_secret() {
    let (f, s) = textbook();
    for i in 0..6 {
        for j in 0..6 {
            if i != j {
                assert_ne!(reconstruct_secret(&f, vec![s[i], s[j]]), Ok(1234));
            }
        }
    }
}

#[test]
fn two_shares_recover_the_secret_where_the_leading_coefficient_is_zero() {
    // 0x^2 + 166x + 1234 modulo 1613
    let f = Field::new(1613).unwrap();
    let shares = vec![Share { x: 1, y: 1400 }, Share { x: 2, y: 1566 }];
    assert_eq!(reconstruct_secret(&f, shares), Ok(1234));
}

#[test]
fn one_share_gives_its_own_value() {
    let (f, s) = textbook();
    assert_eq!(reconstruct_secret(&f, vec![s[0]]), Ok(1494));
}

#[test]
fn no_share_is_insufficient() {
    let f = Field::new(1613).unwrap();
    assert_eq!(reconstruct_secret(&f, Vec::new()), Err(Error::InsufficientShares));
}

#[test]
fn equal_x_and_different_y_is_rejected() {
    let f = Field::new(1613).unwrap();
    let shares = vec![Share { x: 1, y: 10 }, Share { x: 1, y: 20 }];
    assert_eq!(reconstruct_secret(&f, shares), Err(Error::DuplicateXCoordinate));
}

#[test]
fn a_repeated_share_is_rejected() {
    let (f, s) = textbook();
    assert_eq!(
        reconstruct_secret(&f, vec![s[0], s[1], s[2], s[1]]),
        Err(Error::DuplicateXCoordinate)
    );
}

#[test]
fn congruent_abscissae_are_rejected() {
    let f = Field::new(1613).unwrap();
    let shares = vec![Share { x: 2, y: 329 }, Share { x: 3, y: 965 }, Share { x: 2 + 1613, y: 329 }];
    assert_eq!(reconstruct_secret(&f, shares), Err(Error::DuplicateXCoordinate));
    let negative = vec![Share { x: -1, y: 5 }, Share { x: 1612, y: 6 }];
    assert_eq!(reconstruct_secret(&f, negative), Err(Error::DuplicateXCoordinate));
}

#[test]
fn coordinates_stand_for_their_residues() {
    let f = Field::new(1613).unwrap();
    let shares =
        vec![Share { x: 1, y: 1494 - 1613 }, Share { x: 2 + 1613, y: 329 }, Share { x: 3, y: 965 }];
    assert_eq!(reconstruct_secret(&f, shares), Ok(1234));
}

#[test]
fn a_share_at_zero_gives_the_secret_away() {
    let f = Field::new(1613).unwrap();
    let shares = vec![Share { x: 0, y: 77 }, Share { x: 5, y: 3 }];
    assert_eq!(reconstruct_secret(&f, shares), Ok(77));
}

#[test]
fn reordering_does_not_change_the_result() {
    let (f, s) = textbook();
    let orders: [[usize; 3]; 6] = [[0, 2, 4], [0, 4, 2], [2, 0, 4], [2, 4, 0], [4, 0, 2], [4, 2, 0]];
    for order in orders.iter() {
        let chosen: Vec<Share> = order.iter().map(|&i| s[i]).collect();
        assert_eq!(reconstruct_secret(&f, chosen), Ok(1234));
    }
    let pair = reconstruct_secret(&f, vec![s[3], s[5]]);
    assert_eq!(reconstruct_secret(&f, vec![s[5], s[3]]), pair);
    assert_eq!(
        reconstruct_secret(&f, vec![s[1], s[0], s[1]]),
        reconstruct_secret(&f, vec![s[1], s[1], s[0]])
    );
}

#[test]
fn basis_values_of_three_nodes() {
    // nodes 1, 2, 3: the basis values at zero are 3, -3 and 1
    let (f, s) = textbook();
    let nodes = &s[0..3];
    assert_eq!(basis_value(&f, nodes, 1), 3);
    assert_eq!(basis_value(&f, nodes, 2), 1610);
    assert_eq!(basis_value(&f, nodes, 3), 1);
    assert_eq!(basis_value(&f, &[], 3), 1);
}

#[test]
fn duplicates_are_found() {
    let (f, s) = textbook();
    assert!(!has_duplicate_abscissa(&f, &s));
    assert!(!has_duplicate_abscissa(&f, &[]));
    assert!(!has_duplicate_abscissa(&f, &s[0..1]));
    assert!(has_duplicate_abscissa(&f, &[s[0], s[1], s[0]]));
    assert!(has_duplicate_abscissa(&f, &[Share { x: 0, y: 1 }, Share { x: 1613, y: 2 }]));
}

#[test]
fn two_shares_of_a_quadratic_fit_every_secret() {
    // whatever the third share holds, the first two are on the polynomial; the
    // constant terms of those polynomials are all the field
    let (f, s) = textbook();
    let mut seen = vec![false; 1613];
    for y in 0i64..1613 {
        let secret = reconstruct_secret(&f, vec![s[0], s[1], Share { x: 3, y }]).unwrap();
        seen[secret as usize] = true;
    }
    assert!(seen.iter().all(|&b| b));
}

#[test]
fn another_leading_coefficient_gives_another_result() {
    // 94x^2 + 166x + 1234 and 95x^2 + 166x + 1234 at 1 and 2, modulo 1613
    let f = Field::new(1613).unwrap();
    let one = vec![Share { x: 1, y: 1494 }, Share { x: 2, y: 329 }];
    let other = vec![Share { x: 1, y: 1495 }, Share { x: 2, y: 333 }];
    assert_eq!(reconstruct_secret(&f, one), Ok(1046));
    assert_eq!(reconstruct_secret(&f, other), Ok(1044));
}
