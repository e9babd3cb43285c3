//! What holds of sharing and reconstruction together: enough shares recover
//! the secret, and one share too few recovers it only by coincidence.

use crate::error::Error;
use crate::interpolation::{
    basis_at, basis_sum, lemma_cancel, lemma_difference_symmetric, lemma_interpolation,
    negated_product, polynomial,
};
use crate::modular::{
    is_prime, lemma_congruent_differences, lemma_congruent_products, lemma_congruent_sums,
    lemma_zero_product,
};
use crate::polynomial::{lemma_horner_is_poly_value, lemma_leading_zeros};
use crate::share::{
    abscissae, distinct_abscissae, interpolate_at_zero, is_sharing, lies_on, reconstruction,
    share_sum, Share,
};
use vstd::arithmetic::div_mod::*;
use vstd::arithmetic::mul::*;
use vstd::prelude::*;

verus! {

/// A sum over shares is, modulo `p`, the sum over their abscissae with any
/// weight that is congruent to the ordinate at each of them.
pub proof fn lemma_share_sum_is_basis_sum(
    part: Seq<Share>,
    nodes: Seq<int>,
    g: spec_fn(int) -> int,
    p: int,
)
    requires
        p > 0,
        forall|i: int|
            0 <= i < part.len() ==> (#[trigger] part[i]).y as int % p == g(part[i].x as int) % p,
    ensures
        share_sum(part, nodes, p) % p == basis_sum(abscissae(part), nodes, g, p) % p,
    decreases part.len(),
{
    if part.len() > 0 {
        let front = part.drop_last();
        let last = part.last();
        assert forall|i: int| 0 <= i < front.len() implies (#[trigger] front[i]).y as int % p
            == g(front[i].x as int) % p by {
            assert(front[i] == part[i]);
        }
        lemma_share_sum_is_basis_sum(front, nodes, g, p);
        assert(abscissae(part).drop_last() =~= abscissae(front));
        assert(abscissae(part).last() == last.x);
        assert(last == part[part.len() - 1]);
        let b = basis_at(nodes, last.x as int, p);
        lemma_congruent_products(last.y as int, g(last.x as int), b, b, p);
        lemma_congruent_sums(
            share_sum(front, nodes, p),
            basis_sum(abscissae(front), nodes, g, p),
            last.y * b,
            g(last.x as int) * b,
            p,
        );
    }
}

/// What interpolation makes of `k` shares of a polynomial with `k + 1`
/// coefficients: the constant term less the leading coefficient times the
/// product of the negated abscissae.
pub proof fn lemma_interpolated_value(shares: Seq<Share>, coeffs: Seq<int>, p: int)
    requires
        is_prime(p),
        coeffs.len() == shares.len() + 1,
        distinct_abscissae(shares, p),
        forall|i: int| 0 <= i < shares.len() ==> lies_on(#[trigger] shares[i], coeffs, p),
    ensures
        interpolate_at_zero(shares, p) == (coeffs.last() - coeffs[0] * negated_product(
            abscissae(shares),
        )) % p,
{
    let nodes = abscissae(shares);
    let g = polynomial(coeffs);
    assert forall|i: int| 0 <= i < shares.len() implies (#[trigger] shares[i]).y as int % p == g(
        shares[i].x as int,
    ) % p by {
        assert(lies_on(shares[i], coeffs, p));
        lemma_horner_is_poly_value(coeffs, shares[i].x as int);
    }
    lemma_share_sum_is_basis_sum(shares, nodes, g, p);
    lemma_interpolation(nodes, coeffs, p);
    lemma_mod_twice(share_sum(shares, nodes, p), p);
}

/// Round trip. From shares with distinct abscissae that lie on a polynomial
/// with `t` coefficients, `t` of them or more, reconstruction returns the
/// constant term of the polynomial.
pub proof fn lemma_enough_shares_recover(shares: Seq<Share>, coeffs: Seq<int>, p: int)
    requires
        is_prime(p),
        1 <= coeffs.len() <= shares.len(),
        distinct_abscissae(shares, p),
        forall|i: int| 0 <= i < shares.len() ==> lies_on(#[trigger] shares[i], coeffs, p),
    ensures
        reconstruction(shares, p) == Ok::<int, Error>(coeffs.last() % p),
{
    // the same polynomial, with zeros in front up to one coefficient more
    // than there are shares
    let zeros = Seq::new((shares.len() + 1 - coeffs.len()) as nat, |i: int| 0int);
    let padded = zeros + coeffs;
    assert(padded[0] == zeros[0]);
    assert(padded.last() == coeffs.last());
    assert forall|i: int| 0 <= i < shares.len() implies lies_on(
        #[trigger] shares[i],
        padded,
        p,
    ) by {
        let x = shares[i].x as int;
        assert(lies_on(shares[i], coeffs, p));
        lemma_leading_zeros(zeros, coeffs, x);
        lemma_horner_is_poly_value(coeffs, x);
        lemma_horner_is_poly_value(padded, x);
    }
    lemma_interpolated_value(shares, padded, p);
    assert(padded[0] * negated_product(abscissae(shares)) == 0) by (nonlinear_arith)
        requires
            padded[0] == 0,
    ;
}

/// Round trip, of what generation returns. Where `all` splits `secret` with
/// threshold `t`, any `t` or more of those shares, none taken twice,
/// reconstruct to the secret.
pub proof fn lemma_round_trip(all: Seq<Share>, chosen: Seq<Share>, secret: int, t: int, p: int)
    requires
        is_prime(p),
        0 <= secret < p,
        is_sharing(all, secret, t, p),
        distinct_abscissae(all, p),
        chosen.len() >= t,
        chosen.no_duplicates(),
        forall|i: int| 0 <= i < chosen.len() ==> all.contains(#[trigger] chosen[i]),
    ensures
        reconstruction(chosen, p) == Ok::<int, Error>(secret),
{
    let coeffs = choose|coeffs: Seq<int>|
        #![trigger coeffs.len()]
        coeffs.len() == t && t >= 1 && coeffs.last() == secret && forall|i: int|
            0 <= i < all.len() ==> lies_on(#[trigger] all[i], coeffs, p);
    assert forall|i: int| 0 <= i < chosen.len() implies lies_on(
        #[trigger] chosen[i],
        coeffs,
        p,
    ) by {
        assert(all.contains(chosen[i]));
        let k = choose|k: int| 0 <= k < all.len() && all[k] == chosen[i];
        assert(lies_on(all[k], coeffs, p));
    }
    let nodes = abscissae(chosen);
    let every = abscissae(all);
    assert forall|i: int, j: int| 0 <= i < j < nodes.len() implies (#[trigger] nodes[i]
        - #[trigger] nodes[j]) % p != 0 by {
        assert(all.contains(chosen[i]));
        assert(all.contains(chosen[j]));
        let a = choose|a: int| 0 <= a < all.len() && all[a] == chosen[i];
        let b = choose|b: int| 0 <= b < all.len() && all[b] == chosen[j];
        assert(chosen[i] != chosen[j]);
        assert(a != b);
        assert(every[a] == nodes[i] && every[b] == nodes[j]);
        if a < b {
            assert((every[a] - every[b]) % p != 0);
        } else {
            assert((every[b] - every[a]) % p != 0);
            lemma_difference_symmetric(every[a], every[b], p);
        }
    }
    lemma_enough_shares_recover(chosen, coeffs, p);
    lemma_small_mod(secret as nat, p as nat);
}

/// The product of negated nodes, none of them zero in the field, is not zero
/// in the field.
pub proof fn lemma_negated_product_not_zero(nodes: Seq<int>, p: int)
    requires
        is_prime(p),
        forall|i: int| 0 <= i < nodes.len() ==> #[trigger] nodes[i] % p != 0,
    ensures
        negated_product(nodes) % p != 0,
    decreases nodes.len(),
{
    if nodes.len() == 0 {
        lemma_small_mod(1, p as nat);
    } else {
        let front = nodes.drop_last();
        let u = nodes.last();
        assert forall|i: int| 0 <= i < front.len() implies #[trigger] front[i] % p != 0 by {
            assert(front[i] == nodes[i]);
        }
        lemma_negated_product_not_zero(front, p);
        assert(u == nodes[nodes.len() - 1]);
        assert((-u) % p != 0) by {
            lemma_mod_equivalence(0, u, p);
            lemma_mod_equivalence(u, 0, p);
            lemma_small_mod(0, p as nat);
            assert(0 - u == -u);
        }
        if (negated_product(front) * (-u)) % p == 0 {
            lemma_zero_product(negated_product(front), -u, p);
        }
    }
}

/// One share too few. From `t - 1` shares, with distinct abscissae other
/// than zero, of a polynomial with `t` coefficients, reconstruction returns
/// the constant term less the leading coefficient times the product of the
/// negated abscissae. So it returns the constant term exactly where the
/// leading coefficient, which no share shows, is zero in the field: any
/// other leading coefficient gives another result.
pub proof fn lemma_one_share_short(shares: Seq<Share>, coeffs: Seq<int>, p: int)
    requires
        is_prime(p),
        shares.len() >= 1,
        coeffs.len() == shares.len() + 1,
        distinct_abscissae(shares, p),
        forall|i: int| 0 <= i < shares.len() ==> lies_on(#[trigger] shares[i], coeffs, p),
        forall|i: int| 0 <= i < shares.len() ==> (#[trigger] shares[i]).x as int % p != 0,
    ensures
        reconstruction(shares, p) == Ok::<int, Error>(
            (coeffs.last() - coeffs[0] * negated_product(abscissae(shares))) % p,
        ),
        reconstruction(shares, p) == Ok::<int, Error>(coeffs.last() % p)
            <==> coeffs[0] % p == 0,
{
    let nodes = abscissae(shares);
    let np = negated_product(nodes);
    let lead = coeffs[0];
    let secret = coeffs.last();
    lemma_interpolated_value(shares, coeffs, p);
    assert forall|i: int| 0 <= i < nodes.len() implies #[trigger] nodes[i] % p != 0 by {
        assert(nodes[i] == shares[i].x);
    }
    lemma_negated_product_not_zero(nodes, p);
    lemma_mod_equivalence(secret, secret - lead * np, p);
    assert(secret - (secret - lead * np) == lead * np);
    if (lead * np) % p == 0 {
        lemma_zero_product(lead, np, p);
    }
    if lead % p == 0 {
        lemma_mul_mod_noop_left(lead, np, p);
        assert(0 * np == 0);
        lemma_small_mod(0, p as nat);
    }
}

/// One share too few, twice. Two polynomials with `t` coefficients and the
/// same constant term, each seen through `t - 1` shares at the same distinct
/// abscissae other than zero, reconstruct to the same result exactly where
/// their leading coefficients agree in the field: whatever changes the
/// leading coefficient changes the result.
pub proof fn lemma_leading_coefficient_decides(
    shares1: Seq<Share>,
    shares2: Seq<Share>,
    coeffs1: Seq<int>,
    coeffs2: Seq<int>,
    p: int,
)
    requires
        is_prime(p),
        shares1.len() >= 1,
        abscissae(shares1) == abscissae(shares2),
        coeffs1.len() == shares1.len() + 1,
        coeffs2.len() == coeffs1.len(),
        coeffs1.last() % p == coeffs2.last() % p,
        distinct_abscissae(shares1, p),
        forall|i: int| 0 <= i < shares1.len() ==> lies_on(#[trigger] shares1[i], coeffs1, p),
        forall|i: int| 0 <= i < shares2.len() ==> lies_on(#[trigger] shares2[i], coeffs2, p),
        forall|i: int| 0 <= i < shares1.len() ==> (#[trigger] shares1[i]).x as int % p != 0,
    ensures
        reconstruction(shares1, p) == reconstruction(shares2, p) <==> coeffs1[0] % p
            == coeffs2[0] % p,
{
    let nodes = abscissae(shares1);
    let np = negated_product(nodes);
    let (lead1, lead2) = (coeffs1[0], coeffs2[0]);
    let (last1, last2) = (coeffs1.last(), coeffs2.last());
    assert(shares2.len() == shares1.len()) by {
        assert(abscissae(shares2).len() == nodes.len());
    }
    lemma_interpolated_value(shares1, coeffs1, p);
    lemma_interpolated_value(shares2, coeffs2, p);
    assert forall|i: int| 0 <= i < nodes.len() implies #[trigger] nodes[i] % p != 0 by {
        assert(nodes[i] == shares1[i].x);
    }
    lemma_negated_product_not_zero(nodes, p);
    lemma_mul_is_commutative(lead1, np);
    lemma_mul_is_commutative(lead2, np);
    if lead1 % p == lead2 % p {
        lemma_congruent_products(lead1, lead2, np, np, p);
        lemma_congruent_differences(last1, last2, lead1 * np, lead2 * np, p);
    }
    if (last1 - lead1 * np) % p == (last2 - lead2 * np) % p {
        lemma_congruent_differences(last1, last2, last1 - lead1 * np, last2 - lead2 * np, p);
        assert(last1 - (last1 - lead1 * np) == lead1 * np);
        assert(last2 - (last2 - lead2 * np) == lead2 * np);
        lemma_cancel(np, lead1, lead2, p);
    }
}

} // verus!
