//! Reconstruction of the secret from shares.

use crate::error::Error;
use crate::field::Field;
use crate::interpolation::{basis_at, factor};
use crate::modular::{inverse, is_inverse, lemma_inverse_unique};
use crate::share::{
    abscissae, distinct_abscissae, interpolate_at_zero, reconstruction, share_sum, Share,
};
use vstd::arithmetic::div_mod::*;
use vstd::prelude::*;

verus! {

/// Whether two of the shares have the same abscissa in the field.
pub fn has_duplicate_abscissa(field: &Field, shares: &[Share]) -> (b: bool)
    ensures
        b == !distinct_abscissae(shares@, field@),
{
    let p = field.modulus();
    let ghost nodes = abscissae(shares@);
    let mut j: usize = 0;
    while j < shares.len()
        invariant
            0 <= j <= shares.len(),
            p == field@,
            p >= 2,
            nodes == abscissae(shares@),
            forall|a: int, b: int|
                0 <= a < b < j ==> (#[trigger] nodes[a] - #[trigger] nodes[b]) % (p as int) != 0,
        decreases shares.len() - j,
    {
        let xj = field.reduce(shares[j].x);
        let mut i: usize = 0;
        while i < j
            invariant
                0 <= i <= j < shares.len(),
                p == field@,
                p >= 2,
                nodes == abscissae(shares@),
                xj == nodes[j as int] % (p as int),
                forall|a: int|
                    0 <= a < i ==> (#[trigger] nodes[a] - nodes[j as int]) % (p as int) != 0,
            decreases j - i,
        {
            let xi = field.reduce(shares[i].x);
            proof {
                lemma_mod_equivalence(nodes[i as int], nodes[j as int], p as int);
            }
            if xi == xj {
                return true;
            }
            i = i + 1;
        }
        j = j + 1;
    }
    false
}

/// The value at zero of the Lagrange basis polynomial of the abscissa `x`
/// among the abscissae of the shares, in the field.
pub fn basis_value(field: &Field, shares: &[Share], x: i64) -> (b: i64)
    ensures
        b == basis_at(abscissae(shares@), x as int, field@) % field@,
        0 <= b < field@,
{
    let p = field.modulus();
    let ghost nodes = abscissae(shares@);
    let mut basis: i64 = 1;
    let mut j: usize = 0;
    proof {
        lemma_small_mod(1, p as nat);
        assert(nodes.take(0) =~= Seq::<int>::empty());
    }
    while j < shares.len()
        invariant
            0 <= j <= shares.len(),
            p == field@,
            p >= 2,
            nodes == abscissae(shares@),
            basis == basis_at(nodes.take(j as int), x as int, p as int) % (p as int),
            0 <= basis < p,
        decreases shares.len() - j,
    {
        let u = shares[j].x;
        let d = field.minus(u, x);
        let ghost before = basis_at(nodes.take(j as int), x as int, p as int);
        proof {
            assert(nodes.take(j + 1).drop_last() =~= nodes.take(j as int));
            assert(nodes.take(j + 1).last() == u);
            assert(basis_at(nodes.take(j + 1), x as int, p as int) == before * factor(
                u as int,
                x as int,
                p as int,
            ));
        }
        match field.inverse(d) {
            Some(w) => {
                let f = field.times(u, w);
                let next = field.times(basis, f);
                proof {
                    // w inverts the difference itself, not only its residue
                    lemma_small_mod(d as nat, p as nat);
                    lemma_mul_mod_noop_left(u - x, w as int, p as int);
                    assert(is_inverse(u - x, w as int, p as int));
                    lemma_inverse_unique(u - x, w as int, p as int);
                    assert(f == factor(u as int, x as int, p as int) % (p as int));
                    lemma_mul_mod_noop(before, factor(u as int, x as int, p as int), p as int);
                }
                basis = next;
            },
            None => {
                proof {
                    lemma_small_mod(d as nat, p as nat);
                    assert(factor(u as int, x as int, p as int) == 1);
                    assert(before * 1 == before);
                }
            },
        }
        j = j + 1;
    }
    proof {
        assert(nodes.take(shares.len() as int) =~= nodes);
    }
    basis
}

/// Recovers the secret: the value at zero of the polynomial of least degree
/// through the shares. The caller offers at least as many shares as the
/// threshold under which they were made; with fewer the result is a residue
/// that has nothing to do with the secret.
pub fn reconstruct_secret(field: &Field, shares: Vec<Share>) -> (r: Result<i64, Error>)
    ensures
        reconstruction(shares@, field@) == match r {
            Ok(secret) => Ok::<int, Error>(secret as int),
            Err(e) => Err::<int, Error>(e),
        },
        r matches Ok(secret) ==> 0 <= secret < field@,
{
    let shares = shares.as_slice();
    if shares.len() == 0 {
        return Err(Error::InsufficientShares);
    }
    if has_duplicate_abscissa(field, shares) {
        return Err(Error::DuplicateXCoordinate);
    }
    let p = field.modulus();
    let ghost nodes = abscissae(shares@);
    let mut sum: i64 = 0;
    let mut i: usize = 0;
    proof {
        lemma_small_mod(0, p as nat);
        assert(shares@.take(0) =~= Seq::<Share>::empty());
    }
    while i < shares.len()
        invariant
            0 <= i <= shares.len(),
            p == field@,
            p >= 2,
            nodes == abscissae(shares@),
            sum == share_sum(shares@.take(i as int), nodes, p as int) % (p as int),
            0 <= sum < p,
        decreases shares.len() - i,
    {
        let share = shares[i];
        let b = basis_value(field, shares, share.x);
        let term = field.times(share.y, b);
        let next = field.plus(sum, term);
        proof {
            let before = share_sum(shares@.take(i as int), nodes, p as int);
            let exact = basis_at(nodes, share.x as int, p as int);
            assert(shares@.take(i + 1).drop_last() =~= shares@.take(i as int));
            assert(shares@.take(i + 1).last() == share);
            assert(share_sum(shares@.take(i + 1), nodes, p as int) == before + share.y * exact);
            lemma_mul_mod_noop_right(share.y as int, exact, p as int);
            lemma_add_mod_noop(before, share.y * exact, p as int);
            lemma_add_mod_noop(sum as int, term as int, p as int);
            lemma_small_mod(sum as nat, p as nat);
            lemma_small_mod(term as nat, p as nat);
        }
        sum = next;
        i = i + 1;
    }
    proof {
        assert(shares@.take(shares.len() as int) =~= shares@);
        assert(sum == interpolate_at_zero(shares@, p as int));
    }
    Ok(sum)
}

} // verus!
