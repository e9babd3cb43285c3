//! Shares, and what reconstruction makes of a sequence of them.

use crate::error::Error;
use crate::interpolation::{basis_at, distinct_nodes};
use crate::polynomial::poly_value;
use vstd::prelude::*;

verus! {

/// One point of the polynomial that hides the secret.
#[derive(Clone, Copy, Debug, PartialEq, Eq, Structural)]
pub struct Share {
    /// The abscissa.
    pub x: i64,
    /// The value of the polynomial there.
    pub y: i64,
}

/// The abscissae of the shares, in their order.
pub open spec fn abscissae(shares: Seq<Share>) -> Seq<int> {
    Seq::new(shares.len(), |i: int| shares[i].x as int)
}

/// No two of the shares have abscissae that are congruent modulo `p`.
pub open spec fn distinct_abscissae(shares: Seq<Share>, p: int) -> bool {
    distinct_nodes(abscissae(shares), p)
}

/// The sum over the shares in `part` of the ordinate times the basis value
/// of the abscissa among `nodes`.
pub open spec fn share_sum(part: Seq<Share>, nodes: Seq<int>, p: int) -> int
    decreases part.len(),
{
    if part.len() == 0 {
        0
    } else {
        share_sum(part.drop_last(), nodes, p) + part.last().y * basis_at(
            nodes,
            part.last().x as int,
            p,
        )
    }
}

/// The value at zero of the polynomial of least degree through the shares,
/// as a residue modulo `p`.
pub open spec fn interpolate_at_zero(shares: Seq<Share>, p: int) -> int {
    share_sum(shares, abscissae(shares), p) % p
}

/// What reconstruction returns for the shares: nothing can be made of no
/// share at all, nor of shares that repeat an abscissa; any others
/// interpolate.
pub open spec fn reconstruction(shares: Seq<Share>, p: int) -> Result<int, Error> {
    if shares.len() == 0 {
        Err(Error::InsufficientShares)
    } else if !distinct_abscissae(shares, p) {
        Err(Error::DuplicateXCoordinate)
    } else {
        Ok(interpolate_at_zero(shares, p))
    }
}

/// The share is a point of the polynomial with the given coefficients,
/// modulo `p`.
pub open spec fn lies_on(share: Share, coeffs: Seq<int>, p: int) -> bool {
    share.y as int % p == poly_value(coeffs, share.x as int) % p
}

/// The shares split `secret` with threshold `t`: all of them lie on one
/// polynomial with `t` coefficients whose constant term is the secret.
pub open spec fn is_sharing(shares: Seq<Share>, secret: int, t: int, p: int) -> bool {
    exists|coeffs: Seq<int>|
        #![trigger coeffs.len()]
        coeffs.len() == t && t >= 1 && coeffs.last() == secret && forall|i: int|
            0 <= i < shares.len() ==> lies_on(#[trigger] shares[i], coeffs, p)
}

} // verus!
