//! Reconstruction does not depend on the order of the shares.

use crate::interpolation::{basis_at, factor, lemma_difference_symmetric};
use crate::modular::is_prime;
use crate::share::{abscissae, distinct_abscissae, reconstruction, share_sum, Share};
use vstd::arithmetic::mul::*;
use vstd::prelude::*;
use vstd::seq_lib::*;

verus! {

/// No share of `shares` has an abscissa congruent to `x`.
pub open spec fn avoids(shares: Seq<Share>, x: int, p: int) -> bool {
    forall|i: int| 0 <= i < shares.len() ==> ((#[trigger] shares[i]).x - x) % p != 0
}

/// The basis value with any one node split off.
pub proof fn lemma_basis_remove(nodes: Seq<int>, k: int, x: int, p: int)
    requires
        0 <= k < nodes.len(),
    ensures
        basis_at(nodes, x, p) == basis_at(nodes.remove(k), x, p) * factor(nodes[k], x, p),
    decreases nodes.len(),
{
    if k == nodes.len() - 1 {
        assert(nodes.remove(k) =~= nodes.drop_last());
    } else {
        let front = nodes.drop_last();
        lemma_basis_remove(front, k, x, p);
        assert(nodes.remove(k).drop_last() =~= front.remove(k));
        assert(nodes.remove(k).last() == nodes.last());
        let inner = basis_at(front.remove(k), x, p);
        let fk = factor(nodes[k], x, p);
        let fl = factor(nodes.last(), x, p);
        lemma_mul_is_associative(inner, fk, fl);
        lemma_mul_is_associative(inner, fl, fk);
        lemma_mul_is_commutative(fk, fl);
    }
}

/// The sum over shares with any one share split off.
pub proof fn lemma_share_sum_remove(part: Seq<Share>, k: int, nodes: Seq<int>, p: int)
    requires
        0 <= k < part.len(),
    ensures
        share_sum(part, nodes, p) == share_sum(part.remove(k), nodes, p) + part[k].y * basis_at(
            nodes,
            part[k].x as int,
            p,
        ),
    decreases part.len(),
{
    if k == part.len() - 1 {
        assert(part.remove(k) =~= part.drop_last());
    } else {
        let front = part.drop_last();
        lemma_share_sum_remove(front, k, nodes, p);
        assert(part.remove(k).drop_last() =~= front.remove(k));
        assert(part.remove(k).last() == part.last());
    }
}

/// The sum over shares depends on the nodes only through the basis values.
pub proof fn lemma_share_sum_same_basis(
    part: Seq<Share>,
    nodes1: Seq<int>,
    nodes2: Seq<int>,
    p: int,
)
    requires
        forall|x: int| basis_at(nodes1, x, p) == basis_at(nodes2, x, p),
    ensures
        share_sum(part, nodes1, p) == share_sum(part, nodes2, p),
    decreases part.len(),
{
    if part.len() > 0 {
        lemma_share_sum_same_basis(part.drop_last(), nodes1, nodes2, p);
    }
}

/// With the last share of `a` found in `b` at `k`, what is left of both
/// holds the same shares.
proof fn lemma_rest_same_shares(a: Seq<Share>, b: Seq<Share>, k: int)
    requires
        a.len() > 0,
        a.to_multiset() == b.to_multiset(),
        0 <= k < b.len(),
        b[k] == a.last(),
    ensures
        a.drop_last().to_multiset() == b.remove(k).to_multiset(),
{
    let front = a.drop_last();
    assert(front.push(a.last()) =~= a);
    to_multiset_build(front, a.last());
    to_multiset_remove(b, k);
    assert(front.to_multiset() =~= b.remove(k).to_multiset());
}

/// Where `a` is not empty and holds the same shares as `b`, the last share
/// of `a` stands somewhere in `b`.
proof fn lemma_last_is_found(a: Seq<Share>, b: Seq<Share>) -> (k: int)
    requires
        a.len() > 0,
        a.to_multiset() == b.to_multiset(),
    ensures
        0 <= k < b.len(),
        b[k] == a.last(),
{
    assert(a.contains(a.last())) by {
        assert(a[a.len() - 1] == a.last());
    }
    to_multiset_contains(a, a.last());
    to_multiset_contains(b, a.last());
    assert(b.contains(a.last()));
    choose|k: int| 0 <= k < b.len() && b[k] == a.last()
}

/// Sequences that hold the same shares are equally long.
proof fn lemma_same_length(a: Seq<Share>, b: Seq<Share>)
    requires
        a.to_multiset() == b.to_multiset(),
    ensures
        a.len() == b.len(),
{
    to_multiset_len(a);
    to_multiset_len(b);
}

/// The basis values do not depend on the order of the shares.
pub proof fn lemma_basis_reordered(a: Seq<Share>, b: Seq<Share>, x: int, p: int)
    requires
        a.to_multiset() == b.to_multiset(),
    ensures
        basis_at(abscissae(a), x, p) == basis_at(abscissae(b), x, p),
    decreases a.len(),
{
    lemma_same_length(a, b);
    if a.len() == 0 {
        assert(abscissae(a) =~= abscissae(b));
    } else {
        let k = lemma_last_is_found(a, b);
        lemma_rest_same_shares(a, b, k);
        lemma_basis_reordered(a.drop_last(), b.remove(k), x, p);
        lemma_basis_remove(abscissae(b), k, x, p);
        assert(abscissae(b).remove(k) =~= abscissae(b.remove(k)));
        assert(abscissae(a).drop_last() =~= abscissae(a.drop_last()));
        assert(abscissae(a).last() == a.last().x);
    }
}

/// A sum over shares does not depend on their order.
pub proof fn lemma_share_sum_reordered(a: Seq<Share>, b: Seq<Share>, nodes: Seq<int>, p: int)
    requires
        a.to_multiset() == b.to_multiset(),
    ensures
        share_sum(a, nodes, p) == share_sum(b, nodes, p),
    decreases a.len(),
{
    lemma_same_length(a, b);
    if a.len() > 0 {
        let k = lemma_last_is_found(a, b);
        lemma_rest_same_shares(a, b, k);
        lemma_share_sum_reordered(a.drop_last(), b.remove(k), nodes, p);
        lemma_share_sum_remove(b, k, nodes, p);
    }
}

/// Shares have distinct abscissae exactly where they have with one of them
/// taken out, and that one has an abscissa of its own.
pub proof fn lemma_distinct_remove(shares: Seq<Share>, k: int, p: int)
    requires
        p > 0,
        0 <= k < shares.len(),
    ensures
        distinct_abscissae(shares, p) <==> distinct_abscissae(shares.remove(k), p) && avoids(
            shares.remove(k),
            shares[k].x as int,
            p,
        ),
{
    let rest = shares.remove(k);
    let nodes = abscissae(shares);
    let others = abscissae(rest);
    if distinct_abscissae(shares, p) {
        assert forall|i: int, j: int| 0 <= i < j < others.len() implies (#[trigger] others[i]
            - #[trigger] others[j]) % p != 0 by {
            let i0 = if i < k { i } else { i + 1 };
            let j0 = if j < k { j } else { j + 1 };
            assert(others[i] == nodes[i0] && others[j] == nodes[j0]);
        }
        assert forall|i: int| 0 <= i < rest.len() implies ((#[trigger] rest[i]).x - shares[k].x)
            % p != 0 by {
            let i0 = if i < k { i } else { i + 1 };
            assert(rest[i].x == nodes[i0] && shares[k].x == nodes[k]);
            lemma_difference_symmetric(nodes[i0], nodes[k], p);
        }
    }
    if distinct_abscissae(rest, p) && avoids(rest, shares[k].x as int, p) {
        assert forall|i: int, j: int| 0 <= i < j < nodes.len() implies (#[trigger] nodes[i]
            - #[trigger] nodes[j]) % p != 0 by {
            let i1 = if i < k { i } else { i - 1 };
            let j1 = if j < k { j } else { j - 1 };
            if i == k {
                assert(rest[j1].x == nodes[j]);
                lemma_difference_symmetric(nodes[j], nodes[k], p);
            } else if j == k {
                assert(rest[i1].x == nodes[i]);
            } else {
                assert(others[i1] == nodes[i] && others[j1] == nodes[j]);
            }
        }
    }
}

/// Whether an abscissa is free does not depend on the order of the shares.
proof fn lemma_avoids_reordered(a: Seq<Share>, b: Seq<Share>, x: int, p: int)
    requires
        a.to_multiset() == b.to_multiset(),
        avoids(a, x, p),
    ensures
        avoids(b, x, p),
{
    assert forall|i: int| 0 <= i < b.len() implies ((#[trigger] b[i]).x - x) % p != 0 by {
        assert(b.contains(b[i]));
        to_multiset_contains(b, b[i]);
        to_multiset_contains(a, b[i]);
        let j = choose|j: int| 0 <= j < a.len() && a[j] == b[i];
        assert(((a[j]).x - x) % p != 0);
    }
}

/// Whether the abscissae are distinct does not depend on the order of the
/// shares.
pub proof fn lemma_distinct_reordered(a: Seq<Share>, b: Seq<Share>, p: int)
    requires
        p > 0,
        a.to_multiset() == b.to_multiset(),
    ensures
        distinct_abscissae(a, p) == distinct_abscissae(b, p),
    decreases a.len(),
{
    lemma_same_length(a, b);
    if a.len() > 0 {
        let k = lemma_last_is_found(a, b);
        let front = a.drop_last();
        let rest = b.remove(k);
        lemma_rest_same_shares(a, b, k);
        lemma_distinct_reordered(front, rest, p);
        assert(a.remove(a.len() - 1) =~= front);
        lemma_distinct_remove(a, a.len() - 1, p);
        lemma_distinct_remove(b, k, p);
        let x = a.last().x as int;
        if avoids(front, x, p) {
            lemma_avoids_reordered(front, rest, x, p);
        }
        if avoids(rest, x, p) {
            lemma_avoids_reordered(rest, front, x, p);
        }
    }
}

/// Order is irrelevant. Two sequences that hold the same shares, each as
/// often in one as in the other, reconstruct to the same result, or fail
/// alike.
pub proof fn lemma_order_is_irrelevant(a: Seq<Share>, b: Seq<Share>, p: int)
    requires
        is_prime(p),
        a.to_multiset() == b.to_multiset(),
    ensures
        reconstruction(a, p) == reconstruction(b, p),
{
    lemma_same_length(a, b);
    lemma_distinct_reordered(a, b, p);
    assert forall|x: int| basis_at(abscissae(a), x, p) == basis_at(abscissae(b), x, p) by {
        lemma_basis_reordered(a, b, x, p);
    }
    lemma_share_sum_same_basis(a, abscissae(a), abscissae(b), p);
    lemma_share_sum_reordered(a, b, abscissae(b), p);
}

} // verus!
