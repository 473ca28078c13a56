use crate::align::{edges_are_nonzero, edges_nonzero, lemma_listed_edges_nonzero};
use crate::fixed::{lemma_sqrt_is_not_negative, Fixed, SCALE};
use crate::kernel::{normalized_weights, total};
use crate::scalar::Scalar;
use crate::triangle::{
    describes, lemma_sorted3_holds_the_same, lists_triangles, normalized, point_distance, sorted3,
    Triangle,
};
use vstd::prelude::*;

verus! {

/// The sum of the raw values of the first `n` weights.
pub open spec fn raw_sum(weights: Seq<Fixed>, n: nat) -> int
    decreases n,
{
    if n == 0 {
        0
    } else {
        raw_sum(weights, (n - 1) as nat) + weights[n - 1].raw
    }
}

/// Whether no weight is negative.
pub open spec fn none_negative(weights: Seq<Fixed>) -> bool {
    forall|i: int| 0 <= i < weights.len() ==> (#[trigger] weights[i]).raw >= 0
}

/// The sum of weights of which none is negative grows with every weight.
pub proof fn lemma_raw_sum_grows(weights: Seq<Fixed>, k: nat, n: nat)
    requires
        none_negative(weights),
        k <= n <= weights.len(),
    ensures
        0 <= raw_sum(weights, k) <= raw_sum(weights, n),
    decreases n,
{
    if k < n {
        lemma_raw_sum_grows(weights, k, (n - 1) as nat);
    } else if n > 0 {
        lemma_raw_sum_grows(weights, (k - 1) as nat, (n - 1) as nat);
    }
}

/// Where the exact sum of the weights is within the range, adding them one
/// after another never saturates: the total is the exact sum.
pub proof fn lemma_total_is_exact(weights: Seq<Fixed>, k: nat)
    requires
        none_negative(weights),
        k <= weights.len(),
        raw_sum(weights, weights.len()) <= i64::MAX,
    ensures
        total(weights, k).raw == raw_sum(weights, k),
    decreases k,
{
    if k > 0 {
        lemma_total_is_exact(weights, (k - 1) as nat);
        lemma_raw_sum_grows(weights, (k - 1) as nat, k);
        lemma_raw_sum_grows(weights, k, weights.len());
    }
}

/// The share of one weight in a sum: the weight divided by the sum, rounded
/// down to a whole number of raw units.
pub open spec fn share(weight: Fixed, sum: int) -> int {
    weight.raw * SCALE / sum
}

/// The share of a weight in a sum that holds it lies between nothing and
/// one whole, and it is what dividing the weight by the sum gives.
pub proof fn lemma_share_is_quotient(weight: Fixed, sum: Fixed)
    requires
        0 <= weight.raw <= sum.raw,
        0 < sum.raw,
    ensures
        weight.spec_over(sum).raw == share(weight, sum.raw as int),
        0 <= share(weight, sum.raw as int) <= SCALE,
        sum.raw * share(weight, sum.raw as int) <= weight.raw * SCALE,
        weight.raw * SCALE < sum.raw * share(weight, sum.raw as int) + sum.raw,
{
    let w = weight.raw as int;
    let t = sum.raw as int;
    let s = SCALE as int;
    assert(0 <= w * s <= t * s) by (nonlinear_arith)
        requires
            0 <= w <= t,
            s == 4294967296,
    ;
    vstd::arithmetic::div_mod::lemma_fundamental_div_mod(w * s, t);
    vstd::arithmetic::div_mod::lemma_mod_bound(w * s, t);
    vstd::arithmetic::div_mod::lemma_div_pos_is_pos(w * s, t);
    vstd::arithmetic::div_mod::lemma_div_is_ordered(w * s, t * s, t);
    vstd::arithmetic::div_mod::lemma_div_multiples_vanish(s, t);
    assert(s * t == t * s) by (nonlinear_arith);
}

/// The shares of the first `k` weights add up to the share of their sum,
/// short of less than one unit for each weight.
pub proof fn lemma_shares_add_up(weights: Seq<Fixed>, sum: Fixed, k: nat)
    requires
        none_negative(weights),
        k <= weights.len(),
        0 < sum.raw,
        sum.raw == raw_sum(weights, weights.len()),
    ensures
        raw_sum(normalized_weights(weights), k) >= 0,
        sum.raw * raw_sum(normalized_weights(weights), k) <= raw_sum(weights, k) * SCALE,
        raw_sum(weights, k) * SCALE <= sum.raw * raw_sum(normalized_weights(weights), k) + k
            * sum.raw,
    decreases k,
{
    let shares = normalized_weights(weights);
    let t = sum.raw as int;
    let s = SCALE as int;
    if k == 0 {
        assert(raw_sum(weights, 0) * s == 0) by (nonlinear_arith)
            requires
                raw_sum(weights, 0) == 0,
        ;
        assert(t * raw_sum(shares, 0) == 0) by (nonlinear_arith)
            requires
                raw_sum(shares, 0) == 0,
        ;
        assert(k * t == 0) by (nonlinear_arith)
            requires
                k == 0,
        ;
    } else {
        lemma_shares_add_up(weights, sum, (k - 1) as nat);
        let w = weights[k - 1];
        lemma_raw_sum_grows(weights, (k - 1) as nat, k);
        lemma_raw_sum_grows(weights, k, weights.len());
        lemma_total_is_exact(weights, weights.len());
        assert(total(weights, weights.len()) == sum);
        lemma_share_is_quotient(w, sum);
        let q = share(w, t);
        assert(shares[k - 1] == w.spec_over(sum));
        assert(shares[k - 1].raw == q);
        let a = raw_sum(weights, (k - 1) as nat);
        let b = raw_sum(shares, (k - 1) as nat);
        assert(t * (b + q) == t * b + t * q) by (nonlinear_arith);
        assert((a + w.raw) * s == a * s + w.raw * s) by (nonlinear_arith);
        assert(k * t == (k - 1) * t + t) by (nonlinear_arith);
    }
}

/// The weights of a kernel that was normalized in fixed-point numbers sum
/// to one whole, short of at most one unit in the last place for each
/// weight: dividing rounds every weight down by less than one unit.
///
/// It holds where no weight is negative and the sum of the weights is
/// positive and within the range.
pub proof fn lemma_normalized_weights_sum_to_one(weights: Seq<Fixed>)
    requires
        none_negative(weights),
        0 < raw_sum(weights, weights.len()) <= i64::MAX,
    ensures
        SCALE - weights.len() <= total(normalized_weights(weights), weights.len()).raw <= SCALE,
{
    let n = weights.len();
    let shares = normalized_weights(weights);
    let sum = Fixed { raw: raw_sum(weights, n) as i64 };
    let t = sum.raw as int;
    let s = SCALE as int;
    lemma_shares_add_up(weights, sum, n);
    let q = raw_sum(shares, n);
    assert(q <= s) by (nonlinear_arith)
        requires
            t * q <= t * s,
            t > 0,
    ;
    assert(q >= s - n) by (nonlinear_arith)
        requires
            t * s <= t * q + n * t,
            t > 0,
    ;
    assert(none_negative(shares)) by {
        lemma_total_is_exact(weights, n);
        assert forall|i: int| 0 <= i < shares.len() implies (#[trigger] shares[i]).raw >= 0 by {
            lemma_raw_sum_holds_each(weights, n, i);
            lemma_share_is_quotient(weights[i], sum);
        }
    }
    lemma_total_is_exact(shares, n);
}

/// A sum of weights of which none is negative is no smaller than any one of
/// them.
pub proof fn lemma_raw_sum_holds_each(weights: Seq<Fixed>, n: nat, i: int)
    requires
        none_negative(weights),
        0 <= i < n <= weights.len(),
    ensures
        weights[i].raw <= raw_sum(weights, n),
    decreases n,
{
    if i < n - 1 {
        lemma_raw_sum_holds_each(weights, (n - 1) as nat, i);
    } else {
        lemma_raw_sum_grows(weights, 0, (n - 1) as nat);
    }
}

/// In fixed-point numbers no distance between two feature points is
/// negative.
pub proof fn lemma_distance_is_not_negative(
    p: (usize, usize, Fixed),
    q: (usize, usize, Fixed),
    width: usize,
    height: usize,
)
    ensures
        point_distance(p, q, width, height).raw >= 0,
{
    let dx = normalized::<Fixed>(p.0, width).spec_minus(normalized::<Fixed>(q.0, width));
    let dy = normalized::<Fixed>(p.1, height).spec_minus(normalized::<Fixed>(q.1, height));
    lemma_sqrt_is_not_negative(dx.spec_times(dx).spec_plus(dy.spec_times(dy)));
}

/// In fixed-point numbers every edge of every listed descriptor is longer
/// than zero, where no two points of a triangle lie on the same place.
pub proof fn lemma_edges_are_positive(
    triangles: Seq<Triangle<Fixed>>,
    points: Seq<(usize, usize, Fixed)>,
    width: usize,
    height: usize,
    n: nat,
    m: int,
)
    requires
        lists_triangles(triangles, points, width, height, n),
        edges_are_nonzero(points, width, height, n),
        0 <= m < triangles.len(),
    ensures
        triangles[m].edge_lengths@[0].raw > 0,
        triangles[m].edge_lengths@[1].raw > 0,
        triangles[m].edge_lengths@[2].raw > 0,
{
    lemma_listed_edges_nonzero(triangles, points, width, height, n);
    let t = triangles[m];
    assert(edges_nonzero(t));
    let i = t.point_indices@[0] as int;
    let j = t.point_indices@[1] as int;
    let k = t.point_indices@[2] as int;
    assert(describes(t, points, width, height, i, j, k));
    let a = point_distance(points[i], points[j], width, height);
    let b = point_distance(points[j], points[k], width, height);
    let c = point_distance(points[i], points[k], width, height);
    lemma_distance_is_not_negative(points[i], points[j], width, height);
    lemma_distance_is_not_negative(points[j], points[k], width, height);
    lemma_distance_is_not_negative(points[i], points[k], width, height);
    lemma_sorted3_holds_the_same(a, b, c, 0);
    lemma_sorted3_holds_the_same(a, b, c, 1);
    lemma_sorted3_holds_the_same(a, b, c, 2);
    assert(t.edge_lengths@ == sorted3(a, b, c));
}

} // verus!
