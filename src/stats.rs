//! Exact integer totals over a list of distance records, from which the
//! count, mean and population standard deviation follow.
use crate::graph_algos::{DistancePair, GraphError};
use vstd::prelude::*;

verus! {

/// The count of a list of distances, their sum and the sum of their squares.
#[derive(Clone, Copy, Debug, PartialEq, Eq, Structural)]
pub struct DistanceTotals {
    pub count: usize,
    pub sum: u128,
    pub sum_of_squares: u128,
}

/// The sum of the distances of `r`.
pub open spec fn distance_sum(r: Seq<DistancePair>) -> int
    decreases r.len(),
{
    if r.len() == 0 {
        0
    } else {
        distance_sum(r.drop_last()) + r.last().distance
    }
}

/// The sum of the squared distances of `r`.
pub open spec fn distance_square_sum(r: Seq<DistancePair>) -> int
    decreases r.len(),
{
    if r.len() == 0 {
        0
    } else {
        distance_square_sum(r.drop_last()) + r.last().distance * r.last().distance
    }
}

proof fn lemma_totals_bounded(r: Seq<DistancePair>)
    ensures
        0 <= distance_sum(r) <= r.len() * (u32::MAX as int),
        0 <= distance_square_sum(r) <= r.len() * ((u32::MAX as int) * (u32::MAX as int)),
    decreases r.len(),
{
    if r.len() > 0 {
        lemma_totals_bounded(r.drop_last());
        let d = r.last().distance as int;
        let n = r.len() as int;
        assert(d * d <= (u32::MAX as int) * (u32::MAX as int)) by (nonlinear_arith)
            requires
                0 <= d <= u32::MAX as int,
        ;
        assert(n * (u32::MAX as int) == (n - 1) * (u32::MAX as int) + (u32::MAX as int)) by (nonlinear_arith);
        assert(n * ((u32::MAX as int) * (u32::MAX as int)) == (n - 1) * ((u32::MAX as int) * (
        u32::MAX as int)) + (u32::MAX as int) * (u32::MAX as int)) by (nonlinear_arith);
    }
}

/// Count, sum and sum of squares of the distances; an empty list is refused.
/// The mean is `sum / count` and the population variance
/// `(count * sum_of_squares - sum * sum) / (count * count)`.
pub fn calc_distance_totals(shortest_dists: &Vec<DistancePair>) -> (r: Result<
    DistanceTotals,
    GraphError,
>)
    ensures
        r is Err <==> shortest_dists@.len() == 0,
        r is Err ==> r == Err::<DistanceTotals, GraphError>(GraphError::EmptyAggregationInput),
        r matches Ok(t) ==> {
            &&& t.count == shortest_dists@.len()
            &&& t.sum == distance_sum(shortest_dists@)
            &&& t.sum_of_squares == distance_square_sum(shortest_dists@)
        },
{
    let num_distances = shortest_dists.len();
    if num_distances == 0 {
        return Err(GraphError::EmptyAggregationInput);
    }
    let mut total: u128 = 0;
    let mut squares: u128 = 0;
    let mut i: usize = 0;
    while i < num_distances
        invariant
            num_distances == shortest_dists@.len(),
            i <= num_distances,
            total == distance_sum(shortest_dists@.take(i as int)),
            squares == distance_square_sum(shortest_dists@.take(i as int)),
        decreases num_distances - i,
    {
        let ghost pre = shortest_dists@.take(i as int);
        let ghost cur = shortest_dists@.take(i + 1);
        assert(cur.drop_last() =~= pre);
        proof {
            lemma_totals_bounded(cur);
            assert(i + 1 <= usize::MAX);
            assert((i + 1) * (u32::MAX as int) <= (usize::MAX as int) * (u32::MAX as int)) by (
            nonlinear_arith)
                requires
                    0 <= i + 1 <= usize::MAX,
            ;
            assert((i + 1) * ((u32::MAX as int) * (u32::MAX as int)) <= (usize::MAX as int) * ((
            u32::MAX as int) * (u32::MAX as int))) by (nonlinear_arith)
                requires
                    0 <= i + 1 <= usize::MAX,
            ;
        }
        let d = shortest_dists[i].distance as u128;
        total = total + d;
        squares = squares + d * d;
        i = i + 1;
    }
    assert(shortest_dists@.take(num_distances as int) =~= shortest_dists@);
    Ok(DistanceTotals { count: num_distances, sum: total, sum_of_squares: squares })
}

} // verus!
