//! Nearest-mean assignment and loss scoring.
use vstd::prelude::*;
use crate::model::{
    assignment, dim_of, dist2, dist2_upto, loss, loss_upto, nearest, nearest_upto, points, sq,
    valid_point, valid_points, well_formed, COORD_LIMIT, MAX_DIM,
};

verus! {

/// Bound of one squared coordinate difference: `(2 * COORD_LIMIT)^2`.
pub const DIFF2_LIMIT: u64 = 1125899906842624;

/// Bound of one squared distance: `MAX_DIM * DIFF2_LIMIT`.
pub const DIST2_LIMIT: u64 = 4611686018427387904;

/// A squared distance is non-negative and at most `n * DIFF2_LIMIT`.
pub proof fn lemma_dist2_upto_bounds(a: Seq<i64>, b: Seq<i64>, n: nat, dim: nat)
    requires
        valid_point(a, dim),
        valid_point(b, dim),
        n <= dim,
    ensures
        0 <= dist2_upto(a, b, n) <= n * DIFF2_LIMIT,
    decreases n,
{
    if n > 0 {
        lemma_dist2_upto_bounds(a, b, (n - 1) as nat, dim);
        let x = a[n - 1] - b[n - 1];
        assert(-COORD_LIMIT <= a[n - 1] <= COORD_LIMIT);
        assert(-COORD_LIMIT <= b[n - 1] <= COORD_LIMIT);
        assert(0 <= sq(x) <= DIFF2_LIMIT) by (nonlinear_arith)
            requires
                -33554432 <= x <= 33554432,
        ;
        assert((n - 1) * DIFF2_LIMIT + DIFF2_LIMIT == n * DIFF2_LIMIT) by (nonlinear_arith);
    }
}

/// A squared distance between valid points is within `[0, DIST2_LIMIT]`.
pub proof fn lemma_dist2_bounds(a: Seq<i64>, b: Seq<i64>, dim: nat)
    requires
        valid_point(a, dim),
        valid_point(b, dim),
        dim <= MAX_DIM,
    ensures
        0 <= dist2(a, b) <= DIST2_LIMIT,
{
    lemma_dist2_upto_bounds(a, b, dim, dim);
    assert(dim * DIFF2_LIMIT <= MAX_DIM * DIFF2_LIMIT) by (nonlinear_arith)
        requires
            dim <= MAX_DIM,
    ;
}

/// The nearest index is one of the means.
pub proof fn lemma_nearest_upto_range(means: Seq<Seq<i64>>, p: Seq<i64>, j: nat)
    requires
        j >= 1,
    ensures
        nearest_upto(means, p, j) < j,
    decreases j,
{
    if j > 1 {
        lemma_nearest_upto_range(means, p, (j - 1) as nat);
    }
}

/// Every label of the nearest-mean assignment is below the number of means.
pub proof fn lemma_assignment_in_range(means: Seq<Seq<i64>>, data: Seq<Seq<i64>>)
    requires
        means.len() > 0,
    ensures
        forall|i: int|
            0 <= i < data.len() ==> #[trigger] assignment(means, data)[i] < means.len(),
{
    assert forall|i: int| 0 <= i < data.len() implies #[trigger] assignment(means, data)[i]
        < means.len() by {
        lemma_nearest_upto_range(means, data[i], means.len());
    }
}

/// Squared Euclidean distance between two points of one dimension.
pub fn squared_distance(a: &Vec<i64>, b: &Vec<i64>) -> (r: u64)
    requires
        valid_point(a@, a@.len()),
        valid_point(b@, a@.len()),
        a@.len() <= MAX_DIM,
    ensures
        r == dist2(a@, b@),
{
    let mut acc: u64 = 0;
    let mut j: usize = 0;
    while j < a.len()
        invariant
            j <= a@.len(),
            a@.len() == b@.len(),
            a@.len() <= MAX_DIM,
            valid_point(a@, a@.len()),
            valid_point(b@, a@.len()),
            acc == dist2_upto(a@, b@, j as nat),
            acc <= j * DIFF2_LIMIT,
        decreases a@.len() - j,
    {
        let x: i64 = a[j] - b[j];
        proof {
            assert(-COORD_LIMIT <= a@[j as int] <= COORD_LIMIT);
            assert(-COORD_LIMIT <= b@[j as int] <= COORD_LIMIT);
            assert(0 <= x * x <= DIFF2_LIMIT) by (nonlinear_arith)
                requires
                    -33554432 <= x <= 33554432,
            ;
            assert(j * DIFF2_LIMIT + DIFF2_LIMIT == (j + 1) * DIFF2_LIMIT) by (nonlinear_arith);
            assert((j + 1) * DIFF2_LIMIT <= MAX_DIM * DIFF2_LIMIT) by (nonlinear_arith)
                requires
                    j + 1 <= MAX_DIM,
            ;
        }
        let x2: i64 = x * x;
        acc = acc + x2 as u64;
        j = j + 1;
    }
    acc
}

/// Index of the nearest mean to `p` (the lowest index on ties) and its squared distance.
pub fn nearest_mean(means: &Vec<Vec<i64>>, p: &Vec<i64>) -> (r: (usize, u64))
    requires
        means@.len() > 0,
        valid_points(points(means@), p@.len()),
        valid_point(p@, p@.len()),
        p@.len() <= MAX_DIM,
    ensures
        r.0 == nearest(points(means@), p@),
        r.0 < means@.len(),
        r.1 == dist2(points(means@)[r.0 as int], p@),
{
    let ghost ms = points(means@);
    proof {
        assert(valid_point(ms[0], p@.len()));
    }
    let mut min_j: usize = 0;
    let mut min_d: u64 = squared_distance(&means[0], p);
    let mut j: usize = 1;
    while j < means.len()
        invariant
            1 <= j <= means@.len(),
            ms == points(means@),
            valid_points(ms, p@.len()),
            valid_point(p@, p@.len()),
            p@.len() <= MAX_DIM,
            min_j == nearest_upto(ms, p@, j as nat),
            min_j < j,
            min_d == dist2(ms[min_j as int], p@),
        decreases means@.len() - j,
    {
        proof {
            assert(valid_point(ms[j as int], p@.len()));
            lemma_dist2_symmetric(ms[j as int], p@);
        }
        let d = squared_distance(p, &means[j]);
        if d < min_d {
            min_j = j;
            min_d = d;
        }
        j = j + 1;
    }
    (min_j, min_d)
}

/// Squared distance does not depend on the order of its arguments.
pub proof fn lemma_dist2_symmetric(a: Seq<i64>, b: Seq<i64>)
    requires
        a.len() == b.len(),
    ensures
        dist2(a, b) == dist2(b, a),
{
    lemma_dist2_upto_symmetric(a, b, a.len());
}

proof fn lemma_dist2_upto_symmetric(a: Seq<i64>, b: Seq<i64>, n: nat)
    ensures
        dist2_upto(a, b, n) == dist2_upto(b, a, n),
    decreases n,
{
    if n > 0 {
        lemma_dist2_upto_symmetric(a, b, (n - 1) as nat);
        assert(sq(a[n - 1] - b[n - 1]) == sq(b[n - 1] - a[n - 1])) by (nonlinear_arith);
    }
}

/// Assigns every point to its nearest mean (the lowest index on ties) and
/// returns the loss of the new assignment.
pub fn assign_data_to_clusters(
    means: &Vec<Vec<i64>>,
    data: &Vec<Vec<i64>>,
    labels: &mut Vec<usize>,
) -> (r: u128)
    requires
        means@.len() > 0,
        well_formed(points(data@)),
        valid_points(points(means@), dim_of(points(data@))),
        old(labels)@.len() == data@.len(),
    ensures
        final(labels)@ == assignment(points(means@), points(data@)),
        r == loss(points(means@), points(data@), final(labels)@),
{
    let ghost ms = points(means@);
    let ghost ds = points(data@);
    let ghost target = assignment(ms, ds);
    let mut acc: u128 = 0;
    let mut i: usize = 0;
    while i < data.len()
        invariant
            i <= data@.len(),
            means@.len() > 0,
            ms == points(means@),
            ds == points(data@),
            target == assignment(ms, ds),
            well_formed(ds),
            valid_points(ms, dim_of(ds)),
            labels@.len() == data@.len(),
            forall|x: int| 0 <= x < i ==> labels@[x] == target[x],
            acc == loss_upto(ms, ds, target, i as nat),
            acc <= i * (DIST2_LIMIT as int),
        decreases data@.len() - i,
    {
        proof {
            assert(valid_point(ds[i as int], dim_of(ds)));
            assert(ds[0].len() == dim_of(ds));
        }
        let (j, d) = nearest_mean(means, &data[i]);
        proof {
            assert(valid_point(ms[j as int], dim_of(ds)));
            lemma_dist2_bounds(ms[j as int], ds[i as int], dim_of(ds));
            assert(i * (DIST2_LIMIT as int) + DIST2_LIMIT == (i + 1) * (DIST2_LIMIT as int))
                by (nonlinear_arith);
            assert((i + 1) * (DIST2_LIMIT as int) <= 18446744073709551616 * 4611686018427387904)
                by (nonlinear_arith)
                requires
                    i + 1 <= 18446744073709551616int,
            ;
        }
        labels.set(i, j);
        acc = acc + d as u128;
        i = i + 1;
    }
    proof {
        assert(labels@ =~= target);
    }
    acc
}

/// The loss of a given assignment: the sum of squared distances of every
/// point to its cluster's mean.
pub fn loss_clusters(means: &Vec<Vec<i64>>, data: &Vec<Vec<i64>>, labels: &Vec<usize>) -> (r:
    u128)
    requires
        well_formed(points(data@)),
        valid_points(points(means@), dim_of(points(data@))),
        labels@.len() == data@.len(),
        forall|i: int| 0 <= i < labels@.len() ==> #[trigger] labels@[i] < means@.len(),
    ensures
        r == loss(points(means@), points(data@), labels@),
{
    let ghost ms = points(means@);
    let ghost ds = points(data@);
    let mut acc: u128 = 0;
    let mut i: usize = 0;
    while i < data.len()
        invariant
            i <= data@.len(),
            ms == points(means@),
            ds == points(data@),
            well_formed(ds),
            valid_points(ms, dim_of(ds)),
            labels@.len() == data@.len(),
            forall|x: int| 0 <= x < labels@.len() ==> #[trigger] labels@[x] < means@.len(),
            acc == loss_upto(ms, ds, labels@, i as nat),
            acc <= i * (DIST2_LIMIT as int),
        decreases data@.len() - i,
    {
        let c = labels[i];
        proof {
            assert(labels@[i as int] < means@.len());
            assert(valid_point(ds[i as int], dim_of(ds)));
            assert(ds[0].len() == dim_of(ds));
            assert(valid_point(ms[c as int], dim_of(ds)));
            lemma_dist2_bounds(ms[c as int], ds[i as int], dim_of(ds));
            assert(i * (DIST2_LIMIT as int) + DIST2_LIMIT == (i + 1) * (DIST2_LIMIT as int))
                by (nonlinear_arith);
            assert((i + 1) * (DIST2_LIMIT as int) <= 18446744073709551616 * 4611686018427387904)
                by (nonlinear_arith)
                requires
                    i + 1 <= 18446744073709551616int,
            ;
        }
        let d = squared_distance(&means[c], &data[i]);
        acc = acc + d as u128;
        i = i + 1;
    }
    acc
}

} // verus!
