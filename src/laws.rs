//! Laws of the clustering engine, stated over the model.
use vstd::prelude::*;
use crate::model::{
    assignment, best_upto, centroid, centroids, count_upto, dim_of, dist2, dist2_upto,
    has_empty, loss, loss_upto, nearest, nearest_upto, outcome_loss, round_div, select, sq,
    sum_upto, trial, trials, valid_point, valid_points, well_formed, KmeansError, Outcome,
    COORD_LIMIT,
};

verus! {

/// The best of the first `n` outcomes succeeded, has the lowest loss of all
/// that succeeded, and every earlier success had a strictly larger loss;
/// there is none exactly when no outcome succeeded.
pub proof fn lemma_best_upto(os: Seq<Outcome>, n: nat)
    requires
        n <= os.len(),
    ensures
        best_upto(os, n) is None <==> forall|t: int| 0 <= t < n ==> !(#[trigger] os[t] is Ok),
        best_upto(os, n) matches Some(b) ==> {
            &&& b < n
            &&& os[b as int] is Ok
            &&& forall|t: int|
                0 <= t < n && #[trigger] os[t] is Ok ==> outcome_loss(os[b as int])
                    <= outcome_loss(os[t])
            &&& forall|t: int|
                0 <= t < b && #[trigger] os[t] is Ok ==> outcome_loss(os[t]) > outcome_loss(
                    os[b as int],
                )
        },
    decreases n,
{
    if n > 0 {
        lemma_best_upto(os, (n - 1) as nat);
        if best_upto(os, (n - 1) as nat) is None {
            if !(os[n - 1] is Ok) {
                assert forall|t: int| 0 <= t < n implies !(#[trigger] os[t] is Ok) by {
                    if t < n - 1 {
                    }
                }
            }
        }
    }
}

/// Best-of-N selection: the result is the outcome of one restart that
/// succeeded, its loss is the lowest among all restarts that succeeded, and
/// every earlier restart that succeeded had a strictly larger loss (ties keep
/// the earlier restart). Selection fails, with `EmptyCluster`, exactly when
/// every restart emptied a cluster.
pub proof fn best_of_restarts(data: Seq<Seq<i64>>, starts: Seq<Seq<usize>>)
    ensures
        select(data, starts) is Err <==> forall|t: int|
            0 <= t < starts.len() ==> #[trigger] trial(data, starts[t]) is Err,
        select(data, starts) is Err ==> select(data, starts) == Err::<
            (Seq<Seq<i64>>, Seq<usize>, int),
            KmeansError,
        >(KmeansError::EmptyCluster),
        select(data, starts) is Ok ==> exists|b: int|
            {
                &&& 0 <= b < starts.len()
                &&& select(data, starts) == #[trigger] trial(data, starts[b])
                &&& forall|t: int|
                    0 <= t < starts.len() && #[trigger] trial(data, starts[t]) is Ok
                        ==> outcome_loss(select(data, starts)) <= outcome_loss(trial(data, starts[t]))
                &&& forall|t: int|
                    0 <= t < b && #[trigger] trial(data, starts[t]) is Ok ==> outcome_loss(
                        trial(data, starts[t]),
                    ) > outcome_loss(select(data, starts))
            },
{
    let os = trials(data, starts);
    lemma_best_upto(os, os.len());
    assert forall|t: int| 0 <= t < starts.len() implies #[trigger] trial(data, starts[t]) == os[t] by {
    }
    if let Some(b) = best_upto(os, os.len()) {
        assert(select(data, starts) == trial(data, starts[b as int]));
    }
}

/// The nearest of the first `n` means is at least as near as each of them.
pub proof fn lemma_nearest_upto_min(means: Seq<Seq<i64>>, p: Seq<i64>, n: nat)
    requires
        n >= 1,
    ensures
        forall|j: int|
            0 <= j < n ==> dist2(means[nearest_upto(means, p, n) as int], p) <= dist2(
                #[trigger] means[j],
                p,
            ),
    decreases n,
{
    if n > 1 {
        lemma_nearest_upto_min(means, p, (n - 1) as nat);
    }
}

proof fn lemma_loss_upto_assignment(
    means: Seq<Seq<i64>>,
    data: Seq<Seq<i64>>,
    labels: Seq<usize>,
    n: nat,
)
    requires
        0 < means.len() <= usize::MAX,
        n <= data.len(),
        labels.len() == data.len(),
        forall|i: int| 0 <= i < labels.len() ==> #[trigger] labels[i] < means.len(),
    ensures
        loss_upto(means, data, assignment(means, data), n) <= loss_upto(means, data, labels, n),
    decreases n,
{
    if n > 0 {
        lemma_loss_upto_assignment(means, data, labels, (n - 1) as nat);
        let i = n - 1;
        lemma_nearest_upto_min(means, data[i], means.len());
        crate::assign::lemma_nearest_upto_range(means, data[i], means.len());
        assert(assignment(means, data)[i] as int == nearest(means, data[i]));
        assert(labels[i] < means.len());
    }
}

/// Reassignment never increases the loss: for fixed means, the nearest-mean
/// assignment has a loss no larger than that of any other assignment.
pub proof fn reassignment_never_increases_loss(
    means: Seq<Seq<i64>>,
    data: Seq<Seq<i64>>,
    labels: Seq<usize>,
)
    requires
        0 < means.len() <= usize::MAX,
        labels.len() == data.len(),
        forall|i: int| 0 <= i < labels.len() ==> #[trigger] labels[i] < means.len(),
    ensures
        loss(means, data, assignment(means, data)) <= loss(means, data, labels),
{
    lemma_loss_upto_assignment(means, data, labels, data.len());
}

/// Sum of `(m - x)^2` over coordinate `d` of the first `n` points labelled `c`.
spec fn sqsum(data: Seq<Seq<i64>>, labels: Seq<usize>, c: usize, d: int, m: int, n: nat) -> int
    decreases n,
{
    if n == 0 {
        0
    } else {
        sqsum(data, labels, c, d, m, (n - 1) as nat) + if labels[n - 1] == c {
            sq(m - data[n - 1][d])
        } else {
            0
        }
    }
}

/// Sum of `x^2` over coordinate `d` of the first `n` points labelled `c`.
spec fn sq_upto(data: Seq<Seq<i64>>, labels: Seq<usize>, c: usize, d: int, n: nat) -> int
    decreases n,
{
    if n == 0 {
        0
    } else {
        sq_upto(data, labels, c, d, (n - 1) as nat) + if labels[n - 1] == c {
            sq(data[n - 1][d] as int)
        } else {
            0
        }
    }
}

/// The part of the loss that cluster `c` contributes over its first `e` coordinates.
spec fn csum(
    means: Seq<Seq<i64>>,
    data: Seq<Seq<i64>>,
    labels: Seq<usize>,
    c: usize,
    e: nat,
    n: nat,
) -> int
    decreases e,
{
    if e == 0 {
        0
    } else {
        csum(means, data, labels, c, (e - 1) as nat, n) + sqsum(
            data,
            labels,
            c,
            e - 1,
            means[c as int][e - 1] as int,
            n,
        )
    }
}

/// The part of the loss that the first `kk` clusters contribute.
spec fn total(
    means: Seq<Seq<i64>>,
    data: Seq<Seq<i64>>,
    labels: Seq<usize>,
    kk: nat,
    dim: nat,
    n: nat,
) -> int
    decreases kk,
{
    if kk == 0 {
        0
    } else {
        total(means, data, labels, (kk - 1) as nat, dim, n) + csum(
            means,
            data,
            labels,
            (kk - 1) as usize,
            dim,
            n,
        )
    }
}

proof fn lemma_sqsum_expand(data: Seq<Seq<i64>>, labels: Seq<usize>, c: usize, d: int, m: int, n: nat)
    ensures
        sqsum(data, labels, c, d, m, n) == sq_upto(data, labels, c, d, n) - 2 * m * sum_upto(
            data,
            labels,
            c,
            d,
            n,
        ) + count_upto(labels, c, n) * m * m,
    decreases n,
{
    if n > 0 {
        lemma_sqsum_expand(data, labels, c, d, m, (n - 1) as nat);
        let a = sqsum(data, labels, c, d, m, (n - 1) as nat);
        let q = sq_upto(data, labels, c, d, (n - 1) as nat);
        let s = sum_upto(data, labels, c, d, (n - 1) as nat);
        let k = count_upto(labels, c, (n - 1) as nat) as int;
        let x = data[n - 1][d] as int;
        if labels[n - 1] == c {
            assert(sq(m - x) == (m - x) * (m - x));
            assert(sq(x) == x * x);
            assert(a + (m - x) * (m - x) == (q + x * x) - 2 * m * (s + x) + (k + 1) * m * m)
                by (nonlinear_arith)
                requires
                    a == q - 2 * m * s + k * m * m,
            ;
        }
    } else {
        assert(2 * m * 0 + 0 * m * m == 0) by (nonlinear_arith);
    }
}

/// Within one cluster and coordinate, the rounded mean has the least sum of squares.
proof fn lemma_sqsum_min(data: Seq<Seq<i64>>, labels: Seq<usize>, c: usize, d: int, m: int, n: nat)
    requires
        count_upto(labels, c, n) > 0,
    ensures
        sqsum(
            data,
            labels,
            c,
            d,
            round_div(sum_upto(data, labels, c, d, n), count_upto(labels, c, n) as int),
            n,
        ) <= sqsum(data, labels, c, d, m, n),
{
    let s = sum_upto(data, labels, c, d, n);
    let k = count_upto(labels, c, n) as int;
    let r = round_div(s, k);
    lemma_sqsum_expand(data, labels, c, d, m, n);
    lemma_sqsum_expand(data, labels, c, d, r, n);
    vstd::arithmetic::div_mod::lemma_fundamental_div_mod(2 * s + k, 2 * k);
    let e = (2 * s + k) % (2 * k);
    assert(2 * s + k == 2 * k * r + e);
    assert(0 <= e < 2 * k);
    let t = m - r;
    assert(k * m * m == k * r * r + 2 * k * r * t + k * t * t) by (nonlinear_arith)
        requires
            m == r + t,
    ;
    assert(2 * m * s == 2 * r * s + 2 * t * s) by (nonlinear_arith)
        requires
            m == r + t,
    ;
    assert(2 * t * s == 2 * k * r * t + e * t - k * t) by (nonlinear_arith)
        requires
            2 * s == 2 * k * r + e - k,
    ;
    assert(k * t * (t + 1) == k * t * t + k * t) by (nonlinear_arith);
    assert(k * m * m - 2 * m * s - (k * r * r - 2 * r * s) == k * t * (t + 1) - e * t);
    if t >= 1 {
        assert(k * t * (t + 1) - e * t >= 0) by (nonlinear_arith)
            requires
                t >= 1,
                k >= 1,
                0 <= e < 2 * k,
        ;
    } else if t <= -1 {
        assert(k * t * (t + 1) - e * t >= 0) by (nonlinear_arith)
            requires
                t <= -1,
                k >= 1,
                0 <= e,
        ;
    }
}

proof fn lemma_csum_step(
    means: Seq<Seq<i64>>,
    data: Seq<Seq<i64>>,
    labels: Seq<usize>,
    c: usize,
    e: nat,
    n: nat,
)
    requires
        n >= 1,
    ensures
        csum(means, data, labels, c, e, n) == csum(means, data, labels, c, e, (n - 1) as nat) + if labels[n
            - 1] == c {
            dist2_upto(means[c as int], data[n - 1], e)
        } else {
            0
        },
    decreases e,
{
    if e > 0 {
        lemma_csum_step(means, data, labels, c, (e - 1) as nat, n);
    }
}

proof fn lemma_total_step(
    means: Seq<Seq<i64>>,
    data: Seq<Seq<i64>>,
    labels: Seq<usize>,
    kk: nat,
    dim: nat,
    n: nat,
)
    requires
        n >= 1,
        kk <= usize::MAX,
    ensures
        total(means, data, labels, kk, dim, n) == total(means, data, labels, kk, dim, (n - 1) as nat)
            + if labels[n - 1] < kk {
            dist2_upto(means[labels[n - 1] as int], data[n - 1], dim)
        } else {
            0
        },
    decreases kk,
{
    if kk > 0 {
        lemma_total_step(means, data, labels, (kk - 1) as nat, dim, n);
        lemma_csum_step(means, data, labels, (kk - 1) as usize, dim, n);
    }
}

proof fn lemma_total_zero(
    means: Seq<Seq<i64>>,
    data: Seq<Seq<i64>>,
    labels: Seq<usize>,
    kk: nat,
    dim: nat,
)
    ensures
        total(means, data, labels, kk, dim, 0) == 0,
    decreases kk,
{
    if kk > 0 {
        lemma_total_zero(means, data, labels, (kk - 1) as nat, dim);
        lemma_csum_zero(means, data, labels, (kk - 1) as usize, dim);
    }
}

proof fn lemma_csum_zero(
    means: Seq<Seq<i64>>,
    data: Seq<Seq<i64>>,
    labels: Seq<usize>,
    c: usize,
    e: nat,
)
    ensures
        csum(means, data, labels, c, e, 0) == 0,
    decreases e,
{
    if e > 0 {
        lemma_csum_zero(means, data, labels, c, (e - 1) as nat);
    }
}

/// The loss, regrouped by cluster and coordinate.
proof fn lemma_loss_total(
    means: Seq<Seq<i64>>,
    data: Seq<Seq<i64>>,
    labels: Seq<usize>,
    dim: nat,
    n: nat,
)
    requires
        n <= labels.len(),
        means.len() <= usize::MAX,
        forall|i: int| 0 <= i < labels.len() ==> #[trigger] labels[i] < means.len(),
        forall|c: int| 0 <= c < means.len() ==> (#[trigger] means[c]).len() == dim,
    ensures
        loss_upto(means, data, labels, n) == total(means, data, labels, means.len(), dim, n),
    decreases n,
{
    if n == 0 {
        lemma_total_zero(means, data, labels, means.len(), dim);
    } else {
        lemma_loss_total(means, data, labels, dim, (n - 1) as nat);
        lemma_total_step(means, data, labels, means.len(), dim, n);
        let l = labels[n - 1];
        assert(l < means.len());
        assert(means[l as int].len() == dim);
    }
}

proof fn lemma_sum_bound(data: Seq<Seq<i64>>, labels: Seq<usize>, c: usize, d: int, dim: nat, n: nat)
    requires
        n <= data.len(),
        0 <= d < dim,
        forall|i: int| 0 <= i < data.len() ==> valid_point(#[trigger] data[i], dim),
    ensures
        -count_upto(labels, c, n) * COORD_LIMIT <= sum_upto(data, labels, c, d, n) <= count_upto(
            labels,
            c,
            n,
        ) * COORD_LIMIT,
    decreases n,
{
    if n > 0 {
        lemma_sum_bound(data, labels, c, d, dim, (n - 1) as nat);
        assert(valid_point(data[n - 1], dim));
        assert(-COORD_LIMIT <= data[n - 1][d] <= COORD_LIMIT);
    }
}

proof fn lemma_csum_mono(
    means: Seq<Seq<i64>>,
    data: Seq<Seq<i64>>,
    labels: Seq<usize>,
    c: usize,
    e: nat,
    dim: nat,
)
    requires
        e <= dim,
        labels.len() == data.len(),
        count_upto(labels, c, data.len()) > 0,
        forall|i: int| 0 <= i < data.len() ==> valid_point(#[trigger] data[i], dim),
    ensures
        csum(
            Seq::new((c + 1) as nat, |x: int| centroid(data, labels, x as usize, dim)),
            data,
            labels,
            c,
            e,
            data.len(),
        ) <= csum(means, data, labels, c, e, data.len()),
    decreases e,
{
    let nm = Seq::new((c + 1) as nat, |x: int| centroid(data, labels, x as usize, dim));
    if e > 0 {
        lemma_csum_mono(means, data, labels, c, (e - 1) as nat, dim);
        let d = e - 1;
        let s = sum_upto(data, labels, c, d, data.len());
        let k = count_upto(labels, c, data.len()) as int;
        lemma_sum_bound(data, labels, c, d, dim, data.len());
        crate::refine::lemma_round_div_bounds(s, k);
        assert(nm[c as int][d] as int == round_div(s, k));
        lemma_sqsum_min(data, labels, c, d, means[c as int][d] as int, data.len());
    }
}

proof fn lemma_total_mono(
    means: Seq<Seq<i64>>,
    data: Seq<Seq<i64>>,
    labels: Seq<usize>,
    kk: nat,
    k: nat,
    dim: nat,
)
    requires
        kk <= k <= usize::MAX,
        labels.len() == data.len(),
        !has_empty(labels, k),
        forall|i: int| 0 <= i < data.len() ==> valid_point(#[trigger] data[i], dim),
    ensures
        total(centroids(data, labels, k, dim), data, labels, kk, dim, data.len()) <= total(
            means,
            data,
            labels,
            kk,
            dim,
            data.len(),
        ),
    decreases kk,
{
    if kk > 0 {
        lemma_total_mono(means, data, labels, (kk - 1) as nat, k, dim);
        let c = (kk - 1) as usize;
        let nm = centroids(data, labels, k, dim);
        let pre = Seq::new((c + 1) as nat, |x: int| centroid(data, labels, x as usize, dim));
        assert(count_upto(labels, c, labels.len()) != 0);
        lemma_csum_mono(means, data, labels, c, dim, dim);
        lemma_csum_same(nm, pre, data, labels, c, dim, data.len());
    }
}

/// The part of the loss of cluster `c` reads only mean `c`.
proof fn lemma_csum_same(
    a: Seq<Seq<i64>>,
    b: Seq<Seq<i64>>,
    data: Seq<Seq<i64>>,
    labels: Seq<usize>,
    c: usize,
    e: nat,
    n: nat,
)
    requires
        a[c as int] == b[c as int],
    ensures
        csum(a, data, labels, c, e, n) == csum(b, data, labels, c, e, n),
    decreases e,
{
    if e > 0 {
        lemma_csum_same(a, b, data, labels, c, (e - 1) as nat, n);
    }
}

/// Recomputing the means never increases the loss: the rounded centroids of
/// the current assignment score no worse than any means on that assignment.
pub proof fn recomputed_means_never_increase_loss(
    means: Seq<Seq<i64>>,
    data: Seq<Seq<i64>>,
    labels: Seq<usize>,
)
    requires
        well_formed(data),
        0 < means.len() <= usize::MAX,
        valid_points(means, dim_of(data)),
        labels.len() == data.len(),
        forall|i: int| 0 <= i < labels.len() ==> #[trigger] labels[i] < means.len(),
        !has_empty(labels, means.len()),
    ensures
        loss(centroids(data, labels, means.len(), dim_of(data)), data, labels) <= loss(
            means,
            data,
            labels,
        ),
{
    let dim = dim_of(data);
    let nm = centroids(data, labels, means.len(), dim);
    assert forall|c: int| 0 <= c < means.len() implies (#[trigger] means[c]).len() == dim by {
        assert(valid_point(means[c], dim));
    }
    assert forall|i: int| 0 <= i < data.len() implies valid_point(#[trigger] data[i], dim) by {
    }
    lemma_loss_total(means, data, labels, dim, data.len());
    lemma_loss_total(nm, data, labels, dim, data.len());
    lemma_total_mono(means, data, labels, means.len(), means.len(), dim);
}

/// One refinement step never increases the loss: recomputing the means from
/// the current assignment and then reassigning every point to its nearest new
/// mean gives a loss no larger than that of the current means and assignment.
pub proof fn refinement_step_never_increases_loss(
    means: Seq<Seq<i64>>,
    data: Seq<Seq<i64>>,
    labels: Seq<usize>,
)
    requires
        well_formed(data),
        0 < means.len() <= usize::MAX,
        valid_points(means, dim_of(data)),
        labels.len() == data.len(),
        forall|i: int| 0 <= i < labels.len() ==> #[trigger] labels[i] < means.len(),
        !has_empty(labels, means.len()),
    ensures
        ({
            let nm = centroids(data, labels, means.len(), dim_of(data));
            loss(nm, data, assignment(nm, data)) <= loss(means, data, labels)
        }),
{
    let nm = centroids(data, labels, means.len(), dim_of(data));
    recomputed_means_never_increase_loss(means, data, labels);
    reassignment_never_increases_loss(nm, data, labels);
}

} // verus!
