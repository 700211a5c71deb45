//! Mathematical model of the clustering engine: points, distances,
//! nearest-mean assignment, loss, centroids and one whole restart.
use vstd::prelude::*;

verus! {

/// Largest absolute value of a coordinate.
pub const COORD_LIMIT: i64 = 16777216;

/// Largest number of coordinates of a point.
pub const MAX_DIM: usize = 4096;

/// Step budget of one refinement run.
pub const MAX_STEPS: usize = 64;

/// Why a clustering run failed.
#[derive(Debug, Clone, Copy, PartialEq, Eq, Structural)]
pub enum KmeansError {
    /// `k` is zero or larger than the number of points.
    InvalidK,
    /// A cluster lost all of its points during refinement.
    EmptyCluster,
}

/// The points of a vector of vectors, as sequences.
pub open spec fn points(v: Seq<Vec<i64>>) -> Seq<Seq<i64>> {
    v.map_values(|p: Vec<i64>| p@)
}

pub open spec fn valid_point(p: Seq<i64>, dim: nat) -> bool {
    &&& p.len() == dim
    &&& forall|j: int| 0 <= j < p.len() ==> -COORD_LIMIT <= #[trigger] p[j] <= COORD_LIMIT
}

/// Every point has `dim` bounded coordinates.
pub open spec fn valid_points(ps: Seq<Seq<i64>>, dim: nat) -> bool {
    &&& dim <= MAX_DIM
    &&& forall|i: int| 0 <= i < ps.len() ==> valid_point(#[trigger] ps[i], dim)
}

/// The dimension of a point set (that of its first point).
pub open spec fn dim_of(ps: Seq<Seq<i64>>) -> nat {
    if ps.len() == 0 { 0 } else { ps[0].len() }
}

/// A point set the engine accepts: one dimension, bounded coordinates.
pub open spec fn well_formed(ps: Seq<Seq<i64>>) -> bool {
    valid_points(ps, dim_of(ps))
}

pub open spec fn sq(x: int) -> int {
    x * x
}

/// Squared distance over the first `n` coordinates.
pub open spec fn dist2_upto(a: Seq<i64>, b: Seq<i64>, n: nat) -> int
    decreases n,
{
    if n == 0 {
        0
    } else {
        dist2_upto(a, b, (n - 1) as nat) + sq(a[n - 1] - b[n - 1])
    }
}

/// Squared Euclidean distance.
pub open spec fn dist2(a: Seq<i64>, b: Seq<i64>) -> int {
    dist2_upto(a, b, a.len())
}

/// Index of the nearest of the first `j` means; ties go to the lowest index.
pub open spec fn nearest_upto(means: Seq<Seq<i64>>, p: Seq<i64>, j: nat) -> nat
    decreases j,
{
    if j <= 1 {
        0
    } else {
        let b = nearest_upto(means, p, (j - 1) as nat);
        if dist2(means[j - 1], p) < dist2(means[b as int], p) {
            (j - 1) as nat
        } else {
            b
        }
    }
}

/// Index of the nearest mean; ties go to the lowest index.
pub open spec fn nearest(means: Seq<Seq<i64>>, p: Seq<i64>) -> nat {
    nearest_upto(means, p, means.len())
}

/// The nearest-mean assignment of every point.
pub open spec fn assignment(means: Seq<Seq<i64>>, data: Seq<Seq<i64>>) -> Seq<usize> {
    Seq::new(data.len(), |i: int| nearest(means, data[i]) as usize)
}

/// Sum of squared distances of the first `n` points to their cluster's mean.
pub open spec fn loss_upto(
    means: Seq<Seq<i64>>,
    data: Seq<Seq<i64>>,
    labels: Seq<usize>,
    n: nat,
) -> int
    decreases n,
{
    if n == 0 {
        0
    } else {
        loss_upto(means, data, labels, (n - 1) as nat) + dist2(
            means[labels[n - 1] as int],
            data[n - 1],
        )
    }
}

/// Sum of squared distances of every point to its cluster's mean.
pub open spec fn loss(means: Seq<Seq<i64>>, data: Seq<Seq<i64>>, labels: Seq<usize>) -> int {
    loss_upto(means, data, labels, data.len())
}

/// Number of the first `n` points labelled `c`.
pub open spec fn count_upto(labels: Seq<usize>, c: usize, n: nat) -> nat
    decreases n,
{
    if n == 0 {
        0
    } else {
        count_upto(labels, c, (n - 1) as nat) + if labels[n - 1] == c {
            1nat
        } else {
            0nat
        }
    }
}

/// Sum of coordinate `d` over the first `n` points labelled `c`.
pub open spec fn sum_upto(data: Seq<Seq<i64>>, labels: Seq<usize>, c: usize, d: int, n: nat) -> int
    decreases n,
{
    if n == 0 {
        0
    } else {
        sum_upto(data, labels, c, d, (n - 1) as nat) + if labels[n - 1] == c {
            data[n - 1][d] as int
        } else {
            0
        }
    }
}

/// `s / c` rounded to the nearest integer, halves upward.
pub open spec fn round_div(s: int, c: int) -> int {
    (2 * s + c) / (2 * c)
}

/// Mean of the points labelled `c`, each coordinate rounded to the nearest integer.
pub open spec fn centroid(data: Seq<Seq<i64>>, labels: Seq<usize>, c: usize, dim: nat) -> Seq<i64> {
    Seq::new(
        dim,
        |d: int|
            round_div(
                sum_upto(data, labels, c, d, data.len()),
                count_upto(labels, c, data.len()) as int,
            ) as i64,
    )
}

/// The means of all `k` clusters.
pub open spec fn centroids(data: Seq<Seq<i64>>, labels: Seq<usize>, k: nat, dim: nat) -> Seq<
    Seq<i64>,
> {
    Seq::new(k, |c: int| centroid(data, labels, c as usize, dim))
}

/// Some cluster below `k` has no point.
pub open spec fn has_empty(labels: Seq<usize>, k: nat) -> bool {
    exists|c: usize| c < k && #[trigger] count_upto(labels, c, labels.len()) == 0
}

/// The outcome of a run: means, labels and loss.
pub type Outcome = Result<(Seq<Seq<i64>>, Seq<usize>, int), KmeansError>;

/// Refinement from `means` and `labels` with `steps` steps left: recompute the
/// means, reassign, and stop once no mean moved or the budget is spent.
pub open spec fn refine(
    means: Seq<Seq<i64>>,
    data: Seq<Seq<i64>>,
    labels: Seq<usize>,
    steps: nat,
) -> Outcome
    decreases steps,
{
    if steps == 0 {
        Ok((means, labels, loss(means, data, labels)))
    } else if has_empty(labels, means.len()) {
        Err(KmeansError::EmptyCluster)
    } else {
        let nm = centroids(data, labels, means.len(), dim_of(data));
        let nl = assignment(nm, data);
        if nm == means || steps == 1 {
            Ok((nm, nl, loss(nm, data, nl)))
        } else {
            refine(nm, data, nl, (steps - 1) as nat)
        }
    }
}

/// The points at the positions of `start`, as initial means.
pub open spec fn seed_means(data: Seq<Seq<i64>>, start: Seq<usize>) -> Seq<Seq<i64>> {
    Seq::new(start.len(), |c: int| data[start[c] as int])
}

/// One restart from the initial means picked at the positions of `start`.
pub open spec fn trial(data: Seq<Seq<i64>>, start: Seq<usize>) -> Outcome {
    let m0 = seed_means(data, start);
    refine(m0, data, assignment(m0, data), MAX_STEPS as nat)
}

/// `k` distinct positions below `n`.
pub open spec fn valid_start(start: Seq<usize>, k: nat, n: nat) -> bool {
    &&& start.len() == k
    &&& forall|c: int| 0 <= c < k ==> #[trigger] start[c] < n
    &&& forall|a: int, b: int| 0 <= a < b < k ==> start[a] != start[b]
}

/// The positions `0..n` after swapping, for each `j < steps`, position `j`
/// with position `draws[j]` (a partial Fisher-Yates shuffle).
pub open spec fn shuffled(n: nat, draws: Seq<usize>, steps: nat) -> Seq<usize>
    decreases steps,
{
    if steps == 0 {
        Seq::new(n, |i: int| i as usize)
    } else {
        let s = shuffled(n, draws, (steps - 1) as nat);
        let j = steps - 1;
        let r = draws[j] as int;
        s.update(j, s[r]).update(r, s[j])
    }
}

/// Each draw `j` lies in `j..n`.
pub open spec fn valid_draws(draws: Seq<usize>, n: nat) -> bool {
    forall|j: int| 0 <= j < draws.len() ==> j <= #[trigger] draws[j] < n
}

/// Loss of an outcome.
pub open spec fn outcome_loss(o: Outcome) -> int {
    match o {
        Ok(t) => t.2,
        Err(_) => 0,
    }
}

/// Position of the best of the first `n` outcomes: the first with the lowest
/// loss among those that succeeded.
pub open spec fn best_upto(os: Seq<Outcome>, n: nat) -> Option<nat>
    decreases n,
{
    if n == 0 {
        None
    } else {
        let b = best_upto(os, (n - 1) as nat);
        if os[n - 1] is Ok && (b is None || outcome_loss(os[n - 1]) < outcome_loss(
            os[b->Some_0 as int],
        )) {
            Some((n - 1) as nat)
        } else {
            b
        }
    }
}

/// The outcomes of one restart from each of `starts`.
pub open spec fn trials(data: Seq<Seq<i64>>, starts: Seq<Seq<usize>>) -> Seq<Outcome> {
    Seq::new(starts.len(), |t: int| trial(data, starts[t]))
}

/// The result of best-of-N selection over the restarts from `starts`.
pub open spec fn select(data: Seq<Seq<i64>>, starts: Seq<Seq<usize>>) -> Outcome {
    let os = trials(data, starts);
    match best_upto(os, os.len()) {
        Some(t) => os[t as int],
        None => Err(KmeansError::EmptyCluster),
    }
}

} // verus!
