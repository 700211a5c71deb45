//! Clustering with as many clusters as there are distinct points.
use vstd::prelude::*;
use crate::assign::lemma_nearest_upto_range;
use crate::laws::{lemma_best_upto, lemma_nearest_upto_min};
use crate::model::{
    assignment, best_upto, trials, centroid, centroids, count_upto, dim_of, dist2, dist2_upto,
    has_empty, loss, loss_upto, nearest, refine, round_div, seed_means, select, sq, sum_upto,
    trial, valid_point, valid_start, well_formed, MAX_STEPS,
};

verus! {

/// Some entry of `start` is `i`.
spec fn covered(start: Seq<usize>, i: int) -> bool {
    exists|c: int| 0 <= c < start.len() && start[c] == i
}

/// `n` distinct positions below `n` cover every position.
proof fn lemma_start_onto(start: Seq<usize>, n: nat)
    requires
        valid_start(start, n, n),
    ensures
        forall|i: int| 0 <= i < n ==> #[trigger] covered(start, i),
{
    let si = start.map_values(|x: usize| x as int);
    assert(si.no_duplicates()) by {
        assert forall|a: int, b: int| 0 <= a < si.len() && 0 <= b < si.len() && a != b implies si[a]
            != si[b] by {
            if a < b {
                assert(start[a] != start[b]);
            } else {
                assert(start[b] != start[a]);
            }
        }
    }
    si.unique_seq_to_set();
    let r = vstd::set_lib::set_int_range(0, n as int);
    vstd::set_lib::lemma_int_range(0, n as int);
    assert(si.to_set().subset_of(r)) by {
        assert forall|x: int| si.to_set().contains(x) implies r.contains(x) by {
            assert(si.contains(x));
            let c = choose|c: int| 0 <= c < si.len() && si[c] == x;
            assert(start[c] < n);
        }
    }
    vstd::set_lib::lemma_subset_equality(si.to_set(), r);
    assert forall|i: int| 0 <= i < n implies #[trigger] covered(start, i) by {
        assert(r.contains(i));
        assert(si.to_set().contains(i));
        assert(si.contains(i));
        let c = choose|c: int| 0 <= c < si.len() && si[c] == i;
        assert(start[c] == i);
    }
}

proof fn lemma_dist2_upto_zero(a: Seq<i64>, b: Seq<i64>, m: nat)
    ensures
        dist2_upto(a, b, m) >= 0,
        dist2_upto(a, b, m) == 0 <==> forall|j: int| 0 <= j < m ==> a[j] == b[j],
    decreases m,
{
    if m > 0 {
        lemma_dist2_upto_zero(a, b, (m - 1) as nat);
        let x = a[m - 1] - b[m - 1];
        assert(sq(x) >= 0) by (nonlinear_arith);
        assert(sq(x) == 0 <==> x == 0) by (nonlinear_arith);
        if dist2_upto(a, b, m) == 0 {
            assert forall|j: int| 0 <= j < m implies a[j] == b[j] by {
                if j < m - 1 {
                }
            }
        }
    }
}

/// A squared distance is zero exactly between equal points.
proof fn lemma_dist2_zero(a: Seq<i64>, b: Seq<i64>)
    requires
        a.len() == b.len(),
    ensures
        dist2(a, b) >= 0,
        dist2(a, b) == 0 <==> a == b,
{
    lemma_dist2_upto_zero(a, b, a.len());
    if dist2(a, b) == 0 {
        assert(a =~= b);
    }
}

proof fn lemma_count_single(labels: Seq<usize>, c: usize, p: int, m: nat)
    requires
        m <= labels.len(),
        forall|i: int| 0 <= i < labels.len() ==> (#[trigger] labels[i] == c <==> i == p),
    ensures
        count_upto(labels, c, m) == if 0 <= p < m { 1nat } else { 0nat },
    decreases m,
{
    if m > 0 {
        lemma_count_single(labels, c, p, (m - 1) as nat);
    }
}

proof fn lemma_sum_single(data: Seq<Seq<i64>>, labels: Seq<usize>, c: usize, d: int, p: int, m: nat)
    requires
        m <= labels.len(),
        forall|i: int| 0 <= i < labels.len() ==> (#[trigger] labels[i] == c <==> i == p),
    ensures
        sum_upto(data, labels, c, d, m) == if 0 <= p < m { data[p][d] as int } else { 0 },
    decreases m,
{
    if m > 0 {
        lemma_sum_single(data, labels, c, d, p, (m - 1) as nat);
    }
}

proof fn lemma_loss_zero(means: Seq<Seq<i64>>, data: Seq<Seq<i64>>, labels: Seq<usize>, m: nat)
    requires
        m <= data.len(),
        forall|i: int| 0 <= i < m ==> #[trigger] means[labels[i] as int] == data[i],
    ensures
        loss_upto(means, data, labels, m) == 0,
    decreases m,
{
    if m > 0 {
        lemma_loss_zero(means, data, labels, (m - 1) as nat);
        let p = data[m - 1];
        assert(means[labels[m - 1] as int] == p);
        lemma_dist2_zero(p, p);
    }
}

/// With as many initial means as distinct points, every point is its own cluster.
proof fn lemma_trial_singletons(data: Seq<Seq<i64>>, start: Seq<usize>)
    requires
        well_formed(data),
        0 < data.len() <= usize::MAX,
        forall|i: int, j: int| 0 <= i < j < data.len() ==> data[i] != data[j],
        valid_start(start, data.len(), data.len()),
    ensures
        trial(data, start) == Ok::<_, crate::model::KmeansError>(
            (seed_means(data, start), assignment(seed_means(data, start), data), 0int),
        ),
        forall|i: int|
            0 <= i < data.len() ==> start[#[trigger] assignment(seed_means(data, start), data)[i]
                as int] == i,
{
    let n = data.len();
    let dim = dim_of(data);
    let m0 = seed_means(data, start);
    let lab = assignment(m0, data);
    lemma_start_onto(start, n);
    assert forall|i: int| 0 <= i < n implies start[#[trigger] lab[i] as int] == i by {
        assert(covered(start, i));
        let c = choose|c: int| 0 <= c < start.len() && start[c] == i;
        let p = data[i];
        assert(valid_point(p, dim));
        assert(valid_point(data[0], dim));
        lemma_nearest_upto_min(m0, p, n);
        lemma_nearest_upto_range(m0, p, n);
        let nr = nearest(m0, p) as int;
        assert(m0[c] == p);
        lemma_dist2_zero(p, p);
        assert(valid_point(data[start[nr] as int], dim));
        lemma_dist2_zero(m0[nr], p);
        assert(m0[nr] == data[start[nr] as int]);
        assert(start[nr] as int == i) by {
            if (start[nr] as int) < i {
                assert(data[start[nr] as int] != data[i]);
            } else if (start[nr] as int) > i {
                assert(data[i] != data[start[nr] as int]);
            }
        }
        assert(lab[i] as int == nr);
    }
    // Each cluster holds exactly the point it was seeded from.
    assert forall|c: int| 0 <= c < n implies #[trigger] centroids(data, lab, n, dim)[c] == m0[c] by {
        let p = start[c] as int;
        assert forall|i: int| 0 <= i < lab.len() implies (#[trigger] lab[i] == c as usize <==> i
            == p) by {
            lemma_nearest_upto_range(m0, data[i], n);
            if lab[i] == c as usize {
                assert(start[lab[i] as int] == i);
            }
            if i == p {
                lemma_nearest_upto_range(m0, data[p], n);
                assert(start[lab[p] as int] == p);
                assert(lab[p] as int == c) by {
                    let q = lab[p] as int;
                    if q < c {
                        assert(start[q] != start[c]);
                    } else if q > c {
                        assert(start[c] != start[q]);
                    }
                }
            }
        }
        lemma_count_single(lab, c as usize, p, n);
        assert(valid_point(data[p], dim));
        assert(valid_point(data[0], dim));
        assert forall|d: int| 0 <= d < dim implies #[trigger] centroid(data, lab, c as usize, dim)[d]
            == m0[c][d] by {
            lemma_sum_single(data, lab, c as usize, d, p, n);
            let x = data[p][d] as int;
            vstd::arithmetic::div_mod::lemma_fundamental_div_mod_converse(2 * x + 1, 2, x, 1);
            assert(round_div(x, 1) == x);
        }
        assert(centroid(data, lab, c as usize, dim) =~= m0[c]);
    }
    assert(centroids(data, lab, n, dim) =~= m0);
    assert forall|c: usize| c < n implies #[trigger] count_upto(lab, c, lab.len()) != 0 by {
        let p = start[c as int] as int;
        assert forall|i: int| 0 <= i < lab.len() implies (#[trigger] lab[i] == c <==> i == p) by {
            if i == p {
                let q = lab[p] as int;
                lemma_nearest_upto_range(m0, data[p], n);
                assert(start[q] == p);
                if q < c {
                    assert(start[q] != start[c as int]);
                } else if q > c {
                    assert(start[c as int] != start[q]);
                }
            }
        }
        lemma_count_single(lab, c, p, n);
    }
    assert(!has_empty(lab, m0.len()));
    assert forall|i: int| 0 <= i < n implies #[trigger] m0[lab[i] as int] == data[i] by {
        lemma_nearest_upto_range(m0, data[i], n);
        assert(start[lab[i] as int] == i);
    }
    lemma_loss_zero(m0, data, lab, n);
    assert(refine(m0, data, lab, MAX_STEPS as nat) == Ok::<_, crate::model::KmeansError>(
        (m0, lab, 0int),
    ));
}

/// With `k` equal to the number of points and the points pairwise distinct,
/// best-of-N selection over any restarts makes every point its own cluster,
/// centred on the point itself, with loss zero.
pub proof fn each_point_its_own_cluster(data: Seq<Seq<i64>>, starts: Seq<Seq<usize>>)
    requires
        well_formed(data),
        0 < data.len() <= usize::MAX,
        forall|i: int, j: int| 0 <= i < j < data.len() ==> data[i] != data[j],
        starts.len() > 0,
        forall|t: int| 0 <= t < starts.len() ==> valid_start(#[trigger] starts[t], data.len(), data.len()),
    ensures
        select(data, starts) matches Ok(r) && {
            &&& r.2 == 0
            &&& r.1.len() == data.len()
            &&& forall|i: int| 0 <= i < data.len() ==> r.0[#[trigger] r.1[i] as int] == data[i]
            &&& forall|i: int, j: int| 0 <= i < j < data.len() ==> r.1[i] != r.1[j]
        },
{
    let os = trials(data, starts);
    lemma_best_upto(os, os.len());
    assert(os[0] == trial(data, starts[0]));
    lemma_trial_singletons(data, starts[0]);
    let b = best_upto(os, os.len())->Some_0 as int;
    assert(select(data, starts) == trial(data, starts[b]));
    let s = starts[b];
    lemma_trial_singletons(data, s);
    let m0 = seed_means(data, s);
    let lab = assignment(m0, data);
    assert forall|i: int| 0 <= i < data.len() implies m0[#[trigger] lab[i] as int] == data[i] by {
        lemma_nearest_upto_range(m0, data[i], m0.len());
        assert(s[lab[i] as int] == i);
    }
    assert forall|i: int, j: int| 0 <= i < j < data.len() implies lab[i] != lab[j] by {
        assert(s[lab[i] as int] == i);
        assert(s[lab[j] as int] == j);
    }
}

} // verus!
