//! Mean recomputation and the refinement loop.
use vstd::prelude::*;
use crate::assign::{assign_data_to_clusters, lemma_assignment_in_range};
use crate::laws::refinement_step_never_increases_loss;
use crate::model::{
    assignment, has_empty, loss, centroid, centroids, count_upto, dim_of, points, refine, round_div,
    sum_upto, valid_point, valid_points, well_formed, KmeansError, COORD_LIMIT, MAX_STEPS,
};

verus! {

/// A rounded mean of values within `[-COORD_LIMIT, COORD_LIMIT]` stays within it.
pub proof fn lemma_round_div_bounds(s: int, c: int)
    requires
        c >= 1,
        -c * COORD_LIMIT <= s <= c * COORD_LIMIT,
    ensures
        -COORD_LIMIT <= round_div(s, c) <= COORD_LIMIT,
{
    let q = round_div(s, c);
    vstd::arithmetic::div_mod::lemma_fundamental_div_mod(2 * s + c, 2 * c);
    let rem = (2 * s + c) % (2 * c);
    assert(2 * s + c == 2 * c * q + rem);
    assert(0 <= rem < 2 * c);
    assert(q <= COORD_LIMIT) by (nonlinear_arith)
        requires
            c >= 1,
            s <= c * 16777216,
            2 * s + c == 2 * c * q + rem,
            0 <= rem,
    ;
    assert(q >= -COORD_LIMIT) by (nonlinear_arith)
        requires
            c >= 1,
            s >= -c * 16777216,
            2 * s + c == 2 * c * q + rem,
            rem < 2 * c,
    ;
}

/// `s / c` rounded to the nearest integer, halves upward.
pub fn rounded_div(s: i128, c: i128) -> (r: i64)
    requires
        1 <= c <= 18446744073709551616int,
        -c * COORD_LIMIT <= s <= c * COORD_LIMIT,
    ensures
        r == round_div(s as int, c as int),
        -COORD_LIMIT <= r <= COORD_LIMIT,
{
    proof {
        lemma_round_div_bounds(s as int, c as int);
        assert(c * COORD_LIMIT <= 18446744073709551616int * 16777216) by (nonlinear_arith)
            requires
                c <= 18446744073709551616int,
        ;
    }
    let num: i128 = 2 * s + c;
    let den: i128 = 2 * c;
    if num >= 0 {
        let q: u128 = (num as u128) / (den as u128);
        q as i64
    } else {
        let a: i128 = -num;
        let q: u128 = ((a + den - 1) as u128) / (den as u128);
        proof {
            let dn = den as int;
            let x = (a + den - 1) as int;
            let qi = q as int;
            vstd::arithmetic::div_mod::lemma_fundamental_div_mod(x, dn);
            assert(qi == x / dn);
            let rm = x % dn;
            assert(x == dn * qi + rm);
            let rr = num + qi * dn;
            assert(0 <= rr < dn) by (nonlinear_arith)
                requires
                    x == dn * qi + rm,
                    0 <= rm < dn,
                    x == a + dn - 1,
                    rr == num + qi * dn,
                    a == -num,
            ;
            assert(num == (-qi) * dn + rr) by (nonlinear_arith)
                requires
                    rr == num + qi * dn,
            ;
            vstd::arithmetic::div_mod::lemma_fundamental_div_mod_converse(
                num as int,
                dn,
                -qi,
                rr,
            );
        }
        -(q as i128) as i64
    }
}

/// The number of points labelled `c`.
pub fn cluster_count(labels: &Vec<usize>, c: usize) -> (r: usize)
    ensures
        r == count_upto(labels@, c, labels@.len()),
{
    let mut n: usize = 0;
    let mut i: usize = 0;
    while i < labels.len()
        invariant
            i <= labels@.len(),
            n == count_upto(labels@, c, i as nat),
            n <= i,
        decreases labels@.len() - i,
    {
        if labels[i] == c {
            n = n + 1;
        }
        i = i + 1;
    }
    n
}

/// The mean of the points labelled `c`, rounded per coordinate; `None` when
/// no point is labelled `c`.
pub fn cluster_centroid(data: &Vec<Vec<i64>>, labels: &Vec<usize>, c: usize) -> (r: Option<
    Vec<i64>,
>)
    requires
        well_formed(points(data@)),
        labels@.len() == data@.len(),
    ensures
        r is None <==> count_upto(labels@, c, labels@.len()) == 0,
        r matches Some(m) ==> m@ == centroid(points(data@), labels@, c, dim_of(points(data@))),
        r matches Some(m) ==> valid_point(m@, dim_of(points(data@))),
{
    let ghost ds = points(data@);
    let count = cluster_count(labels, c);
    if count == 0 {
        return None;
    }
    let dim: usize = data[0].len();
    proof {
        assert(ds[0].len() == dim_of(ds));
    }
    let mut sums: Vec<i128> = Vec::new();
    let mut d: usize = 0;
    while d < dim
        invariant
            d <= dim,
            sums@.len() == d,
            forall|e: int| 0 <= e < d ==> #[trigger] sums@[e] == 0,
        decreases dim - d,
    {
        sums.push(0);
        d = d + 1;
    }
    let mut i: usize = 0;
    while i < data.len()
        invariant
            i <= data@.len(),
            ds == points(data@),
            well_formed(ds),
            dim == dim_of(ds),
            labels@.len() == data@.len(),
            sums@.len() == dim,
            forall|e: int|
                0 <= e < dim ==> #[trigger] sums@[e] == sum_upto(ds, labels@, c, e, i as nat),
            forall|e: int|
                0 <= e < dim ==> -count_upto(labels@, c, i as nat) * COORD_LIMIT <= #[trigger] sums@[e]
                    <= count_upto(labels@, c, i as nat) * COORD_LIMIT,
            count_upto(labels@, c, i as nat) <= i,
        decreases data@.len() - i,
    {
        proof {
            assert(valid_point(ds[i as int], dim as nat));
        }
        if labels[i] == c {
            let p = &data[i];
            let ghost cnt = count_upto(labels@, c, i as nat);
            let mut e: usize = 0;
            while e < dim
                invariant
                    e <= dim,
                    i < data@.len(),
                    ds == points(data@),
                    p@ == ds[i as int],
                    valid_point(ds[i as int], dim as nat),
                    labels@.len() == data@.len(),
                    labels@[i as int] == c,
                    cnt == count_upto(labels@, c, i as nat),
                    cnt <= i,
                    sums@.len() == dim,
                    forall|f: int|
                        0 <= f < e ==> #[trigger] sums@[f] == sum_upto(
                            ds,
                            labels@,
                            c,
                            f,
                            (i + 1) as nat,
                        ),
                    forall|f: int|
                        e <= f < dim ==> #[trigger] sums@[f] == sum_upto(ds, labels@, c, f, i as nat),
                    forall|f: int|
                        0 <= f < e ==> -(cnt + 1) * COORD_LIMIT <= #[trigger] sums@[f] <= (cnt + 1)
                            * COORD_LIMIT,
                    forall|f: int|
                        e <= f < dim ==> -cnt * COORD_LIMIT <= #[trigger] sums@[f] <= cnt
                            * COORD_LIMIT,
                decreases dim - e,
            {
                proof {
                    assert(-COORD_LIMIT <= p@[e as int] <= COORD_LIMIT);
                    assert(cnt * COORD_LIMIT <= 18446744073709551616int * 16777216)
                        by (nonlinear_arith)
                        requires
                            cnt <= 18446744073709551616int,
                    ;
                }
                let v: i128 = sums[e] + p[e] as i128;
                sums.set(e, v);
                e = e + 1;
            }
        }
        i = i + 1;
    }
    let mut m: Vec<i64> = Vec::new();
    let mut e: usize = 0;
    while e < dim
        invariant
            e <= dim,
            ds == points(data@),
            dim == dim_of(ds),
            labels@.len() == data@.len(),
            count == count_upto(labels@, c, labels@.len()),
            count >= 1,
            count <= data@.len(),
            sums@.len() == dim,
            forall|f: int|
                0 <= f < dim ==> #[trigger] sums@[f] == sum_upto(
                    ds,
                    labels@,
                    c,
                    f,
                    data@.len() as nat,
                ),
            forall|f: int|
                0 <= f < dim ==> -count * COORD_LIMIT <= #[trigger] sums@[f] <= count
                    * COORD_LIMIT,
            m@.len() == e,
            forall|f: int|
                0 <= f < e ==> #[trigger] m@[f] == centroid(ds, labels@, c, dim as nat)[f],
            forall|f: int| 0 <= f < e ==> -COORD_LIMIT <= #[trigger] m@[f] <= COORD_LIMIT,
        decreases dim - e,
    {
        let s = sums[e];
        let x = rounded_div(s, count as i128);
        m.push(x);
        e = e + 1;
    }
    proof {
        assert(m@ =~= centroid(ds, labels@, c, dim as nat));
    }
    Some(m)
}

/// Two lists of points are equal, coordinate by coordinate.
pub fn same_points(a: &Vec<Vec<i64>>, b: &Vec<Vec<i64>>) -> (r: bool)
    ensures
        r == (points(a@) == points(b@)),
{
    if a.len() != b.len() {
        proof {
            assert(points(a@).len() != points(b@).len());
        }
        return false;
    }
    let mut i: usize = 0;
    while i < a.len()
        invariant
            i <= a@.len(),
            a@.len() == b@.len(),
            forall|x: int| 0 <= x < i ==> #[trigger] a@[x]@ == b@[x]@,
        decreases a@.len() - i,
    {
        let p = &a[i];
        let q = &b[i];
        if p.len() != q.len() {
            proof {
                assert(points(a@)[i as int].len() != points(b@)[i as int].len());
            }
            return false;
        }
        let mut j: usize = 0;
        while j < p.len()
            invariant
                j <= p@.len(),
                i < a@.len(),
                a@.len() == b@.len(),
                p@ == a@[i as int]@,
                q@ == b@[i as int]@,
                p@.len() == q@.len(),
                forall|y: int| 0 <= y < j ==> #[trigger] p@[y] == q@[y],
            decreases p@.len() - j,
        {
            if p[j] != q[j] {
                proof {
                    assert(points(a@)[i as int][j as int] != points(b@)[i as int][j as int]);
                }
                return false;
            }
            j = j + 1;
        }
        proof {
            assert(p@ =~= q@);
        }
        i = i + 1;
    }
    proof {
        assert(points(a@) =~= points(b@));
    }
    true
}

/// Refines `means` and `labels` in place: each step recomputes every mean
/// from its points and reassigns every point, until no mean moves or the
/// step budget is spent. Returns the loss of the last assignment; fails when
/// a cluster loses all of its points.
pub fn kmeans_iter(means: &mut Vec<Vec<i64>>, data: &Vec<Vec<i64>>, labels: &mut Vec<usize>) -> (r:
    Result<u128, KmeansError>)
    requires
        old(means)@.len() > 0,
        well_formed(points(data@)),
        valid_points(points(old(means)@), dim_of(points(data@))),
        old(labels)@.len() == data@.len(),
        forall|i: int| 0 <= i < old(labels)@.len() ==> #[trigger] old(labels)@[i] < old(means)@.len(),
    ensures
        r is Ok <==> refine(
            points(old(means)@),
            points(data@),
            old(labels)@,
            MAX_STEPS as nat,
        ) is Ok,
        r matches Ok(l) ==> refine(points(old(means)@), points(data@), old(labels)@, MAX_STEPS as nat)
            == Ok::<_, KmeansError>((points(final(means)@), final(labels)@, l as int)),
        r matches Err(e) ==> refine(
            points(old(means)@),
            points(data@),
            old(labels)@,
            MAX_STEPS as nat,
        ) == Err::<(Seq<Seq<i64>>, Seq<usize>, int), KmeansError>(e),
        r is Ok ==> final(means)@.len() == old(means)@.len(),
        r is Ok ==> valid_points(points(final(means)@), dim_of(points(data@))),
        r is Ok ==> final(labels)@ == assignment(points(final(means)@), points(data@)),
        r matches Ok(l) ==> l <= loss(points(old(means)@), points(data@), old(labels)@),
{
    let ghost m0 = points(means@);
    let ghost l0 = labels@;
    let ghost ds = points(data@);
    let ghost dim = dim_of(ds);
    let k = means.len();
    let mut step: usize = 0;
    loop
        invariant
            step < MAX_STEPS,
            means@.len() == k,
            m0 == points(old(means)@),
            l0 == old(labels)@,
            k == old(means)@.len(),
            k > 0,
            ds == points(data@),
            dim == dim_of(ds),
            well_formed(ds),
            valid_points(points(means@), dim),
            labels@.len() == data@.len(),
            forall|i: int| 0 <= i < labels@.len() ==> #[trigger] labels@[i] < k,
            loss(points(means@), ds, labels@) <= loss(m0, ds, l0),
            refine(points(means@), ds, labels@, (MAX_STEPS - step) as nat) == refine(
                m0,
                ds,
                l0,
                MAX_STEPS as nat,
            ),
        decreases MAX_STEPS - step,
    {
        let ghost cur_m = points(means@);
        let ghost cur_l = labels@;
        let mut nm: Vec<Vec<i64>> = Vec::new();
        let mut c: usize = 0;
        while c < k
            invariant
                c <= k,
                means@.len() == k,
                m0 == points(old(means)@),
                l0 == old(labels)@,
                step < MAX_STEPS,
                cur_m == points(means@),
                cur_l == labels@,
                refine(cur_m, ds, cur_l, (MAX_STEPS - step) as nat) == refine(
                    m0,
                    ds,
                    l0,
                    MAX_STEPS as nat,
                ),
                ds == points(data@),
                dim == dim_of(ds),
                well_formed(ds),
                labels@.len() == data@.len(),
                nm@.len() == c,
                forall|x: int|
                    0 <= x < c ==> #[trigger] points(nm@)[x] == centroid(ds, labels@, x as usize, dim),
                valid_points(points(nm@), dim),
                forall|x: usize| x < c ==> #[trigger] count_upto(labels@, x, labels@.len()) != 0,
            decreases k - c,
        {
            match cluster_centroid(data, labels, c) {
                None => {
                    proof {
                        assert(has_empty(labels@, means@.len()));
                    }
                    return Err(KmeansError::EmptyCluster);
                },
                Some(m) => {
                    let ghost before = nm@;
                    nm.push(m);
                    proof {
                        assert(points(nm@)[c as int] == m@);
                        assert forall|x: int| 0 <= x < nm@.len() implies valid_point(
                            #[trigger] points(nm@)[x],
                            dim,
                        ) by {
                            if x < c {
                                assert(nm@[x] == before[x]);
                                assert(points(nm@)[x] == points(before)[x]);
                            }
                        }
                        assert forall|x: int| 0 <= x < nm@.len() implies #[trigger] points(
                            nm@,
                        )[x] == centroid(ds, labels@, x as usize, dim) by {
                            if x < c {
                                assert(nm@[x] == before[x]);
                                assert(points(nm@)[x] == points(before)[x]);
                            }
                        }
                    }
                },
            }
            c = c + 1;
        }
        proof {
            assert(!has_empty(labels@, means@.len()));
            assert(points(nm@) =~= centroids(ds, labels@, k as nat, dim));
            refinement_step_never_increases_loss(cur_m, ds, cur_l);
        }
        let ghost new_m = points(nm@);
        let converged = same_points(means, &nm);
        *means = nm;
        let step_loss = assign_data_to_clusters(means, data, labels);
        proof {
            lemma_assignment_in_range(points(means@), ds);
            let st = (MAX_STEPS - step) as nat;
            assert(new_m == centroids(ds, cur_l, cur_m.len(), dim_of(ds)));
            assert(refine(cur_m, ds, cur_l, st) == if new_m == cur_m || st == 1 {
                Ok((new_m, labels@, step_loss as int))
            } else {
                refine(new_m, ds, labels@, (st - 1) as nat)
            });
        }
        if converged || step + 1 == MAX_STEPS {
            return Ok(step_loss);
        }
        step = step + 1;
    }
}

} // verus!
