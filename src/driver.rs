//! Initialization and best-of-N restart selection.
use vstd::prelude::*;
use crate::assign::{assign_data_to_clusters, lemma_assignment_in_range};
use crate::model::{
    assignment, best_upto, dim_of, points, seed_means, select, trial, trials, valid_point,
    valid_start, well_formed, shuffled, valid_draws, KmeansError, Outcome,
};
use crate::laws::best_of_restarts;
use crate::refine::kmeans_iter;

verus! {

/// Final means, every point with its cluster index (in input order), and the loss.
pub type Clustering = (Vec<Vec<i64>>, Vec<(usize, Vec<i64>)>, u128);

/// The cluster indices of labelled points.
pub open spec fn labels_of(pairs: Seq<(usize, Vec<i64>)>) -> Seq<usize> {
    pairs.map_values(|p: (usize, Vec<i64>)| p.0)
}

/// The starting positions of each restart, as sequences.
pub open spec fn starts_view(starts: Seq<Vec<usize>>) -> Seq<Seq<usize>> {
    starts.map_values(|s: Vec<usize>| s@)
}

/// `r` is the executable form of the outcome `o` on `data`: the same means,
/// labels and loss, with every point of `data` in input order.
pub open spec fn describes(r: Result<Clustering, KmeansError>, o: Outcome, data: Seq<Vec<i64>>) -> bool {
    match r {
        Ok(c) => {
            &&& o == Ok::<_, KmeansError>((points(c.0@), labels_of(c.1@), c.2 as int))
            &&& c.1@.len() == data.len()
            &&& forall|i: int| 0 <= i < data.len() ==> (#[trigger] c.1@[i]).1@ == data[i]@
        },
        Err(e) => o == Err::<(Seq<Seq<i64>>, Seq<usize>, int), KmeansError>(e),
    }
}

/// Relies on rand::Rng::gen_range on rand::thread_rng: a draw from `lo..hi`,
/// which panics only when the range is empty.
#[verifier::external_body]
fn random_index(lo: usize, hi: usize) -> (r: usize)
    requires
        lo < hi,
    ensures
        lo <= r < hi,
{
    rand::Rng::gen_range(&mut rand::thread_rng(), lo..hi)
}

/// The first `draws.len()` positions of a partial Fisher-Yates shuffle of
/// `0..n`: step `j` swaps position `j` with position `draws[j]`.
pub fn shuffle_prefix(n: usize, draws: &Vec<usize>) -> (r: Vec<usize>)
    requires
        draws@.len() <= n,
        valid_draws(draws@, n as nat),
    ensures
        r@ == shuffled(n as nat, draws@, draws@.len()).subrange(0, draws@.len() as int),
        valid_start(r@, draws@.len(), n as nat),
{
    let k = draws.len();
    let mut pool: Vec<usize> = Vec::new();
    let mut i: usize = 0;
    while i < n
        invariant
            i <= n,
            pool@.len() == i,
            forall|x: int| 0 <= x < i ==> #[trigger] pool@[x] == x,
        decreases n - i,
    {
        pool.push(i);
        i = i + 1;
    }
    proof {
        assert(pool@ =~= shuffled(n as nat, draws@, 0));
    }
    let mut j: usize = 0;
    while j < k
        invariant
            j <= k,
            k == draws@.len(),
            k <= n,
            valid_draws(draws@, n as nat),
            pool@ == shuffled(n as nat, draws@, j as nat),
            pool@.len() == n,
            forall|x: int| 0 <= x < n ==> #[trigger] pool@[x] < n,
            forall|a: int, b: int| 0 <= a < b < n ==> pool@[a] != pool@[b],
        decreases k - j,
    {
        let r = draws[j];
        let a = pool[j];
        let b = pool[r];
        pool.set(j, b);
        pool.set(r, a);
        j = j + 1;
    }
    let mut start: Vec<usize> = Vec::new();
    let mut c: usize = 0;
    while c < k
        invariant
            c <= k,
            k == draws@.len(),
            k <= n,
            pool@.len() == n,
            forall|x: int| 0 <= x < n ==> #[trigger] pool@[x] < n,
            forall|a: int, b: int| 0 <= a < b < n ==> pool@[a] != pool@[b],
            start@ == pool@.subrange(0, c as int),
        decreases k - c,
    {
        start.push(pool[c]);
        c = c + 1;
    }
    start
}

/// Picks `k` distinct positions below `n` at random: draws `j` from `j..n`
/// for each `j < k` and shuffles by those draws.
pub fn pick_start(n: usize, k: usize) -> (r: Vec<usize>)
    requires
        k <= n,
    ensures
        valid_start(r@, k as nat, n as nat),
        exists|draws: Seq<usize>|
            {
                &&& draws.len() == k
                &&& valid_draws(draws, n as nat)
                &&& r@ == #[trigger] shuffled(n as nat, draws, k as nat).subrange(0, k as int)
            },
{
    let mut draws: Vec<usize> = Vec::new();
    let mut j: usize = 0;
    while j < k
        invariant
            j <= k,
            k <= n,
            draws@.len() == j,
            valid_draws(draws@, n as nat),
        decreases k - j,
    {
        let r = random_index(j, n);
        draws.push(r);
        j = j + 1;
    }
    shuffle_prefix(n, &draws)
}

/// A copy of a point.
fn copy_point(p: &Vec<i64>) -> (r: Vec<i64>)
    ensures
        r@ == p@,
{
    let mut q: Vec<i64> = Vec::new();
    let mut j: usize = 0;
    while j < p.len()
        invariant
            j <= p@.len(),
            q@ == p@.subrange(0, j as int),
        decreases p@.len() - j,
    {
        q.push(p[j]);
        j = j + 1;
    }
    proof {
        assert(q@ =~= p@);
    }
    q
}

/// The points at the positions of `start`, as initial means.
pub fn initial_means(data: &Vec<Vec<i64>>, start: &Vec<usize>) -> (r: Vec<Vec<i64>>)
    requires
        forall|c: int| 0 <= c < start@.len() ==> #[trigger] start@[c] < data@.len(),
    ensures
        points(r@) == seed_means(points(data@), start@),
{
    let mut means: Vec<Vec<i64>> = Vec::new();
    let mut c: usize = 0;
    while c < start.len()
        invariant
            c <= start@.len(),
            forall|x: int| 0 <= x < start@.len() ==> #[trigger] start@[x] < data@.len(),
            means@.len() == c,
            forall|x: int|
                0 <= x < c ==> #[trigger] means@[x]@ == data@[start@[x] as int]@,
        decreases start@.len() - c,
    {
        let i = start[c];
        let m = copy_point(&data[i]);
        means.push(m);
        c = c + 1;
    }
    proof {
        assert(points(means@) =~= seed_means(points(data@), start@));
    }
    means
}

/// Zero labels for `n` points.
fn zero_labels(n: usize) -> (r: Vec<usize>)
    ensures
        r@.len() == n,
{
    let mut v: Vec<usize> = Vec::new();
    let mut i: usize = 0;
    while i < n
        invariant
            i <= n,
            v@.len() == i,
        decreases n - i,
    {
        v.push(0);
        i = i + 1;
    }
    v
}

/// One restart from the initial means at the positions of `start`: seed,
/// assign, refine.
pub fn run_trial(data: &Vec<Vec<i64>>, start: &Vec<usize>) -> (r: Result<
    (Vec<Vec<i64>>, Vec<usize>, u128),
    KmeansError,
>)
    requires
        well_formed(points(data@)),
        start@.len() > 0,
        forall|c: int| 0 <= c < start@.len() ==> #[trigger] start@[c] < data@.len(),
    ensures
        r is Ok <==> trial(points(data@), start@) is Ok,
        r matches Ok(t) ==> trial(points(data@), start@) == Ok::<_, KmeansError>(
            (points(t.0@), t.1@, t.2 as int),
        ),
        r matches Err(e) ==> trial(points(data@), start@) == Err::<
            (Seq<Seq<i64>>, Seq<usize>, int),
            KmeansError,
        >(e),
        r matches Ok(t) ==> t.0@.len() == start@.len(),
        r matches Ok(t) ==> t.1@.len() == data@.len(),
        r matches Ok(t) ==> forall|i: int| 0 <= i < t.1@.len() ==> #[trigger] t.1@[i] < start@.len(),
{
    let ghost ds = points(data@);
    let mut means = initial_means(data, start);
    proof {
        assert forall|c: int| 0 <= c < points(means@).len() implies valid_point(
            #[trigger] points(means@)[c],
            dim_of(ds),
        ) by {
            assert(points(means@)[c] == ds[start@[c] as int]);
        }
    }
    let mut labels = zero_labels(data.len());
    let _ = assign_data_to_clusters(&means, data, &mut labels);
    proof {
        lemma_assignment_in_range(points(means@), ds);
    }
    match kmeans_iter(&mut means, data, &mut labels) {
        Ok(l) => {
            proof {
                lemma_assignment_in_range(points(means@), ds);
            }
            Ok((means, labels, l))
        },
        Err(e) => Err(e),
    }
}

/// Runs one restart from each of `starts` and keeps the best: the first
/// restart with the strictly lowest loss among those that did not empty a
/// cluster. Fails with `EmptyCluster` only when every restart emptied one.
pub fn kmeans_from_starts(data: &Vec<Vec<i64>>, k: usize, starts: &Vec<Vec<usize>>) -> (r: Result<
    Clustering,
    KmeansError,
>)
    requires
        well_formed(points(data@)),
        k > 0,
        starts@.len() > 0,
        forall|t: int|
            0 <= t < starts@.len() ==> valid_start(
                #[trigger] starts@[t]@,
                k as nat,
                data@.len() as nat,
            ),
    ensures
        describes(r, select(points(data@), starts_view(starts@)), data@),
        r matches Ok(c) ==> c.0@.len() == k,
        r matches Ok(c) ==> forall|i: int| 0 <= i < c.1@.len() ==> (#[trigger] c.1@[i]).0 < k,
{
    let ghost ds = points(data@);
    let ghost sv = starts_view(starts@);
    let ghost os = trials(ds, sv);
    let mut best: Option<(Vec<Vec<i64>>, Vec<usize>, u128)> = None;
    let mut t: usize = 0;
    while t < starts.len()
        invariant
            t <= starts@.len(),
            ds == points(data@),
            well_formed(ds),
            k > 0,
            sv == starts_view(starts@),
            os == trials(ds, sv),
            forall|u: int|
                0 <= u < starts@.len() ==> valid_start(
                    #[trigger] starts@[u]@,
                    k as nat,
                    data@.len() as nat,
                ),
            best_upto(os, t as nat) is None <==> best is None,
            best matches Some(x) ==> os[best_upto(os, t as nat)->Some_0 as int] == Ok::<
                _,
                KmeansError,
            >((points(x.0@), x.1@, x.2 as int)),
            best matches Some(x) ==> x.0@.len() == k && x.1@.len() == data@.len(),
            best matches Some(x) ==> forall|i: int|
                0 <= i < x.1@.len() ==> #[trigger] x.1@[i] < k,
        decreases starts@.len() - t,
    {
        let start = &starts[t];
        proof {
            assert(valid_start(start@, k as nat, data@.len() as nat));
            assert(os[t as int] == trial(ds, start@));
        }
        match run_trial(data, start) {
            Ok(res) => {
                let better = match &best {
                    None => true,
                    Some(x) => res.2 < x.2,
                };
                if better {
                    best = Some(res);
                }
            },
            Err(_) => {},
        }
        t = t + 1;
    }
    match best {
        None => Err(KmeansError::EmptyCluster),
        Some(b) => {
            let (means, labels, loss) = b;
            let mut pairs: Vec<(usize, Vec<i64>)> = Vec::new();
            let mut i: usize = 0;
            while i < data.len()
                invariant
                    i <= data@.len(),
                    labels@.len() == data@.len(),
                    forall|x: int| 0 <= x < labels@.len() ==> #[trigger] labels@[x] < k,
                    pairs@.len() == i,
                    forall|x: int|
                        0 <= x < i ==> (#[trigger] pairs@[x]).0 == labels@[x] && pairs@[x].1@
                            == data@[x]@,
                decreases data@.len() - i,
            {
                let p = copy_point(&data[i]);
                pairs.push((labels[i], p));
                i = i + 1;
            }
            proof {
                assert(labels_of(pairs@) =~= labels@);
            }
            Ok((means, pairs, loss))
        },
    }
}

/// k-means clustering with `restarts` random restarts. Fails with `InvalidK`
/// when `k` is zero or exceeds the number of points; otherwise the result is
/// the best-of-N selection over restarts from some `k` distinct random
/// positions each.
pub fn kmeans(data: &Vec<Vec<i64>>, k: usize, restarts: usize) -> (r: Result<
    Clustering,
    KmeansError,
>)
    requires
        well_formed(points(data@)),
        0 < k <= data@.len() ==> restarts > 0,
    ensures
        (k == 0 || k > data@.len()) <==> r matches Err(KmeansError::InvalidK),
        0 < k <= data@.len() ==> exists|starts: Seq<Seq<usize>>|
            {
                &&& starts.len() == restarts
                &&& forall|t: int|
                    0 <= t < restarts ==> valid_start(#[trigger] starts[t], k as nat, data@.len() as nat)
                &&& describes(r, select(points(data@), starts), data@)
            },
        r matches Ok(c) ==> c.0@.len() == k,
        r matches Ok(c) ==> c.1@.len() == data@.len(),
        r matches Ok(c) ==> forall|i: int|
            0 <= i < c.1@.len() ==> (#[trigger] c.1@[i]).0 < k && c.1@[i].1@ == data@[i]@,
{
    if k == 0 || k > data.len() {
        return Err(KmeansError::InvalidK);
    }
    let mut starts: Vec<Vec<usize>> = Vec::new();
    let mut t: usize = 0;
    while t < restarts
        invariant
            t <= restarts,
            0 < k <= data@.len(),
            starts@.len() == t,
            forall|u: int|
                0 <= u < t ==> valid_start(
                    #[trigger] starts@[u]@,
                    k as nat,
                    data@.len() as nat,
                ),
        decreases restarts - t,
    {
        let s = pick_start(data.len(), k);
        starts.push(s);
        t = t + 1;
    }
    let r = kmeans_from_starts(data, k, &starts);
    proof {
        let sv = starts_view(starts@);
        assert(forall|u: int| 0 <= u < restarts ==> #[trigger] sv[u] == starts@[u]@);
        best_of_restarts(points(data@), sv);
    }
    r
}

} // verus!
