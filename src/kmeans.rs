//! The k-means driver: random initial centroids, then assignment and update until the
//! total error settles or the iteration budget runs out.
use vstd::prelude::*;
use ndarray::Array2;
use ndarray_rand::rand::rngs::StdRng;
use ndarray_rand::rand::SeedableRng;
use ndarray_rand::rand_distr::Uniform;
use ndarray_rand::RandomExt;
use crate::assign::{assign_valid, check_assign_inputs, is_rectangular};
use crate::model::{
    assign_error, centroids_wf, clusters_of, converged, coords_bounded, dim, features_wf,
    k_means_error, k_means_result, labels, lemma_members, rows, run, ClusterError, MAX_DIM, SCALE,
};
use crate::update::compute_centroids_from_cluster;

verus! {

/// Whether the total error moved by less than one percent from `prev` to `err`.
pub fn is_converged(prev: u128, err: u128) -> (r: bool)
    ensures
        r == converged(prev as int, err as int),
{
    let diff: u128 = if prev >= err {
        prev - err
    } else {
        err - prev
    };
    match diff.checked_mul(100) {
        Some(p) => p < err,
        None => false,
    }
}

/// The clusters of an assignment list only sample indices.
proof fn lemma_clusters_in_range(lab: Seq<int>, k: int)
    requires
        lab.len() <= usize::MAX,
        k >= 0,
    ensures
        forall|c: int, t: int|
            0 <= c < k && 0 <= t < clusters_of(lab, k)[c].len() ==> #[trigger] clusters_of(lab, k)[c][t]
                < lab.len(),
{
    assert forall|c: int, t: int|
        0 <= c < k && 0 <= t < clusters_of(lab, k)[c].len() implies #[trigger] clusters_of(lab, k)[c][t]
        < lab.len() by {
        lemma_members(lab, c, lab.len() as int);
    }
}

/// Runs k-means from the given initial centroids for at most `max_iterations` rounds.
///
/// Each round assigns the samples to the current centroids; from the second round on it
/// stops there when the total error changed by less than one percent, returning the
/// centroids that produced the assignment. Otherwise the centroids become the means of
/// their clusters. Returns the final centroids and assignment.
pub fn k_means_from(
    initial_centroids: Vec<Vec<u64>>,
    max_iterations: usize,
    features: &Vec<Vec<u8>>,
) -> (r: Result<(Vec<Vec<u64>>, Vec<Vec<usize>>), ClusterError>)
    requires
        features@.len() > 0 ==> features@[0]@.len() <= MAX_DIM,
        coords_bounded(rows(initial_centroids@)),
    ensures
        r is Err <==> assign_error(rows(initial_centroids@), rows(features@)) is Some,
        r is Err ==> r->Err_0 == assign_error(rows(initial_centroids@), rows(features@))->Some_0,
        r is Ok ==> (rows(r->Ok_0.0@), rows(r->Ok_0.1@)) == k_means_result(
            rows(initial_centroids@),
            max_iterations as int,
            rows(features@),
        ),
{
    if let Some(e) = check_assign_inputs(&initial_centroids, features) {
        return Err(e);
    }
    let ghost xs = rows(features@);
    let ghost init0 = rows(initial_centroids@);
    let ghost goal = k_means_result(init0, max_iterations as int, xs);
    let k = initial_centroids.len();
    let mut cl: Vec<Vec<usize>> = Vec::new();
    let mut c: usize = 0;
    while c < k
        invariant
            c <= k,
            cl@.len() == c,
            forall|t: int| 0 <= t < c ==> (#[trigger] cl@[t])@.len() == 0,
        decreases k - c,
    {
        cl.push(Vec::new());
        c = c + 1;
    }
    assert(rows(cl@) =~~= Seq::new(k as nat, |t: int| Seq::<usize>::empty()));
    let mut cs = initial_centroids;
    let mut prev: u128 = 0;
    let mut iter: usize = 0;
    while iter < max_iterations
        invariant
            xs == rows(features@),
            features_wf(xs),
            k >= 1,
            cs@.len() == k,
            centroids_wf(rows(cs@), dim(xs)),
            iter <= max_iterations,
            run(rows(cs@), rows(cl@), prev as int, iter as int, max_iterations as int, xs) == goal,
            init0 == rows(initial_centroids@),
            goal == k_means_result(init0, max_iterations as int, xs),
            assign_error(init0, xs) is None,
        decreases max_iterations - iter,
    {
        let (ncl, err) = assign_valid(&cs, features);
        if iter > 0 && is_converged(prev, err) {
            return Ok((cs, ncl));
        }
        let n = features.len();
        proof {
            let lab = labels(rows(cs@), xs);
            assert(lab.len() == n);
            lemma_clusters_in_range(lab, k as int);
            assert forall|c: int, t: int|
                0 <= c < ncl@.len() && 0 <= t < ncl@[c]@.len() implies #[trigger] ncl@[c]@[t]
                < features@.len() by {
                assert(rows(ncl@)[c] == ncl@[c]@);
                assert(clusters_of(lab, k as int)[c][t] < lab.len());
            }
        }
        let ncs = compute_centroids_from_cluster(&ncl, features);
        assert(rows(ncs@).len() == ncs@.len());
        assert(rows(ncl@).len() == ncl@.len());
        cs = ncs;
        cl = ncl;
        prev = err;
        iter = iter + 1;
    }
    Ok((cs, cl))
}

/// Relies on ndarray_rand's `RandomExt::random_using`: a `rows` × `cols` array whose
/// entries are drawn from rand's `Uniform::new(0, bound)`, which samples the half-open
/// range `0..bound` (and panics on an empty range), using a `StdRng` seeded by
/// `SeedableRng::seed_from_u64(seed)`. The array constructor panics when the element
/// count overflows `isize`.
#[verifier::external_body]
fn uniform_matrix(rows: usize, cols: usize, bound: u64, seed: u64) -> (r: Vec<Vec<u64>>)
    requires
        0 < bound,
        rows * cols <= isize::MAX,
    ensures
        r@.len() == rows,
        forall|i: int| 0 <= i < rows ==> (#[trigger] r@[i])@.len() == cols,
        forall|i: int, j: int| 0 <= i < rows && 0 <= j < cols ==> #[trigger] r@[i]@[j] < bound,
{
    let mut rng = StdRng::seed_from_u64(seed);
    let m: Array2<u64> = Array2::random_using((rows, cols), Uniform::new(0, bound), &mut rng);
    m.outer_iter().map(|row| row.to_vec()).collect()
}

/// Clusters the samples into `k` groups by k-means, for at most `max_iterations` rounds.
///
/// The initial centroids are drawn from the generator seeded by `seed`, each coordinate
/// uniformly from `[0, 1)` in steps of `1 / SCALE`; the rest is `k_means_from`.
pub fn k_means(k: usize, max_iterations: usize, features: &Vec<Vec<u8>>, seed: u64) -> (r: Result<
    (Vec<Vec<u64>>, Vec<Vec<usize>>),
    ClusterError,
>)
    requires
        features@.len() > 0 ==> features@[0]@.len() <= MAX_DIM,
        features@.len() > 0 ==> k * features@[0]@.len() <= isize::MAX,
    ensures
        r is Err <==> k_means_error(k as int, rows(features@)) is Some,
        r is Err ==> r->Err_0 == k_means_error(k as int, rows(features@))->Some_0,
        r is Ok ==> exists|init: Seq<Seq<u64>>|
            {
                &&& init.len() == k
                &&& centroids_wf(init, dim(rows(features@)))
                &&& forall|c: int, j: int|
                    0 <= c < k && 0 <= j < dim(rows(features@)) ==> #[trigger] init[c][j] < SCALE
                &&& (rows(r->Ok_0.0@), rows(r->Ok_0.1@)) == k_means_result(
                    init,
                    max_iterations as int,
                    rows(features@),
                )
            },
{
    let ghost xs = rows(features@);
    if features.len() == 0 {
        return Err(ClusterError::EmptyInput);
    }
    if k == 0 || k > features.len() {
        return Err(ClusterError::InvalidClusterCount);
    }
    if !is_rectangular(features) {
        return Err(ClusterError::DimensionMismatch);
    }
    let width = features[0].len();
    let init = uniform_matrix(k, width, SCALE, seed);
    let ghost init_rows = rows(init@);
    assert(centroids_wf(init_rows, dim(xs)));
    assert(assign_error(init_rows, xs) is None);
    let r = k_means_from(init, max_iterations, features);
    assert(forall|c: int, j: int|
        0 <= c < k && 0 <= j < dim(xs) ==> #[trigger] init_rows[c][j] < SCALE);
    r
}

} // verus!
