//! Mathematical model of feature matrices, centroids, assignments and the k-means run.
use vstd::prelude::*;

verus! {

/// Fixed-point denominator of centroid coordinates.
pub const SCALE: u64 = 1000;

/// Largest centroid coordinate: the brightest channel value, scaled.
pub const MAX_COORD: u64 = 255000;

/// Largest supported feature-vector width; it keeps a squared distance within `u64`.
pub const MAX_DIM: usize = 65536;

/// Largest squared difference along one dimension.
pub open spec fn max_sq() -> int {
    MAX_COORD as int * MAX_COORD as int
}

/// Why a clustering request was rejected.
#[derive(Debug, Clone, Copy, PartialEq, Eq, Structural)]
pub enum ClusterError {
    /// `k` is zero or larger than the number of samples.
    InvalidClusterCount,
    /// Centroid rows and feature rows differ in width, or feature rows differ among themselves.
    DimensionMismatch,
    /// The feature matrix has no rows.
    EmptyInput,
}

/// The nested sequence seen through each row's view.
pub open spec fn rows<T>(m: Seq<Vec<T>>) -> Seq<Seq<T>> {
    m.map_values(|r: Vec<T>| r@)
}

/// Width of the feature vectors (that of the first row).
pub open spec fn dim(xs: Seq<Seq<u8>>) -> int {
    if xs.len() == 0 { 0 } else { xs[0].len() as int }
}

/// Every feature row has the width of the first one.
pub open spec fn rectangular(xs: Seq<Seq<u8>>) -> bool {
    forall|i: int| 0 <= i < xs.len() ==> (#[trigger] xs[i]).len() == dim(xs)
}

/// A non-empty rectangular feature matrix of supported width.
pub open spec fn features_wf(xs: Seq<Seq<u8>>) -> bool {
    &&& xs.len() > 0
    &&& dim(xs) <= MAX_DIM
    &&& rectangular(xs)
}

/// Every centroid coordinate is within the channel range.
pub open spec fn coords_bounded(cs: Seq<Seq<u64>>) -> bool {
    forall|c: int, j: int| 0 <= c < cs.len() && 0 <= j < cs[c].len() ==> #[trigger] cs[c][j] <= MAX_COORD
}

/// Every centroid row has width `d` and in-range coordinates.
pub open spec fn centroids_wf(cs: Seq<Seq<u64>>, d: int) -> bool {
    &&& forall|c: int| 0 <= c < cs.len() ==> (#[trigger] cs[c]).len() == d
    &&& coords_bounded(cs)
}

/// Squared Euclidean distance between sample `x` and centroid `c` over their first `n` dimensions.
pub open spec fn sq_dist_upto(x: Seq<u8>, c: Seq<u64>, n: int) -> int
    decreases n,
{
    if n <= 0 {
        0
    } else {
        let d = x[n - 1] as int * SCALE as int - c[n - 1] as int;
        sq_dist_upto(x, c, n - 1) + d * d
    }
}

/// Squared Euclidean distance between sample `x` and centroid `c`, in units of `1 / SCALE²`.
pub open spec fn sq_dist(x: Seq<u8>, c: Seq<u64>) -> int {
    sq_dist_upto(x, c, x.len() as int)
}

/// Index of the nearest among the first `m` centroids; ties go to the lowest index.
pub open spec fn nearest_upto(x: Seq<u8>, cs: Seq<Seq<u64>>, m: int) -> int
    decreases m,
{
    if m <= 1 {
        0
    } else {
        let b = nearest_upto(x, cs, m - 1);
        if sq_dist(x, cs[m - 1]) < sq_dist(x, cs[b]) {
            m - 1
        } else {
            b
        }
    }
}

/// Index of the centroid nearest to `x`; ties go to the lowest index.
pub open spec fn nearest(x: Seq<u8>, cs: Seq<Seq<u64>>) -> int {
    nearest_upto(x, cs, cs.len() as int)
}

/// The cluster of each sample.
pub open spec fn labels(cs: Seq<Seq<u64>>, xs: Seq<Seq<u8>>) -> Seq<int> {
    Seq::new(xs.len(), |i: int| nearest(xs[i], cs))
}

/// Indices below `n` labelled `c`, in increasing order.
pub open spec fn members(lab: Seq<int>, c: int, n: int) -> Seq<usize>
    decreases n,
{
    if n <= 0 {
        Seq::empty()
    } else if lab[n - 1] == c {
        members(lab, c, n - 1).push((n - 1) as usize)
    } else {
        members(lab, c, n - 1)
    }
}

/// The assignment that labels `lab` describe: for each of `k` clusters its sample indices.
pub open spec fn clusters_of(lab: Seq<int>, k: int) -> Seq<Seq<usize>> {
    Seq::new(k as nat, |c: int| members(lab, c, lab.len() as int))
}

/// Sum over the first `n` samples of the squared distance to their nearest centroid.
pub open spec fn total_error_upto(cs: Seq<Seq<u64>>, xs: Seq<Seq<u8>>, n: int) -> int
    decreases n,
{
    if n <= 0 {
        0
    } else {
        total_error_upto(cs, xs, n - 1) + sq_dist(xs[n - 1], cs[nearest(xs[n - 1], cs)])
    }
}

/// Total squared error of the assignment of every sample to its nearest centroid.
pub open spec fn total_error(cs: Seq<Seq<u64>>, xs: Seq<Seq<u8>>) -> int {
    total_error_upto(cs, xs, xs.len() as int)
}

/// Sum of coordinate `j` over the samples listed in `s`.
pub open spec fn idx_sum(xs: Seq<Seq<u8>>, s: Seq<usize>, j: int) -> int
    decreases s.len(),
{
    if s.len() == 0 {
        0
    } else {
        idx_sum(xs, s.drop_last(), j) + xs[s.last() as int][j] as int
    }
}

/// `SCALE * sum / n` rounded to nearest, halves up.
pub open spec fn scaled_mean(sum: int, n: int) -> int {
    (2 * SCALE as int * sum + n) / (2 * n)
}

/// Coordinate `j` of the mean of the samples listed in `s`; zero for an empty list.
pub open spec fn mean_coord(xs: Seq<Seq<u8>>, s: Seq<usize>, j: int) -> int {
    if s.len() == 0 {
        0
    } else {
        scaled_mean(idx_sum(xs, s, j), s.len() as int)
    }
}

/// The centroids of width `d` that an assignment `cl` yields: each the mean of its cluster.
pub open spec fn centroids_of(xs: Seq<Seq<u8>>, cl: Seq<Seq<usize>>, d: int) -> Seq<Seq<u64>> {
    Seq::new(cl.len(), |c: int| Seq::new(d as nat, |j: int| mean_coord(xs, cl[c], j) as u64))
}

/// The relative change from `prev` to `err` is under one percent.
pub open spec fn converged(prev: int, err: int) -> bool {
    let diff = if prev >= err { prev - err } else { err - prev };
    100 * diff < err
}

/// The k-means loop from iteration `iter` on, with centroids `cs`, the latest assignment
/// `cl` and the previous total error `prev`; it yields the final centroids and assignment.
pub open spec fn run(
    cs: Seq<Seq<u64>>,
    cl: Seq<Seq<usize>>,
    prev: int,
    iter: int,
    max: int,
    xs: Seq<Seq<u8>>,
) -> (Seq<Seq<u64>>, Seq<Seq<usize>>)
    decreases max - iter,
{
    if iter >= max {
        (cs, cl)
    } else {
        let ncl = clusters_of(labels(cs, xs), cs.len() as int);
        let err = total_error(cs, xs);
        if iter > 0 && converged(prev, err) {
            (cs, ncl)
        } else {
            run(centroids_of(xs, ncl, dim(xs)), ncl, err, iter + 1, max, xs)
        }
    }
}

/// The outcome of k-means from initial centroids `init` with an iteration budget `max`.
pub open spec fn k_means_result(init: Seq<Seq<u64>>, max: int, xs: Seq<Seq<u8>>) -> (
    Seq<Seq<u64>>,
    Seq<Seq<usize>>,
) {
    run(init, Seq::new(init.len(), |c: int| Seq::<usize>::empty()), 0, 0, max, xs)
}

/// The error, if any, for clustering `xs` into `k` clusters.
pub open spec fn k_means_error(k: int, xs: Seq<Seq<u8>>) -> Option<ClusterError> {
    if xs.len() == 0 {
        Some(ClusterError::EmptyInput)
    } else if k == 0 || k > xs.len() {
        Some(ClusterError::InvalidClusterCount)
    } else if !rectangular(xs) {
        Some(ClusterError::DimensionMismatch)
    } else {
        None
    }
}

/// The error, if any, for assigning the samples `xs` to the centroids `cs`.
pub open spec fn assign_error(cs: Seq<Seq<u64>>, xs: Seq<Seq<u8>>) -> Option<ClusterError> {
    if xs.len() == 0 {
        Some(ClusterError::EmptyInput)
    } else if cs.len() == 0 || cs.len() > xs.len() {
        Some(ClusterError::InvalidClusterCount)
    } else if !rectangular(xs) || exists|c: int| 0 <= c < cs.len() && (#[trigger] cs[c]).len() != dim(xs) {
        Some(ClusterError::DimensionMismatch)
    } else {
        None
    }
}

/// The members of a cluster among the first `n` samples are those below `n` labelled
/// with it, each once and in increasing order.
pub proof fn lemma_members(lab: Seq<int>, c: int, n: int)
    requires
        0 <= n <= lab.len(),
        lab.len() <= usize::MAX,
    ensures
        forall|t: int| 0 <= t < members(lab, c, n).len() ==> #[trigger] members(lab, c, n)[t] < n,
        forall|a: int, b: int|
            0 <= a < b < members(lab, c, n).len() ==> #[trigger] members(lab, c, n)[a] < #[trigger] members(
                lab,
                c,
                n,
            )[b],
        forall|i: int| 0 <= i < n ==> (#[trigger] members(lab, c, n).contains(i as usize) <==> lab[i] == c),
    decreases n,
{
    if n > 0 {
        lemma_members(lab, c, n - 1);
        let prev = members(lab, c, n - 1);
        let cur = members(lab, c, n);
        assert forall|i: int| 0 <= i < n implies (#[trigger] cur.contains(i as usize) <==> lab[i] == c) by {
            if i < n - 1 {
                if cur.contains(i as usize) {
                    let t = choose|t: int| 0 <= t < cur.len() && cur[t] == i as usize;
                    if t < prev.len() {
                        assert(prev[t] == cur[t]);
                    }
                }
                if prev.contains(i as usize) {
                    let t = choose|t: int| 0 <= t < prev.len() && prev[t] == i as usize;
                    assert(cur[t] == prev[t]);
                }
            } else {
                if lab[i] == c {
                    assert(cur[cur.len() - 1] == i as usize);
                } else {
                    if cur.contains(i as usize) {
                        let t = choose|t: int| 0 <= t < cur.len() && cur[t] == i as usize;
                        assert(prev[t] < n - 1);
                    }
                }
            }
        }
    }
}

} // verus!
