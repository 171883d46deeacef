//! The assignment step: each sample goes to its nearest centroid.
use vstd::prelude::*;
use crate::model::{
    assign_error, clusters_of, coords_bounded, dim, features_wf, labels, members, rectangular,
    total_error, total_error_upto, ClusterError, centroids_wf, max_sq, nearest, nearest_upto, rows, sq_dist, sq_dist_upto, MAX_COORD, MAX_DIM, SCALE,
};

verus! {

/// A squared distance over `n` dimensions is at least zero and at most `n` maximal squares.
pub proof fn lemma_sq_dist_bounds(x: Seq<u8>, c: Seq<u64>, n: int)
    requires
        0 <= n <= x.len(),
        n <= c.len(),
        forall|j: int| 0 <= j < n ==> #[trigger] c[j] <= MAX_COORD,
    ensures
        0 <= sq_dist_upto(x, c, n) <= n * max_sq(),
    decreases n,
{
    if n > 0 {
        lemma_sq_dist_bounds(x, c, n - 1);
        let d = x[n - 1] as int * SCALE as int - c[n - 1] as int;
        assert(0 <= d * d <= max_sq()) by (nonlinear_arith)
            requires
                -(MAX_COORD as int) <= d <= MAX_COORD as int,
                max_sq() == MAX_COORD as int * MAX_COORD as int,
        ;
        assert((n - 1) * max_sq() + max_sq() == n * max_sq()) by (nonlinear_arith);
    }
}

/// Squared Euclidean distance between a sample and a centroid, in units of `1 / SCALE²`.
pub fn squared_distance(x: &Vec<u8>, c: &Vec<u64>) -> (r: u64)
    requires
        x@.len() == c@.len(),
        x@.len() <= MAX_DIM,
        forall|j: int| 0 <= j < c@.len() ==> #[trigger] c@[j] <= MAX_COORD,
    ensures
        r as int == sq_dist(x@, c@),
{
    let mut acc: u64 = 0;
    let mut j: usize = 0;
    while j < x.len()
        invariant
            j <= x@.len(),
            x@.len() == c@.len(),
            x@.len() <= MAX_DIM,
            forall|t: int| 0 <= t < c@.len() ==> #[trigger] c@[t] <= MAX_COORD,
            acc as int == sq_dist_upto(x@, c@, j as int),
        decreases x@.len() - j,
    {
        proof {
            lemma_sq_dist_bounds(x@, c@, j as int + 1);
            assert((j as int + 1) * max_sq() <= MAX_DIM as int * max_sq()) by (nonlinear_arith)
                requires
                    j as int + 1 <= MAX_DIM as int,
                    max_sq() >= 0,
            ;
        }
        let a: u64 = x[j] as u64 * SCALE;
        let b: u64 = c[j];
        let d: u64 = if a >= b { a - b } else { b - a };
        assert(d as int * d as int == (a as int - b as int) * (a as int - b as int)) by (nonlinear_arith)
            requires
                d as int == a as int - b as int || d as int == b as int - a as int,
        ;
        acc = acc + d * d;
        j = j + 1;
    }
    acc
}

/// `nearest_upto` picks an index below `m` whose distance is least, and strictly less
/// than that of every lower index.
pub proof fn lemma_nearest_upto(x: Seq<u8>, cs: Seq<Seq<u64>>, m: int)
    requires
        1 <= m <= cs.len(),
    ensures
        0 <= nearest_upto(x, cs, m) < m,
        forall|t: int|
            0 <= t < m ==> sq_dist(x, cs[nearest_upto(x, cs, m)]) <= #[trigger] sq_dist(x, cs[t]),
        forall|t: int|
            0 <= t < nearest_upto(x, cs, m) ==> sq_dist(x, cs[nearest_upto(x, cs, m)]) < #[trigger] sq_dist(
                x,
                cs[t],
            ),
    decreases m,
{
    if m > 1 {
        lemma_nearest_upto(x, cs, m - 1);
    }
}

/// Index of the centroid nearest to `x` (lowest index on ties) and the squared distance to it.
pub fn nearest_centroid(x: &Vec<u8>, centroids: &Vec<Vec<u64>>) -> (r: (usize, u64))
    requires
        centroids@.len() >= 1,
        x@.len() <= MAX_DIM,
        centroids_wf(rows(centroids@), x@.len() as int),
    ensures
        r.0 as int == nearest(x@, rows(centroids@)),
        r.0 < centroids@.len(),
        r.1 as int == sq_dist(x@, centroids@[r.0 as int]@),
{
    let ghost cs = rows(centroids@);
    assert(forall|c: int| 0 <= c < cs.len() ==> #[trigger] cs[c] == centroids@[c]@);
    assert(cs[0] == centroids@[0]@);
    let mut best: usize = 0;
    let mut best_d: u64 = squared_distance(x, &centroids[0]);
    let mut c: usize = 1;
    while c < centroids.len()
        invariant
            1 <= c <= centroids@.len(),
            cs == rows(centroids@),
            cs.len() == centroids@.len(),
            forall|t: int| 0 <= t < cs.len() ==> #[trigger] cs[t] == centroids@[t]@,
            x@.len() <= MAX_DIM,
            centroids_wf(cs, x@.len() as int),
            best as int == nearest_upto(x@, cs, c as int),
            best < c,
            best_d as int == sq_dist(x@, cs[best as int]),
        decreases centroids@.len() - c,
    {
        assert(cs[c as int] == centroids@[c as int]@);
        let d = squared_distance(x, &centroids[c]);
        if d < best_d {
            best = c;
            best_d = d;
        }
        c = c + 1;
    }
    (best, best_d)
}

/// Whether every feature row has the width of the first one.
pub fn is_rectangular(features: &Vec<Vec<u8>>) -> (r: bool)
    ensures
        r == rectangular(rows(features@)),
{
    let ghost xs = rows(features@);
    if features.len() == 0 {
        return true;
    }
    let width = features[0].len();
    let mut i: usize = 1;
    while i < features.len()
        invariant
            xs == rows(features@),
            features@.len() >= 1,
            width == xs[0].len(),
            1 <= i <= features@.len(),
            forall|t: int| 0 <= t < i ==> (#[trigger] xs[t]).len() == width,
        decreases features@.len() - i,
    {
        if features[i].len() != width {
            assert(xs[i as int] == features@[i as int]@);
            return false;
        }
        i = i + 1;
    }
    true
}

/// Assignment step on inputs already known to be valid.
pub(crate) fn assign_valid(centroids: &Vec<Vec<u64>>, features: &Vec<Vec<u8>>) -> (r: (
    Vec<Vec<usize>>,
    u128,
))
    requires
        features_wf(rows(features@)),
        centroids@.len() >= 1,
        centroids_wf(rows(centroids@), dim(rows(features@))),
    ensures
        rows(r.0@) == clusters_of(
            labels(rows(centroids@), rows(features@)),
            centroids@.len() as int,
        ),
        r.1 as int == total_error(rows(centroids@), rows(features@)),
{
    let ghost cs = rows(centroids@);
    let ghost xs = rows(features@);
    let ghost lab = labels(cs, xs);
    let ghost bound = MAX_DIM as int * max_sq();
    let n = features.len();
    let mut found: Vec<usize> = Vec::new();
    let mut total: u128 = 0;
    let mut i: usize = 0;
    while i < n
        invariant
            n == features@.len(),
            cs == rows(centroids@),
            xs == rows(features@),
            lab == labels(cs, xs),
            bound == MAX_DIM as int * max_sq(),
            features_wf(xs),
            centroids@.len() >= 1,
            centroids_wf(cs, dim(xs)),
            i <= n,
            found@.len() == i,
            forall|t: int| 0 <= t < i ==> #[trigger] found@[t] as int == lab[t],
            total as int == total_error_upto(cs, xs, i as int),
            total as int <= i as int * bound,
        decreases n - i,
    {
        assert(xs[i as int] == features@[i as int]@);
        let (c, d) = nearest_centroid(&features[i], centroids);
        proof {
            assert(cs[c as int] == centroids@[c as int]@);
            lemma_sq_dist_bounds(xs[i as int], cs[c as int], dim(xs));
            assert(dim(xs) * max_sq() <= bound) by (nonlinear_arith)
                requires
                    dim(xs) <= MAX_DIM as int,
                    max_sq() >= 0,
                    bound == MAX_DIM as int * max_sq(),
            ;
            assert(i as int * bound + bound == (i as int + 1) * bound) by (nonlinear_arith);
            assert((i as int + 1) * bound <= 0x1_0000_0000_0000_0000 * bound) by (nonlinear_arith)
                requires
                    i < n,
                    n <= usize::MAX,
                    bound >= 0,
            ;
        }
        total = total + d as u128;
        found.push(c);
        i = i + 1;
    }
    let k = centroids.len();
    let mut cl: Vec<Vec<usize>> = Vec::new();
    let mut c: usize = 0;
    while c < k
        invariant
            k == centroids@.len(),
            n == features@.len(),
            n == lab.len(),
            found@.len() == n,
            forall|t: int| 0 <= t < n ==> #[trigger] found@[t] as int == lab[t],
            c <= k,
            cl@.len() == c,
            forall|t: int| 0 <= t < c ==> #[trigger] cl@[t]@ == members(lab, t, n as int),
        decreases k - c,
    {
        let mut m: Vec<usize> = Vec::new();
        let mut i: usize = 0;
        while i < n
            invariant
                n == found@.len(),
                forall|t: int| 0 <= t < n ==> #[trigger] found@[t] as int == lab[t],
                i <= n,
                m@ == members(lab, c as int, i as int),
            decreases n - i,
        {
            if found[i] == c {
                m.push(i);
            }
            i = i + 1;
        }
        cl.push(m);
        c = c + 1;
    }
    assert(rows(cl@) =~= clusters_of(lab, k as int));
    (cl, total)
}

/// The error, if any, for assigning `features` to `centroids`.
pub fn check_assign_inputs(centroids: &Vec<Vec<u64>>, features: &Vec<Vec<u8>>) -> (r: Option<
    ClusterError,
>)
    ensures
        r == assign_error(rows(centroids@), rows(features@)),
{
    let ghost cs = rows(centroids@);
    let ghost xs = rows(features@);
    if features.len() == 0 {
        return Some(ClusterError::EmptyInput);
    }
    if centroids.len() == 0 || centroids.len() > features.len() {
        return Some(ClusterError::InvalidClusterCount);
    }
    if !is_rectangular(features) {
        return Some(ClusterError::DimensionMismatch);
    }
    let width = features[0].len();
    let mut c: usize = 0;
    while c < centroids.len()
        invariant
            cs == rows(centroids@),
            xs == rows(features@),
            features@.len() > 0,
            1 <= centroids@.len() <= features@.len(),
            width == dim(xs),
            c <= centroids@.len(),
            forall|t: int| 0 <= t < c ==> (#[trigger] cs[t]).len() == width,
        decreases centroids@.len() - c,
    {
        assert(cs[c as int] == centroids@[c as int]@);
        if centroids[c].len() != width {
            assert(cs[c as int].len() != dim(xs));
            return Some(ClusterError::DimensionMismatch);
        }
        c = c + 1;
    }
    None
}

/// Assigns every sample to its nearest centroid (lowest index on ties).
///
/// Returns, for each centroid in order, the indices of its samples in increasing order,
/// and the total squared error in units of `1 / SCALE²`.
pub fn assign_to_centroids(centroids: &Vec<Vec<u64>>, features: &Vec<Vec<u8>>) -> (r: Result<
    (Vec<Vec<usize>>, u128),
    ClusterError,
>)
    requires
        features@.len() > 0 ==> features@[0]@.len() <= MAX_DIM,
        coords_bounded(rows(centroids@)),
    ensures
        r is Err <==> assign_error(rows(centroids@), rows(features@)) is Some,
        r is Err ==> r->Err_0 == assign_error(rows(centroids@), rows(features@))->Some_0,
        r is Ok ==> rows(r->Ok_0.0@) == clusters_of(
            labels(rows(centroids@), rows(features@)),
            centroids@.len() as int,
        ),
        r is Ok ==> r->Ok_0.1 as int == total_error(rows(centroids@), rows(features@)),
{
    match check_assign_inputs(centroids, features) {
        Some(e) => Err(e),
        None => Ok(assign_valid(centroids, features)),
    }
}

} // verus!
