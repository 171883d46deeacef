//! The update step: each centroid becomes the mean of its cluster.
use vstd::prelude::*;
use vstd::arithmetic::div_mod::{lemma_fundamental_div_mod, lemma_mod_pos_bound};
use crate::model::{
    centroids_of, centroids_wf, dim, features_wf, idx_sum, mean_coord, rows, scaled_mean,
    MAX_COORD, SCALE,
};

verus! {

/// The rounded scaled mean of at most `n` channel values lies within the coordinate range.
pub proof fn lemma_scaled_mean_bound(sum: int, n: int)
    requires
        n > 0,
        0 <= sum <= 255 * n,
    ensures
        0 <= scaled_mean(sum, n) <= MAX_COORD,
{
    let d = 2 * n;
    let a = 2 * SCALE as int * sum + n;
    lemma_fundamental_div_mod(a, d);
    lemma_mod_pos_bound(a, d);
    let q = a / d;
    let m = a % d;
    assert(0 <= a <= 510001 * n) by (nonlinear_arith)
        requires
            a == 2 * SCALE as int * sum + n,
            0 <= sum <= 255 * n,
            n > 0,
    ;
    assert(0 <= q <= MAX_COORD) by (nonlinear_arith)
        requires
            a == d * q + m,
            0 <= m < d,
            d == 2 * n,
            n > 0,
            0 <= a <= 510001 * n,
    ;
}

/// Coordinate `j` of the mean of the samples listed in `idx`, zero for an empty list.
pub fn cluster_mean(features: &Vec<Vec<u8>>, idx: &Vec<usize>, j: usize) -> (r: u64)
    requires
        features_wf(rows(features@)),
        j < dim(rows(features@)),
        forall|t: int| 0 <= t < idx@.len() ==> #[trigger] idx@[t] < features@.len(),
    ensures
        r as int == mean_coord(rows(features@), idx@, j as int),
        r <= MAX_COORD,
{
    let ghost xs = rows(features@);
    if idx.len() == 0 {
        return 0;
    }
    let mut s: u128 = 0;
    let mut t: usize = 0;
    while t < idx.len()
        invariant
            xs == rows(features@),
            features_wf(xs),
            j < dim(xs),
            forall|u: int| 0 <= u < idx@.len() ==> #[trigger] idx@[u] < features@.len(),
            t <= idx@.len(),
            s as int == idx_sum(xs, idx@.take(t as int), j as int),
            s as int <= 255 * t as int,
        decreases idx@.len() - t,
    {
        let k = idx[t];
        assert(xs[k as int] == features@[k as int]@);
        assert(idx@.take(t as int + 1).drop_last() =~= idx@.take(t as int));
        s = s + features[k][j] as u128;
        t = t + 1;
    }
    assert(idx@.take(idx@.len() as int) =~= idx@);
    let n: u128 = idx.len() as u128;
    assert(2 * SCALE as int * s as int + n as int <= 0x1_0000_0000_0000_0000_0000 * 1000) by (nonlinear_arith)
        requires
            s as int <= 255 * n as int,
            n as int <= usize::MAX,
    ;
    let q: u128 = (2 * (SCALE as u128) * s + n) / (2 * n);
    proof {
        lemma_scaled_mean_bound(s as int, n as int);
    }
    q as u64
}

/// Recomputes each centroid as the mean of the samples assigned to it.
///
/// A cluster with no samples gets the all-zero centroid.
pub fn compute_centroids_from_cluster(cluster: &Vec<Vec<usize>>, features: &Vec<Vec<u8>>) -> (r: Vec<
    Vec<u64>,
>)
    requires
        features_wf(rows(features@)),
        forall|c: int, t: int|
            0 <= c < cluster@.len() && 0 <= t < cluster@[c]@.len() ==> #[trigger] cluster@[c]@[t]
                < features@.len(),
    ensures
        rows(r@) == centroids_of(rows(features@), rows(cluster@), dim(rows(features@))),
        centroids_wf(rows(r@), dim(rows(features@))),
{
    let ghost xs = rows(features@);
    let ghost cls = rows(cluster@);
    let ghost target = centroids_of(xs, cls, dim(xs));
    let width = features[0].len();
    let mut out: Vec<Vec<u64>> = Vec::new();
    let mut c: usize = 0;
    while c < cluster.len()
        invariant
            xs == rows(features@),
            cls == rows(cluster@),
            target == centroids_of(xs, cls, dim(xs)),
            features_wf(xs),
            width == dim(xs),
            forall|cc: int, t: int|
                0 <= cc < cluster@.len() && 0 <= t < cluster@[cc]@.len() ==> #[trigger] cluster@[cc]@[t]
                    < features@.len(),
            c <= cluster@.len(),
            out@.len() == c,
            forall|cc: int| 0 <= cc < c ==> #[trigger] out@[cc]@ == target[cc],
            forall|cc: int, jj: int|
                0 <= cc < c && 0 <= jj < width ==> #[trigger] out@[cc]@[jj] <= MAX_COORD,
        decreases cluster@.len() - c,
    {
        let idx = &cluster[c];
        assert(cls[c as int] == idx@);
        assert(forall|t: int| 0 <= t < idx@.len() ==> #[trigger] idx@[t] < features@.len()) by {
            assert forall|t: int| 0 <= t < idx@.len() implies #[trigger] idx@[t] < features@.len() by {
                assert(cluster@[c as int]@[t] < features@.len());
            }
        }
        let mut row: Vec<u64> = Vec::new();
        let mut j: usize = 0;
        while j < width
            invariant
                xs == rows(features@),
                features_wf(xs),
                width == dim(xs),
                forall|t: int| 0 <= t < idx@.len() ==> #[trigger] idx@[t] < features@.len(),
                j <= width,
                row@.len() == j,
                forall|jj: int| 0 <= jj < j ==> #[trigger] row@[jj] as int == mean_coord(xs, idx@, jj),
                forall|jj: int| 0 <= jj < j ==> #[trigger] row@[jj] <= MAX_COORD,
            decreases width - j,
        {
            let v = cluster_mean(features, idx, j);
            row.push(v);
            j = j + 1;
        }
        assert(row@ =~= target[c as int]);
        out.push(row);
        c = c + 1;
    }
    assert(rows(out@) =~= target);
    out
}

} // verus!
