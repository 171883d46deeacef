//! Properties of the assignment step and of whole k-means runs.
use vstd::prelude::*;
use crate::assign::lemma_nearest_upto;
use vstd::arithmetic::div_mod::lemma_fundamental_div_mod_converse;
use crate::model::{
    sq_dist, sq_dist_upto, total_error_upto, SCALE, centroids_of, centroids_wf, clusters_of, converged, dim, features_wf, idx_sum, k_means_result,
    labels, lemma_members, members, mean_coord, nearest, nearest_upto, run, scaled_mean,
    total_error,
};
use crate::update::lemma_scaled_mean_bound;

verus! {

/// After an assignment step every sample index lies in exactly one cluster, that of its
/// nearest centroid, and each cluster lists valid sample indices once each, in
/// increasing order.
pub proof fn lemma_assignment_partitions(cs: Seq<Seq<u64>>, xs: Seq<Seq<u8>>)
    requires
        features_wf(xs),
        xs.len() <= usize::MAX,
        cs.len() >= 1,
        centroids_wf(cs, dim(xs)),
    ensures
        forall|i: int|
            0 <= i < xs.len() ==> 0 <= #[trigger] nearest(xs[i], cs) < cs.len(),
        forall|i: int, c: int|
            0 <= i < xs.len() && 0 <= c < cs.len() ==> (#[trigger] clusters_of(
                labels(cs, xs),
                cs.len() as int,
            )[c].contains(i as usize) <==> c == nearest(xs[i], cs)),
        forall|c: int, t: int|
            0 <= c < cs.len() && 0 <= t < clusters_of(labels(cs, xs), cs.len() as int)[c].len()
                ==> #[trigger] clusters_of(labels(cs, xs), cs.len() as int)[c][t] < xs.len(),
        forall|c: int, a: int, b: int|
            0 <= c < cs.len() && 0 <= a < b < clusters_of(labels(cs, xs), cs.len() as int)[c].len()
                ==> #[trigger] clusters_of(labels(cs, xs), cs.len() as int)[c][a]
                < #[trigger] clusters_of(labels(cs, xs), cs.len() as int)[c][b],
{
    let lab = labels(cs, xs);
    let k = cs.len() as int;
    assert forall|i: int| 0 <= i < xs.len() implies 0 <= #[trigger] nearest(xs[i], cs) < cs.len() by {
        lemma_nearest_upto(xs[i], cs, k);
    }
    assert forall|c: int| 0 <= c < k implies #[trigger] clusters_of(lab, k)[c] == members(
        lab,
        c,
        xs.len() as int,
    ) by {}
    let n = xs.len() as int;
    assert forall|i: int, c: int| 0 <= i < n && 0 <= c < k implies (#[trigger] clusters_of(
        lab,
        k,
    )[c].contains(i as usize) <==> c == nearest(xs[i], cs)) by {
        lemma_members(lab, c, n);
    }
    assert forall|c: int, t: int| 0 <= c < k && 0 <= t < clusters_of(lab, k)[c].len() implies #[trigger] clusters_of(
        lab,
        k,
    )[c][t] < n by {
        lemma_members(lab, c, n);
    }
    assert forall|c: int, a: int, b: int|
        0 <= c < k && 0 <= a < b < clusters_of(lab, k)[c].len() implies #[trigger] clusters_of(lab, k)[c][a]
        < #[trigger] clusters_of(lab, k)[c][b] by {
        lemma_members(lab, c, n);
    }
}

/// Sum of coordinate `j` over the first `n` samples.
pub open spec fn col_sum(xs: Seq<Seq<u8>>, j: int, n: int) -> int
    decreases n,
{
    if n <= 0 {
        0
    } else {
        col_sum(xs, j, n - 1) + xs[n - 1][j] as int
    }
}

/// Coordinate `j` of the mean of all samples, scaled and rounded like a centroid.
pub open spec fn column_mean(xs: Seq<Seq<u8>>, j: int) -> int {
    scaled_mean(col_sum(xs, j, xs.len() as int), xs.len() as int)
}

/// With every label zero, cluster zero holds all of the first `n` samples.
proof fn lemma_all_in_one(lab: Seq<int>, xs: Seq<Seq<u8>>, j: int, n: int)
    requires
        lab.len() == xs.len(),
        xs.len() <= usize::MAX,
        0 <= n <= lab.len(),
        forall|i: int| 0 <= i < lab.len() ==> #[trigger] lab[i] == 0,
    ensures
        members(lab, 0, n).len() == n,
        idx_sum(xs, members(lab, 0, n), j) == col_sum(xs, j, n),
        0 <= col_sum(xs, j, n) <= 255 * n,
    decreases n,
{
    if n > 0 {
        lemma_all_in_one(lab, xs, j, n - 1);
        let m = members(lab, 0, n - 1);
        assert(lab[n - 1] == 0);
        assert(m.push((n - 1) as usize).drop_last() =~= m);
    }
}

/// With a single centroid, one update yields the mean of all samples.
proof fn lemma_single_update(cs: Seq<Seq<u64>>, xs: Seq<Seq<u8>>)
    requires
        features_wf(xs),
        xs.len() <= usize::MAX,
        cs.len() == 1,
    ensures
        centroids_of(xs, clusters_of(labels(cs, xs), 1), dim(xs)).len() == 1,
        centroids_of(xs, clusters_of(labels(cs, xs), 1), dim(xs))[0].len() == dim(xs),
        forall|j: int|
            0 <= j < dim(xs) ==> #[trigger] centroids_of(xs, clusters_of(labels(cs, xs), 1), dim(xs))[0][j]
                as int == column_mean(xs, j),
{
    let lab = labels(cs, xs);
    let n = xs.len() as int;
    assert forall|i: int| 0 <= i < lab.len() implies #[trigger] lab[i] == 0 by {
        assert(nearest_upto(xs[i], cs, 1) == 0);
    }
    let cl = clusters_of(lab, 1);
    assert(cl[0] == members(lab, 0, n));
    assert forall|j: int| 0 <= j < dim(xs) implies #[trigger] centroids_of(xs, cl, dim(xs))[0][j] as int
        == column_mean(xs, j) by {
        lemma_all_in_one(lab, xs, j, n);
        lemma_scaled_mean_bound(col_sum(xs, j, n), n);
        assert(mean_coord(xs, cl[0], j) == column_mean(xs, j));
    }
}

/// A run with a single centroid that has made at least one update ends at the mean.
proof fn lemma_run_single(
    cs: Seq<Seq<u64>>,
    cl: Seq<Seq<usize>>,
    prev: int,
    iter: int,
    max: int,
    xs: Seq<Seq<u8>>,
)
    requires
        features_wf(xs),
        xs.len() <= usize::MAX,
        cs.len() == 1,
        iter >= 0,
        iter == 0 ==> iter < max,
        iter >= 1 ==> forall|j: int| 0 <= j < dim(xs) ==> #[trigger] cs[0][j] as int == column_mean(xs, j),
    ensures
        forall|j: int|
            0 <= j < dim(xs) ==> #[trigger] run(cs, cl, prev, iter, max, xs).0[0][j] as int
                == column_mean(xs, j),
    decreases max - iter,
{
    if iter < max {
        let ncl = clusters_of(labels(cs, xs), cs.len() as int);
        let err = total_error(cs, xs);
        if !(iter > 0 && converged(prev, err)) {
            lemma_single_update(cs, xs);
            lemma_run_single(centroids_of(xs, ncl, dim(xs)), ncl, err, iter + 1, max, xs);
            assert(run(cs, cl, prev, iter, max, xs) == run(
                centroids_of(xs, ncl, dim(xs)),
                ncl,
                err,
                iter + 1,
                max,
                xs,
            ));
        } else {
            assert(run(cs, cl, prev, iter, max, xs).0 == cs);
        }
    } else {
        assert(run(cs, cl, prev, iter, max, xs).0 == cs);
    }
}

/// With a single cluster and at least one round, the resulting centroid is the mean of
/// all samples (scaled and rounded), whatever the initial centroid.
pub proof fn lemma_single_cluster_is_mean(init: Seq<Seq<u64>>, max: int, xs: Seq<Seq<u8>>)
    requires
        features_wf(xs),
        xs.len() <= usize::MAX,
        init.len() == 1,
        max >= 1,
    ensures
        forall|j: int|
            0 <= j < dim(xs) ==> #[trigger] k_means_result(init, max, xs).0[0][j] as int
                == column_mean(xs, j),
{
    lemma_run_single(init, Seq::new(1, |c: int| Seq::<usize>::empty()), 0, 0, max, xs);
}

/// Centroid `c` is the sample `x` on the centroid scale.
pub open spec fn is_point_of(c: Seq<u64>, x: Seq<u8>) -> bool {
    &&& c.len() == x.len()
    &&& forall|j: int| 0 <= j < x.len() ==> #[trigger] c[j] as int == x[j] as int * SCALE as int
}

/// The centroids are pairwise distinct, every sample coincides with one of them and every
/// one of them coincides with a sample.
pub open spec fn centroids_are_the_points(cs: Seq<Seq<u64>>, xs: Seq<Seq<u8>>) -> bool {
    &&& forall|a: int, b: int| 0 <= a < b < cs.len() ==> #[trigger] cs[a] != #[trigger] cs[b]
    &&& forall|i: int|
        0 <= i < xs.len() ==> exists|c: int|
            0 <= c < cs.len() && #[trigger] is_point_of(cs[c], #[trigger] xs[i])
    &&& forall|c: int|
        0 <= c < cs.len() ==> exists|i: int|
            0 <= i < xs.len() && #[trigger] is_point_of(#[trigger] cs[c], xs[i])
}

/// A squared distance is zero exactly where the centroid is the sample.
proof fn lemma_sq_dist_zero(x: Seq<u8>, c: Seq<u64>, n: int)
    requires
        0 <= n <= x.len(),
        n <= c.len(),
    ensures
        sq_dist_upto(x, c, n) >= 0,
        sq_dist_upto(x, c, n) == 0 <==> forall|j: int|
            0 <= j < n ==> #[trigger] c[j] as int == x[j] as int * SCALE as int,
    decreases n,
{
    if n > 0 {
        lemma_sq_dist_zero(x, c, n - 1);
        let d = x[n - 1] as int * SCALE as int - c[n - 1] as int;
        assert(d * d >= 0 && (d * d == 0 <==> d == 0)) by (nonlinear_arith);
    }
}

/// A sample that coincides with a centroid is labelled with that centroid.
proof fn lemma_point_label(cs: Seq<Seq<u64>>, xs: Seq<Seq<u8>>, i: int, c: int)
    requires
        features_wf(xs),
        cs.len() >= 1,
        centroids_wf(cs, dim(xs)),
        centroids_are_the_points(cs, xs),
        0 <= i < xs.len(),
        0 <= c < cs.len(),
        is_point_of(cs[c], xs[i]),
    ensures
        nearest(xs[i], cs) == c,
        sq_dist(xs[i], cs[c]) == 0,
{
    let x = xs[i];
    let n = x.len() as int;
    let r = nearest(x, cs);
    lemma_nearest_upto(x, cs, cs.len() as int);
    lemma_sq_dist_zero(x, cs[c], n);
    lemma_sq_dist_zero(x, cs[r], n);
    assert(sq_dist(x, cs[r]) <= sq_dist(x, cs[c]));
    assert(cs[r].len() == n);
    assert(cs[r] =~= cs[c]);
    if r < c {
        assert(cs[r] != cs[c]);
    } else if c < r {
        assert(cs[c] != cs[r]);
    }
}

/// Each sample's distance to its nearest centroid is zero, so the total error is zero.
proof fn lemma_error_zero(cs: Seq<Seq<u64>>, xs: Seq<Seq<u8>>, n: int)
    requires
        features_wf(xs),
        cs.len() >= 1,
        centroids_wf(cs, dim(xs)),
        centroids_are_the_points(cs, xs),
        0 <= n <= xs.len(),
    ensures
        total_error_upto(cs, xs, n) == 0,
    decreases n,
{
    if n > 0 {
        lemma_error_zero(cs, xs, n - 1);
        let c = choose|c: int| 0 <= c < cs.len() && #[trigger] is_point_of(cs[c], xs[n - 1]);
        lemma_point_label(cs, xs, n - 1, c);
    }
}

/// Scaled, the coordinate sum of a cluster whose samples all have coordinate `v` there is
/// its size times `v`.
proof fn lemma_point_sum(lab: Seq<int>, xs: Seq<Seq<u8>>, c: int, j: int, v: int, n: int)
    requires
        lab.len() == xs.len(),
        xs.len() <= usize::MAX,
        0 <= n <= lab.len(),
        forall|i: int| 0 <= i < lab.len() && #[trigger] lab[i] == c ==> xs[i][j] as int * SCALE as int == v,
    ensures
        idx_sum(xs, members(lab, c, n), j) * SCALE as int == members(lab, c, n).len() * v,
    decreases n,
{
    if n > 0 {
        lemma_point_sum(lab, xs, c, j, v, n - 1);
        let m = members(lab, c, n - 1);
        if lab[n - 1] == c {
            assert(m.push((n - 1) as usize).drop_last() =~= m);
            let s0 = idx_sum(xs, m, j);
            let y = xs[n - 1][j] as int;
            assert((s0 + y) * SCALE as int == (m.len() + 1) * v) by (nonlinear_arith)
                requires
                    s0 * SCALE as int == m.len() * v,
                    y * SCALE as int == v,
            ;
        }
    }
}

/// Centroids that are the distinct points of the samples reproduce themselves in an update.
proof fn lemma_points_update(cs: Seq<Seq<u64>>, xs: Seq<Seq<u8>>)
    requires
        features_wf(xs),
        xs.len() <= usize::MAX,
        cs.len() >= 1,
        centroids_wf(cs, dim(xs)),
        centroids_are_the_points(cs, xs),
    ensures
        centroids_of(xs, clusters_of(labels(cs, xs), cs.len() as int), dim(xs)) == cs,
{
    let lab = labels(cs, xs);
    let k = cs.len() as int;
    let n = xs.len() as int;
    let cl = clusters_of(lab, k);
    let next = centroids_of(xs, cl, dim(xs));
    assert forall|c: int, j: int| 0 <= c < k && 0 <= j < dim(xs) implies #[trigger] next[c][j] == cs[c][j] by {
        let v = cs[c][j] as int;
        assert forall|i: int| 0 <= i < lab.len() && #[trigger] lab[i] == c implies xs[i][j] as int
            * SCALE as int == v by {
            let c2 = choose|c2: int| 0 <= c2 < cs.len() && #[trigger] is_point_of(cs[c2], xs[i]);
            lemma_point_label(cs, xs, i, c2);
            assert(xs[i].len() == dim(xs));
        }
        lemma_point_sum(lab, xs, c, j, v, n);
        let i0 = choose|i: int| 0 <= i < xs.len() && #[trigger] is_point_of(cs[c], xs[i]);
        lemma_point_label(cs, xs, i0, c);
        lemma_members(lab, c, n);
        assert(members(lab, c, n).contains(i0 as usize));
        let m = members(lab, c, n);
        let len = m.len() as int;
        assert(cl[c] == m);
        let sum = idx_sum(xs, m, j);
        assert(2 * SCALE as int * sum + len == v * (2 * len) + len) by (nonlinear_arith)
            requires
                sum * SCALE as int == len * v,
        ;
        lemma_fundamental_div_mod_converse(2 * SCALE as int * sum + len, 2 * len, v, len);
        assert(mean_coord(xs, m, j) == v);
    }
    assert forall|c: int| 0 <= c < k implies #[trigger] next[c] == cs[c] by {
        assert(next[c] =~= cs[c]);
    }
    assert(next =~= cs);
}

/// A run whose centroids are the distinct points of the samples keeps them to the end.
proof fn lemma_run_fixed(
    cs: Seq<Seq<u64>>,
    cl: Seq<Seq<usize>>,
    prev: int,
    iter: int,
    max: int,
    xs: Seq<Seq<u8>>,
)
    requires
        features_wf(xs),
        xs.len() <= usize::MAX,
        cs.len() >= 1,
        centroids_wf(cs, dim(xs)),
        centroids_are_the_points(cs, xs),
        iter >= 1 ==> cl == clusters_of(labels(cs, xs), cs.len() as int),
    ensures
        run(cs, cl, prev, iter, max, xs).0 == cs,
        iter >= 1 || iter < max ==> run(cs, cl, prev, iter, max, xs).1 == clusters_of(
            labels(cs, xs),
            cs.len() as int,
        ),
    decreases max - iter,
{
    if iter < max {
        let ncl = clusters_of(labels(cs, xs), cs.len() as int);
        let err = total_error(cs, xs);
        if !(iter > 0 && converged(prev, err)) {
            lemma_points_update(cs, xs);
            lemma_run_fixed(cs, ncl, err, iter + 1, max, xs);
        }
    }
}

/// When the samples are exactly `k` distinct points, each present at least once, and the
/// centroids are those points, the total error is zero, an update changes no centroid and
/// k-means returns those centroids, with each sample in the cluster of its point.
pub proof fn lemma_distinct_points_are_fixed(cs: Seq<Seq<u64>>, max: int, xs: Seq<Seq<u8>>)
    requires
        features_wf(xs),
        xs.len() <= usize::MAX,
        cs.len() >= 1,
        centroids_wf(cs, dim(xs)),
        centroids_are_the_points(cs, xs),
    ensures
        total_error(cs, xs) == 0,
        forall|i: int, c: int|
            0 <= i < xs.len() && 0 <= c < cs.len() && #[trigger] is_point_of(cs[c], xs[i])
                ==> nearest(xs[i], cs) == c,
        centroids_of(xs, clusters_of(labels(cs, xs), cs.len() as int), dim(xs)) == cs,
        k_means_result(cs, max, xs).0 == cs,
        max >= 1 ==> k_means_result(cs, max, xs).1 == clusters_of(labels(cs, xs), cs.len() as int),
{
    lemma_error_zero(cs, xs, xs.len() as int);
    assert forall|i: int, c: int|
        0 <= i < xs.len() && 0 <= c < cs.len() && #[trigger] is_point_of(cs[c], xs[i]) implies nearest(
        xs[i],
        cs,
    ) == c by {
        lemma_point_label(cs, xs, i, c);
    }
    lemma_points_update(cs, xs);
    lemma_run_fixed(cs, Seq::new(cs.len(), |c: int| Seq::<usize>::empty()), 0, 0, max, xs);
}

} // verus!
