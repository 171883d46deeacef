//! The total error does not grow from one assignment step to the next.
//!
//! The error of a labelling is regrouped by cluster and dimension; on each such cell the
//! rounded mean does at least as well as any other integer coordinate, and relabelling
//! each sample with its nearest centroid can only lower the error further.
use vstd::prelude::*;
use vstd::arithmetic::div_mod::{lemma_fundamental_div_mod, lemma_mod_pos_bound};
use crate::assign::lemma_nearest_upto;
use crate::model::{
    centroids_of, centroids_wf, clusters_of, dim, features_wf, idx_sum, labels, members,
    mean_coord, nearest, sq_dist, sq_dist_upto, total_error, total_error_upto,
    SCALE,
};
use crate::sums::{lemma_sum_add, lemma_sum_ext, lemma_sum_le, lemma_sum_single, lemma_sum_zero, sum_to};
use crate::update::lemma_scaled_mean_bound;

verus! {

/// Squared difference along dimension `j` between sample `x` and centroid `c`.
pub open spec fn sq_diff(x: Seq<u8>, c: Seq<u64>, j: int) -> int {
    let d = x[j] as int * SCALE as int - c[j] as int;
    d * d
}

/// Error over the first `n` samples when sample `i` is charged to centroid `lab[i]`.
pub open spec fn labelled_error_upto(cs: Seq<Seq<u64>>, xs: Seq<Seq<u8>>, lab: Seq<int>, n: int) -> int
    decreases n,
{
    if n <= 0 {
        0
    } else {
        labelled_error_upto(cs, xs, lab, n - 1) + sq_dist(xs[n - 1], cs[lab[n - 1]])
    }
}

/// Error along dimension `j` of the first `n` samples labelled `c`, against coordinate `a`.
pub open spec fn cell(xs: Seq<Seq<u8>>, lab: Seq<int>, c: int, j: int, a: int, n: int) -> int
    decreases n,
{
    if n <= 0 {
        0
    } else {
        let d = xs[n - 1][j] as int * SCALE as int - a;
        cell(xs, lab, c, j, a, n - 1) + if lab[n - 1] == c {
            d * d
        } else {
            0
        }
    }
}

/// Number of the first `n` samples labelled `c`.
spec fn cell_count(lab: Seq<int>, c: int, n: int) -> int
    decreases n,
{
    if n <= 0 {
        0
    } else {
        cell_count(lab, c, n - 1) + if lab[n - 1] == c {
            1int
        } else {
            0
        }
    }
}

/// Sum of scaled coordinate `j` over the first `n` samples labelled `c`.
spec fn cell_sum(xs: Seq<Seq<u8>>, lab: Seq<int>, c: int, j: int, n: int) -> int
    decreases n,
{
    if n <= 0 {
        0
    } else {
        cell_sum(xs, lab, c, j, n - 1) + if lab[n - 1] == c {
            xs[n - 1][j] as int * SCALE as int
        } else {
            0
        }
    }
}

/// Sum of squared scaled coordinate `j` over the first `n` samples labelled `c`.
spec fn cell_sq(xs: Seq<Seq<u8>>, lab: Seq<int>, c: int, j: int, n: int) -> int
    decreases n,
{
    if n <= 0 {
        0
    } else {
        let y = xs[n - 1][j] as int * SCALE as int;
        cell_sq(xs, lab, c, j, n - 1) + if lab[n - 1] == c {
            y * y
        } else {
            0
        }
    }
}

/// All cells of cluster `c`, against its centroid in `cs`.
spec fn cells_row(cs: Seq<Seq<u64>>, xs: Seq<Seq<u8>>, lab: Seq<int>, c: int, n: int) -> int {
    sum_to(|j: int| cell(xs, lab, c, j, cs[c][j] as int, n), dim(xs))
}

/// All cells of all clusters.
spec fn cells(cs: Seq<Seq<u64>>, xs: Seq<Seq<u8>>, lab: Seq<int>, n: int) -> int {
    sum_to(|c: int| cells_row(cs, xs, lab, c, n), cs.len() as int)
}

/// A squared distance is the sum of its squared differences.
proof fn lemma_sq_dist_sum(x: Seq<u8>, c: Seq<u64>, n: int)
    ensures
        sq_dist_upto(x, c, n) == sum_to(|j: int| sq_diff(x, c, j), n),
    decreases n,
{
    if n > 0 {
        lemma_sq_dist_sum(x, c, n - 1);
    }
}

/// The error charged by labels equals the sum of all cells.
proof fn lemma_error_by_cells(cs: Seq<Seq<u64>>, xs: Seq<Seq<u8>>, lab: Seq<int>, n: int)
    requires
        features_wf(xs),
        centroids_wf(cs, dim(xs)),
        lab.len() == xs.len(),
        forall|i: int| 0 <= i < lab.len() ==> 0 <= #[trigger] lab[i] < cs.len(),
        0 <= n <= xs.len(),
    ensures
        labelled_error_upto(cs, xs, lab, n) == cells(cs, xs, lab, n),
    decreases n,
{
    let k = cs.len() as int;
    let d = dim(xs);
    if n > 0 {
        lemma_error_by_cells(cs, xs, lab, n - 1);
        let l = lab[n - 1];
        let t = |c: int, j: int|
            if lab[n - 1] == c {
                sq_diff(xs[n - 1], cs[c], j)
            } else {
                0
            };
        let trow = |c: int| sum_to(|j: int| t(c, j), d);
        assert forall|c: int| 0 <= c < k implies #[trigger] cells_row(cs, xs, lab, c, n) == cells_row(
            cs,
            xs,
            lab,
            c,
            n - 1,
        ) + trow(c) by {
            lemma_sum_add(
                |j: int| cell(xs, lab, c, j, cs[c][j] as int, n),
                |j: int| cell(xs, lab, c, j, cs[c][j] as int, n - 1),
                |j: int| t(c, j),
                d,
            );
        }
        lemma_sum_add(
            |c: int| cells_row(cs, xs, lab, c, n),
            |c: int| cells_row(cs, xs, lab, c, n - 1),
            trow,
            k,
        );
        assert forall|c: int| 0 <= c < k && c != l implies #[trigger] trow(c) == 0 by {
            lemma_sum_zero(|j: int| t(c, j), d);
        }
        lemma_sum_single(trow, l, k);
        lemma_sum_ext(|j: int| t(l, j), |j: int| sq_diff(xs[n - 1], cs[l], j), d);
        lemma_sq_dist_sum(xs[n - 1], cs[l], d);
        assert(xs[n - 1].len() == d);
    } else {
        assert forall|c: int| 0 <= c < k implies #[trigger] cells_row(cs, xs, lab, c, n) == 0 by {
            lemma_sum_zero(|j: int| cell(xs, lab, c, j, cs[c][j] as int, n), d);
        }
        lemma_sum_zero(|c: int| cells_row(cs, xs, lab, c, n), k);
    }
}

/// A cell expands to a quadratic in its coordinate.
proof fn lemma_cell_quadratic(xs: Seq<Seq<u8>>, lab: Seq<int>, c: int, j: int, a: int, n: int)
    ensures
        cell(xs, lab, c, j, a, n) == cell_sq(xs, lab, c, j, n) - 2 * a * cell_sum(xs, lab, c, j, n)
            + cell_count(lab, c, n) * a * a,
    decreases n,
{
    if n > 0 {
        lemma_cell_quadratic(xs, lab, c, j, a, n - 1);
        let y = xs[n - 1][j] as int * SCALE as int;
        assert((y - a) * (y - a) == y * y - 2 * a * y + a * a) by (nonlinear_arith);
        let q = cell_sq(xs, lab, c, j, n - 1);
        let s = cell_sum(xs, lab, c, j, n - 1);
        let m = cell_count(lab, c, n - 1);
        assert((q + y * y) - 2 * a * (s + y) + (m + 1) * a * a == (q - 2 * a * s + m * a * a) + (y * y
            - 2 * a * y + a * a)) by (nonlinear_arith);
    }
}

/// The count and sum of a cell are those of the cluster's member list.
proof fn lemma_cell_members(xs: Seq<Seq<u8>>, lab: Seq<int>, c: int, j: int, n: int)
    requires
        lab.len() == xs.len(),
        xs.len() <= usize::MAX,
        0 <= n <= xs.len(),
    ensures
        cell_count(lab, c, n) == members(lab, c, n).len(),
        cell_sum(xs, lab, c, j, n) == SCALE as int * idx_sum(xs, members(lab, c, n), j),
        0 <= idx_sum(xs, members(lab, c, n), j) <= 255 * members(lab, c, n).len(),
    decreases n,
{
    if n > 0 {
        lemma_cell_members(xs, lab, c, j, n - 1);
        let m = members(lab, c, n - 1);
        if lab[n - 1] == c {
            assert(m.push((n - 1) as usize).drop_last() =~= m);
        }
    }
}

/// Along one dimension of one cluster, the rounded mean does no worse than any coordinate.
proof fn lemma_cell_mean_best(xs: Seq<Seq<u8>>, lab: Seq<int>, c: int, j: int, a: int)
    requires
        lab.len() == xs.len(),
        xs.len() <= usize::MAX,
    ensures
        cell(xs, lab, c, j, mean_coord(xs, members(lab, c, xs.len() as int), j), xs.len() as int)
            <= cell(xs, lab, c, j, a, xs.len() as int),
{
    let n = xs.len() as int;
    let m = members(lab, c, n);
    let r = mean_coord(xs, m, j);
    lemma_cell_members(xs, lab, c, j, n);
    lemma_cell_quadratic(xs, lab, c, j, a, n);
    lemma_cell_quadratic(xs, lab, c, j, r, n);
    let cnt = cell_count(lab, c, n);
    let y = cell_sum(xs, lab, c, j, n);
    if cnt > 0 {
        let s = idx_sum(xs, m, j);
        let num = 2 * SCALE as int * s + cnt;
        lemma_fundamental_div_mod(num, 2 * cnt);
        lemma_mod_pos_bound(num, 2 * cnt);
        let e = num % (2 * cnt) - cnt;
        assert(r == num / (2 * cnt));
        assert(2 * y == 2 * cnt * r + e) by (nonlinear_arith)
            requires
                num == 2 * cnt * (num / (2 * cnt)) + num % (2 * cnt),
                r == num / (2 * cnt),
                e == num % (2 * cnt) - cnt,
                num == 2 * SCALE as int * s + cnt,
                y == SCALE as int * s,
        ;
        let dd = a - r;
        assert(dd * (cnt * dd - e) >= 0) by (nonlinear_arith)
            requires
                -cnt <= e < cnt,
                cnt > 0,
        ;
        let lhs = cnt * a * a - 2 * a * y - (cnt * r * r - 2 * r * y);
        assert(lhs == cnt * (a * a - r * r) - dd * (2 * y)) by (nonlinear_arith)
            requires
                lhs == cnt * a * a - 2 * a * y - (cnt * r * r - 2 * r * y),
                dd == a - r,
        ;
        assert(a * a - r * r == dd * (a + r)) by (nonlinear_arith)
            requires
                dd == a - r,
        ;
        assert(cnt * (dd * (a + r)) - dd * (2 * cnt * r + e) == dd * (cnt * (a + r) - 2 * cnt * r - e))
            by (nonlinear_arith);
        assert(cnt * (a + r) - 2 * cnt * r - e == cnt * dd - e) by (nonlinear_arith)
            requires
                dd == a - r,
        ;
        assert(lhs == dd * (cnt * dd - e));
        assert(cell(xs, lab, c, j, a, n) - cell(xs, lab, c, j, r, n) == lhs);
    } else {
        assert(m.len() == 0);
        assert(y == 0);
        assert(cnt * a * a == 0 && 2 * a * y == 0 && cnt * r * r == 0 && 2 * r * y == 0) by (nonlinear_arith)
            requires
                cnt == 0,
                y == 0,
        ;
    }
}

/// Relabelling every sample with its nearest centroid does not raise the error.
proof fn lemma_nearest_is_best(cs: Seq<Seq<u64>>, xs: Seq<Seq<u8>>, lab: Seq<int>, n: int)
    requires
        cs.len() >= 1,
        lab.len() == xs.len(),
        forall|i: int| 0 <= i < lab.len() ==> 0 <= #[trigger] lab[i] < cs.len(),
        0 <= n <= xs.len(),
    ensures
        total_error_upto(cs, xs, n) <= labelled_error_upto(cs, xs, lab, n),
    decreases n,
{
    if n > 0 {
        lemma_nearest_is_best(cs, xs, lab, n - 1);
        lemma_nearest_upto(xs[n - 1], cs, cs.len() as int);
        assert(sq_dist(xs[n - 1], cs[nearest(xs[n - 1], cs)]) <= sq_dist(xs[n - 1], cs[lab[n - 1]]));
    }
}

/// Charged to their nearest centroids, the samples carry exactly the total error.
proof fn lemma_nearest_labels_error(cs: Seq<Seq<u64>>, xs: Seq<Seq<u8>>, n: int)
    requires
        0 <= n <= xs.len(),
    ensures
        labelled_error_upto(cs, xs, labels(cs, xs), n) == total_error_upto(cs, xs, n),
    decreases n,
{
    if n > 0 {
        lemma_nearest_labels_error(cs, xs, n - 1);
    }
}

/// The total error never grows from one assignment step to the next: the error against
/// the centroids updated from an assignment is at most the error of that assignment.
/// This holds with empty clusters too, since a zeroed centroid carries no samples.
pub proof fn lemma_error_non_increasing(cs: Seq<Seq<u64>>, xs: Seq<Seq<u8>>)
    requires
        features_wf(xs),
        xs.len() <= usize::MAX,
        cs.len() >= 1,
        centroids_wf(cs, dim(xs)),
    ensures
        total_error(centroids_of(xs, clusters_of(labels(cs, xs), cs.len() as int), dim(xs)), xs)
            <= total_error(cs, xs),
{
    let k = cs.len() as int;
    let n = xs.len() as int;
    let d = dim(xs);
    let lab = labels(cs, xs);
    let cl = clusters_of(lab, k);
    let next = centroids_of(xs, cl, d);
    assert forall|i: int| 0 <= i < lab.len() implies 0 <= #[trigger] lab[i] < k by {
        lemma_nearest_upto(xs[i], cs, k);
    }
    assert forall|c: int, j: int| 0 <= c < k && 0 <= j < d implies #[trigger] next[c][j] as int
        == mean_coord(xs, members(lab, c, n), j) by {
        assert(cl[c] == members(lab, c, n));
        lemma_cell_members(xs, lab, c, j, n);
        if members(lab, c, n).len() > 0 {
            lemma_scaled_mean_bound(idx_sum(xs, members(lab, c, n), j), members(lab, c, n).len() as int);
        }
    }
    assert(centroids_wf(next, d)) by {
        assert forall|c: int, j: int| 0 <= c < next.len() && 0 <= j < next[c].len() implies #[trigger] next[c][j]
            <= crate::model::MAX_COORD by {
            lemma_cell_members(xs, lab, c, j, n);
            if members(lab, c, n).len() > 0 {
                lemma_scaled_mean_bound(idx_sum(xs, members(lab, c, n), j), members(lab, c, n).len() as int);
            }
        }
    }
    assert forall|c: int| 0 <= c < k implies #[trigger] cells_row(next, xs, lab, c, n) <= cells_row(
        cs,
        xs,
        lab,
        c,
        n,
    ) by {
        assert forall|j: int| 0 <= j < d implies #[trigger] cell(xs, lab, c, j, next[c][j] as int, n) <= cell(
            xs,
            lab,
            c,
            j,
            cs[c][j] as int,
            n,
        ) by {
            lemma_cell_mean_best(xs, lab, c, j, cs[c][j] as int);
        }
        lemma_sum_le(
            |j: int| cell(xs, lab, c, j, next[c][j] as int, n),
            |j: int| cell(xs, lab, c, j, cs[c][j] as int, n),
            d,
        );
    }
    lemma_sum_le(|c: int| cells_row(next, xs, lab, c, n), |c: int| cells_row(cs, xs, lab, c, n), k);
    lemma_error_by_cells(next, xs, lab, n);
    lemma_error_by_cells(cs, xs, lab, n);
    lemma_nearest_is_best(next, xs, lab, n);
    lemma_nearest_labels_error(cs, xs, n);
}

} // verus!
