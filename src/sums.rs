//! Finite sums of integer-valued spec functions, and the rearrangements they allow.
use vstd::prelude::*;

verus! {

/// `f(0) + f(1) + ... + f(n - 1)`.
pub open spec fn sum_to(f: spec_fn(int) -> int, n: int) -> int
    decreases n,
{
    if n <= 0 {
        0
    } else {
        sum_to(f, n - 1) + f(n - 1)
    }
}

/// Sums of functions that agree below `n` agree.
pub proof fn lemma_sum_ext(f: spec_fn(int) -> int, g: spec_fn(int) -> int, n: int)
    requires
        forall|t: int| 0 <= t < n ==> #[trigger] f(t) == g(t),
    ensures
        sum_to(f, n) == sum_to(g, n),
    decreases n,
{
    if n > 0 {
        lemma_sum_ext(f, g, n - 1);
    }
}

/// A sum of terms each at most the matching term of another is at most that sum.
pub proof fn lemma_sum_le(f: spec_fn(int) -> int, g: spec_fn(int) -> int, n: int)
    requires
        forall|t: int| 0 <= t < n ==> #[trigger] f(t) <= g(t),
    ensures
        sum_to(f, n) <= sum_to(g, n),
    decreases n,
{
    if n > 0 {
        lemma_sum_le(f, g, n - 1);
    }
}

/// The sum of a termwise sum of two functions is the sum of their sums.
pub proof fn lemma_sum_add(h: spec_fn(int) -> int, f: spec_fn(int) -> int, g: spec_fn(int) -> int, n: int)
    requires
        forall|t: int| 0 <= t < n ==> #[trigger] h(t) == f(t) + g(t),
    ensures
        sum_to(h, n) == sum_to(f, n) + sum_to(g, n),
    decreases n,
{
    if n > 0 {
        lemma_sum_add(h, f, g, n - 1);
    }
}

/// A sum of zeros is zero.
pub proof fn lemma_sum_zero(f: spec_fn(int) -> int, n: int)
    requires
        forall|t: int| 0 <= t < n ==> #[trigger] f(t) == 0,
    ensures
        sum_to(f, n) == 0,
    decreases n,
{
    if n > 0 {
        lemma_sum_zero(f, n - 1);
    }
}

/// A sum whose terms vanish except at `l` is the term at `l`.
pub proof fn lemma_sum_single(f: spec_fn(int) -> int, l: int, n: int)
    requires
        0 <= l < n,
        forall|t: int| 0 <= t < n && t != l ==> #[trigger] f(t) == 0,
    ensures
        sum_to(f, n) == f(l),
    decreases n,
{
    if n - 1 == l {
        lemma_sum_zero(f, l);
    } else {
        lemma_sum_single(f, l, n - 1);
    }
}

/// The order of two finite sums can be exchanged.
pub proof fn lemma_sum_swap(f: spec_fn(int, int) -> int, n: int, k: int)
    ensures
        sum_to(|i: int| sum_to(|c: int| f(i, c), k), n) == sum_to(
            |c: int| sum_to(|i: int| f(i, c), n),
            k,
        ),
    decreases n,
{
    if n > 0 {
        lemma_sum_swap(f, n - 1, k);
        let a = |c: int| sum_to(|i: int| f(i, c), n - 1);
        let b = |c: int| f(n - 1, c);
        let h = |c: int| sum_to(|i: int| f(i, c), n);
        assert forall|c: int| 0 <= c < k implies #[trigger] h(c) == a(c) + b(c) by {}
        lemma_sum_add(h, a, b, k);
        let l = |i: int| sum_to(|c: int| f(i, c), k);
        assert(l(n - 1) == sum_to(b, k)) by {
            lemma_sum_ext(|c: int| f(n - 1, c), b, k);
        }
        assert(sum_to(l, n) == sum_to(l, n - 1) + sum_to(b, k));
        assert(sum_to(l, n - 1) == sum_to(a, k));
    } else {
        lemma_sum_zero(|c: int| sum_to(|i: int| f(i, c), n), k);
    }
}

} // verus!
