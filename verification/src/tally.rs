//! Sums over all 16-bit moves and over move lists, and how the two agree when a list
//! holds each move of a set once.
use vstd::prelude::*;
use crate::movegen::{distinct_in, in_list};

verus! {

/// The sum of `f` over the moves below `k`.
pub open spec fn range_sum(f: spec_fn(u16) -> nat, k: int) -> nat
    decreases k,
{
    if k <= 0 {
        0
    } else {
        range_sum(f, k - 1) + f((k - 1) as u16)
    }
}

/// The sum of `g` over the first `n` entries of `l`.
pub open spec fn list_sum(l: Seq<u16>, n: int, g: spec_fn(u16) -> nat) -> nat
    decreases n,
{
    if n <= 0 {
        0
    } else {
        list_sum(l, n - 1, g) + g(l[n - 1])
    }
}

/// Sums of functions that agree everywhere agree.
pub proof fn lemma_range_sum_ext(f1: spec_fn(u16) -> nat, f2: spec_fn(u16) -> nat, k: int)
    requires
        forall|m: u16| #[trigger] f1(m) == f2(m),
    ensures
        range_sum(f1, k) == range_sum(f2, k),
    decreases k,
{
    if k > 0 {
        lemma_range_sum_ext(f1, f2, k - 1);
    }
}

/// A sum is no larger than the sum of a function at least as large everywhere.
pub proof fn lemma_range_sum_mono(f1: spec_fn(u16) -> nat, f2: spec_fn(u16) -> nat, k: int)
    requires
        forall|m: u16| #[trigger] f1(m) <= f2(m),
    ensures
        range_sum(f1, k) <= range_sum(f2, k),
    decreases k,
{
    if k > 0 {
        lemma_range_sum_mono(f1, f2, k - 1);
    }
}

/// The sum of a function that is zero everywhere is zero.
proof fn lemma_range_sum_zero(f: spec_fn(u16) -> nat, k: int)
    requires
        forall|m: u16| #[trigger] f(m) == 0,
    ensures
        range_sum(f, k) == 0,
    decreases k,
{
    if k > 0 {
        lemma_range_sum_zero(f, k - 1);
    }
}

/// Raising a function at the one move `v` by `c` raises its sum over any range holding
/// `v` by `c`.
proof fn lemma_range_sum_point(f1: spec_fn(u16) -> nat, f2: spec_fn(u16) -> nat, v: u16, c: nat, k: int)
    requires
        k <= 65536,
        forall|m: u16| m != v ==> #[trigger] f2(m) == f1(m),
        f2(v) == f1(v) + c,
    ensures
        v < k ==> range_sum(f2, k) == range_sum(f1, k) + c,
        v >= k ==> range_sum(f2, k) == range_sum(f1, k),
    decreases k,
{
    if k > 0 {
        lemma_range_sum_point(f1, f2, v, c, k - 1);
        assert(((k - 1) as u16) as int == k - 1);
    }
}

/// The sum of `g` over a list without repeats is the sum of `g` over the moves it holds.
pub proof fn lemma_list_sum_range(l: Seq<u16>, n: int, g: spec_fn(u16) -> nat)
    requires
        0 <= n <= l.len(),
        distinct_in(l, 0, n),
    ensures
        list_sum(l, n, g) == range_sum(|m: u16| if in_list(l, 0, n, m) { g(m) } else { 0 }, 65536),
    decreases n,
{
    let f = |m: u16| if in_list(l, 0, n, m) { g(m) } else { 0nat };
    if n == 0 {
        lemma_range_sum_zero(f, 65536);
    } else {
        lemma_list_sum_range(l, n - 1, g);
        let f0 = |m: u16| if in_list(l, 0, n - 1, m) { g(m) } else { 0nat };
        let v = l[n - 1];
        assert(!in_list(l, 0, n - 1, v)) by {
            if in_list(l, 0, n - 1, v) {
                let j = choose|j: int| 0 <= j < n - 1 && #[trigger] l[j] == v;
                assert(l[j] != l[n - 1]);
            }
        }
        assert(in_list(l, 0, n, v)) by {
            assert(l[n - 1] == v);
        }
        assert forall|m: u16| m != v implies #[trigger] f(m) == f0(m) by {
            if in_list(l, 0, n, m) {
                let j = choose|j: int| 0 <= j < n && #[trigger] l[j] == m;
                assert(j != n - 1);
                assert(in_list(l, 0, n - 1, m));
            }
            if in_list(l, 0, n - 1, m) {
                let j = choose|j: int| 0 <= j < n - 1 && #[trigger] l[j] == m;
                assert(in_list(l, 0, n, m));
            }
        }
        lemma_range_sum_point(f0, f, v, g(v), 65536);
    }
}

/// The sum of 1 over the first `n` entries of a list is `n`.
pub proof fn lemma_list_sum_one(l: Seq<u16>, n: int)
    requires
        0 <= n,
    ensures
        list_sum(l, n, |m: u16| 1nat) == n,
    decreases n,
{
    if n > 0 {
        lemma_list_sum_one(l, n - 1);
    }
}

} // verus!
