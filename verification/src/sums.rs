//! Finite sums, and how they may be rearranged.
use vstd::prelude::*;

verus! {

/// The sum of `c(i)` over `0 <= i < n`.
pub open spec fn total(c: spec_fn(int) -> real, n: nat) -> real
    decreases n,
{
    if n == 0 {
        0 as real
    } else {
        total(c, (n - 1) as nat) + c(n - 1)
    }
}

/// Equal terms give equal sums.
pub proof fn lemma_total_equal(c: spec_fn(int) -> real, d: spec_fn(int) -> real, n: nat)
    requires
        forall|i: int| 0 <= i < n ==> #[trigger] c(i) == d(i),
    ensures
        total(c, n) == total(d, n),
    decreases n,
{
    if n > 0 {
        lemma_total_equal(c, d, (n - 1) as nat);
        assert(c(n - 1) == d(n - 1));
    }
}

/// A sum falls apart into its first `a` terms and the `b` after them.
pub proof fn lemma_total_split(c: spec_fn(int) -> real, a: nat, b: nat)
    ensures
        total(c, a + b) == total(c, a) + total(|i: int| c(a + i), b),
    decreases b,
{
    if b > 0 {
        lemma_total_split(c, a, (b - 1) as nat);
    }
}

/// The sum of two sums is the sum of the termwise sums.
pub proof fn lemma_total_plus(c: spec_fn(int) -> real, d: spec_fn(int) -> real, n: nat)
    ensures
        total(|i: int| c(i) + d(i), n) == total(c, n) + total(d, n),
    decreases n,
{
    if n > 0 {
        lemma_total_plus(c, d, (n - 1) as nat);
    }
}

/// Terms that are all zero add up to zero.
pub proof fn lemma_total_zero(c: spec_fn(int) -> real, n: nat)
    requires
        forall|i: int| 0 <= i < n ==> #[trigger] c(i) == 0 as real,
    ensures
        total(c, n) == 0 as real,
    decreases n,
{
    if n > 0 {
        lemma_total_zero(c, (n - 1) as nat);
        assert(c(n - 1) == 0 as real);
    }
}

/// A double sum does not depend on which index runs first.
pub proof fn lemma_total_swap(c: spec_fn(int, int) -> real, a: nat, b: nat)
    ensures
        total(|i: int| total(|j: int| c(i, j), b), a) == total(
            |j: int| total(|i: int| c(i, j), a),
            b,
        ),
    decreases a,
{
    if a == 0 {
        lemma_total_zero(|j: int| total(|i: int| c(i, j), 0), b);
    } else {
        let less = (a - 1) as nat;
        lemma_total_swap(c, less, b);
        let head = |j: int| total(|i: int| c(i, j), less);
        let last = |j: int| c(less as int, j);
        lemma_total_plus(head, last, b);
        lemma_total_equal(
            |j: int| total(|i: int| c(i, j), a),
            |j: int| head(j) + last(j),
            b,
        );
    }
}

/// A sum over `a * r` terms, taken in `a` blocks of `r`.
pub proof fn lemma_total_blocks(c: spec_fn(int) -> real, a: nat, r: nat)
    ensures
        total(c, a * r) == total(|i: int| total(|j: int| c(i * r + j), r), a),
    decreases a,
{
    if a == 0 {
        assert(a * r == 0) by (nonlinear_arith)
            requires
                a == 0,
        ;
    } else {
        let less = (a - 1) as nat;
        lemma_total_blocks(c, less, r);
        assert(a * r == less * r + r) by (nonlinear_arith)
            requires
                a == less + 1,
        ;
        lemma_total_split(c, less * r, r);
        lemma_total_equal(
            |i: int| c((less * r) as int + i),
            |j: int| c(less as int * r + j),
            r,
        );
    }
}

/// A sum with at most one term that is not zero is that term.
pub proof fn lemma_total_single(c: spec_fn(int) -> real, n: nat, at: int)
    requires
        0 <= at < n,
        forall|i: int| 0 <= i < n && i != at ==> #[trigger] c(i) == 0 as real,
    ensures
        total(c, n) == c(at),
    decreases n,
{
    let less = (n - 1) as nat;
    if at == less {
        lemma_total_zero(c, less);
    } else {
        lemma_total_single(c, less, at);
        assert(c(less as int) == 0 as real);
    }
}

/// Equal terms add up to a multiple.
pub proof fn lemma_total_constant(c: spec_fn(int) -> real, n: nat, value: real)
    requires
        forall|i: int| 0 <= i < n ==> #[trigger] c(i) == value,
    ensures
        total(c, n) == n as real * value,
    decreases n,
{
    if n > 0 {
        lemma_total_constant(c, (n - 1) as nat, value);
        assert(c(n - 1) == value);
        assert(n as real == (n - 1) as real + 1 as real);
        assert(n as real * value == (n - 1) as real * value + value) by (nonlinear_arith)
            requires
                n as real == (n - 1) as real + 1 as real,
        ;
    } else {
        assert(n as real * value == 0 as real) by (nonlinear_arith)
            requires
                n as real == 0 as real,
        ;
    }
}

/// A sum taken from the other end.
pub proof fn lemma_total_reverse(c: spec_fn(int) -> real, n: nat)
    ensures
        total(|i: int| c(n - 1 - i), n) == total(c, n),
    decreases n,
{
    if n > 0 {
        let less = (n - 1) as nat;
        lemma_total_reverse(c, less);
        let back = |i: int| c(n - 1 - i);
        lemma_total_split(back, 1, less);
        assert(total(back, 0) == 0 as real);
        assert(total(back, 1) == back(0));
        lemma_total_equal(|i: int| back(1 + i), |i: int| c(less - 1 - i), less);
    }
}

/// Two sums agree if their terms agree once each is paired with its mirror image.
pub proof fn lemma_total_paired(c: spec_fn(int) -> real, d: spec_fn(int) -> real, n: nat)
    requires
        forall|i: int| 0 <= i < n ==> #[trigger] c(i) + c(n - 1 - i) == d(i) + d(n - 1 - i),
    ensures
        total(c, n) == total(d, n),
{
    let (c2, d2) = (|i: int| c(n - 1 - i), |i: int| d(n - 1 - i));
    lemma_total_reverse(c, n);
    lemma_total_reverse(d, n);
    lemma_total_plus(c, c2, n);
    lemma_total_plus(d, d2, n);
    lemma_total_equal(|i: int| c(i) + c2(i), |i: int| d(i) + d2(i), n);
}

/// Smaller terms give a smaller sum.
pub proof fn lemma_total_at_most(c: spec_fn(int) -> real, d: spec_fn(int) -> real, n: nat)
    requires
        forall|i: int| 0 <= i < n ==> #[trigger] c(i) <= d(i),
    ensures
        total(c, n) <= total(d, n),
    decreases n,
{
    if n > 0 {
        lemma_total_at_most(c, d, (n - 1) as nat);
        assert(c(n - 1) <= d(n - 1));
    }
}

/// Smaller terms, one of them strictly, give a strictly smaller sum.
pub proof fn lemma_total_less(
    c: spec_fn(int) -> real,
    d: spec_fn(int) -> real,
    n: nat,
    at: int,
)
    requires
        forall|i: int| 0 <= i < n ==> #[trigger] c(i) <= d(i),
        0 <= at < n,
        c(at) < d(at),
    ensures
        total(c, n) < total(d, n),
    decreases n,
{
    let less = (n - 1) as nat;
    assert(c(less as int) <= d(less as int));
    if at == less {
        lemma_total_at_most(c, d, less);
    } else {
        lemma_total_less(c, d, less, at);
    }
}

/// A common factor may be taken out of a sum.
pub proof fn lemma_total_scale(c: spec_fn(int) -> real, n: nat, by: real)
    ensures
        total(|i: int| c(i) * by, n) == total(c, n) * by,
    decreases n,
{
    if n > 0 {
        let less = (n - 1) as nat;
        lemma_total_scale(c, less, by);
        let (head, last) = (total(c, less), c(n - 1));
        assert((head + last) * by == head * by + last * by) by (nonlinear_arith);
    } else {
        assert((0 as real) * by == 0 as real) by (nonlinear_arith);
    }
}

} // verus!
