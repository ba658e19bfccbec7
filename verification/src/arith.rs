//! Integer facts shared by the transform proofs.
use vstd::arithmetic::div_mod::{
    lemma_fundamental_div_mod, lemma_fundamental_div_mod_converse, lemma_mod_multiples_basic,
};
use vstd::prelude::*;

verus! {

/// A multiple of a multiple of `m` is a multiple of `m`.
pub proof fn lemma_multiple_of_multiple(a: int, b: int, m: int)
    requires
        m > 0,
        b % m == 0,
    ensures
        (a * b) % m == 0,
{
    lemma_fundamental_div_mod(b, m);
    let q = b / m;
    assert(a * b == (a * q) * m) by (nonlinear_arith)
        requires
            b == m * q + 0,
    ;
    lemma_mod_multiples_basic(a * q, m);
}

/// `x = d * q + r` with `0 <= r < d` fixes quotient and remainder.
pub proof fn lemma_div_mod_of(x: int, d: int, q: int, r: int)
    requires
        0 <= r < d,
        x == q * d + r,
    ensures
        x / d == q,
        x % d == r,
{
    lemma_fundamental_div_mod_converse(x, d, q, r);
}

/// The quotient of a number below `a * b` by `b` is below `a`.
pub proof fn lemma_quotient_bound(x: int, a: int, b: int)
    requires
        0 <= x < a * b,
        b > 0,
    ensures
        0 <= x / b < a,
{
    lemma_fundamental_div_mod(x, b);
    let q = x / b;
    assert(0 <= q < a) by (nonlinear_arith)
        requires
            x == b * q + x % b,
            0 <= x % b < b,
            0 <= x < a * b,
            b > 0,
    ;
}

/// The largest cell of an `a` by `b` grid, row by row, lies below `a * b`.
pub proof fn lemma_cell_bound(row: int, col: int, a: int, b: int)
    requires
        0 <= row < a,
        0 <= col < b,
    ensures
        0 <= row * b + col < a * b,
{
    assert(0 <= row * b + col < a * b) by (nonlinear_arith)
        requires
            0 <= row < a,
            0 <= col < b,
    ;
}

} // verus!
