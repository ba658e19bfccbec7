//! Rows computed side by side, and put together again.
use rayon::prelude::{IntoParallelIterator, ParallelIterator};
use vstd::prelude::*;

verus! {

/// `ParallelIterator::map` over `0..n`, collected: element `i` of the result is
/// what `f` returned for `i`. Rayon's indexed `collect` keeps the order of the
/// range whatever the threads do.
#[verifier::external_body]
pub(crate) fn par_map<R: Send, F: Fn(usize) -> R + Sync + Send>(n: usize, f: F) -> (out: Vec<R>)
    requires
        forall|i: usize| i < n ==> call_requires(f, (i,)),
    ensures
        out@.len() == n,
        forall|i: usize| i < n ==> call_ensures(f, (i,), #[trigger] out@[i as int]),
{
    (0..n).into_par_iter().map(f).collect()
}

/// Rows of `w` elements, one behind the other.
pub fn joined_rows<T: Copy>(rows: &Vec<Vec<T>>, w: usize) -> (all: Vec<T>)
    requires
        forall|y: int| 0 <= y < rows@.len() ==> #[trigger] rows@[y]@.len() == w,
        w * rows@.len() <= usize::MAX,
    ensures
        all@.len() == w * rows@.len(),
        forall|x: int, y: int|
            0 <= x < w && 0 <= y < rows@.len() ==> all@[y * w + x] == #[trigger] rows@[y]@[x],
{
    let mut all: Vec<T> = Vec::with_capacity(w * rows.len());
    let mut y: usize = 0;
    while y < rows.len()
        invariant
            y <= rows@.len(),
            forall|t: int| 0 <= t < rows@.len() ==> #[trigger] rows@[t]@.len() == w,
            all@.len() == y * w,
            forall|x: int, t: int|
                0 <= x < w && 0 <= t < y ==> all@[t * w + x] == #[trigger] rows@[t]@[x],
        decreases rows@.len() - y,
    {
        let row: &Vec<T> = &rows[y];
        assert(row@.len() == w);
        let mut x: usize = 0;
        while x < w
            invariant
                x <= w,
                y < rows@.len(),
                row@ == rows@[y as int]@,
                row@.len() == w,
                all@.len() == y * w + x,
                forall|xx: int, t: int|
                    0 <= xx < w && 0 <= t < y ==> all@[t * w + xx] == #[trigger] rows@[t]@[xx],
                forall|xx: int| 0 <= xx < x ==> all@[y * w + xx] == #[trigger] row@[xx],
            decreases w - x,
        {
            let ghost was = all@;
            all.push(row[x]);
            proof {
                assert forall|xx: int, t: int| 0 <= xx < w && 0 <= t < y implies all@[t * w + xx]
                    == #[trigger] rows@[t]@[xx] by {
                    crate::arith::lemma_cell_bound(t, xx, y as int, w as int);
                    assert(was[t * w + xx] == rows@[t]@[xx]);
                }
                assert(0 <= y * w) by (nonlinear_arith);
            }
            x = x + 1;
        }
        assert((y + 1) * w == y * w + w) by (nonlinear_arith);
        y = y + 1;
    }
    assert(y * w == w * y) by (nonlinear_arith);
    all
}

} // verus!
