//! The mixed-radix FFT itself and the DCT-II/III built on it, over any
//! arithmetic that can add and turn complex numbers.
use crate::fft_plan::{dct_interleave_index, digit_reverse_index};
use vstd::prelude::*;

verus! {

/// The arithmetic a transform runs on. Nothing is assumed of it here: the
/// transforms say which operations they apply to what, and in which order.
pub trait SpectrumMath {
    /// A real sample.
    type Real: Copy;

    /// A complex value.
    type Complex: Copy;

    /// The complex zero.
    fn zero(&self) -> Self::Complex;

    /// The sum of two complex values.
    fn plus(&self, a: Self::Complex, b: Self::Complex) -> Self::Complex;

    /// `v` turned by the angle `2 * pi * a * b / den`: clockwise, or
    /// counterclockwise where `inverse` is set.
    fn turned(
        &self,
        v: Self::Complex,
        a: usize,
        b: usize,
        den: usize,
        inverse: bool,
    ) -> Self::Complex;

    /// A real sample as a complex value.
    fn lifted(&self, x: Self::Real) -> Self::Complex;

    /// Twice the real part of `v` turned clockwise by `k / (4 * n)` of a turn.
    fn cosine_part(&self, v: Self::Complex, k: usize, n: usize) -> Self::Real;

    /// A DCT-II bin `k` of `n`, scaled to the orthonormal basis.
    fn normalized(&self, u: Self::Real, k: usize, n: usize) -> Self::Real;

    /// An orthonormal DCT-II bin `k` of `n` without its scale.
    fn unnormalized(&self, f: Self::Real, k: usize, n: usize) -> Self::Real;

    /// Half of `u`, as a complex value.
    fn first_bin(&self, u: Self::Real) -> Self::Complex;

    /// `u` over the square root of two, as a complex value.
    fn middle_bin(&self, u: Self::Real) -> Self::Complex;

    /// Half of `u - i * t`, turned counterclockwise by `k / (4 * n)` of a turn.
    fn paired_bin(&self, u: Self::Real, t: Self::Real, k: usize, n: usize) -> Self::Complex;

    /// The complex conjugate.
    fn mirrored(&self, v: Self::Complex) -> Self::Complex;

    /// The real part over the length `n`.
    fn sample(&self, v: Self::Complex, n: usize) -> Self::Real;
}

/// `acc` is what adding up `terms` from the left, starting from zero, yields.
pub open spec fn adds_up<M: SpectrumMath>(m: &M, terms: Seq<M::Complex>, acc: M::Complex) -> bool
    decreases terms.len(),
{
    if terms.len() == 0 {
        call_ensures(M::zero, (m,), acc)
    } else {
        exists|prev: M::Complex|
            {
                &&& adds_up(m, terms.drop_last(), prev)
                &&& #[trigger] call_ensures(M::plus, (m, prev, terms.last()), acc)
            }
    }
}

/// `out` is point `k` of the direct transform of `ins`.
pub open spec fn direct_point<M: SpectrumMath>(
    m: &M,
    ins: Seq<M::Complex>,
    k: int,
    out: M::Complex,
    inverse: bool,
) -> bool {
    exists|terms: Seq<M::Complex>|
        {
            &&& terms.len() == ins.len()
            &&& forall|j: int|
                0 <= j < ins.len() ==> call_ensures(
                    M::turned,
                    (m, ins[j], j as usize, k as usize, ins.len() as usize, inverse),
                    #[trigger] terms[j],
                )
            &&& #[trigger] adds_up(m, terms, out)
        }
}

/// One butterfly: input `j` is turned by `j * p / width` of a full turn, then
/// output `k` is point `k` of the direct transform of the turned inputs.
pub open spec fn butterfly<M: SpectrumMath>(
    m: &M,
    ins: Seq<M::Complex>,
    outs: Seq<M::Complex>,
    p: int,
    width: int,
    inverse: bool,
) -> bool {
    &&& outs.len() == ins.len()
    &&& exists|turned: Seq<M::Complex>|
        {
            &&& turned.len() == ins.len()
            &&& forall|j: int|
                0 <= j < ins.len() ==> call_ensures(
                    M::turned,
                    (m, ins[j], j as usize, p as usize, width as usize, inverse),
                    #[trigger] turned[j],
                )
            &&& forall|k: int|
                0 <= k < ins.len() ==> #[trigger] direct_point(m, turned, k, outs[k], inverse)
        }
}

/// The `r` elements `l` apart that start at `at`.
pub open spec fn column<T>(data: Seq<T>, at: int, l: int, r: int) -> Seq<T> {
    Seq::new(r as nat, |j: int| data[at + j * l])
}

/// Block `g` of `l * r` elements went through the butterfly at offset `p`.
pub open spec fn cell_done<M: SpectrumMath>(
    m: &M,
    before: Seq<M::Complex>,
    after: Seq<M::Complex>,
    l: int,
    r: int,
    g: int,
    p: int,
    inverse: bool,
) -> bool {
    butterfly(
        m,
        column(before, g * (l * r) + p, l, r),
        column(after, g * (l * r) + p, l, r),
        p,
        l * r,
        inverse,
    )
}

/// One stage: every block of `l * r` elements goes through the butterflies at
/// each offset below `l`.
pub open spec fn stage<M: SpectrumMath>(
    m: &M,
    before: Seq<M::Complex>,
    after: Seq<M::Complex>,
    l: int,
    r: int,
    inverse: bool,
) -> bool {
    &&& after.len() == before.len()
    &&& forall|g: int, p: int|
        0 <= g < before.len() as int / (l * r) && 0 <= p < l ==> #[trigger] cell_done(
            m,
            before,
            after,
            l,
            r,
            g,
            p,
            inverse,
        )
}

/// `out` is what the stages of `f` make of `first`: the stage of the last
/// factor comes first, that of `f[0]` last.
pub open spec fn stages<M: SpectrumMath>(
    m: &M,
    first: Seq<M::Complex>,
    f: Seq<usize>,
    inverse: bool,
    out: Seq<M::Complex>,
) -> bool
    decreases f.len(),
{
    if f.len() == 0 {
        out == first
    } else {
        exists|mid: Seq<M::Complex>|
            {
                &&& stages(m, first, f.drop_first(), inverse, mid)
                &&& #[trigger] stage(
                    m,
                    mid,
                    out,
                    crate::fft_plan::product(f.drop_first()) as int,
                    f[0] as int,
                    inverse,
                )
            }
    }
}

/// `first` holds the elements of `x`, each at its digit-reversed index.
pub open spec fn digit_reversed<T>(x: Seq<T>, f: Seq<usize>, first: Seq<T>) -> bool {
    &&& first.len() == x.len()
    &&& forall|i: int|
        0 <= i < x.len() ==> first[crate::fft_plan::digit_reverse(i as nat, f) as int]
            == #[trigger] x[i]
}

/// `out` is what the FFT with factors `f` makes of `x`: the digit-reversal
/// permutation, then one stage per factor.
pub open spec fn transforms<M: SpectrumMath>(
    m: &M,
    x: Seq<M::Complex>,
    f: Seq<usize>,
    inverse: bool,
    out: Seq<M::Complex>,
) -> bool {
    exists|first: Seq<M::Complex>|
        digit_reversed(x, f, first) && #[trigger] stages(m, first, f, inverse, out)
}

/// Whether every factor lies between 1 and 7, the largest radix there is.
pub open spec fn all_small(f: Seq<usize>) -> bool {
    forall|i: int| 0 <= i < f.len() ==> 1 <= #[trigger] f[i] <= 7
}

/// A cell of a block of `r` runs of `l` elements fixes its block, run and offset.
pub proof fn lemma_position(g: int, k: int, p: int, l: int, r: int)
    requires
        0 <= p < l,
        0 <= k < r,
    ensures
        (g * (l * r) + p + k * l) / (l * r) == g,
        ((g * (l * r) + p + k * l) % (l * r)) / l == k,
        ((g * (l * r) + p + k * l) % (l * r)) % l == p,
{
    crate::arith::lemma_cell_bound(k, p, r, l);
    assert(l * r == r * l) by (nonlinear_arith);
    crate::arith::lemma_div_mod_of(g * (l * r) + p + k * l, l * r, g, k * l + p);
    crate::arith::lemma_div_mod_of(k * l + p, l, k, p);
}

/// The cells of block `g` lie inside the data.
pub proof fn lemma_position_bound(n: int, g: int, k: int, p: int, l: int, r: int)
    requires
        0 <= p < l,
        0 <= k < r,
        0 <= g < n / (l * r),
    ensures
        0 <= g * (l * r) + p + k * l < n,
{
    crate::arith::lemma_cell_bound(k, p, r, l);
    assert(l * r == r * l) by (nonlinear_arith);
    let w = l * r;
    let q = n / w;
    vstd::arithmetic::div_mod::lemma_fundamental_div_mod(n, w);
    assert(0 <= g * w) by (nonlinear_arith)
        requires
            0 <= g,
            0 < w,
    ;
    assert(g * w + w <= q * w) by (nonlinear_arith)
        requires
            g + 1 <= q,
            0 < w,
    ;
    assert(w * q == q * w) by (nonlinear_arith);
}

/// One butterfly in place.
fn run_butterfly<M: SpectrumMath>(
    m: &M,
    data: &mut [M::Complex],
    base: usize,
    l: usize,
    r: usize,
    p: usize,
    inverse: bool,
)
    requires
        1 <= r <= 7,
        p < l,
        l * r <= usize::MAX,
        base + l * r <= old(data)@.len(),
    ensures
        final(data)@.len() == old(data)@.len(),
        butterfly(
            m,
            column(old(data)@, base + p, l as int, r as int),
            column(final(data)@, base + p, l as int, r as int),
            p as int,
            l * r,
            inverse,
        ),
        forall|i: int|
            0 <= i < old(data)@.len() && (forall|k: int|
                0 <= k < r ==> i != base + p + #[trigger] (k * l)) ==> #[trigger] final(data)@[i]
                == old(data)@[i],
{
    let ghost before = data@;
    let ghost ins = column(before, base + p, l as int, r as int);
    let n: usize = data.len();
    let width: usize = l * r;
    let mut inputs = [m.zero();7];
    let mut j: usize = 0;
    while j < r
        invariant
            j <= r,
            1 <= r <= 7,
            p < l,
            l * r <= usize::MAX,
            width == l * r,
            n == data@.len(),
            base + l * r <= n,
            data@ == before,
            ins == column(before, base + p, l as int, r as int),
            inputs@.len() == 7,
            forall|t: int|
                0 <= t < j ==> call_ensures(
                    M::turned,
                    (m, ins[t], t as usize, p, width, inverse),
                    #[trigger] inputs@[t],
                ),
        decreases r - j,
    {
        proof {
            crate::arith::lemma_cell_bound(j as int, p as int, r as int, l as int);
            assert(l * r == r * l) by (nonlinear_arith);
            assert(0 <= j * l) by (nonlinear_arith);
        }
        let v = data[base + p + j * l];
        inputs[j] = m.turned(v, j, p, width, inverse);
        j = j + 1;
    }
    let ghost turned = inputs@.take(r as int);
    let mut k: usize = 0;
    while k < r
        invariant
            k <= r,
            1 <= r <= 7,
            p < l,
            l * r <= usize::MAX,
            width == l * r,
            n == data@.len(),
            base + l * r <= n,
            data@.len() == before.len(),
            inputs@.len() == 7,
            turned == inputs@.take(r as int),
            forall|t: int|
                0 <= t < k ==> #[trigger] direct_point(
                    m,
                    turned,
                    t,
                    column(data@, base + p, l as int, r as int)[t],
                    inverse,
                ),
            forall|i: int|
                0 <= i < before.len() && (forall|t: int|
                    0 <= t < r ==> i != base + p + #[trigger] (t * l)) ==> #[trigger] data@[i]
                    == before[i],
        decreases r - k,
    {
        let mut acc = m.zero();
        let ghost mut terms: Seq<M::Complex> = Seq::empty();
        let mut t: usize = 0;
        while t < r
            invariant
                t <= r,
                1 <= r <= 7,
                k < r,
                inputs@.len() == 7,
                turned == inputs@.take(r as int),
                terms.len() == t,
                adds_up(m, terms, acc),
                forall|s: int|
                    0 <= s < t ==> call_ensures(
                        M::turned,
                        (m, turned[s], s as usize, k, r, inverse),
                        #[trigger] terms[s],
                    ),
            decreases r - t,
        {
            let term = m.turned(inputs[t], t, k, r, inverse);
            let ghost prev = acc;
            acc = m.plus(acc, term);
            proof {
                let longer = terms.push(term);
                assert(longer.drop_last() =~= terms);
                assert(longer.last() == term);
                assert(call_ensures(M::plus, (m, prev, longer.last()), acc));
                assert(adds_up(m, longer, acc));
                terms = longer;
            }
            t = t + 1;
        }
        assert(direct_point(m, turned, k as int, acc, inverse));
        proof {
            crate::arith::lemma_cell_bound(k as int, p as int, r as int, l as int);
            assert(l * r == r * l) by (nonlinear_arith);
            assert(0 <= k * l) by (nonlinear_arith);
        }
        let ghost data0 = data@;
        data[base + p + k * l] = acc;
        proof {
            let col0 = column(data0, base + p, l as int, r as int);
            let col1 = column(data@, base + p, l as int, r as int);
            assert forall|s: int| 0 <= s < k + 1 implies #[trigger] direct_point(
                m,
                turned,
                s,
                col1[s],
                inverse,
            ) by {
                if s < k {
                    assert(direct_point(m, turned, s, col0[s], inverse));
                    crate::arith::lemma_cell_bound(s, p as int, r as int, l as int);
                    assert(s * l != k * l) by (nonlinear_arith)
                        requires
                            s < k,
                            0 < l,
                    ;
                    assert(col1[s] == col0[s]);
                } else {
                    assert(col1[s] == acc);
                }
            }
        }
        k = k + 1;
    }
    proof {
        let outs = column(data@, base + p, l as int, r as int);
        assert(turned.len() == ins.len());
        assert forall|j: int| 0 <= j < ins.len() implies call_ensures(
            M::turned,
            (m, ins[j], j as usize, p, width, inverse),
            #[trigger] turned[j],
        ) by {
            assert(turned[j] == inputs@[j]);
        }
    }
}

/// Butterfly `(g, p)` leaves the column of every other butterfly alone.
proof fn lemma_other_column<T>(
    data0: Seq<T>,
    data1: Seq<T>,
    l: int,
    r: int,
    g: int,
    p: int,
    gg: int,
    pp: int,
)
    requires
        data1.len() == data0.len(),
        0 < r,
        0 <= p < l,
        0 <= pp < l,
        0 <= g < data0.len() as int / (l * r),
        0 <= gg < data0.len() as int / (l * r),
        gg != g || pp != p,
        forall|i: int|
            0 <= i < data0.len() && (forall|k: int|
                0 <= k < r ==> i != g * (l * r) + p + #[trigger] (k * l)) ==> #[trigger] data1[i]
                == data0[i],
    ensures
        cell_kept(data0, data1, l, r, gg, pp),
{
    let (a, b) = (column(data1, gg * (l * r) + pp, l, r), column(data0, gg * (l * r) + pp, l, r));
    assert forall|j: int| 0 <= j < r implies #[trigger] a[j] == b[j] by {
        let i = gg * (l * r) + pp + j * l;
        lemma_position_bound(data0.len() as int, gg, j, pp, l, r);
        lemma_position(gg, j, pp, l, r);
        assert forall|k: int| 0 <= k < r implies i != g * (l * r) + p + #[trigger] (k * l) by {
            lemma_position(g, k, p, l, r);
        }
    }
    assert(a =~= b);
}

/// The column of butterfly `(g, p)` is as it was.
spec fn cell_kept<T>(before: Seq<T>, after: Seq<T>, l: int, r: int, g: int, p: int) -> bool {
    column(after, g * (l * r) + p, l, r) == column(before, g * (l * r) + p, l, r)
}

/// Whether butterfly `(gg, pp)` comes before `(g, p)`.
spec fn earlier(gg: int, pp: int, g: int, p: int) -> bool {
    gg < g || (gg == g && pp < p)
}

/// One stage in place: blocks of `l * r` elements, `l` butterflies in each.
fn run_stage<M: SpectrumMath>(
    m: &M,
    data: &mut [M::Complex],
    l: usize,
    r: usize,
    inverse: bool,
)
    requires
        1 <= r <= 7,
        1 <= l,
        l * r <= usize::MAX,
    ensures
        final(data)@.len() == old(data)@.len(),
        stage(m, old(data)@, final(data)@, l as int, r as int, inverse),
{
    let ghost before = data@;
    let n: usize = data.len();
    assert(l * r >= 1) by (nonlinear_arith)
        requires
            1 <= l,
            1 <= r,
    ;
    let width: usize = l * r;
    let groups: usize = n / width;
    let mut g: usize = 0;
    while g < groups
        invariant
            g <= groups,
            n == before.len(),
            n == data@.len(),
            1 <= r <= 7,
            1 <= l,
            width == l * r,
            width >= 1,
            groups == n as int / (l * r),
            forall|gg: int, pp: int|
                0 <= gg < groups && 0 <= pp < l && earlier(gg, pp, g as int, 0)
                    ==> #[trigger] cell_done(m, before, data@, l as int, r as int, gg, pp, inverse),
            forall|gg: int, pp: int|
                0 <= gg < groups && 0 <= pp < l && !earlier(gg, pp, g as int, 0)
                    ==> #[trigger] cell_kept(before, data@, l as int, r as int, gg, pp),
        decreases groups - g,
    {
        proof {
            lemma_position_bound(n as int, g as int, r - 1, l - 1, l as int, r as int);
            assert(l - 1 + (r - 1) * l == l * r - 1) by (nonlinear_arith);
            assert(0 <= g * (l * r)) by (nonlinear_arith);
        }
        let base: usize = g * width;
        let mut p: usize = 0;
        while p < l
            invariant
                p <= l,
                g < groups,
                n == before.len(),
                n == data@.len(),
                1 <= r <= 7,
                1 <= l,
                width == l * r,
                width >= 1,
                groups == n as int / (l * r),
                base == g * (l * r),
                base + l * r <= n,
                forall|gg: int, pp: int|
                    0 <= gg < groups && 0 <= pp < l && earlier(gg, pp, g as int, p as int)
                        ==> #[trigger] cell_done(
                        m,
                        before,
                        data@,
                        l as int,
                        r as int,
                        gg,
                        pp,
                        inverse,
                    ),
                forall|gg: int, pp: int|
                    0 <= gg < groups && 0 <= pp < l && !earlier(gg, pp, g as int, p as int)
                        ==> #[trigger] cell_kept(before, data@, l as int, r as int, gg, pp),
            decreases l - p,
        {
            let ghost data0 = data@;
            run_butterfly(m, data, base, l, r, p, inverse);
            proof {
                let (li, ri, gi, pi) = (l as int, r as int, g as int, p as int);
                assert forall|gg: int, pp: int|
                    0 <= gg < groups && 0 <= pp < l && earlier(
                        gg,
                        pp,
                        gi,
                        pi + 1,
                    ) implies #[trigger] cell_done(m, before, data@, li, ri, gg, pp, inverse) by {
                    if gg == gi && pp == pi {
                        assert(cell_kept(before, data0, li, ri, gi, pi));
                    } else {
                        assert(earlier(gg, pp, gi, pi));
                        assert(cell_done(m, before, data0, li, ri, gg, pp, inverse));
                        lemma_other_column(data0, data@, li, ri, gi, pi, gg, pp);
                    }
                }
                assert forall|gg: int, pp: int|
                    0 <= gg < groups && 0 <= pp < l && !earlier(
                        gg,
                        pp,
                        gi,
                        pi + 1,
                    ) implies #[trigger] cell_kept(before, data@, li, ri, gg, pp) by {
                    assert(!earlier(gg, pp, gi, pi));
                    assert(cell_kept(before, data0, li, ri, gg, pp));
                    lemma_other_column(data0, data@, li, ri, gi, pi, gg, pp);
                }
            }
            p = p + 1;
        }
        proof {
            let (li, ri) = (l as int, r as int);
            assert forall|gg: int, pp: int|
                0 <= gg < groups && 0 <= pp < l && earlier(
                    gg,
                    pp,
                    g + 1,
                    0,
                ) implies #[trigger] cell_done(m, before, data@, li, ri, gg, pp, inverse) by {
                assert(earlier(gg, pp, g as int, p as int));
            }
            assert forall|gg: int, pp: int|
                0 <= gg < groups && 0 <= pp < l && !earlier(
                    gg,
                    pp,
                    g + 1,
                    0,
                ) implies #[trigger] cell_kept(before, data@, li, ri, gg, pp) by {
                assert(!earlier(gg, pp, g as int, p as int));
            }
        }
        g = g + 1;
    }
    proof {
        assert forall|gg: int, pp: int|
            0 <= gg < before.len() as int / (l * r) && 0 <= pp < l implies #[trigger] cell_done(
            m,
            before,
            data@,
            l as int,
            r as int,
            gg,
            pp,
            inverse,
        ) by {
            assert(earlier(gg, pp, g as int, 0));
        }
    }
}

/// In-place iterative mixed-radix Cooley-Tukey FFT. `inverse` computes the
/// inverse transform without the division by the length.
pub fn fft_mixed_radix<M: SpectrumMath>(
    m: &M,
    data: &mut [M::Complex],
    factors: &[usize],
    inverse: bool,
)
    requires
        all_small(factors@),
        old(data)@.len() == crate::fft_plan::product(factors@),
    ensures
        final(data)@.len() == old(data)@.len(),
        transforms(m, old(data)@, factors@, inverse, final(data)@),
{
    let ghost x = data@;
    let ghost f = factors@;
    let n: usize = data.len();
    let zero = m.zero();
    let mut permuted: Vec<M::Complex> = Vec::with_capacity(n);
    while permuted.len() < n
        invariant
            permuted@.len() <= n,
        decreases n - permuted@.len(),
    {
        permuted.push(zero);
    }
    let mut i: usize = 0;
    while i < n
        invariant
            i <= n,
            n == x.len(),
            data@ == x,
            f == factors@,
            all_small(f),
            n == crate::fft_plan::product(f),
            permuted@.len() == n,
            forall|t: int|
                0 <= t < i ==> permuted@[crate::fft_plan::digit_reverse(t as nat, f) as int]
                    == #[trigger] x[t],
        decreases n - i,
    {
        let to: usize = digit_reverse_index(i, factors);
        let ghost was = permuted@;
        permuted.set(to, data[i]);
        proof {
            assert forall|t: int| 0 <= t < i + 1 implies permuted@[crate::fft_plan::digit_reverse(
                t as nat,
                f,
            ) as int] == #[trigger] x[t] by {
                crate::fft_plan::lemma_digit_reverse_bound(t as nat, f);
                if t < i {
                    crate::fft_plan::lemma_digit_reverse_injective(t as nat, i as nat, f);
                }
            }
        }
        i = i + 1;
    }
    let ghost first = permuted@;
    let mut c: usize = 0;
    while c < n
        invariant
            c <= n,
            n == data@.len(),
            n == permuted@.len(),
            forall|t: int| 0 <= t < c ==> #[trigger] data@[t] == permuted@[t],
        decreases n - c,
    {
        data[c] = permuted[c];
        c = c + 1;
    }
    assert(data@ =~= first);
    assert(digit_reversed(x, f, first));

    let mut l: usize = 1;
    let mut q: usize = factors.len();
    assert(f.skip(q as int) =~= Seq::<usize>::empty());
    while q > 0
        invariant
            q <= factors.len(),
            f == factors@,
            all_small(f),
            n == data@.len(),
            n == crate::fft_plan::product(f),
            l == crate::fft_plan::product(f.skip(q as int)),
            stages(m, first, f.skip(q as int), inverse, data@),
        decreases q,
    {
        let ghost before = f.skip(q as int);
        let ghost mid = data@;
        q = q - 1;
        let ghost now = f.skip(q as int);
        let r: usize = factors[q];
        proof {
            assert(now[0] == f[q as int]);
            assert(now.drop_first() =~= before);
            assert(1 <= f[q as int] <= 7);
            crate::fft_plan::lemma_suffix_product(f, q as int);
            crate::fft_plan::lemma_suffix_product(f, q + 1);
            assert(l * r == r * l) by (nonlinear_arith);
        }
        run_stage(m, data, l, r, inverse);
        assert(stages(m, first, now.drop_first(), inverse, mid));
        assert(stage(
            m,
            mid,
            data@,
            crate::fft_plan::product(now.drop_first()) as int,
            now[0] as int,
            inverse,
        ));
        assert(stages(m, first, now, inverse, data@));
        l = l * r;
    }
    assert(f.skip(0) =~= f);
}

/// `v` holds the samples `x` as complex values, in the order of the even/odd
/// interleave.
pub open spec fn interleaved<M: SpectrumMath>(
    m: &M,
    x: Seq<M::Real>,
    v: Seq<M::Complex>,
) -> bool {
    &&& v.len() == x.len()
    &&& forall|i: int|
        0 <= i < x.len() ==> call_ensures(
            M::lifted,
            (m, #[trigger] x[i]),
            v[crate::fft_plan::interleave(i, x.len() as int)],
        )
}

/// `out` is bin `k` of the DCT-II that the spectrum's value `v` stands for.
pub open spec fn dct2_bin<M: SpectrumMath>(
    m: &M,
    v: M::Complex,
    k: int,
    n: int,
    out: M::Real,
) -> bool {
    exists|u: M::Real|
        {
            &&& call_ensures(M::cosine_part, (m, v, k as usize, n as usize), u)
            &&& #[trigger] call_ensures(M::normalized, (m, u, k as usize, n as usize), out)
        }
}

/// `out` is the DCT-II of `x` by way of the FFT with factors `f`.
pub open spec fn dct2<M: SpectrumMath>(
    m: &M,
    x: Seq<M::Real>,
    f: Seq<usize>,
    out: Seq<M::Real>,
) -> bool {
    &&& out.len() == x.len()
    &&& exists|v: Seq<M::Complex>, spectrum: Seq<M::Complex>|
        {
            &&& interleaved(m, x, v)
            &&& #[trigger] transforms(m, v, f, false, spectrum)
            &&& spectrum.len() == x.len()
            &&& forall|k: int|
                0 <= k < x.len() ==> #[trigger] dct2_bin(
                    m,
                    spectrum[k],
                    k,
                    x.len() as int,
                    out[k],
                )
        }
}

/// Real-input DCT-II by way of an FFT (Makhoul's algorithm): even elements
/// first and odd ones in reverse behind them, FFT, then each bin turned and
/// scaled.
pub fn dct2_via_fft<M: SpectrumMath>(m: &M, x: &[M::Real], factors: &[usize]) -> (out: Vec<M::Real>)
    requires
        all_small(factors@),
        x@.len() == crate::fft_plan::product(factors@),
        x@.len() % 2 == 0,
    ensures
        dct2(m, x@, factors@, out@),
{
    let n: usize = x.len();
    let zero = m.zero();
    let mut v: Vec<M::Complex> = Vec::with_capacity(n);
    while v.len() < n
        invariant
            v@.len() <= n,
        decreases n - v@.len(),
    {
        v.push(zero);
    }
    let mut i: usize = 0;
    while i < n
        invariant
            i <= n,
            n == x@.len(),
            v@.len() == n,
            forall|t: int|
                0 <= t < i ==> call_ensures(
                    M::lifted,
                    (m, #[trigger] x@[t]),
                    v@[crate::fft_plan::interleave(t, n as int)],
                ),
        decreases n - i,
    {
        let to: usize = dct_interleave_index(i, n);
        let value = m.lifted(x[i]);
        proof {
            crate::plan_laws::law_interleave_is_a_permutation(n as int);
            assert(crate::fft_plan::interleave(i as int, n as int) == to);
        }
        v.set(to, value);
        proof {
            assert forall|t: int| 0 <= t < i + 1 implies call_ensures(
                M::lifted,
                (m, #[trigger] x@[t]),
                v@[crate::fft_plan::interleave(t, n as int)],
            ) by {
                let at = crate::fft_plan::interleave(t, n as int);
                assert(t < i ==> at != crate::fft_plan::interleave(i as int, n as int));
            }
        }
        i = i + 1;
    }
    let ghost ordered = v@;
    fft_mixed_radix(m, v.as_mut_slice(), factors, false);
    let mut out: Vec<M::Real> = Vec::with_capacity(n);
    let mut k: usize = 0;
    while k < n
        invariant
            k <= n,
            n == v@.len(),
            out@.len() == k,
            forall|t: int|
                0 <= t < k ==> #[trigger] dct2_bin(m, v@[t], t, n as int, out@[t]),
        decreases n - k,
    {
        let u = m.cosine_part(v[k], k, n);
        let bin = m.normalized(u, k, n);
        assert(dct2_bin(m, v@[k as int], k as int, n as int, bin));
        out.push(bin);
        k = k + 1;
    }
    assert(interleaved(m, x@, ordered));
    out
}

/// `v` is the spectrum that the bins `u` of a DCT-II without scale stand for.
pub open spec fn rebuilt<M: SpectrumMath>(
    m: &M,
    u: Seq<M::Real>,
    v: Seq<M::Complex>,
) -> bool {
    let n = u.len() as int;
    &&& v.len() == u.len()
    &&& call_ensures(M::first_bin, (m, u[0]), v[0])
    &&& call_ensures(M::middle_bin, (m, u[n / 2]), v[n / 2])
    &&& forall|k: int|
        1 <= k < n / 2 ==> call_ensures(
            M::paired_bin,
            (m, u[k], u[n - k], k as usize, n as usize),
            #[trigger] v[k],
        ) && call_ensures(M::mirrored, (m, v[k]), v[n - k])
}

/// `out` is the DCT-III of `bins` by way of the inverse FFT with factors `f`.
pub open spec fn dct3<M: SpectrumMath>(
    m: &M,
    bins: Seq<M::Real>,
    f: Seq<usize>,
    out: Seq<M::Real>,
) -> bool {
    let n = bins.len() as int;
    &&& out.len() == bins.len()
    &&& exists|u: Seq<M::Real>, v: Seq<M::Complex>, y: Seq<M::Complex>|
        {
            &&& u.len() == bins.len()
            &&& forall|k: int|
                0 <= k < n ==> call_ensures(
                    M::unnormalized,
                    (m, bins[k], k as usize, n as usize),
                    #[trigger] u[k],
                )
            &&& #[trigger] rebuilt(m, u, v)
            &&& #[trigger] transforms(m, v, f, true, y)
            &&& y.len() == bins.len()
            &&& forall|i: int|
                0 <= i < n ==> call_ensures(
                    M::sample,
                    (m, y[crate::fft_plan::interleave(i, n)], n as usize),
                    #[trigger] out[i],
                )
        }
}

/// Real-input DCT-III, the inverse of [`dct2_via_fft`], by way of an inverse
/// FFT: the spectrum is rebuilt from the bins, whose conjugate symmetry gives
/// each value from the bin and its mirror image, then transformed back and put
/// into its natural order.
pub fn dct3_via_fft<M: SpectrumMath>(
    m: &M,
    bins: &[M::Real],
    factors: &[usize],
) -> (out: Vec<M::Real>)
    requires
        all_small(factors@),
        bins@.len() == crate::fft_plan::product(factors@),
        bins@.len() % 2 == 0,
    ensures
        dct3(m, bins@, factors@, out@),
{
    let n: usize = bins.len();
    let half: usize = n / 2;
    proof {
        crate::fft_plan::lemma_product_positive(factors@);
    }
    let mut u: Vec<M::Real> = Vec::with_capacity(n);
    let mut k: usize = 0;
    while k < n
        invariant
            k <= n,
            n == bins@.len(),
            u@.len() == k,
            forall|t: int|
                0 <= t < k ==> call_ensures(
                    M::unnormalized,
                    (m, bins@[t], t as usize, n),
                    #[trigger] u@[t],
                ),
        decreases n - k,
    {
        u.push(m.unnormalized(bins[k], k, n));
        k = k + 1;
    }
    let zero = m.zero();
    let mut v: Vec<M::Complex> = Vec::with_capacity(n);
    while v.len() < n
        invariant
            v@.len() <= n,
        decreases n - v@.len(),
    {
        v.push(zero);
    }
    v.set(0, m.first_bin(u[0]));
    v.set(half, m.middle_bin(u[half]));
    let mut t: usize = 1;
    while t < half
        invariant
            1 <= t,
            t <= half || half < 1,
            half == n / 2,
            n % 2 == 0,
            n >= 2,
            u@.len() == n,
            v@.len() == n,
            call_ensures(M::first_bin, (m, u@[0]), v@[0]),
            call_ensures(M::middle_bin, (m, u@[half as int]), v@[half as int]),
            forall|s: int|
                1 <= s < t ==> call_ensures(
                    M::paired_bin,
                    (m, u@[s], u@[n - s], s as usize, n),
                    #[trigger] v@[s],
                ) && call_ensures(M::mirrored, (m, v@[s]), v@[n - s]),
        decreases half - t,
    {
        let value = m.paired_bin(u[t], u[n - t], t, n);
        v.set(t, value);
        v.set(n - t, m.mirrored(value));
        t = t + 1;
    }
    let ghost spectrum = v@;
    assert(rebuilt(m, u@, spectrum));
    fft_mixed_radix(m, v.as_mut_slice(), factors, true);
    let mut out: Vec<M::Real> = Vec::with_capacity(n);
    let mut i: usize = 0;
    while i < n
        invariant
            i <= n,
            n == v@.len(),
            out@.len() == i,
            forall|s: int|
                0 <= s < i ==> call_ensures(
                    M::sample,
                    (m, v@[crate::fft_plan::interleave(s, n as int)], n),
                    #[trigger] out@[s],
                ),
        decreases n - i,
    {
        let from: usize = dct_interleave_index(i, n);
        proof {
            crate::plan_laws::law_interleave_is_a_permutation(n as int);
            assert(crate::fft_plan::interleave(i as int, n as int) == from);
        }
        out.push(m.sample(v[from], n));
        i = i + 1;
    }
    out
}

} // verus!
