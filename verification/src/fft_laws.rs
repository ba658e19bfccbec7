//! What the transforms compute where the arithmetic is exact.
//!
//! A value is described by its components: `co(v, e)` is the component of `v`
//! along `w^e`, the real part of `v * w^-e`, where `w` is one `n`-th of a full
//! turn clockwise. Exact complex arithmetic has every property asked for here.
use crate::fft_stages::SpectrumMath;
use vstd::prelude::*;

verus! {

/// `1` clockwise, `-1` counterclockwise.
pub open spec fn direction(inverse: bool) -> int {
    if inverse {
        -1
    } else {
        1
    }
}

/// How many `n`-ths of a full turn clockwise `a * b / den` of a turn is.
pub open spec fn turn(a: int, b: int, den: int, n: int, inverse: bool) -> int {
    direction(inverse) * (a * b * (n / den))
}

/// `n` steps are a full turn.
pub open spec fn periodic<V>(co: spec_fn(V, int) -> real, n: int) -> bool {
    forall|v: V, e1: int, e2: int|
        #![trigger co(v, e1), co(v, e2)]
        (e1 - e2) % n == 0 ==> co(v, e1) == co(v, e2)
}

/// The arithmetic `m` is exact on `n`-ths of a turn: every component of its zero
/// is zero, sums add components, and turning shifts them.
pub open spec fn exact<M: SpectrumMath>(
    m: &M,
    co: spec_fn(M::Complex, int) -> real,
    n: int,
) -> bool {
    &&& n > 0
    &&& periodic(co, n)
    &&& forall|z: M::Complex, e: int|
        #![trigger call_ensures(M::zero, (m,), z), co(z, e)]
        call_ensures(M::zero, (m,), z) ==> co(z, e) == 0 as real
    &&& forall|a: M::Complex, b: M::Complex, s: M::Complex, e: int|
        #![trigger call_ensures(M::plus, (m, a, b), s), co(s, e)]
        call_ensures(M::plus, (m, a, b), s) ==> co(s, e) == co(a, e) + co(b, e)
    &&& forall|v: M::Complex, a: usize, b: usize, den: usize, inverse: bool, t: M::Complex, e: int|
        #![trigger call_ensures(M::turned, (m, v, a, b, den, inverse), t), co(t, e)]
        den > 0 && n % (den as int) == 0 && call_ensures(M::turned, (m, v, a, b, den, inverse), t)
            ==> co(t, e) == co(v, e - turn(a as int, b as int, den as int, n, inverse))
}

/// Adding up values adds up their components.
proof fn lemma_adds_up<M: SpectrumMath>(
    m: &M,
    co: spec_fn(M::Complex, int) -> real,
    n: int,
    terms: Seq<M::Complex>,
    acc: M::Complex,
    e: int,
)
    requires
        exact(m, co, n),
        crate::fft_stages::adds_up(m, terms, acc),
    ensures
        co(acc, e) == crate::sums::total(|j: int| co(terms[j], e), terms.len()),
    decreases terms.len(),
{
    if terms.len() > 0 {
        let head = terms.drop_last();
        let prev = choose|prev: M::Complex|
            crate::fft_stages::adds_up(m, head, prev) && #[trigger] call_ensures(
                M::plus,
                (m, prev, terms.last()),
                acc,
            );
        lemma_adds_up(m, co, n, head, prev, e);
        crate::sums::lemma_total_equal(
            |j: int| co(terms[j], e),
            |j: int| co(head[j], e),
            head.len(),
        );
    }
}

/// Output `k` of a butterfly: each input, turned by its share of both turns.
proof fn lemma_butterfly<M: SpectrumMath>(
    m: &M,
    co: spec_fn(M::Complex, int) -> real,
    n: int,
    ins: Seq<M::Complex>,
    outs: Seq<M::Complex>,
    p: int,
    width: int,
    inverse: bool,
    k: int,
    e: int,
)
    requires
        exact(m, co, n),
        crate::fft_stages::butterfly(m, ins, outs, p, width, inverse),
        0 < ins.len() <= usize::MAX,
        0 <= p < width <= usize::MAX,
        0 <= k < ins.len(),
        n % width == 0,
        n % (ins.len() as int) == 0,
    ensures
        co(outs[k], e) == crate::sums::total(
            |j: int|
                co(
                    ins[j],
                    e - turn(j, k, ins.len() as int, n, inverse) - turn(j, p, width, n, inverse),
                ),
            ins.len(),
        ),
{
    let r = ins.len();
    let turned = choose|turned: Seq<M::Complex>|
        {
            &&& turned.len() == ins.len()
            &&& forall|j: int|
                0 <= j < ins.len() ==> call_ensures(
                    M::turned,
                    (m, ins[j], j as usize, p as usize, width as usize, inverse),
                    #[trigger] turned[j],
                )
            &&& forall|k: int|
                0 <= k < ins.len() ==> #[trigger] crate::fft_stages::direct_point(
                    m,
                    turned,
                    k,
                    outs[k],
                    inverse,
                )
        };
    assert(crate::fft_stages::direct_point(m, turned, k, outs[k], inverse));
    let terms = choose|terms: Seq<M::Complex>|
        {
            &&& terms.len() == turned.len()
            &&& forall|j: int|
                0 <= j < turned.len() ==> call_ensures(
                    M::turned,
                    (m, turned[j], j as usize, k as usize, turned.len() as usize, inverse),
                    #[trigger] terms[j],
                )
            &&& #[trigger] crate::fft_stages::adds_up(m, terms, outs[k])
        };
    lemma_adds_up(m, co, n, terms, outs[k], e);
    let c = |j: int| co(terms[j], e);
    let d = |j: int|
        co(ins[j], e - turn(j, k, r as int, n, inverse) - turn(j, p, width, n, inverse));
    assert forall|j: int| 0 <= j < r implies #[trigger] c(j) == d(j) by {
        let e1 = e - turn(j, k, r as int, n, inverse);
        assert(call_ensures(
            M::turned,
            (m, turned[j], j as usize, k as usize, turned.len() as usize, inverse),
            terms[j],
        ));
        assert(co(terms[j], e) == co(turned[j], e1));
        assert(call_ensures(
            M::turned,
            (m, ins[j], j as usize, p as usize, width as usize, inverse),
            turned[j],
        ));
        assert(co(turned[j], e1) == co(ins[j], e1 - turn(j, p, width, n, inverse)));
    }
    crate::sums::lemma_total_equal(c, d, r);
}

/// The exponent arithmetic of one stage: with `width = l * r` dividing `n`, the
/// turns of the parts add up to that of the whole but for full turns.
proof fn lemma_exponents(i: int, j: int, k: int, p: int, l: int, r: int, n: int, inverse: bool)
    requires
        l > 0,
        r > 0,
        n > 0,
        n % (r * l) == 0,
    ensures
        n % l == 0,
        n % r == 0,
        (turn(j, k, r, n, inverse) + turn(j, p, r * l, n, inverse) + turn(i, p, l, n, inverse)
            - turn(i * r + j, k * l + p, r * l, n, inverse)) % n == 0,
{
    let w = r * l;
    assert(w > 0) by (nonlinear_arith)
        requires
            w == r * l,
            l > 0,
            r > 0,
    ;
    let u = n / w;
    vstd::arithmetic::div_mod::lemma_fundamental_div_mod(n, w);
    assert(n == (u * r) * l) by (nonlinear_arith)
        requires
            n == w * u + 0,
            w == r * l,
    ;
    crate::arith::lemma_div_mod_of(n, l, u * r, 0);
    assert(n == (u * l) * r) by (nonlinear_arith)
        requires
            n == (u * r) * l,
    ;
    crate::arith::lemma_div_mod_of(n, r, u * l, 0);
    let s = direction(inverse);
    let whole = s * ((i * r + j) * (k * l + p) * u);
    let parts = s * (j * k * (u * l)) + s * (j * p * u) + s * (i * p * (u * r));
    assert((i * r + j) * (k * l + p) == i * r * (k * l) + i * r * p + j * (k * l) + j * p)
        by (nonlinear_arith);
    let (a1, a2, a3, a4) = (i * r * (k * l), i * r * p, j * (k * l), j * p);
    assert((a1 + a2 + a3 + a4) * u == a1 * u + a2 * u + a3 * u + a4 * u) by (nonlinear_arith);
    assert(a1 * u == (i * k) * ((u * r) * l)) by (nonlinear_arith)
        requires
            a1 == i * r * (k * l),
    ;
    assert(a2 * u == i * p * (u * r)) by (nonlinear_arith)
        requires
            a2 == i * r * p,
    ;
    assert(a3 * u == j * k * (u * l)) by (nonlinear_arith)
        requires
            a3 == j * (k * l),
    ;
    let (b1, b2, b3, b4) = (a1 * u, a2 * u, a3 * u, a4 * u);
    assert(s * (b1 + b2 + b3 + b4) == s * b1 + s * b2 + s * b3 + s * b4) by (nonlinear_arith);
    assert(parts - whole == -(s * b1));
    assert(-(s * ((i * k) * n)) == n * (-(s * (i * k)))) by (nonlinear_arith);
    assert(parts - whole == (-(s * (i * k))) * n) by (nonlinear_arith)
        requires
            parts - whole == n * (-(s * (i * k))),
    ;
    vstd::arithmetic::div_mod::lemma_mod_multiples_basic(-(s * (i * k)), n);
}

/// After the stages of `f`, every block of `product(f)` elements holds the
/// transform of the block it started as, read in digit-reversed order.
proof fn lemma_stages<M: SpectrumMath>(
    m: &M,
    co: spec_fn(M::Complex, int) -> real,
    n: int,
    first: Seq<M::Complex>,
    f: Seq<usize>,
    inverse: bool,
    out: Seq<M::Complex>,
    g: int,
    q: int,
    e: int,
)
    requires
        exact(m, co, n),
        crate::fft_plan::all_positive(f),
        crate::fft_plan::product(f) <= usize::MAX,
        crate::fft_stages::stages(m, first, f, inverse, out),
        n % (crate::fft_plan::product(f) as int) == 0,
        0 <= g < first.len() as int / crate::fft_plan::product(f) as int,
        0 <= q < crate::fft_plan::product(f),
    ensures
        out.len() == first.len(),
        co(out[g * crate::fft_plan::product(f) + q], e) == crate::sums::total(
            |i: int|
                co(
                    first[g * crate::fft_plan::product(f) + crate::fft_plan::digit_reverse(
                        i as nat,
                        f,
                    )],
                    e - turn(i, q, crate::fft_plan::product(f) as int, n, inverse),
                ),
            crate::fft_plan::product(f),
        ),
    decreases f.len(),
{
    let width = crate::fft_plan::product(f);
    let goal = |i: int|
        co(
            first[g * width + crate::fft_plan::digit_reverse(i as nat, f)],
            e - turn(i, q, width as int, n, inverse),
        );
    if f.len() == 0 {
        assert(width == 1);
        assert(turn(0, q, 1, n, inverse) == 0) by {
            assert(0 * q * (n / 1) == 0) by (nonlinear_arith);
            assert(direction(inverse) * 0 == 0);
        }
        assert(crate::sums::total(goal, 0) == 0 as real);
        assert(crate::sums::total(goal, 1) == goal(0));
        assert(g * width == g) by (nonlinear_arith)
            requires
                width == 1,
        ;
    } else {
        crate::fft_plan::lemma_tail_positive(f);
        let rest = f.drop_first();
        let r = f[0] as nat;
        let l = crate::fft_plan::product(rest);
        assert(width == r * l);
        assert(r * l == l * r) by (nonlinear_arith);
        assert(l <= width && r <= width) by (nonlinear_arith)
            requires
                width == r * l,
                r >= 1,
                l >= 1,
        ;
        let mid = choose|mid: Seq<M::Complex>|
            {
                &&& crate::fft_stages::stages(m, first, rest, inverse, mid)
                &&& #[trigger] crate::fft_stages::stage(
                    m,
                    mid,
                    out,
                    l as int,
                    f[0] as int,
                    inverse,
                )
            };
        let (k, p) = (q / (l as int), q % (l as int));
        vstd::arithmetic::div_mod::lemma_fundamental_div_mod(q, l as int);
        assert(l * k == k * l) by (nonlinear_arith);
        crate::arith::lemma_quotient_bound(q, r as int, l as int);
        lemma_exponents(0, 0, k, p, l as int, r as int, n, inverse);
        let len = first.len() as int;
        let at = g * (l * r) + p;
        assert forall|j: int| 0 <= j < r implies (#[trigger] (g * r + j)) * l + p == at + j * l
            && 0 <= g * r + j < len / (l as int) by {
            assert((g * r + j) * l == g * (l * r) + j * l) by (nonlinear_arith);
            crate::fft_stages::lemma_position_bound(len, g, j, l - 1, l as int, r as int);
            assert(g * (l * r) + (l - 1) + j * l == (g * r + j) * l + (l - 1));
            lemma_block_of(len, g * r + j, l as int);
            assert(0 <= g * r) by (nonlinear_arith)
                requires
                    0 <= g,
                    0 < r,
            ;
        }
        // The inner sums, one per run of the block.
        let inner = |i: int, j: int|
            co(
                first[(g * r + j) * l + crate::fft_plan::digit_reverse(i as nat, rest)],
                e - turn(j, k, r as int, n, inverse) - turn(j, p, (r * l) as int, n, inverse)
                    - turn(i, p, l as int, n, inverse),
            );
        assert forall|j: int| 0 <= j < r implies mid.len() == first.len() && co(
            #[trigger] mid[at + j * l],
            e - turn(j, k, r as int, n, inverse) - turn(j, p, (r * l) as int, n, inverse),
        ) == crate::sums::total(|i: int| inner(i, j), l) by {
            let e1 = e - turn(j, k, r as int, n, inverse) - turn(
                j,
                p,
                (r * l) as int,
                n,
                inverse,
            );
            assert((g * r + j) * l + p == at + j * l);
            lemma_stages(m, co, n, first, rest, inverse, mid, g * r + j, p, e1);
            crate::sums::lemma_total_equal(
                |i: int|
                    co(
                        first[(g * r + j) * l + crate::fft_plan::digit_reverse(i as nat, rest)],
                        e1 - turn(i, p, l as int, n, inverse),
                    ),
                |i: int| inner(i, j),
                l,
            );
        }
        assert(mid.len() == first.len()) by {
            assert(0 < r);
            let w = mid[at + 0 * l];
        }
        assert(crate::fft_stages::cell_done(m, mid, out, l as int, r as int, g, p, inverse));
        let ins = crate::fft_stages::column(mid, at, l as int, r as int);
        let outs = crate::fft_stages::column(out, at, l as int, r as int);
        lemma_butterfly(m, co, n, ins, outs, p, (l * r) as int, inverse, k, e);
        assert(outs[k] == out[g * width + q]);
        crate::sums::lemma_total_equal(
            |j: int|
                co(
                    ins[j],
                    e - turn(j, k, ins.len() as int, n, inverse) - turn(
                        j,
                        p,
                        (l * r) as int,
                        n,
                        inverse,
                    ),
                ),
            |j: int| crate::sums::total(|i: int| inner(i, j), l),
            r,
        );
        crate::sums::lemma_total_swap(inner, l, r);
        // The same terms in the order of the whole block.
        crate::sums::lemma_total_blocks(goal, l, r);
        let by_goal = |i: int| crate::sums::total(|j: int| goal(i * r + j), r);
        let by_inner = |i: int| crate::sums::total(|j: int| inner(i, j), r);
        assert forall|i: int| 0 <= i < l implies #[trigger] by_goal(i) == by_inner(i) by {
            assert forall|j: int| 0 <= j < r implies goal(i * r + j) == #[trigger] inner(i, j) by {
                crate::arith::lemma_div_mod_of(i * r + j, r as int, i, j);
                assert(0 <= i * r) by (nonlinear_arith)
                    requires
                        0 <= i,
                ;
                assert((g * r + j) * l == g * (r * l) + j * l) by (nonlinear_arith);
                lemma_exponents(i, j, k, p, l as int, r as int, n, inverse);
            }
            crate::sums::lemma_total_equal(|j: int| goal(i * r + j), |j: int| inner(i, j), r);
        }
        crate::sums::lemma_total_equal(by_goal, by_inner, l);
    }
}

/// A block whose last element lies inside the data is one of the whole blocks.
proof fn lemma_block_of(len: int, g: int, l: int)
    requires
        l > 0,
        0 <= g,
        g * l + (l - 1) < len,
    ensures
        g < len / l,
{
    vstd::arithmetic::div_mod::lemma_fundamental_div_mod(len, l);
    let q = len / l;
    assert(g < q) by (nonlinear_arith)
        requires
            g * l + (l - 1) < len,
            len == l * q + len % l,
            0 <= len % l < l,
            l > 0,
    ;
}

/// In exact arithmetic the FFT is the discrete Fourier transform: output `k` is
/// the sum of every input `i`, turned by `i * k` steps of a full turn over the
/// length.
pub proof fn law_fft_is_the_dft<M: SpectrumMath>(
    m: &M,
    co: spec_fn(M::Complex, int) -> real,
    n: int,
    x: Seq<M::Complex>,
    f: Seq<usize>,
    inverse: bool,
    out: Seq<M::Complex>,
    k: int,
    e: int,
)
    requires
        exact(m, co, n),
        crate::fft_plan::all_positive(f),
        x.len() == crate::fft_plan::product(f),
        x.len() <= usize::MAX,
        n % (x.len() as int) == 0,
        crate::fft_stages::transforms(m, x, f, inverse, out),
        0 <= k < x.len(),
    ensures
        out.len() == x.len(),
        co(out[k], e) == crate::sums::total(
            |i: int| co(x[i], e - turn(i, k, x.len() as int, n, inverse)),
            x.len(),
        ),
{
    let first = choose|first: Seq<M::Complex>|
        crate::fft_stages::digit_reversed(x, f, first) && #[trigger] crate::fft_stages::stages(
            m,
            first,
            f,
            inverse,
            out,
        );
    let len = x.len() as int;
    crate::arith::lemma_div_mod_of(len, len, 1, 0);
    lemma_stages(m, co, n, first, f, inverse, out, 0, k, e);
    crate::sums::lemma_total_equal(
        |i: int|
            co(
                first[0int * crate::fft_plan::product(f) + crate::fft_plan::digit_reverse(i as nat, f)],
                e - turn(i, k, len, n, inverse),
            ),
        |i: int| co(x[i], e - turn(i, k, len, n, inverse)),
        x.len(),
    );
}

/// Going `count` times around in steps of anything but whole turns cancels out.
pub open spec fn cycles_vanish<V>(co: spec_fn(V, int) -> real, n: int, count: nat) -> bool {
    forall|v: V, e: int, d: int|
        d % (count as int) != 0 ==> #[trigger] cycle(co, n, count, v, e, d) == 0 as real
}

/// The component along `w^e` of the sum of `v` turned by 0, `d`, `2 * d`, and so on.
pub open spec fn cycle<V>(
    co: spec_fn(V, int) -> real,
    n: int,
    count: nat,
    v: V,
    e: int,
    d: int,
) -> real {
    crate::sums::total(|k: int| co(v, e + turn(d, k, count as int, n, false)), count)
}

/// In exact arithmetic the inverse FFT undoes the forward one up to the length:
/// every element comes back multiplied by it.
pub proof fn law_inverse_undoes_forward<M: SpectrumMath>(
    m: &M,
    co: spec_fn(M::Complex, int) -> real,
    n: int,
    x: Seq<M::Complex>,
    f: Seq<usize>,
    spectrum: Seq<M::Complex>,
    back: Seq<M::Complex>,
    i: int,
    e: int,
)
    requires
        exact(m, co, n),
        cycles_vanish(co, n, x.len()),
        crate::fft_plan::all_positive(f),
        x.len() == crate::fft_plan::product(f),
        x.len() <= usize::MAX,
        n % (x.len() as int) == 0,
        crate::fft_stages::transforms(m, x, f, false, spectrum),
        crate::fft_stages::transforms(m, spectrum, f, true, back),
        0 <= i < x.len(),
    ensures
        back.len() == x.len(),
        co(back[i], e) == x.len() as real * co(x[i], e),
{
    law_fft_is_the_dft(m, co, n, x, f, false, spectrum, i, e);
    lemma_inverse_of_same(m, co, n, x, f, spectrum, spectrum, back, i, e);
}

/// The inverse FFT of values with the components of a forward FFT's result has
/// those of its input, multiplied by the length.
pub proof fn lemma_inverse_of_same<M: SpectrumMath>(
    m: &M,
    co: spec_fn(M::Complex, int) -> real,
    n: int,
    x: Seq<M::Complex>,
    f: Seq<usize>,
    spectrum: Seq<M::Complex>,
    rebuilt: Seq<M::Complex>,
    back: Seq<M::Complex>,
    i: int,
    e: int,
)
    requires
        exact(m, co, n),
        cycles_vanish(co, n, x.len()),
        crate::fft_plan::all_positive(f),
        x.len() == crate::fft_plan::product(f),
        x.len() <= usize::MAX,
        n % (x.len() as int) == 0,
        crate::fft_stages::transforms(m, x, f, false, spectrum),
        rebuilt.len() == x.len(),
        forall|k: int, d: int|
            0 <= k < x.len() ==> co(#[trigger] rebuilt[k], d) == #[trigger] co(spectrum[k], d),
        crate::fft_stages::transforms(m, rebuilt, f, true, back),
        0 <= i < x.len(),
    ensures
        back.len() == x.len(),
        co(back[i], e) == x.len() as real * co(x[i], e),
{
    let len = x.len();
    let li = len as int;
    law_fft_is_the_dft(m, co, n, rebuilt, f, true, back, i, e);
    let both = |k: int, j: int|
        co(x[j], e - turn(k, i, li, n, true) - turn(j, k, li, n, false));
    let outer = |k: int| co(rebuilt[k], e - turn(k, i, li, n, true));
    let by_k = |k: int| crate::sums::total(|j: int| both(k, j), len);
    assert forall|k: int| 0 <= k < len implies #[trigger] outer(k) == by_k(k) by {
        let e1 = e - turn(k, i, li, n, true);
        law_fft_is_the_dft(m, co, n, x, f, false, spectrum, k, e1);
        assert(co(rebuilt[k], e1) == co(spectrum[k], e1));
        crate::sums::lemma_total_equal(
            |j: int| co(x[j], e1 - turn(j, k, li, n, false)),
            |j: int| both(k, j),
            len,
        );
    }
    crate::sums::lemma_total_equal(outer, by_k, len);
    crate::sums::lemma_total_equal(
        outer,
        |k: int| co(rebuilt[k], e - turn(k, i, rebuilt.len() as int, n, true)),
        len,
    );
    crate::sums::lemma_total_swap(both, len, len);
    let by_j = |j: int| crate::sums::total(|k: int| both(k, j), len);
    assert forall|j: int| 0 <= j < len implies #[trigger] by_j(j) == cycle(
        co,
        n,
        len,
        x[j],
        e,
        i - j,
    ) by {
        assert forall|k: int| 0 <= k < len implies #[trigger] both(k, j) == co(
            x[j],
            e + turn(i - j, k, li, n, false),
        ) by {
            let u = n / li;
            assert((i - j) * k * u == k * i * u - j * k * u) by (nonlinear_arith);
        }
        crate::sums::lemma_total_equal(
            |k: int| both(k, j),
            |k: int| co(x[j], e + turn(i - j, k, li, n, false)),
            len,
        );
    }
    assert forall|j: int| 0 <= j < len && j != i implies #[trigger] by_j(j) == 0 as real by {
        lemma_not_a_multiple(i - j, li);
        assert(cycle(co, n, len, x[j], e, i - j) == 0 as real);
    }
    crate::sums::lemma_total_single(by_j, len, i);
    let same = |k: int| co(x[i], e + turn(0, k, li, n, false));
    assert forall|k: int| 0 <= k < len implies #[trigger] same(k) == co(x[i], e) by {
        assert(0 * k * (n / li) == 0) by (nonlinear_arith);
    }
    crate::sums::lemma_total_constant(same, len, co(x[i], e));
    assert(by_j(i) == cycle(co, n, len, x[i], e, 0));
}

/// A number strictly between `-len` and `len` is no multiple of `len`, except 0.
proof fn lemma_not_a_multiple(d: int, len: int)
    requires
        -len < d < len,
        d != 0,
    ensures
        d % len != 0,
{
    if d > 0 {
        crate::arith::lemma_div_mod_of(d, len, 0, d);
    } else {
        crate::arith::lemma_div_mod_of(d, len, -1, d + len);
    }
}

} // verus!
