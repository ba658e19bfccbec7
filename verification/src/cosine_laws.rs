//! The cosine basis is orthonormal, from the properties of the cosine alone:
//! `c(e)` is the cosine of `e` steps, `4 * n` to a full turn.
use crate::dct_math::PlaneMath;
use vstd::prelude::*;

verus! {

/// `c` has the properties of the cosine that count here.
pub open spec fn is_cosine(c: spec_fn(int) -> real, n: int) -> bool {
    &&& n > 0
    &&& c(0) == 1 as real
    &&& forall|a: int, b: int|
        #![trigger c(a), c(b)]
        (a - b) % (4 * n) == 0 ==> c(a) == c(b)
    &&& forall|a: int, b: int| #![trigger c(a), c(b)] a == -b ==> c(a) == c(b)
    &&& forall|a: int, b: int|
        #![trigger product_to_sum(c, a, b)]
        product_to_sum(c, a, b)
    &&& forall|e: int, d: int| d % (4 * n) != 0 ==> #[trigger] around(c, n, e, d) == 0 as real
}

/// Twice the product of two cosines is the cosine of the sum plus that of the
/// difference.
pub open spec fn product_to_sum(c: spec_fn(int) -> real, a: int, b: int) -> bool {
    2 as real * (c(a) * c(b)) == c(a + b) + c(a - b)
}

/// The cosines at `e`, `e + d`, `e + 2 * d` and so on, once around.
pub open spec fn around(c: spec_fn(int) -> real, n: int, e: int, d: int) -> real {
    crate::sums::total(|k: int| c(e + d * k), (4 * n) as nat)
}

/// Half a turn negates.
proof fn lemma_half_turn(c: spec_fn(int) -> real, n: int, e: int)
    requires
        is_cosine(c, n),
    ensures
        c(e + 2 * n) == -c(e),
{
    let d = 2 * n;
    crate::arith::lemma_div_mod_of(d, 4 * n, 0, d);
    assert(around(c, n, e, d) == 0 as real);
    let steps = |k: int| c(e + d * k);
    let half = (2 * n) as nat;
    crate::sums::lemma_total_blocks(steps, half, 2);
    assert(half * 2 == (4 * n) as nat);
    let value = c(e) + c(e + 2 * n);
    let pair = |i: int| crate::sums::total(|j: int| steps(i * 2 + j), 2);
    assert forall|i: int| 0 <= i < half implies #[trigger] pair(i) == value by {
        let t = |j: int| steps(i * 2 + j);
        assert(crate::sums::total(t, 0) == 0 as real);
        assert(crate::sums::total(t, 1) == t(0));
        assert(crate::sums::total(t, 2) == t(0) + t(1));
        assert(d * (i * 2) == i * (4 * n)) by (nonlinear_arith)
            requires
                d == 2 * n,
        ;
        assert(d * (i * 2 + 1) == i * (4 * n) + 2 * n) by (nonlinear_arith)
            requires
                d == 2 * n,
        ;
        vstd::arithmetic::div_mod::lemma_mod_multiples_basic(i, 4 * n);
        assert((e + d * (i * 2)) - e == i * (4 * n));
        assert((e + d * (i * 2 + 1)) - (e + 2 * n) == i * (4 * n));
        assert(c(e + d * (i * 2)) == c(e));
        assert(c(e + d * (i * 2 + 1)) == c(e + 2 * n));
    }
    crate::sums::lemma_total_constant(pair, half, value);
    assert(value == 0 as real) by (nonlinear_arith)
        requires
            half as real * value == 0 as real,
            half as real > 0 as real,
    ;
}

/// Twice around half as far: `2 * n` steps of an even width vanish too.
proof fn lemma_half_around(c: spec_fn(int) -> real, n: int, e: int, d: int)
    requires
        is_cosine(c, n),
        d % (2 * n) != 0,
    ensures
        crate::sums::total(|k: int| c(e + 2 * d * k), (2 * n) as nat) == 0 as real,
{
    let half = (2 * n) as nat;
    let steps = |k: int| c(e + 2 * d * k);
    // `2 * d` is no multiple of a full turn.
    if (2 * d) % (4 * n) == 0 {
        vstd::arithmetic::div_mod::lemma_fundamental_div_mod(2 * d, 4 * n);
        let q = (2 * d) / (4 * n);
        assert(d == q * (2 * n)) by (nonlinear_arith)
            requires
                2 * d == 4 * n * q,
        ;
        vstd::arithmetic::div_mod::lemma_mod_multiples_basic(q, 2 * n);
    }
    assert(around(c, n, e, 2 * d) == 0 as real);
    crate::sums::lemma_total_split(steps, half, half);
    assert(half + half == (4 * n) as nat);
    let second = |k: int| steps(half + k);
    assert forall|k: int| 0 <= k < half implies #[trigger] second(k) == steps(k) by {
        assert(2 * d * (half + k) == 2 * d * k + d * (4 * n)) by (nonlinear_arith)
            requires
                half == 2 * n,
        ;
        vstd::arithmetic::div_mod::lemma_mod_multiples_basic(d, 4 * n);
        assert((e + 2 * d * (half + k)) - (e + 2 * d * k) == d * (4 * n));
    }
    crate::sums::lemma_total_equal(second, steps, half);
}

/// The sum of the cosines of the odd multiples of `d`.
pub open spec fn odd_multiples(c: spec_fn(int) -> real, n: int, d: int) -> real {
    crate::sums::total(|i: int| c((2 * i + 1) * d), n as nat)
}

/// It vanishes unless `d` is a multiple of half a turn.
proof fn lemma_odd_multiples(c: spec_fn(int) -> real, n: int, d: int)
    requires
        is_cosine(c, n),
    ensures
        d % (2 * n) != 0 ==> odd_multiples(c, n, d) == 0 as real,
        d == 0 ==> odd_multiples(c, n, d) == n as real,
{
    let nn = n as nat;
    let term = |i: int| c((2 * i + 1) * d);
    if d == 0 {
        assert forall|i: int| 0 <= i < nn implies #[trigger] term(i) == 1 as real by {
            assert((2 * i + 1) * d == 0) by (nonlinear_arith)
                requires
                    d == 0,
            ;
        }
        crate::sums::lemma_total_constant(term, nn, 1 as real);
        assert(nn as real * (1 as real) == n as real);
    } else if d % (2 * n) != 0 {
        lemma_half_around(c, n, d, d);
        let steps = |k: int| c(d + 2 * d * k);
        let double = (2 * n) as nat;
        assert forall|i: int| #[trigger] steps(i) == term(i) by {
            assert((2 * i + 1) * d == d + 2 * d * i) by (nonlinear_arith);
        }
        crate::sums::lemma_total_equal(steps, term, double);
        crate::sums::lemma_total_split(term, nn, nn);
        assert(nn + nn == double);
        // The second half mirrors the first.
        let second = |i: int| term(nn + i);
        let mirrored = |i: int| term(nn - 1 - i);
        assert forall|i: int| 0 <= i < nn implies #[trigger] second(i) == mirrored(i) by {
            let (a, b) = ((2 * (nn + i) + 1) * d, (2 * (nn - 1 - i) + 1) * d);
            assert(a - (-b) == d * (4 * n)) by (nonlinear_arith)
                requires
                    a == (2 * (nn + i) + 1) * d,
                    b == (2 * (nn - 1 - i) + 1) * d,
                    nn == n,
            ;
            vstd::arithmetic::div_mod::lemma_mod_multiples_basic(d, 4 * n);
            assert(c(a) == c(-b));
            assert(c(-b) == c(b));
        }
        crate::sums::lemma_total_equal(second, mirrored, nn);
        crate::sums::lemma_total_reverse(term, nn);
    }
}

/// The sum of the cosines of the multiples of `2 * p`, the zeroth left out.
pub open spec fn even_multiples(c: spec_fn(int) -> real, n: int, p: int) -> real {
    crate::sums::total(|k: int| c(2 * p * (k + 1)), (n - 1) as nat)
}

/// It is `n - 1` for `p = 0`; otherwise it makes up half of a vanishing sum.
proof fn lemma_even_multiples(c: spec_fn(int) -> real, n: int, p: int)
    requires
        is_cosine(c, n),
    ensures
        p == 0 ==> even_multiples(c, n, p) == (n - 1) as real,
        p % (2 * n) != 0 ==> 2 as real * even_multiples(c, n, p) == -(1 as real + c(2 * p * n)),
{
    let less = (n - 1) as nat;
    let term = |k: int| c(2 * p * (k + 1));
    if p == 0 {
        assert forall|k: int| 0 <= k < less implies #[trigger] term(k) == 1 as real by {
            assert(2 * p * (k + 1) == 0) by (nonlinear_arith)
                requires
                    p == 0,
            ;
        }
        crate::sums::lemma_total_constant(term, less, 1 as real);
        assert(less as real * (1 as real) == (n - 1) as real);
        crate::arith::lemma_div_mod_of(0, 2 * n, 0, 0);
    } else if p % (2 * n) != 0 {
        lemma_half_around(c, n, 0, p);
        let double = (2 * n) as nat;
        let steps = |k: int| c(0 + 2 * p * k);
        // Step 0, the steps before half way, half way, and the steps after it.
        crate::sums::lemma_total_split(steps, 1, (2 * n - 1) as nat);
        assert(crate::sums::total(steps, 0) == 0 as real);
        assert(crate::sums::total(steps, 1) == steps(0));
        assert(2 * p * 0 == 0) by (nonlinear_arith);
        let tail = |k: int| steps(1 + k);
        crate::sums::lemma_total_split(tail, less, n as nat);
        assert(less + n as nat == (2 * n - 1) as nat);
        crate::sums::lemma_total_equal(tail, term, less);
        let rest = |k: int| tail(less + k);
        crate::sums::lemma_total_split(rest, 1, less);
        assert(crate::sums::total(rest, 0) == 0 as real);
        assert(crate::sums::total(rest, 1) == rest(0));
        assert(rest(0) == c(2 * p * n));
        let after = |k: int| rest(1 + k);
        let mirrored = |k: int| term(less - 1 - k);
        assert forall|k: int| 0 <= k < less implies #[trigger] after(k) == mirrored(k) by {
            let (a, b) = (2 * p * (1 + (less + (1 + k))), 2 * p * ((less - 1 - k) + 1));
            assert(a - (-b) == p * (4 * n)) by (nonlinear_arith)
                requires
                    a == 2 * p * (1 + (less + (1 + k))),
                    b == 2 * p * ((less - 1 - k) + 1),
                    less == n - 1,
            ;
            vstd::arithmetic::div_mod::lemma_mod_multiples_basic(p, 4 * n);
            assert(c(a) == c(-b));
            assert(c(-b) == c(b));
            assert(after(k) == c(0 + a));
        }
        crate::sums::lemma_total_equal(after, mirrored, less);
        crate::sums::lemma_total_reverse(term, less);
    }
}

/// The cosine of a multiple of half a turn is 1 or -1, by its parity.
proof fn lemma_parity(c: spec_fn(int) -> real, n: int, p: int)
    requires
        is_cosine(c, n),
    ensures
        c(2 * p * n) == (if p % 2 == 0 {
            1 as real
        } else {
            -(1 as real)
        }),
{
    let h = p / 2;
    if p % 2 == 0 {
        assert(2 * p * n == h * (4 * n)) by (nonlinear_arith)
            requires
                p == 2 * h,
        ;
        vstd::arithmetic::div_mod::lemma_mod_multiples_basic(h, 4 * n);
        assert(c(2 * p * n) == c(0));
    } else {
        assert(2 * p * n == h * (4 * n) + 2 * n) by (nonlinear_arith)
            requires
                p == 2 * h + 1,
        ;
        vstd::arithmetic::div_mod::lemma_mod_multiples_basic(h, 4 * n);
        assert((2 * p * n) - (2 * n) == h * (4 * n));
        lemma_half_turn(c, n, 0);
        assert(c(2 * p * n) == c(2 * n));
    }
}

/// The scale of basis function `k`.
pub open spec fn scale(flat: real, wave: real, k: int) -> real {
    if k == 0 {
        flat
    } else {
        wave
    }
}

/// `b` is the orthonormal cosine basis of length `n`: function `k` at position
/// `i` is the cosine of `pi * (2 * i + 1) * k / (2 * n)`, scaled by the square
/// root of `1 / n` for `k = 0` and of `2 / n` otherwise.
pub open spec fn is_cosine_basis<S>(
    val: spec_fn(S) -> real,
    c: spec_fn(int) -> real,
    flat: real,
    wave: real,
    b: Seq<S>,
    n: nat,
) -> bool {
    &&& is_cosine(c, n as int)
    &&& flat * flat * n as real == 1 as real
    &&& wave * wave * n as real == 2 as real
    &&& forall|k: int, i: int|
        0 <= k < n && 0 <= i < n ==> #[trigger] crate::plane_laws::entry(val, b, n as int, k, i)
            == scale(flat, wave, k) * c((2 * i + 1) * k)
}

/// The product of basis functions `k` and `j`.
pub open spec fn row_product<S>(
    val: spec_fn(S) -> real,
    b: Seq<S>,
    n: nat,
    k: int,
    j: int,
) -> real {
    crate::sums::total(
        |i: int|
            crate::plane_laws::entry(val, b, n as int, k, i) * crate::plane_laws::entry(
                val,
                b,
                n as int,
                j,
                i,
            ),
        n,
    )
}

/// The basis functions are of length 1 and at right angles.
pub proof fn law_basis_rows_are_orthonormal<S>(
    val: spec_fn(S) -> real,
    c: spec_fn(int) -> real,
    flat: real,
    wave: real,
    b: Seq<S>,
    n: nat,
    k: int,
    j: int,
)
    requires
        is_cosine_basis(val, c, flat, wave, b, n),
        0 <= k < n,
        0 <= j < n,
    ensures
        row_product(val, b, n, k, j) == (if k == j {
            1 as real
        } else {
            0 as real
        }),
{
    let ni = n as int;
    let (sk, sj) = (scale(flat, wave, k), scale(flat, wave, j));
    let by = sk * sj;
    let plus = |i: int| c((2 * i + 1) * (k + j));
    let minus = |i: int| c((2 * i + 1) * (k - j));
    let both = |i: int| plus(i) + minus(i);
    crate::sums::lemma_total_plus(plus, minus, n);
    let products = |i: int|
        crate::plane_laws::entry(val, b, ni, k, i) * crate::plane_laws::entry(val, b, ni, j, i);
    let doubled = |i: int| products(i) * (2 as real);
    crate::sums::lemma_total_scale(products, n, 2 as real);
    crate::sums::lemma_total_scale(both, n, by);
    let scaled = |i: int| both(i) * by;
    assert forall|i: int| 0 <= i < n implies #[trigger] doubled(i) == scaled(i) by {
        let (x, y) = ((2 * i + 1) * k, (2 * i + 1) * j);
        assert(product_to_sum(c, x, y));
        assert(x + y == (2 * i + 1) * (k + j)) by (nonlinear_arith)
            requires
                x == (2 * i + 1) * k,
                y == (2 * i + 1) * j,
        ;
        assert(x - y == (2 * i + 1) * (k - j)) by (nonlinear_arith)
            requires
                x == (2 * i + 1) * k,
                y == (2 * i + 1) * j,
        ;
        let (cx, cy, s) = (c(x), c(y), both(i));
        assert((sk * cx) * (sj * cy) * (2 as real) == s * by) by (nonlinear_arith)
            requires
                2 as real * (cx * cy) == s,
                by == sk * sj,
        ;
        assert(crate::plane_laws::entry(val, b, ni, k, i) == sk * cx);
        assert(crate::plane_laws::entry(val, b, ni, j, i) == sj * cy);
    }
    crate::sums::lemma_total_equal(doubled, scaled, n);
    lemma_odd_multiples(c, ni, k + j);
    lemma_odd_multiples(c, ni, k - j);
    let (p, m) = (odd_multiples(c, ni, k + j), odd_multiples(c, ni, k - j));
    if k + j != 0 {
        crate::arith::lemma_div_mod_of(k + j, 2 * ni, 0, k + j);
    }
    if k > j {
        crate::arith::lemma_div_mod_of(k - j, 2 * ni, 0, k - j);
    } else if k < j {
        crate::arith::lemma_div_mod_of(k - j, 2 * ni, -1, k - j + 2 * ni);
    }
    let r = row_product(val, b, n, k, j);
    let nr = n as real;
    assert(r * (2 as real) == (p + m) * by);
    if k != j {
        assert((0 as real) * by == 0 as real) by (nonlinear_arith);
    } else if k == 0 {
        assert(r == 1 as real) by (nonlinear_arith)
            requires
                r * (2 as real) == (nr + nr) * by,
                by == flat * flat,
                flat * flat * nr == 1 as real,
        ;
    } else {
        assert(r == 1 as real) by (nonlinear_arith)
            requires
                r * (2 as real) == (0 as real + nr) * by,
                by == wave * wave,
                wave * wave * nr == 2 as real,
        ;
    }
}

/// The columns of the basis are orthonormal too, and its first function is
/// flat: the inverse transform undoes the forward one, and the first coefficient
/// is the average.
pub proof fn law_basis_columns_are_orthonormal<S>(
    val: spec_fn(S) -> real,
    c: spec_fn(int) -> real,
    flat: real,
    wave: real,
    b: Seq<S>,
    n: nat,
)
    requires
        is_cosine_basis(val, c, flat, wave, b, n),
        b.len() == n * n,
    ensures
        crate::plane_laws::orthonormal(val, b, n),
        crate::plane_laws::first_is_flat(val, b, n),
{
    let ni = n as int;
    assert forall|i: int, j: int|
        0 <= i < n && 0 <= j < n implies #[trigger] crate::plane_laws::column_product(
        val,
        b,
        n,
        i,
        j,
    ) == (if i == j {
        1 as real
    } else {
        0 as real
    }) by {
        lemma_column_product(val, c, flat, wave, b, n, i, j);
    }
    assert forall|i: int| 0 <= i < n implies #[trigger] crate::plane_laws::entry(val, b, ni, 0, i)
        == val(b[0]) by {
        assert((2 * i + 1) * 0 == 0) by (nonlinear_arith);
        assert(crate::plane_laws::entry(val, b, ni, 0, 0) == val(b[0])) by {
            assert(0 * ni + 0 == 0);
        }
        assert((2 * 0 + 1) * 0 == 0);
        assert(flat * (1 as real) == flat);
    }
    assert(crate::plane_laws::entry(val, b, ni, 0, 0) == val(b[0])) by {
        assert(0 * ni + 0 == 0);
    }
    assert(flat * (1 as real) == flat);
}

/// Columns `i` and `j`.
proof fn lemma_column_product<S>(
    val: spec_fn(S) -> real,
    c: spec_fn(int) -> real,
    flat: real,
    wave: real,
    b: Seq<S>,
    n: nat,
    i: int,
    j: int,
)
    requires
        is_cosine_basis(val, c, flat, wave, b, n),
        0 <= i < n,
        0 <= j < n,
    ensures
        crate::plane_laws::column_product(val, b, n, i, j) == (if i == j {
            1 as real
        } else {
            0 as real
        }),
{
    let ni = n as int;
    let less = (n - 1) as nat;
    let (p, q) = (i + j + 1, i - j);
    let products = |k: int|
        crate::plane_laws::entry(val, b, ni, k, i) * crate::plane_laws::entry(val, b, ni, k, j);
    crate::sums::lemma_total_split(products, 1, less);
    assert(crate::sums::total(products, 0) == 0 as real);
    assert(crate::sums::total(products, 1) == products(0));
    assert((2 * i + 1) * 0 == 0 && (2 * j + 1) * 0 == 0) by (nonlinear_arith);
    assert(products(0) == flat * flat) by {
        assert(flat * (1 as real) == flat);
    }
    let rest = |k: int| products(1 + k);
    let by = wave * wave;
    let plus = |k: int| c(2 * p * (k + 1));
    let minus = |k: int| c(2 * q * (k + 1));
    let both = |k: int| plus(k) + minus(k);
    crate::sums::lemma_total_plus(plus, minus, less);
    crate::sums::lemma_total_scale(rest, less, 2 as real);
    crate::sums::lemma_total_scale(both, less, by);
    let doubled = |k: int| rest(k) * (2 as real);
    let scaled = |k: int| both(k) * by;
    assert forall|k: int| 0 <= k < less implies #[trigger] doubled(k) == scaled(k) by {
        let (x, y) = ((2 * i + 1) * (1 + k), (2 * j + 1) * (1 + k));
        assert(product_to_sum(c, x, y));
        assert(x + y == 2 * p * (k + 1)) by (nonlinear_arith)
            requires
                x == (2 * i + 1) * (1 + k),
                y == (2 * j + 1) * (1 + k),
                p == i + j + 1,
        ;
        assert(x - y == 2 * q * (k + 1)) by (nonlinear_arith)
            requires
                x == (2 * i + 1) * (1 + k),
                y == (2 * j + 1) * (1 + k),
                q == i - j,
        ;
        let (cx, cy, s) = (c(x), c(y), both(k));
        assert((wave * cx) * (wave * cy) * (2 as real) == s * by) by (nonlinear_arith)
            requires
                2 as real * (cx * cy) == s,
                by == wave * wave,
        ;
        assert(crate::plane_laws::entry(val, b, ni, 1 + k, i) == wave * cx);
        assert(crate::plane_laws::entry(val, b, ni, 1 + k, j) == wave * cy);
    }
    crate::sums::lemma_total_equal(doubled, scaled, less);
    lemma_even_multiples(c, ni, p);
    lemma_even_multiples(c, ni, q);
    lemma_parity(c, ni, p);
    lemma_parity(c, ni, q);
    crate::arith::lemma_div_mod_of(p, 2 * ni, 0, p);
    if q > 0 {
        crate::arith::lemma_div_mod_of(q, 2 * ni, 0, q);
    } else if q < 0 {
        crate::arith::lemma_div_mod_of(q, 2 * ni, -1, q + 2 * ni);
    }
    let (u, v) = (even_multiples(c, ni, p), even_multiples(c, ni, q));
    let r = crate::plane_laws::column_product(val, b, n, i, j);
    let t = crate::sums::total(rest, less);
    let nr = n as real;
    assert(r == flat * flat + t);
    assert(t * (2 as real) == (u + v) * by);
    assert((n - 1) as real == nr - 1 as real);
    if i == j {
        assert(u == 0 as real);
        assert(r == 1 as real) by (nonlinear_arith)
            requires
                r == flat * flat + t,
                t * (2 as real) == (0 as real + (nr - 1 as real)) * by,
                by == wave * wave,
                flat * flat * nr == 1 as real,
                wave * wave * nr == 2 as real,
        ;
    } else {
        assert(u + v == -(1 as real));
        assert(r == 0 as real) by (nonlinear_arith)
            requires
                r == flat * flat + t,
                t * (2 as real) == (-(1 as real)) * by,
                by == wave * wave,
                flat * flat * nr == 1 as real,
                wave * wave * nr == 2 as real,
        ;
    }
}

/// In exact arithmetic with the cosine basis, a cutoff that keeps every
/// coefficient gives a plane of pixel values back as it was.
pub proof fn law_cosine_transform_is_lossless<M: PlaneMath>(
    m: &M,
    val: spec_fn(M::Sample) -> real,
    cw: spec_fn(int) -> real,
    ch: spec_fn(int) -> real,
    flat_w: real,
    wave_w: real,
    flat_h: real,
    wave_h: real,
    pixels: Seq<M::Sample>,
    w: nat,
    h: nat,
    cutoff: M::Cutoff,
    out: Seq<M::Sample>,
    x: int,
    y: int,
)
    requires
        crate::plane_laws::exact(m, val),
        forall|b: Seq<M::Sample>| #[trigger]
            crate::dct_math::is_basis(m, w as int, b) ==> is_cosine_basis(
                val,
                cw,
                flat_w,
                wave_w,
                b,
                w,
            ),
        forall|b: Seq<M::Sample>| #[trigger]
            crate::dct_math::is_basis(m, h as int, b) ==> is_cosine_basis(
                val,
                ch,
                flat_h,
                wave_h,
                b,
                h,
            ),
        forall|t: M::Threshold, i: int, j: int|
            call_ensures(M::threshold, (m, cutoff), t) && 0 <= i < w && 0 <= j < h
                ==> #[trigger] crate::plane_laws::kept(m, t, w as int, h as int, i, j),
        pixels.len() == w * h,
        crate::cpu::plane_done(m, pixels, w as int, h as int, cutoff, out),
        0 <= x < w,
        0 <= y < h,
        0 as real <= val(pixels[y * w + x]) <= 255 as real,
    ensures
        out.len() == pixels.len(),
        val(out[y * w + x]) == val(pixels[y * w + x]),
{
    assert forall|b: Seq<M::Sample>| #[trigger] crate::dct_math::is_basis(
        m,
        w as int,
        b,
    ) implies crate::plane_laws::orthonormal(val, b, w) by {
        law_basis_columns_are_orthonormal(val, cw, flat_w, wave_w, b, w);
    }
    assert forall|b: Seq<M::Sample>| #[trigger] crate::dct_math::is_basis(
        m,
        h as int,
        b,
    ) implies crate::plane_laws::orthonormal(val, b, h) by {
        law_basis_columns_are_orthonormal(val, ch, flat_h, wave_h, b, h);
    }
    crate::plane_laws::law_full_cutoff_is_lossless(m, val, pixels, w, h, cutoff, out, x, y);
}

} // verus!
