//! Laws of the FFT plan: the split into radices and the two permutations.
use vstd::prelude::*;

verus! {

/// Every factor of a split divides what was split.
proof fn lemma_factor_divides(n: nat, f: Seq<usize>, i: int)
    requires
        crate::fft_plan::radix_split(n) == Some(f),
        0 <= i < f.len(),
    ensures
        n % (f[i] as nat) == 0,
        crate::fft_plan::is_radix(f[i]),
    decreases n,
{
    let r: usize = if n % 2 == 0 {
        2
    } else if n % 3 == 0 {
        3
    } else if n % 5 == 0 {
        5
    } else {
        7
    };
    let rest = crate::fft_plan::radix_split(n / r as nat)->Some_0;
    assert(f == seq![r] + rest);
    if i > 0 {
        lemma_factor_divides(n / r as nat, rest, i - 1);
        assert(f[i] == rest[i - 1]);
        assert(n == r * (n / r as nat));
        crate::arith::lemma_multiple_of_multiple(
            r as int,
            (n / r as nat) as int,
            f[i] as int,
        );
    }
}

/// The factors of a split multiply back to what was split, are radices, and
/// come smallest first.
pub proof fn law_split_multiplies_back(n: nat, f: Seq<usize>)
    requires
        crate::fft_plan::radix_split(n) == Some(f),
    ensures
        crate::fft_plan::product(f) == n,
        crate::fft_plan::all_radices(f),
        crate::fft_plan::ascending(f),
    decreases n,
{
    if n > 1 {
        let r: usize = if n % 2 == 0 {
            2
        } else if n % 3 == 0 {
            3
        } else if n % 5 == 0 {
            5
        } else {
            7
        };
        let rest = crate::fft_plan::radix_split(n / r as nat)->Some_0;
        assert(f == seq![r] + rest);
        assert(f.drop_first() =~= rest);
        law_split_multiplies_back(n / r as nat, rest);
        vstd::arithmetic::div_mod::lemma_fundamental_div_mod(n as int, r as int);
        assert(crate::fft_plan::product(f) == f[0] as nat * crate::fft_plan::product(rest));
        assert forall|i: int| 0 <= i < f.len() implies crate::fft_plan::is_radix(#[trigger] f[i])
            && r <= f[i] by {
            lemma_factor_divides(n, f, i);
        }
        assert forall|i: int, j: int| 0 <= i <= j < f.len() implies f[i] <= f[j] by {
            if i > 0 {
                assert(f[i] == rest[i - 1] && f[j] == rest[j - 1]);
            }
        }
    }
}

/// The radices are prime: one that divides `r * k` and is not `r` divides `k`.
proof fn lemma_radix_is_prime(s: nat, r: nat, k: nat)
    requires
        s == 2 || s == 3 || s == 5 || s == 7,
        r == 2 || r == 3 || r == 5 || r == 7,
        s != r,
        (r * k) % s == 0,
    ensures
        k % s == 0,
{
    if r == 2 {
        assert(r * k == 2 * k);
        lemma_prime_to(s, 2, k);
    } else if r == 3 {
        assert(r * k == 3 * k);
        lemma_prime_to(s, 3, k);
    } else if r == 5 {
        assert(r * k == 5 * k);
        lemma_prime_to(s, 5, k);
    } else {
        assert(r * k == 7 * k);
        lemma_prime_to(s, 7, k);
    }
}

/// The same, radix by radix.
proof fn lemma_prime_to(s: nat, r: nat, k: nat)
    requires
        s == 2 || s == 3 || s == 5 || s == 7,
        s != r,
        r == 2 && (2 * k) % s == 0 || r == 3 && (3 * k) % s == 0 || r == 5 && (5 * k) % s == 0 || r
            == 7 && (7 * k) % s == 0,
    ensures
        k % s == 0,
{
    let rest = k % s;
    if s == 2 {
        assert(rest == 0 || rest == 1);
    } else if s == 3 {
        assert(rest == 0 || rest == 1 || rest == 2);
    } else if s == 5 {
        assert(rest == 0 || rest == 1 || rest == 2 || rest == 3 || rest == 4);
    } else {
        assert(rest == 0 || rest == 1 || rest == 2 || rest == 3 || rest == 4 || rest == 5 || rest
            == 6);
    }
}

/// A radix that divides a product of radices is one of them.
proof fn lemma_radix_among(f: Seq<usize>, s: usize)
    requires
        crate::fft_plan::all_radices(f),
        crate::fft_plan::is_radix(s),
        crate::fft_plan::product(f) % (s as nat) == 0,
    ensures
        exists|i: int| 0 <= i < f.len() && f[i] == s,
    decreases f.len(),
{
    if f.len() == 0 {
        assert(1nat % 2 == 1 && 1nat % 3 == 1 && 1nat % 5 == 1 && 1nat % 7 == 1);
    } else if f[0] != s {
        assert(crate::fft_plan::is_radix(f[0]));
        let rest = f.drop_first();
        assert forall|i: int| 0 <= i < rest.len() implies crate::fft_plan::is_radix(
            #[trigger] rest[i],
        ) by {
            assert(rest[i] == f[i + 1]);
        }
        lemma_radix_is_prime(s as nat, f[0] as nat, crate::fft_plan::product(rest));
        lemma_radix_among(rest, s);
        let i = choose|i: int| 0 <= i < rest.len() && rest[i] == s;
        assert(f[i + 1] == s);
    }
}

/// A list of radices, smallest first, is the split of its product: no number
/// has a second one.
pub proof fn law_split_is_unique(f: Seq<usize>)
    requires
        crate::fft_plan::all_radices(f),
        crate::fft_plan::ascending(f),
    ensures
        crate::fft_plan::radix_split(crate::fft_plan::product(f)) == Some(f),
    decreases f.len(),
{
    if f.len() == 0 {
        assert(f =~= seq![]);
    } else {
        let rest = f.drop_first();
        let r = f[0];
        assert(crate::fft_plan::is_radix(r));
        assert forall|i: int| 0 <= i < rest.len() implies crate::fft_plan::is_radix(
            #[trigger] rest[i],
        ) by {
            assert(rest[i] == f[i + 1]);
        }
        assert forall|i: int, j: int| 0 <= i <= j < rest.len() implies rest[i] <= rest[j] by {
            assert(rest[i] == f[i + 1] && rest[j] == f[j + 1]);
        }
        law_split_is_unique(rest);
        let k = crate::fft_plan::product(rest);
        let n = crate::fft_plan::product(f);
        assert(n == r as nat * k);
        lemma_positive_radices(rest);
        assert forall|s: usize| #[trigger] crate::fft_plan::is_radix(s) && s < r implies n % (
        s as nat) != 0 by {
            if n % (s as nat) == 0 {
                lemma_radix_among(f, s);
                let i = choose|i: int| 0 <= i < f.len() && f[i] == s;
                assert(f[0] <= f[i]);
            }
        }
        assert(crate::fft_plan::is_radix(2) && crate::fft_plan::is_radix(3)
            && crate::fft_plan::is_radix(5));
        assert(n >= 2 && n % (r as nat) == 0 && n / (r as nat) == k) by {
            assert(r as nat * k == k * r as nat) by (nonlinear_arith);
            crate::arith::lemma_div_mod_of(n as int, r as int, k as int, 0);
        }
        assert(seq![r] + rest =~= f);
    }
}

/// Radices multiply to at least 1.
proof fn lemma_positive_radices(f: Seq<usize>)
    requires
        crate::fft_plan::all_radices(f),
    ensures
        crate::fft_plan::all_positive(f),
        crate::fft_plan::product(f) >= 1,
{
    assert forall|i: int| 0 <= i < f.len() implies 1 <= #[trigger] f[i] by {
        assert(crate::fft_plan::is_radix(f[i]));
    }
    crate::fft_plan::lemma_product_positive(f);
}

/// Multiplying by a radix keeps a number splittable.
proof fn lemma_times_radix(r: usize, k: nat)
    requires
        crate::fft_plan::is_radix(r),
        crate::fft_plan::radix_split(k) is Some,
    ensures
        crate::fft_plan::radix_split(r as nat * k) is Some,
    decreases k,
{
    let n = r as nat * k;
    let s: usize = if n % 2 == 0 {
        2
    } else if n % 3 == 0 {
        3
    } else if n % 5 == 0 {
        5
    } else {
        7
    };
    assert(n >= 2 && n % (r as nat) == 0 && n / (r as nat) == k) by {
        assert(r as nat * k == k * r as nat) by (nonlinear_arith);
        assert(k >= 1);
        assert(r as nat * k >= 2) by (nonlinear_arith)
            requires
                r >= 2,
                k >= 1,
        ;
        crate::arith::lemma_div_mod_of(n as int, r as int, k as int, 0);
    }
    if s != r {
        assert(n % (s as nat) == 0);
        lemma_radix_is_prime(s as nat, r as nat, k);
        let h = k / s as nat;
        vstd::arithmetic::div_mod::lemma_fundamental_div_mod(k as int, s as int);
        assert(k >= 2);
        if k % 2 == 0 {
            crate::arith::lemma_multiple_of_multiple(r as int, k as int, 2);
        }
        if k % 3 == 0 {
            crate::arith::lemma_multiple_of_multiple(r as int, k as int, 3);
        }
        if k % 5 == 0 {
            crate::arith::lemma_multiple_of_multiple(r as int, k as int, 5);
        }
        assert(crate::fft_plan::radix_split(k) == crate::fft_plan::prepend(
            s,
            crate::fft_plan::radix_split(h),
        ));
        assert(h < k);
        lemma_times_radix(r, h);
        assert(r * k == (r * h) * s) by (nonlinear_arith)
            requires
                k == s * h,
        ;
        crate::arith::lemma_div_mod_of(n as int, s as int, r * h, 0);
        assert(n / (s as nat) == r as nat * h);
    }
}

/// A number that is a product of radices in any order splits, and is found
/// eligible if it is even.
pub proof fn law_split_is_complete(f: Seq<usize>)
    requires
        crate::fft_plan::all_radices(f),
    ensures
        crate::fft_plan::radix_split(crate::fft_plan::product(f)) is Some,
        crate::fft_plan::product(f) % 2 == 0 ==> crate::fft_plan::fft_split(
            crate::fft_plan::product(f),
        ) is Some,
    decreases f.len(),
{
    if f.len() > 0 {
        assert(crate::fft_plan::is_radix(f[0]));
        let rest = f.drop_first();
        assert forall|i: int| 0 <= i < rest.len() implies crate::fft_plan::is_radix(
            #[trigger] rest[i],
        ) by {
            assert(rest[i] == f[i + 1]);
        }
        law_split_is_complete(rest);
        lemma_times_radix(f[0], crate::fft_plan::product(rest));
    }
}

/// The tail of `f` with one factor appended is the tail of the longer list.
proof fn lemma_push_tail(g: Seq<usize>, a: usize)
    requires
        g.len() > 0,
    ensures
        g.push(a)[0] == g[0],
        g.push(a).drop_first() == g.drop_first().push(a),
{
    assert(g.push(a).drop_first() =~= g.drop_first().push(a));
}

/// Appending a factor multiplies the product by it.
proof fn lemma_product_push(g: Seq<usize>, a: usize)
    ensures
        crate::fft_plan::product(g.push(a)) == crate::fft_plan::product(g) * a as nat,
    decreases g.len(),
{
    if g.len() == 0 {
        assert(g.push(a).drop_first() =~= Seq::<usize>::empty());
        assert(crate::fft_plan::product(g.push(a).drop_first()) == 1);
        assert(a as nat * 1 == 1 * a as nat) by (nonlinear_arith);
    } else {
        lemma_push_tail(g, a);
        let t = g.drop_first();
        lemma_product_push(t, a);
        let w = crate::fft_plan::product(t);
        assert(g[0] as nat * (w * a as nat) == (g[0] as nat * w) * a as nat) by (nonlinear_arith);
    }
}

/// A list and its reverse have the same product.
pub(crate) proof fn lemma_product_reverse(f: Seq<usize>)
    ensures
        crate::fft_plan::product(f.reverse()) == crate::fft_plan::product(f),
    decreases f.len(),
{
    if f.len() == 0 {
        assert(f.reverse() =~= f);
    } else {
        let t = f.drop_first();
        assert(f.reverse() =~= t.reverse().push(f[0]));
        lemma_product_reverse(t);
        lemma_product_push(t.reverse(), f[0]);
        let w = crate::fft_plan::product(t);
        assert(w * f[0] as nat == f[0] as nat * w) by (nonlinear_arith);
    }
}

/// The digit of an appended factor comes out least significant.
proof fn lemma_digit_reverse_push(x: nat, g: Seq<usize>, a: usize)
    requires
        crate::fft_plan::all_positive(g),
        a >= 1,
    ensures
        crate::fft_plan::digit_reverse(x, g.push(a)) == crate::fft_plan::digit_reverse(x, g)
            * a as nat + (x / crate::fft_plan::product(g)) % a as nat,
    decreases g.len(),
{
    if g.len() == 0 {
        let one = g.push(a);
        assert(one.drop_first() =~= Seq::<usize>::empty());
        assert(crate::fft_plan::product(one.drop_first()) == 1);
        assert(crate::fft_plan::digit_reverse(x / a as nat, one.drop_first()) == 0);
        let d = x % a as nat;
        assert(d * 1 == d);
        assert(0 * a as nat == 0) by (nonlinear_arith);
        assert(x / 1 == x);
    } else {
        lemma_push_tail(g, a);
        crate::fft_plan::lemma_tail_positive(g);
        let t = g.drop_first();
        let r = g[0] as nat;
        let w = crate::fft_plan::product(t);
        lemma_digit_reverse_push(x / r, t, a);
        lemma_product_push(t, a);
        vstd::arithmetic::div_mod::lemma_div_denominator(x as int, r as int, w as int);
        let (d, y) = (x % r, crate::fft_plan::digit_reverse(x / r, t));
        assert(d * (w * a as nat) + y * a as nat == (d * w + y) * a as nat) by (nonlinear_arith);
    }
}

/// Only `x` modulo the product of the factors matters.
proof fn lemma_digit_reverse_mod(x: nat, c: nat, g: Seq<usize>)
    requires
        crate::fft_plan::all_positive(g),
    ensures
        crate::fft_plan::digit_reverse(x + c * crate::fft_plan::product(g), g)
            == crate::fft_plan::digit_reverse(x, g),
    decreases g.len(),
{
    if g.len() > 0 {
        crate::fft_plan::lemma_tail_positive(g);
        let t = g.drop_first();
        let r = g[0] as nat;
        let w = crate::fft_plan::product(t);
        let y = x + c * (r * w);
        vstd::arithmetic::div_mod::lemma_fundamental_div_mod(x as int, r as int);
        assert(y == (x / r + c * w) * r + x % r) by (nonlinear_arith)
            requires
                y == x + c * (r * w),
                x == r * (x / r) + x % r,
        ;
        crate::arith::lemma_div_mod_of(
            y as int,
            r as int,
            (x / r + c * w) as int,
            (x % r) as int,
        );
        lemma_digit_reverse_mod(x / r, c, t);
    }
}

/// Reversing the digits, and reversing them again with the factors in the
/// opposite order, gives the number back.
pub proof fn law_digit_reverse_round_trip(i: nat, f: Seq<usize>)
    requires
        crate::fft_plan::all_positive(f),
        i < crate::fft_plan::product(f),
    ensures
        crate::fft_plan::digit_reverse(crate::fft_plan::digit_reverse(i, f), f.reverse()) == i,
    decreases f.len(),
{
    if f.len() > 0 {
        crate::fft_plan::lemma_tail_positive(f);
        let t = f.drop_first();
        let r = f[0];
        let w = crate::fft_plan::product(t);
        assert(f.reverse() =~= t.reverse().push(r));
        assert(crate::fft_plan::all_positive(t.reverse())) by {
            let b = t.reverse();
            assert forall|k: int| 0 <= k < b.len() implies 1 <= #[trigger] b[k] by {
                assert(b[k] == t[t.len() - 1 - k]);
            }
        }
        lemma_product_reverse(t);
        let (d, y) = (i % r as nat, crate::fft_plan::digit_reverse(i / r as nat, t));
        crate::fft_plan::lemma_digit_reverse_bound(i / r as nat, t);
        assert(r as nat * w == w * r as nat) by (nonlinear_arith);
        crate::arith::lemma_quotient_bound(i as int, w as int, r as int);
        law_digit_reverse_round_trip(i / r as nat, t);
        lemma_digit_reverse_push(d * w + y, t.reverse(), r);
        crate::arith::lemma_div_mod_of((d * w + y) as int, w as int, d as int, y as int);
        lemma_digit_reverse_mod(y, d, t.reverse());
        assert(y + d * w == d * w + y);
        crate::arith::lemma_div_mod_of(d as int, r as int, 0, d as int);
        vstd::arithmetic::div_mod::lemma_fundamental_div_mod(i as int, r as int);
        assert((i / r as nat) * r as nat == r * (i / r as nat)) by (nonlinear_arith);
    }
}

/// The digit-reversal index is a permutation: indices below the length stay
/// below it, and no two meet.
pub proof fn law_digit_reverse_is_a_permutation(f: Seq<usize>)
    requires
        crate::fft_plan::all_positive(f),
    ensures
        forall|i: nat|
            i < crate::fft_plan::product(f) ==> #[trigger] crate::fft_plan::digit_reverse(i, f)
                < crate::fft_plan::product(f),
        forall|i: nat, j: nat|
            i < crate::fft_plan::product(f) && j < crate::fft_plan::product(f) && i != j
                ==> #[trigger] crate::fft_plan::digit_reverse(i, f)
                != #[trigger] crate::fft_plan::digit_reverse(j, f),
{
    assert forall|i: nat| i < crate::fft_plan::product(f) implies #[trigger] crate::fft_plan::digit_reverse(
    i, f) < crate::fft_plan::product(f) by {
        crate::fft_plan::lemma_digit_reverse_bound(i, f);
    }
    assert forall|i: nat, j: nat|
        i < crate::fft_plan::product(f) && j < crate::fft_plan::product(f) && i
            != j implies #[trigger] crate::fft_plan::digit_reverse(i, f)
        != #[trigger] crate::fft_plan::digit_reverse(j, f) by {
        crate::fft_plan::lemma_digit_reverse_injective(i, j, f);
    }
}

/// A product of twos is a power of two.
proof fn lemma_product_of_twos(f: Seq<usize>)
    requires
        forall|i: int| 0 <= i < f.len() ==> #[trigger] f[i] == 2,
    ensures
        crate::fft_plan::all_positive(f),
        crate::fft_plan::product(f) == vstd::arithmetic::power2::pow2(f.len()),
    decreases f.len(),
{
    if f.len() == 0 {
        vstd::arithmetic::power2::lemma2_to64();
    } else {
        let t = f.drop_first();
        assert forall|i: int| 0 <= i < t.len() implies #[trigger] t[i] == 2 by {
            assert(t[i] == f[i + 1]);
        }
        lemma_product_of_twos(t);
        vstd::arithmetic::power2::lemma_pow2_unfold(f.len());
    }
}

/// Where every factor is 2, this is the classic bit reversal: bit `b` of the
/// index and bit `f.len() - 1 - b` of the reversed index are the same.
pub proof fn law_bit_reversal(i: nat, f: Seq<usize>, b: nat)
    requires
        forall|k: int| 0 <= k < f.len() ==> #[trigger] f[k] == 2,
        b < f.len(),
    ensures
        (crate::fft_plan::digit_reverse(i, f) / vstd::arithmetic::power2::pow2(
            (f.len() - 1 - b) as nat,
        )) % 2 == (i / vstd::arithmetic::power2::pow2(b)) % 2,
    decreases f.len(),
{
    let t = f.drop_first();
    assert forall|k: int| 0 <= k < t.len() implies #[trigger] t[k] == 2 by {
        assert(t[k] == f[k + 1]);
    }
    lemma_product_of_twos(t);
    let w = vstd::arithmetic::power2::pow2(t.len());
    let y = crate::fft_plan::digit_reverse(i / 2, t);
    crate::fft_plan::lemma_digit_reverse_bound(i / 2, t);
    let whole = crate::fft_plan::digit_reverse(i, f);
    assert(f[0] == 2);
    assert(whole == (i % 2) * w + y);
    if b == 0 {
        crate::arith::lemma_div_mod_of(whole as int, w as int, (i % 2) as int, y as int);
        vstd::arithmetic::power2::lemma2_to64();
        assert(i / 1 == i);
    } else {
        let low = vstd::arithmetic::power2::pow2((f.len() - 1 - b) as nat);
        let half = vstd::arithmetic::power2::pow2((b - 1) as nat);
        vstd::arithmetic::power2::lemma_pow2_unfold(b);
        vstd::arithmetic::power2::lemma_pow2_adds((f.len() - 1 - b) as nat, b);
        vstd::arithmetic::power2::lemma_pow2_pos((f.len() - 1 - b) as nat);
        vstd::arithmetic::power2::lemma_pow2_pos((b - 1) as nat);
        law_bit_reversal(i / 2, t, (b - 1) as nat);
        // The bits of `y` above `low` shift the top bit by an even amount.
        let d = i % 2;
        assert(d * w == (2 * (d * half)) * low) by (nonlinear_arith)
            requires
                w == low * (2 * half),
        ;
        vstd::arithmetic::div_mod::lemma_fundamental_div_mod(y as int, low as int);
        assert(whole == (2 * (d * half) + y / low) * low + y % low) by (nonlinear_arith)
            requires
                whole == (2 * (d * half)) * low + y,
                y == low * (y / low) + y % low,
        ;
        crate::arith::lemma_div_mod_of(
            whole as int,
            low as int,
            (2 * (d * half) + y / low) as int,
            (y % low) as int,
        );
        vstd::arithmetic::div_mod::lemma_div_denominator(i as int, 2, half as int);
    }
}

/// The interleave index is a permutation of the indices below `n`.
pub proof fn law_interleave_is_a_permutation(n: int)
    ensures
        forall|i: int| 0 <= i < n ==> 0 <= #[trigger] crate::fft_plan::interleave(i, n) < n,
        forall|i: int, j: int|
            0 <= i < n && 0 <= j < n && i != j ==> #[trigger] crate::fft_plan::interleave(i, n)
                != #[trigger] crate::fft_plan::interleave(j, n),
{
}

/// The interleave puts the even elements in order first and the odd ones, in
/// reverse, behind them.
pub proof fn law_interleave_places(k: int, n: int)
    requires
        n % 2 == 0,
        0 <= k < n / 2,
    ensures
        crate::fft_plan::interleave(2 * k, n) == k,
        crate::fft_plan::interleave(2 * k + 1, n) == n - 1 - k,
{
}

} // verus!
