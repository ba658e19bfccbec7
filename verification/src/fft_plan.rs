//! Mixed-radix (2/3/5/7) FFT planning: factorization, the digit-reversal and
//! even/odd-interleave permutations, and the iterative Cooley-Tukey stages.
use vstd::prelude::*;

verus! {

/// The radices an axis length may be built from, smallest first.
pub const RADICES: [usize; 4] = [2, 3, 5, 7];

/// Whether `r` is one of [`RADICES`].
pub open spec fn is_radix(r: usize) -> bool {
    r == 2 || r == 3 || r == 5 || r == 7
}

/// Whether every factor in `f` is one of [`RADICES`].
pub open spec fn all_radices(f: Seq<usize>) -> bool {
    forall|i: int| 0 <= i < f.len() ==> is_radix(#[trigger] f[i])
}

/// The product of `f`; 1 for the empty sequence.
pub open spec fn product(f: Seq<usize>) -> nat
    decreases f.len(),
{
    if f.len() == 0 {
        1
    } else {
        f[0] as nat * product(f.drop_first())
    }
}

/// Whether `f` never decreases.
pub open spec fn ascending(f: Seq<usize>) -> bool {
    forall|i: int, j: int| 0 <= i <= j < f.len() ==> f[i] <= f[j]
}

/// `n` split into radices, smallest first: the smallest radix that divides `n`,
/// then the split of the quotient. `None` where a factor outside [`RADICES`]
/// is left over.
pub open spec fn radix_split(n: nat) -> Option<Seq<usize>>
    decreases n,
{
    if n == 0 {
        None
    } else if n == 1 {
        Some(seq![])
    } else if n % 2 == 0 {
        prepend(2, radix_split(n / 2))
    } else if n % 3 == 0 {
        prepend(3, radix_split(n / 3))
    } else if n % 5 == 0 {
        prepend(5, radix_split(n / 5))
    } else if n % 7 == 0 {
        prepend(7, radix_split(n / 7))
    } else {
        None
    }
}

/// `r` in front of a split, where there is one.
pub open spec fn prepend(r: usize, rest: Option<Seq<usize>>) -> Option<Seq<usize>> {
    match rest {
        Some(f) => Some(seq![r] + f),
        None => None,
    }
}

/// `head` in front of a split, where there is one.
spec fn prepend_all(head: Seq<usize>, rest: Option<Seq<usize>>) -> Option<Seq<usize>> {
    match rest {
        Some(f) => Some(head + f),
        None => None,
    }
}

/// Factors `n` into the radices 2, 3, 5 and 7, smallest first. `None` if `n` is
/// 0 or 1 (too small to bother), or keeps a factor above 7: that axis is not
/// FFT-eligible.
pub fn factor_mixed_radix(n: usize) -> (r: Option<Vec<usize>>)
    ensures
        r is Some <==> n >= 2 && radix_split(n as nat) is Some,
        r matches Some(f) ==> radix_split(n as nat) == Some(f@),
{
    if n < 2 {
        return None;
    }
    let mut remaining: usize = n;
    let mut factors: Vec<usize> = Vec::new();
    let mut idx: usize = 0;
    assert(prepend_all(factors@, radix_split(n as nat)) == radix_split(n as nat)) by {
        if let Some(f) = radix_split(n as nat) {
            assert(Seq::<usize>::empty() + f =~= f);
        }
    }
    while idx < RADICES.len()
        invariant
            idx <= 4,
            remaining > 0,
            radix_split(n as nat) == prepend_all(factors@, radix_split(remaining as nat)),
            forall|k: int| 0 <= k < idx ==> remaining % (#[trigger] RADICES[k]) != 0,
        decreases RADICES.len() - idx,
    {
        let r: usize = RADICES[idx];
        assert(is_radix(r));
        while remaining % r == 0
            invariant
                idx < 4,
                r == RADICES[idx as int],
                is_radix(r),
                remaining > 0,
                radix_split(n as nat) == prepend_all(factors@, radix_split(remaining as nat)),
                forall|k: int| 0 <= k < idx ==> remaining % (#[trigger] RADICES[k]) != 0,
            decreases remaining,
        {
            let ghost before = remaining;
            let ghost head = factors@;
            factors.push(r);
            remaining = remaining / r;
            proof {
                assert(before == r * remaining) by (nonlinear_arith)
                    requires
                        before % r == 0,
                        remaining == before / r,
                        r > 0,
                ;
                assert(remaining > 0 && remaining < before) by (nonlinear_arith)
                    requires
                        before == r * remaining,
                        before > 0,
                        r >= 2,
                ;
                assert forall|k: int| 0 <= k < idx implies remaining % (#[trigger] RADICES[k]) != 0 by {
                    let s = RADICES[k];
                    assert(before % s != 0);
                    if remaining % s == 0 {
                        crate::arith::lemma_multiple_of_multiple(r as int, remaining as int, s as int);
                    }
                }
                assert(RADICES[0] == 2 && RADICES[1] == 3 && RADICES[2] == 5 && RADICES[3] == 7);
                assert(radix_split(before as nat) == prepend(r, radix_split(remaining as nat)));
                if let Some(f) = radix_split(remaining as nat) {
                    assert(head + (seq![r] + f) =~= head.push(r) + f);
                }
            }
        }
        idx = idx + 1;
    }
    proof {
        assert(RADICES[0] == 2 && RADICES[1] == 3 && RADICES[2] == 5 && RADICES[3] == 7);
    }
    if remaining == 1 {
        proof {
            assert(factors@ + Seq::<usize>::empty() =~= factors@);
        }
        Some(factors)
    } else {
        None
    }
}

/// The split of an even axis length into radices; `None` for an odd length, or
/// one that has no such split: that axis takes the matrix-multiply path.
pub open spec fn fft_split(n: nat) -> Option<Seq<usize>> {
    if n % 2 != 0 {
        None
    } else {
        radix_split(n)
    }
}

/// Whether `n` is eligible for the FFT-based DCT-II/III path: even, and a
/// product of 2, 3, 5 and 7 only. The factors come smallest first.
pub fn fft_eligible(n: usize) -> (r: Option<Vec<usize>>)
    ensures
        r is Some <==> fft_split(n as nat) is Some,
        r matches Some(f) ==> fft_split(n as nat) == Some(f@),
{
    if n % 2 != 0 {
        return None;
    }
    factor_mixed_radix(n)
}

/// Whether every factor is at least 1.
pub open spec fn all_positive(f: Seq<usize>) -> bool {
    forall|i: int| 0 <= i < f.len() ==> 1 <= #[trigger] f[i]
}

/// `i` written with one digit per factor, `f[0]` the radix of the least
/// significant one, and read back with digits and radix weights reversed.
pub open spec fn digit_reverse(i: nat, f: Seq<usize>) -> nat
    decreases f.len(),
{
    if f.len() == 0 {
        0
    } else {
        (i % (f[0] as nat)) * product(f.drop_first()) + digit_reverse(i / (f[0] as nat), f.drop_first())
    }
}

/// A product of positive factors is positive.
pub proof fn lemma_product_positive(f: Seq<usize>)
    requires
        all_positive(f),
    ensures
        product(f) >= 1,
    decreases f.len(),
{
    if f.len() > 0 {
        let rest = f.drop_first();
        assert forall|i: int| 0 <= i < rest.len() implies 1 <= #[trigger] rest[i] by {
            assert(rest[i] == f[i + 1]);
        }
        lemma_product_positive(rest);
        assert(f[0] as nat * product(rest) >= 1) by (nonlinear_arith)
            requires
                f[0] >= 1,
                product(rest) >= 1,
        ;
    }
}

/// The tail of a list of positive factors is one.
pub proof fn lemma_tail_positive(f: Seq<usize>)
    requires
        all_positive(f),
        f.len() > 0,
    ensures
        all_positive(f.drop_first()),
        f[0] >= 1,
        product(f.drop_first()) >= 1,
{
    let rest = f.drop_first();
    assert forall|i: int| 0 <= i < rest.len() implies 1 <= #[trigger] rest[i] by {
        assert(rest[i] == f[i + 1]);
    }
    lemma_product_positive(rest);
}

/// The reversed number stays below the product of the factors.
pub proof fn lemma_digit_reverse_bound(i: nat, f: Seq<usize>)
    requires
        all_positive(f),
    ensures
        digit_reverse(i, f) < product(f),
    decreases f.len(),
{
    if f.len() > 0 {
        lemma_tail_positive(f);
        let rest = f.drop_first();
        let r = f[0] as nat;
        lemma_digit_reverse_bound(i / r, rest);
        crate::arith::lemma_cell_bound(
            (i % r) as int,
            digit_reverse(i / r, rest) as int,
            r as int,
            product(rest) as int,
        );
    }
}

/// Two numbers below the product of the factors reverse to different numbers.
pub proof fn lemma_digit_reverse_injective(i: nat, j: nat, f: Seq<usize>)
    requires
        all_positive(f),
        i < product(f),
        j < product(f),
        i != j,
    ensures
        digit_reverse(i, f) != digit_reverse(j, f),
    decreases f.len(),
{
    if f.len() > 0 {
        lemma_tail_positive(f);
        let rest = f.drop_first();
        let r = f[0] as nat;
        let w = product(rest);
        lemma_digit_reverse_bound(i / r, rest);
        lemma_digit_reverse_bound(j / r, rest);
        crate::arith::lemma_div_mod_of(
            digit_reverse(i, f) as int,
            w as int,
            (i % r) as int,
            digit_reverse(i / r, rest) as int,
        );
        crate::arith::lemma_div_mod_of(
            digit_reverse(j, f) as int,
            w as int,
            (j % r) as int,
            digit_reverse(j / r, rest) as int,
        );
        assert(r * w == w * r) by (nonlinear_arith);
        crate::arith::lemma_quotient_bound(i as int, w as int, r as int);
        crate::arith::lemma_quotient_bound(j as int, w as int, r as int);
        vstd::arithmetic::div_mod::lemma_fundamental_div_mod(i as int, r as int);
        vstd::arithmetic::div_mod::lemma_fundamental_div_mod(j as int, r as int);
        if i / r != j / r {
            lemma_digit_reverse_injective(i / r, j / r, rest);
        }
    }
}

/// The product of the factors from `q` on never exceeds that of all of them.
pub proof fn lemma_suffix_product(f: Seq<usize>, q: int)
    requires
        all_positive(f),
        0 <= q <= f.len(),
    ensures
        1 <= product(f.skip(q)) <= product(f),
    decreases q,
{
    if q == 0 {
        assert(f.skip(0) =~= f);
        lemma_product_positive(f);
    } else {
        lemma_tail_positive(f);
        let rest = f.drop_first();
        assert(f.skip(q) =~= rest.skip(q - 1));
        lemma_suffix_product(rest, q - 1);
        assert(product(rest) <= f[0] as nat * product(rest)) by (nonlinear_arith)
            requires
                f[0] >= 1,
        ;
    }
}

/// Digit `k` is what `f[k]` leaves of `lefts[k]`, and `lefts[k + 1]` the quotient.
spec fn split_off(digits: Seq<usize>, lefts: Seq<nat>, f: Seq<usize>, k: int) -> bool {
    digits[k] == lefts[k] % (f[k] as nat) && lefts[k + 1] == lefts[k] / (f[k] as nat)
}

/// Digit-reversal permutation index for mixed-radix decimation-in-time: `n` is
/// taken apart into digits, the least significant with `factors[0]` as its
/// radix, and put together with the digits and their weights both reversed.
pub fn digit_reverse_index(n: usize, factors: &[usize]) -> (r: usize)
    requires
        all_positive(factors@),
        product(factors@) <= usize::MAX,
    ensures
        r == digit_reverse(n as nat, factors@),
        r < product(factors@),
{
    let ghost f = factors@;
    let mut digits: Vec<usize> = Vec::with_capacity(factors.len());
    let mut left: usize = n;
    let ghost mut lefts: Seq<nat> = seq![n as nat];
    let mut t: usize = 0;
    while t < factors.len()
        invariant
            t <= factors.len(),
            f == factors@,
            all_positive(f),
            digits@.len() == t,
            lefts.len() == t + 1,
            lefts[0] == n as nat,
            left == lefts[t as int],
            forall|k: int| 0 <= k < t ==> #[trigger] split_off(digits@, lefts, f, k),
        decreases factors.len() - t,
    {
        let r: usize = factors[t];
        assert(1 <= f[t as int]);
        let ghost digits0 = digits@;
        let ghost lefts0 = lefts;
        digits.push(left % r);
        left = left / r;
        proof {
            lefts = lefts.push(left as nat);
            assert forall|k: int| 0 <= k < t + 1 implies #[trigger] split_off(
                digits@,
                lefts,
                f,
                k,
            ) by {
                if k < t {
                    assert(split_off(digits0, lefts0, f, k));
                }
            }
        }
        t = t + 1;
    }
    assert(t == f.len());
    let mut out: usize = 0;
    let mut weight: usize = 1;
    let mut q: usize = factors.len();
    assert(f.skip(q as int) =~= Seq::<usize>::empty());
    while q > 0
        invariant
            q <= factors.len(),
            f == factors@,
            all_positive(f),
            product(f) <= usize::MAX,
            digits@.len() == f.len(),
            lefts.len() == f.len() + 1,
            forall|k: int| 0 <= k < f.len() ==> #[trigger] split_off(digits@, lefts, f, k),
            weight == product(f.skip(q as int)),
            out == digit_reverse(lefts[q as int], f.skip(q as int)),
        decreases q,
    {
        let ghost before = f.skip(q as int);
        q = q - 1;
        let ghost now = f.skip(q as int);
        let d: usize = digits[q];
        let r: usize = factors[q];
        proof {
            assert(now[0] == f[q as int]);
            assert(now.drop_first() =~= before);
            assert(split_off(digits@, lefts, f, q as int));
            assert(now.len() > 0);
            assert forall|i: int| 0 <= i < now.len() implies 1 <= #[trigger] now[i] by {
                assert(now[i] == f[i + q]);
            }
            lemma_suffix_product(f, q as int);
            lemma_digit_reverse_bound(lefts[q as int], now);
            assert(d * weight >= 0) by (nonlinear_arith);
        }
        out = out + d * weight;
        assert(weight * r == r * weight) by (nonlinear_arith);
        weight = weight * r;
    }
    proof {
        assert(f.skip(0) =~= f);
        lemma_digit_reverse_bound(n as nat, f);
    }
    out
}

/// Where the even/odd interleave puts index `i` of a sequence of even length
/// `n`: the even indices in order first, then the odd ones in reverse.
pub open spec fn interleave(i: int, n: int) -> int {
    if i % 2 == 0 {
        i / 2
    } else {
        n - 1 - (i - 1) / 2
    }
}

/// Makhoul's even/odd-interleave index map: with `v[k] = x[2 * k]` and
/// `v[n - 1 - k] = x[2 * k + 1]` for `k < n / 2`, `x[i]` stands at
/// `v[dct_interleave_index(i, n)]`. A scatter index going forward, and since
/// the map is a bijection, a gather index going back.
pub fn dct_interleave_index(i: usize, n: usize) -> (r: usize)
    requires
        i % 2 == 0 || i / 2 < n,
    ensures
        r == interleave(i as int, n as int),
{
    if i % 2 == 0 {
        i / 2
    } else {
        n - 1 - (i - 1) / 2
    }
}

} // verus!
