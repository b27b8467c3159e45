//! Sums, squares and square roots in single precision, of numbers that are not negative.
//!
//! The Manhattan measure is a sum of differences, the Euclidean one the root of a sum of
//! squares. What rounding leaves of the order of such numbers is what lets a search leave
//! subtrees out by them.
use crate::single::{
    lemma_exact, lemma_rounded, lemma_rounded_mono, lemma_scaled_mono, lemma_scaled_of_parts,
    lemma_scaled_step, rounded, scaled, BINADE, INFINITY_BITS,
};
use vstd::arithmetic::power2::*;
use vstd::prelude::*;

verus! {

/// The sum of patterns, one after the other, rounded after each step.
pub open spec fn total(terms: Seq<nat>) -> nat
    decreases terms.len(),
{
    if terms.len() == 0 {
        0
    } else {
        rounded(scaled(total(terms.drop_last())) + scaled(terms.last()), 1)
    }
}

/// The square of a pattern, rounded.
pub open spec fn square(k: nat) -> nat {
    rounded(scaled(k) * scaled(k), pow2(149))
}

/// `k` is the pattern nearest to the square root of the pattern `s`, the even one of two
/// equally near.
#[verifier::opaque]
pub open spec fn is_root(s: nat, k: nat) -> bool {
    if s >= INFINITY_BITS {
        k == INFINITY_BITS
    } else {
        let exact: nat = 4 * (scaled(s) * pow2(149));
        let above: nat = scaled(k) + scaled(k + 1);
        let below: nat = scaled((k - 1) as nat) + scaled(k);
        &&& k < INFINITY_BITS
        &&& exact < above * above || (exact == above * above && k % 2 == 0)
        &&& k > 0 ==> exact > below * below || (exact == below * below && k % 2 == 0)
    }
}

/// A sum is not smaller than any of its terms, however it was rounded on the way.
pub proof fn law_sum_reaches_terms(terms: Seq<nat>, i: int)
    requires
        forall|j: int| 0 <= j < terms.len() ==> #[trigger] terms[j] <= INFINITY_BITS,
        0 <= i < terms.len(),
    ensures
        terms[i] <= total(terms) <= INFINITY_BITS,
    decreases terms.len(),
{
    let rest: Seq<nat> = terms.drop_last();
    let before: nat = total(rest);
    let last: nat = terms.last();
    assert(last == terms[terms.len() - 1]);
    lemma_rounded(scaled(before) + scaled(last), 1);
    lemma_exact(last);
    lemma_rounded_mono(scaled(last), scaled(before) + scaled(last), 1);
    if i < rest.len() {
        law_sum_reaches_terms(rest, i);
        lemma_exact(before);
        lemma_rounded_mono(scaled(before), scaled(before) + scaled(last), 1);
        assert(terms[i] == rest[i]);
    }
}

/// A larger number has no smaller square.
pub proof fn lemma_square_mono(a: nat, b: nat)
    requires
        a <= b,
    ensures
        square(a) <= square(b) <= INFINITY_BITS,
{
    lemma_scaled_mono(a, b);
    lemma_pow2_pos(149);
    assert(scaled(a) * scaled(a) <= scaled(b) * scaled(b)) by (nonlinear_arith)
        requires scaled(a) <= scaled(b);
    lemma_rounded_mono(scaled(a) * scaled(a), scaled(b) * scaled(b), pow2(149));
    lemma_rounded(scaled(b) * scaled(b), pow2(149));
}

/// A root is a number, and not negative.
pub proof fn lemma_root_bound(s: nat, k: nat)
    requires
        is_root(s, k),
    ensures
        k <= INFINITY_BITS,
{
    reveal(is_root);
}

/// A larger number has no smaller root.
proof fn lemma_root_mono(s: nat, t: nat, k: nat, l: nat)
    requires
        s <= t < INFINITY_BITS,
        is_root(s, k),
        is_root(t, l),
    ensures
        k <= l,
{
    reveal(is_root);
    if l < k {
        let p: nat = (k - 1) as nat;
        let low: nat = scaled(p) + scaled(k);
        let high: nat = scaled(l) + scaled(l + 1);
        lemma_scaled_mono(s, t);
        lemma_scaled_mono(l, p);
        lemma_scaled_mono(l + 1, k);
        assert(scaled(s) * pow2(149) <= scaled(t) * pow2(149)) by (nonlinear_arith)
            requires scaled(s) <= scaled(t);
        assert(high * high <= low * low) by (nonlinear_arith)
            requires high <= low;
        if l < p {
            assert(high * high < low * low) by (nonlinear_arith)
                requires high < low;
        }
        assert(false);
    }
}

/// A root that is not zero is a normal number, with some significand and exponent.
proof fn lemma_root_normal(s: nat, y: nat) -> (parts: (nat, nat))
    requires
        s < INFINITY_BITS,
        is_root(s, y),
        y > 0,
    ensures
        s > 0,
        BINADE <= parts.0 < 2 * BINADE,
        y == parts.1 * BINADE + parts.0,
        scaled(y) == parts.0 * pow2(parts.1),
        scaled(y + 1) == (parts.0 + 1) * pow2(parts.1),
        parts.1 >= 51,
{
    reveal(is_root);
    let b: nat = BINADE as nat;
    let z: nat = pow2(149);
    let below: nat = scaled((y - 1) as nat) + scaled(y);
    let above: nat = scaled(y) + scaled(y + 1);
    lemma2_to64();
    lemma_pow2_pos(149);
    lemma_scaled_mono(0, y);
    if s == 0 {
        assert(0 * z == 0);
        assert(below * below > 0) by (nonlinear_arith)
            requires below > 0;
        assert(false);
    }
    lemma_scaled_mono(0, s);
    assert(4 * (scaled(s) * z) >= 4 * z) by (nonlinear_arith)
        requires scaled(s) >= 1;
    // Twice 2 to the power of 74 would be too small.
    let h: nat = pow2(74);
    lemma_pow2_pos(74);
    lemma_pow2_adds(74, 74);
    lemma_pow2_unfold(149);
    assert(above > 2 * h) by (nonlinear_arith)
        requires above * above >= 8 * (h * h), h > 0;
    if y < b {
        lemma_scaled_step(y);
        lemma_pow2_strictly_increases(30, 74);
        assert(above <= 2 * b);
        assert(false);
    }
    let m: nat = y % b + b;
    let e: nat = (y / b - 1) as nat;
    assert(y == e * b + m) by (nonlinear_arith)
        requires m == y % b + b, e == y / b - 1, b == 0x80_0000, y >= b;
    lemma_scaled_of_parts(m, e);
    lemma_scaled_of_parts(m + 1, e);
    if e < 51 {
        let v: nat = pow2(e);
        if e < 50 {
            lemma_pow2_strictly_increases(e, 50);
        }
        lemma_pow2_adds(24, 50);
        assert(above == (2 * m + 1) * v) by (nonlinear_arith)
            requires above == m * v + (m + 1) * v;
        assert((2 * m + 1) * v < 0x200_0000 * pow2(50)) by (nonlinear_arith)
            requires 2 * m + 1 < 0x200_0000, v <= pow2(50), pow2(50) > 0;
        assert(false);
    }
    (m, e)
}

/// The root of the square of a root is not smaller than that root: neither rounding nor
/// underflow takes away from it.
pub proof fn law_root_of_square(s: nat, y: nat, t: nat, l: nat)
    requires
        is_root(s, y),
        t >= square(y),
        is_root(t, l),
    ensures
        y <= l,
{
    reveal(is_root);
    if t < INFINITY_BITS && y > 0 {
        lemma_square_mono(y, y);
        if s >= INFINITY_BITS {
            lemma_infinite_square();
            assert(false);
        }
        let (m, e): (nat, nat) = lemma_root_normal(s, y);
        if e <= 62 {
            lemma_small_root(s, y, m, e);
            lemma_root_mono(s, t, y, l);
        } else {
            lemma_large_root(y, m, e, t, l);
        }
    }
}

/// Infinity is its own square.
proof fn lemma_infinite_square()
    ensures
        square(INFINITY_BITS as nat) == INFINITY_BITS,
{
    let inf: nat = INFINITY_BITS as nat;
    let x: nat = scaled(inf);
    let z: nat = pow2(149);
    lemma_scaled_of_parts(BINADE as nat, 254);
    lemma_pow2_pos(149);
    lemma_pow2_strictly_increases(149, 254);
    assert(x * x >= x * z) by (nonlinear_arith)
        requires x == 0x80_0000 * pow2(254), pow2(254) > z;
    lemma_rounded(x * x, z);
    lemma_rounded_at_least(x * x, z, inf);
}

/// What reaches a pattern does not round to a lower one.
proof fn lemma_rounded_at_least(num: nat, den: nat, k: nat)
    requires
        den > 0,
        k <= INFINITY_BITS,
        num >= scaled(k) * den,
    ensures
        rounded(num, den) >= k,
{
    let r: nat = rounded(num, den);
    lemma_rounded(num, den);
    if r < k {
        lemma_scaled_mono(r, k);
        lemma_scaled_mono(r + 1, k);
        let high: nat = scaled(r) + scaled(r + 1);
        assert(high * den < 2 * (scaled(k) * den)) by (nonlinear_arith)
            requires high < 2 * scaled(k), den > 0;
        assert(false);
    }
}

/// The square of a small root reaches what it is the root of.
proof fn lemma_small_root(s: nat, y: nat, m: nat, e: nat)
    requires
        0 < s < INFINITY_BITS,
        is_root(s, y),
        y > 0,
        BINADE <= m < 2 * BINADE,
        scaled(y) == m * pow2(e),
        scaled(y + 1) == (m + 1) * pow2(e),
        e <= 62,
    ensures
        s <= square(y),
{
    reveal(is_root);
    let z: nat = pow2(149);
    let v: nat = pow2(e);
    let k: nat = square(y);
    let big: nat = scaled(y);
    lemma_pow2_pos(149);
    lemma_rounded(big * big, z);
    if k < s {
        let p: nat = (s - 1) as nat;
        let high: nat = scaled(k) + scaled(k + 1);
        let above: nat = scaled(y) + scaled(y + 1);
        lemma_scaled_mono(k, p);
        lemma_scaled_mono(k + 1, s);
        lemma_scaled_step(p);
        assert(high + 1 <= 2 * scaled(s));
        assert(high * z + z <= 2 * (scaled(s) * z)) by (nonlinear_arith)
            requires high + 1 <= 2 * scaled(s);
        assert(2 * (big * big) <= high * z);
        assert(above == 2 * big + v) by (nonlinear_arith)
            requires above == big + (m + 1) * v, big == m * v;
        assert(above * above == 4 * (big * big) + (4 * m + 1) * (v * v)) by (nonlinear_arith)
            requires above == 2 * big + v, big == m * v;
        lemma2_to64();
        if e < 62 {
            lemma_pow2_strictly_increases(e, 62);
        }
        let w: nat = pow2(62);
        lemma_pow2_pos(62);
        lemma_pow2_adds(62, 62);
        lemma_pow2_adds(25, 124);
        assert((4 * m + 1) * (v * v) < 0x400_0000 * (w * w)) by (nonlinear_arith)
            requires 4 * m + 1 < 0x400_0000, v <= w, w > 0;
        assert(0x400_0000 * (w * w) == 2 * z);
        assert(false);
    }
}

/// A root that does not underflow when it is squared.
#[verifier::rlimit(40)]
proof fn lemma_large_root(y: nat, m: nat, e: nat, t: nat, l: nat)
    requires
        BINADE <= m < 2 * BINADE,
        y == e * BINADE + m,
        scaled(y) == m * pow2(e),
        e >= 63,
        square(y) <= t < INFINITY_BITS,
        is_root(t, l),
    ensures
        y <= l,
{
    reveal(is_root);
    let b: nat = BINADE as nat;
    let z: nat = pow2(149);
    let k: nat = square(y);
    let big: nat = scaled(y);
    let q: nat = scaled(k);
    let p: nat = (y - 1) as nat;
    // The step below `y`, and the significand of `y` in terms of it.
    let (i, f): (nat, nat) = if m == BINADE {
        (2 * b, (e - 1) as nat)
    } else {
        (m, e)
    };
    let u: nat = pow2(f);
    lemma2_to64();
    lemma_pow2_pos(149);
    lemma_pow2_pos(f);
    if m == BINADE {
        lemma_pow2_unfold(e);
        assert(b * (2 * u) == (2 * b) * u) by (nonlinear_arith);
    }
    assert(big == i * u);
    assert(y == f * b + i) by (nonlinear_arith)
        requires y == e * b + m, (i == m && f == e) || (m == b && i == 2 * b && f == e - 1);
    lemma_scaled_of_parts((i - 1) as nat, f);
    assert(scaled(p) == (i - 1) * u);
    let low: nat = scaled(p) + big;
    assert(low == (2 * i - 1) * u) by (nonlinear_arith)
        requires low == (i - 1) * u + i * u;
    // The square of the next power of two above `y`, or of `y` itself.
    let n: nat = (2 * f - 124) as nat;
    let top: nat = n * b + b;
    lemma_scaled_of_parts(b, n);
    lemma_pow2_adds(f, f);
    lemma_pow2_adds(n, 149);
    lemma_pow2_adds(25, 2 * f);
    let uu: nat = u * u;
    assert(pow2(2 * f) == uu);
    assert(pow2(n) * z == pow2(n + 149));
    assert(n + 149 == 25 + 2 * f);
    assert(scaled(top) * z == 0x1_0000_0000_0000 * uu) by (nonlinear_arith)
        requires scaled(top) == 0x80_0000 * pow2(n), pow2(n) * z == 0x200_0000 * uu;
    lemma_rounded(big * big, z);
    assert(big * big == (i * i) * uu) by (nonlinear_arith)
        requires big == i * u, uu == u * u;
    assert(low * low == ((2 * i - 1) * (2 * i - 1)) * uu) by (nonlinear_arith)
        requires low == (2 * i - 1) * u, uu == u * u;
    let high: nat = q + scaled(k + 1);
    assert(2 * (big * big) <= high * z);
    assert(uu > 0) by (nonlinear_arith)
        requires uu == u * u, u > 0;
    assert(4 * (q * z) > low * low) by {
        if k >= top {
            lemma_scaled_mono(top, k);
            assert(q * z >= scaled(top) * z) by (nonlinear_arith)
                requires q >= scaled(top);
            assert(4 * (0x1_0000_0000_0000 * uu) > ((2 * i - 1) * (2 * i - 1)) * uu)
                by (nonlinear_arith)
                requires b < i <= 2 * b, b == 0x80_0000, uu > 0;
        } else if i == 2 * b {
            lemma_scaled_mono(k, top);
            lemma_scaled_mono(k + 1, top);
            assert(high * z < 2 * (scaled(top) * z)) by (nonlinear_arith)
                requires high < 2 * scaled(top), z > 0;
            assert((i * i) * uu == 0x1_0000_0000_0000 * uu) by (nonlinear_arith)
                requires i == 0x100_0000;
            assert(false);
        } else {
            let w: int = scaled(k + 1) - q;
            let c: nat = pow2((n - 1) as nat);
            lemma_scaled_step(k);
            lemma_pow2_pos((n - 1) as nat);
            lemma_pow2_unfold(n);
            if k >= BINADE {
                assert(k / b <= n) by (nonlinear_arith)
                    requires k < n * b + b, b == 0x80_0000;
                if k / b - 1 < n - 1 {
                    lemma_pow2_strictly_increases((k / b - 1) as nat, (n - 1) as nat);
                }
            }
            assert(w <= c);
            assert(w * z <= 0x100_0000 * uu) by (nonlinear_arith)
                requires w <= c, 2 * c * z == 0x200_0000 * uu, z > 0;
            assert(high * z == 2 * (q * z) + w * z) by (nonlinear_arith)
                requires high == 2 * q + w;
            assert(4 * ((i * i) * uu) - 2 * (0x100_0000 * uu) > ((2 * i - 1) * (2 * i - 1)) * uu)
                by (nonlinear_arith)
                requires i > 0x80_0000, uu > 0;
        }
    }
    if l < y {
        let above: nat = scaled(l) + scaled(l + 1);
        lemma_scaled_mono(l, p);
        lemma_scaled_mono(l + 1, y);
        assert(above * above <= low * low) by (nonlinear_arith)
            requires above <= low;
        lemma_scaled_mono(k, t);
        assert(q * z <= scaled(t) * z) by (nonlinear_arith)
            requires q <= scaled(t);
        assert(false);
    }
}

} // verus!
