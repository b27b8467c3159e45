//! Single-precision (binary32) numbers, held as their bit patterns.
//!
//! The index orders coordinates, compares distances and tests size ratios in
//! single precision. Here a number is its 32-bit pattern, and what the hardware
//! does with it is stated and proved over integers: the order of two numbers, the
//! rounded absolute difference of two coordinates, and the two ratio tests that
//! decide when a tree is rebuilt.
use vstd::arithmetic::power2::*;
use vstd::prelude::*;

verus! {

/// The pattern of positive infinity. Every magnitude above it is a NaN.
pub const INFINITY_BITS: u32 = 0x7f80_0000;

/// The pattern of the NaN that this module returns.
pub const NAN_BITS: u32 = 0x7fc0_0000;

/// The weight of the sign bit.
pub const SIGN_WEIGHT: u32 = 0x8000_0000;

/// The number of patterns that share one exponent: two to the power of 23.
pub const BINADE: u32 = 0x80_0000;

/// The pattern of the number nearest to 7/10.
pub const SEVEN_TENTHS_BITS: u32 = 0x3f33_3333;

/// The pattern of 1/4.
pub const QUARTER_BITS: u32 = 0x3e80_0000;

/// A single-precision number, by its bit pattern.
#[derive(Clone, Copy, PartialEq, Eq, Structural, Debug)]
pub struct Single {
    pub bits: u32,
}

/// The numeric value of the non-negative pattern `k`, counted in units of two to the
/// power of -149, the smallest positive number. For the pattern of infinity this is
/// the value that the next exponent would start with, which is where rounding sends
/// a number that is too large.
pub open spec fn scaled(k: nat) -> nat {
    if k < BINADE {
        k
    } else {
        (k % (BINADE as nat) + BINADE as nat) * pow2((k / (BINADE as nat) - 1) as nat)
    }
}

/// `k` is the pattern nearest to `num / den` units, the even one of two equally near.
pub open spec fn nearest(num: nat, den: nat, k: nat) -> bool {
    &&& k <= INFINITY_BITS
    &&& k < INFINITY_BITS ==> {
        ||| 2 * num < (scaled(k) + scaled(k + 1)) * den
        ||| 2 * num == (scaled(k) + scaled(k + 1)) * den && k % 2 == 0
    }
    &&& k > 0 ==> {
        ||| 2 * num > (scaled((k - 1) as nat) + scaled(k)) * den
        ||| 2 * num == (scaled((k - 1) as nat) + scaled(k)) * den && k % 2 == 0
    }
}

/// `num / den` units rounded to the nearest pattern.
pub open spec fn rounded(num: nat, den: nat) -> nat {
    choose|k: nat| nearest(num, den, k)
}

/// The pattern that a whole number converts to.
pub open spec fn from_whole(n: nat) -> nat {
    rounded(n * pow2(149), 1)
}

impl Single {
    pub open spec fn magnitude(self) -> nat {
        (self.bits % SIGN_WEIGHT) as nat
    }

    pub open spec fn negative(self) -> bool {
        self.bits >= SIGN_WEIGHT
    }

    pub open spec fn nan(self) -> bool {
        self.magnitude() > INFINITY_BITS
    }

    pub open spec fn infinite(self) -> bool {
        self.magnitude() == INFINITY_BITS
    }

    /// The place of the number in the order of all numbers; both zeros share theirs.
    pub open spec fn rank(self) -> int {
        if self.negative() {
            -(self.magnitude() as int)
        } else {
            self.magnitude() as int
        }
    }

    /// The numeric value in units of two to the power of -149.
    pub open spec fn value(self) -> int {
        if self.negative() {
            -(scaled(self.magnitude()) as int)
        } else {
            scaled(self.magnitude()) as int
        }
    }

    /// `self < other`; no comparison with a NaN holds.
    pub open spec fn less(self, other: Single) -> bool {
        !self.nan() && !other.nan() && self.rank() < other.rank()
    }

    /// `self <= other`; no comparison with a NaN holds.
    pub open spec fn at_most(self, other: Single) -> bool {
        !self.nan() && !other.nan() && self.rank() <= other.rank()
    }
}

/// The absolute difference of two numbers, rounded to the nearest number.
pub open spec fn gap(a: Single, b: Single) -> Single {
    if a.nan() || b.nan() || (a.infinite() && b.infinite() && a.negative() == b.negative()) {
        Single { bits: NAN_BITS }
    } else if a.infinite() || b.infinite() {
        Single { bits: INFINITY_BITS }
    } else {
        Single { bits: rounded(abs_int(a.value() - b.value()), 1) as u32 }
    }
}

pub open spec fn abs_int(x: int) -> nat {
    if x < 0 {
        (-x) as nat
    } else {
        x as nat
    }
}

/// `part > 0.7 * whole`, with both counts converted, and the product rounded, to
/// single precision.
pub open spec fn over_seven_tenths(part: nat, whole: nat) -> bool {
    from_whole(part) > rounded(
        scaled(SEVEN_TENTHS_BITS as nat) * scaled(from_whole(whole)),
        pow2(149),
    )
}

/// `part / whole > 0.25`, with both counts converted, and the quotient rounded, to
/// single precision.
pub open spec fn over_quarter(part: nat, whole: nat) -> bool {
    rounded(scaled(from_whole(part)) * pow2(149), scaled(from_whole(whole))) > QUARTER_BITS
}

/// Neighbouring patterns have neighbouring values, one unit in the last place apart.
pub proof fn lemma_scaled_step(k: nat)
    ensures
        scaled(k) < scaled(k + 1),
        k >= BINADE ==> scaled(k + 1) == scaled(k) + pow2((k / (BINADE as nat) - 1) as nat),
        k < BINADE ==> scaled(k + 1) == scaled(k) + 1,
{
    let b: nat = BINADE as nat;
    lemma2_to64();
    if k < BINADE {
        if k + 1 == BINADE {
            assert((k + 1) / b == 1 && (k + 1) % b == 0) by (nonlinear_arith)
                requires k + 1 == b, b == 0x80_0000;
            assert(b * 1 == b);
        }
    } else {
        let e: nat = (k / b - 1) as nat;
        let f: nat = k % b;
        assert(k == (e + 1) * b + f && f < b) by (nonlinear_arith)
            requires e == k / b - 1, f == k % b, b == 0x80_0000, k >= b;
        lemma_pow2_pos(e);
        if f + 1 < b {
            assert((k + 1) / b == e + 1 && (k + 1) % b == f + 1) by (nonlinear_arith)
                requires k == (e + 1) * b + f, f + 1 < b, b == 0x80_0000;
            assert((f + 1 + b) * pow2(e) == (f + b) * pow2(e) + pow2(e)) by (nonlinear_arith);
        } else {
            assert((k + 1) / b == e + 2 && (k + 1) % b == 0) by (nonlinear_arith)
                requires k == (e + 1) * b + f, f + 1 == b, b == 0x80_0000;
            lemma_pow2_unfold(e + 1);
            assert((0 + b) * (2 * pow2(e)) == (f + b) * pow2(e) + pow2(e)) by (nonlinear_arith)
                requires f + 1 == b;
        }
    }
}

/// The order of patterns is the order of their values.
pub proof fn lemma_scaled_mono(j: nat, k: nat)
    ensures
        j <= k ==> scaled(j) <= scaled(k),
        j < k ==> scaled(j) < scaled(k),
    decreases k,
{
    if j < k {
        lemma_scaled_step((k - 1) as nat);
        lemma_scaled_mono(j, (k - 1) as nat);
    }
}

/// Rounding keeps the order of what is rounded.
proof fn lemma_nearest_mono(n1: nat, n2: nat, den: nat, k1: nat, k2: nat)
    requires
        n1 <= n2,
        den > 0,
        nearest(n1, den, k1),
        nearest(n2, den, k2),
    ensures
        k1 <= k2,
{
    if k1 > k2 {
        let p: nat = (k1 - 1) as nat;
        lemma_scaled_mono(k2, p);
        lemma_scaled_mono(k2 + 1, k1);
        let a: nat = scaled(p) + scaled(k1);
        let c: nat = scaled(k2) + scaled(k2 + 1);
        if p > k2 {
            lemma_scaled_mono(k2, p);
            assert(a * den > c * den) by (nonlinear_arith)
                requires a > c, den > 0;
        } else {
            assert(p == k2);
            assert(a == c);
        }
        assert(2 * n1 >= a * den);
        assert(2 * n2 <= c * den);
        assert(false);
    }
}

/// Some pattern up to `top` is the nearest, where nothing above `top` can be.
proof fn lemma_nearest_from(num: nat, den: nat, top: nat) -> (k: nat)
    requires
        top <= INFINITY_BITS,
        top < INFINITY_BITS ==> {
            ||| 2 * num < (scaled(top) + scaled(top + 1)) * den
            ||| 2 * num == (scaled(top) + scaled(top + 1)) * den && top % 2 == 0
        },
    ensures
        nearest(num, den, k),
    decreases top,
{
    if top == 0 {
        top
    } else {
        let s: nat = (scaled((top - 1) as nat) + scaled(top)) * den;
        if 2 * num > s || (2 * num == s && top % 2 == 0) {
            top
        } else {
            lemma_nearest_from(num, den, (top - 1) as nat)
        }
    }
}

/// A nearest pattern exists.
pub proof fn lemma_rounded(num: nat, den: nat)
    ensures
        nearest(num, den, rounded(num, den)),
{
    let k: nat = lemma_nearest_from(num, den, INFINITY_BITS as nat);
    assert(nearest(num, den, k));
}

/// The nearest pattern is unique.
pub proof fn lemma_rounded_is(num: nat, den: nat, k: nat)
    requires
        den > 0,
        nearest(num, den, k),
    ensures
        rounded(num, den) == k,
{
    lemma_rounded(num, den);
    lemma_nearest_mono(num, num, den, k, rounded(num, den));
    lemma_nearest_mono(num, num, den, rounded(num, den), k);
}

/// Between two neighbouring patterns the midpoint decides.
proof fn lemma_nearest_between(num: nat, k: nat)
    requires
        k < INFINITY_BITS,
        scaled(k) <= num < scaled(k + 1),
    ensures
        2 * num < scaled(k) + scaled(k + 1) || (2 * num == scaled(k) + scaled(k + 1) && k % 2 == 0)
            ==> rounded(num, 1) == k,
        2 * num > scaled(k) + scaled(k + 1) || (2 * num == scaled(k) + scaled(k + 1) && k % 2 == 1)
            ==> rounded(num, 1) == k + 1,
{
    lemma_scaled_step(k);
    lemma_scaled_step(k + 1);
    if k > 0 {
        lemma_scaled_step((k - 1) as nat);
    }
    assert((scaled(k) + scaled(k + 1)) * 1 == scaled(k) + scaled(k + 1));
    assert((scaled(k + 1) + scaled(k + 2)) * 1 == scaled(k + 1) + scaled(k + 2));
    if k > 0 {
        let p: nat = (k - 1) as nat;
        assert((scaled(p) + scaled(k)) * 1 == scaled(p) + scaled(k));
    }
    if 2 * num < scaled(k) + scaled(k + 1) || (2 * num == scaled(k) + scaled(k + 1) && k % 2 == 0) {
        assert(nearest(num, 1, k));
        lemma_rounded_is(num, 1, k);
    } else {
        assert(nearest(num, 1, k + 1));
        lemma_rounded_is(num, 1, k + 1);
    }
}

/// The value of a pattern whose significand and exponent are given.
pub proof fn lemma_scaled_of_parts(m: nat, e: nat)
    requires
        m <= 2 * BINADE,
        m >= BINADE || e == 0,
    ensures
        scaled(e * BINADE as nat + m) == m * pow2(e),
{
    let b: nat = BINADE as nat;
    let k: nat = e * b + m;
    lemma2_to64();
    if m < BINADE {
        assert(e * b == 0) by (nonlinear_arith)
            requires e == 0;
        assert(m * 1 == m);
    } else if m < 2 * BINADE {
        assert(k / b == e + 1 && k % b == m - b) by (nonlinear_arith)
            requires k == e * b + m, b <= m < 2 * b, b == 0x80_0000;
    } else {
        assert(k / b == e + 2 && k % b == 0) by (nonlinear_arith)
            requires k == e * b + m, m == 2 * b, b == 0x80_0000;
        lemma_pow2_unfold(e + 1);
        assert((0 + b) * (2 * pow2(e)) == m * pow2(e)) by (nonlinear_arith)
            requires m == 2 * b;
    }
}

/// Splits a pattern into its significand and its exponent.
fn unpack(k: u32) -> (parts: (u64, u32))
    requires
        k <= INFINITY_BITS,
    ensures
        parts.0 * pow2(parts.1 as nat) == scaled(k as nat),
        parts.1 * BINADE + parts.0 == k,
        parts.0 < 2 * BINADE,
        parts.0 >= BINADE || parts.1 == 0,
        parts.1 <= 254,
{
    if k < BINADE {
        proof {
            lemma_scaled_of_parts(k as nat, 0);
        }
        (k as u64, 0)
    } else {
        let m: u32 = k % BINADE + BINADE;
        let e: u32 = k / BINADE - 1;
        proof {
            lemma_scaled_of_parts(m as nat, e as nat);
        }
        (m as u64, e)
    }
}

/// Two to the power of `n`.
fn two_to(n: u32) -> (p: u64)
    requires
        n < 64,
    ensures
        p == pow2(n as nat),
{
    let mut p: u64 = 1;
    let mut i: u32 = 0;
    proof {
        lemma2_to64();
        lemma2_to64_rest();
    }
    while i < n
        invariant
            i <= n < 64,
            p == pow2(i as nat),
            pow2(63) == 0x8000_0000_0000_0000,
        decreases n - i,
    {
        proof {
            lemma_pow2_unfold((i + 1) as nat);
            if i + 1 < 63 {
                lemma_pow2_strictly_increases((i + 1) as nat, 63);
            }
        }
        p = p * 2;
        i = i + 1;
    }
    p
}

/// The pattern nearest to `x` times two to the power of `s` units.
fn pack(x: u64, s: u32) -> (k: u32)
    requires
        s <= 1000,
    ensures
        k == rounded(x as nat * pow2(s as nat), 1),
        k <= INFINITY_BITS,
{
    let ghost exact: nat = x as nat * pow2(s as nat);
    let mut m: u64 = x;
    let mut e: u32 = s;
    while m < BINADE as u64 && e > 0
        invariant
            e <= 1000,
            m * pow2(e as nat) == exact,
        decreases e,
    {
        proof {
            lemma_pow2_unfold(e as nat);
            let p: nat = pow2((e - 1) as nat);
            assert(m * (2 * p) == (m * 2) * p) by (nonlinear_arith);
        }
        m = m * 2;
        e = e - 1;
    }
    let mut t: u32 = 0;
    let mut p: u64 = 1;
    proof {
        lemma2_to64();
    }
    while m / p >= 2 * BINADE as u64
        invariant
            p == pow2(t as nat),
            t <= 40,
            0 < p <= 0x100_0000_0000,
            t > 0 ==> m / p >= BINADE,
            m >= BINADE || e == 0,
            t == 0 ==> p == 1,
        decreases 41 - t,
    {
        proof {
            let mi: int = m as int;
            let pi: int = p as int;
            lemma_pow2_unfold((t + 1) as nat);
            assert(pi < 0x100_0000_0000) by (nonlinear_arith)
                requires mi / pi >= 0x100_0000, 0 <= mi < 0x1_0000_0000_0000_0000, pi > 0;
            lemma2_to64_rest();
            assert(t < 40);
            if t + 1 < 40 {
                lemma_pow2_strictly_increases((t + 1) as nat, 40);
            }
            assert(mi / (2 * pi) >= 0x80_0000) by (nonlinear_arith)
                requires mi / pi >= 0x100_0000, pi > 0;
        }
        p = p * 2;
        t = t + 1;
    }
    let q: u64 = m / p;
    let r: u64 = m % p;
    let top: u32 = e + t;
    let ghost w: nat = pow2(top as nat);
    proof {
        lemma_pow2_adds(e as nat, t as nat);
        let pe: nat = pow2(e as nat);
        lemma_pow2_pos(e as nat);
        assert(m == q * p + r && r < p) by (nonlinear_arith)
            requires q == m / p, r == m % p, p > 0;
        assert(exact == q * w + r * pe) by (nonlinear_arith)
            requires exact == m * pe, m == q * p + r, w == pe * p;
        assert(r * pe < w) by (nonlinear_arith)
            requires r < p, w == pe * p, pe > 0;
        assert((q + 1) * w == q * w + w) by (nonlinear_arith);
    }
    if top >= 254 {
        proof {
            if q >= BINADE {
                lemma_too_large(exact, q as nat, top as nat);
            } else {
                assert(false);
            }
        }
        return INFINITY_BITS;
    }
    let k: u32 = top * BINADE + q as u32;
    proof {
        lemma_scaled_of_parts(q as nat, top as nat);
        lemma_scaled_of_parts((q + 1) as nat, top as nat);
        lemma_nearest_between(exact, k as nat);
        let pe: nat = pow2(e as nat);
        assert(2 * exact == scaled(k as nat) + scaled((k + 1) as nat) + 2 * (r * pe) - w);
        assert(2 * (r * pe) - w == (2 * r - p) * pe) by (nonlinear_arith)
            requires w == pe * p;
        assert(2 * r > p ==> (2 * r - p) * pe > 0) by (nonlinear_arith)
            requires pe > 0;
        assert(2 * r == p ==> (2 * r - p) * pe == 0) by (nonlinear_arith);
        assert(2 * r < p ==> (2 * r - p) * pe < 0) by (nonlinear_arith)
            requires pe > 0;
        assert(k as int % 2 == q as int % 2) by (nonlinear_arith)
            requires k == top * 0x80_0000 + q;
    }
    if r > p - r || (r == p - r && q % 2 == 1) {
        k + 1
    } else {
        k
    }
}

/// A number that reaches the last exponent rounds to infinity.
proof fn lemma_too_large(num: nat, q: nat, e: nat)
    requires
        q >= BINADE,
        e >= 254,
        num >= q * pow2(e),
    ensures
        rounded(num, 1) == INFINITY_BITS,
{
    let b: nat = BINADE as nat;
    let inf: nat = INFINITY_BITS as nat;
    lemma_scaled_of_parts(b, 254);
    assert(254 * b + b == inf);
    if e > 254 {
        lemma_pow2_strictly_increases(254, e);
    }
    assert(q * pow2(e) >= b * pow2(254)) by (nonlinear_arith)
        requires q >= b, pow2(e) >= pow2(254);
    lemma_scaled_step((inf - 1) as nat);
    let s: nat = scaled((inf - 1) as nat) + scaled(inf);
    assert(s * 1 == s);
    assert(nearest(num, 1, inf));
    lemma_rounded_is(num, 1, inf);
}

impl Single {
    pub fn is_nan(self) -> (b: bool)
        ensures
            b == self.nan(),
    {
        self.bits % SIGN_WEIGHT > INFINITY_BITS
    }

    /// `self < other`, false where either is a NaN.
    pub fn lt(self, other: Single) -> (b: bool)
        ensures
            b == self.less(other),
    {
        if self.is_nan() || other.is_nan() {
            return false;
        }
        let a: u32 = self.bits % SIGN_WEIGHT;
        let c: u32 = other.bits % SIGN_WEIGHT;
        if self.bits >= SIGN_WEIGHT {
            if other.bits >= SIGN_WEIGHT {
                a > c
            } else {
                a > 0 || c > 0
            }
        } else if other.bits >= SIGN_WEIGHT {
            false
        } else {
            a < c
        }
    }

    /// `self <= other`, false where either is a NaN.
    pub fn le(self, other: Single) -> (b: bool)
        ensures
            b == self.at_most(other),
    {
        !self.is_nan() && !other.is_nan() && !other.lt(self)
    }

    /// The absolute difference of two numbers, rounded to the nearest number.
    pub fn abs_diff(self, other: Single) -> (r: Single)
        ensures
            r == gap(self, other),
    {
        let a: u32 = self.bits % SIGN_WEIGHT;
        let b: u32 = other.bits % SIGN_WEIGHT;
        let same_sign: bool = (self.bits >= SIGN_WEIGHT) == (other.bits >= SIGN_WEIGHT);
        if a > INFINITY_BITS || b > INFINITY_BITS {
            return Single { bits: NAN_BITS };
        }
        if a == INFINITY_BITS || b == INFINITY_BITS {
            if a == b && same_sign {
                return Single { bits: NAN_BITS };
            }
            return Single { bits: INFINITY_BITS };
        }
        let (hi, lo): (u32, u32) = if a >= b {
            (a, b)
        } else {
            (b, a)
        };
        let (mh, sh): (u64, u32) = unpack(hi);
        let (ml, sl): (u64, u32) = unpack(lo);
        let ghost exact: nat = abs_int(self.value() - other.value());
        proof {
            lemma_scaled_mono(lo as nat, hi as nat);
            assert(exact == if same_sign {
                scaled(hi as nat) - scaled(lo as nat)
            } else {
                (scaled(hi as nat) + scaled(lo as nat)) as int
            });
            if sh < sl {
                assert(hi < lo) by (nonlinear_arith)
                    requires sh * 0x80_0000 + mh == hi, sl * 0x80_0000 + ml == lo, sh + 1 <= sl,
                        mh < 0x100_0000, ml >= 0x80_0000, mh < 0x80_0000 ==> sh == 0,
                        hi >= lo;
            }
        }
        if sh - sl >= 27 {
            proof {
                lemma_far_apart(hi as nat, lo as nat, mh as nat, sh as nat, ml as nat, sl as nat);
            }
            return Single { bits: hi };
        }
        let f: u64 = two_to(sh - sl);
        proof {
            lemma2_to64();
            if sh - sl < 26 {
                lemma_pow2_strictly_increases((sh - sl) as nat, 26);
            }
        }
        assert(mh * f <= 0x100_0000 * 0x400_0000) by (nonlinear_arith)
            requires mh < 0x100_0000, f <= 0x400_0000;
        let wide: u64 = mh * f;
        proof {
            let w: nat = pow2(sl as nat);
            lemma_pow2_adds((sh - sl) as nat, sl as nat);
            lemma_pow2_pos(sl as nat);
            assert(wide * w == scaled(hi as nat)) by (nonlinear_arith)
                requires wide == mh * f, f * w == pow2(sh as nat),
                    mh * pow2(sh as nat) == scaled(hi as nat);
            assert(wide >= ml) by (nonlinear_arith)
                requires wide * w >= ml * w, w > 0;
            assert((wide - ml) * w == wide * w - ml * w) by (nonlinear_arith);
            assert((wide + ml) * w == wide * w + ml * w) by (nonlinear_arith);
        }
        let x: u64 = if same_sign {
            wide - ml
        } else {
            wide + ml
        };
        Single { bits: pack(x, sl) }
    }
}

/// A number that is far smaller than another does not change it by more than half
/// a unit in its last place.
proof fn lemma_far_apart(hi: nat, lo: nat, mh: nat, sh: nat, ml: nat, sl: nat)
    requires
        hi < INFINITY_BITS,
        sh >= sl + 27,
        hi == sh * BINADE + mh,
        BINADE <= mh < 2 * BINADE,
        ml < 2 * BINADE,
        scaled(lo) == ml * pow2(sl),
    ensures
        scaled(lo) <= scaled(hi),
        rounded(scaled(hi) + scaled(lo), 1) == hi,
        rounded((scaled(hi) - scaled(lo)) as nat, 1) == hi,
{
    let b: nat = BINADE as nat;
    let u: nat = pow2((sh - 3) as nat);
    lemma2_to64();
    lemma_pow2_adds(24, sl);
    lemma_pow2_pos(sl);
    if sl + 24 < sh - 3 {
        lemma_pow2_strictly_increases(sl + 24, (sh - 3) as nat);
    }
    assert(ml * pow2(sl) < 0x100_0000 * pow2(sl)) by (nonlinear_arith)
        requires ml < 0x100_0000, pow2(sl) > 0;
    assert(scaled(lo) < u);
    lemma_pow2_adds(3, (sh - 3) as nat);
    lemma_pow2_adds(2, (sh - 3) as nat);
    assert(pow2(sh) == 8 * u);
    assert(pow2((sh - 1) as nat) == 4 * u);
    assert(hi / b == sh + 1) by (nonlinear_arith)
        requires hi == sh * b + mh, b <= mh < 2 * b, b == 0x80_0000;
    lemma_scaled_step(hi);
    let below: nat = (hi - 1) as nat;
    lemma_scaled_step(below);
    assert(below / b == sh + 1 || below / b == sh) by (nonlinear_arith)
        requires below == sh * b + mh - 1, b <= mh < 2 * b, b == 0x80_0000;
    lemma_scaled_of_parts(mh, sh);
    assert(scaled(hi) >= 4 * u);
    assert((scaled(hi) + scaled(hi + 1)) * 1 == scaled(hi) + scaled(hi + 1));
    assert((scaled(below) + scaled(hi)) * 1 == scaled(below) + scaled(hi));
    assert(nearest(scaled(hi) + scaled(lo), 1, hi));
    assert(nearest((scaled(hi) - scaled(lo)) as nat, 1, hi));
    lemma_rounded_is(scaled(hi) + scaled(lo), 1, hi);
    lemma_rounded_is((scaled(hi) - scaled(lo)) as nat, 1, hi);
}

/// A number that a pattern holds exactly rounds to that pattern.
pub proof fn lemma_exact(k: nat)
    requires
        k <= INFINITY_BITS,
    ensures
        rounded(scaled(k), 1) == k,
{
    lemma_scaled_step(k);
    assert((scaled(k) + scaled(k + 1)) * 1 == scaled(k) + scaled(k + 1));
    if k > 0 {
        let p: nat = (k - 1) as nat;
        lemma_scaled_step(p);
        assert((scaled(p) + scaled(k)) * 1 == scaled(p) + scaled(k));
    }
    assert(nearest(scaled(k), 1, k));
    lemma_rounded_is(scaled(k), 1, k);
}

/// Rounding keeps the order of what is rounded.
pub proof fn lemma_rounded_mono(n1: nat, n2: nat, den: nat)
    requires
        n1 <= n2,
        den > 0,
    ensures
        rounded(n1, den) <= rounded(n2, den),
{
    lemma_rounded(n1, den);
    lemma_rounded(n2, den);
    lemma_nearest_mono(n1, n2, den, rounded(n1, den), rounded(n2, den));
}

/// A common factor of numerator and denominator does not change the rounding.
proof fn lemma_rounded_factor(num: nat, den: nat, c: nat)
    requires
        den > 0,
        c > 0,
    ensures
        rounded(num * c, den * c) == rounded(num, den),
{
    let k: nat = rounded(num, den);
    lemma_rounded(num, den);
    let p: nat = (k - 1) as nat;
    let hi: nat = scaled(k) + scaled(k + 1);
    assert(hi * (den * c) == (hi * den) * c) by (nonlinear_arith);
    assert(2 * (num * c) == (2 * num) * c) by (nonlinear_arith);
    assert(2 * num < hi * den ==> (2 * num) * c < (hi * den) * c) by (nonlinear_arith)
        requires c > 0;
    if k > 0 {
        let lo: nat = scaled(p) + scaled(k);
        assert(lo * (den * c) == (lo * den) * c) by (nonlinear_arith);
        assert(2 * num > lo * den ==> (2 * num) * c > (lo * den) * c) by (nonlinear_arith)
            requires c > 0;
    }
    assert(nearest(num * c, den * c, k));
    assert(den * c > 0) by (nonlinear_arith)
        requires den > 0, c > 0;
    lemma_rounded_is(num * c, den * c, k);
}

/// A whole number from 1 on converts to the pattern of 1 or to a larger one.
proof fn lemma_from_whole(n: nat)
    ensures
        from_whole(n) <= INFINITY_BITS,
        n == 0 ==> from_whole(n) == 0,
        n >= 1 ==> from_whole(n) >= 0x3f80_0000,
        scaled(0x3f80_0000) == pow2(149),
{
    let b: nat = BINADE as nat;
    lemma_rounded(n * pow2(149), 1);
    lemma_scaled_of_parts(b, 126);
    lemma2_to64();
    lemma_pow2_adds(23, 126);
    lemma_exact(0x3f80_0000);
    lemma_exact(0);
    if n == 0 {
        assert(n * pow2(149) == 0);
        assert(scaled(0) == 0);
    } else {
        assert(n * pow2(149) >= pow2(149)) by (nonlinear_arith)
            requires n >= 1;
        lemma_rounded_mono(pow2(149), n * pow2(149), 1);
    }
}

proof fn lemma_from_whole_mono(a: nat, b: nat)
    requires
        a <= b,
    ensures
        from_whole(a) <= from_whole(b),
{
    assert(a * pow2(149) <= b * pow2(149)) by (nonlinear_arith)
        requires a <= b;
    lemma_rounded_mono(a * pow2(149), b * pow2(149), 1);
}

/// `part > 0.7 * whole` in single precision.
pub fn exceeds_seven_tenths(part: usize, whole: usize) -> (b: bool)
    ensures
        b == over_seven_tenths(part as nat, whole as nat),
        whole <= 0x20_0000 ==> b == (10 * part > 7 * whole),
        5 * part > 4 * whole ==> b,
        3 * part <= 2 * whole ==> !b,
{
    proof {
        law_seven_tenths_at_any_size(part as nat, whole as nat);
        if whole <= 0x20_0000 {
            law_seven_tenths_of_counts(part as nat, whole as nat);
        }
    }
    let a: u32 = pack(part as u64, 149);
    let w: u32 = pack(whole as u64, 149);
    let (m, s): (u64, u32) = unpack(w);
    proof {
        lemma_from_whole(whole as nat);
        lemma_scaled_of_parts(0xb3_3333, 125);
        lemma_pow2_pos(149);
    }
    if whole == 0 {
        proof {
            let c: nat = scaled(SEVEN_TENTHS_BITS as nat);
            assert(scaled(0) == 0);
            assert(c * 0 == 0);
            assert(0 * pow2(149) == 0);
            lemma_rounded_factor(0, 1, pow2(149));
            lemma_exact(0);
        }
        return a > 0;
    }
    assert(s >= 24) by (nonlinear_arith)
        requires s * 0x80_0000 + m >= 0x3f80_0000, m < 0x100_0000;
    let product: u32 = pack(0xb3_3333 * m, s - 24);
    proof {
        let c: nat = scaled(SEVEN_TENTHS_BITS as nat);
        let x: nat = (0xb3_3333 * m) as nat;
        let t: nat = (s - 24) as nat;
        lemma_pow2_adds(125, s as nat);
        lemma_pow2_adds(t, 149);
        assert(c * scaled(w as nat) == (x * pow2(t)) * pow2(149)) by (nonlinear_arith)
            requires c == 0xb3_3333 * pow2(125), scaled(w as nat) == m * pow2(s as nat),
                x == 0xb3_3333 * m, pow2(125) * pow2(s as nat) == pow2(t) * pow2(149);
        assert(1 * pow2(149) == pow2(149));
        lemma_rounded_factor(x * pow2(t), 1, pow2(149));
    }
    a > product
}

/// Whether a rounded quotient lies above 1/4 is decided by the quotient itself.
proof fn lemma_above_quarter(num: nat, den: nat)
    requires
        den > 0,
    ensures
        rounded(num, den) > QUARTER_BITS <==> 2 * num > (0x100_0001 * pow2(124)) * den,
{
    let q: nat = QUARTER_BITS as nat;
    let k: nat = rounded(num, den);
    lemma_rounded(num, den);
    lemma_scaled_of_parts(BINADE as nat, 124);
    lemma_scaled_of_parts((BINADE + 1) as nat, 124);
    let s: nat = scaled(q) + scaled(q + 1);
    assert(s == 0x100_0001 * pow2(124)) by (nonlinear_arith)
        requires s == 0x80_0000 * pow2(124) + 0x80_0001 * pow2(124);
    if k > q {
        let p: nat = (k - 1) as nat;
        let lo: nat = scaled(p) + scaled(k);
        lemma_scaled_mono(q, p);
        lemma_scaled_mono(q + 1, k);
        if p > q {
            assert(lo * den > s * den) by (nonlinear_arith)
                requires lo > s, den > 0;
        } else {
            assert(lo == s);
        }
    } else {
        let hi: nat = scaled(k) + scaled(k + 1);
        lemma_scaled_mono(k, q);
        lemma_scaled_mono(k + 1, q + 1);
        assert(hi * den <= s * den) by (nonlinear_arith)
            requires hi <= s;
    }
}

/// `part / whole > 0.25` in single precision.
pub fn exceeds_quarter(part: usize, whole: usize) -> (b: bool)
    requires
        whole > 0,
    ensures
        b == over_quarter(part as nat, whole as nat),
        whole < 0x100_0000 ==> b == (4 * part > whole),
        3 * part > whole ==> b,
        5 * part <= whole ==> !b,
{
    proof {
        law_quarter_at_any_size(part as nat, whole as nat);
        if whole < 0x100_0000 {
            law_quarter_of_counts(part as nat, whole as nat);
        }
    }
    let d: u32 = pack(part as u64, 149);
    let t: u32 = pack(whole as u64, 149);
    let (md, sd): (u64, u32) = unpack(d);
    let (mt, st): (u64, u32) = unpack(t);
    let ghost num: nat = scaled(d as nat) * pow2(149);
    let ghost den: nat = scaled(t as nat);
    proof {
        lemma_from_whole(whole as nat);
        lemma_scaled_mono(0, t as nat);
        lemma_above_quarter(num, den);
        lemma_quarter_test(md as nat, sd as nat, mt as nat, st as nat);
    }
    let lhs: u64 = md * 0x400_0000;
    let rhs: u64 = mt * 0x100_0001;
    proof {
        lemma_pow2_pos(sd as nat);
        lemma_pow2_pos(st as nat);
        assert(mt > 0) by (nonlinear_arith)
            requires mt * pow2(st as nat) > 0;
    }
    if sd >= st {
        let shift: u32 = sd - st;
        proof {
            lemma_pow2_adds(shift as nat, st as nat);
            let f: nat = pow2(shift as nat);
            let w: nat = pow2(st as nat);
            assert(lhs * pow2(sd as nat) == (lhs * f) * w) by (nonlinear_arith)
                requires pow2(sd as nat) == f * w;
            assert((lhs * f) * w > rhs * w <==> lhs * f > rhs) by (nonlinear_arith)
                requires w > 0;
        }
        if shift >= 60 {
            proof {
                let f: nat = pow2(shift as nat);
                lemma2_to64_rest();
                if shift > 60 {
                    lemma_pow2_strictly_increases(60, shift as nat);
                }
                assert(lhs > 0 ==> lhs * f > rhs) by (nonlinear_arith)
                    requires f >= 0x1000_0000_0000_0000, rhs < 0x100_0000 * 0x100_0001;
                assert(0 * f == 0);
            }
            return lhs > 0;
        }
        let f: u64 = two_to(shift);
        assert(lhs * f <= 0x4_0000_0000_0000 * 0x1_0000_0000_0000_0000) by (nonlinear_arith)
            requires lhs <= 0x4_0000_0000_0000, f <= 0x1_0000_0000_0000_0000;
        lhs as u128 * f as u128 > rhs as u128
    } else {
        let shift: u32 = st - sd;
        proof {
            lemma_pow2_adds(shift as nat, sd as nat);
            let f: nat = pow2(shift as nat);
            let w: nat = pow2(sd as nat);
            assert(rhs * pow2(st as nat) == (rhs * f) * w) by (nonlinear_arith)
                requires pow2(st as nat) == f * w;
            assert(lhs * w > (rhs * f) * w <==> lhs > rhs * f) by (nonlinear_arith)
                requires w > 0;
        }
        if shift >= 60 {
            proof {
                let f: nat = pow2(shift as nat);
                lemma2_to64_rest();
                if shift > 60 {
                    lemma_pow2_strictly_increases(60, shift as nat);
                }
                assert(rhs * f > lhs) by (nonlinear_arith)
                    requires f >= 0x1000_0000_0000_0000, lhs <= 0x4_0000_0000_0000, rhs > 0;
            }
            return false;
        }
        let f: u64 = two_to(shift);
        assert(rhs * f <= 0x8_0000_0000_0000 * 0x1_0000_0000_0000_0000) by (nonlinear_arith)
            requires rhs <= 0x8_0000_0000_0000, f <= 0x1_0000_0000_0000_0000;
        lhs as u128 > rhs as u128 * f as u128
    }
}

/// The quarter test on split numbers, without the factors that both sides share.
proof fn lemma_quarter_test(md: nat, sd: nat, mt: nat, st: nat)
    ensures
        2 * ((md * pow2(sd)) * pow2(149)) > (0x100_0001 * pow2(124)) * (mt * pow2(st)) <==> (md
            * 0x400_0000) * pow2(sd) > (mt * 0x100_0001) * pow2(st),
{
    let w: nat = pow2(124);
    lemma2_to64();
    lemma_pow2_adds(25, 124);
    lemma_pow2_pos(124);
    let l: nat = (md * 0x400_0000) * pow2(sd);
    let r: nat = (mt * 0x100_0001) * pow2(st);
    assert(2 * ((md * pow2(sd)) * pow2(149)) == l * w) by (nonlinear_arith)
        requires pow2(149) == 0x200_0000 * w, l == (md * 0x400_0000) * pow2(sd);
    assert((0x100_0001 * w) * (mt * pow2(st)) == r * w) by (nonlinear_arith)
        requires r == (mt * 0x100_0001) * pow2(st);
    assert(l * w > r * w <==> l > r) by (nonlinear_arith)
        requires w > 0;
}

/// Nothing is no share of anything.
pub proof fn lemma_nothing_within(whole: nat)
    ensures
        !over_seven_tenths(0, whole),
        whole > 0 ==> !over_quarter(0, whole),
{
    lemma_from_whole(0);
    if whole > 0 {
        let den: nat = scaled(from_whole(whole));
        lemma_from_whole(whole);
        lemma_scaled_mono(0, from_whole(whole));
        lemma_above_quarter(0 * pow2(149), den);
        assert((0x100_0001 * pow2(124)) * den >= 0) by (nonlinear_arith);
    }
}

/// A share that does not exceed a quarter is less than the whole.
pub proof fn lemma_within_quarter(part: nat, whole: nat)
    requires
        whole > 0,
        !over_quarter(part, whole),
    ensures
        part < whole,
{
    if part >= whole {
        let den: nat = scaled(from_whole(whole));
        let n: nat = scaled(from_whole(part));
        lemma_from_whole(whole);
        lemma_from_whole_mono(whole, part);
        lemma_scaled_mono(0, from_whole(whole));
        lemma_scaled_mono(from_whole(whole), from_whole(part));
        lemma_above_quarter(n * pow2(149), den);
        lemma2_to64();
        lemma_pow2_adds(25, 124);
        lemma_pow2_pos(124);
        let w: nat = pow2(124);
        assert(2 * (n * pow2(149)) > (0x100_0001 * w) * den) by (nonlinear_arith)
            requires pow2(149) == 0x200_0000 * w, n >= den, den > 0, w > 0;
    }
}

/// A count and the single-precision number that it converts to differ by at most one
/// part in two to the power of 24.
proof fn lemma_from_whole_close(n: nat)
    requires
        n >= 1,
    ensures
        scaled(from_whole(n)) * 0xff_ffff <= n * pow2(149) * 0x100_0000,
        from_whole(n) < INFINITY_BITS ==> n * pow2(149) * 0x100_0000 <= scaled(from_whole(n))
            * 0x100_0001,
{
    let k: nat = from_whole(n);
    let x: nat = n * pow2(149);
    let b: nat = BINADE as nat;
    let below: nat = (k - 1) as nat;
    lemma_from_whole(n);
    lemma_rounded(x, 1);
    lemma_scaled_step(below);
    lemma_scaled_step(k);
    assert((scaled(below) + scaled(k)) * 1 == scaled(below) + scaled(k));
    assert((scaled(k) + scaled(k + 1)) * 1 == scaled(k) + scaled(k + 1));
    let u: nat = pow2((below / b - 1) as nat);
    let w: nat = pow2((k / b - 1) as nat);
    assert(scaled(below) >= b * u) by (nonlinear_arith)
        requires scaled(below) == (below % b + b) * u;
    assert(scaled(k) >= b * w) by (nonlinear_arith)
        requires scaled(k) == (k % b + b) * w;
}

/// Two thirds of a whole are not more than seven tenths of it.
pub proof fn lemma_two_thirds_within(part: nat, whole: nat)
    requires
        3 * part <= 2 * whole,
        from_whole(whole) < INFINITY_BITS,
    ensures
        !over_seven_tenths(part, whole),
{
    if part == 0 {
        lemma_nothing_within(whole);
    } else {
        let c: nat = scaled(SEVEN_TENTHS_BITS as nat);
        let s: nat = scaled(from_whole(part));
        let w: nat = scaled(from_whole(whole));
        let z: nat = pow2(149);
        lemma_from_whole_close(part);
        lemma_from_whole_close(whole);
        lemma_scaled_of_parts(0xb3_3333, 125);
        lemma2_to64();
        lemma_pow2_adds(24, 125);
        lemma_pow2_pos(149);
        assert(3 * (part * z) <= 2 * (whole * z)) by (nonlinear_arith)
            requires 3 * part <= 2 * whole;
        assert(3 * (s * 0xff_ffff) <= 2 * (w * 0x100_0001));
        assert(s * 0x100_0000 <= w * 0xb3_3333);
        let e: nat = pow2(125);
        assert(s * z <= c * w) by (nonlinear_arith)
            requires z == 0x100_0000 * e, c == 0xb3_3333 * e, s * 0x100_0000 <= w * 0xb3_3333;
        lemma_from_whole(part);
        lemma_exact(from_whole(part));
        assert(1 * z == z);
        lemma_rounded_factor(s, 1, z);
        lemma_rounded_mono(s * z, c * w, z);
    }
}

/// Half of a whole is not more than seven tenths of it.
pub proof fn lemma_half_within(part: nat, whole: nat)
    requires
        2 * part <= whole,
        from_whole(whole) < INFINITY_BITS,
    ensures
        !over_seven_tenths(part, whole),
{
    lemma_two_thirds_within(part, whole);
}

/// Every count of the machine converts to a finite number.
pub proof fn lemma_count_finite(n: nat)
    requires
        n <= usize::MAX,
    ensures
        from_whole(n) < INFINITY_BITS,
{
    let b: nat = BINADE as nat;
    let k: nat = 0x5f80_0000;
    lemma_scaled_of_parts(b, 190);
    lemma2_to64();
    lemma2_to64_rest();
    lemma_pow2_adds(23, 190);
    lemma_pow2_adds(64, 149);
    assert(scaled(k) == pow2(213));
    assert(n * pow2(149) <= pow2(64) * pow2(149)) by (nonlinear_arith)
        requires n <= pow2(64);
    lemma_exact(k);
    lemma_rounded_mono(n * pow2(149), pow2(213), 1);
}

/// Some pattern holds `m` times two to the power of `e` units exactly.
proof fn lemma_representable(m: nat, e: nat) -> (k: nat)
    requires
        m <= 2 * BINADE,
        e <= 200,
    ensures
        k <= INFINITY_BITS,
        scaled(k) == m * pow2(e),
    decreases e,
{
    if m >= BINADE || e == 0 {
        lemma_scaled_of_parts(m, e);
        assert(e * BINADE <= 200 * BINADE) by (nonlinear_arith)
            requires e <= 200;
        e * BINADE as nat + m
    } else {
        let p: nat = pow2((e - 1) as nat);
        lemma_pow2_unfold(e);
        assert((2 * m) * p == m * (2 * p)) by (nonlinear_arith);
        lemma_representable(2 * m, (e - 1) as nat)
    }
}

/// Counts up to two to the power of 24 convert without rounding.
proof fn lemma_from_whole_exact(n: nat)
    requires
        n <= 0x100_0000,
    ensures
        scaled(from_whole(n)) == n * pow2(149),
{
    let k: nat = lemma_representable(n, 149);
    lemma_exact(k);
}

/// Below two to the power of 24, a count exceeds a quarter of another in single precision
/// iff it does so as a whole number.
#[verifier::rlimit(40)]
pub proof fn law_quarter_of_counts(part: nat, whole: nat)
    requires
        0 < whole < 0x100_0000,
    ensures
        over_quarter(part, whole) <==> 4 * part > whole,
{
    let z: nat = pow2(149);
    let w: nat = pow2(124);
    let s: nat = scaled(from_whole(part));
    let den: nat = scaled(from_whole(whole));
    lemma2_to64();
    lemma_pow2_adds(25, 124);
    lemma_pow2_pos(124);
    lemma_from_whole_exact(whole);
    assert(den > 0) by (nonlinear_arith)
        requires den == whole * z, whole > 0, z > 0;
    lemma_above_quarter(s * z, den);
    // A part that is too large to convert exactly exceeds any share of the whole.
    let n: nat = if part <= 0x100_0000 {
        part
    } else {
        0x100_0000
    };
    lemma_from_whole_exact(n);
    lemma_from_whole_mono(n, part);
    lemma_scaled_mono(from_whole(n), from_whole(part));
    let bar: nat = (0x100_0001 * w) * den;
    assert(2 * ((n * z) * z) > bar <==> 0x400_0000 * n > 0x100_0001 * whole) by (nonlinear_arith)
        requires bar == (0x100_0001 * w) * (whole * z), z == 0x200_0000 * w, w > 0;
    assert(2 * (s * z) >= 2 * ((n * z) * z)) by (nonlinear_arith)
        requires s >= n * z;
}

/// The step below a pattern, by the value of the pattern.
proof fn lemma_step_below(k: nat)
    requires
        k > BINADE,
    ensures
        ({
            let u: int = scaled(k) - scaled((k - 1) as nat);
            &&& u > 0
            &&& u * 0x80_0000 <= scaled(k)
            &&& scaled(k) <= u * 0x100_0000
        }),
{
    let b: nat = BINADE as nat;
    let below: nat = (k - 1) as nat;
    let u: nat = pow2((below / b - 1) as nat);
    lemma_scaled_step(below);
    lemma_pow2_pos((below / b - 1) as nat);
    assert(0x80_0000 * u <= scaled(below) <= 0xff_ffff * u) by (nonlinear_arith)
        requires scaled(below) == (below % b + b) * u, b == 0x80_0000;
}

/// Up to two to the power of 21, a count exceeds seven tenths of another in single precision
/// iff it does so as a whole number, although no number is 7/10 exactly.
#[verifier::rlimit(40)]
pub proof fn law_seven_tenths_of_counts(part: nat, whole: nat)
    requires
        whole <= 0x20_0000,
    ensures
        over_seven_tenths(part, whole) <==> 10 * part > 7 * whole,
{
    let z: nat = pow2(149);
    let e: nat = pow2(125);
    let c: nat = scaled(SEVEN_TENTHS_BITS as nat);
    let product: nat = 0xb3_3333 * whole * e;
    lemma2_to64();
    lemma_pow2_adds(24, 125);
    lemma_pow2_pos(125);
    lemma_scaled_of_parts(0xb3_3333, 125);
    lemma_from_whole_exact(whole);
    assert(c * (whole * z) == product * z) by (nonlinear_arith)
        requires c == 0xb3_3333 * e, product == 0xb3_3333 * whole * e;
    assert(1 * z == z);
    lemma_rounded_factor(product, 1, z);
    let r: nat = rounded(product, 1);
    lemma_rounded(product, 1);
    if 10 * part > 7 * whole {
        let least: nat = 7 * whole / 10 + 1;
        lemma_from_whole_mono(least, part);
        lemma_from_whole_exact(least);
        lemma_from_whole(least);
        let k: nat = from_whole(least);
        let p: nat = (k - 1) as nat;
        lemma_step_below(k);
        if r >= k {
            let q: nat = (r - 1) as nat;
            lemma_scaled_mono(p, q);
            lemma_scaled_mono(k, r);
            assert((scaled(q) + scaled(r)) * 1 == scaled(q) + scaled(r));
            assert(2 * product >= scaled(p) + scaled(k));
            assert(least * z == 0x100_0000 * (least * e)) by (nonlinear_arith)
                requires z == 0x100_0000 * e;
            assert(scaled(k) - scaled(p) <= 2 * (least * e));
            assert(2 * product < 2 * (0x100_0000 * (least * e)) - 2 * (least * e))
                by (nonlinear_arith)
                requires product == 0xb3_3333 * whole * e, 10 * least > 7 * whole,
                    10 * least <= 7 * whole + 10, whole <= 0x20_0000, e > 0;
            assert(false);
        }
    } else if 10 * part < 7 * whole {
        assert(part * z <= product) by (nonlinear_arith)
            requires z == 0x100_0000 * e, product == 0xb3_3333 * whole * e,
                10 * part + 1 <= 7 * whole, whole <= 0x20_0000;
        lemma_rounded_mono(part * z, product, 1);
    } else if part > 0 {
        lemma_from_whole_exact(part);
        lemma_from_whole(part);
        let k: nat = from_whole(part);
        let p: nat = (k - 1) as nat;
        lemma_step_below(k);
        if r < k {
            lemma_scaled_mono(r, p);
            lemma_scaled_mono(r + 1, k);
            assert((scaled(r) + scaled(r + 1)) * 1 == scaled(r) + scaled(r + 1));
            assert(2 * product <= scaled(p) + scaled(k));
            assert(part * z == 0x100_0000 * (part * e)) by (nonlinear_arith)
                requires z == 0x100_0000 * e;
            assert(scaled(k) - scaled(p) >= part * e);
            assert(2 * product > 2 * (0x100_0000 * (part * e)) - part * e) by (nonlinear_arith)
                requires product == 0xb3_3333 * whole * e, 10 * part == 7 * whole, part > 0,
                    e > 0;
            assert(false);
        }
    } else {
        lemma_nothing_within(whole);
    }
}

/// Of all patterns, the one that a number is rounded to is nearest to it.
#[verifier::rlimit(40)]
proof fn lemma_rounded_nearest(num: nat, k: nat)
    requires
        k <= INFINITY_BITS,
    ensures
        abs_int(num - scaled(rounded(num, 1))) <= abs_int(num - scaled(k)),
        k != rounded(num, 1) && abs_int(num - scaled(rounded(num, 1))) == abs_int(num - scaled(k))
            ==> rounded(num, 1) % 2 == 0,
{
    let r: nat = rounded(num, 1);
    lemma_rounded(num, 1);
    lemma_scaled_mono(k, r);
    lemma_scaled_mono(r, k);
    if k < r {
        let p: nat = (r - 1) as nat;
        lemma_scaled_mono(k, p);
        assert((scaled(p) + scaled(r)) * 1 == scaled(p) + scaled(r));
    } else if k > r {
        lemma_scaled_mono(r + 1, k);
        assert((scaled(r) + scaled(r + 1)) * 1 == scaled(r) + scaled(r + 1));
    }
}

/// The patterns above that of infinity, with either sign, are those of NaNs.
pub proof fn law_nan_by_bits(a: Single)
    ensures
        a.nan() <==> (0x7f80_0000 < a.bits < 0x8000_0000 || 0xff80_0000 < a.bits),
        a.infinite() <==> (a.bits == 0x7f80_0000 || a.bits == 0xff80_0000),
{
}

/// The value of a pattern: that of zero is zero, each next one lies one step higher, where
/// the step doubles every two to the power of 23 patterns from the second time on, and the
/// sign bit changes the sign.
pub proof fn law_value_by_bits(a: Single, next: Single, opposite: Single)
    requires
        a.bits < 0x7f80_0000,
        next.bits == a.bits + 1,
        opposite.bits == a.bits + 0x8000_0000,
    ensures
        a.bits == 0 ==> a.value() == 0,
        next.value() - a.value() == if a.bits < 0x80_0000 {
            1
        } else {
            pow2((a.bits / 0x80_0000 - 1) as nat) as int
        },
        opposite.value() == -a.value(),
{
    lemma_scaled_step(a.bits as nat);
}

/// A NaN, or two infinities with the same sign, leave no difference; any other infinity is
/// infinitely far from every number.
pub proof fn law_gap_of_infinities(a: Single, b: Single)
    ensures
        a.nan() || b.nan() ==> gap(a, b).nan(),
        a.infinite() && a == b ==> gap(a, b).nan(),
        a.infinite() && !b.nan() && a != b ==> gap(a, b).bits == 0x7f80_0000,
        b.infinite() && !a.nan() && a != b ==> gap(a, b).bits == 0x7f80_0000,
{
}

/// The difference of two finite numbers is the number nearest to the exact difference of
/// their values, without a sign, and the even one of two that are equally near.
#[verifier::spinoff_prover]
#[verifier::rlimit(40)]
pub proof fn law_gap_is_nearest(a: Single, b: Single, other: Single)
    requires
        a.magnitude() < INFINITY_BITS,
        b.magnitude() < INFINITY_BITS,
        other.bits <= INFINITY_BITS,
    ensures
        gap(a, b).bits <= INFINITY_BITS,
        a.value() >= b.value() ==> abs_int(a.value() - b.value() - gap(a, b).value()) <= abs_int(
            a.value() - b.value() - other.value(),
        ),
        a.value() <= b.value() ==> abs_int(b.value() - a.value() - gap(a, b).value()) <= abs_int(
            b.value() - a.value() - other.value(),
        ),
        a.value() >= b.value() && other != gap(a, b) && abs_int(
            a.value() - b.value() - gap(a, b).value(),
        ) == abs_int(a.value() - b.value() - other.value()) ==> gap(a, b).bits % 2 == 0,
        a.value() <= b.value() && other != gap(a, b) && abs_int(
            b.value() - a.value() - gap(a, b).value(),
        ) == abs_int(b.value() - a.value() - other.value()) ==> gap(a, b).bits % 2 == 0,
{
    let exact: nat = abs_int(a.value() - b.value());
    let g: Single = gap(a, b);
    lemma_gap_rounds(a, b);
    lemma_plain_value(g);
    lemma_plain_value(other);
    lemma_rounded_nearest(exact, other.bits as nat);
    assert(abs_int(exact - g.value()) <= abs_int(exact - other.value()));
}

/// The value of a pattern without a sign.
proof fn lemma_plain_value(a: Single)
    requires
        a.bits <= INFINITY_BITS,
    ensures
        a.value() == scaled(a.bits as nat),
{
}

/// The difference of two finite numbers, before and after rounding.
proof fn lemma_gap_rounds(a: Single, b: Single)
    requires
        a.magnitude() < INFINITY_BITS,
        b.magnitude() < INFINITY_BITS,
    ensures
        gap(a, b).bits == rounded(abs_int(a.value() - b.value()), 1),
        gap(a, b).bits <= INFINITY_BITS,
{
    lemma_rounded(abs_int(a.value() - b.value()), 1);
}

/// At any size, more than four fifths of a whole are more than seven tenths of it, and two
/// thirds are not.
#[verifier::rlimit(40)]
pub proof fn law_seven_tenths_at_any_size(part: nat, whole: nat)
    requires
        part <= usize::MAX,
        whole <= usize::MAX,
    ensures
        5 * part > 4 * whole ==> over_seven_tenths(part, whole),
        3 * part <= 2 * whole ==> !over_seven_tenths(part, whole),
{
    lemma_count_finite(part);
    lemma_count_finite(whole);
    if 3 * part <= 2 * whole {
        lemma_two_thirds_within(part, whole);
    } else if whole == 0 {
        law_seven_tenths_of_counts(part, whole);
    } else if 5 * part > 4 * whole {
        let z: nat = pow2(149);
        let e: nat = pow2(125);
        let c: nat = scaled(SEVEN_TENTHS_BITS as nat);
        let k: nat = from_whole(part);
        let p: nat = (k - 1) as nat;
        let s: nat = scaled(k);
        let w: nat = scaled(from_whole(whole));
        let r: nat = rounded(c * w, z);
        lemma_from_whole(part);
        lemma_from_whole_close(part);
        lemma_from_whole_close(whole);
        lemma_scaled_of_parts(0xb3_3333, 125);
        lemma2_to64();
        lemma_pow2_adds(24, 125);
        lemma_pow2_pos(125);
        lemma_pow2_pos(149);
        lemma_rounded(c * w, z);
        lemma_step_below(k);
        assert(5 * (part * z) > 4 * (whole * z)) by (nonlinear_arith)
            requires 5 * part > 4 * whole, z > 0;
        assert(5 * (s * 0x100_0001) > 4 * (w * 0xff_ffff));
        if r >= k {
            let q: nat = (r - 1) as nat;
            lemma_scaled_mono(p, q);
            lemma_scaled_mono(k, r);
            let low: nat = scaled(p) + s;
            let high: nat = scaled(q) + scaled(r);
            assert(low * z <= high * z) by (nonlinear_arith)
                requires low <= high;
            assert(2 * (0xb3_3333 * w) >= 0x100_0000 * low) by (nonlinear_arith)
                requires 2 * (c * w) >= low * z, c == 0xb3_3333 * e, z == 0x100_0000 * e, e > 0;
            assert(false);
        }
    }
}

/// At any size, more than a third of a whole is more than a quarter of it, and a fifth is
/// not.
#[verifier::rlimit(40)]
pub proof fn law_quarter_at_any_size(part: nat, whole: nat)
    requires
        part <= usize::MAX,
        0 < whole <= usize::MAX,
    ensures
        3 * part > whole ==> over_quarter(part, whole),
        5 * part <= whole ==> !over_quarter(part, whole),
{
    let z: nat = pow2(149);
    let h: nat = pow2(124);
    let s: nat = scaled(from_whole(part));
    let w: nat = scaled(from_whole(whole));
    lemma_count_finite(part);
    lemma_count_finite(whole);
    if part == 0 {
        lemma_nothing_within(whole);
    } else {
        lemma_from_whole(whole);
        lemma_scaled_mono(0, from_whole(whole));
        lemma_above_quarter(s * z, w);
        lemma_from_whole_close(part);
        lemma_from_whole_close(whole);
        lemma2_to64();
        lemma_pow2_adds(25, 124);
        lemma_pow2_pos(124);
        lemma_pow2_pos(149);
        assert(3 * part > whole ==> 3 * (part * z) > whole * z) by (nonlinear_arith)
            requires z > 0;
        assert(5 * part <= whole ==> 5 * (part * z) <= whole * z) by (nonlinear_arith)
            requires z > 0;
        assert(2 * (s * z) > (0x100_0001 * h) * w <==> 0x400_0000 * s > 0x100_0001 * w)
            by (nonlinear_arith)
            requires z == 0x200_0000 * h, h > 0;
    }
}

/// The order of two numbers is the order of their values.
pub proof fn law_order_of_values(a: Single, b: Single)
    requires
        !a.nan(),
        !b.nan(),
    ensures
        a.less(b) <==> a.value() < b.value(),
        a.at_most(b) <==> a.value() <= b.value(),
{
    let x: nat = a.magnitude();
    let y: nat = b.magnitude();
    lemma_scaled_mono(x, y);
    lemma_scaled_mono(y, x);
    lemma_scaled_mono(0, x);
    lemma_scaled_mono(0, y);
}

/// Only a NaN, or two infinities with the same sign, leave no difference.
pub proof fn lemma_gap_nan(a: Single, b: Single)
    ensures
        gap(a, b).nan() ==> a.nan() || b.nan() || (a.infinite() && b.infinite() && a.negative()
            == b.negative()),
{
    lemma_rounded(abs_int(a.value() - b.value()), 1);
}

/// The difference of two finite numbers is a number, and not negative.
pub proof fn lemma_gap_bits(a: Single, b: Single)
    requires
        a.magnitude() < INFINITY_BITS,
        b.magnitude() < INFINITY_BITS,
    ensures
        gap(a, b).bits <= INFINITY_BITS,
{
    lemma_rounded(abs_int(a.value() - b.value()), 1);
}

/// A difference is a NaN or not negative.
proof fn lemma_gap_range(a: Single, b: Single)
    ensures
        !gap(a, b).nan() ==> gap(a, b).bits <= INFINITY_BITS,
{
    lemma_rounded(abs_int(a.value() - b.value()), 1);
}

/// Between finite numbers the exact differences decide.
proof fn lemma_gap_mono(a: Single, b: Single, c: Single, e: Single)
    requires
        !a.nan() && !a.infinite(),
        !b.nan() && !b.infinite(),
        !c.nan() && !c.infinite(),
        !e.nan() && !e.infinite(),
        abs_int(a.value() - b.value()) <= abs_int(c.value() - e.value()),
    ensures
        gap(a, b).bits <= gap(c, e).bits <= INFINITY_BITS,
{
    lemma_gap_rounds(a, b);
    lemma_gap_rounds(c, e);
    lemma_rounded_mono(abs_int(a.value() - b.value()), abs_int(c.value() - e.value()), 1);
}

/// From a point on, going further away does not make the rounded difference smaller.
#[verifier::rlimit(40)]
pub proof fn law_gap_grows(q: Single, near: Single, far: Single)
    requires
        !gap(q, near).nan(),
        !gap(q, far).nan(),
        (q.at_most(near) && near.at_most(far)) || (far.at_most(near) && near.at_most(q)),
    ensures
        gap(q, near).at_most(gap(q, far)),
{
    lemma_gap_range(q, near);
    lemma_gap_range(q, far);
    if q.infinite() || far.infinite() {
        assert(gap(q, far).bits == INFINITY_BITS);
    } else {
        assert(!near.infinite());
        law_order_of_values(q, near);
        law_order_of_values(near, far);
        law_order_of_values(far, near);
        law_order_of_values(near, q);
        assert(abs_int(q.value() - near.value()) <= abs_int(q.value() - far.value()));
        lemma_gap_mono(q, near, q, far);
    }
}

} // verus!
