use vstd::prelude::*;

verus! {

/// 2^64 as an integer.
pub open spec fn pow64() -> int {
    0x1_0000_0000_0000_0000int
}

/// 2^128 as an integer.
pub open spec fn pow128() -> int {
    0x1_0000_0000_0000_0000_0000_0000_0000_0000int
}

/// A signed integer of up to 256 bits, kept as a sign and a magnitude split
/// into two 128-bit halves. Used where exact products of 128-bit values are
/// compared.
#[derive(Clone, Copy)]
pub struct Wide {
    pub neg: bool,
    pub hi: u128,
    pub lo: u128,
}

impl Wide {
    /// The magnitude.
    pub open spec fn mag(self) -> int {
        self.hi * pow128() + self.lo
    }

    /// The value.
    pub open spec fn val(self) -> int {
        if self.neg { -self.mag() } else { self.mag() }
    }
}

/// The absolute value of an integer.
pub open spec fn abs(x: int) -> int {
    if x < 0 { -x } else { x }
}

proof fn lemma_split(a: u128)
    ensures
        a == (a / 0x1_0000_0000_0000_0000u128) * pow64() + a % 0x1_0000_0000_0000_0000u128,
        a / 0x1_0000_0000_0000_0000u128 < pow64(),
        a % 0x1_0000_0000_0000_0000u128 < pow64(),
{
}

proof fn lemma_prod_bound(x: int, y: int)
    requires
        0 <= x < pow64(),
        0 <= y < pow64(),
    ensures
        0 <= x * y <= (pow64() - 1) * (pow64() - 1),
{
    assert(0 <= x * y <= (pow64() - 1) * (pow64() - 1)) by (nonlinear_arith)
        requires
            0 <= x < pow64(),
            0 <= y < pow64(),
    ;
}

proof fn lemma_expand(a1: int, a0: int, b1: int, b0: int, big: int)
    requires
        big == pow64(),
    ensures
        (a1 * big + a0) * (b1 * big + b0) == (a1 * b1) * (big * big) + (a0 * b1 + a1 * b0) * big
            + a0 * b0,
{
    let x = a1 * big;
    let y = b1 * big;
    assert((x + a0) * (y + b0) == x * y + x * b0 + a0 * y + a0 * b0) by (nonlinear_arith);
    assert(x * y == (a1 * b1) * (big * big)) by (nonlinear_arith)
        requires
            x == a1 * big,
            y == b1 * big,
    ;
    assert(x * b0 == (a1 * b0) * big) by (nonlinear_arith)
        requires
            x == a1 * big,
    ;
    assert(a0 * y == (a0 * b1) * big) by (nonlinear_arith)
        requires
            y == b1 * big,
    ;
    assert((a0 * b1 + a1 * b0) * big == (a0 * b1) * big + (a1 * b0) * big) by (nonlinear_arith);
}

proof fn lemma_mag_bound(a: int, b: int)
    requires
        0 <= a < pow128(),
        0 <= b < pow128(),
    ensures
        0 <= a * b < pow128() * pow128(),
{
    assert(0 <= a * b < pow128() * pow128()) by (nonlinear_arith)
        requires
            0 <= a < pow128(),
            0 <= b < pow128(),
    ;
}

proof fn lemma_hi_fits(hi: int, lo: int, p: int)
    requires
        hi * pow128() + lo == p,
        0 <= lo < pow128(),
        0 <= hi,
        p < pow128() * pow128(),
    ensures
        hi < pow128(),
{
    if hi >= pow128() {
        assert(hi * pow128() >= pow128() * pow128()) by (nonlinear_arith)
            requires
                hi >= pow128(),
        ;
    }
}

/// The exact product of two unsigned 128-bit values.
pub fn mul_u128(a: u128, b: u128) -> (r: Wide)
    ensures
        r.mag() == a * b,
        !r.neg,
{
    let base: u128 = 0x1_0000_0000_0000_0000u128;
    let a1 = a / base;
    let a0 = a % base;
    let b1 = b / base;
    let b0 = b % base;
    proof {
        lemma_split(a);
        lemma_split(b);
        lemma_prod_bound(a0 as int, b0 as int);
        lemma_prod_bound(a0 as int, b1 as int);
        lemma_prod_bound(a1 as int, b0 as int);
        lemma_prod_bound(a1 as int, b1 as int);
    }
    let p00 = a0 * b0;
    let p01 = a0 * b1;
    let p10 = a1 * b0;
    let p11 = a1 * b1;
    proof {
        lemma_split(p00);
        lemma_split(p01);
        lemma_split(p10);
    }
    let mid_lo = p01 % base + p10 % base + p00 / base;
    let mid_hi = p01 / base + p10 / base;
    proof {
        lemma_split(mid_lo);
    }
    let lo = (mid_lo % base) * base + p00 % base;
    let ghost hi_int: int = p11 + mid_hi + mid_lo / base;
    proof {
        lemma_expand(a1 as int, a0 as int, b1 as int, b0 as int, pow64());
        assert(pow64() * pow64() == pow128());
        assert(a * b == hi_int * pow128() + lo);
        lemma_mag_bound(a as int, b as int);
        lemma_hi_fits(hi_int, lo as int, a * b);
    }
    let hi = p11 + mid_hi + mid_lo / base;
    Wide { neg: false, hi, lo }
}

/// The sign and magnitude of a signed 128-bit value.
pub fn split_sign(a: i128) -> (r: (bool, u128))
    ensures
        r.0 == (a < 0),
        r.1 == abs(a as int),
{
    if a < 0 {
        let m = (-(a + 1)) as u128;
        (true, m + 1)
    } else {
        (false, a as u128)
    }
}

/// The exact product of two values each given by sign and magnitude.
pub fn mul_signed(na: bool, ma: u128, nb: bool, mb: u128) -> (r: Wide)
    ensures
        r.val() == (if na { -ma } else { ma as int }) * (if nb { -mb } else { mb as int }),
        r.mag() == ma * mb,
{
    let p = mul_u128(ma, mb);
    let neg = na != nb;
    proof {
        let x = ma as int;
        let y = mb as int;
        assert((-x) * (-y) == x * y) by (nonlinear_arith);
        assert((-x) * y == -(x * y)) by (nonlinear_arith);
        assert(x * (-y) == -(x * y)) by (nonlinear_arith);
    }
    Wide { neg, hi: p.hi, lo: p.lo }
}

/// The value with its sign flipped.
pub fn negate(x: Wide) -> (r: Wide)
    ensures
        r.val() == -x.val(),
        r.mag() == x.mag(),
{
    Wide { neg: !x.neg, hi: x.hi, lo: x.lo }
}

/// Whether the magnitude of `x` exceeds that of `y`.
pub fn mag_gt(x: Wide, y: Wide) -> (r: bool)
    ensures
        r == (x.mag() > y.mag()),
{
    x.hi > y.hi || (x.hi == y.hi && x.lo > y.lo)
}

/// The sum of the magnitudes, given that it fits.
fn mag_add(x: Wide, y: Wide) -> (r: Wide)
    requires
        x.mag() + y.mag() < pow128() * pow128(),
    ensures
        r.mag() == x.mag() + y.mag(),
        !r.neg,
{
    let m: u128 = 0xffff_ffff_ffff_ffff_ffff_ffff_ffff_ffffu128;
    if x.lo <= m - y.lo {
        let lo = x.lo + y.lo;
        proof {
            if x.hi + y.hi >= pow128() {
                assert((x.hi + y.hi) * pow128() >= pow128() * pow128()) by (nonlinear_arith)
                    requires
                        x.hi + y.hi >= pow128(),
                ;
            }
            assert(x.mag() + y.mag() == (x.hi + y.hi) * pow128() + lo) by (nonlinear_arith)
                requires
                    lo == x.lo + y.lo,
            ;
        }
        Wide { neg: false, hi: x.hi + y.hi, lo }
    } else {
        let lo = x.lo - (m - y.lo) - 1;
        proof {
            if x.hi + y.hi + 1 >= pow128() {
                assert((x.hi + y.hi + 1) * pow128() >= pow128() * pow128()) by (nonlinear_arith)
                    requires
                        x.hi + y.hi + 1 >= pow128(),
                ;
            }
            assert(x.mag() + y.mag() == (x.hi + y.hi + 1) * pow128() + lo) by (nonlinear_arith)
                requires
                    lo == x.lo + y.lo - pow128(),
            ;
        }
        Wide { neg: false, hi: x.hi + y.hi + 1, lo }
    }
}

/// The difference of the magnitudes, given that the first is not smaller.
fn mag_sub(x: Wide, y: Wide) -> (r: Wide)
    requires
        x.mag() >= y.mag(),
    ensures
        r.mag() == x.mag() - y.mag(),
        !r.neg,
{
    let m: u128 = 0xffff_ffff_ffff_ffff_ffff_ffff_ffff_ffffu128;
    if x.lo >= y.lo {
        proof {
            assert(x.hi >= y.hi) by (nonlinear_arith)
                requires
                    x.hi * pow128() + x.lo >= y.hi * pow128() + y.lo,
                    0 <= x.lo < pow128(),
                    0 <= y.lo < pow128(),
            ;
            assert(x.mag() - y.mag() == (x.hi - y.hi) * pow128() + (x.lo - y.lo)) by (nonlinear_arith);
        }
        Wide { neg: false, hi: x.hi - y.hi, lo: x.lo - y.lo }
    } else {
        let lo = (m - (y.lo - x.lo)) + 1;
        proof {
            assert(x.hi >= y.hi + 1) by (nonlinear_arith)
                requires
                    x.hi * pow128() + x.lo >= y.hi * pow128() + y.lo,
                    x.lo < y.lo,
                    0 <= x.lo,
                    y.lo < pow128(),
            ;
            assert(x.mag() - y.mag() == (x.hi - y.hi - 1) * pow128() + lo) by (nonlinear_arith)
                requires
                    lo == x.lo - y.lo + pow128(),
            ;
        }
        Wide { neg: false, hi: x.hi - y.hi - 1, lo }
    }
}

/// The exact sum, given that its magnitude fits in 256 bits.
pub fn wide_add(x: Wide, y: Wide) -> (r: Wide)
    requires
        x.mag() + y.mag() < pow128() * pow128(),
    ensures
        r.val() == x.val() + y.val(),
        r.mag() == abs(x.val() + y.val()),
{
    if x.neg == y.neg {
        let s = mag_add(x, y);
        Wide { neg: x.neg, hi: s.hi, lo: s.lo }
    } else if mag_gt(y, x) {
        let d = mag_sub(y, x);
        Wide { neg: y.neg, hi: d.hi, lo: d.lo }
    } else {
        let d = mag_sub(x, y);
        Wide { neg: x.neg, hi: d.hi, lo: d.lo }
    }
}

} // verus!
