use vstd::prelude::*;

verus! {

/// Two to the power 64: a `u128` splits into two halves in this base.
pub const HALF: u128 = 0x1_0000_0000_0000_0000;

/// The largest half.
pub const HALF_MAX: u128 = 0xffff_ffff_ffff_ffff;

/// Two to the power 128: the base of the limbs of a wide number.
pub open spec fn limb_base() -> int {
    HALF * HALF
}

/// The full product of two `u128` values, as a high and a low limb.
///
/// Each factor is split into two halves, and the four products of halves are added
/// up with their carries.
pub fn mul_wide(a: u128, b: u128) -> (r: (u128, u128))
    ensures
        r.0 * limb_base() + r.1 == a * b,
{
    let a0: u128 = a % HALF;
    let a1: u128 = a / HALF;
    let b0: u128 = b % HALF;
    let b1: u128 = b / HALF;
    assert(a0 * b0 <= HALF_MAX * HALF_MAX && a0 * b1 <= HALF_MAX * HALF_MAX && a1 * b0 <= HALF_MAX
        * HALF_MAX && a1 * b1 <= HALF_MAX * HALF_MAX) by (nonlinear_arith)
        requires
            a0 <= HALF_MAX,
            a1 <= HALF_MAX,
            b0 <= HALF_MAX,
            b1 <= HALF_MAX,
    ;
    let p00: u128 = a0 * b0;
    let p01: u128 = a0 * b1;
    let p10: u128 = a1 * b0;
    let p11: u128 = a1 * b1;
    let t: u128 = p00 / HALF + p01 % HALF + p10 % HALF;
    let lo: u128 = p00 % HALF + (t % HALF) * HALF;
    let hi: u128 = p11 + p01 / HALF + p10 / HALF + t / HALF;
    assert(hi * limb_base() + lo == a * b) by (nonlinear_arith)
        requires
            a == a1 * HALF + a0,
            b == b1 * HALF + b0,
            p00 == a0 * b0,
            p01 == a0 * b1,
            p10 == a1 * b0,
            p11 == a1 * b1,
            hi == p11 + p01 / HALF + p10 / HALF + t / HALF,
            lo == p00 % HALF + (t % HALF) * HALF,
            t == p00 / HALF + p01 % HALF + p10 % HALF,
            limb_base() == HALF * HALF,
    ;
    (hi, lo)
}

/// A natural number below two to the power 384, held as three limbs of 128 bits.
pub struct Wide {
    pub hi: u128,
    pub mid: u128,
    pub lo: u128,
}

impl Wide {
    /// The number that the three limbs stand for.
    pub open spec fn value(self) -> int {
        self.hi * limb_base() * limb_base() + self.mid * limb_base() + self.lo
    }
}

/// The product `d * d * n`, which always fits in three limbs.
pub fn square_times(d: u128, n: u128) -> (w: Wide)
    ensures
        w.value() == d * d * n,
{
    let (h, l) = mul_wide(d, d);
    let (c1, x0) = mul_wide(l, n);
    let (c3, c2) = mul_wide(h, n);
    let room: u128 = u128::MAX - c2;
    let carry: u128 = if c1 > room { 1 } else { 0 };
    let x1: u128 = if c1 > room { c1 - room - 1 } else { c1 + c2 };
    let ghost base = limb_base();
    assert(base == HALF * HALF);
    assert(c1 + c2 == carry * base + x1);
    assert((c3 + carry) * base * base + x1 * base + x0 == d * d * n) by (nonlinear_arith)
        requires
            h * base + l == d * d,
            c1 * base + x0 == l * n,
            c3 * base + c2 == h * n,
            c1 + c2 == carry * base + x1,
    ;
    assert(c3 + carry < base) by (nonlinear_arith)
        requires
            (c3 + carry) * base * base + x1 * base + x0 == d * d * n,
            0 <= d < base,
            0 <= n < base,
            0 <= x1,
            0 <= x0,
            base > 0,
    {
        assert(d * d <= (base - 1) * (base - 1));
        assert(d * d * n <= (base - 1) * (base - 1) * (base - 1));
        assert((base - 1) * (base - 1) * (base - 1) < base * base * base);
        if c3 + carry >= base {
            assert((c3 + carry) * base * base >= base * base * base);
        }
    }
    let x2: u128 = c3 + carry;
    Wide { hi: x2, mid: x1, lo: x0 }
}

/// Whether `a` stands for a smaller number than `b`.
pub fn wide_less(a: &Wide, b: &Wide) -> (r: bool)
    ensures
        r == (a.value() < b.value()),
{
    let ghost base = limb_base();
    assert(base == HALF * HALF);
    assert(a.mid * base + a.lo < base * base && b.mid * base + b.lo < base * base)
        by (nonlinear_arith)
        requires
            0 <= a.mid < base,
            0 <= a.lo < base,
            0 <= b.mid < base,
            0 <= b.lo < base,
    ;
    assert(a.hi < b.hi ==> a.hi * base * base + base * base <= b.hi * base * base)
        by (nonlinear_arith);
    assert(b.hi < a.hi ==> b.hi * base * base + base * base <= a.hi * base * base)
        by (nonlinear_arith);
    assert(a.mid < b.mid ==> a.mid * base + base <= b.mid * base) by (nonlinear_arith)
        requires
            base > 0,
    ;
    assert(b.mid < a.mid ==> b.mid * base + base <= a.mid * base) by (nonlinear_arith)
        requires
            base > 0,
    ;
    if a.hi != b.hi {
        a.hi < b.hi
    } else if a.mid != b.mid {
        a.mid < b.mid
    } else {
        a.lo < b.lo
    }
}

} // verus!
