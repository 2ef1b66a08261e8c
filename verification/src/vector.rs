//! Integer square roots, truncating division, and fixed-dimension integer
//! vector arithmetic used by the rasterizer and the transform utilities.

use vstd::prelude::*;

verus! {

/// A pair of pixel coordinates, `[x, y]`.
pub type Vec2i32 = [i32; 2];

/// A spatial coordinate triple, `[x, y, z]`.
pub type Vec3i64 = [i64; 3];

/// True when `r` is the integer square root (rounded down) of `n`.
pub open spec fn is_isqrt(n: int, r: int) -> bool {
    r >= 0 && r * r <= n < (r + 1) * (r + 1)
}

/// The integer square root (rounded down) of `n`; meaningful for `n >= 0`.
pub open spec fn isqrt(n: int) -> int {
    choose|r: int| is_isqrt(n, r)
}

/// Every nonnegative integer has an integer square root, and `isqrt` is it.
pub proof fn lemma_isqrt(n: int)
    requires
        n >= 0,
    ensures
        is_isqrt(n, isqrt(n)),
    decreases n,
{
    if n == 0 {
        assert(is_isqrt(0, 0));
    } else {
        lemma_isqrt(n - 1);
        let r = isqrt(n - 1);
        if (r + 1) * (r + 1) <= n {
            assert(n - 1 < (r + 1) * (r + 1));
            assert(is_isqrt(n, r + 1)) by (nonlinear_arith)
                requires r >= 0, (r + 1) * (r + 1) <= n, n - 1 < (r + 1) * (r + 1);
        } else {
            assert(is_isqrt(n, r));
        }
    }
}

/// The integer square root is unique.
pub proof fn lemma_isqrt_unique(n: int, r: int)
    requires
        is_isqrt(n, r),
    ensures
        r == isqrt(n),
{
    let c = isqrt(n);
    assert(is_isqrt(n, c));
    if c < r {
        assert((c + 1) * (c + 1) <= r * r) by (nonlinear_arith)
            requires 0 <= c < r;
    }
    if c > r {
        assert((r + 1) * (r + 1) <= c * c) by (nonlinear_arith)
            requires 0 <= r < c;
    }
}

/// `isqrt(n) <= k` exactly when `n < (k + 1) * (k + 1)`, for `n, k >= 0`.
pub proof fn lemma_isqrt_le(n: int, k: int)
    requires
        n >= 0,
        k >= 0,
    ensures
        isqrt(n) <= k <==> n < (k + 1) * (k + 1),
{
    lemma_isqrt(n);
    let r = isqrt(n);
    if r <= k {
        assert((r + 1) * (r + 1) <= (k + 1) * (k + 1)) by (nonlinear_arith)
            requires 0 <= r <= k;
    }
    if n < (k + 1) * (k + 1) {
        if r > k {
            assert((k + 1) * (k + 1) <= r * r) by (nonlinear_arith)
                requires 0 <= k < r;
        }
    }
}

/// Integer division rounding toward zero, as the `/` operator computes it.
pub open spec fn div_trunc(a: int, b: int) -> int {
    let q = (if a >= 0 { a } else { -a }) / (if b >= 0 { b } else { -b });
    if (a < 0) != (b < 0) {
        -q
    } else {
        q
    }
}

/// Types with an integer square-root operation, rounding down.
pub trait Sqrt: Sized {
    spec fn sqrt_req(self) -> bool;

    fn sqrt(self) -> (r: Self)
        requires
            self.sqrt_req(),
    ;
}

impl Sqrt for i32 {
    open spec fn sqrt_req(self) -> bool {
        self >= 0
    }

    fn sqrt(self) -> (r: i32)
        ensures
            r as int == isqrt(self as int),
            is_isqrt(self as int, r as int),
    {
        let mut lo: i32 = 0;
        let mut hi: i32 = 46340;
        if self < 46340 {
            hi = self;
        }
        proof {
            assert(self < 46340 ==> self < (self + 1) * (self + 1)) by (nonlinear_arith);
            assert(i32::MAX < (46340 + 1) * (46340 + 1)) by (nonlinear_arith);
        }
        while lo < hi
            invariant
                0 <= lo <= hi <= 46340,
                lo * lo <= self,
                self < (hi + 1) * (hi + 1),
            decreases hi - lo,
        {
            let mid = lo + (hi - lo + 1) / 2;
            assert(mid * mid <= 46340 * 46340 <= i32::MAX) by (nonlinear_arith)
                requires 0 <= mid <= 46340;
            if mid * mid <= self {
                lo = mid;
            } else {
                hi = mid - 1;
            }
        }
        proof {
            lemma_isqrt_unique(self as int, lo as int);
        }
        lo
    }
}

impl Sqrt for i64 {
    open spec fn sqrt_req(self) -> bool {
        self >= 0
    }

    fn sqrt(self) -> (r: i64)
        ensures
            r as int == isqrt(self as int),
            is_isqrt(self as int, r as int),
    {
        let mut lo: i64 = 0;
        let mut hi: i64 = 3037000499;
        if self < 3037000499 {
            hi = self;
        }
        proof {
            assert(self < 3037000499 ==> self < (self + 1) * (self + 1)) by (nonlinear_arith);
            assert(i64::MAX < (3037000499 + 1) * (3037000499 + 1)) by (nonlinear_arith);
        }
        while lo < hi
            invariant
                0 <= lo <= hi <= 3037000499,
                lo * lo <= self,
                self < (hi + 1) * (hi + 1),
            decreases hi - lo,
        {
            let mid = lo + (hi - lo + 1) / 2;
            assert(mid * mid <= 3037000499 * 3037000499 <= i64::MAX) by (nonlinear_arith)
                requires 0 <= mid <= 3037000499;
            if mid * mid <= self {
                lo = mid;
            } else {
                hi = mid - 1;
            }
        }
        proof {
            lemma_isqrt_unique(self as int, lo as int);
        }
        lo
    }
}

/// Lossless conversions between vector representations.
pub trait Convert<T> {
    fn cvt(&self) -> T;
}

impl Convert<i64> for i32 {
    fn cvt(&self) -> (r: i64)
        ensures
            r == *self as int,
    {
        *self as i64
    }
}

impl Convert<[i64; 2]> for [i32; 2] {
    fn cvt(&self) -> (r: [i64; 2])
        ensures
            r[0] == self[0] as int,
            r[1] == self[1] as int,
    {
        [self[0] as i64, self[1] as i64]
    }
}

/// Division rounding toward zero, defined for every divisor but zero.
fn div_i32(a: i32, b: i32) -> (r: i32)
    requires
        b != 0,
        !(a == i32::MIN && b == -1),
    ensures
        r == div_trunc(a as int, b as int),
{
    if b == i32::MIN {
        if a == i32::MIN {
            1
        } else {
            0
        }
    } else if b == -1 {
        -a
    } else {
        let bb = if b < 0 {
            -b
        } else {
            b
        };
        let q = a / bb;
        proof {
            if a < 0 && bb >= 2 {
                vstd::arithmetic::div_mod::lemma_div_is_ordered_by_denominator(
                    -(a as int),
                    2,
                    bb as int,
                );
            }
        }
        if b < 0 {
            -q
        } else {
            q
        }
    }
}

/// Division rounding toward zero on wide intermediates, as interpolation
/// needs it.
pub(crate) fn div_i128(a: i128, b: i128) -> (r: i128)
    requires
        b != 0,
        a != i128::MIN,
        b != i128::MIN,
    ensures
        r == div_trunc(a as int, b as int),
{
    if b == -1 {
        -a
    } else {
        let bb = if b < 0 {
            -b
        } else {
            b
        };
        let q = a / bb;
        proof {
            if a < 0 && bb >= 2 {
                vstd::arithmetic::div_mod::lemma_div_is_ordered_by_denominator(
                    -(a as int),
                    2,
                    bb as int,
                );
            }
        }
        if b < 0 {
            -q
        } else {
            q
        }
    }
}

/// Componentwise and scalar arithmetic on fixed-dimension vectors.
pub trait Vector<T>: Sized {
    spec fn neg_req(&self) -> bool;

    fn neg(&self) -> Self
        requires
            self.neg_req(),
    ;

    spec fn addv_req(&self, rhs: &Self) -> bool;

    fn addv(&self, rhs: &Self) -> Self
        requires
            self.addv_req(rhs),
    ;

    spec fn subv_req(&self, rhs: &Self) -> bool;

    fn subv(&self, rhs: &Self) -> Self
        requires
            self.subv_req(rhs),
    ;

    spec fn mulv_req(&self, rhs: &Self) -> bool;

    fn mulv(&self, rhs: &Self) -> Self
        requires
            self.mulv_req(rhs),
    ;

    spec fn divv_req(&self, rhs: &Self) -> bool;

    fn divv(&self, rhs: &Self) -> Self
        requires
            self.divv_req(rhs),
    ;

    spec fn adds_req(&self, rhs: T) -> bool;

    fn adds(&self, rhs: T) -> Self
        requires
            self.adds_req(rhs),
    ;

    spec fn subs_req(&self, rhs: T) -> bool;

    fn subs(&self, rhs: T) -> Self
        requires
            self.subs_req(rhs),
    ;

    spec fn muls_req(&self, rhs: T) -> bool;

    fn muls(&self, rhs: T) -> Self
        requires
            self.muls_req(rhs),
    ;

    spec fn divs_req(&self, rhs: T) -> bool;

    fn divs(&self, rhs: T) -> Self
        requires
            self.divs_req(rhs),
    ;

    spec fn dot_req(&self, rhs: &Self) -> bool;

    fn dot(&self, rhs: &Self) -> T
        requires
            self.dot_req(rhs),
    ;

    spec fn magnitude_req(&self) -> bool;

    fn magnitude(&self) -> T
        requires
            self.magnitude_req(),
    ;

    spec fn distance_req(&self, rhs: &Self) -> bool;

    fn distance(&self, rhs: &Self) -> T
        requires
            self.distance_req(rhs),
    ;

    spec fn normalized_req(&self) -> bool;

    fn normalized(&self) -> Self
        requires
            self.normalized_req(),
    ;
}

/// The squared length of `[x, y]`.
pub open spec fn norm2_2(x: int, y: int) -> int {
    x * x + y * y
}

/// The squared length of `[x, y, z]`.
pub open spec fn norm2_3(x: int, y: int, z: int) -> int {
    x * x + y * y + z * z
}

/// Division rounding toward zero, defined for every divisor but zero.
fn div_i64(a: i64, b: i64) -> (r: i64)
    requires
        b != 0,
        !(a == i64::MIN && b == -1),
    ensures
        r == div_trunc(a as int, b as int),
{
    if b == i64::MIN {
        if a == i64::MIN {
            1
        } else {
            0
        }
    } else if b == -1 {
        -a
    } else {
        let bb = if b < 0 {
            -b
        } else {
            b
        };
        let q = a / bb;
        proof {
            if a < 0 && bb >= 2 {
                vstd::arithmetic::div_mod::lemma_div_is_ordered_by_denominator(
                    -(a as int),
                    2,
                    bb as int,
                );
            }
        }
        if b < 0 {
            -q
        } else {
            q
        }
    }
}

impl Vector<i32> for [i32; 2] {
    open spec fn neg_req(&self) -> bool {
        self[0] != i32::MIN && self[1] != i32::MIN
    }

    fn neg(&self) -> (r: Self)
        ensures
            r[0] == -(self[0] as int),
            r[1] == -(self[1] as int),
    {
        [-self[0], -self[1]]
    }

    open spec fn addv_req(&self, rhs: &Self) -> bool {
        i32::MIN <= self[0] + rhs[0] <= i32::MAX && i32::MIN <= self[1] + rhs[1] <= i32::MAX
    }

    fn addv(&self, rhs: &Self) -> (r: Self)
        ensures
            r[0] == self[0] + rhs[0],
            r[1] == self[1] + rhs[1],
    {
        [self[0] + rhs[0], self[1] + rhs[1]]
    }

    open spec fn subv_req(&self, rhs: &Self) -> bool {
        i32::MIN <= self[0] - rhs[0] <= i32::MAX && i32::MIN <= self[1] - rhs[1] <= i32::MAX
    }

    fn subv(&self, rhs: &Self) -> (r: Self)
        ensures
            r[0] == self[0] - rhs[0],
            r[1] == self[1] - rhs[1],
    {
        [self[0] - rhs[0], self[1] - rhs[1]]
    }

    open spec fn mulv_req(&self, rhs: &Self) -> bool {
        i32::MIN <= self[0] * rhs[0] <= i32::MAX && i32::MIN <= self[1] * rhs[1] <= i32::MAX
    }

    fn mulv(&self, rhs: &Self) -> (r: Self)
        ensures
            r[0] == self[0] * rhs[0],
            r[1] == self[1] * rhs[1],
    {
        [self[0] * rhs[0], self[1] * rhs[1]]
    }

    open spec fn divv_req(&self, rhs: &Self) -> bool {
        &&& rhs[0] != 0
        &&& rhs[1] != 0
        &&& !(self[0] == i32::MIN && rhs[0] == -1)
        &&& !(self[1] == i32::MIN && rhs[1] == -1)
    }

    fn divv(&self, rhs: &Self) -> (r: Self)
        ensures
            r[0] == div_trunc(self[0] as int, rhs[0] as int),
            r[1] == div_trunc(self[1] as int, rhs[1] as int),
    {
        [div_i32(self[0], rhs[0]), div_i32(self[1], rhs[1])]
    }

    open spec fn adds_req(&self, rhs: i32) -> bool {
        i32::MIN <= self[0] + rhs <= i32::MAX && i32::MIN <= self[1] + rhs <= i32::MAX
    }

    fn adds(&self, rhs: i32) -> (r: Self)
        ensures
            r[0] == self[0] + rhs,
            r[1] == self[1] + rhs,
    {
        [self[0] + rhs, self[1] + rhs]
    }

    open spec fn subs_req(&self, rhs: i32) -> bool {
        i32::MIN <= self[0] - rhs <= i32::MAX && i32::MIN <= self[1] - rhs <= i32::MAX
    }

    fn subs(&self, rhs: i32) -> (r: Self)
        ensures
            r[0] == self[0] - rhs,
            r[1] == self[1] - rhs,
    {
        [self[0] - rhs, self[1] - rhs]
    }

    open spec fn muls_req(&self, rhs: i32) -> bool {
        i32::MIN <= self[0] * rhs <= i32::MAX && i32::MIN <= self[1] * rhs <= i32::MAX
    }

    fn muls(&self, rhs: i32) -> (r: Self)
        ensures
            r[0] == self[0] * rhs,
            r[1] == self[1] * rhs,
    {
        [self[0] * rhs, self[1] * rhs]
    }

    open spec fn divs_req(&self, rhs: i32) -> bool {
        &&& rhs != 0
        &&& !(self[0] == i32::MIN && rhs == -1)
        &&& !(self[1] == i32::MIN && rhs == -1)
    }

    fn divs(&self, rhs: i32) -> (r: Self)
        ensures
            r[0] == div_trunc(self[0] as int, rhs as int),
            r[1] == div_trunc(self[1] as int, rhs as int),
    {
        [div_i32(self[0], rhs), div_i32(self[1], rhs)]
    }

    open spec fn dot_req(&self, rhs: &Self) -> bool {
        &&& i32::MIN <= self[0] * rhs[0] <= i32::MAX
        &&& i32::MIN <= self[1] * rhs[1] <= i32::MAX
        &&& i32::MIN <= self[0] * rhs[0] + self[1] * rhs[1] <= i32::MAX
    }

    fn dot(&self, rhs: &Self) -> (r: i32)
        ensures
            r == self[0] * rhs[0] + self[1] * rhs[1],
    {
        self[0] * rhs[0] + self[1] * rhs[1]
    }

    open spec fn magnitude_req(&self) -> bool {
        norm2_2(self[0] as int, self[1] as int) <= i32::MAX
    }

    fn magnitude(&self) -> (r: i32)
        ensures
            r as int == isqrt(norm2_2(self[0] as int, self[1] as int)),
    {
        proof {
            assert(self[0] * self[0] >= 0 && self[1] * self[1] >= 0) by (nonlinear_arith);
        }
        let s = self[0] * self[0] + self[1] * self[1];
        s.sqrt()
    }

    open spec fn distance_req(&self, rhs: &Self) -> bool {
        let d0 = (self[0] - rhs[0]) * (self[0] - rhs[0]);
        let d1 = (self[1] - rhs[1]) * (self[1] - rhs[1]);
        &&& i32::MIN <= self[0] - rhs[0] <= i32::MAX
        &&& i32::MIN <= self[1] - rhs[1] <= i32::MAX
        &&& d0 <= i32::MAX
        &&& d1 <= i32::MAX
        &&& d0 * d0 + d1 * d1 <= i32::MAX
    }

    /// The sums of the fourth powers of the component differences, rooted:
    /// the operand of the square root is squared once more than in
    /// `magnitude`, which this operation mirrors from the start.
    fn distance(&self, rhs: &Self) -> (r: i32)
        ensures
            r as int == isqrt(
                norm2_2(
                    (self[0] - rhs[0]) * (self[0] - rhs[0]),
                    (self[1] - rhs[1]) * (self[1] - rhs[1]),
                ),
            ),
    {
        proof {
            let x0 = self[0] - rhs[0];
            let x1 = self[1] - rhs[1];
            assert(x0 * x0 >= 0 && x1 * x1 >= 0 && (x0 * x0) * (x0 * x0) >= 0 && (x1 * x1) * (x1
                * x1) >= 0) by (nonlinear_arith);
        }
        let d0 = (self[0] - rhs[0]) * (self[0] - rhs[0]);
        let d1 = (self[1] - rhs[1]) * (self[1] - rhs[1]);
        let s = d0 * d0 + d1 * d1;
        s.sqrt()
    }

    open spec fn normalized_req(&self) -> bool {
        self.magnitude_req() && !(self[0] == 0 && self[1] == 0)
    }

    fn normalized(&self) -> (r: Self)
        ensures
            r[0] == div_trunc(self[0] as int, isqrt(norm2_2(self[0] as int, self[1] as int))),
            r[1] == div_trunc(self[1] as int, isqrt(norm2_2(self[0] as int, self[1] as int))),
    {
        let m = self.magnitude();
        proof {
            assert(norm2_2(self[0] as int, self[1] as int) > 0) by (nonlinear_arith)
                requires !(self[0] == 0 && self[1] == 0);
            lemma_isqrt(norm2_2(self[0] as int, self[1] as int));
            if m == 0 {
                assert(norm2_2(self[0] as int, self[1] as int) < 1) by (nonlinear_arith)
                    requires is_isqrt(norm2_2(self[0] as int, self[1] as int), 0);
            }
        }
        self.divs(m)
    }
}

impl Vector<i64> for [i64; 3] {
    open spec fn neg_req(&self) -> bool {
        self[0] != i64::MIN && self[1] != i64::MIN && self[2] != i64::MIN
    }

    fn neg(&self) -> (r: Self)
        ensures
            r[0] == -(self[0] as int),
            r[1] == -(self[1] as int),
            r[2] == -(self[2] as int),
    {
        [-self[0], -self[1], -self[2]]
    }

    open spec fn addv_req(&self, rhs: &Self) -> bool {
        &&& i64::MIN <= self[0] + rhs[0] <= i64::MAX
        &&& i64::MIN <= self[1] + rhs[1] <= i64::MAX
        &&& i64::MIN <= self[2] + rhs[2] <= i64::MAX
    }

    fn addv(&self, rhs: &Self) -> (r: Self)
        ensures
            r[0] == self[0] + rhs[0],
            r[1] == self[1] + rhs[1],
            r[2] == self[2] + rhs[2],
    {
        [self[0] + rhs[0], self[1] + rhs[1], self[2] + rhs[2]]
    }

    open spec fn subv_req(&self, rhs: &Self) -> bool {
        &&& i64::MIN <= self[0] - rhs[0] <= i64::MAX
        &&& i64::MIN <= self[1] - rhs[1] <= i64::MAX
        &&& i64::MIN <= self[2] - rhs[2] <= i64::MAX
    }

    fn subv(&self, rhs: &Self) -> (r: Self)
        ensures
            r[0] == self[0] - rhs[0],
            r[1] == self[1] - rhs[1],
            r[2] == self[2] - rhs[2],
    {
        [self[0] - rhs[0], self[1] - rhs[1], self[2] - rhs[2]]
    }

    open spec fn mulv_req(&self, rhs: &Self) -> bool {
        &&& i64::MIN <= self[0] * rhs[0] <= i64::MAX
        &&& i64::MIN <= self[1] * rhs[1] <= i64::MAX
        &&& i64::MIN <= self[2] * rhs[2] <= i64::MAX
    }

    fn mulv(&self, rhs: &Self) -> (r: Self)
        ensures
            r[0] == self[0] * rhs[0],
            r[1] == self[1] * rhs[1],
            r[2] == self[2] * rhs[2],
    {
        [self[0] * rhs[0], self[1] * rhs[1], self[2] * rhs[2]]
    }

    open spec fn divv_req(&self, rhs: &Self) -> bool {
        &&& rhs[0] != 0 && rhs[1] != 0 && rhs[2] != 0
        &&& !(self[0] == i64::MIN && rhs[0] == -1)
        &&& !(self[1] == i64::MIN && rhs[1] == -1)
        &&& !(self[2] == i64::MIN && rhs[2] == -1)
    }

    fn divv(&self, rhs: &Self) -> (r: Self)
        ensures
            r[0] == div_trunc(self[0] as int, rhs[0] as int),
            r[1] == div_trunc(self[1] as int, rhs[1] as int),
            r[2] == div_trunc(self[2] as int, rhs[2] as int),
    {
        [div_i64(self[0], rhs[0]), div_i64(self[1], rhs[1]), div_i64(self[2], rhs[2])]
    }

    open spec fn adds_req(&self, rhs: i64) -> bool {
        &&& i64::MIN <= self[0] + rhs <= i64::MAX
        &&& i64::MIN <= self[1] + rhs <= i64::MAX
        &&& i64::MIN <= self[2] + rhs <= i64::MAX
    }

    fn adds(&self, rhs: i64) -> (r: Self)
        ensures
            r[0] == self[0] + rhs,
            r[1] == self[1] + rhs,
            r[2] == self[2] + rhs,
    {
        [self[0] + rhs, self[1] + rhs, self[2] + rhs]
    }

    open spec fn subs_req(&self, rhs: i64) -> bool {
        &&& i64::MIN <= self[0] - rhs <= i64::MAX
        &&& i64::MIN <= self[1] - rhs <= i64::MAX
        &&& i64::MIN <= self[2] - rhs <= i64::MAX
    }

    fn subs(&self, rhs: i64) -> (r: Self)
        ensures
            r[0] == self[0] - rhs,
            r[1] == self[1] - rhs,
            r[2] == self[2] - rhs,
    {
        [self[0] - rhs, self[1] - rhs, self[2] - rhs]
    }

    open spec fn muls_req(&self, rhs: i64) -> bool {
        &&& i64::MIN <= self[0] * rhs <= i64::MAX
        &&& i64::MIN <= self[1] * rhs <= i64::MAX
        &&& i64::MIN <= self[2] * rhs <= i64::MAX
    }

    fn muls(&self, rhs: i64) -> (r: Self)
        ensures
            r[0] == self[0] * rhs,
            r[1] == self[1] * rhs,
            r[2] == self[2] * rhs,
    {
        proof {
            lemma_i64_prod_in_i128(self[0] as int, rhs as int);
            lemma_i64_prod_in_i128(self[1] as int, rhs as int);
            lemma_i64_prod_in_i128(self[2] as int, rhs as int);
        }
        [self[0] * rhs, self[1] * rhs, self[2] * rhs]
    }

    open spec fn divs_req(&self, rhs: i64) -> bool {
        &&& rhs != 0
        &&& !(self[0] == i64::MIN && rhs == -1)
        &&& !(self[1] == i64::MIN && rhs == -1)
        &&& !(self[2] == i64::MIN && rhs == -1)
    }

    fn divs(&self, rhs: i64) -> (r: Self)
        ensures
            r[0] == div_trunc(self[0] as int, rhs as int),
            r[1] == div_trunc(self[1] as int, rhs as int),
            r[2] == div_trunc(self[2] as int, rhs as int),
    {
        [div_i64(self[0], rhs), div_i64(self[1], rhs), div_i64(self[2], rhs)]
    }

    open spec fn dot_req(&self, rhs: &Self) -> bool {
        let p0 = self[0] * rhs[0];
        let p1 = self[1] * rhs[1];
        let p2 = self[2] * rhs[2];
        &&& i64::MIN <= p0 <= i64::MAX
        &&& i64::MIN <= p1 <= i64::MAX
        &&& i64::MIN <= p0 + p1 <= i64::MAX
        &&& i64::MIN <= p2 <= i64::MAX
        &&& i64::MIN <= p0 + p1 + p2 <= i64::MAX
    }

    fn dot(&self, rhs: &Self) -> (r: i64)
        ensures
            r == self[0] * rhs[0] + self[1] * rhs[1] + self[2] * rhs[2],
    {
        self[0] * rhs[0] + self[1] * rhs[1] + self[2] * rhs[2]
    }

    open spec fn magnitude_req(&self) -> bool {
        norm2_3(self[0] as int, self[1] as int, self[2] as int) <= i64::MAX
    }

    fn magnitude(&self) -> (r: i64)
        ensures
            r as int == isqrt(norm2_3(self[0] as int, self[1] as int, self[2] as int)),
    {
        proof {
            assert(self[0] * self[0] >= 0 && self[1] * self[1] >= 0 && self[2] * self[2] >= 0)
                by (nonlinear_arith);
        }
        let s = self[0] * self[0] + self[1] * self[1] + self[2] * self[2];
        s.sqrt()
    }

    open spec fn distance_req(&self, rhs: &Self) -> bool {
        let d0 = (self[0] - rhs[0]) * (self[0] - rhs[0]);
        let d1 = (self[1] - rhs[1]) * (self[1] - rhs[1]);
        let d2 = (self[2] - rhs[2]) * (self[2] - rhs[2]);
        &&& i64::MIN <= self[0] - rhs[0] <= i64::MAX
        &&& i64::MIN <= self[1] - rhs[1] <= i64::MAX
        &&& i64::MIN <= self[2] - rhs[2] <= i64::MAX
        &&& d0 <= i64::MAX
        &&& d1 <= i64::MAX
        &&& d2 <= i64::MAX
        &&& d0 * d0 + d1 * d1 <= i64::MAX
        &&& d0 * d0 + d1 * d1 + d2 * d2 <= i64::MAX
    }

    /// The sums of the fourth powers of the component differences, rooted:
    /// the operand of the square root is squared once more than in
    /// `magnitude`, which this operation mirrors from the start.
    fn distance(&self, rhs: &Self) -> (r: i64)
        ensures
            r as int == isqrt(
                norm2_3(
                    (self[0] - rhs[0]) * (self[0] - rhs[0]),
                    (self[1] - rhs[1]) * (self[1] - rhs[1]),
                    (self[2] - rhs[2]) * (self[2] - rhs[2]),
                ),
            ),
    {
        proof {
            let x0 = self[0] - rhs[0];
            let x1 = self[1] - rhs[1];
            let x2 = self[2] - rhs[2];
            assert(x0 * x0 >= 0 && x1 * x1 >= 0 && x2 * x2 >= 0 && (x0 * x0) * (x0 * x0) >= 0 && (
            x1 * x1) * (x1 * x1) >= 0 && (x2 * x2) * (x2 * x2) >= 0) by (nonlinear_arith);
        }
        let d0 = (self[0] - rhs[0]) * (self[0] - rhs[0]);
        let d1 = (self[1] - rhs[1]) * (self[1] - rhs[1]);
        let d2 = (self[2] - rhs[2]) * (self[2] - rhs[2]);
        let s = d0 * d0 + d1 * d1 + d2 * d2;
        s.sqrt()
    }

    open spec fn normalized_req(&self) -> bool {
        self.magnitude_req() && !(self[0] == 0 && self[1] == 0 && self[2] == 0)
    }

    fn normalized(&self) -> (r: Self)
        ensures
            ({
                let m = isqrt(norm2_3(self[0] as int, self[1] as int, self[2] as int));
                &&& r[0] == div_trunc(self[0] as int, m)
                &&& r[1] == div_trunc(self[1] as int, m)
                &&& r[2] == div_trunc(self[2] as int, m)
            }),
    {
        let m = self.magnitude();
        proof {
            assert(norm2_3(self[0] as int, self[1] as int, self[2] as int) > 0) by (nonlinear_arith)
                requires !(self[0] == 0 && self[1] == 0 && self[2] == 0);
            lemma_isqrt(norm2_3(self[0] as int, self[1] as int, self[2] as int));
            if m == 0 {
                assert(norm2_3(self[0] as int, self[1] as int, self[2] as int) < 1)
                    by (nonlinear_arith)
                    requires is_isqrt(norm2_3(self[0] as int, self[1] as int, self[2] as int), 0);
            }
        }
        self.divs(m)
    }
}

/// The cross product on coordinate triples.
pub trait Vector3: Sized {
    spec fn cross_req(&self, rhs: &Self) -> bool;

    fn cross(&self, rhs: &Self) -> Self
        requires
            self.cross_req(rhs),
    ;
}

impl Vector3 for [i64; 3] {
    open spec fn cross_req(&self, rhs: &Self) -> bool {
        &&& i64::MIN <= self[1] * rhs[2] - rhs[1] * self[2] <= i64::MAX
        &&& i64::MIN <= self[2] * rhs[0] - rhs[2] * self[0] <= i64::MAX
        &&& i64::MIN <= self[0] * rhs[1] - rhs[0] * self[1] <= i64::MAX
    }

    fn cross(&self, rhs: &Self) -> (r: Self)
        ensures
            r[0] == self[1] * rhs[2] - rhs[1] * self[2],
            r[1] == self[2] * rhs[0] - rhs[2] * self[0],
            r[2] == self[0] * rhs[1] - rhs[0] * self[1],
    {
        proof {
            lemma_i64_prod_in_i128(self[1] as int, rhs[2] as int);
            lemma_i64_prod_in_i128(rhs[1] as int, self[2] as int);
            lemma_i64_prod_in_i128(self[2] as int, rhs[0] as int);
            lemma_i64_prod_in_i128(rhs[2] as int, self[0] as int);
            lemma_i64_prod_in_i128(self[0] as int, rhs[1] as int);
            lemma_i64_prod_in_i128(rhs[0] as int, self[1] as int);
        }
        let x = self[1] as i128 * rhs[2] as i128 - rhs[1] as i128 * self[2] as i128;
        let y = self[2] as i128 * rhs[0] as i128 - rhs[2] as i128 * self[0] as i128;
        let z = self[0] as i128 * rhs[1] as i128 - rhs[0] as i128 * self[1] as i128;
        [x as i64, y as i64, z as i64]
    }
}

/// The product of two values in the range of `i64` stays well inside `i128`,
/// with room for sums and differences of a few such products.
pub proof fn lemma_i64_prod_in_i128(a: int, b: int)
    requires
        i64::MIN <= a <= i64::MAX,
        i64::MIN <= b <= i64::MAX,
    ensures
        -(0x40000000000000000000000000000000) <= a * b <= 0x40000000000000000000000000000000,
{
    assert(-(0x40000000000000000000000000000000) <= a * b <= 0x40000000000000000000000000000000)
        by (nonlinear_arith)
        requires i64::MIN <= a <= i64::MAX, i64::MIN <= b <= i64::MAX;
}

} // verus!
