//! Two-dimensional integer vectors, read as complex numbers so that a
//! quarter turn is a multiplication by `i`.

use vstd::prelude::*;

verus! {

/// A pair `(x, y)`, used both for board coordinates and for moves.
#[derive(Debug, Clone, Copy, Hash, PartialEq, Eq, Structural)]
pub struct Complex<T> {
    pub x: T,
    pub y: T,
}

impl<T> Complex<T> {
    pub fn new(x: T, y: T) -> (r: Self)
        ensures
            r.x == x,
            r.y == y,
    {
        Self { x, y }
    }
}

/// Whether a value fits in an `i32`.
pub open spec fn fits_i32(v: int) -> bool {
    i32::MIN <= v <= i32::MAX
}

/// Component-wise sum.
pub open spec fn sum_spec(a: Complex<i32>, b: Complex<i32>) -> Complex<i32> {
    Complex { x: (a.x + b.x) as i32, y: (a.y + b.y) as i32 }
}

/// Complex product `(a.x + i a.y)(b.x + i b.y)`.
pub open spec fn product_spec(a: Complex<i32>, b: Complex<i32>) -> Complex<i32> {
    Complex { x: (a.x * b.x - a.y * b.y) as i32, y: (a.x * b.y + a.y * b.x) as i32 }
}

/// Scaling both components by `k`.
pub open spec fn scaled_spec(a: Complex<i32>, k: i32) -> Complex<i32> {
    Complex { x: (a.x * k) as i32, y: (a.y * k) as i32 }
}

impl core::ops::Add for Complex<i32> {
    type Output = Self;

    fn add(self, rhs: Self) -> (r: Self) {
        Self { x: self.x + rhs.x, y: self.y + rhs.y }
    }
}

impl vstd::std_specs::ops::AddSpecImpl for Complex<i32> {
    open spec fn obeys_add_spec() -> bool {
        true
    }

    open spec fn add_req(self, rhs: Self) -> bool {
        fits_i32(self.x + rhs.x) && fits_i32(self.y + rhs.y)
    }

    open spec fn add_spec(self, rhs: Self) -> Self {
        sum_spec(self, rhs)
    }
}

/// In-place sum; a component that leaves the `i32` range wraps around.
impl core::ops::AddAssign for Complex<i32> {
    fn add_assign(&mut self, rhs: Self) {
        self.x = self.x.wrapping_add(rhs.x);
        self.y = self.y.wrapping_add(rhs.y);
    }
}

impl core::ops::Mul for Complex<i32> {
    type Output = Self;

    fn mul(self, rhs: Self) -> (r: Self) {
        Self { x: self.x * rhs.x - self.y * rhs.y, y: self.x * rhs.y + self.y * rhs.x }
    }
}

impl vstd::std_specs::ops::MulSpecImpl for Complex<i32> {
    open spec fn obeys_mul_spec() -> bool {
        true
    }

    open spec fn mul_req(self, rhs: Self) -> bool {
        &&& fits_i32(self.x * rhs.x)
        &&& fits_i32(self.y * rhs.y)
        &&& fits_i32(self.x * rhs.y)
        &&& fits_i32(self.y * rhs.x)
        &&& fits_i32(self.x * rhs.x - self.y * rhs.y)
        &&& fits_i32(self.x * rhs.y + self.y * rhs.x)
    }

    open spec fn mul_spec(self, rhs: Self) -> Self {
        product_spec(self, rhs)
    }
}

/// In-place complex product; arithmetic wraps around outside the `i32` range.
impl core::ops::MulAssign for Complex<i32> {
    fn mul_assign(&mut self, rhs: Self) {
        let x = self.x.wrapping_mul(rhs.x).wrapping_sub(self.y.wrapping_mul(rhs.y));
        let y = self.x.wrapping_mul(rhs.y).wrapping_add(self.y.wrapping_mul(rhs.x));
        self.x = x;
        self.y = y;
    }
}

impl core::ops::Mul<i32> for Complex<i32> {
    type Output = Self;

    fn mul(self, rhs: i32) -> (r: Self) {
        Self { x: self.x * rhs, y: self.y * rhs }
    }
}

impl vstd::std_specs::ops::MulSpecImpl<i32> for Complex<i32> {
    open spec fn obeys_mul_spec() -> bool {
        true
    }

    open spec fn mul_req(self, rhs: i32) -> bool {
        fits_i32(self.x * rhs) && fits_i32(self.y * rhs)
    }

    open spec fn mul_spec(self, rhs: i32) -> Self {
        scaled_spec(self, rhs)
    }
}

/// In-place scaling; arithmetic wraps around outside the `i32` range.
impl core::ops::MulAssign<i32> for Complex<i32> {
    fn mul_assign(&mut self, rhs: i32) {
        self.x = self.x.wrapping_mul(rhs);
        self.y = self.y.wrapping_mul(rhs);
    }
}

} // verus!
