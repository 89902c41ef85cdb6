//! A point in a grid-like 2D plane: a vector in Z^2 with componentwise
//! arithmetic, scalar product and truncating scalar division.

use vstd::prelude::*;

verus! {

/// Defines a point in a grid-like 2D plane.
/// It is essentially a vector in Z^2, and supports common operations
/// like element-wise addition and subtraction, product by a scalar
/// and dot product. Scalar division truncates toward zero and is only
/// defined for a non-zero divisor; `checked_div` reports the failure
/// cases explicitly instead.
#[derive(Eq, PartialEq, Clone, Copy, Hash, Debug, Structural)]
pub struct Point {
    pub x: i32,
    pub y: i32,
}

impl View for Point {
    type V = (int, int);

    open spec fn view(&self) -> (int, int) {
        (self.x as int, self.y as int)
    }
}

/// Componentwise sum of two integer pairs.
pub open spec fn point_add(a: (int, int), b: (int, int)) -> (int, int) {
    (a.0 + b.0, a.1 + b.1)
}

/// Componentwise difference of two integer pairs.
pub open spec fn point_sub(a: (int, int), b: (int, int)) -> (int, int) {
    (a.0 - b.0, a.1 - b.1)
}

/// Componentwise product of an integer pair by a scalar.
pub open spec fn point_scale(a: (int, int), s: int) -> (int, int) {
    (a.0 * s, a.1 * s)
}

/// Dot product of two integer pairs.
pub open spec fn point_dot(a: (int, int), b: (int, int)) -> int {
    a.0 * b.0 + a.1 * b.1
}

/// Absolute value of an integer.
pub open spec fn abs_int(a: int) -> int {
    if a >= 0 {
        a
    } else {
        -a
    }
}

/// Integer division truncating toward zero, as Rust's `/` does on
/// machine integers (not floor division).
pub open spec fn div_trunc(a: int, b: int) -> int {
    if (a >= 0) == (b >= 0) {
        abs_int(a) / abs_int(b)
    } else {
        -(abs_int(a) / abs_int(b))
    }
}

impl Point {
    pub fn new(x: i32, y: i32) -> (p: Self)
        ensures
            p@ == (x as int, y as int),
    {
        Self { x, y }
    }

    /// Componentwise addition; the sums must fit in the component type.
    pub fn add(self, other: Self) -> (r: Self)
        requires
            i32::MIN <= self@.0 + other@.0 <= i32::MAX,
            i32::MIN <= self@.1 + other@.1 <= i32::MAX,
        ensures
            r@ == point_add(self@, other@),
    {
        Self { x: self.x + other.x, y: self.y + other.y }
    }

    /// Componentwise subtraction; the differences must fit in the component type.
    pub fn sub(self, other: Self) -> (r: Self)
        requires
            i32::MIN <= self@.0 - other@.0 <= i32::MAX,
            i32::MIN <= self@.1 - other@.1 <= i32::MAX,
        ensures
            r@ == point_sub(self@, other@),
    {
        Self { x: self.x - other.x, y: self.y - other.y }
    }

    /// Multiplication by an integer scalar; the products must fit in the
    /// component type.
    pub fn mul(self, scalar: i32) -> (r: Self)
        requires
            i32::MIN <= self@.0 * scalar <= i32::MAX,
            i32::MIN <= self@.1 * scalar <= i32::MAX,
        ensures
            r@ == point_scale(self@, scalar as int),
    {
        Self { x: self.x * scalar, y: self.y * scalar }
    }

    /// Dot product; the products and their sum must fit in the component type.
    pub fn dot(self, other: Self) -> (r: i32)
        requires
            i32::MIN <= self@.0 * other@.0 <= i32::MAX,
            i32::MIN <= self@.1 * other@.1 <= i32::MAX,
            i32::MIN <= self@.0 * other@.0 + self@.1 * other@.1 <= i32::MAX,
        ensures
            r as int == point_dot(self@, other@),
    {
        self.x * other.x + self.y * other.y
    }

    /// Division by an integer scalar, truncating toward zero.
    /// Division by zero is a fatal error and is ruled out here;
    /// `checked_div` turns the failure cases into an explicit `None`.
    pub fn div(self, scalar: i32) -> (r: Self)
        requires
            scalar != 0,
            !(self.x == i32::MIN && scalar == -1),
            !(self.y == i32::MIN && scalar == -1),
        ensures
            r@.0 == div_trunc(self@.0, scalar as int),
            r@.1 == div_trunc(self@.1, scalar as int),
    {
        Self { x: div_i32_trunc(self.x, scalar), y: div_i32_trunc(self.y, scalar) }
    }

    /// Division by an integer scalar, truncating toward zero; returns
    /// `None` exactly when the divisor is zero or the quotient would
    /// overflow the component type.
    pub fn checked_div(self, scalar: i32) -> (r: Option<Self>)
        ensures
            r is None <==> (scalar == 0 || (scalar == -1 && (self.x == i32::MIN
                || self.y == i32::MIN))),
            r matches Some(q) ==> q@.0 == div_trunc(self@.0, scalar as int) && q@.1
                == div_trunc(self@.1, scalar as int),
    {
        if scalar == 0 || (scalar == -1 && (self.x == i32::MIN || self.y == i32::MIN)) {
            None
        } else {
            Some(self.div(scalar))
        }
    }
}

/// Truncating division of one component.
fn div_i32_trunc(a: i32, b: i32) -> (r: i32)
    requires
        b != 0,
        !(a == i32::MIN && b == -1),
    ensures
        r as int == div_trunc(a as int, b as int),
{
    let ua: u32 = if a < 0 {
        (-(a as i64)) as u32
    } else {
        a as u32
    };
    let ub: u32 = if b < 0 {
        (-(b as i64)) as u32
    } else {
        b as u32
    };
    let q: u32 = ua / ub;
    proof {
        assert(ua == abs_int(a as int));
        assert(ub == abs_int(b as int));
        assert(ub >= 1);
        assert(q <= ua) by (nonlinear_arith)
            requires
                q == ua as int / ub as int,
                ub >= 1,
        ;
        if ua == 0x8000_0000u32 && (a < 0) == (b < 0) {
            assert(ub >= 2);
            assert(q <= ua as int / 2) by (nonlinear_arith)
                requires
                    q == ua as int / ub as int,
                    ub >= 2,
            ;
        }
    }
    if (a < 0) != (b < 0) {
        (-(q as i64)) as i32
    } else {
        q as i32
    }
}

/// Adding a point and then subtracting it again gives back the original
/// point, for every pair of integer points.
pub proof fn lemma_add_sub_cancel(a: (int, int), b: (int, int))
    ensures
        point_sub(point_add(a, b), b) == a,
{
}

/// Scaling a point by one leaves it unchanged.
pub proof fn lemma_scale_one(a: (int, int))
    ensures
        point_scale(a, 1) == a,
{
}

} // verus!
