use vstd::prelude::*;

verus! {

/// A point or a displacement on the board, in cells.
#[derive(Debug, Clone, Copy, PartialEq, Eq, Structural)]
pub struct Vec2i {
    pub x: i16,
    pub y: i16,
}

/// The largest `r >= 0` with `r * r <= n`.
pub open spec fn is_floor_sqrt(n: int, r: int) -> bool {
    0 <= r && r * r <= n < (r + 1) * (r + 1)
}

/// Squared euclidean length.
pub open spec fn spec_square_len(v: Vec2i) -> int {
    v.x * v.x + v.y * v.y
}

/// The magnitude of `v`: its length rounded down.
pub open spec fn spec_magnitude(v: Vec2i) -> int {
    spec_magnitude_of(spec_square_len(v))
}

/// The floor square root of `n`.
pub open spec fn spec_magnitude_of(n: int) -> int {
    choose|r: int| is_floor_sqrt(n, r)
}

/// The floor square root is unique.
pub proof fn lemma_floor_sqrt_unique(n: int, r: int)
    requires
        is_floor_sqrt(n, r),
    ensures
        spec_magnitude_of(n) == r,
{
    let c = choose|c: int| is_floor_sqrt(n, c);
    assert(is_floor_sqrt(n, c));
    if c < r {
        assert((c + 1) * (c + 1) <= r * r) by (nonlinear_arith) requires 0 <= c < r;
    } else if c > r {
        assert((r + 1) * (r + 1) <= c * c) by (nonlinear_arith) requires 0 <= r < c;
    }
}

/// Each component is bounded by the magnitude, which is positive for a
/// non-zero vector.
proof fn lemma_component_within_magnitude(v: Vec2i, m: int)
    requires
        is_floor_sqrt(spec_square_len(v), m),
        v.x != 0 || v.y != 0,
    ensures
        1 <= m,
        -m <= v.x <= m,
        -m <= v.y <= m,
{
    let n = spec_square_len(v);
    assert(v.x * v.x >= 0 && v.y * v.y >= 0) by (nonlinear_arith);
    assert(v.x * v.x <= n && v.y * v.y <= n);
    assert(n >= 1) by (nonlinear_arith) requires v.x != 0 || v.y != 0, n == v.x * v.x + v.y * v.y;
    assert(m >= 1) by (nonlinear_arith) requires 1 <= n < (m + 1) * (m + 1), m >= 0;
    assert(-m <= v.x <= m) by (nonlinear_arith) requires v.x * v.x <= n, n < (m + 1) * (m + 1), m >= 0;
    assert(-m <= v.y <= m) by (nonlinear_arith) requires v.y * v.y <= n, n < (m + 1) * (m + 1), m >= 0;
}

/// What truncating division by `d` gives for a value within `-d..=d`.
proof fn lemma_truncated_quotient(x: int, d: int)
    requires
        1 <= d,
        -d <= x <= d,
    ensures
        0 < x < d ==> x / d == 0,
        -d < x < 0 ==> (x * -1) / d == 0,
        x == d ==> x / d == 1,
        x == -d ==> ((x * -1) / d) * -1 == -1,
{
    if 0 < x < d {
        vstd::arithmetic::div_mod::lemma_basic_div(x, d);
    }
    if -d < x < 0 {
        vstd::arithmetic::div_mod::lemma_basic_div(x * -1, d);
    }
    vstd::arithmetic::div_mod::lemma_div_by_self(d);
}

/// The integer square root of `n`, rounded down.
fn floor_sqrt(n: i32) -> (r: i32)
    requires
        0 <= n <= i16::MAX,
    ensures
        is_floor_sqrt(n as int, r as int),
        r <= 182,
{
    let mut r: i32 = 0;
    assert((r + 1) * (r + 1) <= 182 * 182) by (nonlinear_arith) requires 0 <= r <= 181;
    while (r + 1) * (r + 1) <= n
        invariant
            0 <= r <= 181,
            r * r <= n,
            n <= i16::MAX,
            (r + 1) * (r + 1) <= 182 * 182,
        decreases 182 - r,
    {
        assert((r + 1) * (r + 1) <= 32767 ==> r + 1 <= 181) by (nonlinear_arith);
        r = r + 1;
        assert((r + 1) * (r + 1) <= 182 * 182) by (nonlinear_arith) requires 0 <= r <= 181;
    }
    assert(r * r <= n < (r + 1) * (r + 1));
    r
}

impl Vec2i {
    /// Builds a vector from an `(x, y)` pair.
    pub fn from(tuple: (i16, i16)) -> (v: Vec2i)
        ensures
            v.x == tuple.0,
            v.y == tuple.1,
    {
        Vec2i { x: tuple.0, y: tuple.1 }
    }

    /// The euclidean length, rounded down to an integer.
    pub fn magnitude(&self) -> (m: i16)
        requires
            spec_square_len(*self) <= i16::MAX,
        ensures
            is_floor_sqrt(spec_square_len(*self), m as int),
    {
        let x: i32 = self.x as i32;
        let y: i32 = self.y as i32;
        assert(0 <= x * x <= 0x4000_0000 && 0 <= y * y <= 0x4000_0000) by (nonlinear_arith)
            requires -0x8000 <= x <= 0x7fff, -0x8000 <= y <= 0x7fff;
        let xx: i32 = x * x;
        let yy: i32 = y * y;
        let r = floor_sqrt(xx + yy);
        r as i16
    }

    /// Each component divided, truncating, by the magnitude: a vector whose
    /// components lie in -1..=1, with a component at +-1 only where the
    /// vector lies along that axis.
    pub fn normalised(&self) -> (v: Vec2i)
        requires
            spec_square_len(*self) <= i16::MAX,
            self.x != 0 || self.y != 0,
        ensures
            v.x == (if self.x == spec_magnitude(*self) { 1int } else if self.x == -spec_magnitude(*self) { -1 } else { 0 }),
            v.y == (if self.y == spec_magnitude(*self) { 1int } else if self.y == -spec_magnitude(*self) { -1 } else { 0 }),
    {
        let m = self.magnitude();
        proof {
            lemma_floor_sqrt_unique(spec_square_len(*self), m as int);
            lemma_component_within_magnitude(*self, m as int);
        }
        proof {
            lemma_truncated_quotient(self.x as int, m as int);
            lemma_truncated_quotient(self.y as int, m as int);
        }
        let x = match self.x.checked_div(m) {
            Some(q) => q,
            None => 0,
        };
        let y = match self.y.checked_div(m) {
            Some(q) => q,
            None => 0,
        };
        Vec2i { x, y }
    }

    /// The sum of the two components.
    pub fn add_components(&self) -> (s: i16)
        requires
            i16::MIN <= self.x + self.y <= i16::MAX,
        ensures
            s == self.x + self.y,
    {
        self.x + self.y
    }

    /// Component-wise sum.
    pub fn add(self, other: Vec2i) -> (v: Vec2i)
        requires
            i16::MIN <= self.x + other.x <= i16::MAX,
            i16::MIN <= self.y + other.y <= i16::MAX,
        ensures
            v.x == self.x + other.x,
            v.y == self.y + other.y,
    {
        Vec2i { x: self.x + other.x, y: self.y + other.y }
    }

    /// Adds `other` to this vector in place.
    pub fn add_assign(&mut self, other: Vec2i)
        requires
            i16::MIN <= old(self).x + other.x <= i16::MAX,
            i16::MIN <= old(self).y + other.y <= i16::MAX,
        ensures
            final(self).x == old(self).x + other.x,
            final(self).y == old(self).y + other.y,
    {
        self.x = self.x + other.x;
        self.y = self.y + other.y;
    }

    /// Component-wise difference.
    pub fn sub(self, other: Vec2i) -> (v: Vec2i)
        requires
            i16::MIN <= self.x - other.x <= i16::MAX,
            i16::MIN <= self.y - other.y <= i16::MAX,
        ensures
            v.x == self.x - other.x,
            v.y == self.y - other.y,
    {
        Vec2i { x: self.x - other.x, y: self.y - other.y }
    }

    /// Component-wise product.
    pub fn mul(self, other: Vec2i) -> (v: Vec2i)
        requires
            i16::MIN <= self.x * other.x <= i16::MAX,
            i16::MIN <= self.y * other.y <= i16::MAX,
        ensures
            v.x == self.x * other.x,
            v.y == self.y * other.y,
    {
        Vec2i { x: self.x * other.x, y: self.y * other.y }
    }

    /// Multiplies this vector component-wise by `other` in place.
    pub fn mul_assign(&mut self, other: Vec2i)
        requires
            i16::MIN <= old(self).x * other.x <= i16::MAX,
            i16::MIN <= old(self).y * other.y <= i16::MAX,
        ensures
            final(self).x == old(self).x * other.x,
            final(self).y == old(self).y * other.y,
    {
        self.x = self.x * other.x;
        self.y = self.y * other.y;
    }
}

} // verus!
