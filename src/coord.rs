use vstd::prelude::*;

verus! {

/// An integer point of the plane.
#[derive(Debug, Default, Copy, Clone, PartialEq, Eq, Structural)]
pub struct Coord {
    pub x: i32,
    pub y: i32,
}

/// Rust's truncating integer division, stated over `int`.
pub open spec fn trunc_div(a: int, b: int) -> int {
    if a >= 0 {
        a / b
    } else {
        -((-a) / b)
    }
}

proof fn lemma_trunc_div_neg(a: int, b: int)
    requires
        b < 0,
    ensures
        trunc_div(a, b) == -trunc_div(a, -b),
{
    if a >= 0 {
        assert(a / b == -(a / -b)) by (nonlinear_arith)
            requires b < 0, a >= 0;
    } else {
        assert((-a) / b == -((-a) / -b)) by (nonlinear_arith)
            requires b < 0, a < 0;
    }
}

/// `a / d` rounded toward zero, for a divisor of either sign.
fn quotient(a: i32, d: i32) -> (q: i32)
    requires
        d != 0,
        d == -1 ==> a != i32::MIN,
    ensures
        q == trunc_div(a as int, d as int),
{
    if d > 0 {
        a / d
    } else if d == i32::MIN {
        if a == i32::MIN {
            1
        } else {
            proof {
                lemma_trunc_div_neg(a as int, d as int);
                assert(trunc_div(a as int, -(d as int)) == 0) by (nonlinear_arith)
                    requires a > i32::MIN, d == i32::MIN;
            }
            0
        }
    } else {
        let nd: i32 = -d;
        let q: i32 = a / nd;
        proof {
            lemma_trunc_div_neg(a as int, d as int);
            if a < 0 {
                let m = -(a as int);
                if nd == 1 {
                    assert(m / (nd as int) == m);
                } else {
                    assert(m / (nd as int) <= m / 2) by (nonlinear_arith)
                        requires nd >= 2, m >= 0;
                }
            }
        }
        -q
    }
}

impl Coord {
    pub fn new(x: i32, y: i32) -> (r: Coord)
        ensures
            r.x == x,
            r.y == y,
    {
        Coord { x, y }
    }

    /// Component-wise sum.
    pub fn add(self, other: Coord) -> (r: Coord)
        requires
            i32::MIN <= self.x + other.x <= i32::MAX,
            i32::MIN <= self.y + other.y <= i32::MAX,
        ensures
            r.x == self.x + other.x,
            r.y == self.y + other.y,
    {
        Coord { x: self.x + other.x, y: self.y + other.y }
    }

    /// Component-wise difference.
    pub fn sub(self, other: Coord) -> (r: Coord)
        requires
            i32::MIN <= self.x - other.x <= i32::MAX,
            i32::MIN <= self.y - other.y <= i32::MAX,
        ensures
            r.x == self.x - other.x,
            r.y == self.y - other.y,
    {
        Coord { x: self.x - other.x, y: self.y - other.y }
    }

    /// The point with the same `x` on the horizontal axis.
    pub fn project_x(&self) -> (r: Coord)
        ensures
            r.x == self.x,
            r.y == 0,
    {
        Coord { x: self.x, y: 0 }
    }

    /// The point with the same `y` on the vertical axis.
    pub fn project_y(&self) -> (r: Coord)
        ensures
            r.x == 0,
            r.y == self.y,
    {
        Coord { x: 0, y: self.y }
    }

    /// Component-wise quotient by `d`, truncating toward zero as Rust's `/` does.
    pub fn div(self, d: i32) -> (r: Coord)
        requires
            d != 0,
            d == -1 ==> self.x != i32::MIN && self.y != i32::MIN,
        ensures
            r.x == trunc_div(self.x as int, d as int),
            r.y == trunc_div(self.y as int, d as int),
    {
        Coord { x: quotient(self.x, d), y: quotient(self.y, d) }
    }
}

} // verus!
