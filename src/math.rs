//! Small vector types and the distance capability the graph is built on.
use vstd::prelude::*;

verus! {

/// A two-component vector.
#[derive(Clone, Copy, Debug, PartialEq, Eq, Hash, PartialOrd, Ord, Default)]
pub struct Vec2<T> {
    pub x: T,
    pub y: T,
}

/// A three-component vector.
#[derive(Clone, Copy, Debug, Default)]
pub struct Vec3<T> {
    pub x: T,
    pub y: T,
    pub z: T,
}

/// A four-component vector.
#[derive(Clone, Copy, Debug)]
pub struct Vec4<T> {
    pub x: T,
    pub y: T,
    pub z: T,
    pub w: T,
}

impl<T: Copy> From<T> for Vec2<T> {
    /// Both components set to `value`.
    fn from(value: T) -> (r: Self) {
        Vec2 { x: value, y: value }
    }
}

impl<T: Copy> vstd::std_specs::convert::FromSpecImpl<T> for Vec2<T> {
    open spec fn obeys_from_spec() -> bool {
        true
    }

    open spec fn from_spec(v: T) -> Self {
        Vec2 { x: v, y: v }
    }
}

impl<T: Copy> From<T> for Vec3<T> {
    /// All three components set to `value`.
    fn from(value: T) -> (r: Self) {
        Vec3 { x: value, y: value, z: value }
    }
}

impl<T: Copy> vstd::std_specs::convert::FromSpecImpl<T> for Vec3<T> {
    open spec fn obeys_from_spec() -> bool {
        true
    }

    open spec fn from_spec(v: T) -> Self {
        Vec3 { x: v, y: v, z: v }
    }
}

impl<T: Copy> From<T> for Vec4<T> {
    /// All four components set to `value`.
    fn from(value: T) -> (r: Self) {
        Vec4 { x: value, y: value, z: value, w: value }
    }
}

impl<T: Copy> vstd::std_specs::convert::FromSpecImpl<T> for Vec4<T> {
    open spec fn obeys_from_spec() -> bool {
        true
    }

    open spec fn from_spec(v: T) -> Self {
        Vec4 { x: v, y: v, z: v, w: v }
    }
}

/// A 4x4 matrix stored row by row.
pub type Mat4<T> = [[T; 4]; 4];

/// Column `j` of `mat`, top to bottom.
pub fn column<T: Copy>(mat: &Mat4<T>, j: usize) -> (r: [T; 4])
    requires
        j < 4,
    ensures
        r@ == seq![mat[0][j as int], mat[1][j as int], mat[2][j as int], mat[3][j as int]],
{
    let r = [mat[0][j], mat[1][j], mat[2][j], mat[3][j]];
    assert(r@ =~= seq![mat[0][j as int], mat[1][j as int], mat[2][j as int], mat[3][j as int]]);
    r
}

/// Anything offering a symmetric, non-negative distance between two values.
///
/// The graph builder and the heuristic search are written against this
/// capability only, so they serve any node representation.
pub trait Distance: Sized {
    /// The distance between `self` and `other`.
    spec fn spec_distance(&self, other: &Self) -> nat;

    /// The distance does not depend on the order of its arguments.
    proof fn lemma_distance_symmetric(a: &Self, b: &Self)
        ensures
            a.spec_distance(b) == b.spec_distance(a),
    ;

    fn distance(&self, other: &Self) -> (d: u64)
        ensures
            d as nat == self.spec_distance(other),
    ;
}

/// `r` is the smallest natural number whose square is at least `s`.
pub open spec fn is_ceil_sqrt(s: nat, r: nat) -> bool {
    &&& r * r >= s
    &&& (r == 0 || (r - 1) * (r - 1) < s)
}

/// The square root of `s`, rounded up.
pub open spec fn ceil_sqrt(s: nat) -> nat {
    choose|r: nat| is_ceil_sqrt(s, r)
}

proof fn lemma_ceil_sqrt_unique(s: nat, a: nat, b: nat)
    requires
        is_ceil_sqrt(s, a),
        is_ceil_sqrt(s, b),
    ensures
        a == b,
{
    if a < b {
        assert((b - 1) * (b - 1) >= a * a) by (nonlinear_arith)
            requires
                a <= b - 1,
        ;
    } else if b < a {
        assert((a - 1) * (a - 1) >= b * b) by (nonlinear_arith)
            requires
                b <= a - 1,
        ;
    }
}

/// Rounded-up square root of a value of at most `2^66`, by binary search.
fn ceil_sqrt_exec(s: u128) -> (r: u64)
    requires
        s <= 0x4_0000_0000_0000_0000u128,
    ensures
        r as nat == ceil_sqrt(s as nat),
{
    let mut lo: u128 = 0;
    let mut hi: u128 = 0x2_0000_0000;
    assert(hi * hi == 0x4_0000_0000_0000_0000u128);
    while lo < hi
        invariant
            lo <= hi <= 0x2_0000_0000,
            hi * hi >= s,
            lo == 0 || (lo - 1) * (lo - 1) < s,
        decreases hi - lo,
    {
        let mid: u128 = lo + (hi - lo) / 2;
        assert(mid * mid <= 0x4_0000_0000_0000_0000u128) by (nonlinear_arith)
            requires
                mid <= 0x2_0000_0000,
        ;
        if mid * mid >= s {
            hi = mid;
        } else {
            lo = mid + 1;
        }
    }
    proof {
        assert(is_ceil_sqrt(s as nat, lo as nat));
        let c = ceil_sqrt(s as nat);
        assert(is_ceil_sqrt(s as nat, c));
        lemma_ceil_sqrt_unique(s as nat, c, lo as nat);
    }
    lo as u64
}

/// Squared Euclidean length of the difference of two points.
pub open spec fn squared_gap(a: Vec2<i32>, b: Vec2<i32>) -> nat {
    ((a.x - b.x) * (a.x - b.x) + (a.y - b.y) * (a.y - b.y)) as nat
}

/// Points with integer coordinates are at the Euclidean distance between
/// them, rounded up to a whole unit.
impl Distance for Vec2<i32> {
    open spec fn spec_distance(&self, other: &Self) -> nat {
        ceil_sqrt(squared_gap(*self, *other))
    }

    proof fn lemma_distance_symmetric(a: &Self, b: &Self) {
        assert((a.x - b.x) * (a.x - b.x) == (b.x - a.x) * (b.x - a.x)) by (nonlinear_arith);
        assert((a.y - b.y) * (a.y - b.y) == (b.y - a.y) * (b.y - a.y)) by (nonlinear_arith);
    }

    fn distance(&self, other: &Self) -> (d: u64) {
        let dx: i64 = self.x as i64 - other.x as i64;
        let dy: i64 = self.y as i64 - other.y as i64;
        let ux: u128 = if dx < 0 { (-dx) as u128 } else { dx as u128 };
        let uy: u128 = if dy < 0 { (-dy) as u128 } else { dy as u128 };
        assert(ux * ux <= 0x1_0000_0000_0000_0000u128) by (nonlinear_arith)
            requires
                ux <= 0x1_0000_0000,
        ;
        assert(uy * uy <= 0x1_0000_0000_0000_0000u128) by (nonlinear_arith)
            requires
                uy <= 0x1_0000_0000,
        ;
        let s: u128 = ux * ux + uy * uy;
        assert(s as int == (self.x - other.x) * (self.x - other.x) + (self.y - other.y) * (
        self.y - other.y)) by (nonlinear_arith)
            requires
                ux as int == if dx < 0 { -dx } else { dx as int },
                uy as int == if dy < 0 { -dy } else { dy as int },
                dx == self.x - other.x,
                dy == self.y - other.y,
                s == ux * ux + uy * uy,
        ;
        ceil_sqrt_exec(s)
    }
}

} // verus!
