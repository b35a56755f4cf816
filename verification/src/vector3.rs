//! Three-component vectors in 16-bit binary fixed point.  Positions,
//! directions and normals are all carried this way; a "unit" vector has
//! components of magnitude at most `FX_ONE`.

use vstd::prelude::*;

use crate::fixed::{fx_mul, isqrt_u64, tdiv};
use crate::FX_ONE;

verus! {

/// Bound on the coordinates of photon positions and query points
/// (4096 world units in either direction).
pub const COORD_LIMIT: i64 = 268435456;

/// Bound on the components of direction and normal vectors; exact unit
/// vectors have components of magnitude at most `FX_ONE`.
pub const UNIT_LIMIT: i64 = 131072;

#[derive(Clone, Copy, Debug, PartialEq, Eq, Structural)]
pub struct Vector3 {
    pub x: i64,
    pub y: i64,
    pub z: i64,
}

/// The unscaled scalar product `a.x*b.x + a.y*b.y + a.z*b.z`.
pub open spec fn dot_raw(a: Vector3, b: Vector3) -> int {
    a.x * b.x + a.y * b.y + a.z * b.z
}

/// The unscaled squared distance between two points.
pub open spec fn dist_sq_spec(a: Vector3, b: Vector3) -> int {
    (a.x - b.x) * (a.x - b.x) + (a.y - b.y) * (a.y - b.y) + (a.z - b.z) * (a.z - b.z)
}

/// All components of magnitude at most `bound`.
pub open spec fn vec_bounded(v: Vector3, bound: int) -> bool {
    -bound <= v.x <= bound && -bound <= v.y <= bound && -bound <= v.z <= bound
}

impl Vector3 {
    pub fn new(x: i64, y: i64, z: i64) -> (r: Self)
        ensures
            r == (Vector3 { x, y, z }),
    {
        Vector3 { x, y, z }
    }

    pub fn add(&self, other: &Vector3) -> (r: Vector3)
        requires
            i64::MIN <= self.x + other.x <= i64::MAX,
            i64::MIN <= self.y + other.y <= i64::MAX,
            i64::MIN <= self.z + other.z <= i64::MAX,
        ensures
            r.x == self.x + other.x,
            r.y == self.y + other.y,
            r.z == self.z + other.z,
    {
        Vector3 { x: self.x + other.x, y: self.y + other.y, z: self.z + other.z }
    }

    pub fn sub(&self, other: &Vector3) -> (r: Vector3)
        requires
            i64::MIN <= self.x - other.x <= i64::MAX,
            i64::MIN <= self.y - other.y <= i64::MAX,
            i64::MIN <= self.z - other.z <= i64::MAX,
        ensures
            r.x == self.x - other.x,
            r.y == self.y - other.y,
            r.z == self.z - other.z,
    {
        Vector3 { x: self.x - other.x, y: self.y - other.y, z: self.z - other.z }
    }

    pub fn neg(&self) -> (r: Vector3)
        requires
            self.x > i64::MIN,
            self.y > i64::MIN,
            self.z > i64::MIN,
        ensures
            r.x == -self.x,
            r.y == -self.y,
            r.z == -self.z,
    {
        Vector3 { x: -self.x, y: -self.y, z: -self.z }
    }

    /// Componentwise product with a fixed-point scalar.
    pub fn scale(&self, s: i64) -> (r: Vector3)
        requires
            i64::MIN <= tdiv(self.x * s, FX_ONE as int) <= i64::MAX,
            i64::MIN <= tdiv(self.y * s, FX_ONE as int) <= i64::MAX,
            i64::MIN <= tdiv(self.z * s, FX_ONE as int) <= i64::MAX,
        ensures
            r.x == tdiv(self.x * s, FX_ONE as int),
            r.y == tdiv(self.y * s, FX_ONE as int),
            r.z == tdiv(self.z * s, FX_ONE as int),
    {
        Vector3 { x: fx_mul(self.x, s), y: fx_mul(self.y, s), z: fx_mul(self.z, s) }
    }

    /// Fixed-point scalar product: `dot_raw / FX_ONE`, rounded toward zero.
    pub fn inner_product(&self, other: &Vector3) -> (r: i64)
        requires
            vec_bounded(*self, 0x4000_0000_0000),
            vec_bounded(*other, 0x4000_0000_0000),
            i64::MIN <= tdiv(dot_raw(*self, *other), FX_ONE as int) <= i64::MAX,
        ensures
            r == tdiv(dot_raw(*self, *other), FX_ONE as int),
    {
        proof {
            lemma_abs_prod_bound(self.x as int, other.x as int, 0x4000_0000_0000);
            lemma_abs_prod_bound(self.y as int, other.y as int, 0x4000_0000_0000);
            lemma_abs_prod_bound(self.z as int, other.z as int, 0x4000_0000_0000);
        }
        let px: i128 = (self.x as i128) * (other.x as i128);
        let py: i128 = (self.y as i128) * (other.y as i128);
        let pz: i128 = (self.z as i128) * (other.z as i128);
        let p: i128 = px + py + pz;
        let neg = p < 0;
        let m: i128 = if neg {
            -p
        } else {
            p
        };
        let q: i128 = m / (FX_ONE as i128);
        let s: i128 = if neg {
            -q
        } else {
            q
        };
        s as i64
    }

    /// Fixed-point squared length: `dot_raw(self, self) / FX_ONE`.
    pub fn length_squared(&self) -> (r: i64)
        requires
            vec_bounded(*self, 0x4000_0000_0000),
            tdiv(dot_raw(*self, *self), FX_ONE as int) <= i64::MAX,
        ensures
            r == tdiv(dot_raw(*self, *self), FX_ONE as int),
            r >= 0,
    {
        proof {
            lemma_dot_self_nonneg(*self);
        }
        self.inner_product(self)
    }

    /// Unscaled squared distance to another point, exact in `u64`.
    pub fn dist_sq(&self, other: &Vector3) -> (r: u64)
        requires
            vec_bounded(*self, 0x4000_0000),
            vec_bounded(*other, 0x4000_0000),
        ensures
            r == dist_sq_spec(*self, *other),
    {
        let dx: i64 = self.x - other.x;
        let dy: i64 = self.y - other.y;
        let dz: i64 = self.z - other.z;
        proof {
            lemma_square_bound(dx as int, 0x8000_0000);
            lemma_square_bound(dy as int, 0x8000_0000);
            lemma_square_bound(dz as int, 0x8000_0000);
        }
        (dx * dx) as u64 + (dy * dy) as u64 + (dz * dz) as u64
    }

    /// The direction mirrored about a normal: `self - n * (2 * (self . n))`.
    pub fn reflect(&self, normal: &Vector3) -> (r: Vector3)
        requires
            vec_bounded(*self, UNIT_LIMIT as int),
            vec_bounded(*normal, UNIT_LIMIT as int),
        ensures
            r == reflect_spec(*self, *normal),
            vec_bounded(r, 27 * (UNIT_LIMIT as int)),
    {
        proof {
            lemma_reflect_spec_bounded(*self, *normal);
        }
        let d: i64 = self.inner_product(normal);
        let rx = reflect_component(self.x, d, normal.x);
        let ry = reflect_component(self.y, d, normal.y);
        let rz = reflect_component(self.z, d, normal.z);
        Vector3 { x: rx, y: ry, z: rz }
    }

    /// The same direction scaled to unit length, or `None` for the zero
    /// vector (degenerate input, treated as "no direction").
    pub fn normalized(&self) -> (r: Option<Vector3>)
        requires
            vec_bounded(*self, 0x4000_0000),
        ensures
            r is None <==> dot_raw(*self, *self) == 0,
            r is Some ==> ({
                let len = isqrt_spec(dot_raw(*self, *self));
                &&& r->0.x == tdiv(self.x * FX_ONE, len)
                &&& r->0.y == tdiv(self.y * FX_ONE, len)
                &&& r->0.z == tdiv(self.z * FX_ONE, len)
                &&& vec_bounded(r->0, FX_ONE as int)
            }),
    {
        proof {
            lemma_square_bound(self.x as int, 0x4000_0000);
            lemma_square_bound(self.y as int, 0x4000_0000);
            lemma_square_bound(self.z as int, 0x4000_0000);
            lemma_dot_self_nonneg(*self);
        }
        let n2: u64 = (self.x * self.x) as u64 + (self.y * self.y) as u64 + (self.z * self.z) as u64;
        if n2 == 0 {
            None
        } else {
            let len: u64 = isqrt_u64(n2);
            proof {
                lemma_isqrt_spec_agrees(n2 as int, len as int);
                lemma_component_le_isqrt(self.x as int, n2 as int, len as int);
                lemma_component_le_isqrt(self.y as int, n2 as int, len as int);
                lemma_component_le_isqrt(self.z as int, n2 as int, len as int);
            }
            let rx = div_by_len(self.x, len);
            let ry = div_by_len(self.y, len);
            let rz = div_by_len(self.z, len);
            Some(Vector3 { x: rx, y: ry, z: rz })
        }
    }
}

/// The mirrored direction as a value: `v - n * (2 * (v . n) / FX_ONE)`.
pub open spec fn reflect_spec(v: Vector3, n: Vector3) -> Vector3 {
    let d = tdiv(dot_raw(v, n), FX_ONE as int);
    Vector3 {
        x: (v.x - tdiv(2 * d * n.x, FX_ONE as int)) as i64,
        y: (v.y - tdiv(2 * d * n.y, FX_ONE as int)) as i64,
        z: (v.z - tdiv(2 * d * n.z, FX_ONE as int)) as i64,
    }
}

/// For unit-bounded inputs the mirrored direction is bounded too, and the
/// value casts in `reflect_spec` do not truncate.
pub proof fn lemma_reflect_spec_bounded(v: Vector3, n: Vector3)
    requires
        vec_bounded(v, UNIT_LIMIT as int),
        vec_bounded(n, UNIT_LIMIT as int),
    ensures
        ({
            let d = tdiv(dot_raw(v, n), FX_ONE as int);
            &&& -(3 * (UNIT_LIMIT as int) * UNIT_LIMIT) <= dot_raw(v, n) <= 3 * (
            UNIT_LIMIT as int) * UNIT_LIMIT
            &&& -(6 * (UNIT_LIMIT as int)) <= d <= 6 * (UNIT_LIMIT as int)
            &&& forall|c: int|
                -(UNIT_LIMIT as int) <= c <= UNIT_LIMIT as int ==> -(24 * (UNIT_LIMIT as int))
                    <= #[trigger] tdiv(2 * d * c, FX_ONE as int) <= 24 * (UNIT_LIMIT as int)
        }),
        vec_bounded(reflect_spec(v, n), 27 * (UNIT_LIMIT as int)),
{
    lemma_abs_prod_bound(v.x as int, n.x as int, UNIT_LIMIT as int);
    lemma_abs_prod_bound(v.y as int, n.y as int, UNIT_LIMIT as int);
    lemma_abs_prod_bound(v.z as int, n.z as int, UNIT_LIMIT as int);
    let d = tdiv(dot_raw(v, n), FX_ONE as int);
    lemma_tdiv_div_le(dot_raw(v, n), 3 * (UNIT_LIMIT as int) * UNIT_LIMIT);
    assert(3 * (UNIT_LIMIT as int) * UNIT_LIMIT == 51539607552);
    assert(51539607552int / (FX_ONE as int) == 786432);
    assert forall|c: int|
        -(UNIT_LIMIT as int) <= c <= UNIT_LIMIT as int implies -(24 * (UNIT_LIMIT as int))
        <= #[trigger] tdiv(2 * d * c, FX_ONE as int) <= 24 * (UNIT_LIMIT as int) by {
        assert(-(12 * (UNIT_LIMIT as int) * (UNIT_LIMIT as int)) <= 2 * d * c <= 12 * (
        UNIT_LIMIT as int) * (UNIT_LIMIT as int)) by (nonlinear_arith)
            requires
                -(6 * (UNIT_LIMIT as int)) <= d <= 6 * (UNIT_LIMIT as int),
                -(UNIT_LIMIT as int) <= c <= UNIT_LIMIT as int,
        ;
        lemma_tdiv_div_le(2 * d * c, 12 * (UNIT_LIMIT as int) * (UNIT_LIMIT as int));
        assert(12 * (UNIT_LIMIT as int) * (UNIT_LIMIT as int) == 206158430208);
        assert(206158430208int / (FX_ONE as int) == 3145728);
    }
}

/// The magnitude of a truncating quotient is at most that of the dividend.
pub proof fn lemma_tdiv_shrinks(p: int, bound: int)
    requires
        -bound <= p <= bound,
        0 <= bound,
    ensures
        -bound <= tdiv(p, FX_ONE as int) <= bound,
{
    lemma_tdiv_bounds(p, bound);
}

/// The magnitude of a truncating quotient by `FX_ONE` is at most the bound
/// divided by `FX_ONE`.
pub proof fn lemma_tdiv_div_le(p: int, bound: int)
    requires
        -bound <= p <= bound,
        0 <= bound,
    ensures
        -(bound / (FX_ONE as int)) <= tdiv(p, FX_ONE as int) <= bound / (FX_ONE as int),
{
    if p >= 0 {
        assert(p / (FX_ONE as int) <= bound / (FX_ONE as int)) by (nonlinear_arith)
            requires
                0 <= p <= bound,
        ;
        assert(p / (FX_ONE as int) >= 0) by (nonlinear_arith)
            requires
                p >= 0,
        ;
        assert(bound / (FX_ONE as int) >= 0) by (nonlinear_arith)
            requires
                bound >= 0,
        ;
    } else {
        assert((-p) / (FX_ONE as int) <= bound / (FX_ONE as int)) by (nonlinear_arith)
            requires
                0 <= -p <= bound,
        ;
        assert((-p) / (FX_ONE as int) >= 0) by (nonlinear_arith)
            requires
                -p >= 0,
        ;
    }
}

/// The greatest `r >= 0` with `r * r <= n` (for `n >= 0`).
pub open spec fn isqrt_spec(n: int) -> int {
    choose|r: int| r >= 0 && #[trigger] (r * r) <= n && n < (r + 1) * (r + 1)
}

pub proof fn lemma_isqrt_spec_agrees(n: int, len: int)
    requires
        0 <= len,
        len * len <= n,
        n < (len + 1) * (len + 1),
    ensures
        isqrt_spec(n) == len,
{
    assert(exists|r: int| r >= 0 && #[trigger] (r * r) <= n && n < (r + 1) * (r + 1)) by {
        assert(len >= 0 && len * len <= n && n < (len + 1) * (len + 1));
    }
    let c = isqrt_spec(n);
    assert(c >= 0 && c * c <= n && n < (c + 1) * (c + 1));
    assert(c == len) by (nonlinear_arith)
        requires
            c >= 0,
            len >= 0,
            c * c <= n,
            n < (c + 1) * (c + 1),
            len * len <= n,
            n < (len + 1) * (len + 1),
    ;
}

pub proof fn lemma_abs_prod_bound(a: int, b: int, bound: int)
    requires
        -bound <= a <= bound,
        -bound <= b <= bound,
        0 <= bound,
    ensures
        -(bound * bound) <= a * b <= bound * bound,
{
    assert(-(bound * bound) <= a * b <= bound * bound) by (nonlinear_arith)
        requires
            -bound <= a <= bound,
            -bound <= b <= bound,
            0 <= bound,
    ;
}

proof fn lemma_dot_self_nonneg(v: Vector3)
    ensures
        dot_raw(v, v) >= 0,
        v.x * v.x <= dot_raw(v, v),
        v.y * v.y <= dot_raw(v, v),
        v.z * v.z <= dot_raw(v, v),
{
    assert(v.x * v.x >= 0 && v.y * v.y >= 0 && v.z * v.z >= 0) by (nonlinear_arith);
}

proof fn lemma_square_bound(a: int, bound: int)
    requires
        -bound <= a <= bound,
        0 <= bound,
    ensures
        0 <= a * a <= bound * bound,
{
    assert(0 <= a * a <= bound * bound) by (nonlinear_arith)
        requires
            -bound <= a <= bound,
            0 <= bound,
    ;
}

/// A component of a vector is no longer than the vector itself.
proof fn lemma_component_le_isqrt(c: int, n: int, len: int)
    requires
        c * c <= n,
        0 <= len,
        n < (len + 1) * (len + 1),
    ensures
        -len <= c <= len,
{
    assert(-len <= c <= len) by (nonlinear_arith)
        requires
            c * c <= n,
            0 <= len,
            n < (len + 1) * (len + 1),
    ;
}

proof fn lemma_tdiv_bounds(p: int, bound: int)
    requires
        -bound <= p <= bound,
        0 <= bound,
    ensures
        -bound <= tdiv(p, FX_ONE as int) <= bound,
{
    if p >= 0 {
        assert(p / (FX_ONE as int) <= p) by (nonlinear_arith)
            requires
                p >= 0,
        ;
        assert(p / (FX_ONE as int) >= 0) by (nonlinear_arith)
            requires
                p >= 0,
        ;
    } else {
        assert((-p) / (FX_ONE as int) <= -p) by (nonlinear_arith)
            requires
                -p >= 0,
        ;
        assert((-p) / (FX_ONE as int) >= 0) by (nonlinear_arith)
            requires
                -p >= 0,
        ;
    }
}

/// One component of the mirrored direction: `c - 2 * d * nc / FX_ONE`.
fn reflect_component(c: i64, d: i64, nc: i64) -> (r: i64)
    requires
        -206158430208 <= d <= 206158430208,
        -(UNIT_LIMIT as int) <= nc <= UNIT_LIMIT as int,
        -(UNIT_LIMIT as int) <= c <= UNIT_LIMIT as int,
    ensures
        r == c - tdiv(2 * d * nc, FX_ONE as int),
{
    let twice: i64 = 2 * d;
    assert(-0x1000_0000_0000_0000 <= (twice as int) * nc <= 0x1000_0000_0000_0000)
        by (nonlinear_arith)
        requires
            -412316860416 <= twice <= 412316860416,
            -(UNIT_LIMIT as int) <= nc <= UNIT_LIMIT as int,
    ;
    proof {
        lemma_tdiv_bounds((twice as int) * nc, 0x1000_0000_0000_0000);
    }
    let dc: i64 = fx_mul(twice, nc);
    c - dc
}

/// Division of a bounded component by the vector length, with the quotient
/// bounded by `FX_ONE` because `|c| <= len`.
fn div_by_len(c: i64, len: u64) -> (r: i64)
    requires
        len > 0,
        -(len as int) <= c <= len as int,
        len <= 0x1_0000_0000u64,
    ensures
        r == tdiv(c * FX_ONE, len as int),
        -FX_ONE <= r <= FX_ONE,
{
    proof {
        lemma_div_quotient_bound(c as int, len as int);
    }
    let p: i128 = (c as i128) * (FX_ONE as i128);
    assert(-0x1_0000_0000_0000_0000i128 <= p <= 0x1_0000_0000_0000_0000i128) by (nonlinear_arith)
        requires
            -0x1_0000_0000_0000i128 <= c <= 0x1_0000_0000_0000i128,
            p == c * (FX_ONE as i128),
    ;
    let neg = p < 0;
    let m: i128 = if neg {
        -p
    } else {
        p
    };
    let q: i128 = m / (len as i128);
    let s: i128 = if neg {
        -q
    } else {
        q
    };
    s as i64
}

proof fn lemma_div_quotient_bound(c: int, len: int)
    requires
        len > 0,
        -len <= c <= len,
    ensures
        -FX_ONE <= tdiv(c * FX_ONE, len) <= FX_ONE,
{
    if c >= 0 {
        assert(c * FX_ONE <= len * FX_ONE) by (nonlinear_arith)
            requires
                c <= len,
                FX_ONE > 0,
        ;
        assert(c * FX_ONE / len <= len * FX_ONE / len) by (nonlinear_arith)
            requires
                c * FX_ONE <= len * FX_ONE,
                len > 0,
        ;
        assert(len * FX_ONE / len == FX_ONE) by (nonlinear_arith)
            requires
                len > 0,
        ;
        assert(c * FX_ONE >= 0) by (nonlinear_arith)
            requires
                c >= 0,
                FX_ONE > 0,
        ;
        assert(c * FX_ONE / len >= 0) by (nonlinear_arith)
            requires
                c * FX_ONE >= 0,
                len > 0,
        ;
    } else {
        let d = -c;
        assert(d * FX_ONE <= len * FX_ONE) by (nonlinear_arith)
            requires
                d <= len,
                FX_ONE > 0,
        ;
        assert(d * FX_ONE / len <= len * FX_ONE / len) by (nonlinear_arith)
            requires
                d * FX_ONE <= len * FX_ONE,
                len > 0,
        ;
        assert(len * FX_ONE / len == FX_ONE) by (nonlinear_arith)
            requires
                len > 0,
        ;
        assert(d * FX_ONE >= 0) by (nonlinear_arith)
            requires
                d >= 0,
                FX_ONE > 0,
        ;
        assert(d * FX_ONE / len >= 0) by (nonlinear_arith)
            requires
                d * FX_ONE >= 0,
                len > 0,
        ;
        assert(-(c * FX_ONE) == d * FX_ONE) by (nonlinear_arith)
            requires
                d == -c,
        ;
    }
}

} // verus!
