//! The short-Weierstrass curve `y^2 = x^3 + b` over the scalar field that the
//! ladder runs on, with the complete addition formulas of Renes, Costello and
//! Batina for `a = 0` in homogeneous projective coordinates.
use vstd::prelude::*;
use crate::field::{
    Fe, fadd, fmul, fsub, fneg, finv, lemma_field_ring, lemma_field_units, lemma_inverse_unique,
    fe_add, fe_mul, fe_sub, fe_neg, fe_inv,
};
use crate::error::KzgError;

verus! {

/// The curve parameter the formulas need: `b3 = 3 b`.
#[derive(Clone, Copy, Debug, PartialEq, Eq)]
pub struct CurveConfig {
    pub b3: Fe,
}

impl CurveConfig {
    pub open spec fn wf(&self) -> bool {
        self.b3.wf()
    }

    /// The curve `y^2 = x^3 + b`, given `b`.
    pub fn new(b: &Fe) -> (r: CurveConfig)
        requires
            b.wf(),
        ensures
            r.wf(),
            r.b3.val() == fmul(3, b.val()),
    {
        CurveConfig { b3: fe_mul(&Fe::from_u64(3), b) }
    }
}

/// A point in affine coordinates (never the point at infinity).
#[derive(Clone, Copy, Debug, PartialEq, Eq)]
pub struct AffinePoint {
    pub x: Fe,
    pub y: Fe,
}

/// A point in homogeneous projective coordinates `(X : Y : Z)`, standing for
/// `(X / Z, Y / Z)`; `Z = 0` is the point at infinity.
#[derive(Clone, Copy, Debug, PartialEq, Eq)]
pub struct ProjectivePoint {
    pub x: Fe,
    pub y: Fe,
    pub z: Fe,
}

/// Coordinates as field values.
pub struct Pt {
    pub x: int,
    pub y: int,
    pub z: int,
}

impl AffinePoint {
    pub open spec fn wf(&self) -> bool {
        self.x.wf() && self.y.wf()
    }
}

impl ProjectivePoint {
    pub open spec fn wf(&self) -> bool {
        self.x.wf() && self.y.wf() && self.z.wf()
    }

    pub open spec fn pt(&self) -> Pt {
        Pt { x: self.x.val(), y: self.y.val(), z: self.z.val() }
    }

    /// The neutral element `(0 : 1 : 0)`.
    pub fn identity() -> (r: ProjectivePoint)
        ensures
            r.wf(),
            r.pt() == (Pt { x: 0, y: 1, z: 0 }),
    {
        ProjectivePoint { x: Fe::zero(), y: Fe::one(), z: Fe::zero() }
    }

    /// The projective form `(x : y : 1)` of an affine point.
    pub fn from_affine(p: &AffinePoint) -> (r: ProjectivePoint)
        requires
            p.wf(),
        ensures
            r.wf(),
            r.pt() == (Pt { x: p.x.val(), y: p.y.val(), z: 1 }),
    {
        ProjectivePoint { x: p.x, y: p.y, z: Fe::one() }
    }
}

/// `X1 Y2 + X2 Y1`.
pub open spec fn cross(x1: int, y1: int, x2: int, y2: int) -> int {
    fadd(fmul(x1, y2), fmul(x2, y1))
}

#[verifier::opaque]
/// Mixed addition of `(x1 : y1 : z1)` and the affine `(x2, y2)`.
pub open spec fn madd(b3: int, x1: int, y1: int, z1: int, x2: int, y2: int) -> Pt {
    let t = cross(x1, y1, x2, y2);
    let yy = fmul(y1, y2);
    let bz = fmul(b3, z1);
    let u = fadd(y1, fmul(y2, z1));
    let v = fadd(x1, fmul(x2, z1));
    let w = fmul(3, fmul(x1, x2));
    Pt {
        x: fsub(fmul(t, fsub(yy, bz)), fmul(b3, fmul(u, v))),
        y: fadd(fmul(fadd(yy, bz), fsub(yy, bz)), fmul(b3, fmul(w, v))),
        z: fadd(fmul(u, fadd(yy, bz)), fmul(w, t)),
    }
}

#[verifier::opaque]
/// Doubling of `(x : y : z)`.
pub open spec fn dbl(b3: int, x: int, y: int, z: int) -> Pt {
    let yy = fmul(y, y);
    let bzz = fmul(b3, fmul(z, z));
    Pt {
        x: fmul(fmul(2, fmul(x, y)), fsub(yy, fmul(3, bzz))),
        y: fadd(fmul(fsub(yy, fmul(3, bzz)), fadd(yy, bzz)), fmul(8, fmul(bzz, yy))),
        z: fmul(8, fmul(fmul(yy, y), z)),
    }
}

/// The affine form of a projective point with `z != 0`.
pub open spec fn affine_of(p: Pt) -> (int, int) {
    (fmul(p.x, finv(p.z)), fmul(p.y, finv(p.z)))
}

/// Mixed addition.
pub fn mixed_add(curve: &CurveConfig, p: &ProjectivePoint, q: &AffinePoint) -> (r:
    ProjectivePoint)
    requires
        curve.wf(),
        p.wf(),
        q.wf(),
    ensures
        r.wf(),
        r.pt() == madd(curve.b3.val(), p.x.val(), p.y.val(), p.z.val(), q.x.val(), q.y.val()),
{
    reveal(madd);
    let b3 = &curve.b3;
    let t = fe_add(&fe_mul(&p.x, &q.y), &fe_mul(&q.x, &p.y));
    let yy = fe_mul(&p.y, &q.y);
    let bz = fe_mul(b3, &p.z);
    let u = fe_add(&p.y, &fe_mul(&q.y, &p.z));
    let v = fe_add(&p.x, &fe_mul(&q.x, &p.z));
    let w = fe_mul(&Fe::from_u64(3), &fe_mul(&p.x, &q.x));
    let x = fe_sub(&fe_mul(&t, &fe_sub(&yy, &bz)), &fe_mul(b3, &fe_mul(&u, &v)));
    let y = fe_add(&fe_mul(&fe_add(&yy, &bz), &fe_sub(&yy, &bz)), &fe_mul(b3, &fe_mul(&w, &v)));
    let z = fe_add(&fe_mul(&u, &fe_add(&yy, &bz)), &fe_mul(&w, &t));
    ProjectivePoint { x, y, z }
}

/// Doubling.
pub fn double(curve: &CurveConfig, p: &ProjectivePoint) -> (r: ProjectivePoint)
    requires
        curve.wf(),
        p.wf(),
    ensures
        r.wf(),
        r.pt() == dbl(curve.b3.val(), p.x.val(), p.y.val(), p.z.val()),
{
    reveal(dbl);
    let yy = fe_mul(&p.y, &p.y);
    let bzz = fe_mul(&curve.b3, &fe_mul(&p.z, &p.z));
    let d = fe_sub(&yy, &fe_mul(&Fe::from_u64(3), &bzz));
    let x = fe_mul(&fe_mul(&Fe::from_u64(2), &fe_mul(&p.x, &p.y)), &d);
    let y = fe_add(&fe_mul(&d, &fe_add(&yy, &bzz)), &fe_mul(&Fe::from_u64(8), &fe_mul(&bzz, &yy)));
    let z = fe_mul(&Fe::from_u64(8), &fe_mul(&fe_mul(&yy, &p.y), &p.z));
    ProjectivePoint { x, y, z }
}

/// The inverse point `(X : -Y : Z)`.
pub fn negate(p: &ProjectivePoint) -> (r: ProjectivePoint)
    requires
        p.wf(),
    ensures
        r.wf(),
        r.pt() == (Pt { x: p.x.val(), y: fneg(p.y.val()), z: p.z.val() }),
{
    ProjectivePoint { x: p.x, y: fe_neg(&p.y), z: p.z }
}

/// The affine form `(X / Z, Y / Z)`; the point at infinity has none.
pub fn to_affine(p: &ProjectivePoint) -> (r: Result<AffinePoint, KzgError>)
    requires
        p.wf(),
    ensures
        p.z.val() == 0 <==> r == Err::<AffinePoint, KzgError>(KzgError::PointAtInfinity),
        p.z.val() != 0 <==> r is Ok,
        r matches Ok(a) ==> a.wf() && fmul(a.x.val(), p.z.val()) == p.x.val() && fmul(
            a.y.val(),
            p.z.val(),
        ) == p.y.val(),
        r matches Ok(a) ==> a.x.val() == fmul(p.x.val(), finv(p.z.val())) && a.y.val() == fmul(
            p.y.val(),
            finv(p.z.val()),
        ),
{
    match fe_inv(&p.z) {
        None => Err(KzgError::PointAtInfinity),
        Some(zi) => {
            let a = AffinePoint { x: fe_mul(&p.x, &zi), y: fe_mul(&p.y, &zi) };
            proof {
                lemma_inverse_unique(p.z.val(), zi.val());
                lemma_field_ring(p.x.val(), zi.val(), p.z.val());
                lemma_field_ring(p.y.val(), zi.val(), p.z.val());
                lemma_field_ring(zi.val(), p.z.val(), 0);
                lemma_field_units(p.x.val());
                lemma_field_units(p.y.val());
            }
            Ok(a)
        },
    }
}

} // verus!
