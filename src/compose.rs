//! The constraint polynomials: for each coordinate, the arithmetic case of a
//! trace row that its two selectors switch on, the equality row, the operands
//! of rows that add nothing, and the copy of each row's result into the next.
use vstd::prelude::*;
use crate::field::{
    Fe, fadd, fmul, fsub, fneg, in_field, lemma_field_ring, lemma_field_units, lemma_mod_in_field,
};
use crate::poly::{
    Polynomial, eval, add_polynomials, multiply_polynomials, negate_polynomial, scale_polynomial,
    shift_argument, invertible,
};
use crate::curve::{CurveConfig, Pt, madd, dbl};
use crate::trace::{Row, row_ok, X1, Y1, Z1, X2, Y2, X3, Y3, Z3, NUM_COLUMNS};
use crate::interpolate::{lemma_eval_const, root_factor, lemma_distinct_diff_nonzero};

verus! {

/// The number of constraint polynomials.
pub const NUM_CONSTRAINTS: usize = 10;

/// The values of the ten column polynomials at `z`, as a row.
pub open spec fn row_at(s1: Polynomial, s2: Polynomial, cols: Seq<Polynomial>, z: int) -> Row {
    Row {
        s1: eval(s1@, z),
        s2: eval(s2@, z),
        x1: eval(cols[X1 as int]@, z),
        y1: eval(cols[Y1 as int]@, z),
        z1: eval(cols[Z1 as int]@, z),
        x2: eval(cols[X2 as int]@, z),
        y2: eval(cols[Y2 as int]@, z),
        x3: eval(cols[X3 as int]@, z),
        y3: eval(cols[Y3 as int]@, z),
        z3: eval(cols[Z3 as int]@, z),
    }
}

/// Constraint `j` on the row `w` at the point `z` of a trace of `n` rows,
/// where `nx`, `ny`, `nz` start the next row:
/// - `0, 1, 2`: the `x`, `y`, `z` coordinate after the row is the mixed sum
///   (selectors `(1, 1)`), the double (`(1, 0)`), or the one before it (`S1 = 0`);
/// - `3, 4`: on the equality row (`(0, 0)`) the accumulator is the operand;
/// - `5, 6`: on doubling and identity rows the operand is `(0, 0)`;
/// - `7, 8, 9`: on every row but the last (`z = n`), the next row starts
///   where this one ends.
pub open spec fn constraint(j: int, b3: int, w: Row, z: int, n: int, nx: int, ny: int, nz: int) -> int {
    let on_add = fmul(w.s1, w.s2);
    let on_dbl = fmul(w.s1, fsub(1, w.s2));
    let off = fsub(1, w.s1);
    let on_eq = fmul(fsub(1, w.s1), fsub(1, w.s2));
    let on_zero = fadd(on_dbl, fmul(fsub(1, w.s1), w.s2));
    let m = madd(b3, w.x1, w.y1, w.z1, w.x2, w.y2);
    let d = dbl(b3, w.x1, w.y1, w.z1);
    if j == 0 {
        fadd(fadd(fmul(on_add, fsub(w.x3, m.x)), fmul(on_dbl, fsub(w.x3, d.x))), fmul(off, fsub(w.x3, w.x1)))
    } else if j == 1 {
        fadd(fadd(fmul(on_add, fsub(w.y3, m.y)), fmul(on_dbl, fsub(w.y3, d.y))), fmul(off, fsub(w.y3, w.y1)))
    } else if j == 2 {
        fadd(fadd(fmul(on_add, fsub(w.z3, m.z)), fmul(on_dbl, fsub(w.z3, d.z))), fmul(off, fsub(w.z3, w.z1)))
    } else if j == 3 {
        fmul(on_eq, fsub(fmul(w.x2, w.z1), w.x1))
    } else if j == 4 {
        fmul(on_eq, fsub(fmul(w.y2, w.z1), w.y1))
    } else if j == 5 {
        fmul(on_zero, w.x2)
    } else if j == 6 {
        fmul(on_zero, w.y2)
    } else if j == 7 {
        fmul(fsub(z, n), fsub(w.x3, nx))
    } else if j == 8 {
        fmul(fsub(z, n), fsub(w.y3, ny))
    } else {
        fmul(fsub(z, n), fsub(w.z3, nz))
    }
}

/// Every value of the row is canonical.
pub open spec fn row_in_field(w: Row) -> bool {
    in_field(w.x1) && in_field(w.y1) && in_field(w.z1) && in_field(w.x2) && in_field(w.y2)
        && in_field(w.x3) && in_field(w.y3) && in_field(w.z3)
}

proof fn lemma_point_in_field(b3: int, w: Row)
    ensures
        in_field(madd(b3, w.x1, w.y1, w.z1, w.x2, w.y2).x),
        in_field(madd(b3, w.x1, w.y1, w.z1, w.x2, w.y2).y),
        in_field(madd(b3, w.x1, w.y1, w.z1, w.x2, w.y2).z),
        in_field(dbl(b3, w.x1, w.y1, w.z1).x),
        in_field(dbl(b3, w.x1, w.y1, w.z1).y),
        in_field(dbl(b3, w.x1, w.y1, w.z1).z),
{
    reveal(madd);
    reveal(dbl);
    let m = madd(b3, w.x1, w.y1, w.z1, w.x2, w.y2);
    let d = dbl(b3, w.x1, w.y1, w.z1);
    lemma_mod_in_field(m.x);
    lemma_mod_in_field(m.y);
    lemma_mod_in_field(m.z);
    lemma_mod_in_field(d.x);
    lemma_mod_in_field(d.y);
    lemma_mod_in_field(d.z);
}

/// Small facts of 0 and 1 that the case split needs.
proof fn lemma_bits(x: int)
    requires
        in_field(x),
    ensures
        fmul(1, x) == x,
        fmul(x, 1) == x,
        fmul(0, x) == 0,
        fmul(x, 0) == 0,
        fadd(x, 0) == x,
        fadd(0, x) == x,
        fsub(1, 1) == 0,
        fsub(1, 0) == 1,
        fsub(x, x) == 0,
        fmul(1, 1) == 1,
        fmul(1, 0) == 0,
        fmul(0, 1) == 0,
        fmul(0, 0) == 0,
{
    crate::field::lemma_modulus_bounds();
    lemma_field_units(x);
    lemma_field_units(1);
    lemma_field_units(0);
    lemma_field_ring(x, 0, 0);
    lemma_field_ring(0, x, 0);
    lemma_field_ring(x, x, 0);
    lemma_field_ring(1, 1, 0);
    lemma_field_ring(1, 0, 0);
    lemma_mod_in_field(1 - 0);
}

/// Equal canonical values are exactly those whose difference is zero.
proof fn lemma_sub_zero(a: int, b: int)
    requires
        in_field(a),
        in_field(b),
    ensures
        fsub(a, b) == 0 <==> a == b,
{
    lemma_bits(a);
    if a != b {
        lemma_distinct_diff_nonzero(a, b);
    }
}

/// A row that satisfies its relation, and either is the last (`z = n`) or is
/// followed by a row starting where it ends, meets every constraint.
pub proof fn lemma_row_meets_constraints(
    b3: int,
    w: Row,
    z: int,
    n: int,
    nx: int,
    ny: int,
    nz: int,
    j: int,
)
    requires
        row_ok(b3, w),
        row_in_field(w),
        fsub(z, n) == 0 || (w.x3 == nx && w.y3 == ny && w.z3 == nz),
    ensures
        constraint(j, b3, w, z, n, nx, ny, nz) == 0,
{
    reveal(row_ok);
    lemma_point_in_field(b3, w);
    lemma_bits(0);
    lemma_bits(1);
    lemma_bits(w.x3);
    lemma_bits(w.y3);
    lemma_bits(w.z3);
    lemma_bits(w.x2);
    lemma_bits(w.y2);
    lemma_field_ring(fsub(z, n), 0, 0);
    lemma_field_ring(0, fsub(w.x3, nx), 0);
    lemma_field_ring(0, fsub(w.y3, ny), 0);
    lemma_field_ring(0, fsub(w.z3, nz), 0);
    let m = madd(b3, w.x1, w.y1, w.z1, w.x2, w.y2);
    let d = dbl(b3, w.x1, w.y1, w.z1);
    lemma_bits(fsub(w.x3, m.x));
    lemma_bits(fsub(w.y3, m.y));
    lemma_bits(fsub(w.z3, m.z));
    lemma_bits(fsub(w.x3, d.x));
    lemma_bits(fsub(w.y3, d.y));
    lemma_bits(fsub(w.z3, d.z));
    lemma_bits(fsub(w.x3, w.x1));
    lemma_bits(fsub(w.y3, w.y1));
    lemma_bits(fsub(w.z3, w.z1));
    lemma_mod_in_field(w.x3 - m.x);
    lemma_mod_in_field(w.y3 - m.y);
    lemma_mod_in_field(w.z3 - m.z);
    lemma_mod_in_field(w.x3 - d.x);
    lemma_mod_in_field(w.y3 - d.y);
    lemma_mod_in_field(w.z3 - d.z);
    lemma_mod_in_field(w.x3 - w.x1);
    lemma_mod_in_field(w.y3 - w.y1);
    lemma_mod_in_field(w.z3 - w.z1);
    lemma_mod_in_field(fmul(w.x2, w.z1) - w.x1);
    lemma_mod_in_field(fmul(w.y2, w.z1) - w.y1);
    lemma_bits(fsub(fmul(w.x2, w.z1), w.x1));
    lemma_bits(fsub(fmul(w.y2, w.z1), w.y1));
    lemma_bits(fsub(z, n) % crate::field::modulus());
    lemma_mod_in_field(z - n);
    lemma_mod_in_field(w.x3 - nx);
    lemma_mod_in_field(w.y3 - ny);
    lemma_mod_in_field(w.z3 - nz);
    lemma_field_ring(fsub(w.x3, nx), fsub(z, n), 0);
    if w.x3 == nx && w.y3 == ny && w.z3 == nz {
        lemma_field_ring(fsub(z, n), 0, 0);
    }
    if w.s1 == 1 && w.s2 == 1 {
        assert(w.x3 == m.x && w.y3 == m.y && w.z3 == m.z);
    } else if w.s1 == 1 && w.s2 == 0 {
        assert(w.x3 == d.x && w.y3 == d.y && w.z3 == d.z);
    } else if w.s1 == 0 && w.s2 == 1 {
        assert(w.x3 == w.x1);
    } else {
        assert(w.x3 == w.x1);
    }
}

/// Conversely, a row with 0/1 selectors that meets every constraint
/// satisfies its relation, and, unless it is the last (`z = n`, else
/// `z - n` invertible), is followed by a row starting where it ends.
pub proof fn lemma_constraints_give_row(
    b3: int,
    w: Row,
    z: int,
    n: int,
    nx: int,
    ny: int,
    nz: int,
)
    requires
        w.s1 == 0 || w.s1 == 1,
        w.s2 == 0 || w.s2 == 1,
        row_in_field(w),
        in_field(nx) && in_field(ny) && in_field(nz),
        fsub(z, n) == 0 || invertible(fsub(z, n)),
        forall|j: int| 0 <= j < NUM_CONSTRAINTS ==> #[trigger] constraint(j, b3, w, z, n, nx, ny, nz) == 0,
    ensures
        row_ok(b3, w),
        fsub(z, n) != 0 ==> w.x3 == nx && w.y3 == ny && w.z3 == nz,
{
    reveal(row_ok);
    lemma_point_in_field(b3, w);
    let m = madd(b3, w.x1, w.y1, w.z1, w.x2, w.y2);
    let d = dbl(b3, w.x1, w.y1, w.z1);
    lemma_bits(0);
    lemma_bits(1);
    let c0 = constraint(0, b3, w, z, n, nx, ny, nz);
    let c1 = constraint(1, b3, w, z, n, nx, ny, nz);
    let c2 = constraint(2, b3, w, z, n, nx, ny, nz);
    let c3 = constraint(3, b3, w, z, n, nx, ny, nz);
    let c4 = constraint(4, b3, w, z, n, nx, ny, nz);
    let c5 = constraint(5, b3, w, z, n, nx, ny, nz);
    let c6 = constraint(6, b3, w, z, n, nx, ny, nz);
    assert(c0 == 0 && c1 == 0 && c2 == 0 && c3 == 0 && c4 == 0 && c5 == 0 && c6 == 0);
    assert(constraint(7, b3, w, z, n, nx, ny, nz) == 0);
    assert(constraint(8, b3, w, z, n, nx, ny, nz) == 0);
    assert(constraint(9, b3, w, z, n, nx, ny, nz) == 0);
    lemma_mod_in_field(w.x3 - m.x);
    lemma_mod_in_field(w.y3 - m.y);
    lemma_mod_in_field(w.z3 - m.z);
    lemma_mod_in_field(w.x3 - d.x);
    lemma_mod_in_field(w.y3 - d.y);
    lemma_mod_in_field(w.z3 - d.z);
    lemma_mod_in_field(w.x3 - w.x1);
    lemma_mod_in_field(w.y3 - w.y1);
    lemma_mod_in_field(w.z3 - w.z1);
    lemma_mod_in_field(fmul(w.x2, w.z1) - w.x1);
    lemma_mod_in_field(fmul(w.y2, w.z1) - w.y1);
    lemma_mod_in_field(w.x2 * w.z1);
    lemma_mod_in_field(w.y2 * w.z1);
    lemma_bits(fsub(w.x3, m.x));
    lemma_bits(fsub(w.y3, m.y));
    lemma_bits(fsub(w.z3, m.z));
    lemma_bits(fsub(w.x3, d.x));
    lemma_bits(fsub(w.y3, d.y));
    lemma_bits(fsub(w.z3, d.z));
    lemma_bits(fsub(w.x3, w.x1));
    lemma_bits(fsub(w.y3, w.y1));
    lemma_bits(fsub(w.z3, w.z1));
    lemma_bits(fsub(fmul(w.x2, w.z1), w.x1));
    lemma_bits(fsub(fmul(w.y2, w.z1), w.y1));
    lemma_bits(w.x2);
    lemma_bits(w.y2);
    lemma_sub_zero(w.x3, m.x);
    lemma_sub_zero(w.y3, m.y);
    lemma_sub_zero(w.z3, m.z);
    lemma_sub_zero(w.x3, d.x);
    lemma_sub_zero(w.y3, d.y);
    lemma_sub_zero(w.z3, d.z);
    lemma_sub_zero(w.x3, w.x1);
    lemma_sub_zero(w.y3, w.y1);
    lemma_sub_zero(w.z3, w.z1);
    lemma_sub_zero(fmul(w.x2, w.z1), w.x1);
    lemma_sub_zero(fmul(w.y2, w.z1), w.y1);
    if fsub(z, n) != 0 {
        lemma_cancel_factor(fsub(z, n), fsub(w.x3, nx));
        lemma_cancel_factor(fsub(z, n), fsub(w.y3, ny));
        lemma_cancel_factor(fsub(z, n), fsub(w.z3, nz));
        lemma_mod_in_field(w.x3 - nx);
        lemma_mod_in_field(w.y3 - ny);
        lemma_mod_in_field(w.z3 - nz);
        lemma_sub_zero(w.x3, nx);
        lemma_sub_zero(w.y3, ny);
        lemma_sub_zero(w.z3, nz);
    }
}

/// An invertible factor of a zero product leaves the other factor zero.
proof fn lemma_cancel_factor(g: int, x: int)
    requires
        invertible(g),
        fmul(g, x) == 0,
        in_field(x),
    ensures
        x == 0,
{
    let inv = choose|inv: int| #[trigger] fmul(g, inv) == 1;
    lemma_field_ring(g, x, inv);
    lemma_field_ring(x, g, 0);
    lemma_field_ring(fmul(x, g), inv, 0);
    lemma_field_ring(x, g, inv);
    lemma_field_ring(g, inv, 0);
    lemma_field_ring(0, inv, 0);
    lemma_bits(x);
}

/// Difference of polynomials.
fn sub_polynomials(a: &Polynomial, b: &Polynomial) -> (r: Polynomial)
    requires
        a.wf(),
        b.wf(),
    ensures
        r.wf(),
        r.coeffs.len() == if a.coeffs.len() >= b.coeffs.len() {
            a.coeffs.len()
        } else {
            b.coeffs.len()
        },
        forall|z: int| eval(r@, z) == fsub(#[trigger] eval(a@, z), eval(b@, z)),
{
    let n = negate_polynomial(b);
    let r = add_polynomials(a, &n);
    proof {
        assert forall|z: int| eval(r@, z) == fsub(#[trigger] eval(a@, z), eval(b@, z)) by {
            lemma_field_ring(eval(a@, z), eval(b@, z), 0);
        }
    }
    r
}

/// The constant polynomial `c`.
fn const_polynomial(c: &Fe) -> (r: Polynomial)
    requires
        c.wf(),
    ensures
        r.wf(),
        r.coeffs.len() == 1,
        forall|z: int| #[trigger] eval(r@, z) == c.val(),
{
    let mut coeffs: Vec<Fe> = Vec::new();
    coeffs.push(*c);
    let r = Polynomial { coeffs };
    proof {
        assert forall|z: int| #[trigger] eval(r@, z) == c.val() by {
            lemma_eval_const(r@, z);
        }
    }
    r
}

/// Column polynomials: ten of them, each well formed.
pub open spec fn cols_wf(cols: Seq<Polynomial>) -> bool {
    cols.len() == NUM_COLUMNS && forall|i: int| 0 <= i < cols.len() ==> (#[trigger] cols[i]).wf()
}

/// Every column polynomial has `n` coefficients.
pub open spec fn cols_len(cols: Seq<Polynomial>, n: int) -> bool {
    forall|i: int| 0 <= i < cols.len() ==> (#[trigger] cols[i]).coeffs.len() == n
}


/// The number of coefficients a constraint polynomial of `n` rows may have.
pub open spec fn constraint_len(n: int) -> int {
    if n == 1 {
        2
    } else {
        6 * n - 5
    }
}

/// The three coordinates of a point, as polynomials.
struct PointPolys {
    x: Polynomial,
    y: Polynomial,
    z: Polynomial,
}

/// The mixed sum of the accumulator and the operand, as polynomials.
#[verifier::rlimit(40)]
fn madd_point(curve: &CurveConfig, s1: &Polynomial, s2: &Polynomial, cols: &Vec<Polynomial>) -> (r:
    PointPolys)
    requires
        curve.wf(),
        cols_wf(cols@),
    ensures
        r.x.wf() && r.y.wf() && r.z.wf(),
        forall|z: int|
            #[trigger] eval(r.x@, z) == ({
                let w = row_at(*s1, *s2, cols@, z);
                madd(curve.b3.val(), w.x1, w.y1, w.z1, w.x2, w.y2).x
            }),
        forall|z: int|
            #[trigger] eval(r.y@, z) == ({
                let w = row_at(*s1, *s2, cols@, z);
                madd(curve.b3.val(), w.x1, w.y1, w.z1, w.x2, w.y2).y
            }),
        forall|z: int|
            #[trigger] eval(r.z@, z) == ({
                let w = row_at(*s1, *s2, cols@, z);
                madd(curve.b3.val(), w.x1, w.y1, w.z1, w.x2, w.y2).z
            }),
        forall|n: int|
            n >= 1 && #[trigger] cols_len(cols@, n) ==> r.x.coeffs.len() == 4 * n - 3
                && r.y.coeffs.len() == 4 * n - 3 && r.z.coeffs.len() == 4 * n - 3,
{
    let x1 = &cols[X1];
    let y1 = &cols[Y1];
    let z1 = &cols[Z1];
    let x2 = &cols[X2];
    let y2 = &cols[Y2];
    let b3 = &curve.b3;
    let t = add_polynomials(&multiply_polynomials(x1, y2), &multiply_polynomials(x2, y1));
    let yy = multiply_polynomials(y1, y2);
    let bz = scale_polynomial(b3, z1);
    let u = add_polynomials(y1, &multiply_polynomials(y2, z1));
    let v = add_polynomials(x1, &multiply_polynomials(x2, z1));
    let w = scale_polynomial(&Fe::from_u64(3), &multiply_polynomials(x1, x2));
    let yy_m = sub_polynomials(&yy, &bz);
    let yy_p = add_polynomials(&yy, &bz);
    let mx = sub_polynomials(
        &multiply_polynomials(&t, &yy_m),
        &scale_polynomial(b3, &multiply_polynomials(&u, &v)),
    );
    let my = add_polynomials(
        &multiply_polynomials(&yy_p, &yy_m),
        &scale_polynomial(b3, &multiply_polynomials(&w, &v)),
    );
    let mz = add_polynomials(&multiply_polynomials(&u, &yy_p), &multiply_polynomials(&w, &t));
    proof {
        reveal(madd);
    }
    PointPolys { x: mx, y: my, z: mz }
}

/// The double of the accumulator, as polynomials.
#[verifier::rlimit(40)]
fn dbl_point(curve: &CurveConfig, s1: &Polynomial, s2: &Polynomial, cols: &Vec<Polynomial>) -> (r:
    PointPolys)
    requires
        curve.wf(),
        cols_wf(cols@),
    ensures
        r.x.wf() && r.y.wf() && r.z.wf(),
        forall|z: int|
            #[trigger] eval(r.x@, z) == ({
                let w = row_at(*s1, *s2, cols@, z);
                dbl(curve.b3.val(), w.x1, w.y1, w.z1).x
            }),
        forall|z: int|
            #[trigger] eval(r.y@, z) == ({
                let w = row_at(*s1, *s2, cols@, z);
                dbl(curve.b3.val(), w.x1, w.y1, w.z1).y
            }),
        forall|z: int|
            #[trigger] eval(r.z@, z) == ({
                let w = row_at(*s1, *s2, cols@, z);
                dbl(curve.b3.val(), w.x1, w.y1, w.z1).z
            }),
        forall|n: int|
            n >= 1 && #[trigger] cols_len(cols@, n) ==> r.x.coeffs.len() == 4 * n - 3
                && r.y.coeffs.len() == 4 * n - 3 && r.z.coeffs.len() == 4 * n - 3,
{
    let x1 = &cols[X1];
    let y1 = &cols[Y1];
    let z1 = &cols[Z1];
    let yy = multiply_polynomials(y1, y1);
    let bzz = scale_polynomial(&curve.b3, &multiply_polynomials(z1, z1));
    let d = sub_polynomials(&yy, &scale_polynomial(&Fe::from_u64(3), &bzz));
    let dx = multiply_polynomials(
        &scale_polynomial(&Fe::from_u64(2), &multiply_polynomials(x1, y1)),
        &d,
    );
    let dy = add_polynomials(
        &multiply_polynomials(&d, &add_polynomials(&yy, &bzz)),
        &scale_polynomial(&Fe::from_u64(8), &multiply_polynomials(&bzz, &yy)),
    );
    let dz = scale_polynomial(
        &Fe::from_u64(8),
        &multiply_polynomials(&multiply_polynomials(&yy, y1), z1),
    );
    proof {
        reveal(dbl);
    }
    PointPolys { x: dx, y: dy, z: dz }
}

/// `on_add (c3 - m) + on_dbl (c3 - d) + off (c3 - c1)`.
fn coordinate_constraint(
    on_add: &Polynomial,
    on_dbl: &Polynomial,
    off: &Polynomial,
    c3: &Polynomial,
    c1: &Polynomial,
    m: &Polynomial,
    d: &Polynomial,
    n: Ghost<int>,
) -> (r: Polynomial)
    requires
        on_add.wf() && on_dbl.wf() && off.wf() && c3.wf() && c1.wf() && m.wf() && d.wf(),
        n@ >= 1,
        on_add.coeffs.len() == 2 * n@ - 1,
        on_dbl.coeffs.len() == 2 * n@ - 1,
        off.coeffs.len() == n@,
        c3.coeffs.len() == n@,
        c1.coeffs.len() == n@,
        m.coeffs.len() == 4 * n@ - 3,
        d.coeffs.len() == 4 * n@ - 3,
    ensures
        r.wf(),
        forall|z: int|
            #[trigger] eval(r@, z) == fadd(
                fadd(
                    fmul(eval(on_add@, z), fsub(eval(c3@, z), eval(m@, z))),
                    fmul(eval(on_dbl@, z), fsub(eval(c3@, z), eval(d@, z))),
                ),
                fmul(eval(off@, z), fsub(eval(c3@, z), eval(c1@, z))),
            ),
        r.coeffs.len() == 6 * n@ - 5,
{
    let a = multiply_polynomials(on_add, &sub_polynomials(c3, m));
    let b = multiply_polynomials(on_dbl, &sub_polynomials(c3, d));
    let c = multiply_polynomials(off, &sub_polynomials(c3, c1));
    add_polynomials(&add_polynomials(&a, &b), &c)
}

/// The constraint polynomials of `n` rows from the selector polynomials
/// `s1`, `s2` and the column polynomials `cols`: at every `z`, polynomial `j`
/// takes the value `constraint(j, ..)` of the row of values the polynomials
/// take at `z`, with the accumulator columns at `z + 1` as the next row.
#[verifier::rlimit(80)]
pub fn constraint_polynomials(
    curve: &CurveConfig,
    s1: &Polynomial,
    s2: &Polynomial,
    cols: &Vec<Polynomial>,
    n: usize,
) -> (r: Vec<Polynomial>)
    requires
        curve.wf(),
        s1.wf(),
        s2.wf(),
        cols_wf(cols@),
        n >= 1,
        cols_len(cols@, n as int),
        s1.coeffs.len() == n,
        s2.coeffs.len() == n,
    ensures
        r.len() == NUM_CONSTRAINTS,
        forall|j: int|
            0 <= j < NUM_CONSTRAINTS ==> (#[trigger] r[j]).wf() && r[j].coeffs.len()
                <= constraint_len(n as int),
        forall|j: int, z: int|
            0 <= j < NUM_CONSTRAINTS && in_field(z) ==> #[trigger] eval(r[j]@, z) == constraint(
                j,
                curve.b3.val(),
                row_at(*s1, *s2, cols@, z),
                z,
                n as int,
                eval(cols@[X1 as int]@, fadd(z, 1)),
                eval(cols@[Y1 as int]@, fadd(z, 1)),
                eval(cols@[Z1 as int]@, fadd(z, 1)),
            ),
{
    let one = const_polynomial(&Fe::one());
    let not_s1 = sub_polynomials(&one, s1);
    let not_s2 = sub_polynomials(&one, s2);
    let on_add = multiply_polynomials(s1, s2);
    let on_dbl = multiply_polynomials(s1, &not_s2);
    let on_eq = multiply_polynomials(&not_s1, &not_s2);
    let on_zero = add_polynomials(&on_dbl, &multiply_polynomials(&not_s1, s2));
    let m = madd_point(curve, s1, s2, cols);
    let d = dbl_point(curve, s1, s2, cols);
    proof {
        assert(cols_len(cols@, n as int));
        assert(cols@[X1 as int].coeffs.len() == n);
        assert(cols@[Y1 as int].coeffs.len() == n);
        assert(cols@[Z1 as int].coeffs.len() == n);
        assert(cols@[X3 as int].coeffs.len() == n);
        assert(cols@[Y3 as int].coeffs.len() == n);
        assert(cols@[Z3 as int].coeffs.len() == n);
    }
    let c0 = coordinate_constraint(&on_add, &on_dbl, &not_s1, &cols[X3], &cols[X1], &m.x, &d.x, Ghost(n as int));
    let c1 = coordinate_constraint(&on_add, &on_dbl, &not_s1, &cols[Y3], &cols[Y1], &m.y, &d.y, Ghost(n as int));
    let c2 = coordinate_constraint(&on_add, &on_dbl, &not_s1, &cols[Z3], &cols[Z1], &m.z, &d.z, Ghost(n as int));
    let c3 = multiply_polynomials(
        &on_eq,
        &sub_polynomials(&multiply_polynomials(&cols[X2], &cols[Z1]), &cols[X1]),
    );
    let c4 = multiply_polynomials(
        &on_eq,
        &sub_polynomials(&multiply_polynomials(&cols[Y2], &cols[Z1]), &cols[Y1]),
    );
    let c5 = multiply_polynomials(&on_zero, &cols[X2]);
    let c6 = multiply_polynomials(&on_zero, &cols[Y2]);
    proof {
        crate::field::lemma_modulus_bounds();
        crate::field::lemma_small_in_field(n as int);
    }
    let not_last = root_factor(&Fe::from_u64(n as u64));
    let c7 = multiply_polynomials(&not_last, &sub_polynomials(&cols[X3], &shift_argument(&cols[X1])));
    let c8 = multiply_polynomials(&not_last, &sub_polynomials(&cols[Y3], &shift_argument(&cols[Y1])));
    let c9 = multiply_polynomials(&not_last, &sub_polynomials(&cols[Z3], &shift_argument(&cols[Z1])));
    proof {
        assert(one@.len() == 1);
    }
    let r = vec![c0, c1, c2, c3, c4, c5, c6, c7, c8, c9];
    proof {
        let b3 = curve.b3.val();
        assert forall|j: int, z: int|
            0 <= j < NUM_CONSTRAINTS && in_field(z) implies #[trigger] eval(r[j]@, z) == constraint(
            j,
            b3,
            row_at(*s1, *s2, cols@, z),
            z,
            n as int,
            eval(cols@[X1 as int]@, fadd(z, 1)),
            eval(cols@[Y1 as int]@, fadd(z, 1)),
            eval(cols@[Z1 as int]@, fadd(z, 1)),
        ) by {
            let w = row_at(*s1, *s2, cols@, z);
            assert(eval(one@, z) == 1);
            assert(eval(not_s1@, z) == fsub(1, w.s1));
            assert(eval(not_s2@, z) == fsub(1, w.s2));
            assert(eval(on_add@, z) == fmul(w.s1, w.s2));
            assert(eval(on_dbl@, z) == fmul(w.s1, fsub(1, w.s2)));
            assert(eval(on_eq@, z) == fmul(fsub(1, w.s1), fsub(1, w.s2)));
            assert(eval(on_zero@, z) == fadd(fmul(w.s1, fsub(1, w.s2)), fmul(fsub(1, w.s1), w.s2)));
            assert(eval(m.x@, z) == madd(b3, w.x1, w.y1, w.z1, w.x2, w.y2).x);
            assert(eval(m.y@, z) == madd(b3, w.x1, w.y1, w.z1, w.x2, w.y2).y);
            assert(eval(m.z@, z) == madd(b3, w.x1, w.y1, w.z1, w.x2, w.y2).z);
            assert(eval(d.x@, z) == dbl(b3, w.x1, w.y1, w.z1).x);
            assert(eval(d.y@, z) == dbl(b3, w.x1, w.y1, w.z1).y);
            assert(eval(d.z@, z) == dbl(b3, w.x1, w.y1, w.z1).z);
            assert(eval(not_last@, z) == fsub(z, n as int));
            if j == 0 {
                assert(eval(c0@, z) == constraint(0, b3, w, z, n as int, 0, 0, 0));
            } else if j == 1 {
                assert(eval(c1@, z) == constraint(1, b3, w, z, n as int, 0, 0, 0));
            } else if j == 2 {
                assert(eval(c2@, z) == constraint(2, b3, w, z, n as int, 0, 0, 0));
            }
        }
        assert forall|j: int| 0 <= j < NUM_CONSTRAINTS implies (#[trigger] r[j]).wf()
            && r[j].coeffs.len() <= constraint_len(n as int) by {
            assert(cols_len(cols@, n as int));
            assert(on_add.coeffs.len() == 2 * n - 1);
            assert(on_dbl.coeffs.len() == 2 * n - 1);
            assert(not_s1.coeffs.len() == n);
            assert(m.x.coeffs.len() == 4 * n - 3);
            assert(d.x.coeffs.len() == 4 * n - 3);
        }
    }
    r
}

} // verus!
