//! Setup of the structured reference string, commitments, the prover and the
//! pairing-based verifier.
use vstd::prelude::*;
use crate::error::KzgError;
use crate::field::{Fe, fadd, fmul, fsub, in_field, lemma_modulus_bounds, fe_mul, fe_random};
use crate::poly::{Polynomial, eval, coef, nz_len, fpow, pmul, seq_in_field, divide_polynomials};
use crate::interpolate::{
    node, interpolates, node_product, vanishing_coeffs, entries_wf, interpol, lagrange_interpolation_polynomial,
    vanishing_polynomial_of_size, values_wf,
};
use crate::group::{
    G1Point, G2Point, g1_valid, g2_valid, g1_scale, g2_scale, g1_sum, g2_sum, pairing_value,
    g1_generator, g2_generator, g1_decodes, g2_decodes, g1_mul, g2_mul, g1_add, g2_add, pairing,
};
use crate::curve::CurveConfig;
use crate::trace::{IR, Row, S1, S2, X1, Y1, Z1, X2, Y2, X3, Y3, Z3, NUM_COLUMNS};
use crate::compose::{
    NUM_CONSTRAINTS, constraint, constraint_len, constraint_polynomials, row_at, cols_wf, cols_len,
    row_in_field, lemma_row_meets_constraints, lemma_constraints_give_row,
};
use crate::trace::row_ok;
use crate::poly::{invertible, gaps_invertible};
use crate::field::fneg;

verus! {

/// The structured reference string of one proof session.
pub struct CRS {
    /// The degree bound: the number of commitment bases.
    pub d: usize,
    /// `ck[i] = x^i g1` in G1.
    pub ck: Vec<G1Point>,
    /// `ck2[i] = x^i g2` in G2, with the same trapdoor `x`.
    pub ck2: Vec<G2Point>,
    /// The selector polynomials `S1(X)`, `S2(X)`.
    pub circuit: Vec<Polynomial>,
    /// `Z(X) = (X - 1)...(X - N)`.
    pub vanishing_polynomial: Polynomial,
}

/// A proof: commitments to the constraint polynomials and to their quotients by `Z`.
pub struct Proof {
    /// `commit(C_j)` for each constraint polynomial `C_j`.
    pub commitments_c: Vec<G1Point>,
    /// `commit(Q_j)` for each quotient `Q_j = C_j / Z`.
    pub commitments_q: Vec<G1Point>,
}

/// `sum_{i < n} c[i] * ck[i]` (for `n = 0`, `0 * ck[0]`).
pub open spec fn msm1(ck: Seq<G1Point>, c: Seq<int>, n: nat) -> Seq<u8>
    decreases n,
{
    if n <= 1 {
        g1_scale(ck[0].enc@, coef(c, 0))
    } else {
        g1_sum(msm1(ck, c, (n - 1) as nat), g1_scale(ck[n - 1].enc@, c[n - 1]))
    }
}

/// `sum_{i < n} c[i] * ck2[i]` (for `n = 0`, `0 * ck2[0]`).
pub open spec fn msm2(ck: Seq<G2Point>, c: Seq<int>, n: nat) -> Seq<u8>
    decreases n,
{
    if n <= 1 {
        g2_scale(ck[0].enc@, coef(c, 0))
    } else {
        g2_sum(msm2(ck, c, (n - 1) as nat), g2_scale(ck[n - 1].enc@, c[n - 1]))
    }
}

/// The degree bound for a trace of `n` rows: the number of coefficients the
/// largest constraint polynomial has, `6 (n - 1) + 1` (which bounds its
/// quotient too), or, for one row, those of the vanishing polynomial, 2.
pub open spec fn degree_bound(n: int) -> int {
    if n == 1 {
        2
    } else {
        6 * n - 5
    }
}

/// The row `k` of `ir`, with the selectors read from `s1`, `s2` at node `k`.
pub open spec fn trace_row(s1: Polynomial, s2: Polynomial, ir: IR, k: int) -> Row {
    Row {
        s1: eval(s1@, node(k)),
        s2: eval(s2@, node(k)),
        x1: ir.at(X1 as int, k),
        y1: ir.at(Y1 as int, k),
        z1: ir.at(Z1 as int, k),
        x2: ir.at(X2 as int, k),
        y2: ir.at(Y2 as int, k),
        x3: ir.at(X3 as int, k),
        y3: ir.at(Y3 as int, k),
        z3: ir.at(Z3 as int, k),
    }
}

/// Every column has the length of the first.
pub open spec fn same_lengths(ir: IR) -> bool {
    forall|c: int| 0 <= c < ir.witness.len() ==> (#[trigger] ir.witness[c]).len() == ir.witness[0].len()
}

/// Whether every column has the length of the first.
pub fn columns_agree(ir: &IR) -> (r: bool)
    requires
        ir.witness.len() > 0,
    ensures
        r == same_lengths(*ir),
{
    let n = ir.witness[0].len();
    let mut c: usize = 1;
    while c < ir.witness.len()
        invariant
            ir.witness.len() > 0,
            n == ir.witness[0].len(),
            1 <= c <= ir.witness.len(),
            forall|i: int| 0 <= i < c ==> (#[trigger] ir.witness[i]).len() == n,
        decreases ir.witness.len() - c,
    {
        if ir.witness[c].len() != n {
            return false;
        }
        c = c + 1;
    }
    true
}

impl CRS {
    /// Bases well formed and of the same number `d >= 1`, two selector
    /// polynomials, a non-zero vanishing polynomial.
    pub open spec fn wf(&self) -> bool {
        &&& self.d >= 1
        &&& self.ck.len() == self.d
        &&& self.ck2.len() == self.d
        &&& forall|i: int| 0 <= i < self.d ==> g1_valid((#[trigger] self.ck[i]).enc@)
        &&& forall|i: int| 0 <= i < self.d ==> g2_valid((#[trigger] self.ck2[i]).enc@)
        &&& self.circuit.len() == 2
        &&& self.circuit[0].wf()
        &&& self.circuit[1].wf()
        &&& self.vanishing_polynomial.wf()
        &&& self.vanishing_polynomial@.len() > 0
        &&& self.vanishing_polynomial@.last() == 1
        &&& self.vanishing_polynomial@ == vanishing_coeffs((self.vanishing_polynomial@.len() - 1) as nat)
        &&& self.d == degree_bound(self.vanishing_polynomial@.len() - 1)
        &&& self.circuit[0].coeffs.len() == self.vanishing_polynomial@.len() - 1
        &&& self.circuit[1].coeffs.len() == self.vanishing_polynomial@.len() - 1
        &&& forall|z: int|
            in_field(z) ==> #[trigger] eval(self.vanishing_polynomial@, z) == node_product(
                z,
                (self.vanishing_polynomial@.len() - 1) as nat,
            )
    }

    /// Whether the reference string is well formed (`wf`), for one that did
    /// not come from `setup`.
    pub fn is_well_formed(&self) -> (r: bool)
        ensures
            r == self.wf(),
    {
        let zl = self.vanishing_polynomial.coeffs.len();
        if self.d < 1 || self.ck.len() != self.d || self.ck2.len() != self.d || self.circuit.len()
            != 2 || zl == 0 {
            return false;
        }
        let n = zl - 1;
        if n == 0 {
            return false;
        }
        let bound: u128 = if n == 1 {
            2
        } else {
            6 * (n as u128) - 5
        };
        if self.d as u128 != bound || self.circuit[0].coeffs.len() != n || self.circuit[1].coeffs.len() != n {
            return false;
        }
        if !self.circuit[0].is_well_formed() || !self.circuit[1].is_well_formed()
            || !self.vanishing_polynomial.is_well_formed() {
            return false;
        }
        let mut i: usize = 0;
        while i < self.d
            invariant
                self.ck.len() == self.d,
                self.ck2.len() == self.d,
                i <= self.d,
                forall|j: int| 0 <= j < i ==> g1_valid((#[trigger] self.ck[j]).enc@),
                forall|j: int| 0 <= j < i ==> g2_valid((#[trigger] self.ck2[j]).enc@),
            decreases self.d - i,
        {
            if !g1_decodes(&self.ck[i]) || !g2_decodes(&self.ck2[i]) {
                return false;
            }
            i = i + 1;
        }
        let v = vanishing_polynomial_of_size(n);
        let mut k: usize = 0;
        while k < zl
            invariant
                v.wf(),
                self.vanishing_polynomial.wf(),
                v.coeffs.len() == zl,
                self.vanishing_polynomial.coeffs.len() == zl,
                k <= zl,
                forall|j: int| 0 <= j < k ==> (#[trigger] self.vanishing_polynomial@[j]) == v@[j],
                v@ == vanishing_coeffs(n as nat),
                n + 1 == zl,
            decreases zl - k,
        {
            if !self.vanishing_polynomial.coeffs[k].eq_val(&v.coeffs[k]) {
                assert(self.vanishing_polynomial@[k as int] != v@[k as int]);
                assert(self.vanishing_polynomial@ != vanishing_coeffs(n as nat));
                return false;
            }
            k = k + 1;
        }
        assert(self.vanishing_polynomial@ =~= v@);
        true
    }

    /// The bases are the powers `x^i` of one trapdoor `x` on `g1` and `g2`.
    pub open spec fn powers_of(&self, g1: Seq<u8>, g2: Seq<u8>, x: int) -> bool {
        &&& forall|i: int| 0 <= i < self.d ==> (#[trigger] self.ck[i]).enc@ == g1_scale(g1, fpow(x, i as nat))
        &&& forall|i: int| 0 <= i < self.d ==> (#[trigger] self.ck2[i]).enc@ == g2_scale(g2, fpow(x, i as nat))
    }

    /// What setup promises for the selector columns `s1`, `s2` of `n` rows
    /// and trapdoor `x`.
    pub open spec fn set_up_for(&self, s1: Seq<Fe>, s2: Seq<Fe>, x: int) -> bool {
        let n = s1.len() as int;
        &&& self.wf()
        &&& self.d == degree_bound(n)
        &&& exists|g1: Seq<u8>, g2: Seq<u8>| self.powers_of(g1, g2, x)
        &&& interpolates(self.circuit[0], s1)
        &&& interpolates(self.circuit[1], s2)
        &&& self.vanishing_polynomial@.len() == n + 1
        &&& forall|z: int| in_field(z) ==> #[trigger] eval(self.vanishing_polynomial@, z) == node_product(z, n as nat)
    }

    /// `Z(X) = (X - 1)...(X - N)` for the `N` rows of `scol`.
    pub fn vanishing_polynomial(scol: &IR) -> (r: Polynomial)
        requires
            scol.witness.len() > 0,
        ensures
            r.wf(),
            r@.len() == scol.witness[0].len() + 1,
            r@.last() == 1,
            forall|z: int| in_field(z) ==> #[trigger] eval(r@, z) == node_product(z, scol.witness[0].len() as nat),
    {
        vanishing_polynomial_of_size(scol.witness[0].len())
    }

    /// The reference string for the selector columns `S1`, `S2` of `scol`
    /// (its first two columns) with trapdoor `x`. Fails on fewer than two
    /// columns or selector columns of different lengths, and on empty ones.
    pub fn setup_with_trapdoor(scol: &IR, x: &Fe) -> (r: Result<CRS, KzgError>)
        requires
            entries_wf(*scol),
            x.wf(),
            scol.witness.len() > 0 ==> 6 * scol.witness[0].len() <= usize::MAX,
        ensures
            r is Ok <==> scol.witness.len() >= 2 && scol.witness[0].len() > 0 && same_lengths(
                *scol,
            ),
            r matches Ok(crs) ==> crs.set_up_for(scol.witness[0]@, scol.witness[1]@, x.val()),
            r == Err::<CRS, KzgError>(KzgError::ShapeMismatch) <==> scol.witness.len() < 2
                || !same_lengths(*scol),
            r == Err::<CRS, KzgError>(KzgError::EmptyDomain) <==> scol.witness.len() >= 2
                && same_lengths(*scol) && scol.witness[0].len() == 0,
            r matches Err(e) ==> e == KzgError::ShapeMismatch || e == KzgError::EmptyDomain,
    {
        if scol.witness.len() < 2 || !columns_agree(scol) {
            return Err(KzgError::ShapeMismatch);
        }
        let n = scol.witness[0].len();
        if n == 0 {
            return Err(KzgError::EmptyDomain);
        }
        proof {
            lemma_modulus_bounds();
            assert forall|c: int| 0 <= c < 2 implies values_wf(#[trigger] scol.witness[c]@) by {
                assert forall|i: int| 0 <= i < scol.witness[c]@.len() implies (
                #[trigger] scol.witness[c]@[i]).wf() by {
                    assert(scol.witness[c][i].wf());
                }
            }
        }
        let s1 = lagrange_interpolation_polynomial(&scol.witness[0]).unwrap();
        let s2 = lagrange_interpolation_polynomial(&scol.witness[1]).unwrap();
        let d = if n == 1 {
            2
        } else {
            6 * n - 5
        };
        let g1 = g1_generator();
        let g2 = g2_generator();
        let mut ck: Vec<G1Point> = Vec::new();
        let mut ck2: Vec<G2Point> = Vec::new();
        let mut power = Fe::one();
        let mut i: usize = 0;
        while i < d
            invariant
                x.wf(),
                g1_valid(g1.enc@),
                g2_valid(g2.enc@),
                i <= d,
                power.wf(),
                power.val() == fpow(x.val(), i as nat),
                ck.len() == i,
                ck2.len() == i,
                forall|j: int| 0 <= j < i ==> g1_valid((#[trigger] ck[j]).enc@) && ck[j].enc@ == g1_scale(g1.enc@, fpow(x.val(), j as nat)),
                forall|j: int| 0 <= j < i ==> g2_valid((#[trigger] ck2[j]).enc@) && ck2[j].enc@ == g2_scale(g2.enc@, fpow(x.val(), j as nat)),
            decreases d - i,
        {
            ck.push(g1_mul(&g1, &power));
            ck2.push(g2_mul(&g2, &power));
            proof {
                crate::field::lemma_field_ring(x.val(), power.val(), 0);
            }
            power = fe_mul(&power, x);
            i = i + 1;
        }
        let mut circuit: Vec<Polynomial> = Vec::new();
        circuit.push(s1);
        circuit.push(s2);
        let vanishing = vanishing_polynomial_of_size(n);
        let crs = CRS { d, ck, ck2, circuit, vanishing_polynomial: vanishing };
        proof {
            assert(crs.powers_of(g1.enc@, g2.enc@, x.val()));
            assert(nz_len(crs.vanishing_polynomial@) > 0);
        }
        Ok(crs)
    }

    /// The reference string for the selector columns of `scol`, with a
    /// trapdoor drawn from `rng` and dropped once the bases are built.
    pub fn setup(scol: &IR, rng: &mut rand::rngs::StdRng) -> (r: Result<CRS, KzgError>)
        requires
            entries_wf(*scol),
            scol.witness.len() > 0 ==> 6 * scol.witness[0].len() <= usize::MAX,
        ensures
            r is Ok <==> scol.witness.len() >= 2 && scol.witness[0].len() > 0 && same_lengths(
                *scol,
            ),
            r matches Ok(crs) ==> exists|x: int| in_field(x) && crs.set_up_for(scol.witness[0]@, scol.witness[1]@, x),
            r == Err::<CRS, KzgError>(KzgError::ShapeMismatch) <==> scol.witness.len() < 2
                || !same_lengths(*scol),
            r == Err::<CRS, KzgError>(KzgError::EmptyDomain) <==> scol.witness.len() >= 2
                && same_lengths(*scol) && scol.witness[0].len() == 0,
            r matches Err(e) ==> e == KzgError::ShapeMismatch || e == KzgError::EmptyDomain,
    {
        let x = fe_random(rng);
        let r = CRS::setup_with_trapdoor(scol, &x);
        proof {
            if r is Ok {
                assert(in_field(x.val()));
            }
        }
        r
    }
}

/// `commit(P) = sum_i P[i] * ck[i]` in G1. Fails where `P` has more
/// coefficients than there are bases.
pub fn commit(crs: &CRS, p: &Polynomial) -> (r: Result<G1Point, KzgError>)
    requires
        crs.wf(),
        p.wf(),
    ensures
        r is Err <==> p.coeffs.len() > crs.d,
        r matches Err(e) ==> e == KzgError::DegreeBoundTooSmall,
        r matches Ok(c) ==> c.enc@ == msm1(crs.ck@, p@, p@.len()) && g1_valid(c.enc@),
{
    let n = p.coeffs.len();
    if n > crs.d {
        return Err(KzgError::DegreeBoundTooSmall);
    }
    let first = if n == 0 {
        Fe::zero()
    } else {
        p.coeffs[0]
    };
    proof {
        lemma_modulus_bounds();
    }
    let mut acc = g1_mul(&crs.ck[0], &first);
    let mut k: usize = 1;
    while k < n
        invariant
            crs.wf(),
            p.wf(),
            n == p.coeffs.len(),
            n <= crs.d,
            1 <= k,
            k <= n || k == 1,
            g1_valid(acc.enc@),
            acc.enc@ == msm1(crs.ck@, p@, k as nat),
        decreases n - k,
    {
        let term = g1_mul(&crs.ck[k], &p.coeffs[k]);
        acc = g1_add(&acc, &term);
        k = k + 1;
    }
    assert(p@.len() == n);
    if n == 0 {
        assert(msm1(crs.ck@, p@, 0) == msm1(crs.ck@, p@, 1));
    }
    Ok(acc)
}

/// `commit(P) = sum_i P[i] * ck2[i]` in G2. Fails where `P` has more
/// coefficients than there are bases.
pub fn commit_g2(crs: &CRS, p: &Polynomial) -> (r: Result<G2Point, KzgError>)
    requires
        crs.wf(),
        p.wf(),
    ensures
        r is Err <==> p.coeffs.len() > crs.d,
        r matches Err(e) ==> e == KzgError::DegreeBoundTooSmall,
        r matches Ok(c) ==> c.enc@ == msm2(crs.ck2@, p@, p@.len()) && g2_valid(c.enc@),
{
    let n = p.coeffs.len();
    if n > crs.d {
        return Err(KzgError::DegreeBoundTooSmall);
    }
    let first = if n == 0 {
        Fe::zero()
    } else {
        p.coeffs[0]
    };
    proof {
        lemma_modulus_bounds();
    }
    let mut acc = g2_mul(&crs.ck2[0], &first);
    let mut k: usize = 1;
    while k < n
        invariant
            crs.wf(),
            p.wf(),
            n == p.coeffs.len(),
            n <= crs.d,
            1 <= k,
            k <= n || k == 1,
            g2_valid(acc.enc@),
            acc.enc@ == msm2(crs.ck2@, p@, k as nat),
        decreases n - k,
    {
        let term = g2_mul(&crs.ck2[k], &p.coeffs[k]);
        acc = g2_add(&acc, &term);
        k = k + 1;
    }
    assert(p@.len() == n);
    if n == 0 {
        assert(msm2(crs.ck2@, p@, 0) == msm2(crs.ck2@, p@, 1));
    }
    Ok(acc)
}

/// The trace has the ten columns, of one non-zero length `N` that matches
/// the reference string's vanishing polynomial.
pub open spec fn fits(crs: &CRS, trace: &IR) -> bool {
    &&& trace.witness.len() == NUM_COLUMNS
    &&& trace.rows() > 0
    &&& trace.has_shape(NUM_COLUMNS as int, trace.rows())
    &&& crs.vanishing_polynomial@.len() == trace.rows() + 1
}

/// Column `c` at row `k + 1`; zero past the last row.
pub open spec fn next_at(trace: IR, c: int, k: int) -> int {
    if k + 1 < trace.rows() {
        trace.at(c, k + 1)
    } else {
        0
    }
}

/// Constraint `j` at row `k` of `trace`, the selectors read from the
/// reference string.
pub open spec fn row_constraint(crs: &CRS, curve: &CurveConfig, trace: &IR, j: int, k: int) -> int {
    constraint(
        j,
        curve.b3.val(),
        trace_row(crs.circuit[0], crs.circuit[1], *trace, k),
        node(k),
        trace.rows(),
        next_at(*trace, X1 as int, k),
        next_at(*trace, Y1 as int, k),
        next_at(*trace, Z1 as int, k),
    )
}

/// Every row of `trace` meets every constraint.
pub open spec fn rows_satisfied(crs: &CRS, curve: &CurveConfig, trace: &IR) -> bool {
    forall|j: int, k: int|
        0 <= j < NUM_CONSTRAINTS && 0 <= k < trace.rows() ==> #[trigger] row_constraint(
            crs,
            curve,
            trace,
            j,
            k,
        ) == 0
}

/// `cols` are the polynomials of the columns of `trace`.
pub open spec fn column_polys(trace: &IR, cols: Seq<Polynomial>) -> bool {
    &&& cols.len() == trace.witness.len()
    &&& forall|i: int| 0 <= i < cols.len() ==> interpolates(#[trigger] cols[i], trace.witness[i]@)
}

/// What a proof commits to: the constraint polynomials `cs[j]` of `trace`,
/// with at most `degree_bound(N)` coefficients, whose value at every `z` is
/// constraint `j` on the values the column polynomials take at `z` (and, for
/// the next row, at `z + 1`); and `qs[j]` with `cs[j] = qs[j] Z`.
pub open spec fn proves(
    crs: &CRS,
    curve: &CurveConfig,
    trace: &IR,
    pf: Proof,
    cs: Seq<Seq<int>>,
    qs: Seq<Seq<int>>,
) -> bool {
    &&& pf.commitments_c.len() == NUM_CONSTRAINTS
    &&& pf.commitments_q.len() == NUM_CONSTRAINTS
    &&& cs.len() == NUM_CONSTRAINTS
    &&& qs.len() == NUM_CONSTRAINTS
    &&& forall|j: int|
        0 <= j < NUM_CONSTRAINTS ==> (#[trigger] cs[j]).len() <= degree_bound(trace.rows())
            && pf.commitments_c[j].enc@ == msm1(crs.ck@, cs[j], cs[j].len())
            && pf.commitments_q[j].enc@ == msm1(crs.ck@, qs[j], qs[j].len())
    &&& forall|j: int, i: int|
        0 <= j < NUM_CONSTRAINTS ==> #[trigger] coef(cs[j], i) == coef(
            pmul(qs[j], crs.vanishing_polynomial@),
            i,
        )
    &&& exists|cols: Seq<Polynomial>|
        column_polys(trace, cols) && forall|j: int, z: int|
            0 <= j < NUM_CONSTRAINTS && in_field(z) ==> #[trigger] eval(cs[j], z) == constraint(
                j,
                curve.b3.val(),
                row_at(crs.circuit[0], crs.circuit[1], cols, z),
                z,
                trace.rows(),
                eval(cols[X1 as int]@, fadd(z, 1)),
                eval(cols[Y1 as int]@, fadd(z, 1)),
                eval(cols[Z1 as int]@, fadd(z, 1)),
            )
}

/// Builds the constraint polynomials of `trace`, divides each by `Z` and
/// commits to it and to its quotient. Fails on a trace that does not fit the
/// reference string, and when a division leaves a remainder, which happens
/// exactly when some row does not meet some constraint.
#[verifier::rlimit(60)]
pub fn prove(crs: &CRS, curve: &CurveConfig, trace: &IR) -> (r: Result<Proof, KzgError>)
    requires
        crs.wf(),
        curve.wf(),
        entries_wf(*trace),
    ensures
        !fits(crs, trace) <==> (r == Err::<Proof, KzgError>(KzgError::ShapeMismatch) || r == Err::<
            Proof,
            KzgError,
        >(KzgError::EmptyDomain)),
        r == Err::<Proof, KzgError>(KzgError::WitnessInvalid) <==> fits(crs, trace)
            && !rows_satisfied(crs, curve, trace),
        r is Ok <==> fits(crs, trace) && rows_satisfied(crs, curve, trace),
        r matches Ok(pf) ==> exists|cs: Seq<Seq<int>>, qs: Seq<Seq<int>>|
            proves(crs, curve, trace, pf, cs, qs),
{
    let cols = match interpol(trace) {
        Ok(c) => c,
        Err(e) => {
            return Err(e);
        },
    };
    if cols.len() != NUM_COLUMNS {
        return Err(KzgError::ShapeMismatch);
    }
    let n = trace.witness[0].len();
    let zl = crs.vanishing_polynomial.coeffs.len();
    if zl == 0 || zl - 1 != n {
        return Err(KzgError::ShapeMismatch);
    }
    proof {
        assert(fits(crs, trace));
        assert(cols_wf(cols@)) by {
            assert forall|i: int| 0 <= i < cols.len() implies (#[trigger] cols@[i]).wf() by {
                assert(interpolates(cols[i], trace.witness[i]@));
            }
        }
        assert(cols_len(cols@, n as int)) by {
            assert forall|i: int| 0 <= i < cols.len() implies (#[trigger] cols@[i]).coeffs.len() == n by {
                assert(interpolates(cols[i], trace.witness[i]@));
            }
        }
    }
    let cons = constraint_polynomials(curve, &crs.circuit[0], &crs.circuit[1], &cols, n);
    proof {
        lemma_node_values(crs, curve, trace, cols@, cons@, n as int);
    }
    let mut commits_c: Vec<G1Point> = Vec::new();
    let mut commits_q: Vec<G1Point> = Vec::new();
    let ghost mut qs: Seq<Seq<int>> = Seq::empty();
    let zp = Ghost(crs.vanishing_polynomial@);
    let mut j: usize = 0;
    while j < NUM_CONSTRAINTS
        invariant
            crs.wf(),
            fits(crs, trace),
            n == trace.rows(),
            n >= 1,
            zp@ == crs.vanishing_polynomial@,
            zp@ == vanishing_coeffs(n as nat),
            gaps_invertible(n as int),
            n < crate::field::limb_base(),
            cons.len() == NUM_CONSTRAINTS,
            forall|i: int|
                0 <= i < NUM_CONSTRAINTS ==> (#[trigger] cons[i]).wf() && cons[i].coeffs.len()
                    <= constraint_len(n as int),
            forall|i: int, k: int|
                0 <= i < NUM_CONSTRAINTS && 0 <= k < n ==> #[trigger] eval(cons[i]@, node(k))
                    == row_constraint(crs, curve, trace, i, k),
            j <= NUM_CONSTRAINTS,
            commits_c.len() == j,
            commits_q.len() == j,
            qs.len() == j,
            forall|i: int, k: int|
                0 <= i < j && 0 <= k < n ==> #[trigger] row_constraint(crs, curve, trace, i, k) == 0,
            forall|i: int|
                0 <= i < j ==> (#[trigger] commits_c[i]).enc@ == msm1(crs.ck@, cons[i]@, cons[i]@.len())
                    && commits_q[i].enc@ == msm1(crs.ck@, qs[i], qs[i].len()),
            forall|i: int, t: int|
                0 <= i < j ==> #[trigger] coef(cons[i]@, t) == coef(pmul(qs[i], zp@), t),
        decreases NUM_CONSTRAINTS - j,
    {
        let (q, rem) = divide_polynomials(&cons[j], &crs.vanishing_polynomial);
        proof {
            crate::poly::lemma_view_in_field(&rem);
            crate::poly::lemma_view_in_field(&cons[j as int]);
        }
        if rem.coeffs.len() != 0 {
            proof {
                if rows_satisfied(crs, curve, trace) {
                    assert forall|k: int| 0 <= k < n implies #[trigger] eval(cons[j as int]@, k + 1) == 0 by {
                        assert(eval(cons[j as int]@, node(k)) == row_constraint(crs, curve, trace, j as int, k));
                    }
                    crate::interpolate::lemma_divide_vanishing(cons[j as int]@, n as nat, q@, rem@);
                }
            }
            return Err(KzgError::WitnessInvalid);
        }
        proof {
            assert forall|k: int| 0 <= k < n implies #[trigger] row_constraint(crs, curve, trace, j as int, k) == 0 by {
                crate::field::lemma_modulus_bounds();
                crate::field::lemma_small_in_field(node(k));
                crate::interpolate::lemma_node_product_root(node(k), n as nat, k);
                assert(eval(crs.vanishing_polynomial@, node(k)) == node_product(node(k), n as nat));
                assert(eval(cons[j as int]@, node(k)) == fadd(fmul(eval(q@, node(k)), eval(zp@, node(k))), eval(rem@, node(k))));
                assert(eval(rem@, node(k)) == 0);
                crate::field::lemma_field_ring(eval(q@, node(k)), 0, 0);
                crate::field::lemma_field_units(0);
            }
            assert forall|t: int| #[trigger] coef(cons[j as int]@, t) == coef(pmul(q@, zp@), t) by {
                assert(coef(cons[j as int]@, t) == fadd(coef(pmul(q@, zp@), t), coef(rem@, t)));
                crate::poly::lemma_coef_pmul(q@, zp@, t);
                crate::poly::lemma_conv_in_field(q@, zp@, t);
                crate::field::lemma_field_units(coef(pmul(q@, zp@), t));
            }
            assert(degree_bound(n as int) == constraint_len(n as int));
        }
        let cc = commit(crs, &cons[j]).unwrap();
        let cq = commit(crs, &q).unwrap();
        commits_c.push(cc);
        commits_q.push(cq);
        proof {
            qs = qs.push(q@);
        }
        j = j + 1;
    }
    let pf = Proof { commitments_c: commits_c, commitments_q: commits_q };
    let ghost cs = Seq::new(NUM_CONSTRAINTS as nat, |i: int| cons[i]@);
    proof {
        assert(column_polys(trace, cols@));
        assert(degree_bound(n as int) == constraint_len(n as int));
        assert forall|i: int| 0 <= i < NUM_CONSTRAINTS implies (#[trigger] cs[i]).len() <= degree_bound(
            trace.rows(),
        ) && pf.commitments_c[i].enc@ == msm1(crs.ck@, cs[i], cs[i].len())
            && pf.commitments_q[i].enc@ == msm1(crs.ck@, qs[i], qs[i].len()) by {
            assert(cons[i].coeffs.len() <= constraint_len(n as int));
        }
        assert forall|i: int, t: int| 0 <= i < NUM_CONSTRAINTS implies #[trigger] coef(cs[i], t)
            == coef(pmul(qs[i], crs.vanishing_polynomial@), t) by {
            assert(coef(cons[i]@, t) == coef(pmul(qs[i], zp@), t));
        }
        assert forall|i: int, z: int| 0 <= i < NUM_CONSTRAINTS && in_field(z) implies #[trigger] eval(
            cs[i],
            z,
        ) == constraint(
            i,
            curve.b3.val(),
            row_at(crs.circuit[0], crs.circuit[1], cols@, z),
            z,
            trace.rows(),
            eval(cols@[X1 as int]@, fadd(z, 1)),
            eval(cols@[Y1 as int]@, fadd(z, 1)),
            eval(cols@[Z1 as int]@, fadd(z, 1)),
        ) by {
            assert(eval(cons[i]@, z) == constraint(
                i,
                curve.b3.val(),
                row_at(crs.circuit[0], crs.circuit[1], cols@, z),
                z,
                n as int,
                eval(cols@[X1 as int]@, fadd(z, 1)),
                eval(cols@[Y1 as int]@, fadd(z, 1)),
                eval(cols@[Z1 as int]@, fadd(z, 1)),
            ));
        }
        assert(proves(crs, curve, trace, pf, cs, qs));
    }
    let r = Ok(pf);
    proof {
        let p = r->Ok_0;
        assert(proves(crs, curve, trace, p, cs, qs));
    }
    r
}

/// The constraint polynomials take the row constraints at the nodes.
proof fn lemma_node_values(
    crs: &CRS,
    curve: &CurveConfig,
    trace: &IR,
    cols: Seq<Polynomial>,
    cons: Seq<Polynomial>,
    n: int,
)
    requires
        crs.wf(),
        fits(crs, trace),
        n == trace.rows(),
        column_polys(trace, cols),
        cons.len() == NUM_CONSTRAINTS,
        forall|j: int, z: int|
            0 <= j < NUM_CONSTRAINTS && in_field(z) ==> #[trigger] eval(cons[j]@, z) == constraint(
                j,
                curve.b3.val(),
                row_at(crs.circuit[0], crs.circuit[1], cols, z),
                z,
                n,
                eval(cols[X1 as int]@, fadd(z, 1)),
                eval(cols[Y1 as int]@, fadd(z, 1)),
                eval(cols[Z1 as int]@, fadd(z, 1)),
            ),
    ensures
        forall|j: int, k: int|
            0 <= j < NUM_CONSTRAINTS && 0 <= k < n ==> #[trigger] eval(cons[j]@, node(k))
                == row_constraint(crs, curve, trace, j, k),
{
    assert forall|j: int, k: int| 0 <= j < NUM_CONSTRAINTS && 0 <= k < n implies #[trigger] eval(
        cons[j]@,
        node(k),
    ) == row_constraint(crs, curve, trace, j, k) by {
        crate::field::lemma_modulus_bounds();
        crate::field::lemma_small_in_field(node(k));
        crate::field::lemma_small_in_field(node(k) + 1);
        assert(fadd(node(k), 1) == node(k + 1));
        assert(interpolates(cols[X1 as int], trace.witness[X1 as int]@));
        assert(interpolates(cols[Y1 as int], trace.witness[Y1 as int]@));
        assert(interpolates(cols[Z1 as int], trace.witness[Z1 as int]@));
        assert(interpolates(cols[X2 as int], trace.witness[X2 as int]@));
        assert(interpolates(cols[Y2 as int], trace.witness[Y2 as int]@));
        assert(interpolates(cols[X3 as int], trace.witness[X3 as int]@));
        assert(interpolates(cols[Y3 as int], trace.witness[Y3 as int]@));
        assert(interpolates(cols[Z3 as int], trace.witness[Z3 as int]@));
        let w = trace_row(crs.circuit[0], crs.circuit[1], *trace, k);
        assert(row_at(crs.circuit[0], crs.circuit[1], cols, node(k)) == w);
        let ex = eval(cols[X1 as int]@, fadd(node(k), 1));
        let ey = eval(cols[Y1 as int]@, fadd(node(k), 1));
        let ez = eval(cols[Z1 as int]@, fadd(node(k), 1));
        if k + 1 < n {
            assert(ex == next_at(*trace, X1 as int, k));
            assert(ey == next_at(*trace, Y1 as int, k));
            assert(ez == next_at(*trace, Z1 as int, k));
        } else {
            crate::field::lemma_field_ring(n, n, 0);
            crate::field::lemma_field_ring(0, fsub(w.x3, ex), 0);
            crate::field::lemma_field_ring(0, fsub(w.y3, ey), 0);
            crate::field::lemma_field_ring(0, fsub(w.z3, ez), 0);
            crate::field::lemma_field_ring(0, fsub(w.x3, 0), 0);
            crate::field::lemma_field_ring(0, fsub(w.y3, 0), 0);
            crate::field::lemma_field_ring(0, fsub(w.z3, 0), 0);
        }
    }
}

/// Completeness: a trace that `build_trace` returns fits a reference string
/// set up from its selector columns, and every row meets every constraint;
/// so (by the contract of `prove`) every constraint polynomial leaves no
/// remainder when divided by the vanishing polynomial, and `prove` returns a
/// proof.
pub proof fn lemma_completeness(
    crs: &CRS,
    curve: &CurveConfig,
    ir: &IR,
    bits: Seq<bool>,
    p: crate::curve::AffinePoint,
    g: crate::curve::AffinePoint,
    t: crate::curve::AffinePoint,
    x: int,
)
    requires
        crate::trace::valid_trace(*curve, *ir, bits, p, g, t),
        crs.set_up_for(ir.witness[S1 as int]@, ir.witness[S2 as int]@, x),
    ensures
        fits(crs, ir),
        rows_satisfied(crs, curve, ir),
{
    assert(ir.witness[0].len() == 2 * bits.len() + 2);
    let n = ir.rows();
    assert forall|j: int, k: int| 0 <= j < NUM_CONSTRAINTS && 0 <= k < n implies #[trigger] row_constraint(
        crs,
        curve,
        ir,
        j,
        k,
    ) == 0 by {
        let w = trace_row(crs.circuit[0], crs.circuit[1], *ir, k);
        assert(w == ir.row(k));
        assert(row_in_field(w)) by {
            assert(ir.witness[X1 as int][k].wf());
            assert(ir.witness[Y1 as int][k].wf());
            assert(ir.witness[Z1 as int][k].wf());
            assert(ir.witness[X2 as int][k].wf());
            assert(ir.witness[Y2 as int][k].wf());
            assert(ir.witness[X3 as int][k].wf());
            assert(ir.witness[Y3 as int][k].wf());
            assert(ir.witness[Z3 as int][k].wf());
        }
        if k + 1 < n {
            assert(ir.row(k + 1).x1 == ir.row(k).x3);
        } else {
            crate::field::lemma_field_ring(n, n, 0);
        }
        lemma_row_meets_constraints(
            curve.b3.val(),
            w,
            node(k),
            n,
            next_at(*ir, X1 as int, k),
            next_at(*ir, Y1 as int, k),
            next_at(*ir, Z1 as int, k),
            j,
        );
    }
}

/// Soundness of the constraint system: where the selectors read from the
/// reference string are 0 or 1 at every node, a trace that meets every
/// constraint satisfies the relation of every row, and each row but the
/// last ends where the next one starts.
pub proof fn lemma_constraints_give_valid_rows(crs: &CRS, curve: &CurveConfig, trace: &IR)
    requires
        crs.wf(),
        fits(crs, trace),
        entries_wf(*trace),
        trace.rows() < crate::field::limb_base(),
        gaps_invertible(trace.rows()),
        forall|k: int|
            0 <= k < trace.rows() ==> {
                let w = #[trigger] trace_row(crs.circuit[0], crs.circuit[1], *trace, k);
                (w.s1 == 0 || w.s1 == 1) && (w.s2 == 0 || w.s2 == 1)
            },
        rows_satisfied(crs, curve, trace),
    ensures
        forall|k: int|
            0 <= k < trace.rows() ==> row_ok(
                curve.b3.val(),
                #[trigger] trace_row(crs.circuit[0], crs.circuit[1], *trace, k),
            ),
        forall|k: int|
            0 <= k < trace.rows() - 1 ==> #[trigger] trace.at(X3 as int, k) == trace.at(X1 as int, k + 1)
                && trace.at(Y3 as int, k) == trace.at(Y1 as int, k + 1) && trace.at(Z3 as int, k)
                == trace.at(Z1 as int, k + 1),
{
    let n = trace.rows();
    assert forall|k: int| 0 <= k < n implies row_ok(
        curve.b3.val(),
        #[trigger] trace_row(crs.circuit[0], crs.circuit[1], *trace, k),
    ) && (k < n - 1 ==> trace.at(X3 as int, k) == trace.at(X1 as int, k + 1) && trace.at(
        Y3 as int,
        k,
    ) == trace.at(Y1 as int, k + 1) && trace.at(Z3 as int, k) == trace.at(Z1 as int, k + 1)) by {
        let w = trace_row(crs.circuit[0], crs.circuit[1], *trace, k);
        let nx = next_at(*trace, X1 as int, k);
        let ny = next_at(*trace, Y1 as int, k);
        let nz = next_at(*trace, Z1 as int, k);
        crate::field::lemma_modulus_bounds();
        assert(row_in_field(w)) by {
            assert(trace.witness[X1 as int][k].wf());
            assert(trace.witness[Y1 as int][k].wf());
            assert(trace.witness[Z1 as int][k].wf());
            assert(trace.witness[X2 as int][k].wf());
            assert(trace.witness[Y2 as int][k].wf());
            assert(trace.witness[X3 as int][k].wf());
            assert(trace.witness[Y3 as int][k].wf());
            assert(trace.witness[Z3 as int][k].wf());
        }
        if k + 1 < n {
            assert(trace.witness[X1 as int][k + 1].wf());
            assert(trace.witness[Y1 as int][k + 1].wf());
            assert(trace.witness[Z1 as int][k + 1].wf());
            let gap = n - (k + 1);
            assert(invertible(gap));
            crate::field::lemma_small_in_field(k + 1);
            assert(fsub(node(k), n) == fneg(gap));
            lemma_neg_invertible(gap);
            crate::interpolate::lemma_distinct_diff_nonzero(k + 1, n);
        } else {
            crate::field::lemma_field_ring(n, n, 0);
            crate::field::lemma_mod_in_field(0);
        }
        assert forall|j: int| 0 <= j < NUM_CONSTRAINTS implies #[trigger] constraint(
            j,
            curve.b3.val(),
            w,
            node(k),
            n,
            nx,
            ny,
            nz,
        ) == 0 by {
            assert(row_constraint(crs, curve, trace, j, k) == 0);
        }
        lemma_constraints_give_row(curve.b3.val(), w, node(k), n, nx, ny, nz);
    }
    assert forall|k: int| 0 <= k < n - 1 implies #[trigger] trace.at(X3 as int, k) == trace.at(
        X1 as int,
        k + 1,
    ) && trace.at(Y3 as int, k) == trace.at(Y1 as int, k + 1) && trace.at(Z3 as int, k) == trace.at(
        Z1 as int,
        k + 1,
    ) by {
        assert(row_ok(curve.b3.val(), trace_row(crs.circuit[0], crs.circuit[1], *trace, k)));
    }
}

/// The negation of an invertible element is invertible.
proof fn lemma_neg_invertible(g: int)
    requires
        invertible(g),
    ensures
        invertible(fneg(g)),
{
    let inv = choose|inv: int| #[trigger] fmul(g, inv) == 1;
    crate::field::lemma_field_ring(g, fneg(inv), 0);
    crate::field::lemma_field_ring(fneg(inv), g, 0);
    crate::field::lemma_field_ring(inv, g, 0);
    crate::field::lemma_field_ring(g, inv, 0);
    crate::field::lemma_mod_in_field(inv * g);
    crate::poly::lemma_fneg_fneg(fmul(inv, g));
    crate::field::lemma_field_ring(fneg(g), fneg(inv), 0);
    assert(fmul(fneg(g), fneg(inv)) == 1);
}

/// Whether two byte strings are equal.
fn bytes_eq(a: &Vec<u8>, b: &Vec<u8>) -> (r: bool)
    ensures
        r == (a@ == b@),
{
    if a.len() != b.len() {
        return false;
    }
    let mut i: usize = 0;
    while i < a.len()
        invariant
            a.len() == b.len(),
            i <= a.len(),
            forall|j: int| 0 <= j < i ==> a[j] == b[j],
        decreases a.len() - i,
    {
        if a[i] != b[i] {
            return false;
        }
        i = i + 1;
    }
    assert(a@ =~= b@);
    true
}

/// The pairing check of one constraint: `e(C_j, g2) == e(Q_j, Z_2)`, both
/// commitments decoding.
pub open spec fn pairing_holds(crs: &CRS, c: G1Point, q: G1Point) -> bool {
    g1_valid(c.enc@) && g1_valid(q.enc@) && pairing_value(c.enc@, crs.ck2[0].enc@) == pairing_value(
        q.enc@,
        msm2(crs.ck2@, crs.vanishing_polynomial@, crs.vanishing_polynomial@.len()),
    )
}

/// Checks `e(commit(C_j), g2) == e(commit(Q_j), commit_G2(Z))` for every
/// constraint `j`. A proof of another shape, or whose elements do not
/// decode, is rejected.
pub fn verify(crs: &CRS, proof: &Proof) -> (r: bool)
    requires
        crs.wf(),
    ensures
        r == (proof.commitments_c.len() == NUM_CONSTRAINTS && proof.commitments_q.len()
            == NUM_CONSTRAINTS && forall|j: int|
            0 <= j < NUM_CONSTRAINTS ==> pairing_holds(
                crs,
                #[trigger] proof.commitments_c[j],
                proof.commitments_q[j],
            )),
{
    if proof.commitments_c.len() != NUM_CONSTRAINTS || proof.commitments_q.len() != NUM_CONSTRAINTS {
        return false;
    }
    let zc = commit_g2(crs, &crs.vanishing_polynomial).unwrap();
    let mut j: usize = 0;
    while j < NUM_CONSTRAINTS
        invariant
            crs.wf(),
            proof.commitments_c.len() == NUM_CONSTRAINTS,
            proof.commitments_q.len() == NUM_CONSTRAINTS,
            zc.enc@ == msm2(crs.ck2@, crs.vanishing_polynomial@, crs.vanishing_polynomial@.len()),
            g2_valid(zc.enc@),
            j <= NUM_CONSTRAINTS,
            forall|i: int| 0 <= i < j ==> pairing_holds(crs, #[trigger] proof.commitments_c[i], proof.commitments_q[i]),
        decreases NUM_CONSTRAINTS - j,
    {
        let c = &proof.commitments_c[j];
        let q = &proof.commitments_q[j];
        if !g1_decodes(c) || !g1_decodes(q) {
            return false;
        }
        let lhs = pairing(c, &crs.ck2[0]);
        let rhs = pairing(q, &zc);
        if !bytes_eq(&lhs, &rhs) {
            return false;
        }
        j = j + 1;
    }
    true
}

} // verus!
