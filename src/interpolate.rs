//! Lagrange interpolation over the nodes `1, 2, ..., N`.
use vstd::prelude::*;
use crate::error::KzgError;
use crate::field::{
    Fe, fadd, fmul, fneg, fsub, in_field, modulus, lemma_field_ring, lemma_field_units,
    lemma_mod_in_field, lemma_modulus_bounds, lemma_small_in_field, fe_mul, fe_neg, fe_inv,
    fe_sub,
};
use crate::poly::{
    Polynomial, eval, pmul, pshift, invertible, gaps_invertible, lemma_pmul_len,
    lemma_eval_in_field, multiply_polynomials, scale_polynomial, add_polynomials,
};

verus! {

/// The `i`-th node (0-based index `i`) is the field element `i + 1`.
pub open spec fn node(i: int) -> int {
    i + 1
}

/// Distinct canonical elements differ by a non-zero element.
pub proof fn lemma_distinct_diff_nonzero(a: int, b: int)
    requires
        in_field(a),
        in_field(b),
        a != b,
    ensures
        fsub(a, b) != 0,
{
    let m = modulus();
    let x = a - b;
    vstd::arithmetic::div_mod::lemma_fundamental_div_mod(x, m);
    let q = x / m;
    if x % m == 0 {
        assert(false) by (nonlinear_arith)
            requires
                x == m * q,
                -m < x < m,
                x != 0,
        ;
    }
}

proof fn lemma_mul4(a: int, b: int, c: int, d: int)
    ensures
        fmul(fmul(a, b), fmul(c, d)) == fmul(fmul(a, c), fmul(b, d)),
{
    lemma_field_ring(a, b, fmul(c, d));
    lemma_field_ring(b, c, d);
    lemma_field_ring(c, b, d);
    lemma_field_ring(b, c, 0);
    lemma_field_ring(a, fmul(c, b), d);
    lemma_field_ring(a, c, b);
    lemma_field_ring(fmul(a, c), b, d);
    lemma_field_ring(a, fmul(b, fmul(c, d)), 0);
    lemma_field_ring(a, fmul(c, fmul(b, d)), 0);
    lemma_field_ring(fmul(a, c), fmul(b, d), 0);
    lemma_field_ring(a, c, fmul(b, d));
    lemma_field_ring(fmul(a, b), fmul(c, d), 0);
    lemma_field_ring(a, b, 0);
}

/// A constant polynomial takes its value everywhere.
pub proof fn lemma_eval_const(s: Seq<int>, z: int)
    requires
        s.len() == 1,
        in_field(s[0]),
    ensures
        eval(s, z) == s[0],
{
    assert(eval(s.drop_first(), z) == 0);
    lemma_field_ring(z, 0, 0);
    lemma_field_units(s[0]);
}

/// The linear polynomial `X - x`.
pub(crate) fn root_factor(x: &Fe) -> (r: Polynomial)
    requires
        x.wf(),
    ensures
        r.wf(),
        r@.len() == 2,
        r@[1] == 1,
        r@ == seq![fneg(x.val()), 1int],
        forall|z: int| in_field(z) ==> eval(r@, z) == fsub(z, x.val()),
{
    let mut coeffs: Vec<Fe> = Vec::new();
    coeffs.push(fe_neg(x));
    coeffs.push(Fe::one());
    let r = Polynomial { coeffs };
    proof {
        assert(r@ =~= seq![fneg(x.val()), 1int]);
        assert forall|z: int| in_field(z) implies eval(r@, z) == fsub(z, x.val()) by {
            let t = r@.drop_first();
            assert(t[0] == 1);
            lemma_field_units(1);
            lemma_eval_const(t, z);
            assert(r@[0] == fneg(x.val()));
            lemma_field_units(z);
            lemma_field_ring(z, x.val(), 0);
            lemma_field_ring(fneg(x.val()), z, 0);
        }
    }
    r
}

/// `l_i`: the polynomial of degree `num_points - 1` that is one at node `i`
/// and zero at every other node of `1..num_points`.
pub fn lagrange_basis_polynomial(i: usize, num_points: usize) -> (r: Polynomial)
    requires
        i < num_points,
    ensures
        r.wf(),
        r@.len() == num_points,
        r@.last() != 0,
        forall|k: int|
            0 <= k < num_points ==> #[trigger] eval(r@, node(k)) == if k == i {
                1int
            } else {
                0int
            },
        forall|g: int| 1 <= g <= i ==> #[trigger] invertible(g),
{
    proof {
        lemma_modulus_bounds();
    }
    let xi = Fe::from_u64((i + 1) as u64);
    let mut one_coeffs: Vec<Fe> = Vec::new();
    one_coeffs.push(Fe::one());
    let mut numer = Polynomial { coeffs: one_coeffs };
    let mut denom_inv = Fe::one();
    proof {
        assert(numer@[0] == 1);
        lemma_field_units(1);
        lemma_eval_const(numer@, node(i as int));
    }
    let mut j: usize = 0;
    while j < num_points
        invariant
            i < num_points,
            j <= num_points,
            xi.wf(),
            xi.val() == node(i as int),
            numer.wf(),
            numer@.last() == 1,
            denom_inv.wf(),
            numer@.len() == if i < j {
                j as int
            } else {
                j + 1
            },
            forall|k: int|
                0 <= k < j && k != i ==> #[trigger] eval(numer@, node(k)) == 0,
            fmul(eval(numer@, node(i as int)), denom_inv.val()) == 1,
            forall|jj: int| 0 <= jj < j && jj < i ==> #[trigger] invertible(i - jj),
        decreases num_points - j,
    {
        if j != i {
            let xj = Fe::from_u64((j + 1) as u64);
            let factor = root_factor(&xj);
            let ghost old_numer = numer@;
            numer = multiply_polynomials(&numer, &factor);
            proof {
                lemma_field_units(1);
                lemma_pmul_monic(old_numer, factor@);
            }
            let d = fe_sub(&xi, &xj);
            proof {
                lemma_small_in_field(node(i as int));
                lemma_small_in_field(node(j as int));
                lemma_distinct_diff_nonzero(xi.val(), xj.val());
            }
            let dinv = fe_inv(&d).unwrap();
            proof {
                if j < i {
                    lemma_small_in_field(i - j);
                    assert(d.val() == i - j);
                    assert(fmul(i - j, dinv.val()) == 1);
                    assert(invertible(i - j));
                }
            }
            let ghost old_inv = denom_inv.val();
            denom_inv = fe_mul(&denom_inv, &dinv);
            proof {
                lemma_pmul_len(old_numer, factor@);
                assert forall|k: int| 0 <= k < j + 1 && k != i implies #[trigger] eval(
                    numer@,
                    node(k),
                ) == 0 by {
                    lemma_small_in_field(node(k));
                    let e = eval(old_numer, node(k));
                    assert(eval(numer@, node(k)) == fmul(e, eval(factor@, node(k))));
                    if k < j {
                        lemma_field_ring(eval(factor@, node(k)), 0, 0);
                    } else {
                        lemma_field_ring(node(k), node(k), 0);
                        lemma_field_ring(e, 0, 0);
                    }
                }
                let e = eval(old_numer, node(i as int));
                lemma_small_in_field(node(i as int));
                assert(eval(numer@, node(i as int)) == fmul(e, d.val()));
                lemma_mul4(e, d.val(), old_inv, dinv.val());
                lemma_field_ring(e, old_inv, 0);
                lemma_field_ring(d.val(), dinv.val(), 0);
                lemma_field_units(1);
            }
        }
        j = j + 1;
    }
    let r = scale_polynomial(&denom_inv, &numer);
    proof {
        assert(r@.last() == fmul(denom_inv.val(), 1));
        lemma_field_units(denom_inv.val());
        lemma_field_ring(eval(numer@, node(i as int)), 0, 0);
        assert forall|g: int| 1 <= g <= i implies #[trigger] invertible(g) by {
            assert(invertible(i - (i - g)));
        }
        assert forall|k: int| 0 <= k < num_points implies #[trigger] eval(r@, node(k)) == if k
            == i {
            1int
        } else {
            0int
        } by {
            assert(eval(r@, node(k)) == fmul(denom_inv.val(), eval(numer@, node(k))));
            lemma_field_ring(denom_inv.val(), eval(numer@, node(k)), 0);
        }
    }
    r
}

/// `(z - 1)(z - 2)...(z - n)` in the field.
pub open spec fn node_product(z: int, n: nat) -> int
    decreases n,
{
    if n == 0 {
        1
    } else {
        fmul(node_product(z, (n - 1) as nat), fsub(z, n as int))
    }
}

proof fn lemma_pmul_monic(a: Seq<int>, b: Seq<int>)
    requires
        a.len() > 0,
        b.len() == 2,
        b[1] == 1,
        in_field(a.last()),
    ensures
        pmul(a, b).last() == a.last(),
    decreases a.len(),
{
    lemma_pmul_len(a, b);
    if a.len() == 1 {
        assert(pmul(a.drop_first(), b).len() == 0);
        lemma_field_units(a[0]);
        lemma_mod_in_field(a[0] * 1);
        lemma_field_units(fmul(a[0], 1));
    } else {
        let t = a.drop_first();
        assert(t.last() == a.last());
        lemma_pmul_monic(t, b);
        lemma_pmul_len(t, b);
        let r = pmul(t, b);
        assert(pshift(r).last() == r.last());
        lemma_field_units(r.last());
    }
}

/// The coefficients of `(X - 1)(X - 2)...(X - n)`.
pub open spec fn vanishing_coeffs(n: nat) -> Seq<int>
    decreases n,
{
    if n == 0 {
        seq![1int]
    } else {
        pmul(vanishing_coeffs((n - 1) as nat), seq![fneg(n as int), 1int])
    }
}

/// `Z(X) = (X - 1)(X - 2)...(X - n)`: monic, of degree `n`, zero exactly on
/// the nodes `1..n` as far as its value is the product of the factors.
pub fn vanishing_polynomial_of_size(n: usize) -> (r: Polynomial)
    ensures
        r.wf(),
        r@.len() == n + 1,
        r@.last() == 1,
        r@ == vanishing_coeffs(n as nat),
        forall|z: int| in_field(z) ==> #[trigger] eval(r@, z) == node_product(z, n as nat),
        forall|k: int| 0 <= k < n ==> #[trigger] eval(r@, node(k)) == 0,
{
    proof {
        lemma_modulus_bounds();
    }
    let mut one_coeffs: Vec<Fe> = Vec::new();
    one_coeffs.push(Fe::one());
    let mut acc = Polynomial { coeffs: one_coeffs };
    proof {
        assert(acc@[0] == 1);
        assert(acc@ =~= vanishing_coeffs(0));
        lemma_field_units(1);
        assert forall|z: int| in_field(z) implies #[trigger] eval(acc@, z) == node_product(z, 0) by {
            lemma_eval_const(acc@, z);
        }
    }
    let mut k: usize = 0;
    while k < n
        invariant
            k <= n,
            acc.wf(),
            acc@.len() == k + 1,
            acc@.last() == 1,
            acc@ == vanishing_coeffs(k as nat),
            forall|z: int| in_field(z) ==> #[trigger] eval(acc@, z) == node_product(z, k as nat),
        decreases n - k,
    {
        let xk = Fe::from_u64((k + 1) as u64);
        let factor = root_factor(&xk);
        let ghost prev = acc@;
        acc = multiply_polynomials(&acc, &factor);
        proof {
            lemma_pmul_len(prev, factor@);
            lemma_field_units(1);
            lemma_pmul_monic(prev, factor@);
            assert forall|z: int| in_field(z) implies #[trigger] eval(acc@, z) == node_product(
                z,
                (k + 1) as nat,
            ) by {
                assert(eval(acc@, z) == fmul(eval(prev, z), eval(factor@, z)));
            }
        }
        k = k + 1;
    }
    proof {
        assert forall|j: int| 0 <= j < n implies #[trigger] eval(acc@, node(j)) == 0 by {
            lemma_small_in_field(node(j));
            lemma_node_product_root(node(j), n as nat, j);
        }
    }
    acc
}

/// The vanishing polynomial's value is zero at every node `1..n`.
pub proof fn lemma_node_product_root(z: int, n: nat, j: int)
    requires
        0 <= j < n,
        z == node(j),
    ensures
        node_product(z, n) == 0,
    decreases n,
{
    if j < n - 1 {
        lemma_node_product_root(z, (n - 1) as nat, j);
        lemma_field_ring(0, fsub(z, n as int), 0);
    } else {
        lemma_field_ring(z, z, 0);
        lemma_field_ring(node_product(z, (n - 1) as nat), 0, 0);
    }
}

/// Off the domain the vanishing polynomial is not zero: `Z(v) != 0` where
/// `v - k` is invertible for every node `k` of `1..n` (as it is for every
/// `v` outside the domain, the field being prime).
pub proof fn lemma_vanishing_nonzero_off_domain(v: int, n: nat)
    requires
        forall|k: int| 1 <= k <= n ==> #[trigger] invertible(fsub(v, k)),
    ensures
        node_product(v, n) != 0,
        invertible(node_product(v, n)),
    decreases n,
{
    if n == 0 {
        lemma_modulus_bounds();
        lemma_field_units(1);
        assert(fmul(1, 1) == 1);
    } else {
        let n1 = (n - 1) as nat;
        lemma_vanishing_nonzero_off_domain(v, n1);
        let a = node_product(v, n1);
        let b = fsub(v, n as int);
        assert(invertible(b));
        let ia = choose|i: int| #[trigger] fmul(a, i) == 1;
        let ib = choose|i: int| #[trigger] fmul(b, i) == 1;
        lemma_mul4(a, b, ia, ib);
        lemma_field_ring(1, 1, 0);
        lemma_field_units(1);
        assert(fmul(fmul(a, b), fmul(ia, ib)) == 1);
        lemma_field_ring(0, fmul(ia, ib), 0);
    }
}

/// Interpolation of a trace recovers its column polynomials: where column
/// `c` holds the values at the nodes `1..N` of a polynomial `ps[c]` with at
/// most `N` coefficients, the polynomial `interpol` returns for it (as its
/// contract states) equals `ps[c]` up to trailing zeros.
pub proof fn lemma_interpol_recovers(trace: crate::trace::IR, cols: Seq<Polynomial>, ps: Seq<Seq<int>>)
    requires
        cols.len() == trace.witness.len(),
        ps.len() == trace.witness.len(),
        trace.rows() < crate::field::limb_base(),
        gaps_invertible(trace.rows()),
        forall|c: int| 0 <= c < cols.len() ==> interpolates(#[trigger] cols[c], trace.witness[c]@),
        forall|c: int|
            0 <= c < ps.len() ==> crate::poly::seq_in_field(#[trigger] ps[c]) && ps[c].len()
                <= trace.rows() && trace.witness[c].len() == trace.rows(),
        forall|c: int, k: int|
            0 <= c < ps.len() && 0 <= k < trace.rows() ==> (#[trigger] trace.witness[c][k]).val()
                == eval(ps[c], k + 1),
    ensures
        forall|c: int, i: int|
            0 <= c < cols.len() ==> #[trigger] crate::poly::coef(cols[c]@, i) == crate::poly::coef(
                ps[c],
                i,
            ),
{
    let n = trace.rows();
    assert forall|c: int, i: int| 0 <= c < cols.len() implies #[trigger] crate::poly::coef(
        cols[c]@,
        i,
    ) == crate::poly::coef(ps[c], i) by {
        assert(interpolates(cols[c], trace.witness[c]@));
        assert(crate::poly::seq_in_field(ps[c]));
        crate::poly::lemma_view_in_field(&cols[c]);
        assert forall|k: int| 0 <= k < n implies #[trigger] eval(cols[c]@, k + 1) == eval(
            ps[c],
            k + 1,
        ) by {
            assert(eval(cols[c]@, node(k)) == trace.witness[c]@[k].val());
            assert(trace.witness[c][k].val() == eval(ps[c], k + 1));
        }
        crate::poly::lemma_interpolation_recovers(ps[c], cols[c]@, n as nat);
    }
}

/// The vanishing polynomial has `n + 1` canonical coefficients, the last one
/// `1`, and takes the value `(z - 1)...(z - n)`.
pub proof fn lemma_vanishing_coeffs(n: nat, z: int)
    requires
        in_field(z),
    ensures
        vanishing_coeffs(n).len() == n + 1,
        vanishing_coeffs(n).last() == 1,
        crate::poly::seq_in_field(vanishing_coeffs(n)),
        eval(vanishing_coeffs(n), z) == node_product(z, n),
    decreases n,
{
    lemma_modulus_bounds();
    lemma_field_units(1);
    if n == 0 {
        lemma_eval_const(seq![1int], z);
    } else {
        let n1 = (n - 1) as nat;
        let prev = vanishing_coeffs(n1);
        let l = seq![fneg(n as int), 1int];
        lemma_vanishing_coeffs(n1, z);
        lemma_pmul_len(prev, l);
        lemma_pmul_monic(prev, l);
        crate::poly::lemma_eval_mul(prev, l, z);
        assert(l == crate::poly::linear(n as int));
        crate::poly::lemma_eval_linear(n as int, z);
        let v = vanishing_coeffs(n);
        assert forall|i: int| 0 <= i < v.len() implies in_field(#[trigger] v[i]) by {
            crate::poly::lemma_coef_pmul(prev, l, i);
            crate::poly::lemma_conv_in_field(prev, l, i);
        }
    }
}

/// Division by the vanishing polynomial of a polynomial that is zero on the
/// nodes `1..n` (whose differences are invertible) is exact: whatever pair
/// `(q, rem)` meets the contract of `divide_polynomials` has `rem = 0` and
/// `c = q Z`.
pub proof fn lemma_divide_vanishing(c: Seq<int>, n: nat, q: Seq<int>, rem: Seq<int>)
    requires
        crate::poly::seq_in_field(rem),
        1 <= n < crate::field::limb_base(),
        gaps_invertible(n as int),
        forall|k: int| 0 <= k < n ==> #[trigger] eval(c, k + 1) == 0,
        rem.len() < crate::poly::nz_len(vanishing_coeffs(n)),
        rem.len() == 0 || rem.last() != 0,
        forall|w: int|
            #[trigger] eval(c, w) == fadd(fmul(eval(q, w), eval(vanishing_coeffs(n), w)), eval(rem, w)),
        forall|i: int|
            #[trigger] crate::poly::coef(c, i) == fadd(
                crate::poly::coef(pmul(q, vanishing_coeffs(n)), i),
                crate::poly::coef(rem, i),
            ),
    ensures
        rem.len() == 0,
        forall|i: int| #[trigger] crate::poly::coef(c, i) == crate::poly::coef(pmul(q, vanishing_coeffs(n)), i),
{
    let zs = vanishing_coeffs(n);
    lemma_modulus_bounds();
    lemma_vanishing_coeffs(n, 0);
    assert(crate::poly::nz_len(zs) == zs.len());
    assert forall|k: int| 0 <= k < n implies #[trigger] eval(rem, k + 1) == 0 by {
        lemma_small_in_field(k + 1);
        lemma_vanishing_coeffs(n, k + 1);
        lemma_node_product_root(k + 1, n, k);
        assert(eval(c, k + 1) == 0);
        lemma_field_ring(eval(q, k + 1), 0, 0);
        lemma_eval_in_field(rem, k + 1);
        lemma_field_units(eval(rem, k + 1));
    }
    crate::poly::lemma_roots_zero(rem, n);
    if rem.len() > 0 {
        assert(crate::poly::coef(rem, rem.len() - 1) == 0);
    }
    assert forall|i: int| #[trigger] crate::poly::coef(c, i) == crate::poly::coef(pmul(q, zs), i) by {
        assert(crate::poly::coef(c, i) == fadd(crate::poly::coef(pmul(q, zs), i), crate::poly::coef(rem, i)));
        crate::poly::lemma_coef_pmul(q, zs, i);
        crate::poly::lemma_conv_in_field(q, zs, i);
        lemma_field_units(crate::poly::coef(pmul(q, zs), i));
    }
}

/// Every entry is canonical.
pub open spec fn values_wf(v: Seq<Fe>) -> bool {
    forall|i: int| 0 <= i < v.len() ==> (#[trigger] v[i]).wf()
}

/// The polynomial with fewer than `N` coefficients that takes the value
/// `values[k]` at node `k + 1`; an empty vector is refused.
pub fn lagrange_interpolation_polynomial(values: &Vec<Fe>) -> (r: Result<Polynomial, KzgError>)
    requires
        values_wf(values@),
    ensures
        values.len() == 0 <==> r == Err::<Polynomial, KzgError>(KzgError::EmptyDomain),
        values.len() > 0 <==> r is Ok,
        r is Ok ==> interpolates(r->Ok_0, values@),
        r is Ok ==> gaps_invertible(values.len() as int),
{
    let n = values.len();
    if n == 0 {
        return Err(KzgError::EmptyDomain);
    }
    let mut acc = Polynomial { coeffs: Vec::new() };
    let mut i: usize = 0;
    while i < n
        invariant
            values_wf(values@),
            n == values.len(),
            n > 0,
            i <= n,
            acc.wf(),
            acc@.len() == if i == 0 {
                0
            } else {
                n as int
            },
            forall|k: int|
                0 <= k < n ==> #[trigger] eval(acc@, node(k)) == if k < i {
                    values@[k].val()
                } else {
                    0
                },
            forall|g: int| 1 <= g < i ==> #[trigger] invertible(g),
        decreases n - i,
    {
        let basis = lagrange_basis_polynomial(i, n);
        let term = scale_polynomial(&values[i], &basis);
        let ghost prev = acc@;
        acc = add_polynomials(&acc, &term);
        proof {
            assert forall|k: int| 0 <= k < n implies #[trigger] eval(acc@, node(k)) == if k < i
                + 1 {
                values@[k].val()
            } else {
                0
            } by {
                let y = values@[i as int].val();
                assert(values@[i as int].wf());
                assert(eval(term@, node(k)) == fmul(y, eval(basis@, node(k))));
                assert(eval(acc@, node(k)) == fadd(eval(prev, node(k)), eval(term@, node(k))));
                lemma_field_ring(y, 0, 0);
                lemma_field_units(y);
                lemma_eval_in_field(prev, node(k));
                lemma_field_units(eval(prev, node(k)));
                if k == i {
                    assert(eval(basis@, node(k)) == 1);
                } else {
                    assert(eval(basis@, node(k)) == 0);
                }
            }
        }
        i = i + 1;
    }
    Ok(acc)
}

/// `p` has at most as many coefficients as there are values and takes
/// `values[k]` at node `k + 1`.
pub open spec fn interpolates(p: Polynomial, values: Seq<Fe>) -> bool {
    &&& p.wf()
    &&& p@.len() == values.len()
    &&& forall|k: int| 0 <= k < values.len() ==> #[trigger] eval(p@, node(k)) == values[k].val()
}

/// Every column has the length of the first, and every entry is canonical.
pub open spec fn entries_wf(ir: crate::trace::IR) -> bool {
    forall|c: int, r: int|
        0 <= c < ir.witness.len() && 0 <= r < ir.witness[c].len() ==> (#[trigger] ir.witness[c][r]).wf()
}

/// The polynomial of each column of `trace`, over the nodes `1..N`.
/// Fails on a trace without columns, on columns of different lengths, and on
/// empty columns.
pub fn interpol(trace: &crate::trace::IR) -> (r: Result<Vec<Polynomial>, KzgError>)
    requires
        entries_wf(*trace),
    ensures
        r is Ok <==> trace.witness.len() > 0 && trace.rows() > 0 && trace.has_shape(
            trace.witness.len() as int,
            trace.rows(),
        ),
        r == Err::<Vec<Polynomial>, KzgError>(KzgError::EmptyDomain) <==> trace.witness.len() > 0
            && trace.rows() == 0,
        r == Err::<Vec<Polynomial>, KzgError>(KzgError::ShapeMismatch) <==> trace.witness.len() == 0
            || (trace.rows() > 0 && !trace.has_shape(trace.witness.len() as int, trace.rows())),
        r matches Err(e) ==> e == KzgError::ShapeMismatch || e == KzgError::EmptyDomain,
        r is Ok ==> gaps_invertible(trace.rows()),
        r matches Ok(ps) ==> ps.len() == trace.witness.len() && forall|c: int|
            0 <= c < ps.len() ==> interpolates(#[trigger] ps[c], trace.witness[c]@),
{
    let ncols = trace.witness.len();
    if ncols == 0 {
        return Err(KzgError::ShapeMismatch);
    }
    let n = trace.witness[0].len();
    if n == 0 {
        return Err(KzgError::EmptyDomain);
    }
    let mut result: Vec<Polynomial> = Vec::new();
    let mut c: usize = 0;
    while c < ncols
        invariant
            entries_wf(*trace),
            ncols == trace.witness.len(),
            ncols > 0,
            n == trace.witness[0].len(),
            c <= ncols,
            result.len() == c,
            forall|i: int| 0 <= i < c ==> (#[trigger] trace.witness[i]).len() == n,
            n > 0,
            forall|i: int| 0 <= i < c ==> interpolates(#[trigger] result[i], trace.witness[i]@),
            c > 0 ==> gaps_invertible(n as int),
        decreases ncols - c,
    {
        if trace.witness[c].len() != n {
            assert(!trace.has_shape(ncols as int, n as int)) by {
                assert(trace.witness[c as int].len() != n);
            }
            return Err(KzgError::ShapeMismatch);
        }
        assert(values_wf(trace.witness[c as int]@)) by {
            assert forall|i: int| 0 <= i < trace.witness[c as int]@.len() implies (
            #[trigger] trace.witness[c as int]@[i]).wf() by {
                assert(trace.witness[c as int][i].wf());
            }
        }
        let p = match lagrange_interpolation_polynomial(&trace.witness[c]) {
            Ok(p) => p,
            Err(e) => {
                return Err(e);
            },
        };
        result.push(p);
        c = c + 1;
    }
    assert(trace.has_shape(ncols as int, n as int));
    Ok(result)
}

} // verus!
