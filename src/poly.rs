//! Dense univariate polynomials over the scalar field, lowest degree first.
use vstd::prelude::*;
use crate::field::{
    Fe, fadd, fmul, fneg, fsub, in_field, modulus, lemma_field_ring, lemma_field_units,
    lemma_mod_in_field, lemma_modulus_bounds, fe_add, fe_mul, fe_neg, fe_inv,
};

verus! {

/// A polynomial by its coefficients: `coeffs[i]` multiplies `X^i`.
#[derive(Clone, Debug)]
pub struct Polynomial {
    pub coeffs: Vec<Fe>,
}

impl View for Polynomial {
    type V = Seq<int>;

    open spec fn view(&self) -> Seq<int> {
        self.coeffs@.map_values(|c: Fe| c.val())
    }
}

impl Polynomial {
    /// Every coefficient is a canonical field element.
    pub open spec fn wf(&self) -> bool {
        forall|i: int| 0 <= i < self.coeffs.len() ==> (#[trigger] self.coeffs[i]).wf()
    }

    /// Whether every coefficient is canonical.
    pub fn is_well_formed(&self) -> (r: bool)
        ensures
            r == self.wf(),
    {
        let mut i: usize = 0;
        while i < self.coeffs.len()
            invariant
                i <= self.coeffs.len(),
                forall|j: int| 0 <= j < i ==> (#[trigger] self.coeffs[j]).wf(),
            decreases self.coeffs.len() - i,
        {
            if !self.coeffs[i].is_canonical() {
                return false;
            }
            i = i + 1;
        }
        true
    }
}

/// Every entry is a canonical field element.
pub open spec fn seq_in_field(s: Seq<int>) -> bool {
    forall|i: int| 0 <= i < s.len() ==> in_field(#[trigger] s[i])
}

/// The coefficient of `X^i`; zero past the end.
pub open spec fn coef(s: Seq<int>, i: int) -> int {
    if 0 <= i < s.len() {
        s[i]
    } else {
        0
    }
}

/// The coefficients after the constant one.
pub open spec fn tail(s: Seq<int>) -> Seq<int> {
    if s.len() == 0 {
        s
    } else {
        s.drop_first()
    }
}

/// Sum, padded to the longer operand.
pub open spec fn padd(a: Seq<int>, b: Seq<int>) -> Seq<int> {
    Seq::new(
        if a.len() >= b.len() {
            a.len()
        } else {
            b.len()
        },
        |i: int| fadd(coef(a, i), coef(b, i)),
    )
}

/// Coefficient-wise negation.
pub open spec fn pneg(a: Seq<int>) -> Seq<int> {
    Seq::new(a.len(), |i: int| fneg(a[i]))
}

/// Product with the constant `c`.
pub open spec fn pscale(c: int, a: Seq<int>) -> Seq<int> {
    Seq::new(a.len(), |i: int| fmul(c, a[i]))
}

/// Product with `X`.
pub open spec fn pshift(a: Seq<int>) -> Seq<int> {
    seq![0int] + a
}

/// Product of two polynomials: `(a0 + X a') b = a0 b + X (a' b)`; of length
/// `len(a) + len(b) - 1`, or empty when either operand is.
pub open spec fn pmul(a: Seq<int>, b: Seq<int>) -> Seq<int>
    decreases a.len(),
{
    if a.len() == 0 || b.len() == 0 {
        Seq::empty()
    } else {
        padd(pscale(a[0], b), pshift(pmul(a.drop_first(), b)))
    }
}

/// The value at `z`, by Horner's rule.
pub open spec fn eval(a: Seq<int>, z: int) -> int
    decreases a.len(),
{
    if a.len() == 0 {
        0
    } else {
        fadd(a[0], fmul(z, eval(a.drop_first(), z)))
    }
}

/// Product with `X^t`.
pub open spec fn pshiftn(t: nat, a: Seq<int>) -> Seq<int> {
    Seq::new(t, |i: int| 0int) + a
}

/// `z^t` in the field.
pub open spec fn fpow(z: int, t: nat) -> int
    decreases t,
{
    if t == 0 {
        1
    } else {
        fmul(z, fpow(z, (t - 1) as nat))
    }
}

/// The number of coefficients up to the last non-zero one (degree plus one;
/// zero for the zero polynomial).
pub open spec fn nz_len(s: Seq<int>) -> nat
    decreases s.len(),
{
    if s.len() == 0 {
        0
    } else if s.last() == 0 {
        nz_len(s.drop_last())
    } else {
        s.len()
    }
}

/// Coefficient `k` of the product, as the sum `a[0] b[k] + a[1] b[k-1] + ...`.
pub open spec fn conv(a: Seq<int>, b: Seq<int>, k: int) -> int
    decreases a.len(),
{
    if a.len() == 0 {
        0
    } else {
        fadd(fmul(a[0], coef(b, k)), conv(a.drop_first(), b, k - 1))
    }
}

/// The coefficients of a well-formed polynomial are canonical.
pub proof fn lemma_view_in_field(p: &Polynomial)
    requires
        p.wf(),
    ensures
        seq_in_field(p@),
        p@.len() == p.coeffs.len(),
{
    assert forall|i: int| 0 <= i < p@.len() implies in_field(#[trigger] p@[i]) by {
        assert(p.coeffs[i].wf());
    }
}

/// Values are canonical.
pub proof fn lemma_eval_in_field(a: Seq<int>, z: int)
    ensures
        in_field(eval(a, z)),
{
    if a.len() == 0 {
        lemma_mod_in_field(0);
    } else {
        lemma_mod_in_field(a[0] + fmul(z, eval(a.drop_first(), z)));
    }
}

/// Horner's step, also for the empty polynomial.
pub proof fn lemma_eval_unfold(a: Seq<int>, z: int)
    ensures
        eval(a, z) == fadd(coef(a, 0), fmul(z, eval(tail(a), z))),
{
    if a.len() == 0 {
        lemma_field_ring(z, 0, 0);
        lemma_field_units(0);
    }
}

/// Evaluation respects sums.
pub proof fn lemma_eval_add(a: Seq<int>, b: Seq<int>, z: int)
    ensures
        eval(padd(a, b), z) == fadd(eval(a, z), eval(b, z)),
    decreases a.len() + b.len(),
{
    if a.len() == 0 && b.len() == 0 {
        assert(padd(a, b).len() == 0);
        lemma_field_units(0);
    } else {
        let s = padd(a, b);
        assert(tail(s) =~= padd(tail(a), tail(b)));
        lemma_eval_add(tail(a), tail(b), z);
        lemma_eval_unfold(s, z);
        lemma_eval_unfold(a, z);
        lemma_eval_unfold(b, z);
        let ca = coef(a, 0);
        let cb = coef(b, 0);
        let ea = eval(tail(a), z);
        let eb = eval(tail(b), z);
        lemma_field_ring(z, ea, eb);
        lemma_add4(ca, cb, fmul(z, ea), fmul(z, eb));
    }
}

proof fn lemma_add4(a: int, b: int, c: int, d: int)
    ensures
        fadd(fadd(a, b), fadd(c, d)) == fadd(fadd(a, c), fadd(b, d)),
{
    lemma_field_ring(a, b, fadd(c, d));
    lemma_field_ring(b, c, d);
    lemma_field_ring(c, b, d);
    lemma_field_ring(b, c, 0);
    lemma_field_ring(a, fadd(c, b), d);
    lemma_field_ring(a, c, b);
    lemma_field_ring(fadd(a, c), b, d);
    lemma_field_ring(a, fadd(b, fadd(c, d)), 0);
    lemma_field_ring(a, fadd(c, fadd(b, d)), 0);
    lemma_field_ring(b, fadd(c, d), 0);
    lemma_field_ring(c, fadd(b, d), 0);
}

/// Evaluation respects products with constants.
pub proof fn lemma_eval_scale(c: int, a: Seq<int>, z: int)
    ensures
        eval(pscale(c, a), z) == fmul(c, eval(a, z)),
    decreases a.len(),
{
    if a.len() == 0 {
        lemma_field_ring(c, 0, 0);
    } else {
        let s = pscale(c, a);
        assert(s.drop_first() =~= pscale(c, a.drop_first()));
        lemma_eval_scale(c, a.drop_first(), z);
        let e = eval(a.drop_first(), z);
        // c (a0 + z e) = c a0 + z (c e)
        lemma_field_ring(c, a[0], fmul(z, e));
        lemma_field_ring(c, z, e);
        lemma_field_ring(z, c, e);
    }
}

/// Evaluation of `X a` is `z a(z)`.
pub proof fn lemma_eval_shift(a: Seq<int>, z: int)
    ensures
        eval(pshift(a), z) == fmul(z, eval(a, z)),
{
    assert(pshift(a).drop_first() =~= a);
    lemma_mod_in_field(z * eval(a, z));
    lemma_field_units(fmul(z, eval(a, z)));
}

/// Evaluation respects negation.
pub proof fn lemma_eval_neg(a: Seq<int>, z: int)
    ensures
        eval(pneg(a), z) == fneg(eval(a, z)),
{
    lemma_eval_scale(modulus() - 1, a, z);
    assert forall|i: int| 0 <= i < a.len() implies pscale(modulus() - 1, a)[i] == pneg(a)[i] by {
        lemma_minus_one(a[i]);
    }
    assert(pscale(modulus() - 1, a) =~= pneg(a));
    lemma_minus_one(eval(a, z));
}

proof fn lemma_minus_one(x: int)
    ensures
        fmul(modulus() - 1, x) == fneg(x),
{
    let m = modulus();
    assert((m - 1) * x == (0 - x) + m * x) by (nonlinear_arith);
    vstd::arithmetic::div_mod::lemma_mod_multiples_vanish(x, 0 - x, m);
}

/// Evaluation of `X^t a` is `z^t a(z)`.
pub proof fn lemma_eval_shiftn(t: nat, a: Seq<int>, z: int)
    ensures
        eval(pshiftn(t, a), z) == fmul(fpow(z, t), eval(a, z)),
    decreases t,
{
    lemma_eval_in_field(a, z);
    if t == 0 {
        assert(pshiftn(0, a) =~= a);
        lemma_field_units(eval(a, z));
    } else {
        let t1 = (t - 1) as nat;
        assert(pshiftn(t, a) =~= pshift(pshiftn(t1, a)));
        lemma_eval_shiftn(t1, a, z);
        lemma_eval_shift(pshiftn(t1, a), z);
        lemma_field_ring(z, fpow(z, t1), eval(a, z));
    }
}

/// Trailing zero coefficients do not change the value.
pub proof fn lemma_eval_trailing_zeros(a: Seq<int>, k: int, z: int)
    requires
        0 <= k <= a.len(),
        forall|i: int| k <= i < a.len() ==> a[i] == 0,
    ensures
        eval(a, z) == eval(a.subrange(0, k), z),
    decreases a.len(),
{
    if k == a.len() {
        assert(a.subrange(0, k) =~= a);
    } else if k == 0 {
        lemma_eval_zeros(a, z);
    } else {
        lemma_eval_trailing_zeros(a.drop_first(), k - 1, z);
        assert(a.subrange(0, k).drop_first() =~= a.drop_first().subrange(0, k - 1));
    }
}

proof fn lemma_eval_zeros(a: Seq<int>, z: int)
    requires
        forall|i: int| 0 <= i < a.len() ==> a[i] == 0,
    ensures
        eval(a, z) == 0,
        eval(a.subrange(0, 0), z) == 0,
    decreases a.len(),
{
    if a.len() > 0 {
        lemma_eval_zeros(a.drop_first(), z);
        lemma_field_ring(z, 0, 0);
        lemma_field_units(0);
    }
}

proof fn lemma_coef_padd(a: Seq<int>, b: Seq<int>, k: int)
    ensures
        coef(padd(a, b), k) == fadd(coef(a, k), coef(b, k)),
{
    lemma_field_units(0);
}

proof fn lemma_coef_pscale(c: int, a: Seq<int>, k: int)
    ensures
        coef(pscale(c, a), k) == fmul(c, coef(a, k)),
{
    lemma_field_ring(c, 0, 0);
}

proof fn lemma_conv_unfold(a: Seq<int>, b: Seq<int>, k: int)
    ensures
        conv(a, b, k) == fadd(fmul(coef(a, 0), coef(b, k)), conv(tail(a), b, k - 1)),
{
    if a.len() == 0 {
        lemma_field_ring(coef(b, k), 0, 0);
        lemma_field_units(0);
    }
}

/// Convolution sums are canonical.
pub proof fn lemma_conv_in_field(a: Seq<int>, b: Seq<int>, k: int)
    ensures
        in_field(conv(a, b, k)),
{
    if a.len() == 0 {
        lemma_mod_in_field(0);
    } else {
        lemma_mod_in_field(fmul(a[0], coef(b, k)) + conv(a.drop_first(), b, k - 1));
    }
}

/// The coefficients of `pmul` are the convolution sums.
pub proof fn lemma_coef_pmul(a: Seq<int>, b: Seq<int>, k: int)
    ensures
        coef(pmul(a, b), k) == conv(a, b, k),
    decreases a.len(),
{
    if a.len() == 0 {
    } else {
        lemma_coef_pmul(a.drop_first(), b, k - 1);
        lemma_conv_in_field(a.drop_first(), b, k - 1);
        if b.len() == 0 {
            assert(pmul(a, b).len() == 0);
            lemma_field_ring(a[0], 0, 0);
            lemma_field_units(0);
            assert(pmul(a.drop_first(), b).len() == 0);
        } else {
            let r = pmul(a.drop_first(), b);
            lemma_coef_padd(pscale(a[0], b), pshift(r), k);
            lemma_coef_pscale(a[0], b, k);
            assert(coef(pshift(r), k) == coef(r, k - 1));
        }
    }
}

/// The convolution is additive in its first argument.
proof fn lemma_conv_add(a: Seq<int>, a2: Seq<int>, b: Seq<int>, k: int)
    ensures
        conv(padd(a, a2), b, k) == fadd(conv(a, b, k), conv(a2, b, k)),
    decreases a.len() + a2.len(),
{
    if a.len() == 0 && a2.len() == 0 {
        assert(padd(a, a2).len() == 0);
        lemma_field_units(0);
    } else {
        let s = padd(a, a2);
        assert(tail(s) =~= padd(tail(a), tail(a2)));
        lemma_conv_add(tail(a), tail(a2), b, k - 1);
        lemma_conv_unfold(s, b, k);
        lemma_conv_unfold(a, b, k);
        lemma_conv_unfold(a2, b, k);
        let bk = coef(b, k);
        lemma_field_ring(bk, coef(a, 0), coef(a2, 0));
        lemma_add4(
            fmul(coef(a, 0), bk),
            fmul(coef(a2, 0), bk),
            conv(tail(a), b, k - 1),
            conv(tail(a2), b, k - 1),
        );
        lemma_field_ring(coef(a, 0), bk, 0);
        lemma_field_ring(coef(a2, 0), bk, 0);
    }
}

/// The convolution reads its second argument through `coef` only.
proof fn lemma_conv_congruent(a: Seq<int>, b: Seq<int>, b2: Seq<int>, k: int)
    requires
        forall|i: int| #[trigger] coef(b, i) == coef(b2, i),
    ensures
        conv(a, b, k) == conv(a, b2, k),
    decreases a.len(),
{
    if a.len() > 0 {
        lemma_conv_congruent(a.drop_first(), b, b2, k - 1);
        assert(coef(b, k) == coef(b2, k));
    }
}

/// `(c X^t) * b` has the coefficients of `X^t (c b)`.
proof fn lemma_conv_monomial(t: nat, c: int, one: Seq<int>, b: Seq<int>, k: int)
    requires
        one.len() == 1,
        one[0] == 1,
        in_field(c),
    ensures
        conv(pshiftn(t, pscale(c, one)), b, k) == coef(pshiftn(t, pscale(c, b)), k),
    decreases t,
{
    let m = pshiftn(t, pscale(c, one));
    if t == 0 {
        assert(m.drop_first().len() == 0);
        lemma_field_units(c);
        lemma_field_ring(c, 1, 0);
        lemma_coef_pscale(c, b, k);
        assert(m[0] == fmul(c, 1));
        lemma_mod_in_field(c * coef(b, k));
        lemma_field_units(fmul(c, coef(b, k)));
        assert(coef(pshiftn(0, pscale(c, b)), k) == coef(pscale(c, b), k)) by {
            assert(pshiftn(0, pscale(c, b)) =~= pscale(c, b));
        }
    } else {
        let t1 = (t - 1) as nat;
        assert(m.drop_first() =~= pshiftn(t1, pscale(c, one)));
        lemma_conv_monomial(t1, c, one, b, k - 1);
        lemma_field_ring(coef(b, k), 0, 0);
        lemma_field_ring(0, coef(b, k), 0);
        let rest = conv(m.drop_first(), b, k - 1);
        lemma_conv_in_field(m.drop_first(), b, k - 1);
        lemma_field_units(rest);
        let sb = pscale(c, b);
        assert(coef(pshiftn(t, sb), k) == coef(pshiftn(t1, sb), k - 1));
    }
}

/// Evaluation respects products.
pub proof fn lemma_eval_mul(a: Seq<int>, b: Seq<int>, z: int)
    ensures
        eval(pmul(a, b), z) == fmul(eval(a, z), eval(b, z)),
    decreases a.len(),
{
    if a.len() == 0 || b.len() == 0 {
        assert(pmul(a, b).len() == 0);
        lemma_field_ring(eval(a, z), 0, 0);
    } else {
        let r = pmul(a.drop_first(), b);
        lemma_eval_mul(a.drop_first(), b, z);
        lemma_eval_add(pscale(a[0], b), pshift(r), z);
        lemma_eval_scale(a[0], b, z);
        lemma_eval_shift(r, z);
        let ea = eval(a.drop_first(), z);
        let eb = eval(b, z);
        // a0 eb + z (ea eb) = (a0 + z ea) eb
        lemma_field_ring(z, ea, eb);
        lemma_field_ring(eb, a[0], fmul(z, ea));
        lemma_field_ring(a[0], eb, 0);
        lemma_field_ring(fmul(z, ea), eb, 0);
    }
}

/// Coefficient-wise sum, padded to the longer operand.
pub fn add_polynomials(a: &Polynomial, b: &Polynomial) -> (r: Polynomial)
    requires
        a.wf(),
        b.wf(),
    ensures
        r.wf(),
        r@ == padd(a@, b@),
        r.coeffs.len() == if a.coeffs.len() >= b.coeffs.len() {
            a.coeffs.len()
        } else {
            b.coeffs.len()
        },
        forall|z: int| eval(r@, z) == fadd(#[trigger] eval(a@, z), eval(b@, z)),
{
    let la = a.coeffs.len();
    let lb = b.coeffs.len();
    let n = if la >= lb {
        la
    } else {
        lb
    };
    let mut coeffs: Vec<Fe> = Vec::new();
    let mut i: usize = 0;
    while i < n
        invariant
            a.wf(),
            b.wf(),
            i <= n,
            n == if la >= lb { la } else { lb },
            la == a.coeffs.len(),
            lb == b.coeffs.len(),
            coeffs.len() == i,
            forall|j: int|
                0 <= j < i ==> (#[trigger] coeffs[j]).wf() && coeffs[j].val() == fadd(
                    coef(a@, j),
                    coef(b@, j),
                ),
        decreases n - i,
    {
        let x = if i < la {
            a.coeffs[i]
        } else {
            Fe::zero()
        };
        let y = if i < lb {
            b.coeffs[i]
        } else {
            Fe::zero()
        };
        coeffs.push(fe_add(&x, &y));
        i = i + 1;
    }
    let r = Polynomial { coeffs };
    assert(r@ =~= padd(a@, b@));
    proof {
        assert forall|z: int| eval(r@, z) == fadd(#[trigger] eval(a@, z), eval(b@, z)) by {
            lemma_eval_add(a@, b@, z);
        }
    }
    r
}

/// Coefficient-wise negation.
pub fn negate_polynomial(a: &Polynomial) -> (r: Polynomial)
    requires
        a.wf(),
    ensures
        r.wf(),
        r@ == pneg(a@),
        forall|z: int| eval(r@, z) == fneg(#[trigger] eval(a@, z)),
{
    let mut coeffs: Vec<Fe> = Vec::new();
    let mut i: usize = 0;
    while i < a.coeffs.len()
        invariant
            a.wf(),
            i <= a.coeffs.len(),
            coeffs.len() == i,
            forall|j: int|
                0 <= j < i ==> (#[trigger] coeffs[j]).wf() && coeffs[j].val() == fneg(a@[j]),
        decreases a.coeffs.len() - i,
    {
        coeffs.push(fe_neg(&a.coeffs[i]));
        i = i + 1;
    }
    let r = Polynomial { coeffs };
    assert(r@ =~= pneg(a@));
    proof {
        assert forall|z: int| eval(r@, z) == fneg(#[trigger] eval(a@, z)) by {
            lemma_eval_neg(a@, z);
        }
    }
    r
}

/// Product with the constant `c`.
pub fn scale_polynomial(c: &Fe, a: &Polynomial) -> (r: Polynomial)
    requires
        c.wf(),
        a.wf(),
    ensures
        r.wf(),
        r@ == pscale(c.val(), a@),
        r.coeffs.len() == a.coeffs.len(),
        forall|z: int| eval(r@, z) == fmul(c.val(), #[trigger] eval(a@, z)),
{
    let mut coeffs: Vec<Fe> = Vec::new();
    let mut i: usize = 0;
    while i < a.coeffs.len()
        invariant
            a.wf(),
            c.wf(),
            i <= a.coeffs.len(),
            coeffs.len() == i,
            forall|j: int|
                0 <= j < i ==> (#[trigger] coeffs[j]).wf() && coeffs[j].val() == fmul(
                    c.val(),
                    a@[j],
                ),
        decreases a.coeffs.len() - i,
    {
        coeffs.push(fe_mul(c, &a.coeffs[i]));
        i = i + 1;
    }
    let r = Polynomial { coeffs };
    assert(r@ =~= pscale(c.val(), a@));
    proof {
        assert forall|z: int| eval(r@, z) == fmul(c.val(), #[trigger] eval(a@, z)) by {
            lemma_eval_scale(c.val(), a@, z);
        }
    }
    r
}

/// Product with `X`.
fn shift_polynomial(a: &Polynomial) -> (r: Polynomial)
    requires
        a.wf(),
    ensures
        r.wf(),
        r@ == pshift(a@),
{
    let mut coeffs: Vec<Fe> = Vec::new();
    coeffs.push(Fe::zero());
    let mut i: usize = 0;
    while i < a.coeffs.len()
        invariant
            a.wf(),
            i <= a.coeffs.len(),
            coeffs.len() == i + 1,
            coeffs[0].val() == 0,
            coeffs[0].wf(),
            forall|j: int| 0 <= j < i ==> (#[trigger] coeffs[j + 1]) == a.coeffs[j],
        decreases a.coeffs.len() - i,
    {
        coeffs.push(a.coeffs[i]);
        i = i + 1;
    }
    let r = Polynomial { coeffs };
    assert forall|k: int| 0 < k < r@.len() implies r@[k] == pshift(a@)[k] by {
        assert(r.coeffs[(k - 1) + 1] == a.coeffs[k - 1]);
    }
    assert(r@ =~= pshift(a@));
    assert forall|j: int| 0 <= j < r.coeffs.len() implies (#[trigger] r.coeffs[j]).wf() by {
        if j > 0 {
            assert(r.coeffs[(j - 1) + 1] == a.coeffs[j - 1]);
        }
    }
    r
}

/// Polynomial product: `r[i + j]` collects `a[i] * b[j]`; the result has
/// `len(a) + len(b) - 1` coefficients, none when either operand has none.
pub fn multiply_polynomials(a: &Polynomial, b: &Polynomial) -> (r: Polynomial)
    requires
        a.wf(),
        b.wf(),
    ensures
        r.wf(),
        r@ == pmul(a@, b@),
        a.coeffs.len() > 0 && b.coeffs.len() > 0 ==> r.coeffs.len() == a.coeffs.len()
            + b.coeffs.len() - 1,
        forall|z: int| eval(r@, z) == fmul(#[trigger] eval(a@, z), eval(b@, z)),
{
    let n = a.coeffs.len();
    let mut acc = Polynomial { coeffs: Vec::new() };
    if b.coeffs.len() == 0 {
        assert(acc@ =~= pmul(a@, b@));
    } else {
        let mut i: usize = n;
        assert(a@.subrange(n as int, n as int) =~= Seq::<int>::empty());
        assert(acc@ =~= Seq::<int>::empty());
        while i > 0
            invariant
                a.wf(),
                b.wf(),
                b.coeffs.len() > 0,
                n == a.coeffs.len(),
                i <= n,
                acc.wf(),
                acc@ == pmul(a@.subrange(i as int, n as int), b@),
            decreases i,
        {
            let ghost prev = a@.subrange(i as int, n as int);
            i = i - 1;
            let scaled = scale_polynomial(&a.coeffs[i], b);
            let shifted = shift_polynomial(&acc);
            acc = add_polynomials(&scaled, &shifted);
            proof {
                let cur = a@.subrange(i as int, n as int);
                assert(cur.drop_first() =~= prev);
                assert(cur[0] == a.coeffs[i as int].val());
            }
        }
        assert(a@.subrange(0, n as int) =~= a@);
    }
    proof {
        assert forall|z: int| eval(acc@, z) == fmul(#[trigger] eval(a@, z), eval(b@, z)) by {
            lemma_eval_mul(a@, b@, z);
        }
        if a.coeffs.len() > 0 && b.coeffs.len() > 0 {
            lemma_pmul_len(a@, b@);
        }
    }
    acc
}

/// A product of non-empty polynomials has `len(a) + len(b) - 1` coefficients.
pub proof fn lemma_pmul_len(a: Seq<int>, b: Seq<int>)
    requires
        a.len() > 0,
        b.len() > 0,
    ensures
        pmul(a, b).len() == a.len() + b.len() - 1,
    decreases a.len(),
{
    if a.len() > 1 {
        lemma_pmul_len(a.drop_first(), b);
    } else {
        assert(pmul(a.drop_first(), b).len() == 0);
    }
}

/// `c * X^t * a`.
fn monomial_product(c: &Fe, t: usize, a: &Polynomial) -> (r: Polynomial)
    requires
        c.wf(),
        a.wf(),
        t + a.coeffs.len() <= usize::MAX,
    ensures
        r.wf(),
        r@ == pshiftn(t as nat, pscale(c.val(), a@)),
        r.coeffs.len() == t + a.coeffs.len(),
        forall|z: int|
            eval(r@, z) == fmul(fpow(z, t as nat), fmul(c.val(), #[trigger] eval(a@, z))),
{
    let scaled = scale_polynomial(c, a);
    let mut coeffs: Vec<Fe> = Vec::new();
    let mut i: usize = 0;
    while i < t
        invariant
            i <= t,
            coeffs.len() == i,
            forall|j: int| 0 <= j < i ==> (#[trigger] coeffs[j]) == Fe::spec_zero(),
        decreases t - i,
    {
        coeffs.push(Fe::zero());
        i = i + 1;
    }
    let mut k: usize = 0;
    while k < scaled.coeffs.len()
        invariant
            scaled.wf(),
            scaled.coeffs.len() == a.coeffs.len(),
            t + a.coeffs.len() <= usize::MAX,
            k <= scaled.coeffs.len(),
            coeffs.len() == t + k,
            forall|j: int| 0 <= j < t ==> (#[trigger] coeffs[j]) == Fe::spec_zero(),
            forall|j: int| 0 <= j < k ==> (#[trigger] coeffs[t + j]) == scaled.coeffs[j],
        decreases scaled.coeffs.len() - k,
    {
        coeffs.push(scaled.coeffs[k]);
        k = k + 1;
    }
    let r = Polynomial { coeffs };
    let ghost target = pshiftn(t as nat, pscale(c.val(), a@));
    assert forall|j: int| 0 <= j < r@.len() implies r@[j] == target[j] && (
    #[trigger] r.coeffs[j]).wf() by {
        if j >= t {
            assert(r.coeffs[t + (j - t)] == scaled.coeffs[j - t]);
        }
    }
    assert(r@ =~= target);
    proof {
        assert forall|z: int|
            eval(r@, z) == fmul(fpow(z, t as nat), fmul(c.val(), #[trigger] eval(a@, z))) by {
            lemma_eval_shiftn(t as nat, pscale(c.val(), a@), z);
            lemma_eval_scale(c.val(), a@, z);
        }
    }
    r
}

/// The coefficients up to the last non-zero one.
fn trim(a: &Polynomial) -> (r: Polynomial)
    requires
        a.wf(),
    ensures
        r.wf(),
        r@.len() <= a@.len(),
        r@ == a@.subrange(0, r@.len() as int),
        r@.len() == nz_len(a@),
        r@.len() == 0 || r@.last() != 0,
        forall|z: int| eval(r@, z) == #[trigger] eval(a@, z),
        forall|i: int| #[trigger] coef(r@, i) == coef(a@, i),
{
    let mut k: usize = a.coeffs.len();
    proof {
        assert(a@.subrange(0, k as int) =~= a@);
    }
    while k > 0 && a.coeffs[k - 1].is_zero()
        invariant
            a.wf(),
            k <= a.coeffs.len(),
            forall|i: int| k <= i < a.coeffs.len() ==> a@[i] == 0,
            nz_len(a@.subrange(0, k as int)) == nz_len(a@),
        decreases k,
    {
        proof {
            let s = a@.subrange(0, k as int);
            assert(s.drop_last() =~= a@.subrange(0, k - 1));
        }
        k = k - 1;
    }
    let mut coeffs: Vec<Fe> = Vec::new();
    let mut i: usize = 0;
    while i < k
        invariant
            a.wf(),
            k <= a.coeffs.len(),
            i <= k,
            coeffs.len() == i,
            forall|j: int| 0 <= j < i ==> (#[trigger] coeffs[j]) == a.coeffs[j],
        decreases k - i,
    {
        coeffs.push(a.coeffs[i]);
        i = i + 1;
    }
    let r = Polynomial { coeffs };
    assert(r@ =~= a@.subrange(0, k as int));
    proof {
        if k > 0 {
            assert(a@.subrange(0, k as int).last() != 0);
        }
        assert forall|z: int| eval(r@, z) == #[trigger] eval(a@, z) by {
            lemma_eval_trailing_zeros(a@, k as int, z);
        }
    }
    r
}

proof fn lemma_conv_zeros(a: Seq<int>, b: Seq<int>, k: int)
    requires
        forall|i: int| 0 <= i < a.len() ==> a[i] == 0,
    ensures
        conv(a, b, k) == 0,
    decreases a.len(),
{
    if a.len() > 0 {
        lemma_conv_zeros(a.drop_first(), b, k - 1);
        lemma_field_ring(0, coef(b, k), 0);
        lemma_field_units(0);
    }
}

proof fn lemma_cancel(x: int, s: int, r: int)
    requires
        in_field(x),
        in_field(r),
    ensures
        fadd(fadd(x, s), fadd(r, fneg(s))) == fadd(x, r),
{
    lemma_add4(x, s, r, fneg(s));
    lemma_field_ring(s, s, 0);
    lemma_mod_in_field(x + r);
    lemma_field_units(fadd(x, r));
}

proof fn lemma_nz_len_bound(s: Seq<int>)
    ensures
        nz_len(s) <= s.len(),
        s.len() > 0 && s.last() == 0 ==> nz_len(s) < s.len(),
    decreases s.len(),
{
    if s.len() > 0 {
        lemma_nz_len_bound(s.drop_last());
    }
}

proof fn lemma_div_step(q: int, m: int, d: int, r: int)
    ensures
        fadd(fmul(fadd(q, m), d), fadd(r, fneg(fmul(m, d)))) == fadd(fmul(q, d), r),
{
    let x = fmul(q, d);
    let s = fmul(m, d);
    lemma_field_ring(d, q, m);
    lemma_add4(x, s, r, fneg(s));
    lemma_field_ring(s, s, 0);
    lemma_mod_in_field(x + r);
    lemma_field_units(fadd(x, r));
}

/// Long division by a non-zero polynomial: `dividend = q * divisor + rem`
/// with `rem` of lower degree than `divisor`; neither has trailing zeros.
pub fn divide_polynomials(dividend: &Polynomial, divisor: &Polynomial) -> (r: (
    Polynomial,
    Polynomial,
))
    requires
        dividend.wf(),
        divisor.wf(),
        nz_len(divisor@) > 0,
    ensures
        r.0.wf(),
        r.1.wf(),
        r.0.coeffs.len() <= dividend.coeffs.len(),
        r.0@.len() == 0 || r.0@.last() != 0,
        r.1@.len() < nz_len(divisor@),
        r.1@.len() == 0 || r.1@.last() != 0,
        forall|z: int|
            #[trigger] eval(dividend@, z) == fadd(fmul(eval(r.0@, z), eval(divisor@, z)), eval(r.1@, z)),
        forall|i: int|
            #[trigger] coef(dividend@, i) == fadd(coef(pmul(r.0@, divisor@), i), coef(r.1@, i)),
{
    let dv = trim(divisor);
    let dd = dv.coeffs.len() - 1;
    let lead_inv = fe_inv(&dv.coeffs[dd]).unwrap();
    let mut one_coeffs: Vec<Fe> = Vec::new();
    one_coeffs.push(Fe::one());
    let one = Polynomial { coeffs: one_coeffs };
    proof {
        assert(one@.drop_first() =~= Seq::<int>::empty());
        lemma_field_units(1);
        assert(one@[0] == 1);
        assert forall|z: int| eval(one@, z) == 1 by {
            assert(eval(one@.drop_first(), z) == 0);
            lemma_field_ring(z, 0, 0);
        }
    }
    let n = dividend.coeffs.len();
    let mut zeros: Vec<Fe> = Vec::new();
    let mut i: usize = 0;
    while i < n
        invariant
            i <= n,
            zeros.len() == i,
            forall|j: int| 0 <= j < i ==> (#[trigger] zeros[j]) == Fe::spec_zero(),
        decreases n - i,
    {
        zeros.push(Fe::zero());
        i = i + 1;
    }
    let mut q = Polynomial { coeffs: zeros };
    proof {
        lemma_modulus_bounds();
        assert forall|j: int| 0 <= j < q.coeffs.len() implies (#[trigger] q.coeffs[j]).wf() by {
            assert(q.coeffs[j] == Fe::spec_zero());
        }
        assert forall|z: int| #[trigger] eval(q@, z) == 0 by {
            assert forall|j: int| 0 <= j < q@.len() implies q@[j] == 0 by {
                assert(q.coeffs[j] == Fe::spec_zero());
            }
            lemma_eval_zeros(q@, z);
        }
    }
    let mut rem = trim(dividend);
    proof {
        lemma_view_in_field(dividend);
        assert forall|i: int| #[trigger] coef(dividend@, i) == fadd(conv(q@, dv@, i), coef(rem@, i)) by {
            assert forall|j: int| 0 <= j < q@.len() implies q@[j] == 0 by {
                assert(q.coeffs[j] == Fe::spec_zero());
            }
            lemma_conv_zeros(q@, dv@, i);
            if 0 <= i < dividend@.len() {
                assert(in_field(dividend@[i]));
            }
            lemma_field_units(coef(dividend@, i));
        }
        assert forall|z: int|
            #[trigger] eval(dividend@, z) == fadd(fmul(eval(q@, z), eval(dv@, z)), eval(rem@, z)) by {
            lemma_field_ring(eval(dv@, z), 0, 0);
            lemma_eval_in_field(rem@, z);
            lemma_field_units(eval(rem@, z));
        }
    }
    while rem.coeffs.len() > dd
        invariant
            dividend.wf(),
            dv.wf(),
            q.wf(),
            rem.wf(),
            one.wf(),
            one@.len() == 1,
            one@[0] == 1,
            forall|z: int| eval(one@, z) == 1,
            lead_inv.wf(),
            dd + 1 == dv@.len(),
            dv@.last() != 0,
            fmul(dv@[dd as int], lead_inv.val()) == 1,
            q.coeffs.len() == n,
            n == dividend.coeffs.len(),
            rem@.len() <= n,
            rem@.len() == 0 || rem@.last() != 0,
            forall|z: int|
                #[trigger] eval(dividend@, z) == fadd(fmul(eval(q@, z), eval(dv@, z)), eval(rem@, z)),
            forall|i: int| #[trigger] coef(dividend@, i) == fadd(conv(q@, dv@, i), coef(rem@, i)),
        decreases rem.coeffs.len(),
    {
        let len = rem.coeffs.len();
        let t = len - 1 - dd;
        let c = fe_mul(&rem.coeffs[len - 1], &lead_inv);
        let mono = monomial_product(&c, t, &one);
        let ghost q_old = q@;
        let ghost rem_old = rem@;
        q = add_polynomials(&q, &mono);
        let sub = monomial_product(&c, t, &dv);
        let neg = negate_polynomial(&sub);
        let diff = add_polynomials(&rem, &neg);
        proof {
            let rl = rem_old[len - 1];
            assert(sub@[len - 1] == fmul(c.val(), dv@[dd as int]));
            lemma_field_ring(rl, lead_inv.val(), dv@[dd as int]);
            lemma_field_ring(lead_inv.val(), dv@[dd as int], 0);
            lemma_field_units(rl);
            lemma_field_ring(rl, rl, 0);
            assert(diff@[len - 1] == 0);
            assert(diff@.last() == 0);
            lemma_nz_len_bound(diff@);
            assert forall|z: int|
                #[trigger] eval(dividend@, z) == fadd(fmul(eval(q@, z), eval(dv@, z)), eval(diff@, z)) by {
                let p = fpow(z, t as nat);
                let e_dv = eval(dv@, z);
                let m = fmul(p, fmul(c.val(), 1));
                assert(eval(q@, z) == fadd(eval(q_old, z), eval(mono@, z)));
                assert(eval(mono@, z) == fmul(p, fmul(c.val(), eval(one@, z))));
                assert(eval(sub@, z) == fmul(p, fmul(c.val(), e_dv)));
                assert(eval(neg@, z) == fneg(eval(sub@, z)));
                assert(eval(diff@, z) == fadd(eval(rem_old, z), eval(neg@, z)));
                lemma_field_ring(p, c.val(), e_dv);
                lemma_field_ring(c.val(), 1, 0);
                lemma_mod_in_field(c.val());
                lemma_field_units(c.val());
                lemma_div_step(eval(q_old, z), m, e_dv, eval(rem_old, z));
            }
        }
        rem = trim(&diff);
        proof {
            assert forall|i: int| #[trigger] coef(dividend@, i) == fadd(conv(q@, dv@, i), coef(rem@, i)) by {
                lemma_conv_add(q_old, mono@, dv@, i);
                lemma_conv_monomial(t as nat, c.val(), one@, dv@, i);
                lemma_coef_padd(rem_old, neg@, i);
                assert(coef(neg@, i) == fneg(coef(sub@, i))) by {
                    lemma_field_units(0);
                    crate::field::lemma_field_ring(0, 0, 0);
                }
                lemma_conv_in_field(q_old, dv@, i);
                lemma_view_in_field(&rem);
                if 0 <= i < rem_old.len() {
                    assert(in_field(rem_old[i]));
                }
                lemma_cancel(conv(q_old, dv@, i), coef(sub@, i), coef(rem_old, i));
            }
        }
    }
    proof {
        assert forall|z: int|
            #[trigger] eval(dividend@, z) == fadd(fmul(eval(q@, z), eval(divisor@, z)), eval(rem@, z)) by {
            assert(eval(dv@, z) == eval(divisor@, z));
        }
        assert forall|i: int|
            #[trigger] coef(dividend@, i) == fadd(coef(pmul(q@, divisor@), i), coef(rem@, i)) by {
            lemma_coef_pmul(q@, divisor@, i);
            lemma_conv_congruent(q@, dv@, divisor@, i);
        }
    }
    let qt = trim(&q);
    proof {
        assert forall|z: int|
            #[trigger] eval(dividend@, z) == fadd(fmul(eval(qt@, z), eval(divisor@, z)), eval(rem@, z)) by {
            assert(eval(qt@, z) == eval(q@, z));
        }
        assert forall|i: int|
            #[trigger] coef(dividend@, i) == fadd(coef(pmul(qt@, divisor@), i), coef(rem@, i)) by {
            lemma_coef_pmul(q@, divisor@, i);
            lemma_coef_pmul(qt@, divisor@, i);
            assert forall|t: int| #[trigger] coef(qt@, t) == coef(q@, t) by {}
            lemma_conv_same_first(qt@, q@, divisor@, i);
        }
    }
    (qt, rem)
}

/// The convolution reads its first argument through `coef` only.
proof fn lemma_conv_same_first(a: Seq<int>, a2: Seq<int>, b: Seq<int>, k: int)
    requires
        forall|i: int| #[trigger] coef(a, i) == coef(a2, i),
    ensures
        conv(a, b, k) == conv(a2, b, k),
    decreases a.len() + a2.len(),
{
    if a.len() > 0 || a2.len() > 0 {
        assert forall|i: int| #[trigger] coef(tail(a), i) == coef(tail(a2), i) by {
            assert(coef(a, i + 1) == coef(a2, i + 1));
        }
        lemma_conv_same_first(tail(a), tail(a2), b, k - 1);
        lemma_conv_unfold(a, b, k);
        lemma_conv_unfold(a2, b, k);
        assert(coef(a, 0) == coef(a2, 0));
    }
}

proof fn lemma_nz_len_props(s: Seq<int>)
    ensures
        nz_len(s) <= s.len(),
        forall|i: int| i >= nz_len(s) ==> #[trigger] coef(s, i) == 0,
        nz_len(s) > 0 ==> s[nz_len(s) - 1] != 0,
    decreases s.len(),
{
    if s.len() > 0 && s.last() == 0 {
        let t = s.drop_last();
        lemma_nz_len_props(t);
        assert forall|i: int| i >= nz_len(s) implies #[trigger] coef(s, i) == 0 by {
            if i < t.len() {
                assert(coef(t, i) == 0);
            }
        }
    }
}

proof fn lemma_conv_neg(a: Seq<int>, b: Seq<int>, k: int)
    ensures
        conv(pneg(a), b, k) == fneg(conv(a, b, k)),
    decreases a.len(),
{
    if a.len() == 0 {
        assert(pneg(a).len() == 0);
        lemma_field_ring(0, 0, 0);
    } else {
        assert(pneg(a).drop_first() =~= pneg(a.drop_first()));
        lemma_conv_neg(a.drop_first(), b, k - 1);
        let x = fmul(a[0], coef(b, k));
        let y = conv(a.drop_first(), b, k - 1);
        lemma_field_ring(a[0], coef(b, k), 0);
        lemma_neg_add(x, y);
    }
}

proof fn lemma_neg_add(x: int, y: int)
    ensures
        fadd(fneg(x), fneg(y)) == fneg(fadd(x, y)),
{
    let m = modulus();
    crate::field::lemma_modulus_bounds();
    vstd::arithmetic::div_mod::lemma_add_mod_noop(0 - x, 0 - y, m);
    vstd::arithmetic::div_mod::lemma_sub_mod_noop_right(0, x + y, m);
}

proof fn lemma_conv_top(a: Seq<int>, b: Seq<int>, da: int, db: int)
    requires
        0 <= da < a.len(),
        0 <= db,
        forall|i: int| i > da ==> #[trigger] coef(a, i) == 0,
        forall|j: int| j > db ==> #[trigger] coef(b, j) == 0,
    ensures
        conv(a, b, da + db) == fmul(a[da], coef(b, db)),
    decreases a.len(),
{
    let t = a.drop_first();
    if da == 0 {
        assert forall|i: int| 0 <= i < t.len() implies t[i] == 0 by {
            assert(coef(a, i + 1) == 0);
        }
        lemma_conv_zeros(t, b, da + db - 1);
        lemma_mod_in_field(a[0] * coef(b, db));
        lemma_field_units(fmul(a[0], coef(b, db)));
    } else {
        assert forall|i: int| i > da - 1 implies #[trigger] coef(t, i) == 0 by {
            assert(coef(a, i + 1) == 0);
        }
        lemma_conv_top(t, b, da - 1, db);
        assert(coef(b, da + db) == 0);
        lemma_field_ring(a[0], 0, 0);
        lemma_mod_in_field(t[da - 1] * coef(b, db));
        lemma_field_units(fmul(t[da - 1], coef(b, db)));
    }
}

/// Division with remainder is unique: where `dividend = a b` and also
/// `dividend = q b + rem` with `rem` of lower degree than `b` and without
/// trailing zeros, coefficient by coefficient, `rem = 0` and `q = a` up to
/// trailing zeros, provided the leading coefficient of `b` is invertible.
pub proof fn lemma_division_unique(a: Seq<int>, b: Seq<int>, dividend: Seq<int>, q: Seq<int>, rem: Seq<int>)
    requires
        seq_in_field(a),
        seq_in_field(b),
        seq_in_field(q),
        seq_in_field(rem),
        nz_len(b) > 0,
        exists|inv: int| #[trigger] fmul(b[nz_len(b) - 1], inv) == 1,
        rem.len() < nz_len(b),
        rem.len() == 0 || rem.last() != 0,
        forall|i: int| #[trigger] coef(dividend, i) == coef(pmul(a, b), i),
        forall|i: int| #[trigger] coef(dividend, i) == fadd(coef(pmul(q, b), i), coef(rem, i)),
    ensures
        rem.len() == 0,
        forall|i: int| #[trigger] coef(q, i) == coef(a, i),
{
    let inv = choose|inv: int| #[trigger] fmul(b[nz_len(b) - 1], inv) == 1;
    let d = padd(a, pneg(q));
    // d * b = rem, coefficient by coefficient
    assert forall|i: int| #[trigger] conv(d, b, i) == coef(rem, i) by {
        lemma_conv_add(a, pneg(q), b, i);
        lemma_conv_neg(q, b, i);
        lemma_coef_pmul(a, b, i);
        lemma_coef_pmul(q, b, i);
        assert(coef(dividend, i) == coef(pmul(a, b), i));
        let x = conv(q, b, i);
        let r = coef(rem, i);
        if 0 <= i < rem.len() {
            assert(in_field(rem[i]));
        }
        lemma_field_units(r);
        lemma_add4(x, r, fneg(x), 0);
        lemma_field_ring(x, x, 0);
        lemma_field_ring(fadd(x, r), fneg(x), 0);
        lemma_field_ring(x, r, 0);
        lemma_field_ring(r, x, fneg(x));
        lemma_mod_in_field(r);
    }
    lemma_nz_len_props(d);
    lemma_nz_len_props(b);
    if nz_len(d) > 0 {
        let dd = nz_len(d) - 1;
        let db = nz_len(b) - 1;
        lemma_conv_top(d, b, dd, db);
        let x = d[dd];
        let y = b[db];
        assert(fmul(x, y) == coef(rem, dd + db));
        assert(coef(rem, dd + db) == 0);
        assert(in_field(x)) by {
            assert(in_field(coef(a, dd))) by {
                if dd < a.len() {
                    assert(in_field(a[dd]));
                }
                lemma_mod_in_field(0);
            }
            lemma_mod_in_field(coef(a, dd) + coef(pneg(q), dd));
        }
        lemma_field_ring(x, y, inv);
        lemma_field_ring(0, inv, 0);
        lemma_field_units(x);
    }
    assert forall|i: int| #[trigger] coef(q, i) == coef(a, i) by {
        assert(coef(d, i) == 0);
        lemma_coef_padd(a, pneg(q), i);
        if 0 <= i < q.len() {
            assert(in_field(q[i]));
        }
        if 0 <= i < a.len() {
            assert(in_field(a[i]));
        }
        lemma_field_units(0);
        crate::field::lemma_mod_in_field(0);
        lemma_field_ring(coef(a, i), coef(q, i), 0);
        if coef(q, i) != coef(a, i) {
            crate::interpolate::lemma_distinct_diff_nonzero(coef(a, i), coef(q, i));
        }
    }
    if rem.len() > 0 {
        assert forall|j: int| 0 <= j < d.len() implies d[j] == 0 by {
            assert(coef(d, j) == 0);
        }
        lemma_conv_zeros(d, b, rem.len() - 1);
        assert(coef(rem, rem.len() - 1) == 0);
    }
}

/// Division of a product by one factor is exact: whatever pair `(q, rem)`
/// meets the contract of `divide_polynomials` for the dividend `a * b` (the
/// result of `multiply_polynomials`) and the divisor `b` has `rem = 0` and
/// `q = a` up to trailing zeros, provided the leading coefficient of `b` is
/// invertible.
pub proof fn lemma_divide_product(a: Seq<int>, b: Seq<int>, q: Seq<int>, rem: Seq<int>)
    requires
        seq_in_field(a),
        seq_in_field(b),
        seq_in_field(q),
        seq_in_field(rem),
        nz_len(b) > 0,
        exists|inv: int| #[trigger] fmul(b[nz_len(b) - 1], inv) == 1,
        rem.len() < nz_len(b),
        rem.len() == 0 || rem.last() != 0,
        forall|i: int| #[trigger] coef(pmul(a, b), i) == fadd(coef(pmul(q, b), i), coef(rem, i)),
    ensures
        rem.len() == 0,
        forall|i: int| #[trigger] coef(q, i) == coef(a, i),
{
    lemma_division_unique(a, b, pmul(a, b), q, rem);
}

/// The quotient of `d` by `X - x` (synthetic division).
pub open spec fn sdiv(d: Seq<int>, x: int) -> Seq<int>
    decreases d.len(),
{
    if d.len() <= 1 {
        Seq::empty()
    } else {
        padd(seq![eval(d.drop_first(), x)], pshift(sdiv(d.drop_first(), x)))
    }
}

/// `X - x`.
pub open spec fn linear(x: int) -> Seq<int> {
    seq![fneg(x), 1int]
}

proof fn lemma_conv_negative(a: Seq<int>, b: Seq<int>, k: int)
    requires
        k < 0,
    ensures
        conv(a, b, k) == 0,
    decreases a.len(),
{
    if a.len() > 0 {
        lemma_conv_negative(a.drop_first(), b, k - 1);
        lemma_field_ring(a[0], 0, 0);
        lemma_field_units(0);
    }
}

proof fn lemma_sdiv_shape(d: Seq<int>, x: int)
    ensures
        d.len() >= 1 ==> sdiv(d, x).len() == d.len() - 1,
        d.len() == 0 ==> sdiv(d, x).len() == 0,
        seq_in_field(sdiv(d, x)),
    decreases d.len(),
{
    if d.len() > 1 {
        lemma_sdiv_shape(d.drop_first(), x);
        let q = sdiv(d, x);
        assert forall|i: int| 0 <= i < q.len() implies in_field(#[trigger] q[i]) by {
            lemma_mod_in_field(coef(seq![eval(d.drop_first(), x)], i) + coef(
                pshift(sdiv(d.drop_first(), x)),
                i,
            ));
        }
    }
}

/// `d = (X - x) sdiv(d, x) + d(x)`, coefficient by coefficient.
pub proof fn lemma_sdiv(d: Seq<int>, x: int, k: int)
    requires
        seq_in_field(d),
        in_field(x),
    ensures
        coef(d, k) == fadd(conv(sdiv(d, x), linear(x), k), coef(seq![eval(d, x)], k)),
    decreases d.len(),
{
    let l = linear(x);
    if d.len() == 0 {
        lemma_field_units(0);
    } else if d.len() == 1 {
        assert(eval(d.drop_first(), x) == 0);
        lemma_field_ring(x, 0, 0);
        lemma_field_units(d[0]);
        lemma_field_units(0);
        if k == 0 {
            assert(in_field(d[0]));
        }
    } else {
        let t = d.drop_first();
        let r = eval(t, x);
        let q1 = sdiv(t, x);
        let q = sdiv(d, x);
        assert(seq_in_field(t)) by {
            assert forall|i: int| 0 <= i < t.len() implies in_field(#[trigger] t[i]) by {
                assert(in_field(d[i + 1]));
            }
        }
        lemma_sdiv(t, x, k - 1);
        lemma_eval_in_field(t, x);
        lemma_conv_add(seq![r], pshift(q1), l, k);
        assert(q == padd(seq![r], pshift(q1)));
        let cr = conv(seq![r], l, k);
        assert(conv(seq![r].drop_first(), l, k - 1) == 0);
        lemma_mod_in_field(r * coef(l, k));
        lemma_field_units(fmul(r, coef(l, k)));
        assert(cr == fmul(r, coef(l, k)));
        let cs = conv(q1, l, k - 1);
        assert(pshift(q1).drop_first() =~= q1);
        lemma_field_ring(0, coef(l, k), 0);
        lemma_conv_in_field(q1, l, k - 1);
        lemma_field_units(cs);
        assert(conv(pshift(q1), l, k) == cs);
        assert(conv(q, l, k) == fadd(cr, cs));
        let e = eval(d, x);
        assert(e == fadd(d[0], fmul(x, r)));
        lemma_field_units(0);
        if k < 0 {
            lemma_conv_negative(q, l, k);
        } else if k == 0 {
            lemma_conv_negative(q1, l, -1);
            lemma_field_ring(fneg(x), r, 0);
            lemma_field_ring(x, r, 0);
            assert(cr == fneg(fmul(x, r)));
            assert(in_field(d[0]));
            lemma_neg_cancel(d[0], fmul(x, r));
        } else if k == 1 {
            lemma_field_units(r);
            assert(cr == r);
            assert(coef(t, 0) == fadd(cs, r));
            lemma_mod_in_field(r + cs);
            lemma_field_units(fadd(r, cs));
        } else {
            lemma_field_ring(r, 0, 0);
            assert(cr == 0);
            lemma_field_units(cs);
            lemma_mod_in_field(cs);
        }
    }
}

/// `g` has a multiplicative inverse.
pub open spec fn invertible(g: int) -> bool {
    exists|inv: int| #[trigger] fmul(g, inv) == 1
}

/// The differences `1, ..., n - 1` of the nodes `1..n` are invertible.
pub open spec fn gaps_invertible(n: int) -> bool {
    forall|g: int| 1 <= g < n ==> #[trigger] invertible(g)
}

proof fn lemma_eval_coef_congruent(a: Seq<int>, b: Seq<int>, z: int)
    requires
        forall|i: int| #[trigger] coef(a, i) == coef(b, i),
    ensures
        eval(a, z) == eval(b, z),
    decreases a.len() + b.len(),
{
    if a.len() > 0 || b.len() > 0 {
        assert forall|i: int| #[trigger] coef(tail(a), i) == coef(tail(b), i) by {
            assert(coef(a, i + 1) == coef(b, i + 1));
        }
        lemma_eval_coef_congruent(tail(a), tail(b), z);
        lemma_eval_unfold(a, z);
        lemma_eval_unfold(b, z);
        assert(coef(a, 0) == coef(b, 0));
    }
}

pub proof fn lemma_fneg_fneg(y: int)
    requires
        in_field(y),
    ensures
        fneg(fneg(y)) == y,
{
    crate::field::lemma_modulus_bounds();
    vstd::arithmetic::div_mod::lemma_sub_mod_noop_right(0, 0 - y, modulus());
    lemma_field_units(y);
}

/// `X - x` takes the value `z - x`.
pub proof fn lemma_eval_linear(x: int, z: int)
    requires
        in_field(z),
    ensures
        eval(linear(x), z) == fsub(z, x),
{
    let l = linear(x);
    let t = l.drop_first();
    lemma_field_units(1);
    crate::interpolate::lemma_eval_const(t, z);
    lemma_field_units(z);
    lemma_field_ring(z, x, 0);
    lemma_field_ring(fneg(x), z, 0);
}

/// A root `x` of `d` splits off the factor `X - x`:
/// `d(z) = sdiv(d, x)(z) (z - x)`.
proof fn lemma_root_factor(d: Seq<int>, x: int, z: int)
    requires
        seq_in_field(d),
        in_field(x),
        in_field(z),
        eval(d, x) == 0,
    ensures
        eval(d, z) == fmul(eval(sdiv(d, x), z), fsub(z, x)),
{
    let q = sdiv(d, x);
    let l = linear(x);
    let s = padd(pmul(q, l), seq![0int]);
    assert forall|i: int| #[trigger] coef(d, i) == coef(s, i) by {
        lemma_sdiv(d, x, i);
        lemma_coef_padd(pmul(q, l), seq![0int], i);
        lemma_coef_pmul(q, l, i);
    }
    lemma_eval_coef_congruent(d, s, z);
    lemma_eval_add(pmul(q, l), seq![0int], z);
    lemma_eval_mul(q, l, z);
    lemma_eval_linear(x, z);
    lemma_field_units(0);
    crate::interpolate::lemma_eval_const(seq![0int], z);
    lemma_mod_in_field(eval(q, z) * fsub(z, x));
    lemma_field_units(fmul(eval(q, z), fsub(z, x)));
}

/// A polynomial with at most `n` coefficients that is zero at the `n` nodes
/// `1..n`, whose differences are invertible, is zero.
pub proof fn lemma_roots_zero(d: Seq<int>, n: nat)
    requires
        seq_in_field(d),
        d.len() <= n,
        n < crate::field::limb_base(),
        forall|k: int| 0 <= k < n ==> #[trigger] eval(d, k + 1) == 0,
        gaps_invertible(n as int),
    ensures
        forall|i: int| #[trigger] coef(d, i) == 0,
    decreases n,
{
    if d.len() == 0 {
        return;
    }
    crate::field::lemma_modulus_bounds();
    let x = n as int;
    crate::field::lemma_small_in_field(x);
    let q = sdiv(d, x);
    lemma_sdiv_shape(d, x);
    let n1 = (n - 1) as nat;
    assert(eval(d, x) == 0) by {
        assert(eval(d, (n - 1) + 1) == 0);
    }
    assert forall|k: int| 0 <= k < n1 implies #[trigger] eval(q, k + 1) == 0 by {
        let z = k + 1;
        crate::field::lemma_small_in_field(z);
        lemma_root_factor(d, x, z);
        let g = x - z;
        assert(invertible(g));
        let inv = choose|inv: int| #[trigger] fmul(g, inv) == 1;
        let e = eval(q, z);
        lemma_eval_in_field(q, z);
        assert(fsub(z, x) == fneg(g));
        // e (-g) = 0, so e = e (-g)(-inv) = 0
        lemma_field_ring(e, fneg(g), fneg(inv));
        lemma_field_ring(0, fneg(inv), 0);
        lemma_field_ring(g, fneg(inv), 0);
        lemma_field_ring(inv, g, 0);
        lemma_field_ring(fneg(inv), g, 0);
        lemma_mod_in_field(inv * g);
        lemma_field_ring(fneg(g), fneg(inv), 0);
        lemma_field_ring(fneg(inv), fneg(g), 0);
        lemma_fneg_fneg(fmul(inv, g));
        lemma_field_units(e);
    }
    lemma_roots_zero(q, n1);
    assert forall|i: int| #[trigger] coef(d, i) == 0 by {
        lemma_sdiv(d, x, i);
        assert forall|j: int| 0 <= j < q.len() implies q[j] == 0 by {
            assert(coef(q, j) == 0);
        }
        lemma_conv_zeros(q, linear(x), i);
        lemma_field_units(0);
    }
}

/// Interpolation recovers a polynomial from its values: a polynomial `q`
/// with at most `n` coefficients that agrees with `p` (also at most `n`) at
/// the nodes `1..n` whose differences are invertible — as the contract of
/// `lagrange_interpolation_polynomial` states of its result on the values of
/// `p` — equals `p` up to trailing zeros.
pub proof fn lemma_interpolation_recovers(p: Seq<int>, q: Seq<int>, n: nat)
    requires
        seq_in_field(p),
        seq_in_field(q),
        p.len() <= n,
        q.len() <= n,
        n < crate::field::limb_base(),
        forall|k: int| 0 <= k < n ==> #[trigger] eval(q, k + 1) == eval(p, k + 1),
        gaps_invertible(n as int),
    ensures
        forall|i: int| #[trigger] coef(q, i) == coef(p, i),
{
    let d = padd(q, pneg(p));
    assert(seq_in_field(d)) by {
        assert forall|i: int| 0 <= i < d.len() implies in_field(#[trigger] d[i]) by {
            lemma_mod_in_field(coef(q, i) + coef(pneg(p), i));
        }
    }
    assert forall|k: int| 0 <= k < n implies #[trigger] eval(d, k + 1) == 0 by {
        lemma_eval_add(q, pneg(p), k + 1);
        lemma_eval_neg(p, k + 1);
        lemma_field_ring(eval(q, k + 1), eval(p, k + 1), 0);
    }
    lemma_roots_zero(d, n);
    assert forall|i: int| #[trigger] coef(q, i) == coef(p, i) by {
        assert(coef(d, i) == 0);
        lemma_coef_padd(q, pneg(p), i);
        if 0 <= i < q.len() {
            assert(in_field(q[i]));
        }
        if 0 <= i < p.len() {
            assert(in_field(p[i]));
        }
        lemma_field_units(0);
        crate::field::lemma_mod_in_field(0);
        lemma_field_ring(coef(q, i), coef(p, i), 0);
        if coef(q, i) != coef(p, i) {
            crate::interpolate::lemma_distinct_diff_nonzero(coef(q, i), coef(p, i));
        }
    }
}

proof fn lemma_neg_cancel(a: int, b: int)
    requires
        in_field(a),
    ensures
        fadd(fadd(fneg(b), 0), fadd(a, b)) == a,
{
    let m = modulus();
    crate::field::lemma_modulus_bounds();
    lemma_mod_in_field(0 - b);
    lemma_field_units(fneg(b));
    vstd::arithmetic::div_mod::lemma_add_mod_noop(0 - b, a + b, m);
    vstd::arithmetic::div_mod::lemma_small_mod(a as nat, m as nat);
    assert(((0 - b) % m + (a + b) % m) % m == (0 - b + (a + b)) % m);
}

/// `a(X + 1)`.
pub fn shift_argument(a: &Polynomial) -> (r: Polynomial)
    requires
        a.wf(),
    ensures
        r.wf(),
        r.coeffs.len() == a.coeffs.len(),
        forall|z: int| #[trigger] eval(r@, z) == eval(a@, fadd(z, 1)),
{
    let n = a.coeffs.len();
    let mut one_one: Vec<Fe> = Vec::new();
    one_one.push(Fe::one());
    one_one.push(Fe::one());
    let x_plus_one = Polynomial { coeffs: one_one };
    proof {
        lemma_modulus_bounds();
        lemma_field_units(1);
        assert forall|z: int| #[trigger] eval(x_plus_one@, z) == fadd(z, 1) by {
            let t = x_plus_one@.drop_first();
            assert(t[0] == 1);
            crate::interpolate::lemma_eval_const(t, z);
            lemma_field_ring(z, 1, 0);
            lemma_field_ring(1, z, 0);
            lemma_mod_in_field(z);
            lemma_field_units(z % modulus());
            assert(fmul(z, 1) == z % modulus());
        }
    }
    let mut acc = Polynomial { coeffs: Vec::new() };
    let mut i: usize = n;
    assert(a@.subrange(n as int, n as int) =~= Seq::<int>::empty());
    while i > 0
        invariant
            a.wf(),
            x_plus_one.wf(),
            x_plus_one.coeffs.len() == 2,
            forall|z: int| #[trigger] eval(x_plus_one@, z) == fadd(z, 1),
            n == a.coeffs.len(),
            i <= n,
            acc.wf(),
            acc.coeffs.len() == n - i,
            forall|z: int| #[trigger] eval(acc@, z) == eval(a@.subrange(i as int, n as int), fadd(z, 1)),
        decreases i,
    {
        let ghost prev = a@.subrange(i as int, n as int);
        let ghost old_acc = acc@;
        i = i - 1;
        let m = multiply_polynomials(&acc, &x_plus_one);
        let mut cv: Vec<Fe> = Vec::new();
        cv.push(a.coeffs[i]);
        let c = Polynomial { coeffs: cv };
        acc = add_polynomials(&m, &c);
        proof {
            let cur = a@.subrange(i as int, n as int);
            assert(cur.drop_first() =~= prev);
            assert(c@[0] == a@[i as int]);
            assert(c@.len() == 1);
            lemma_view_in_field(a);
            assert(in_field(a@[i as int]));
            assert forall|z: int| #[trigger] eval(acc@, z) == eval(cur, fadd(z, 1)) by {
                let w = fadd(z, 1);
                let e = eval(old_acc, z);
                crate::interpolate::lemma_eval_const(c@, z);
                assert(eval(m@, z) == fmul(e, w));
                assert(eval(acc@, z) == fadd(fmul(e, w), a@[i as int]));
                assert(e == eval(prev, w));
                lemma_field_ring(e, w, 0);
                lemma_field_ring(fmul(w, e), a@[i as int], 0);
            }
        }
    }
    assert(a@.subrange(0, n as int) =~= a@);
    acc
}

/// The value at `z`.
pub fn evaluate(a: &Polynomial, z: &Fe) -> (r: Fe)
    requires
        a.wf(),
        z.wf(),
    ensures
        r.wf(),
        r.val() == eval(a@, z.val()),
{
    let n = a.coeffs.len();
    let mut acc = Fe::zero();
    let mut i: usize = n;
    assert(a@.subrange(n as int, n as int) =~= Seq::<int>::empty());
    while i > 0
        invariant
            a.wf(),
            z.wf(),
            n == a.coeffs.len(),
            i <= n,
            acc.wf(),
            acc.val() == eval(a@.subrange(i as int, n as int), z.val()),
        decreases i,
    {
        let ghost prev = a@.subrange(i as int, n as int);
        i = i - 1;
        let t = fe_mul(z, &acc);
        acc = fe_add(&a.coeffs[i], &t);
        proof {
            let cur = a@.subrange(i as int, n as int);
            assert(cur.drop_first() =~= prev);
        }
    }
    assert(a@.subrange(0, n as int) =~= a@);
    acc
}

} // verus!
