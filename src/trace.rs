//! The execution trace of a double-and-add ladder, one column per tracked
//! coordinate and two selector columns that pick the arithmetic case of each row.
use vstd::prelude::*;
use vstd::arithmetic::power2::pow2;
use crate::field::{Fe, fmul, fneg, lemma_modulus_bounds, fe_mul};
use crate::curve::{
    CurveConfig, AffinePoint, ProjectivePoint, Pt, madd, dbl, mixed_add, double, negate, to_affine,
    affine_of,
};
use crate::error::KzgError;

verus! {

/// Column of the first selector: one on additions and doublings.
pub const S1: usize = 0;
/// Column of the second selector: one on additions and identity additions.
pub const S2: usize = 1;
/// Columns of the projective accumulator before the row.
pub const X1: usize = 2;
pub const Y1: usize = 3;
pub const Z1: usize = 4;
/// Columns of the affine operand of the row.
pub const X2: usize = 5;
pub const Y2: usize = 6;
/// Columns of the projective accumulator after the row.
pub const X3: usize = 7;
pub const Y3: usize = 8;
pub const Z3: usize = 9;
/// Number of columns of a trace.
pub const NUM_COLUMNS: usize = 10;

/// An execution trace: `witness[c][r]` is column `c` at row `r`.
#[derive(Clone, Debug)]
pub struct IR {
    pub witness: Vec<Vec<Fe>>,
}

/// One row of a trace, as field values.
pub struct Row {
    pub s1: int,
    pub s2: int,
    pub x1: int,
    pub y1: int,
    pub z1: int,
    pub x2: int,
    pub y2: int,
    pub x3: int,
    pub y3: int,
    pub z3: int,
}

impl IR {
    /// Every column has the same number `n` of rows, and every entry is canonical.
    pub open spec fn has_shape(&self, ncols: int, n: int) -> bool {
        &&& self.witness.len() == ncols
        &&& forall|c: int| 0 <= c < ncols ==> (#[trigger] self.witness[c]).len() == n
        &&& forall|c: int, r: int|
            0 <= c < ncols && 0 <= r < n ==> (#[trigger] self.witness[c][r]).wf()
    }

    /// The number of rows.
    pub open spec fn rows(&self) -> int {
        if self.witness.len() == 0 {
            0
        } else {
            self.witness[0].len() as int
        }
    }

    /// The value at column `c`, row `r`.
    pub open spec fn at(&self, c: int, r: int) -> int {
        self.witness[c][r].val()
    }

    pub open spec fn row(&self, r: int) -> Row {
        Row {
            s1: self.at(S1 as int, r),
            s2: self.at(S2 as int, r),
            x1: self.at(X1 as int, r),
            y1: self.at(Y1 as int, r),
            z1: self.at(Z1 as int, r),
            x2: self.at(X2 as int, r),
            y2: self.at(Y2 as int, r),
            x3: self.at(X3 as int, r),
            y3: self.at(Y3 as int, r),
            z3: self.at(Z3 as int, r),
        }
    }
}

#[verifier::opaque]
/// The relation each selector case imposes on a row:
/// `(1, 1)` mixed addition, `(1, 0)` doubling, `(0, 1)` addition of the
/// identity, `(0, 0)` the accumulator equals the affine operand and is kept.
/// Doubling and identity rows have the operand `(0, 0)`.
pub open spec fn row_ok(b3: int, w: Row) -> bool {
    let m = madd(b3, w.x1, w.y1, w.z1, w.x2, w.y2);
    let d = dbl(b3, w.x1, w.y1, w.z1);
    if w.s1 == 1 && w.s2 == 1 {
        w.x3 == m.x && w.y3 == m.y && w.z3 == m.z
    } else if w.s1 == 1 && w.s2 == 0 {
        w.x3 == d.x && w.y3 == d.y && w.z3 == d.z && w.x2 == 0 && w.y2 == 0
    } else if w.s1 == 0 && w.s2 == 1 {
        w.x3 == w.x1 && w.y3 == w.y1 && w.z3 == w.z1 && w.x2 == 0 && w.y2 == 0
    } else {
        w.s1 == 0 && w.s2 == 0 && fmul(w.x2, w.z1) == w.x1 && fmul(w.y2, w.z1) == w.y1
            && w.x3 == w.x1 && w.y3 == w.y1 && w.z3 == w.z1
    }
}

/// Limb `q` (little-endian) of a field element.
pub open spec fn limb(sk: Fe, q: int) -> u64 {
    if q == 0 {
        sk.l0
    } else if q == 1 {
        sk.l1
    } else if q == 2 {
        sk.l2
    } else {
        sk.l3
    }
}

/// Binary digit `i` (weight `2^i`) of a field element, for `i < 256`.
pub open spec fn raw_bit(sk: Fe, i: int) -> bool {
    (limb(sk, i / 64) as nat / pow2((i % 64) as nat)) % 2 == 1
}

/// One more than the position of the highest set digit below `n`; zero if none.
pub open spec fn top_len(sk: Fe, n: nat) -> nat
    decreases n,
{
    if n == 0 {
        0
    } else if raw_bit(sk, n - 1) {
        n
    } else {
        top_len(sk, (n - 1) as nat)
    }
}

proof fn lemma_top_len_bound(sk: Fe, n: nat)
    ensures
        top_len(sk, n) <= n,
    decreases n,
{
    if n > 0 {
        lemma_top_len_bound(sk, (n - 1) as nat);
    }
}

/// A scalar has between one and 256 digits.
pub proof fn lemma_bit_length_bounds(sk: Fe)
    ensures
        1 <= bit_length(sk) <= 256,
        scalar_bits(sk).len() == bit_length(sk),
{
    lemma_top_len_bound(sk, 256);
}

/// The number of binary digits of `sk` (one for zero).
pub open spec fn bit_length(sk: Fe) -> nat {
    if top_len(sk, 256) == 0 {
        1
    } else {
        top_len(sk, 256)
    }
}

/// The binary digits of `sk`, most significant first, without leading zeros
/// (`[false]` for zero).
pub open spec fn scalar_bits(sk: Fe) -> Seq<bool> {
    Seq::new(bit_length(sk), |k: int| raw_bit(sk, bit_length(sk) - 1 - k))
}

/// The first selector column for the digits `bits`: `[b, 1]` per digit, then `[1, 0]`.
pub open spec fn s1_column(bits: Seq<bool>) -> Seq<int> {
    Seq::new(
        (2 * bits.len() + 2) as nat,
        |r: int|
            if r < 2 * bits.len() {
                if r % 2 == 0 {
                    if bits[r / 2] {
                        1int
                    } else {
                        0int
                    }
                } else {
                    1int
                }
            } else if r == 2 * bits.len() {
                1int
            } else {
                0int
            },
    )
}

/// The second selector column for `m` digits: `[1, 0]` per digit but the
/// last, then `[1, 1, 1, 0]`.
pub open spec fn s2_column(m: nat) -> Seq<int> {
    Seq::new(
        (2 * m + 2) as nat,
        |r: int|
            if r < 2 * m - 1 {
                if r % 2 == 0 {
                    1int
                } else {
                    0int
                }
            } else if r < 2 * m + 1 {
                1int
            } else {
                0int
            },
    )
}

/// A column as field values.
pub open spec fn fe_column(v: Seq<Fe>) -> Seq<int> {
    v.map_values(|e: Fe| e.val())
}

/// Binary digit `i` of `sk`.
fn bit_at(sk: &Fe, i: usize) -> (r: bool)
    requires
        i < 256,
    ensures
        r == raw_bit(*sk, i as int),
{
    let q = i / 64;
    let s = (i % 64) as u64;
    let w = if q == 0 {
        sk.l0
    } else if q == 1 {
        sk.l1
    } else if q == 2 {
        sk.l2
    } else {
        sk.l3
    };
    let shifted = w >> s;
    proof {
        vstd::bits::lemma_u64_shr_is_div(w, s);
        assert(shifted & 1 == shifted % 2) by (bit_vector);
    }
    (shifted & 1) == 1
}

/// The binary digits of `sk`, most significant first, without leading zeros.
pub fn scalar_bits_of(sk: &Fe) -> (r: Vec<bool>)
    ensures
        r@ == scalar_bits(*sk),
{
    let mut n: usize = 256;
    while n > 0 && !bit_at(sk, n - 1)
        invariant
            n <= 256,
            top_len(*sk, n as nat) == top_len(*sk, 256),
        decreases n,
    {
        n = n - 1;
    }
    let len: usize = if n == 0 {
        1
    } else {
        n
    };
    assert(len == bit_length(*sk));
    let mut bits: Vec<bool> = Vec::new();
    let mut k: usize = 0;
    while k < len
        invariant
            len == bit_length(*sk),
            1 <= len <= 256,
            k <= len,
            bits.len() == k,
            forall|j: int| 0 <= j < k ==> bits[j] == raw_bit(*sk, len - 1 - j),
        decreases len - k,
    {
        bits.push(bit_at(sk, len - 1 - k));
        k = k + 1;
    }
    assert(bits@ =~= scalar_bits(*sk));
    bits
}

/// The first selector column of the trace for scalar `x`.
pub fn for_s1(x: &Fe) -> (r: Vec<Fe>)
    ensures
        fe_column(r@) == s1_column(scalar_bits(*x)),
        forall|i: int| 0 <= i < r.len() ==> (#[trigger] r[i]).wf(),
{
    let bits = scalar_bits_of(x);
    let m = bits.len();
    proof {
        lemma_bit_length_bounds(*x);
    }
    let mut result: Vec<Fe> = Vec::new();
    let mut k: usize = 0;
    while k < m
        invariant
            m == bits.len(),
            m <= 256,
            bits@ == scalar_bits(*x),
            k <= m,
            result.len() == 2 * k,
            forall|i: int| 0 <= i < result.len() ==> (#[trigger] result[i]).wf(),
            forall|i: int|
                0 <= i < 2 * k ==> (#[trigger] result[i]).val() == s1_column(bits@)[i],
        decreases m - k,
    {
        if bits[k] {
            result.push(Fe::one());
        } else {
            result.push(Fe::zero());
        }
        result.push(Fe::one());
        proof {
            assert((2 * k) / 2 == k);
            assert((2 * k + 1) / 2 == k);
        }
        k = k + 1;
    }
    result.push(Fe::one());
    result.push(Fe::zero());
    assert(fe_column(result@) =~= s1_column(scalar_bits(*x)));
    result
}

/// The second selector column of the trace for scalar `x`.
pub fn for_s2(x: &Fe) -> (r: Vec<Fe>)
    ensures
        fe_column(r@) == s2_column(scalar_bits(*x).len()),
        forall|i: int| 0 <= i < r.len() ==> (#[trigger] r[i]).wf(),
{
    let bits = scalar_bits_of(x);
    let m = bits.len();
    proof {
        lemma_bit_length_bounds(*x);
    }
    let mut result: Vec<Fe> = Vec::new();
    let mut k: usize = 0;
    while k < m
        invariant
            m == bits.len(),
            1 <= m <= 256,
            k <= m,
            result.len() == 2 * k,
            forall|i: int| 0 <= i < result.len() ==> (#[trigger] result[i]).wf(),
            forall|i: int|
                0 <= i < 2 * k ==> (#[trigger] result[i]).val() == if i % 2 == 0 {
                    1int
                } else {
                    0int
                },
        decreases m - k,
    {
        result.push(Fe::one());
        result.push(Fe::zero());
        k = k + 1;
    }
    result.pop();
    result.push(Fe::one());
    result.push(Fe::one());
    result.push(Fe::zero());
    assert(fe_column(result@) =~= s2_column(m as nat));
    result
}

/// One row of a trace while it is being built.
#[derive(Clone, Copy)]
struct TraceRow {
    s1: Fe,
    s2: Fe,
    cur: ProjectivePoint,
    op: AffinePoint,
    next: ProjectivePoint,
}

impl TraceRow {
    spec fn wf(&self) -> bool {
        self.s1.wf() && self.s2.wf() && self.cur.wf() && self.op.wf() && self.next.wf()
    }

    spec fn row(&self) -> Row {
        Row {
            s1: self.s1.val(),
            s2: self.s2.val(),
            x1: self.cur.x.val(),
            y1: self.cur.y.val(),
            z1: self.cur.z.val(),
            x2: self.op.x.val(),
            y2: self.op.y.val(),
            x3: self.next.x.val(),
            y3: self.next.y.val(),
            z3: self.next.z.val(),
        }
    }
}

proof fn lemma_row_madd(b3: int, t: TraceRow)
    requires
        t.s1.val() == 1,
        t.s2.val() == 1,
        t.next.pt() == madd(
            b3,
            t.cur.x.val(),
            t.cur.y.val(),
            t.cur.z.val(),
            t.op.x.val(),
            t.op.y.val(),
        ),
    ensures
        row_ok(b3, t.row()),
{
    reveal(row_ok);
}

proof fn lemma_row_dbl(b3: int, t: TraceRow)
    requires
        t.s1.val() == 1,
        t.s2.val() == 0,
        t.op.x.val() == 0,
        t.op.y.val() == 0,
        t.next.pt() == dbl(b3, t.cur.x.val(), t.cur.y.val(), t.cur.z.val()),
    ensures
        row_ok(b3, t.row()),
{
    reveal(row_ok);
}

proof fn lemma_row_identity(b3: int, t: TraceRow)
    requires
        t.s1.val() == 0,
        t.s2.val() == 1,
        t.op.x.val() == 0,
        t.op.y.val() == 0,
        t.next == t.cur,
    ensures
        row_ok(b3, t.row()),
{
    reveal(row_ok);
}

proof fn lemma_row_equality(b3: int, t: TraceRow)
    requires
        t.next == t.cur,
        t.s1.val() == 0,
        t.s2.val() == 0,
        fmul(t.op.x.val(), t.cur.z.val()) == t.cur.x.val(),
        fmul(t.op.y.val(), t.cur.z.val()) == t.cur.y.val(),
    ensures
        row_ok(b3, t.row()),
{
    reveal(row_ok);
}

/// Rows `0..n` satisfy their constraints, carry the selector columns, and
/// each starts where the previous one ended.
spec fn rows_ok(b3: int, rows: Seq<TraceRow>, bits: Seq<bool>) -> bool {
    &&& forall|r: int| 0 <= r < rows.len() ==> (#[trigger] rows[r]).wf()
    &&& forall|r: int| 0 <= r < rows.len() ==> row_ok(b3, (#[trigger] rows[r]).row())
    &&& forall|r: int|
        0 <= r < rows.len() ==> (#[trigger] rows[r]).s1.val() == s1_column(bits)[r]
            && rows[r].s2.val() == s2_column(bits.len())[r]
    &&& forall|r: int| 0 <= r < rows.len() - 1 ==> (#[trigger] rows[r + 1]).cur == rows[r].next
}

/// The columns of the rows.
fn transpose(rows: &Vec<TraceRow>) -> (ir: IR)
    requires
        forall|r: int| 0 <= r < rows.len() ==> (#[trigger] rows[r]).wf(),
    ensures
        ir.has_shape(NUM_COLUMNS as int, rows.len() as int),
        forall|r: int| 0 <= r < rows.len() ==> #[trigger] ir.row(r) == rows[r].row(),
        forall|r: int|
            0 <= r < rows.len() ==> #[trigger] ir.witness[S1 as int][r] == rows[r].s1
                && ir.witness[S2 as int][r] == rows[r].s2,
{
    let mut witness: Vec<Vec<Fe>> = Vec::new();
    let mut c: usize = 0;
    while c < NUM_COLUMNS
        invariant
            forall|r: int| 0 <= r < rows.len() ==> (#[trigger] rows[r]).wf(),
            c <= NUM_COLUMNS,
            witness.len() == c,
            forall|i: int| 0 <= i < c ==> (#[trigger] witness[i]).len() == rows.len(),
            forall|i: int, r: int|
                0 <= i < c && 0 <= r < rows.len() ==> (#[trigger] witness[i][r]) == column_entry(
                    rows[r],
                    i,
                ),
        decreases NUM_COLUMNS - c,
    {
        let mut col: Vec<Fe> = Vec::new();
        let mut r: usize = 0;
        while r < rows.len()
            invariant
                c < NUM_COLUMNS,
                r <= rows.len(),
                col.len() == r,
                forall|j: int| 0 <= j < r ==> (#[trigger] col[j]) == column_entry(rows[j], c as int),
            decreases rows.len() - r,
        {
            let t = &rows[r];
            let v = if c == S1 {
                t.s1
            } else if c == S2 {
                t.s2
            } else if c == X1 {
                t.cur.x
            } else if c == Y1 {
                t.cur.y
            } else if c == Z1 {
                t.cur.z
            } else if c == X2 {
                t.op.x
            } else if c == Y2 {
                t.op.y
            } else if c == X3 {
                t.next.x
            } else if c == Y3 {
                t.next.y
            } else {
                t.next.z
            };
            col.push(v);
            r = r + 1;
        }
        witness.push(col);
        c = c + 1;
    }
    let ir = IR { witness };
    assert forall|i: int, r: int|
        0 <= i < NUM_COLUMNS && 0 <= r < rows.len() implies (#[trigger] ir.witness[i][r]).wf() by {
        assert(rows[r].wf());
    }
    ir
}

/// Column `c` of a row.
spec fn column_entry(t: TraceRow, c: int) -> Fe {
    if c == S1 {
        t.s1
    } else if c == S2 {
        t.s2
    } else if c == X1 {
        t.cur.x
    } else if c == Y1 {
        t.cur.y
    } else if c == Z1 {
        t.cur.z
    } else if c == X2 {
        t.op.x
    } else if c == Y2 {
        t.op.y
    } else if c == X3 {
        t.next.x
    } else if c == Y3 {
        t.next.y
    } else {
        t.next.z
    }
}

/// The trace is well formed, starts from the identity, satisfies the
/// constraint of every row, and each row starts where the previous one ended.
/// The operand is `p` on the rows that add it and `(0, 0)` on the other
/// ladder rows; the ladder's result is the target `t`; the closing rows add
/// `-2 t` and `t + 2 g` and compare with `2 g`, all in affine form.
pub open spec fn valid_trace(
    curve: CurveConfig,
    ir: IR,
    bits: Seq<bool>,
    p: AffinePoint,
    g: AffinePoint,
    t: AffinePoint,
) -> bool {
    let m = bits.len() as int;
    let n = 2 * m + 2;
    let cp = closing_points(curve.b3.val(), t, g);
    &&& ir.has_shape(NUM_COLUMNS as int, n)
    &&& fe_column(ir.witness[S1 as int]@) == s1_column(bits)
    &&& fe_column(ir.witness[S2 as int]@) == s2_column(bits.len())
    &&& ir.row(0).x1 == 0 && ir.row(0).y1 == 1 && ir.row(0).z1 == 0
    &&& forall|r: int| 0 <= r < n ==> row_ok(curve.b3.val(), #[trigger] ir.row(r))
    &&& forall|r: int|
        0 <= r < n - 1 ==> (#[trigger] ir.row(r + 1)).x1 == ir.row(r).x3 && ir.row(r + 1).y1
            == ir.row(r).y3 && ir.row(r + 1).z1 == ir.row(r).z3
    &&& forall|k: int|
        0 <= k < m ==> (#[trigger] ir.row(2 * k)).x2 == (if bits[k] {
            p.x.val()
        } else {
            0
        }) && ir.row(2 * k).y2 == (if bits[k] {
            p.y.val()
        } else {
            0
        })
    &&& forall|k: int|
        0 <= k < m - 1 ==> (#[trigger] ir.row(2 * k + 1)).x2 == 0 && ir.row(2 * k + 1).y2 == 0
    &&& fmul(t.x.val(), ir.row(2 * m - 2).z3) == ir.row(2 * m - 2).x3
    &&& fmul(t.y.val(), ir.row(2 * m - 2).z3) == ir.row(2 * m - 2).y3
    &&& (ir.row(2 * m - 1).x2, ir.row(2 * m - 1).y2) == affine_of(cp.0)
    &&& (ir.row(2 * m).x2, ir.row(2 * m).y2) == affine_of(cp.1)
    &&& (ir.row(2 * m + 1).x2, ir.row(2 * m + 1).y2) == affine_of(cp.2)
}

/// The accumulator after the ladder over `bits` on `p`: starting from the
/// identity, for each digit (after the first, a doubling, then) an addition
/// of `p` where the digit is set.
pub open spec fn ladder_point(b3: int, bits: Seq<bool>, p: AffinePoint) -> Pt
    decreases bits.len(),
{
    if bits.len() == 0 {
        Pt { x: 0, y: 1, z: 0 }
    } else {
        let prev = ladder_point(b3, bits.drop_last(), p);
        let d = if bits.len() == 1 {
            prev
        } else {
            dbl(b3, prev.x, prev.y, prev.z)
        };
        if bits.last() {
            madd(b3, d.x, d.y, d.z, p.x.val(), p.y.val())
        } else {
            d
        }
    }
}

/// The points of the closing rows, projective: `-2 t`, `t + g + g` and `2 g`.
pub open spec fn closing_points(b3: int, t: AffinePoint, g: AffinePoint) -> (Pt, Pt, Pt) {
    let twice = dbl(b3, t.x.val(), t.y.val(), 1);
    let plus_g = madd(b3, t.x.val(), t.y.val(), 1, g.x.val(), g.y.val());
    (
        Pt { x: twice.x, y: fneg(twice.y), z: twice.z },
        madd(b3, plus_g.x, plus_g.y, plus_g.z, g.x.val(), g.y.val()),
        dbl(b3, g.x.val(), g.y.val(), 1),
    )
}

/// One of the closing points is the point at infinity.
pub open spec fn closing_at_infinity(b3: int, t: AffinePoint, g: AffinePoint) -> bool {
    let (q1, q2, e) = closing_points(b3, t, g);
    q1.z == 0 || q2.z == 0 || e.z == 0
}

/// The ladder's result differs from the target `t`.
pub open spec fn ladder_differs(b3: int, bits: Seq<bool>, p: AffinePoint, t: AffinePoint) -> bool {
    let a = ladder_point(b3, bits, p);
    fmul(t.x.val(), a.z) != a.x || fmul(t.y.val(), a.z) != a.y
}

/// After adding `-2 t` and `t + g + g` to the ladder's result, the
/// accumulator differs from `2 g`.
pub open spec fn closing_mismatch(
    b3: int,
    bits: Seq<bool>,
    p: AffinePoint,
    g: AffinePoint,
    t: AffinePoint,
) -> bool {
    let a = ladder_point(b3, bits, p);
    let (q1, q2, e) = closing_points(b3, t, g);
    let a1 = madd(b3, a.x, a.y, a.z, affine_of(q1).0, affine_of(q1).1);
    let a2 = madd(b3, a1.x, a1.y, a1.z, affine_of(q2).0, affine_of(q2).1);
    fmul(affine_of(e).0, a2.z) != a2.x || fmul(affine_of(e).1, a2.z) != a2.y
}

/// The ladder part of the trace: for each digit of `bits` (after the first,
/// a doubling row, then) an addition of `p` or of the identity.
fn ladder(curve: &CurveConfig, bits: &Vec<bool>, p: &AffinePoint) -> (r: Vec<TraceRow>)
    requires
        curve.wf(),
        p.wf(),
        1 <= bits.len() <= 256,
    ensures
        r.len() == 2 * bits.len() - 1,
        rows_ok(curve.b3.val(), r@, bits@),
        r[0].cur.pt() == (Pt { x: 0, y: 1, z: 0 }),
        r[2 * bits.len() - 2].next.pt() == ladder_point(curve.b3.val(), bits@, *p),
        forall|j: int|
            0 <= j < bits.len() && #[trigger] bits@[j] ==> r[2 * j].op == *p,
        forall|j: int|
            0 <= j < bits.len() && !#[trigger] bits@[j] ==> r[2 * j].op.x.val() == 0 && r[2
                * j].op.y.val() == 0,
        forall|j: int|
            0 <= j < bits.len() - 1 ==> (#[trigger] r[2 * j + 1]).op.x.val() == 0 && r[2 * j
                + 1].op.y.val() == 0,
{
    let ghost b3 = curve.b3.val();
    let m = bits.len();
    proof {
        lemma_modulus_bounds();
    }
    let mut rows: Vec<TraceRow> = Vec::new();
    let mut acc = ProjectivePoint::identity();
    let none = AffinePoint { x: Fe::zero(), y: Fe::zero() };
    let mut k: usize = 0;
    while k < m
        invariant
            curve.wf(),
            p.wf(),
            b3 == curve.b3.val(),
            m == bits.len(),
            1 <= m <= 256,
            k <= m,
            none.wf(),
            none.x.val() == 0,
            none.y.val() == 0,
            acc.wf(),
            rows.len() == if k == 0 { 0 } else { 2 * k - 1 },
            rows_ok(b3, rows@, bits@),
            k == 0 ==> acc.pt() == (Pt { x: 0, y: 1, z: 0 }),
            k > 0 ==> rows[2 * k - 2].next == acc,
            acc.pt() == ladder_point(b3, bits@.subrange(0, k as int), *p),
            k > 0 ==> rows[0].cur.pt() == (Pt { x: 0, y: 1, z: 0 }),
            forall|j: int| 0 <= j < k && #[trigger] bits@[j] ==> rows[2 * j].op == *p,
            forall|j: int|
                0 <= j < k && !#[trigger] bits@[j] ==> rows[2 * j].op.x.val() == 0 && rows[2
                    * j].op.y.val() == 0,
            forall|j: int|
                0 <= j < k - 1 ==> (#[trigger] rows[2 * j + 1]).op.x.val() == 0 && rows[2 * j
                    + 1].op.y.val() == 0,
        decreases m - k,
    {
        if k > 0 {
            let d = double(curve, &acc);
            let t = TraceRow { s1: Fe::one(), s2: Fe::zero(), cur: acc, op: none, next: d };
            proof {
                lemma_row_dbl(b3, t);
                assert((2 * k - 1) % 2 == 1);
            }
            rows.push(t);
            acc = d;
        }
        let t = if bits[k] {
            let next = mixed_add(curve, &acc, p);
            let t = TraceRow { s1: Fe::one(), s2: Fe::one(), cur: acc, op: *p, next };
            proof {
                lemma_row_madd(b3, t);
            }
            t
        } else {
            let t = TraceRow { s1: Fe::zero(), s2: Fe::one(), cur: acc, op: none, next: acc };
            proof {
                lemma_row_identity(b3, t);
            }
            t
        };
        proof {
            assert((2 * k) / 2 == k);
            assert((2 * k) % 2 == 0);
        }
        rows.push(t);
        acc = t.next;
        proof {
            let s = bits@.subrange(0, k + 1);
            assert(s.drop_last() =~= bits@.subrange(0, k as int));
            assert(s.last() == bits@[k as int]);
        }
        k = k + 1;
    }
    assert(bits@.subrange(0, m as int) =~= bits@);
    rows
}

proof fn lemma_close(b3: int, rows: Seq<TraceRow>, t1: TraceRow, t2: TraceRow, t3: TraceRow, bits: Seq<bool>)
    requires
        1 <= bits.len() <= 256,
        rows.len() == 2 * bits.len() - 1,
        rows_ok(b3, rows, bits),
        t1.wf() && t2.wf() && t3.wf(),
        row_ok(b3, t1.row()) && row_ok(b3, t2.row()) && row_ok(b3, t3.row()),
        t1.cur == rows.last().next,
        t2.cur == t1.next,
        t3.cur == t2.next,
        t1.s1.val() == 1 && t1.s2.val() == 1,
        t2.s1.val() == 1 && t2.s2.val() == 1,
        t3.s1.val() == 0 && t3.s2.val() == 0,
    ensures
        rows_ok(b3, rows.push(t1).push(t2).push(t3), bits),
{
    let all = rows.push(t1).push(t2).push(t3);
    let l = rows.len() as int;
    assert forall|r: int| 0 <= r < all.len() - 1 implies (#[trigger] all[r + 1]).cur
        == all[r].next by {
        if r < l - 1 {
            assert(all[r + 1] == rows[r + 1]);
        }
    }
    assert forall|r: int| 0 <= r < all.len() implies (#[trigger] all[r]).s1.val()
        == s1_column(bits)[r] && all[r].s2.val() == s2_column(bits.len())[r] by {
        if r < l {
            assert(all[r] == rows[r]);
        }
    }
    assert forall|r: int| 0 <= r < all.len() implies row_ok(b3, (#[trigger] all[r]).row())
        && all[r].wf() by {
        if r < l {
            assert(all[r] == rows[r]);
        }
    }
}

proof fn lemma_valid(
    curve: CurveConfig,
    ir: IR,
    rows: Seq<TraceRow>,
    bits: Seq<bool>,
    p: AffinePoint,
    g: AffinePoint,
    t: AffinePoint,
)
    requires
        1 <= bits.len() <= 256,
        rows.len() == 2 * bits.len() + 2,
        rows_ok(curve.b3.val(), rows, bits),
        rows[0].cur.pt() == (Pt { x: 0, y: 1, z: 0 }),
        forall|j: int| 0 <= j < bits.len() && #[trigger] bits[j] ==> rows[2 * j].op == p,
        forall|j: int|
            0 <= j < bits.len() && !#[trigger] bits[j] ==> rows[2 * j].op.x.val() == 0 && rows[2
                * j].op.y.val() == 0,
        forall|j: int|
            0 <= j < bits.len() - 1 ==> (#[trigger] rows[2 * j + 1]).op.x.val() == 0 && rows[2 * j
                + 1].op.y.val() == 0,
        fmul(t.x.val(), rows[2 * bits.len() - 2].next.z.val()) == rows[2 * bits.len() - 2].next.x.val(),
        fmul(t.y.val(), rows[2 * bits.len() - 2].next.z.val()) == rows[2 * bits.len() - 2].next.y.val(),
        (rows[2 * bits.len() - 1].op.x.val(), rows[2 * bits.len() - 1].op.y.val()) == affine_of(
            closing_points(curve.b3.val(), t, g).0,
        ),
        (rows[2 * bits.len() as int].op.x.val(), rows[2 * bits.len() as int].op.y.val()) == affine_of(
            closing_points(curve.b3.val(), t, g).1,
        ),
        (rows[2 * bits.len() + 1int].op.x.val(), rows[2 * bits.len() + 1int].op.y.val()) == affine_of(
            closing_points(curve.b3.val(), t, g).2,
        ),
        ir.has_shape(NUM_COLUMNS as int, rows.len() as int),
        forall|r: int| 0 <= r < rows.len() ==> #[trigger] ir.row(r) == rows[r].row(),
        forall|r: int|
            0 <= r < rows.len() ==> #[trigger] ir.witness[S1 as int][r] == rows[r].s1
                && ir.witness[S2 as int][r] == rows[r].s2,
    ensures
        valid_trace(curve, ir, bits, p, g, t),
{
    let m = bits.len() as int;
    let n = 2 * m + 2;
    let b3 = curve.b3.val();
    assert(fe_column(ir.witness[S1 as int]@) =~= s1_column(bits));
    assert forall|r: int| 0 <= r < n implies fe_column(ir.witness[S2 as int]@)[r] == s2_column(
        bits.len(),
    )[r] by {
        assert(ir.witness[S1 as int][r] == rows[r].s1);
    }
    assert(fe_column(ir.witness[S2 as int]@) =~= s2_column(bits.len()));
    assert(ir.row(0) == rows[0].row());
    assert forall|r: int| 0 <= r < n - 1 implies (#[trigger] ir.row(r + 1)).x1 == ir.row(r).x3
        && ir.row(r + 1).y1 == ir.row(r).y3 && ir.row(r + 1).z1 == ir.row(r).z3 by {
        assert(ir.row(r) == rows[r].row());
        assert(rows[r + 1].cur == rows[r].next);
    }
    assert forall|k: int| 0 <= k < m implies (#[trigger] ir.row(2 * k)).x2 == (if bits[k] {
        p.x.val()
    } else {
        0
    }) && ir.row(2 * k).y2 == (if bits[k] {
        p.y.val()
    } else {
        0
    }) by {
        assert(ir.row(2 * k) == rows[2 * k].row());
    }
    assert forall|k: int| 0 <= k < m - 1 implies (#[trigger] ir.row(2 * k + 1)).x2 == 0 && ir.row(
        2 * k + 1,
    ).y2 == 0 by {
        assert(ir.row(2 * k + 1) == rows[2 * k + 1].row());
    }
    assert forall|r: int| 0 <= r < n implies row_ok(b3, #[trigger] ir.row(r)) by {
        assert(ir.row(r) == rows[r].row());
    }
    assert(ir.row(2 * m - 2) == rows[2 * m - 2].row());
    assert(ir.row(2 * m - 1) == rows[2 * m - 1].row());
    assert(ir.row(2 * m) == rows[2 * m].row());
    assert(ir.row(2 * m + 1) == rows[2 * m + 1].row());
}

/// `sk * p` in affine form, by the ladder's formulas; the point at infinity
/// has none.
pub fn scalar_multiply(curve: &CurveConfig, sk: &Fe, p: &AffinePoint) -> (r: Result<
    AffinePoint,
    KzgError,
>)
    requires
        curve.wf(),
        p.wf(),
    ensures
        r is Err <==> ladder_point(curve.b3.val(), scalar_bits(*sk), *p).z == 0,
        r matches Err(e) ==> e == KzgError::PointAtInfinity,
        r matches Ok(a) ==> a.wf() && (a.x.val(), a.y.val()) == affine_of(
            ladder_point(curve.b3.val(), scalar_bits(*sk), *p),
        ),
{
    let bits = scalar_bits_of(sk);
    proof {
        lemma_bit_length_bounds(*sk);
    }
    let rows = ladder(curve, &bits, p);
    to_affine(&rows[2 * bits.len() - 2].next)
}

/// The trace of `sk * p` by double-and-add over the digits of `sk`, most
/// significant first, bound to the claimed result `t`: two mixed additions
/// of `-2 t` and of `t + 2 g` follow, and a final row asserts that the result
/// equals `2 g`. Fails where one of those points is the point at infinity,
/// and where the ladder's result differs from `t` or the closing rows do not
/// end at `2 g` (which the group law rules out for points of the curve once
/// the ladder's result is `t`).
pub fn build_trace(
    curve: &CurveConfig,
    sk: &Fe,
    p: &AffinePoint,
    g: &AffinePoint,
    t: &AffinePoint,
) -> (r: Result<IR, KzgError>)
    requires
        curve.wf(),
        p.wf(),
        g.wf(),
        t.wf(),
    ensures
        r matches Ok(ir) ==> valid_trace(*curve, ir, scalar_bits(*sk), *p, *g, *t),
        r == Err::<IR, KzgError>(KzgError::PointAtInfinity) <==> closing_at_infinity(
            curve.b3.val(),
            *t,
            *g,
        ),
        r == Err::<IR, KzgError>(KzgError::TargetMismatch) <==> !closing_at_infinity(
            curve.b3.val(),
            *t,
            *g,
        ) && (ladder_differs(curve.b3.val(), scalar_bits(*sk), *p, *t) || closing_mismatch(
            curve.b3.val(),
            scalar_bits(*sk),
            *p,
            *g,
            *t,
        )),
        r matches Err(e) ==> e == KzgError::PointAtInfinity || e == KzgError::TargetMismatch,
{
    let ghost b3 = curve.b3.val();
    let bits = scalar_bits_of(sk);
    let m = bits.len();
    proof {
        lemma_bit_length_bounds(*sk);
        lemma_modulus_bounds();
    }
    let ghost cp = closing_points(b3, *t, *g);
    // the closing operands, from the target and g alone
    let t_proj = ProjectivePoint::from_affine(t);
    let neg_twice = negate(&double(curve, &t_proj));
    assert(neg_twice.pt() == cp.0);
    let q1 = match to_affine(&neg_twice) {
        Ok(a) => a,
        Err(_) => {
            return Err(KzgError::PointAtInfinity);
        },
    };
    let t_g = mixed_add(curve, &t_proj, g);
    let t_g2 = mixed_add(curve, &t_g, g);
    assert(t_g2.pt() == cp.1);
    let q2 = match to_affine(&t_g2) {
        Ok(a) => a,
        Err(_) => {
            return Err(KzgError::PointAtInfinity);
        },
    };
    let g_twice = double(curve, &ProjectivePoint::from_affine(g));
    assert(g_twice.pt() == cp.2);
    let target = match to_affine(&g_twice) {
        Ok(a) => a,
        Err(_) => {
            return Err(KzgError::PointAtInfinity);
        },
    };
    assert(!closing_at_infinity(b3, *t, *g));
    let mut rows = ladder(curve, &bits, p);
    let acc = rows[2 * m - 2].next;
    assert(acc.pt() == ladder_point(b3, bits@, *p));
    let tx = fe_mul(&t.x, &acc.z);
    let ty = fe_mul(&t.y, &acc.z);
    if !tx.eq_val(&acc.x) || !ty.eq_val(&acc.y) {
        assert(ladder_differs(b3, bits@, *p, *t));
        return Err(KzgError::TargetMismatch);
    }
    assert(!ladder_differs(b3, bits@, *p, *t));
    let acc1 = mixed_add(curve, &acc, &q1);
    let t1 = TraceRow { s1: Fe::one(), s2: Fe::one(), cur: acc, op: q1, next: acc1 };
    let acc2 = mixed_add(curve, &acc1, &q2);
    let t2 = TraceRow { s1: Fe::one(), s2: Fe::one(), cur: acc1, op: q2, next: acc2 };
    let ex = fe_mul(&target.x, &acc2.z);
    let ey = fe_mul(&target.y, &acc2.z);
    proof {
        assert(q1.x.val() == affine_of(cp.0).0 && q1.y.val() == affine_of(cp.0).1);
        assert(q2.x.val() == affine_of(cp.1).0 && q2.y.val() == affine_of(cp.1).1);
        assert(target.x.val() == affine_of(cp.2).0 && target.y.val() == affine_of(cp.2).1);
    }
    if !ex.eq_val(&acc2.x) || !ey.eq_val(&acc2.y) {
        assert(closing_mismatch(b3, bits@, *p, *g, *t));
        return Err(KzgError::TargetMismatch);
    }
    assert(!closing_mismatch(b3, bits@, *p, *g, *t));
    let t3 = TraceRow { s1: Fe::zero(), s2: Fe::zero(), cur: acc2, op: target, next: acc2 };
    proof {
        lemma_row_madd(b3, t1);
        lemma_row_madd(b3, t2);
        lemma_row_equality(b3, t3);
        lemma_close(b3, rows@, t1, t2, t3, bits@);
    }
    let ghost ladder_rows = rows@;
    rows.push(t1);
    rows.push(t2);
    rows.push(t3);
    let ir = transpose(&rows);
    proof {
        assert(rows@ == ladder_rows.push(t1).push(t2).push(t3));
        assert forall|j: int| 0 <= j < m && #[trigger] bits@[j] implies rows@[2 * j].op == *p by {
            assert(rows@[2 * j] == ladder_rows[2 * j]);
        }
        assert forall|j: int| 0 <= j < m && !#[trigger] bits@[j] implies rows@[2 * j].op.x.val()
            == 0 && rows@[2 * j].op.y.val() == 0 by {
            assert(rows@[2 * j] == ladder_rows[2 * j]);
        }
        assert forall|j: int| 0 <= j < m - 1 implies (#[trigger] rows@[2 * j + 1]).op.x.val() == 0
            && rows@[2 * j + 1].op.y.val() == 0 by {
            assert(rows@[2 * j + 1] == ladder_rows[2 * j + 1]);
        }
        assert(rows@[2 * m - 2] == ladder_rows[2 * m - 2]);
        lemma_valid(*curve, ir, rows@, bits@, *p, *g, *t);
    }
    Ok(ir)
}

} // verus!
