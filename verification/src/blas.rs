//! Dense linear algebra on row-major matrices with a leading dimension.
use vstd::prelude::*;
use vstd::arithmetic::div_mod::*;
use crate::number;
use crate::number::{filled, Number, Real};
use crate::text::chars_of;
use crate::ways;

verus! {

/// How many inner products one packed panel spans.
pub const KC: usize = 256;

/// How many rows of the result are worked on together.
pub const MC: usize = 128;

/// How many columns of the result one packed panel spans.
pub const NC: usize = 256;

/// Below this many multiplications a product is computed in one pass.
pub const SMALL_FLOPS: usize = 4096;

/// Whether an operand is used as it is stored or transposed.
#[derive(Debug, Clone, Copy, PartialEq, Eq, Structural)]
pub enum Transpose {
    /// The matrix as stored.
    NoTrans,
    /// The transpose of the stored matrix.
    Trans,
}

impl Transpose {
    pub fn is_trans(self) -> (r: bool)
        ensures
            r == (self is Trans),
    {
        match self {
            Transpose::Trans => true,
            Transpose::NoTrans => false,
        }
    }
}

/// The entry `(i, p)` of the operand that is stored in `a` with row stride `ld`.
pub open spec fn op_at<S>(t: Transpose, a: Seq<S>, ld: int, i: int, p: int) -> S {
    if t is Trans {
        a[p * ld + i]
    } else {
        a[i * ld + p]
    }
}

/// How long the storage of a `rows` by `cols` operand must be.
pub open spec fn op_need(t: Transpose, rows: int, cols: int, ld: int) -> int {
    if rows == 0 || cols == 0 {
        0
    } else if t is Trans {
        (cols - 1) * ld + rows
    } else {
        (rows - 1) * ld + cols
    }
}

/// The row of storage position `x`.
pub open spec fn row_of(x: int, ld: int) -> int {
    x / ld
}

/// The column of storage position `x`.
pub open spec fn col_of(x: int, ld: int) -> int {
    x % ld
}

/// Whether storage position `x` lies in rows `r0..r1` and columns `j0..j1`.
pub open spec fn in_block(x: int, ld: int, r0: int, r1: int, j0: int, j1: int) -> bool {
    r0 <= row_of(x, ld) < r1 && j0 <= col_of(x, ld) < j1
}

/// `beta` times the old value, where a zero `beta` clears and a unit `beta` keeps it.
pub open spec fn scaled<S: Number>(c: S, beta: S) -> S {
    if beta.spec_same(S::spec_one()) {
        c
    } else if beta.spec_same(S::spec_zero()) {
        S::spec_zero()
    } else {
        c.spec_times(beta)
    }
}

/// The position of row `r`, column `j` has that row and that column, and no other position has.
pub proof fn lemma_cell(r: int, j: int, ld: int)
    requires
        0 <= j < ld,
        0 <= r,
    ensures
        row_of(r * ld + j, ld) == r,
        col_of(r * ld + j, ld) == j,
        forall|x: int|
            #![trigger row_of(x, ld)]
            #![trigger col_of(x, ld)]
            row_of(x, ld) == r && col_of(x, ld) == j ==> x == r * ld + j,
{
    lemma_fundamental_div_mod_converse(r * ld + j, ld, r, j);
    assert forall|x: int|
        #![trigger row_of(x, ld)]
        #![trigger col_of(x, ld)]
        row_of(x, ld) == r && col_of(x, ld) == j implies x == r * ld + j by {
        lemma_fundamental_div_mod(x, ld);
        assert(ld * r == r * ld) by (nonlinear_arith);
    }
}

/// A row below `m` starts no later than the last one.
pub proof fn lemma_row_fits(i: int, m: int, ld: int)
    requires
        0 <= i < m,
        0 <= ld,
    ensures
        0 <= i * ld <= (m - 1) * ld,
{
    assert(0 <= i * ld <= (m - 1) * ld) by (nonlinear_arith)
        requires
            0 <= i < m,
            0 <= ld,
    ;
}

/// Scales rows `0..m`, columns `0..n` of `c` by `beta`.
#[verifier::loop_isolation(false)]
pub(crate) fn scale_c<S: Number>(c: &mut [S], ldc: usize, m: usize, n: usize, beta: S)
    requires
        0 < n <= ldc,
        0 < m,
        (m - 1) * ldc + n <= old(c)@.len(),
    ensures
        final(c)@.len() == old(c)@.len(),
        forall|x: int|
            0 <= x < final(c)@.len() ==> #[trigger] final(c)@[x] == if in_block(
                x,
                ldc as int,
                0,
                m as int,
                0,
                n as int,
            ) {
                scaled(old(c)@[x], beta)
            } else {
                old(c)@[x]
            },
{
    if beta.same(S::one()) {
        return;
    }
    let len: usize = c.len();
    let clear = beta.same(S::zero());
    for i in 0..m
        invariant
            c@.len() == len,
            forall|x: int|
                0 <= x < len ==> #[trigger] c@[x] == if in_block(
                    x,
                    ldc as int,
                    0,
                    i as int,
                    0,
                    n as int,
                ) {
                    scaled(old(c)@[x], beta)
                } else {
                    old(c)@[x]
                },
    {
        proof {
            lemma_row_fits(i as int, m as int, ldc as int);
        }
        let row: usize = i * ldc;
        for j in 0..n
            invariant
                c@.len() == len,
                forall|x: int|
                    0 <= x < len ==> #[trigger] c@[x] == if in_block(
                        x,
                        ldc as int,
                        0,
                        i as int,
                        0,
                        n as int,
                    ) || in_block(x, ldc as int, i as int, i + 1, 0, j as int) {
                        scaled(old(c)@[x], beta)
                    } else {
                        old(c)@[x]
                    },
        {
            proof {
                lemma_cell(i as int, j as int, ldc as int);
            }
            let v = if clear {
                S::zero()
            } else {
                c[row + j].times(beta)
            };
            c[row + j] = v;
        }
    }
}

/// The operand as a function from row and column to entry.
pub open spec fn operand<S>(t: Transpose, a: Seq<S>, ld: int) -> spec_fn(int, int) -> S {
    |i: int, p: int| op_at(t, a, ld, i, p)
}

/// Entry `(i, p)` of an operand with `rows` rows and `cols` columns.
fn load<S: Number>(
    t: Transpose,
    a: &[S],
    ld: usize,
    i: usize,
    p: usize,
    Ghost(rows): Ghost<int>,
    Ghost(cols): Ghost<int>,
) -> (r: S)
    requires
        i < rows,
        p < cols,
        op_need(t, rows, cols, ld as int) <= a@.len(),
    ensures
        r == op_at(t, a@, ld as int, i as int, p as int),
{
    let len: usize = a.len();
    if t.is_trans() {
        proof {
            lemma_row_fits(p as int, cols, ld as int);
        }
        a[p * ld + i]
    } else {
        proof {
            lemma_row_fits(i as int, rows, ld as int);
        }
        a[i * ld + p]
    }
}

/// The start value plus the first `p` products of row `i` and column `j`, in order, where
/// a zero factor of the left operand is passed over.
pub open spec fn small_acc<S: Number>(
    alpha: S,
    a: spec_fn(int, int) -> S,
    b: spec_fn(int, int) -> S,
    c0: S,
    i: int,
    j: int,
    p: int,
) -> S
    decreases p,
{
    if p <= 0 {
        c0
    } else {
        let prev = small_acc(alpha, a, b, c0, i, j, p - 1);
        if a(i, p - 1).spec_same(S::spec_zero()) {
            prev
        } else {
            prev.spec_plus(alpha.spec_times(a(i, p - 1)).spec_times(b(p - 1, j)))
        }
    }
}

/// Product in one pass, row by row.
#[verifier::loop_isolation(false)]
fn gemm_small<S: Number>(
    transa: Transpose,
    transb: Transpose,
    m: usize,
    n: usize,
    k: usize,
    alpha: S,
    a: &[S],
    lda: usize,
    b: &[S],
    ldb: usize,
    beta: S,
    c: &mut [S],
    ldc: usize,
)
    requires
        0 < n <= ldc,
        0 < m,
        (m - 1) * ldc + n <= old(c)@.len(),
        op_need(transa, m as int, k as int, lda as int) <= a@.len(),
        op_need(transb, k as int, n as int, ldb as int) <= b@.len(),
    ensures
        final(c)@.len() == old(c)@.len(),
        forall|x: int|
            0 <= x < final(c)@.len() ==> #[trigger] final(c)@[x] == if in_block(
                x,
                ldc as int,
                0,
                m as int,
                0,
                n as int,
            ) {
                small_acc(
                    alpha,
                    operand(transa, a@, lda as int),
                    operand(transb, b@, ldb as int),
                    scaled(old(c)@[x], beta),
                    row_of(x, ldc as int),
                    col_of(x, ldc as int),
                    k as int,
                )
            } else {
                old(c)@[x]
            },
{
    let len: usize = c.len();
    let ghost ld = ldc as int;
    let ghost aa = operand(transa, a@, lda as int);
    let ghost bb = operand(transb, b@, ldb as int);
    let ghost start = Seq::new(len as nat, |x: int| scaled(c@[x], beta));
    scale_c(c, ldc, m, n, beta);
    for i in 0..m
        invariant
            c@.len() == len,
            forall|x: int|
                0 <= x < len ==> #[trigger] c@[x] == if in_block(x, ld, 0, i as int, 0, n as int) {
                    small_acc(alpha, aa, bb, start[x], row_of(x, ld), col_of(x, ld), k as int)
                } else if in_block(x, ld, i as int, m as int, 0, n as int) {
                    start[x]
                } else {
                    old(c)@[x]
                },
    {
        proof {
            lemma_row_fits(i as int, m as int, ldc as int);
        }
        let row: usize = i * ldc;
        for p in 0..k
            invariant
                c@.len() == len,
                forall|x: int|
                    0 <= x < len ==> #[trigger] c@[x] == if in_block(
                        x,
                        ld,
                        0,
                        i as int,
                        0,
                        n as int,
                    ) {
                        small_acc(alpha, aa, bb, start[x], row_of(x, ld), col_of(x, ld), k as int)
                    } else if in_block(x, ld, i as int, i + 1, 0, n as int) {
                        small_acc(alpha, aa, bb, start[x], i as int, col_of(x, ld), p as int)
                    } else if in_block(x, ld, i as int, m as int, 0, n as int) {
                        start[x]
                    } else {
                        old(c)@[x]
                    },
        {
            let av = load(transa, a, lda, i, p, Ghost(m as int), Ghost(k as int));
            assert(av == aa(i as int, p as int));
            if !av.same(S::zero()) {
                let aav = alpha.times(av);
                for j in 0..n
                    invariant
                        c@.len() == len,
                        forall|x: int|
                            0 <= x < len ==> #[trigger] c@[x] == if in_block(
                                x,
                                ld,
                                0,
                                i as int,
                                0,
                                n as int,
                            ) {
                                small_acc(
                                    alpha,
                                    aa,
                                    bb,
                                    start[x],
                                    row_of(x, ld),
                                    col_of(x, ld),
                                    k as int,
                                )
                            } else if in_block(x, ld, i as int, i + 1, 0, j as int) {
                                small_acc(alpha, aa, bb, start[x], i as int, col_of(x, ld), p + 1)
                            } else if in_block(x, ld, i as int, i + 1, j as int, n as int) {
                                small_acc(
                                    alpha,
                                    aa,
                                    bb,
                                    start[x],
                                    i as int,
                                    col_of(x, ld),
                                    p as int,
                                )
                            } else if in_block(x, ld, i as int, m as int, 0, n as int) {
                                start[x]
                            } else {
                                old(c)@[x]
                            },
                {
                    proof {
                        lemma_cell(i as int, j as int, ld);
                    }
                    let bv = load(transb, b, ldb, p, j, Ghost(k as int), Ghost(n as int));
                    assert(bv == bb(p as int, j as int));
                    let v = c[row + j].plus(aav.times(bv));
                    c[row + j] = v;
                }
            }
        }
    }
}

/// Packs rows `ii..ii + mb`, columns `kk..kk + kb` of the left operand, row after row.
#[verifier::loop_isolation(false)]
fn pack_a<S: Number>(
    transa: Transpose,
    a: &[S],
    lda: usize,
    ii: usize,
    mb: usize,
    kk: usize,
    kb: usize,
    out: &mut [S],
    Ghost(m): Ghost<int>,
    Ghost(k): Ghost<int>,
)
    requires
        0 < kb,
        ii + mb <= m,
        kk + kb <= k,
        m <= usize::MAX,
        k <= usize::MAX,
        op_need(transa, m, k, lda as int) <= a@.len(),
        mb * kb <= old(out)@.len(),
    ensures
        final(out)@.len() == old(out)@.len(),
        forall|x: int|
            0 <= x < mb * kb ==> #[trigger] final(out)@[x] == operand(transa, a@, lda as int)(
                ii + row_of(x, kb as int),
                kk + col_of(x, kb as int),
            ),
{
    let len: usize = out.len();
    let ghost aa = operand(transa, a@, lda as int);
    assert(0 * kb == 0) by (nonlinear_arith);
    for i in 0..mb
        invariant
            out@.len() == len,
            forall|x: int|
                0 <= x < i * kb ==> #[trigger] out@[x] == aa(
                    ii + row_of(x, kb as int),
                    kk + col_of(x, kb as int),
                ),
    {
        proof {
            lemma_row_fits(i as int, mb as int, kb as int);
            assert((mb - 1) * kb + kb == mb * kb) by (nonlinear_arith);
        }
        let dst: usize = i * kb;
        for p in 0..kb
            invariant
                out@.len() == len,
                forall|x: int|
                    0 <= x < i * kb + p ==> #[trigger] out@[x] == aa(
                        ii + row_of(x, kb as int),
                        kk + col_of(x, kb as int),
                    ),
        {
            proof {
                lemma_cell(i as int, p as int, kb as int);
            }
            let v = load(transa, a, lda, ii + i, kk + p, Ghost(m), Ghost(k));
            out[dst + p] = v;
        }
        assert(i * kb + kb == (i + 1) * kb) by (nonlinear_arith);
    }
}

/// An entry of the right operand as it stands in a packed panel.
pub open spec fn packed<S: Number>(t: Transpose, alpha: S, b: S) -> S {
    if t is NoTrans && alpha.spec_same(S::spec_one()) {
        b
    } else {
        alpha.spec_times(b)
    }
}

/// Packs rows `kk..kk + kb`, columns `jj..jj + nb` of the right operand times `alpha`, row
/// after row.
#[verifier::loop_isolation(false)]
fn pack_b<S: Number>(
    transb: Transpose,
    b: &[S],
    ldb: usize,
    kk: usize,
    kb: usize,
    jj: usize,
    nb: usize,
    alpha: S,
    out: &mut [S],
    Ghost(k): Ghost<int>,
    Ghost(n): Ghost<int>,
)
    requires
        0 < nb,
        kk + kb <= k,
        jj + nb <= n,
        k <= usize::MAX,
        n <= usize::MAX,
        op_need(transb, k, n, ldb as int) <= b@.len(),
        kb * nb <= old(out)@.len(),
    ensures
        final(out)@.len() == old(out)@.len(),
        forall|x: int|
            0 <= x < kb * nb ==> #[trigger] final(out)@[x] == packed(
                transb,
                alpha,
                operand(transb, b@, ldb as int)(
                    kk + row_of(x, nb as int),
                    jj + col_of(x, nb as int),
                ),
            ),
{
    let len: usize = out.len();
    let ghost bb = operand(transb, b@, ldb as int);
    let keep = !transb.is_trans() && alpha.same(S::one());
    assert(0 * nb == 0) by (nonlinear_arith);
    for p in 0..kb
        invariant
            out@.len() == len,
            forall|x: int|
                0 <= x < p * nb ==> #[trigger] out@[x] == packed(
                    transb,
                    alpha,
                    bb(kk + row_of(x, nb as int), jj + col_of(x, nb as int)),
                ),
    {
        proof {
            lemma_row_fits(p as int, kb as int, nb as int);
            assert((kb - 1) * nb + nb == kb * nb) by (nonlinear_arith);
        }
        let dst: usize = p * nb;
        for t in 0..nb
            invariant
                out@.len() == len,
                forall|x: int|
                    0 <= x < p * nb + t ==> #[trigger] out@[x] == packed(
                        transb,
                        alpha,
                        bb(kk + row_of(x, nb as int), jj + col_of(x, nb as int)),
                    ),
        {
            proof {
                lemma_cell(p as int, t as int, nb as int);
            }
            let v = load(transb, b, ldb, kk + p, jj + t, Ghost(k), Ghost(n));
            out[dst + t] = if keep {
                v
            } else {
                alpha.times(v)
            };
        }
        assert(p * nb + nb == (p + 1) * nb) by (nonlinear_arith);
    }
}

/// The products `lo..hi` of row `i` and column `j`, summed from zero in order, with the
/// right factor packed.
pub open spec fn panel_sum<S: Number>(
    tb: Transpose,
    alpha: S,
    a: spec_fn(int, int) -> S,
    b: spec_fn(int, int) -> S,
    i: int,
    j: int,
    lo: int,
    hi: int,
) -> S
    decreases hi - lo,
{
    if hi <= lo {
        S::spec_zero()
    } else {
        panel_sum(tb, alpha, a, b, i, j, lo, hi - 1).spec_plus(
            a(i, hi - 1).spec_times(packed(tb, alpha, b(hi - 1, j))),
        )
    }
}

/// Adds the product of two packed panels to rows `r0..r0 + mb`, columns `jj..jj + nb` of `c`.
#[verifier::loop_isolation(false)]
fn kernel_scalar<S: Number>(
    mb: usize,
    kb: usize,
    nb: usize,
    a_packed: &[S],
    b_packed: &[S],
    c: &mut [S],
    ldc: usize,
    r0: usize,
    jj: usize,
    Ghost(tb): Ghost<Transpose>,
    Ghost(alpha): Ghost<S>,
    Ghost(aa): Ghost<spec_fn(int, int) -> S>,
    Ghost(bb): Ghost<spec_fn(int, int) -> S>,
    Ghost(kk): Ghost<int>,
    Ghost(m): Ghost<int>,
)
    requires
        0 < kb,
        0 < nb,
        jj + nb <= ldc,
        r0 + mb <= m,
        m <= usize::MAX,
        (m - 1) * ldc + jj + nb <= old(c)@.len(),
        mb * kb <= a_packed@.len(),
        kb * nb <= b_packed@.len(),
        forall|x: int|
            0 <= x < mb * kb ==> #[trigger] a_packed@[x] == aa(
                r0 + row_of(x, kb as int),
                kk + col_of(x, kb as int),
            ),
        forall|x: int|
            0 <= x < kb * nb ==> #[trigger] b_packed@[x] == packed(
                tb,
                alpha,
                bb(kk + row_of(x, nb as int), jj + col_of(x, nb as int)),
            ),
    ensures
        final(c)@.len() == old(c)@.len(),
        forall|x: int|
            0 <= x < final(c)@.len() ==> #[trigger] final(c)@[x] == if in_block(
                x,
                ldc as int,
                r0 as int,
                r0 + mb,
                jj as int,
                jj + nb,
            ) {
                old(c)@[x].spec_plus(
                    panel_sum(
                        tb,
                        alpha,
                        aa,
                        bb,
                        row_of(x, ldc as int),
                        col_of(x, ldc as int),
                        kk,
                        kk + kb,
                    ),
                )
            } else {
                old(c)@[x]
            },
{
    let len: usize = c.len();
    let alen: usize = a_packed.len();
    let blen: usize = b_packed.len();
    let ghost ld = ldc as int;
    for i in 0..mb
        invariant
            c@.len() == len,
            forall|x: int|
                0 <= x < len ==> #[trigger] c@[x] == if in_block(
                    x,
                    ld,
                    r0 as int,
                    r0 + i,
                    jj as int,
                    jj + nb,
                ) {
                    old(c)@[x].spec_plus(
                        panel_sum(
                            tb,
                            alpha,
                            aa,
                            bb,
                            row_of(x, ld),
                            col_of(x, ld),
                            kk,
                            kk + kb,
                        ),
                    )
                } else {
                    old(c)@[x]
                },
    {
        proof {
            lemma_row_fits(r0 + i, m, ld);
            lemma_row_fits(i as int, mb as int, kb as int);
            assert((mb - 1) * kb + kb == mb * kb) by (nonlinear_arith);
        }
        let arow: usize = i * kb;
        let row: usize = (r0 + i) * ldc;
        for t in 0..nb
            invariant
                c@.len() == len,
                forall|x: int|
                    0 <= x < len ==> #[trigger] c@[x] == if in_block(
                        x,
                        ld,
                        r0 as int,
                        r0 + i,
                        jj as int,
                        jj + nb,
                    ) || in_block(x, ld, r0 + i, r0 + i + 1, jj as int, jj + t) {
                        old(c)@[x].spec_plus(
                            panel_sum(
                                tb,
                                alpha,
                                aa,
                                bb,
                                row_of(x, ld),
                                col_of(x, ld),
                                kk,
                                kk + kb,
                            ),
                        )
                    } else {
                        old(c)@[x]
                    },
        {
            let mut sum = S::zero();
            for p in 0..kb
                invariant
                    sum == panel_sum(tb, alpha, aa, bb, r0 + i, jj + t, kk, kk + p),
            {
                proof {
                    lemma_cell(i as int, p as int, kb as int);
                    lemma_cell(p as int, t as int, nb as int);
                    lemma_row_fits(p as int, kb as int, nb as int);
                    assert((kb - 1) * nb + nb == kb * nb) by (nonlinear_arith);
                }
                sum = sum.plus(a_packed[arow + p].times(b_packed[p * nb + t]));
            }
            proof {
                lemma_cell(r0 + i, jj + t, ld);
            }
            let v = c[row + (jj + t)].plus(sum);
            c[row + (jj + t)] = v;
        }
    }
}

/// The start value plus the sums of the first `q` panels of `KC` products each.
pub open spec fn blocked_acc<S: Number>(
    tb: Transpose,
    alpha: S,
    a: spec_fn(int, int) -> S,
    b: spec_fn(int, int) -> S,
    k: int,
    c0: S,
    i: int,
    j: int,
    q: int,
) -> S
    decreases q,
{
    if q <= 0 {
        c0
    } else {
        blocked_acc(tb, alpha, a, b, k, c0, i, j, q - 1).spec_plus(
            panel_sum(
                tb,
                alpha,
                a,
                b,
                i,
                j,
                (q - 1) * KC,
                if q * KC <= k {
                    q * KC
                } else {
                    k
                },
            ),
        )
    }
}

/// How many panels `k` products fill.
pub open spec fn panels(k: int) -> int {
    (k + KC - 1) / KC as int
}

/// Product by packed panels: blocks of rows, then panels of products, then blocks of columns.
#[verifier::loop_isolation(false)]
fn gemm_blocked<S: Number>(
    transa: Transpose,
    transb: Transpose,
    m: usize,
    n: usize,
    k: usize,
    alpha: S,
    a: &[S],
    lda: usize,
    b: &[S],
    ldb: usize,
    beta: S,
    c: &mut [S],
    ldc: usize,
)
    requires
        0 < n <= ldc,
        0 < m,
        0 < k,
        (m - 1) * ldc + n <= old(c)@.len(),
        op_need(transa, m as int, k as int, lda as int) <= a@.len(),
        op_need(transb, k as int, n as int, ldb as int) <= b@.len(),
    ensures
        final(c)@.len() == old(c)@.len(),
        forall|x: int|
            0 <= x < final(c)@.len() ==> #[trigger] final(c)@[x] == if in_block(
                x,
                ldc as int,
                0,
                m as int,
                0,
                n as int,
            ) {
                blocked_acc(
                    transb,
                    alpha,
                    operand(transa, a@, lda as int),
                    operand(transb, b@, ldb as int),
                    k as int,
                    scaled(old(c)@[x], beta),
                    row_of(x, ldc as int),
                    col_of(x, ldc as int),
                    panels(k as int),
                )
            } else {
                old(c)@[x]
            },
{
    let len: usize = c.len();
    let ghost ld = ldc as int;
    let ghost aa = operand(transa, a@, lda as int);
    let ghost bb = operand(transb, b@, ldb as int);
    let ghost kn = k as int;
    scale_c(c, ldc, m, n, beta);
    let ghost start = c@;
    let rows: usize = if m < MC {
        m
    } else {
        MC
    };
    let cols: usize = if n < NC {
        n
    } else {
        NC
    };
    assert(rows * KC <= MC * KC) by (nonlinear_arith)
        requires
            rows <= MC,
    ;
    assert(KC * cols <= KC * NC) by (nonlinear_arith)
        requires
            cols <= NC,
    ;
    let mut buf_a: Vec<S> = filled(S::zero(), rows * KC);
    let mut buf_b: Vec<S> = filled(S::zero(), KC * cols);
    let mut ii: usize = 0;
    while ii < m
        invariant
            c@.len() == len,
            buf_a@.len() == rows * KC,
            buf_b@.len() == KC * cols,
            forall|x: int|
                0 <= x < len ==> #[trigger] c@[x] == if in_block(x, ld, 0, ii as int, 0, n as int)
                    && row_of(x, ld) < m {
                    blocked_acc(
                        transb,
                        alpha,
                        aa,
                        bb,
                        kn,
                        start[x],
                        row_of(x, ld),
                        col_of(x, ld),
                        panels(kn),
                    )
                } else {
                    start[x]
                },
        decreases m - ii,
    {
        let mb: usize = if m - ii < MC {
            m - ii
        } else {
            MC
        };
        let ghost mut q: int = 0;
        let mut kk: usize = 0;
        while kk < k
            invariant
                c@.len() == len,
                buf_a@.len() == rows * KC,
                buf_b@.len() == KC * cols,
                0 <= q <= panels(kn),
                kk == (if q * KC <= k { q * KC } else { kn }),
                forall|x: int|
                    0 <= x < len ==> #[trigger] c@[x] == if in_block(
                        x,
                        ld,
                        0,
                        ii as int,
                        0,
                        n as int,
                    ) {
                        blocked_acc(
                            transb,
                            alpha,
                            aa,
                            bb,
                            kn,
                            start[x],
                            row_of(x, ld),
                            col_of(x, ld),
                            panels(kn),
                        )
                    } else if in_block(x, ld, ii as int, ii + mb, 0, n as int) {
                        blocked_acc(
                            transb,
                            alpha,
                            aa,
                            bb,
                            kn,
                            start[x],
                            row_of(x, ld),
                            col_of(x, ld),
                            q,
                        )
                    } else {
                        start[x]
                    },
            decreases k - kk,
        {
            let kb: usize = if k - kk < KC {
                k - kk
            } else {
                KC
            };
            assert(mb * kb <= rows * KC) by (nonlinear_arith)
                requires
                    mb <= rows,
                    kb <= KC,
            ;
            pack_a(transa, a, lda, ii, mb, kk, kb, &mut buf_a, Ghost(m as int), Ghost(k as int));
            let mut jj: usize = 0;
            while jj < n
                invariant
                    c@.len() == len,
                    buf_b@.len() == KC * cols,
                    jj <= n,
                    forall|x: int|
                        0 <= x < len ==> #[trigger] c@[x] == if in_block(
                            x,
                            ld,
                            0,
                            ii as int,
                            0,
                            n as int,
                        ) {
                            blocked_acc(
                                transb,
                                alpha,
                                aa,
                                bb,
                                kn,
                                start[x],
                                row_of(x, ld),
                                col_of(x, ld),
                                panels(kn),
                            )
                        } else if in_block(x, ld, ii as int, ii + mb, 0, jj as int) {
                            blocked_acc(
                                transb,
                                alpha,
                                aa,
                                bb,
                                kn,
                                start[x],
                                row_of(x, ld),
                                col_of(x, ld),
                                q + 1,
                            )
                        } else if in_block(x, ld, ii as int, ii + mb, jj as int, n as int) {
                            blocked_acc(
                                transb,
                                alpha,
                                aa,
                                bb,
                                kn,
                                start[x],
                                row_of(x, ld),
                                col_of(x, ld),
                                q,
                            )
                        } else {
                            start[x]
                        },
                decreases n - jj,
            {
                let nb: usize = if n - jj < NC {
                    n - jj
                } else {
                    NC
                };
                assert(kb * nb <= KC * cols) by (nonlinear_arith)
                    requires
                        kb <= KC,
                        nb <= cols,
                ;
                pack_b(
                    transb,
                    b,
                    ldb,
                    kk,
                    kb,
                    jj,
                    nb,
                    alpha,
                    &mut buf_b,
                    Ghost(k as int),
                    Ghost(n as int),
                );
                kernel_scalar(
                    mb,
                    kb,
                    nb,
                    &buf_a,
                    &buf_b,
                    c,
                    ldc,
                    ii,
                    jj,
                    Ghost(transb),
                    Ghost(alpha),
                    Ghost(aa),
                    Ghost(bb),
                    Ghost(kk as int),
                    Ghost(m as int),
                );
                jj += nb;
            }
            kk += kb;
            proof {
                q = q + 1;
            }
        }
        ii += mb;
    }
}

/// One entry of `alpha * A * B + beta * C`, in the order in which it is computed.
pub open spec fn gemm_entry<S: Number>(
    tb: Transpose,
    m: int,
    n: int,
    k: int,
    alpha: S,
    a: spec_fn(int, int) -> S,
    b: spec_fn(int, int) -> S,
    beta: S,
    c0: S,
    i: int,
    j: int,
) -> S {
    if k == 0 || alpha.spec_same(S::spec_zero()) {
        scaled(c0, beta)
    } else if m * n * k < SMALL_FLOPS {
        small_acc(alpha, a, b, scaled(c0, beta), i, j, k)
    } else {
        blocked_acc(tb, alpha, a, b, k, scaled(c0, beta), i, j, panels(k))
    }
}

/// Whether a product takes few multiplications; their number need not fit the machine.
fn is_small(m: usize, n: usize, k: usize) -> (r: bool)
    requires
        0 < m,
        0 < n,
        0 < k,
    ensures
        r == (m * n * k < SMALL_FLOPS),
{
    let area: usize = match m.checked_mul(n) {
        Some(p) => p,
        None => {
            assert(m * n <= m * n * k) by (nonlinear_arith)
                requires
                    0 < m,
                    0 < n,
                    0 < k,
            ;
            return false;
        },
    };
    match area.checked_mul(k) {
        Some(p) => p < SMALL_FLOPS,
        None => false,
    }
}

/// General matrix product: `C = alpha * op(A) * op(B) + beta * C`.
///
/// `op(A)` has `m` rows and `k` columns, `op(B)` has `k` rows and `n` columns. A matrix is
/// stored row after row with its own row stride; what lies between the rows of `C` is kept.
pub fn sgemm<S: Number>(
    transa: Transpose,
    transb: Transpose,
    m: usize,
    n: usize,
    k: usize,
    alpha: S,
    a: &[S],
    lda: usize,
    b: &[S],
    ldb: usize,
    beta: S,
    c: &mut [S],
    ldc: usize,
)
    requires
        op_need(transa, m as int, k as int, lda as int) <= a@.len(),
        op_need(transb, k as int, n as int, ldb as int) <= b@.len(),
        op_need(Transpose::NoTrans, m as int, n as int, ldc as int) <= old(c)@.len(),
        n <= ldc,
    ensures
        final(c)@.len() == old(c)@.len(),
        forall|x: int|
            0 <= x < final(c)@.len() ==> #[trigger] final(c)@[x] == if in_block(
                x,
                ldc as int,
                0,
                m as int,
                0,
                n as int,
            ) {
                gemm_entry(
                    transb,
                    m as int,
                    n as int,
                    k as int,
                    alpha,
                    operand(transa, a@, lda as int),
                    operand(transb, b@, ldb as int),
                    beta,
                    old(c)@[x],
                    row_of(x, ldc as int),
                    col_of(x, ldc as int),
                )
            } else {
                old(c)@[x]
            },
{
    if m == 0 || n == 0 {
        return;
    }
    if k == 0 || alpha.same(S::zero()) {
        scale_c(c, ldc, m, n, beta);
        return;
    }
    if is_small(m, n, k) {
        gemm_small(transa, transb, m, n, k, alpha, a, lda, b, ldb, beta, c, ldc);
    } else {
        gemm_blocked(transa, transb, m, n, k, alpha, a, lda, b, ldb, beta, c, ldc);
    }
}

/// How long a vector of `n` elements with stride `inc` must be.
pub open spec fn vec_need(n: int, inc: int) -> int {
    if n == 0 {
        0
    } else {
        (n - 1) * inc + 1
    }
}

/// The first `n` products of two strided vectors, summed from zero in order.
pub open spec fn dot_acc<S: Number>(x: Seq<S>, incx: int, y: Seq<S>, incy: int, n: int) -> S
    decreases n,
{
    if n <= 0 {
        S::spec_zero()
    } else {
        dot_acc(x, incx, y, incy, n - 1).spec_plus(
            x[(n - 1) * incx].spec_times(y[(n - 1) * incy]),
        )
    }
}

/// Inner product of two strided vectors.
#[verifier::loop_isolation(false)]
pub fn sdot<S: Number>(n: usize, x: &[S], incx: usize, y: &[S], incy: usize) -> (r: S)
    requires
        vec_need(n as int, incx as int) <= x@.len(),
        vec_need(n as int, incy as int) <= y@.len(),
    ensures
        r == dot_acc(x@, incx as int, y@, incy as int, n as int),
{
    let xlen: usize = x.len();
    let ylen: usize = y.len();
    let mut sum = S::zero();
    for i in 0..n
        invariant
            sum == dot_acc(x@, incx as int, y@, incy as int, i as int),
    {
        proof {
            lemma_row_fits(i as int, n as int, incx as int);
            lemma_row_fits(i as int, n as int, incy as int);
        }
        sum = sum.plus(x[i * incx].times(y[i * incy]));
    }
    sum
}

/// `y = alpha * x + y` on the first `n` elements.
pub fn saxpy<S: Number>(n: usize, alpha: S, x: &[S], y: &mut [S])
    requires
        n <= x@.len(),
        n <= old(y)@.len(),
    ensures
        final(y)@ == Seq::new(
            old(y)@.len(),
            |i: int|
                if i < n {
                    old(y)@[i].spec_plus(alpha.spec_times(x@[i]))
                } else {
                    old(y)@[i]
                },
        ),
{
    for i in 0..n
        invariant
            n <= x@.len(),
            n <= y@.len(),
            y@ =~= Seq::new(
                old(y)@.len(),
                |j: int|
                    if j < i {
                        old(y)@[j].spec_plus(alpha.spec_times(x@[j]))
                    } else {
                        old(y)@[j]
                    },
            ),
    {
        let v = y[i].plus(alpha.times(x[i]));
        y[i] = v;
    }
}

/// `x = alpha * x` on the first `n` elements.
pub fn sscal<S: Number>(n: usize, alpha: S, x: &mut [S])
    requires
        n <= old(x)@.len(),
    ensures
        final(x)@ == Seq::new(
            old(x)@.len(),
            |i: int|
                if i < n {
                    old(x)@[i].spec_times(alpha)
                } else {
                    old(x)@[i]
                },
        ),
{
    for i in 0..n
        invariant
            n <= x@.len(),
            x@ =~= Seq::new(
                old(x)@.len(),
                |j: int|
                    if j < i {
                        old(x)@[j].spec_times(alpha)
                    } else {
                        old(x)@[j]
                    },
            ),
    {
        let v = x[i].times(alpha);
        x[i] = v;
    }
}

/// Copies the first `n` elements of `x` to `y`.
pub fn scopy<S: Number>(n: usize, x: &[S], y: &mut [S])
    requires
        n <= x@.len(),
        n <= old(y)@.len(),
    ensures
        final(y)@ == x@.take(n as int) + old(y)@.skip(n as int),
{
    for i in 0..n
        invariant
            n <= x@.len(),
            n <= y@.len(),
            y@ =~= Seq::new(
                old(y)@.len(),
                |j: int|
                    if j < i {
                        x@[j]
                    } else {
                        old(y)@[j]
                    },
            ),
    {
        y[i] = x[i];
    }
    assert(y@ =~= x@.take(n as int) + old(y)@.skip(n as int));
}

/// The start value plus the first `i` products of a column and a strided vector, in order.
pub open spec fn gemvt_acc<S: Number>(
    alpha: S,
    a: Seq<S>,
    lda: int,
    x: Seq<S>,
    incx: int,
    y0: S,
    p: int,
    i: int,
) -> S
    decreases i,
{
    if i <= 0 {
        y0
    } else {
        gemvt_acc(alpha, a, lda, x, incx, y0, p, i - 1).spec_plus(
            alpha.spec_times(x[(i - 1) * incx]).spec_times(a[(i - 1) * lda + p]),
        )
    }
}

/// The row `i` of a matrix times a strided vector, summed from zero in order.
pub open spec fn gemv_acc<S: Number>(a: Seq<S>, lda: int, x: Seq<S>, incx: int, i: int, p: int) -> S
    decreases p,
{
    if p <= 0 {
        S::spec_zero()
    } else {
        gemv_acc(a, lda, x, incx, i, p - 1).spec_plus(
            a[i * lda + (p - 1)].spec_times(x[(p - 1) * incx]),
        )
    }
}

/// One element of `alpha * op(A) * x + beta * y`, in the order in which it is computed.
pub open spec fn gemv_entry<S: Number>(
    t: Transpose,
    m: int,
    k: int,
    alpha: S,
    a: Seq<S>,
    lda: int,
    x: Seq<S>,
    incx: int,
    beta: S,
    y0: S,
    i: int,
) -> S {
    if t is Trans {
        if alpha.spec_same(S::spec_zero()) {
            scaled(y0, beta)
        } else {
            gemvt_acc(alpha, a, lda, x, incx, scaled(y0, beta), i, m)
        }
    } else if beta.spec_same(S::spec_zero()) {
        alpha.spec_times(gemv_acc(a, lda, x, incx, i, k))
    } else {
        alpha.spec_times(gemv_acc(a, lda, x, incx, i, k)).spec_plus(beta.spec_times(y0))
    }
}

/// Matrix times vector: `y = alpha * op(A) * x + beta * y`.
///
/// `A` is stored with `m` rows and `k` columns; transposed, `x` has `m` and `y` has `k`
/// elements.
#[verifier::loop_isolation(false)]
pub fn sgemv<S: Number>(
    trans: Transpose,
    m: usize,
    k: usize,
    alpha: S,
    a: &[S],
    lda: usize,
    x: &[S],
    incx: usize,
    beta: S,
    y: &mut [S],
    incy: usize,
)
    requires
        op_need(Transpose::NoTrans, m as int, k as int, lda as int) <= a@.len(),
        vec_need(if trans is Trans { m as int } else { k as int }, incx as int) <= x@.len(),
        vec_need(if trans is Trans { k as int } else { m as int }, incy as int) <= old(y)@.len(),
        0 < incy,
    ensures
        final(y)@.len() == old(y)@.len(),
        forall|z: int|
            0 <= z < final(y)@.len() ==> #[trigger] final(y)@[z] == if in_block(
                z,
                incy as int,
                0,
                if trans is Trans {
                    k as int
                } else {
                    m as int
                },
                0,
                1,
            ) {
                gemv_entry(
                    trans,
                    m as int,
                    k as int,
                    alpha,
                    a@,
                    lda as int,
                    x@,
                    incx as int,
                    beta,
                    old(y)@[z],
                    row_of(z, incy as int),
                )
            } else {
                old(y)@[z]
            },
{
    let alen: usize = a.len();
    let xlen: usize = x.len();
    let ylen: usize = y.len();
    let ghost inc = incy as int;
    if !trans.is_trans() {
        for i in 0..m
            invariant
                y@.len() == ylen,
                forall|z: int|
                    0 <= z < ylen ==> #[trigger] y@[z] == if in_block(z, inc, 0, i as int, 0, 1) {
                        gemv_entry(
                            trans,
                            m as int,
                            k as int,
                            alpha,
                            a@,
                            lda as int,
                            x@,
                            incx as int,
                            beta,
                            old(y)@[z],
                            row_of(z, inc),
                        )
                    } else {
                        old(y)@[z]
                    },
        {
            let mut sum = S::zero();
            for p in 0..k
                invariant
                    sum == gemv_acc(a@, lda as int, x@, incx as int, i as int, p as int),
            {
                proof {
                    lemma_row_fits(i as int, m as int, lda as int);
                    lemma_row_fits(p as int, k as int, incx as int);
                }
                sum = sum.plus(a[i * lda + p].times(x[p * incx]));
            }
            proof {
                lemma_row_fits(i as int, m as int, inc);
                lemma_cell(i as int, 0, inc);
            }
            let idx: usize = i * incy;
            let v = if beta.same(S::zero()) {
                alpha.times(sum)
            } else {
                alpha.times(sum).plus(beta.times(y[idx]))
            };
            y[idx] = v;
        }
    } else if k > 0 {
        scale_c(y, incy, k, 1, beta);
        let ghost start = y@;
        if !alpha.same(S::zero()) {
            for i in 0..m
                invariant
                    y@.len() == ylen,
                    forall|z: int|
                        0 <= z < ylen ==> #[trigger] y@[z] == if in_block(
                            z,
                            inc,
                            0,
                            k as int,
                            0,
                            1,
                        ) {
                            gemvt_acc(
                                alpha,
                                a@,
                                lda as int,
                                x@,
                                incx as int,
                                start[z],
                                row_of(z, inc),
                                i as int,
                            )
                        } else {
                            old(y)@[z]
                        },
            {
                proof {
                    lemma_row_fits(i as int, m as int, lda as int);
                    lemma_row_fits(i as int, m as int, incx as int);
                }
                let row: usize = i * lda;
                let xi = alpha.times(x[i * incx]);
                for p in 0..k
                    invariant
                        y@.len() == ylen,
                        forall|z: int|
                            0 <= z < ylen ==> #[trigger] y@[z] == if in_block(
                                z,
                                inc,
                                0,
                                p as int,
                                0,
                                1,
                            ) {
                                gemvt_acc(
                                    alpha,
                                    a@,
                                    lda as int,
                                    x@,
                                    incx as int,
                                    start[z],
                                    row_of(z, inc),
                                    i + 1,
                                )
                            } else if in_block(z, inc, p as int, k as int, 0, 1) {
                                gemvt_acc(
                                    alpha,
                                    a@,
                                    lda as int,
                                    x@,
                                    incx as int,
                                    start[z],
                                    row_of(z, inc),
                                    i as int,
                                )
                            } else {
                                old(y)@[z]
                            },
                {
                    proof {
                        lemma_row_fits(p as int, k as int, inc);
                        lemma_cell(p as int, 0, inc);
                    }
                    let idx: usize = p * incy;
                    let v = y[idx].plus(xi.times(a[row + p]));
                    y[idx] = v;
                }
            }
        }
    }
}

/// `C = A * B` for contiguous matrices of `m` by `k` and `k` by `n` entries.
pub fn matmul<S: Number>(a: &[S], b: &[S], c: &mut [S], m: usize, k: usize, n: usize)
    requires
        m * k <= a@.len(),
        k * n <= b@.len(),
        m * n <= old(c)@.len(),
    ensures
        final(c)@.len() == old(c)@.len(),
        forall|x: int|
            0 <= x < m * n ==> #[trigger] final(c)@[x] == gemm_entry(
                Transpose::NoTrans,
                m as int,
                n as int,
                k as int,
                S::spec_one(),
                operand(Transpose::NoTrans, a@, k as int),
                operand(Transpose::NoTrans, b@, n as int),
                S::spec_zero(),
                old(c)@[x],
                row_of(x, n as int),
                col_of(x, n as int),
            ),
        forall|x: int| m * n <= x < final(c)@.len() ==> #[trigger] final(c)@[x] == old(c)@[x],
{
    proof {
        lemma_contiguous(m as int, k as int);
        lemma_contiguous(k as int, n as int);
        lemma_contiguous(m as int, n as int);
    }
    sgemm(
        Transpose::NoTrans,
        Transpose::NoTrans,
        m,
        n,
        k,
        S::one(),
        a,
        k,
        b,
        n,
        S::zero(),
        c,
        n,
    );
}

/// A contiguous matrix fills its storage, and its positions are those below `rows * cols`.
pub proof fn lemma_contiguous(rows: int, cols: int)
    requires
        0 <= rows,
        0 <= cols,
    ensures
        op_need(Transpose::NoTrans, rows, cols, cols) == rows * cols,
        op_need(Transpose::Trans, cols, rows, cols) == rows * cols,
        0 <= rows * cols,
        forall|x: int|
            0 <= x ==> (#[trigger] in_block(x, cols, 0, rows, 0, cols) <==> x < rows * cols),
{
    assert(0 <= rows * cols) by (nonlinear_arith)
        requires
            0 <= rows,
            0 <= cols,
    ;
    assert((rows - 1) * cols + cols == rows * cols) by (nonlinear_arith);
    if rows == 0 || cols == 0 {
        assert(rows * cols == 0) by (nonlinear_arith)
            requires
                rows == 0 || cols == 0,
        ;
    }
    assert forall|x: int| 0 <= x implies (#[trigger] in_block(x, cols, 0, rows, 0, cols) <==> x
        < rows * cols) by {
        if cols > 0 {
            lemma_fundamental_div_mod(x, cols);
            let r = x / cols;
            let j = x % cols;
            assert(x == r * cols + j) by (nonlinear_arith)
                requires
                    x == cols * r + j,
            ;
            assert(0 <= r) by {
                lemma_div_pos_is_pos(x, cols);
            }
            if r < rows {
                assert(r * cols + cols <= rows * cols) by (nonlinear_arith)
                    requires
                        r + 1 <= rows,
                        0 < cols,
                ;
            } else {
                assert(r * cols >= rows * cols) by (nonlinear_arith)
                    requires
                        r >= rows,
                        0 < cols,
                ;
            }
        } else {
            assert(rows * cols == 0) by (nonlinear_arith)
                requires
                    cols == 0,
            ;
        }
    }
}

/// From this size on down, and below this many halvings, a product is not split further.
pub const GEMM_STRASSEN_THRESHOLD: usize = 256;

/// The deepest level at which a product is still split.
pub const STRASSEN_MAX_DEPTH: u32 = 6;

/// A matrix as a function from row and column to entry.
pub type Mat<S> = spec_fn(int, int) -> S;

/// The largest even number up to `n`.
pub open spec fn even_part(n: int) -> int {
    n - n % 2
}

/// The matrix that starts at row `r`, column `j` of `a`.
pub open spec fn shifted<S>(a: Mat<S>, r: int, j: int) -> Mat<S> {
    |i: int, p: int| a(i + r, p + j)
}

/// The entrywise sum of two matrices.
pub open spec fn mat_add<S: Number>(a: Mat<S>, b: Mat<S>) -> Mat<S> {
    |i: int, p: int| a(i, p).spec_plus(b(i, p))
}

/// The entrywise difference of two matrices.
pub open spec fn mat_sub<S: Number>(a: Mat<S>, b: Mat<S>) -> Mat<S> {
    |i: int, p: int| a(i, p).spec_minus(b(i, p))
}

/// The matrix of zeros.
pub open spec fn mat_zero<S: Number>() -> Mat<S> {
    |i: int, p: int| S::spec_zero()
}

/// One entry of `A * B` by the classical product into storage that held `c0`.
pub open spec fn classical<S: Number>(
    m: int,
    n: int,
    k: int,
    a: Mat<S>,
    b: Mat<S>,
    c0: S,
    i: int,
    j: int,
) -> S {
    gemm_entry(
        Transpose::NoTrans,
        m,
        n,
        k,
        S::spec_one(),
        a,
        b,
        S::spec_zero(),
        c0,
        i,
        j,
    )
}

/// One of the seven half-size products, counted from zero.
pub open spec fn strassen_product<S: Number>(
    a: Mat<S>,
    b: Mat<S>,
    m: int,
    k: int,
    n: int,
    depth: int,
    which: int,
    i: int,
    j: int,
) -> S
    decreases 8 - depth, 0int,
    when 0 <= depth <= 6
{
    let (m2, k2, n2) = (m / 2, k / 2, n / 2);
    let (a11, a12, a21, a22) = (a, shifted(a, 0, k2), shifted(a, m2, 0), shifted(a, m2, k2));
    let (b11, b12, b21, b22) = (b, shifted(b, 0, n2), shifted(b, k2, 0), shifted(b, k2, n2));
    let (x, y) = if which == 0 {
        (mat_add(a11, a22), mat_add(b11, b22))
    } else if which == 1 {
        (mat_add(a21, a22), b11)
    } else if which == 2 {
        (a11, mat_sub(b12, b22))
    } else if which == 3 {
        (a22, mat_sub(b21, b11))
    } else if which == 4 {
        (mat_add(a11, a12), b22)
    } else if which == 5 {
        (mat_sub(a21, a11), mat_add(b11, b12))
    } else {
        (mat_sub(a12, a22), mat_add(b21, b22))
    };
    strassen_entry(x, y, mat_zero(), m2, k2, n2, depth + 1, i, j)
}

/// One entry of `A * B` for even sizes, out of the seven half-size products.
pub open spec fn core_entry<S: Number>(
    a: Mat<S>,
    b: Mat<S>,
    m: int,
    k: int,
    n: int,
    depth: int,
    i: int,
    j: int,
) -> S
    decreases 8 - depth, 1int,
    when 0 <= depth <= 6
{
    let (m2, n2) = (m / 2, n / 2);
    let (r, t) = (if i < m2 { i } else { i - m2 }, if j < n2 { j } else { j - n2 });
    let p0 = strassen_product(a, b, m, k, n, depth, 0, r, t);
    let p1 = strassen_product(a, b, m, k, n, depth, 1, r, t);
    let p2 = strassen_product(a, b, m, k, n, depth, 2, r, t);
    let p3 = strassen_product(a, b, m, k, n, depth, 3, r, t);
    let p4 = strassen_product(a, b, m, k, n, depth, 4, r, t);
    let p5 = strassen_product(a, b, m, k, n, depth, 5, r, t);
    let p6 = strassen_product(a, b, m, k, n, depth, 6, r, t);
    if i < m2 {
        if j < n2 {
            p0.spec_plus(p3).spec_minus(p4).spec_plus(p6)
        } else {
            p2.spec_plus(p4)
        }
    } else if j < n2 {
        p1.spec_plus(p3)
    } else {
        p0.spec_minus(p1).spec_plus(p2).spec_plus(p5)
    }
}

/// One entry of `A * B` by halving, in the order in which it is computed: the even core by
/// seven products, then an odd last row, an odd last column and an odd last product.
pub open spec fn strassen_entry<S: Number>(
    a: Mat<S>,
    b: Mat<S>,
    c: Mat<S>,
    m: int,
    k: int,
    n: int,
    depth: int,
    i: int,
    j: int,
) -> S
    decreases 8 - depth, 2int,
    when 0 <= depth <= 7
{
    if m <= GEMM_STRASSEN_THRESHOLD || k <= GEMM_STRASSEN_THRESHOLD || n
        <= GEMM_STRASSEN_THRESHOLD || depth > STRASSEN_MAX_DEPTH {
        classical(m, n, k, a, b, c(i, j), i, j)
    } else {
        let (mf, kf, nf) = (even_part(m), even_part(k), even_part(n));
        let even = if j >= nf {
            classical(m, 1, kf, a, shifted(b, 0, nf), S::spec_zero(), i, 0)
        } else if i >= mf {
            classical(1, nf, kf, shifted(a, mf, 0), b, c(i, j), 0, j)
        } else {
            core_entry(a, b, mf, kf, nf, depth, i, j)
        };
        if kf == k || a(i, kf).spec_same(S::spec_zero()) {
            even
        } else {
            even.spec_plus(a(i, kf).spec_times(b(kf, j)))
        }
    }
}

/// The two matrices have the same first `m` rows and `k` columns.
pub open spec fn agree<S>(a: Mat<S>, b: Mat<S>, m: int, k: int) -> bool {
    forall|i: int, p: int|
        #![trigger a(i, p)]
        #![trigger b(i, p)]
        0 <= i < m && 0 <= p < k ==> a(i, p) == b(i, p)
}

proof fn lemma_small_agree<S: Number>(
    alpha: S,
    a: Mat<S>,
    a2: Mat<S>,
    b: Mat<S>,
    b2: Mat<S>,
    c0: S,
    m: int,
    n: int,
    k: int,
    i: int,
    j: int,
    p: int,
)
    requires
        agree(a, a2, m, k),
        agree(b, b2, k, n),
        0 <= i < m,
        0 <= j < n,
        p <= k,
    ensures
        small_acc(alpha, a, b, c0, i, j, p) == small_acc(alpha, a2, b2, c0, i, j, p),
    decreases p,
{
    if p > 0 {
        lemma_small_agree(alpha, a, a2, b, b2, c0, m, n, k, i, j, p - 1);
        assert(a(i, p - 1) == a2(i, p - 1));
        assert(b(p - 1, j) == b2(p - 1, j));
    }
}

proof fn lemma_panel_agree<S: Number>(
    tb: Transpose,
    alpha: S,
    a: Mat<S>,
    a2: Mat<S>,
    b: Mat<S>,
    b2: Mat<S>,
    m: int,
    n: int,
    k: int,
    i: int,
    j: int,
    lo: int,
    hi: int,
)
    requires
        agree(a, a2, m, k),
        agree(b, b2, k, n),
        0 <= i < m,
        0 <= j < n,
        0 <= lo,
        hi <= k,
    ensures
        panel_sum(tb, alpha, a, b, i, j, lo, hi) == panel_sum(tb, alpha, a2, b2, i, j, lo, hi),
    decreases hi - lo,
{
    if hi > lo {
        lemma_panel_agree(tb, alpha, a, a2, b, b2, m, n, k, i, j, lo, hi - 1);
        assert(a(i, hi - 1) == a2(i, hi - 1));
        assert(b(hi - 1, j) == b2(hi - 1, j));
    }
}

proof fn lemma_blocked_agree<S: Number>(
    tb: Transpose,
    alpha: S,
    a: Mat<S>,
    a2: Mat<S>,
    b: Mat<S>,
    b2: Mat<S>,
    c0: S,
    m: int,
    n: int,
    k: int,
    i: int,
    j: int,
    q: int,
)
    requires
        agree(a, a2, m, k),
        agree(b, b2, k, n),
        0 <= i < m,
        0 <= j < n,
    ensures
        blocked_acc(tb, alpha, a, b, k, c0, i, j, q) == blocked_acc(
            tb,
            alpha,
            a2,
            b2,
            k,
            c0,
            i,
            j,
            q,
        ),
    decreases q,
{
    if q > 0 {
        lemma_blocked_agree(tb, alpha, a, a2, b, b2, c0, m, n, k, i, j, q - 1);
        let hi = if q * KC <= k {
            q * KC
        } else {
            k
        };
        lemma_panel_agree(tb, alpha, a, a2, b, b2, m, n, k, i, j, (q - 1) * KC, hi);
    }
}

/// An entry of a product depends only on the entries of the operands within their sizes.
pub proof fn lemma_gemm_agree<S: Number>(
    tb: Transpose,
    m: int,
    n: int,
    k: int,
    alpha: S,
    a: Mat<S>,
    a2: Mat<S>,
    b: Mat<S>,
    b2: Mat<S>,
    beta: S,
    c0: S,
    i: int,
    j: int,
)
    requires
        agree(a, a2, m, k),
        agree(b, b2, k, n),
        0 <= i < m,
        0 <= j < n,
        0 <= k,
    ensures
        gemm_entry(tb, m, n, k, alpha, a, b, beta, c0, i, j) == gemm_entry(
            tb,
            m,
            n,
            k,
            alpha,
            a2,
            b2,
            beta,
            c0,
            i,
            j,
        ),
{
    lemma_small_agree(alpha, a, a2, b, b2, scaled(c0, beta), m, n, k, i, j, k);
    lemma_blocked_agree(tb, alpha, a, a2, b, b2, scaled(c0, beta), m, n, k, i, j, panels(k));
}

proof fn lemma_small_row<S: Number>(
    alpha: S,
    a: Mat<S>,
    a2: Mat<S>,
    b: Mat<S>,
    c0: S,
    i: int,
    i2: int,
    j: int,
    p: int,
)
    requires
        forall|q: int| 0 <= q < p ==> #[trigger] a(i, q) == a2(i2, q),
    ensures
        small_acc(alpha, a, b, c0, i, j, p) == small_acc(alpha, a2, b, c0, i2, j, p),
    decreases p,
{
    if p > 0 {
        lemma_small_row(alpha, a, a2, b, c0, i, i2, j, p - 1);
        assert(a(i, p - 1) == a2(i2, p - 1));
    }
}

proof fn lemma_panel_row<S: Number>(
    tb: Transpose,
    alpha: S,
    a: Mat<S>,
    a2: Mat<S>,
    b: Mat<S>,
    k: int,
    i: int,
    i2: int,
    j: int,
    lo: int,
    hi: int,
)
    requires
        forall|q: int| 0 <= q < k ==> #[trigger] a(i, q) == a2(i2, q),
        0 <= lo,
        hi <= k,
    ensures
        panel_sum(tb, alpha, a, b, i, j, lo, hi) == panel_sum(tb, alpha, a2, b, i2, j, lo, hi),
    decreases hi - lo,
{
    if hi > lo {
        lemma_panel_row(tb, alpha, a, a2, b, k, i, i2, j, lo, hi - 1);
        assert(a(i, hi - 1) == a2(i2, hi - 1));
    }
}

proof fn lemma_blocked_row<S: Number>(
    tb: Transpose,
    alpha: S,
    a: Mat<S>,
    a2: Mat<S>,
    b: Mat<S>,
    k: int,
    c0: S,
    i: int,
    i2: int,
    j: int,
    q: int,
)
    requires
        forall|p: int| 0 <= p < k ==> #[trigger] a(i, p) == a2(i2, p),
    ensures
        blocked_acc(tb, alpha, a, b, k, c0, i, j, q) == blocked_acc(
            tb,
            alpha,
            a2,
            b,
            k,
            c0,
            i2,
            j,
            q,
        ),
    decreases q,
{
    if q > 0 {
        lemma_blocked_row(tb, alpha, a, a2, b, k, c0, i, i2, j, q - 1);
        let hi = if q * KC <= k {
            q * KC
        } else {
            k
        };
        lemma_panel_row(tb, alpha, a, a2, b, k, i, i2, j, (q - 1) * KC, hi);
    }
}

/// A row of a product depends on the same row of the left factor alone, where both products are
/// large or both are small.
pub proof fn lemma_product_row<S: Number>(
    tb: Transpose,
    m: int,
    m2: int,
    n: int,
    k: int,
    a: Mat<S>,
    a2: Mat<S>,
    b: Mat<S>,
    i: int,
    i2: int,
    j: int,
)
    requires
        forall|p: int| 0 <= p < k ==> #[trigger] a(i, p) == a2(i2, p),
        m * n * k < SMALL_FLOPS <==> m2 * n * k < SMALL_FLOPS,
    ensures
        mat_product(tb, m, n, k, a, b)(i, j) == mat_product(tb, m2, n, k, a2, b)(i2, j),
{
    let (o, z) = (S::spec_one(), S::spec_zero());
    lemma_small_row(o, a, a2, b, scaled(z, z), i, i2, j, k);
    lemma_blocked_row(tb, o, a, a2, b, k, scaled(z, z), i, i2, j, panels(k));
}

proof fn lemma_product_agree<S: Number>(
    a: Mat<S>,
    a2: Mat<S>,
    b: Mat<S>,
    b2: Mat<S>,
    m: int,
    k: int,
    n: int,
    depth: int,
    which: int,
    i: int,
    j: int,
)
    requires
        agree(a, a2, m, k),
        agree(b, b2, k, n),
        m % 2 == 0,
        k % 2 == 0,
        n % 2 == 0,
        0 <= i < m / 2,
        0 <= j < n / 2,
        0 <= k,
        0 <= depth <= 6,
    ensures
        strassen_product(a, b, m, k, n, depth, which, i, j) == strassen_product(
            a2,
            b2,
            m,
            k,
            n,
            depth,
            which,
            i,
            j,
        ),
    decreases 8 - depth, 0int,
{
    let (m2, k2, n2) = (m / 2, k / 2, n / 2);
    let (a11, a12, a21, a22) = (a, shifted(a, 0, k2), shifted(a, m2, 0), shifted(a, m2, k2));
    let (b11, b12, b21, b22) = (b, shifted(b, 0, n2), shifted(b, k2, 0), shifted(b, k2, n2));
    let (e11, e12, e21, e22) = (a2, shifted(a2, 0, k2), shifted(a2, m2, 0), shifted(a2, m2, k2));
    let (f11, f12, f21, f22) = (b2, shifted(b2, 0, n2), shifted(b2, k2, 0), shifted(b2, k2, n2));
    assert(agree(a11, e11, m2, k2) && agree(a12, e12, m2, k2) && agree(a21, e21, m2, k2) && agree(
        a22,
        e22,
        m2,
        k2,
    ));
    assert(agree(b11, f11, k2, n2) && agree(b12, f12, k2, n2) && agree(b21, f21, k2, n2) && agree(
        b22,
        f22,
        k2,
        n2,
    ));
    let z = mat_zero::<S>();
    if which == 0 {
        let (x, x2) = (mat_add(a11, a22), mat_add(e11, e22));
        let (y, y2) = (mat_add(b11, b22), mat_add(f11, f22));
        lemma_strassen_agree(x, x2, y, y2, z, z, m2, k2, n2, depth + 1, i, j);
    } else if which == 1 {
        let (x, x2) = (mat_add(a21, a22), mat_add(e21, e22));
        lemma_strassen_agree(x, x2, b11, f11, z, z, m2, k2, n2, depth + 1, i, j);
    } else if which == 2 {
        let (y, y2) = (mat_sub(b12, b22), mat_sub(f12, f22));
        lemma_strassen_agree(a11, e11, y, y2, z, z, m2, k2, n2, depth + 1, i, j);
    } else if which == 3 {
        let (y, y2) = (mat_sub(b21, b11), mat_sub(f21, f11));
        lemma_strassen_agree(a22, e22, y, y2, z, z, m2, k2, n2, depth + 1, i, j);
    } else if which == 4 {
        let (x, x2) = (mat_add(a11, a12), mat_add(e11, e12));
        lemma_strassen_agree(x, x2, b22, f22, z, z, m2, k2, n2, depth + 1, i, j);
    } else if which == 5 {
        let (x, x2) = (mat_sub(a21, a11), mat_sub(e21, e11));
        let (y, y2) = (mat_add(b11, b12), mat_add(f11, f12));
        lemma_strassen_agree(x, x2, y, y2, z, z, m2, k2, n2, depth + 1, i, j);
    } else {
        let (x, x2) = (mat_sub(a12, a22), mat_sub(e12, e22));
        let (y, y2) = (mat_add(b21, b22), mat_add(f21, f22));
        lemma_strassen_agree(x, x2, y, y2, z, z, m2, k2, n2, depth + 1, i, j);
    }
}

/// An entry of a product by halving depends only on the entries of the operands within
/// their sizes.
pub proof fn lemma_strassen_agree<S: Number>(
    a: Mat<S>,
    a2: Mat<S>,
    b: Mat<S>,
    b2: Mat<S>,
    c: Mat<S>,
    c2: Mat<S>,
    m: int,
    k: int,
    n: int,
    depth: int,
    i: int,
    j: int,
)
    requires
        agree(a, a2, m, k),
        agree(b, b2, k, n),
        agree(c, c2, m, n),
        0 <= i < m,
        0 <= j < n,
        0 <= k,
        0 <= depth <= 7,
    ensures
        strassen_entry(a, b, c, m, k, n, depth, i, j) == strassen_entry(
            a2,
            b2,
            c2,
            m,
            k,
            n,
            depth,
            i,
            j,
        ),
    decreases 8 - depth, 2int,
{
    let (one, zero) = (S::spec_one(), S::spec_zero());
    let nt = Transpose::NoTrans;
    assert(c(i, j) == c2(i, j));
    if m <= GEMM_STRASSEN_THRESHOLD || k <= GEMM_STRASSEN_THRESHOLD || n
        <= GEMM_STRASSEN_THRESHOLD || depth > STRASSEN_MAX_DEPTH {
        lemma_gemm_agree(nt, m, n, k, one, a, a2, b, b2, zero, c(i, j), i, j);
    } else {
        let (mf, kf, nf) = (even_part(m), even_part(k), even_part(n));
        if kf < k {
            assert(a(i, kf) == a2(i, kf));
            assert(b(kf, j) == b2(kf, j));
        }
        if j >= nf {
            let (t, t2) = (shifted(b, 0, nf), shifted(b2, 0, nf));
            assert(agree(t, t2, kf, 1));
            lemma_gemm_agree(nt, m, 1, kf, one, a, a2, t, t2, zero, zero, i, 0);
        } else if i >= mf {
            let (t, t2) = (shifted(a, mf, 0), shifted(a2, mf, 0));
            assert(agree(t, t2, 1, kf));
            lemma_gemm_agree(nt, 1, nf, kf, one, t, t2, b, b2, zero, c(i, j), 0, j);
        } else {
            let (m2, n2) = (mf / 2, nf / 2);
            let (r, t) = (
                if i < m2 {
                    i
                } else {
                    i - m2
                },
                if j < n2 {
                    j
                } else {
                    j - n2
                },
            );
            lemma_product_agree(a, a2, b, b2, mf, kf, nf, depth, 0, r, t);
            lemma_product_agree(a, a2, b, b2, mf, kf, nf, depth, 1, r, t);
            lemma_product_agree(a, a2, b, b2, mf, kf, nf, depth, 2, r, t);
            lemma_product_agree(a, a2, b, b2, mf, kf, nf, depth, 3, r, t);
            lemma_product_agree(a, a2, b, b2, mf, kf, nf, depth, 4, r, t);
            lemma_product_agree(a, a2, b, b2, mf, kf, nf, depth, 5, r, t);
            lemma_product_agree(a, a2, b, b2, mf, kf, nf, depth, 6, r, t);
        }
    }
}

/// Copies `r` rows and `c` columns of `src` from row `ro`, column `co` on.
#[verifier::loop_isolation(false)]
fn copy_block<S: Number>(
    src: &[S],
    stride: usize,
    ro: usize,
    co: usize,
    r: usize,
    c: usize,
    Ghost(rows): Ghost<int>,
    Ghost(cols): Ghost<int>,
) -> (dst: Vec<S>)
    requires
        0 < c,
        ro + r <= rows,
        co + c <= cols,
        rows <= usize::MAX,
        cols <= usize::MAX,
        op_need(Transpose::NoTrans, rows, cols, stride as int) <= src@.len(),
    ensures
        dst@.len() == r * c,
        agree(
            operand(Transpose::NoTrans, dst@, c as int),
            shifted(operand(Transpose::NoTrans, src@, stride as int), ro as int, co as int),
            r as int,
            c as int,
        ),
{
    let ghost m = operand(Transpose::NoTrans, src@, stride as int);
    let mut dst: Vec<S> = Vec::new();
    assert(0 * c == 0) by (nonlinear_arith);
    for i in 0..r
        invariant
            dst@.len() == i * c,
            forall|x: int|
                0 <= x < i * c ==> #[trigger] dst@[x] == m(
                    ro + row_of(x, c as int),
                    co + col_of(x, c as int),
                ),
    {
        for j in 0..c
            invariant
                dst@.len() == i * c + j,
                forall|x: int|
                    0 <= x < i * c + j ==> #[trigger] dst@[x] == m(
                        ro + row_of(x, c as int),
                        co + col_of(x, c as int),
                    ),
        {
            proof {
                lemma_cell(i as int, j as int, c as int);
            }
            let v = load(
                Transpose::NoTrans,
                src,
                stride,
                ro + i,
                co + j,
                Ghost(rows),
                Ghost(cols),
            );
            dst.push(v);
        }
        assert(i * c + c == (i + 1) * c) by (nonlinear_arith);
    }
    let ghost d = operand(Transpose::NoTrans, dst@, c as int);
    let ghost e = shifted(m, ro as int, co as int);
    assert forall|i: int, p: int|
        #![trigger d(i, p)]
        #![trigger e(i, p)]
        0 <= i < r && 0 <= p < c implies d(i, p) == e(i, p) by {
        lemma_cell(i, p, c as int);
        lemma_row_fits(i, r as int, c as int);
        assert((r - 1) * c + c == r * c) by (nonlinear_arith);
        assert(d(i, p) == dst@[i * c + p]);
    }
    dst
}

/// The entrywise sum of two contiguous matrices.
fn add_into<S: Number>(x: &Vec<S>, y: &Vec<S>) -> (dst: Vec<S>)
    requires
        x@.len() == y@.len(),
    ensures
        dst@ == Seq::new(x@.len(), |i: int| x@[i].spec_plus(y@[i])),
{
    let mut dst: Vec<S> = Vec::new();
    for i in 0..x.len()
        invariant
            x@.len() == y@.len(),
            dst@ =~= Seq::new(i as nat, |i: int| x@[i].spec_plus(y@[i])),
    {
        dst.push(x[i].plus(y[i]));
    }
    dst
}

/// The entrywise difference of two contiguous matrices.
fn sub_into<S: Number>(x: &Vec<S>, y: &Vec<S>) -> (dst: Vec<S>)
    requires
        x@.len() == y@.len(),
    ensures
        dst@ == Seq::new(x@.len(), |i: int| x@[i].spec_minus(y@[i])),
{
    let mut dst: Vec<S> = Vec::new();
    for i in 0..x.len()
        invariant
            x@.len() == y@.len(),
            dst@ =~= Seq::new(i as nat, |i: int| x@[i].spec_minus(y@[i])),
    {
        dst.push(x[i].minus(y[i]));
    }
    dst
}

/// Contiguous storage holds the matrix.
pub open spec fn holds<S>(v: Seq<S>, a: Mat<S>, m: int, k: int) -> bool {
    v.len() == m * k && agree(operand(Transpose::NoTrans, v, k), a, m, k)
}

/// Each position of contiguous storage holds its entry of the matrix.
pub proof fn lemma_holds_at<S>(v: Seq<S>, a: Mat<S>, m: int, k: int)
    requires
        holds(v, a, m, k),
        0 <= k,
        0 <= m,
    ensures
        forall|x: int| 0 <= x < v.len() ==> #[trigger] v[x] == a(row_of(x, k), col_of(x, k)),
{
    lemma_contiguous(m, k);
    let d = operand(Transpose::NoTrans, v, k);
    assert forall|x: int| 0 <= x < v.len() implies #[trigger] v[x] == a(
        row_of(x, k),
        col_of(x, k),
    ) by {
        assert(in_block(x, k, 0, m, 0, k));
        let (r, j) = (row_of(x, k), col_of(x, k));
        lemma_cell(r, j, k);
        assert(d(r, j) == a(r, j));
    }
}

/// Storage whose positions hold the entries of the matrix holds the matrix.
pub proof fn lemma_holds_from<S>(v: Seq<S>, a: Mat<S>, m: int, k: int)
    requires
        v.len() == m * k,
        0 <= k,
        0 <= m,
        forall|x: int| 0 <= x < v.len() ==> #[trigger] v[x] == a(row_of(x, k), col_of(x, k)),
    ensures
        holds(v, a, m, k),
{
    let d = operand(Transpose::NoTrans, v, k);
    assert forall|i: int, p: int|
        #![trigger d(i, p)]
        #![trigger a(i, p)]
        0 <= i < m && 0 <= p < k implies d(i, p) == a(i, p) by {
        lemma_cell(i, p, k);
        lemma_row_fits(i, m, k);
        assert((m - 1) * k + k == m * k) by (nonlinear_arith);
        assert(d(i, p) == v[i * k + p]);
    }
}

/// The sum of two stored matrices.
fn stored_sum<S: Number>(
    x: &Vec<S>,
    y: &Vec<S>,
    Ghost(a): Ghost<Mat<S>>,
    Ghost(b): Ghost<Mat<S>>,
    Ghost(m): Ghost<int>,
    Ghost(k): Ghost<int>,
) -> (r: Vec<S>)
    requires
        holds(x@, a, m, k),
        holds(y@, b, m, k),
        0 < k,
        0 <= m,
    ensures
        holds(r@, mat_add(a, b), m, k),
{
    let r = add_into(x, y);
    proof {
        lemma_holds_at(x@, a, m, k);
        lemma_holds_at(y@, b, m, k);
        lemma_holds_from(r@, mat_add(a, b), m, k);
    }
    r
}

/// The difference of two stored matrices.
fn stored_difference<S: Number>(
    x: &Vec<S>,
    y: &Vec<S>,
    Ghost(a): Ghost<Mat<S>>,
    Ghost(b): Ghost<Mat<S>>,
    Ghost(m): Ghost<int>,
    Ghost(k): Ghost<int>,
) -> (r: Vec<S>)
    requires
        holds(x@, a, m, k),
        holds(y@, b, m, k),
        0 < k,
        0 <= m,
    ensures
        holds(r@, mat_sub(a, b), m, k),
{
    let r = sub_into(x, y);
    proof {
        lemma_holds_at(x@, a, m, k);
        lemma_holds_at(y@, b, m, k);
        lemma_holds_from(r@, mat_sub(a, b), m, k);
    }
    r
}

/// The product of two stored matrices by halving.
fn stored_product<S: Number>(
    x: &Vec<S>,
    y: &Vec<S>,
    m: usize,
    k: usize,
    n: usize,
    depth: u32,
    Ghost(a): Ghost<Mat<S>>,
    Ghost(b): Ghost<Mat<S>>,
) -> (r: Vec<S>)
    requires
        holds(x@, a, m as int, k as int),
        holds(y@, b, k as int, n as int),
        0 < m,
        0 < k,
        0 < n,
        m * n * k <= usize::MAX,
        depth <= 7,
    ensures
        r@.len() == m * n,
        forall|x: int|
            0 <= x < m * n ==> #[trigger] r@[x] == strassen_entry(
                a,
                b,
                mat_zero(),
                m as int,
                k as int,
                n as int,
                depth as int,
                row_of(x, n as int),
                col_of(x, n as int),
            ),
    decreases 8 - depth, 6int,
{
    assert(m * n <= m * n * k) by (nonlinear_arith)
        requires
            0 < k,
            0 <= m,
            0 <= n,
    ;
    let mut r: Vec<S> = filled(S::zero(), m * n);
    let ghost z = operand(Transpose::NoTrans, r@, n as int);
    proof {
        lemma_contiguous(m as int, k as int);
        lemma_contiguous(k as int, n as int);
        lemma_contiguous(m as int, n as int);
        lemma_holds_from(r@, mat_zero(), m as int, n as int);
    }
    strassen_rec(x, k, y, n, &mut r, n, m, k, n, depth);
    proof {
        let xa = operand(Transpose::NoTrans, x@, k as int);
        let yb = operand(Transpose::NoTrans, y@, n as int);
        assert forall|x: int| 0 <= x < m * n implies #[trigger] r@[x] == strassen_entry(
            a,
            b,
            mat_zero(),
            m as int,
            k as int,
            n as int,
            depth as int,
            row_of(x, n as int),
            col_of(x, n as int),
        ) by {
            assert(in_block(x, n as int, 0, m as int, 0, n as int));
            lemma_strassen_agree(
                xa,
                a,
                yb,
                b,
                z,
                mat_zero(),
                m as int,
                k as int,
                n as int,
                depth as int,
                row_of(x, n as int),
                col_of(x, n as int),
            );
        }
    }
    r
}

/// Product of even sizes by seven half-size products, into rows `0..m`, columns `0..n` of `c`.
#[verifier::loop_isolation(false)]
#[verifier::rlimit(40)]
fn strassen_core<S: Number>(
    a: &[S],
    lda: usize,
    b: &[S],
    ldb: usize,
    c: &mut [S],
    ldc: usize,
    m: usize,
    k: usize,
    n: usize,
    depth: u32,
    Ghost(rows): Ghost<int>,
    Ghost(inner): Ghost<int>,
    Ghost(cols): Ghost<int>,
)
    requires
        2 <= m <= rows <= usize::MAX,
        2 <= k <= inner <= usize::MAX,
        2 <= n <= cols <= ldc,
        m % 2 == 0,
        k % 2 == 0,
        n % 2 == 0,
        op_need(Transpose::NoTrans, rows, inner, lda as int) <= a@.len(),
        op_need(Transpose::NoTrans, inner, cols, ldb as int) <= b@.len(),
        (rows - 1) * ldc + cols <= old(c)@.len(),
        m * n * k <= usize::MAX,
        depth <= 6,
    ensures
        final(c)@.len() == old(c)@.len(),
        forall|x: int|
            0 <= x < final(c)@.len() ==> #[trigger] final(c)@[x] == if in_block(
                x,
                ldc as int,
                0,
                m as int,
                0,
                n as int,
            ) {
                core_entry(
                    operand(Transpose::NoTrans, a@, lda as int),
                    operand(Transpose::NoTrans, b@, ldb as int),
                    m as int,
                    k as int,
                    n as int,
                    depth as int,
                    row_of(x, ldc as int),
                    col_of(x, ldc as int),
                )
            } else {
                old(c)@[x]
            },
    decreases 8 - depth, 4int,
{
    let m2: usize = m / 2;
    let k2: usize = k / 2;
    let n2: usize = n / 2;
    let ghost (mi, ki, ni) = (m2 as int, k2 as int, n2 as int);
    let ghost aa = operand(Transpose::NoTrans, a@, lda as int);
    let ghost bb = operand(Transpose::NoTrans, b@, ldb as int);
    let ghost (ga11, ga12, ga21, ga22) = (
        aa,
        shifted(aa, 0, ki),
        shifted(aa, mi, 0),
        shifted(aa, mi, ki),
    );
    let ghost (gb11, gb12, gb21, gb22) = (
        bb,
        shifted(bb, 0, ni),
        shifted(bb, ki, 0),
        shifted(bb, ki, ni),
    );
    proof {
        assert(m2 * n2 * k2 <= m * n * k) by (nonlinear_arith)
            requires
                0 <= m2 <= m,
                0 <= n2 <= n,
                0 <= k2 <= k,
        ;
        assert(shifted(aa, 0, 0) =~= aa);
        assert(shifted(bb, 0, 0) =~= bb);
    }
    let a11 = copy_block(a, lda, 0, 0, m2, k2, Ghost(rows), Ghost(inner));
    let a12 = copy_block(a, lda, 0, k2, m2, k2, Ghost(rows), Ghost(inner));
    let a21 = copy_block(a, lda, m2, 0, m2, k2, Ghost(rows), Ghost(inner));
    let a22 = copy_block(a, lda, m2, k2, m2, k2, Ghost(rows), Ghost(inner));
    let b11 = copy_block(b, ldb, 0, 0, k2, n2, Ghost(inner), Ghost(cols));
    let b12 = copy_block(b, ldb, 0, n2, k2, n2, Ghost(inner), Ghost(cols));
    let b21 = copy_block(b, ldb, k2, 0, k2, n2, Ghost(inner), Ghost(cols));
    let b22 = copy_block(b, ldb, k2, n2, k2, n2, Ghost(inner), Ghost(cols));

    let sa = stored_sum(&a11, &a22, Ghost(ga11), Ghost(ga22), Ghost(mi), Ghost(ki));
    let sb = stored_sum(&b11, &b22, Ghost(gb11), Ghost(gb22), Ghost(ki), Ghost(ni));
    let p0 = stored_product(
        &sa,
        &sb,
        m2,
        k2,
        n2,
        depth + 1,
        Ghost(mat_add(ga11, ga22)),
        Ghost(mat_add(gb11, gb22)),
    );
    let sa = stored_sum(&a21, &a22, Ghost(ga21), Ghost(ga22), Ghost(mi), Ghost(ki));
    let p1 = stored_product(
        &sa,
        &b11,
        m2,
        k2,
        n2,
        depth + 1,
        Ghost(mat_add(ga21, ga22)),
        Ghost(gb11),
    );
    let sb = stored_difference(&b12, &b22, Ghost(gb12), Ghost(gb22), Ghost(ki), Ghost(ni));
    let p2 = stored_product(
        &a11,
        &sb,
        m2,
        k2,
        n2,
        depth + 1,
        Ghost(ga11),
        Ghost(mat_sub(gb12, gb22)),
    );
    let sb = stored_difference(&b21, &b11, Ghost(gb21), Ghost(gb11), Ghost(ki), Ghost(ni));
    let p3 = stored_product(
        &a22,
        &sb,
        m2,
        k2,
        n2,
        depth + 1,
        Ghost(ga22),
        Ghost(mat_sub(gb21, gb11)),
    );
    let sa = stored_sum(&a11, &a12, Ghost(ga11), Ghost(ga12), Ghost(mi), Ghost(ki));
    let p4 = stored_product(
        &sa,
        &b22,
        m2,
        k2,
        n2,
        depth + 1,
        Ghost(mat_add(ga11, ga12)),
        Ghost(gb22),
    );
    let sa = stored_difference(&a21, &a11, Ghost(ga21), Ghost(ga11), Ghost(mi), Ghost(ki));
    let sb = stored_sum(&b11, &b12, Ghost(gb11), Ghost(gb12), Ghost(ki), Ghost(ni));
    let p5 = stored_product(
        &sa,
        &sb,
        m2,
        k2,
        n2,
        depth + 1,
        Ghost(mat_sub(ga21, ga11)),
        Ghost(mat_add(gb11, gb12)),
    );
    let sa = stored_difference(&a12, &a22, Ghost(ga12), Ghost(ga22), Ghost(mi), Ghost(ki));
    let sb = stored_sum(&b21, &b22, Ghost(gb21), Ghost(gb22), Ghost(ki), Ghost(ni));
    let p6 = stored_product(
        &sa,
        &sb,
        m2,
        k2,
        n2,
        depth + 1,
        Ghost(mat_sub(ga12, ga22)),
        Ghost(mat_add(gb21, gb22)),
    );
    proof {
        let d = depth as int;
        let (mm, kk, nn) = (m as int, k as int, n as int);
        assert forall|x: int| 0 <= x < mi * ni implies {
            let (r, t) = (row_of(x, ni), col_of(x, ni));
            &&& #[trigger] p0@[x] == strassen_product(aa, bb, mm, kk, nn, d, 0, r, t)
            &&& p1@[x] == strassen_product(aa, bb, mm, kk, nn, d, 1, r, t)
            &&& p2@[x] == strassen_product(aa, bb, mm, kk, nn, d, 2, r, t)
            &&& p3@[x] == strassen_product(aa, bb, mm, kk, nn, d, 3, r, t)
            &&& p4@[x] == strassen_product(aa, bb, mm, kk, nn, d, 4, r, t)
            &&& p5@[x] == strassen_product(aa, bb, mm, kk, nn, d, 5, r, t)
            &&& p6@[x] == strassen_product(aa, bb, mm, kk, nn, d, 6, r, t)
        } by {}
    }
    combine(c, ldc, m2, n2, &p0, &p1, &p2, &p3, &p4, &p5, &p6, Ghost(rows), Ghost(cols));
    proof {
        assert forall|x: int|
            0 <= x < c@.len() && in_block(x, ldc as int, 0, m as int, 0, n as int) implies (
        #[trigger] c@[x]) == core_entry(
            aa,
            bb,
            m as int,
            k as int,
            n as int,
            depth as int,
            row_of(x, ldc as int),
            col_of(x, ldc as int),
        ) by {
            let (i, j) = (row_of(x, ldc as int), col_of(x, ldc as int));
            let r = if i < mi {
                i
            } else {
                i - mi
            };
            let t = if j < ni {
                j
            } else {
                j - ni
            };
            lemma_cell(r, t, ni);
            lemma_row_fits(r, mi, ni);
            assert((mi - 1) * ni + ni == mi * ni) by (nonlinear_arith);
            let y = r * ni + t;
            assert(p0@[y] == p0@[y]);
        }
    }
}

/// One entry out of the seven products, `y` being its position in each of them.
pub open spec fn combined<S: Number>(
    p0: S,
    p1: S,
    p2: S,
    p3: S,
    p4: S,
    p5: S,
    p6: S,
    lower: bool,
    right: bool,
) -> S {
    if !lower {
        if !right {
            p0.spec_plus(p3).spec_minus(p4).spec_plus(p6)
        } else {
            p2.spec_plus(p4)
        }
    } else if !right {
        p1.spec_plus(p3)
    } else {
        p0.spec_minus(p1).spec_plus(p2).spec_plus(p5)
    }
}

/// Writes the four quadrants of the result.
#[verifier::loop_isolation(false)]
fn combine<S: Number>(
    c: &mut [S],
    ldc: usize,
    m2: usize,
    n2: usize,
    p0: &Vec<S>,
    p1: &Vec<S>,
    p2: &Vec<S>,
    p3: &Vec<S>,
    p4: &Vec<S>,
    p5: &Vec<S>,
    p6: &Vec<S>,
    Ghost(rows): Ghost<int>,
    Ghost(cols): Ghost<int>,
)
    requires
        0 < m2,
        0 < n2,
        2 * m2 <= rows <= usize::MAX,
        2 * n2 <= cols <= ldc,
        (rows - 1) * ldc + cols <= old(c)@.len(),
        p0@.len() == m2 * n2,
        p1@.len() == m2 * n2,
        p2@.len() == m2 * n2,
        p3@.len() == m2 * n2,
        p4@.len() == m2 * n2,
        p5@.len() == m2 * n2,
        p6@.len() == m2 * n2,
    ensures
        final(c)@.len() == old(c)@.len(),
        forall|x: int|
            0 <= x < final(c)@.len() ==> #[trigger] final(c)@[x] == if in_block(
                x,
                ldc as int,
                0,
                2 * m2,
                0,
                2 * n2,
            ) {
                let (i, j) = (row_of(x, ldc as int), col_of(x, ldc as int));
                let y = (if i < m2 { i } else { i - m2 }) * n2 + (if j < n2 { j } else { j - n2 });
                combined(
                    p0@[y],
                    p1@[y],
                    p2@[y],
                    p3@[y],
                    p4@[y],
                    p5@[y],
                    p6@[y],
                    i >= m2,
                    j >= n2,
                )
            } else {
                old(c)@[x]
            },
{
    let len: usize = c.len();
    let ghost ld = ldc as int;
    let m: usize = 2 * m2;
    let n: usize = 2 * n2;
    for i in 0..m
        invariant
            c@.len() == len,
            forall|x: int|
                0 <= x < len ==> #[trigger] c@[x] == if in_block(x, ld, 0, i as int, 0, n as int) {
                    let (r, t) = (row_of(x, ld), col_of(x, ld));
                    let y = (if r < m2 { r } else { r - m2 }) * n2 + (if t < n2 {
                        t
                    } else {
                        t - n2
                    });
                    combined(
                        p0@[y],
                        p1@[y],
                        p2@[y],
                        p3@[y],
                        p4@[y],
                        p5@[y],
                        p6@[y],
                        r >= m2,
                        t >= n2,
                    )
                } else {
                    old(c)@[x]
                },
    {
        let r: usize = if i < m2 {
            i
        } else {
            i - m2
        };
        proof {
            lemma_row_fits(i as int, rows, ld);
            lemma_row_fits(r as int, m2 as int, n2 as int);
            assert((m2 - 1) * n2 + n2 == m2 * n2) by (nonlinear_arith);
        }
        let row: usize = i * ldc;
        let plen: usize = p0.len();
        let prow: usize = r * n2;
        for j in 0..n
            invariant
                c@.len() == len,
                forall|x: int|
                    0 <= x < len ==> #[trigger] c@[x] == if in_block(
                        x,
                        ld,
                        0,
                        i as int,
                        0,
                        n as int,
                    ) || in_block(x, ld, i as int, i + 1, 0, j as int) {
                        let (r, t) = (row_of(x, ld), col_of(x, ld));
                        let y = (if r < m2 { r } else { r - m2 }) * n2 + (if t < n2 {
                            t
                        } else {
                            t - n2
                        });
                        combined(
                            p0@[y],
                            p1@[y],
                            p2@[y],
                            p3@[y],
                            p4@[y],
                            p5@[y],
                            p6@[y],
                            r >= m2,
                            t >= n2,
                        )
                    } else {
                        old(c)@[x]
                    },
        {
            let t: usize = if j < n2 {
                j
            } else {
                j - n2
            };
            let y: usize = prow + t;
            proof {
                lemma_cell(i as int, j as int, ld);
            }
            let v = if i < m2 {
                if j < n2 {
                    p0[y].plus(p3[y]).minus(p4[y]).plus(p6[y])
                } else {
                    p2[y].plus(p4[y])
                }
            } else if j < n2 {
                p1[y].plus(p3[y])
            } else {
                p0[y].minus(p1[y]).plus(p2[y]).plus(p5[y])
            };
            c[row + j] = v;
        }
    }
}

/// The last row of the product, over the first `kf` products and `nf` columns.
#[verifier::loop_isolation(false)]
fn peel_row<S: Number>(
    a: &[S],
    lda: usize,
    b: &[S],
    ldb: usize,
    c: &mut [S],
    ldc: usize,
    row: usize,
    kf: usize,
    nf: usize,
    Ghost(inner): Ghost<int>,
    Ghost(cols): Ghost<int>,
)
    requires
        0 < kf <= inner,
        0 < nf <= cols <= ldc,
        op_need(Transpose::NoTrans, row + 1, inner, lda as int) <= a@.len(),
        op_need(Transpose::NoTrans, inner, cols, ldb as int) <= b@.len(),
        row * ldc + cols <= old(c)@.len(),
        nf * kf <= usize::MAX,
    ensures
        final(c)@.len() == old(c)@.len(),
        forall|x: int|
            0 <= x < final(c)@.len() ==> #[trigger] final(c)@[x] == if in_block(
                x,
                ldc as int,
                row as int,
                row + 1,
                0,
                nf as int,
            ) {
                classical(
                    1,
                    nf as int,
                    kf as int,
                    shifted(operand(Transpose::NoTrans, a@, lda as int), row as int, 0),
                    operand(Transpose::NoTrans, b@, ldb as int),
                    old(c)@[x],
                    0,
                    col_of(x, ldc as int),
                )
            } else {
                old(c)@[x]
            },
{
    let len: usize = c.len();
    let alen: usize = a.len();
    let ghost ld = ldc as int;
    let ghost aa = shifted(operand(Transpose::NoTrans, a@, lda as int), row as int, 0);
    let ghost bb = operand(Transpose::NoTrans, b@, ldb as int);
    proof {
        lemma_row_fits(kf - 1, inner, ldb as int);
        assert(0 <= row * lda) by (nonlinear_arith)
            requires
                0 <= row,
                0 <= lda,
        ;
        assert(0 <= row * ldc) by (nonlinear_arith)
            requires
                0 <= row,
                0 <= ldc,
        ;
    }
    let arow = vstd::slice::slice_subrange(a, row * lda, alen);
    let base: usize = row * ldc;
    let mut crow: Vec<S> = Vec::new();
    for j in 0..nf
        invariant
            crow@ =~= c@.subrange(base as int, base + j),
    {
        proof {
            lemma_cell(row as int, j as int, ld);
        }
        crow.push(c[base + j]);
    }
    sgemm(
        Transpose::NoTrans,
        Transpose::NoTrans,
        1,
        nf,
        kf,
        S::one(),
        arow,
        lda,
        b,
        ldb,
        S::zero(),
        &mut crow,
        nf,
    );
    proof {
        let ar = operand(Transpose::NoTrans, arow@, lda as int);
        assert(agree(ar, aa, 1, kf as int));
        assert forall|j: int| 0 <= j < nf implies #[trigger] crow@[j] == classical(
            1,
            nf as int,
            kf as int,
            aa,
            bb,
            old(c)@[base + j],
            0,
            j,
        ) by {
            lemma_cell(0, j, nf as int);
            assert(in_block(j, nf as int, 0, 1, 0, nf as int));
            lemma_gemm_agree(
                Transpose::NoTrans,
                1,
                nf as int,
                kf as int,
                S::spec_one(),
                ar,
                aa,
                bb,
                bb,
                S::spec_zero(),
                old(c)@[base + j],
                0,
                j,
            );
        }
    }
    for j in 0..nf
        invariant
            c@.len() == len,
            forall|x: int|
                0 <= x < len ==> #[trigger] c@[x] == if in_block(
                    x,
                    ld,
                    row as int,
                    row + 1,
                    0,
                    j as int,
                ) {
                    crow@[col_of(x, ld)]
                } else {
                    old(c)@[x]
                },
    {
        proof {
            lemma_cell(row as int, j as int, ld);
        }
        c[base + j] = crow[j];
    }
    proof {
        assert forall|x: int|
            0 <= x < len && in_block(x, ld, row as int, row + 1, 0, nf as int) implies (
        #[trigger] c@[x]) == classical(
            1,
            nf as int,
            kf as int,
            aa,
            bb,
            old(c)@[x],
            0,
            col_of(x, ld),
        ) by {
            lemma_cell(row as int, col_of(x, ld), ld);
        }
    }
}

/// The last column of the product, over the first `kf` products and all `m` rows.
#[verifier::loop_isolation(false)]
fn peel_col<S: Number>(
    a: &[S],
    lda: usize,
    b: &[S],
    ldb: usize,
    c: &mut [S],
    ldc: usize,
    m: usize,
    kf: usize,
    col: usize,
    Ghost(inner): Ghost<int>,
    Ghost(cols): Ghost<int>,
)
    requires
        0 < m,
        0 < kf <= inner,
        col < cols <= ldc,
        op_need(Transpose::NoTrans, m as int, inner, lda as int) <= a@.len(),
        op_need(Transpose::NoTrans, inner, cols, ldb as int) <= b@.len(),
        (m - 1) * ldc + cols <= old(c)@.len(),
        m * kf <= usize::MAX,
    ensures
        final(c)@.len() == old(c)@.len(),
        forall|x: int|
            0 <= x < final(c)@.len() ==> #[trigger] final(c)@[x] == if in_block(
                x,
                ldc as int,
                0,
                m as int,
                col as int,
                col + 1,
            ) {
                classical(
                    m as int,
                    1,
                    kf as int,
                    operand(Transpose::NoTrans, a@, lda as int),
                    shifted(operand(Transpose::NoTrans, b@, ldb as int), 0, col as int),
                    S::spec_zero(),
                    row_of(x, ldc as int),
                    0,
                )
            } else {
                old(c)@[x]
            },
{
    let len: usize = c.len();
    let ghost ld = ldc as int;
    let ghost aa = operand(Transpose::NoTrans, a@, lda as int);
    let ghost bb = shifted(operand(Transpose::NoTrans, b@, ldb as int), 0, col as int);
    let mut bcol: Vec<S> = Vec::new();
    for p in 0..kf
        invariant
            bcol@ =~= Seq::new(p as nat, |p: int| bb(p, 0)),
    {
        bcol.push(load(Transpose::NoTrans, b, ldb, p, col, Ghost(inner), Ghost(cols)));
    }
    let mut ccol: Vec<S> = filled(S::zero(), m);
    proof {
        lemma_contiguous(kf as int, 1);
        lemma_contiguous(m as int, 1);
    }
    sgemm(
        Transpose::NoTrans,
        Transpose::NoTrans,
        m,
        1,
        kf,
        S::one(),
        a,
        lda,
        &bcol,
        1,
        S::zero(),
        &mut ccol,
        1,
    );
    proof {
        let bc = operand(Transpose::NoTrans, bcol@, 1);
        assert(agree(bc, bb, kf as int, 1));
        assert forall|i: int| 0 <= i < m implies #[trigger] ccol@[i] == classical(
            m as int,
            1,
            kf as int,
            aa,
            bb,
            S::spec_zero(),
            i,
            0,
        ) by {
            lemma_cell(i, 0, 1);
            assert(in_block(i, 1, 0, m as int, 0, 1));
            lemma_gemm_agree(
                Transpose::NoTrans,
                m as int,
                1,
                kf as int,
                S::spec_one(),
                aa,
                aa,
                bc,
                bb,
                S::spec_zero(),
                S::spec_zero(),
                i,
                0,
            );
        }
    }
    for i in 0..m
        invariant
            c@.len() == len,
            forall|x: int|
                0 <= x < len ==> #[trigger] c@[x] == if in_block(
                    x,
                    ld,
                    0,
                    i as int,
                    col as int,
                    col + 1,
                ) {
                    ccol@[row_of(x, ld)]
                } else {
                    old(c)@[x]
                },
    {
        proof {
            lemma_cell(i as int, col as int, ld);
            lemma_row_fits(i as int, m as int, ld);
        }
        c[i * ldc + col] = ccol[i];
    }
}

/// Adds the last of an odd number of products to all of rows `0..m`, columns `0..n`.
#[verifier::loop_isolation(false)]
fn peel_inner<S: Number>(
    a: &[S],
    lda: usize,
    b: &[S],
    ldb: usize,
    c: &mut [S],
    ldc: usize,
    m: usize,
    n: usize,
    kf: usize,
)
    requires
        0 < m,
        0 < n <= ldc,
        op_need(Transpose::NoTrans, m as int, kf + 1, lda as int) <= a@.len(),
        op_need(Transpose::NoTrans, kf + 1, n as int, ldb as int) <= b@.len(),
        (m - 1) * ldc + n <= old(c)@.len(),
    ensures
        final(c)@.len() == old(c)@.len(),
        forall|x: int|
            0 <= x < final(c)@.len() ==> #[trigger] final(c)@[x] == if in_block(
                x,
                ldc as int,
                0,
                m as int,
                0,
                n as int,
            ) {
                let av = op_at(
                    Transpose::NoTrans,
                    a@,
                    lda as int,
                    row_of(x, ldc as int),
                    kf as int,
                );
                if av.spec_same(S::spec_zero()) {
                    old(c)@[x]
                } else {
                    old(c)@[x].spec_plus(
                        av.spec_times(
                            op_at(
                                Transpose::NoTrans,
                                b@,
                                ldb as int,
                                kf as int,
                                col_of(x, ldc as int),
                            ),
                        ),
                    )
                }
            } else {
                old(c)@[x]
            },
{
    let len: usize = c.len();
    let ghost ld = ldc as int;
    let ghost aa = operand(Transpose::NoTrans, a@, lda as int);
    let ghost bb = operand(Transpose::NoTrans, b@, ldb as int);
    for i in 0..m
        invariant
            c@.len() == len,
            forall|x: int|
                0 <= x < len ==> #[trigger] c@[x] == if in_block(x, ld, 0, i as int, 0, n as int)
                    && !aa(row_of(x, ld), kf as int).spec_same(S::spec_zero()) {
                    old(c)@[x].spec_plus(
                        aa(row_of(x, ld), kf as int).spec_times(bb(kf as int, col_of(x, ld))),
                    )
                } else {
                    old(c)@[x]
                },
    {
        let av = load(Transpose::NoTrans, a, lda, i, kf, Ghost(m as int), Ghost(kf + 1));
        if !av.same(S::zero()) {
            proof {
                lemma_row_fits(i as int, m as int, ld);
            }
            let row: usize = i * ldc;
            for j in 0..n
                invariant
                    c@.len() == len,
                    forall|x: int|
                        0 <= x < len ==> #[trigger] c@[x] == if (in_block(
                            x,
                            ld,
                            0,
                            i as int,
                            0,
                            n as int,
                        ) || in_block(x, ld, i as int, i + 1, 0, j as int)) && !aa(
                            row_of(x, ld),
                            kf as int,
                        ).spec_same(S::spec_zero()) {
                            old(c)@[x].spec_plus(
                                aa(row_of(x, ld), kf as int).spec_times(
                                    bb(kf as int, col_of(x, ld)),
                                ),
                            )
                        } else {
                            old(c)@[x]
                        },
            {
                proof {
                    lemma_cell(i as int, j as int, ld);
                }
                let bv = load(Transpose::NoTrans, b, ldb, kf, j, Ghost(kf + 1), Ghost(n as int));
                let v = c[row + j].plus(av.times(bv));
                c[row + j] = v;
            }
        }
    }
}

/// Product by halving, into rows `0..m`, columns `0..n` of `c`.
fn strassen_rec<S: Number>(
    a: &[S],
    lda: usize,
    b: &[S],
    ldb: usize,
    c: &mut [S],
    ldc: usize,
    m: usize,
    k: usize,
    n: usize,
    depth: u32,
)
    requires
        op_need(Transpose::NoTrans, m as int, k as int, lda as int) <= a@.len(),
        op_need(Transpose::NoTrans, k as int, n as int, ldb as int) <= b@.len(),
        op_need(Transpose::NoTrans, m as int, n as int, ldc as int) <= old(c)@.len(),
        n <= ldc,
        m * n * k <= usize::MAX,
        depth <= 7,
    ensures
        final(c)@.len() == old(c)@.len(),
        forall|x: int|
            0 <= x < final(c)@.len() ==> #[trigger] final(c)@[x] == if in_block(
                x,
                ldc as int,
                0,
                m as int,
                0,
                n as int,
            ) {
                strassen_entry(
                    operand(Transpose::NoTrans, a@, lda as int),
                    operand(Transpose::NoTrans, b@, ldb as int),
                    operand(Transpose::NoTrans, old(c)@, ldc as int),
                    m as int,
                    k as int,
                    n as int,
                    depth as int,
                    row_of(x, ldc as int),
                    col_of(x, ldc as int),
                )
            } else {
                old(c)@[x]
            },
    decreases 8 - depth, 5int,
{
    let ghost ld = ldc as int;
    let ghost cc = operand(Transpose::NoTrans, c@, ld);
    proof {
        assert forall|x: int|
            0 <= x && #[trigger] in_block(x, ld, 0, m as int, 0, n as int) implies c@[x] == cc(
            row_of(x, ld),
            col_of(x, ld),
        ) by {
            lemma_cell(row_of(x, ld), col_of(x, ld), ld);
        }
    }
    if m <= GEMM_STRASSEN_THRESHOLD || k <= GEMM_STRASSEN_THRESHOLD || n
        <= GEMM_STRASSEN_THRESHOLD || depth > STRASSEN_MAX_DEPTH {
        sgemm(
            Transpose::NoTrans,
            Transpose::NoTrans,
            m,
            n,
            k,
            S::one(),
            a,
            lda,
            b,
            ldb,
            S::zero(),
            c,
            ldc,
        );
        return;
    }
    let mf: usize = m - m % 2;
    let kf: usize = k - k % 2;
    let nf: usize = n - n % 2;
    proof {
        assert(mf * nf * kf <= m * n * k) by (nonlinear_arith)
            requires
                0 <= mf <= m,
                0 <= nf <= n,
                0 <= kf <= k,
        ;
        assert(nf * kf <= m * n * k) by (nonlinear_arith)
            requires
                1 <= m,
                0 <= nf <= n,
                0 <= kf <= k,
        ;
        assert(m * kf <= m * n * k) by (nonlinear_arith)
            requires
                0 <= m,
                1 <= n,
                0 <= kf <= k,
        ;
    }
    strassen_core(
        a,
        lda,
        b,
        ldb,
        c,
        ldc,
        mf,
        kf,
        nf,
        depth,
        Ghost(m as int),
        Ghost(k as int),
        Ghost(n as int),
    );
    if m % 2 == 1 {
        peel_row(a, lda, b, ldb, c, ldc, mf, kf, nf, Ghost(k as int), Ghost(n as int));
    }
    if n % 2 == 1 {
        peel_col(a, lda, b, ldb, c, ldc, m, kf, nf, Ghost(k as int), Ghost(n as int));
    }
    if k % 2 == 1 {
        peel_inner(a, lda, b, ldb, c, ldc, m, n, kf);
    }
}

/// `C = A * B` by halving, for large contiguous matrices of `m` by `k` and `k` by `n` entries.
pub fn gemm_strassen<S: Number>(a: &[S], b: &[S], c: &mut [S], m: usize, k: usize, n: usize)
    requires
        m * k <= a@.len(),
        k * n <= b@.len(),
        m * n <= old(c)@.len(),
        m * n * k <= usize::MAX,
    ensures
        final(c)@.len() == old(c)@.len(),
        forall|x: int|
            0 <= x < m * n ==> #[trigger] final(c)@[x] == strassen_entry(
                operand(Transpose::NoTrans, a@, k as int),
                operand(Transpose::NoTrans, b@, n as int),
                operand(Transpose::NoTrans, old(c)@, n as int),
                m as int,
                k as int,
                n as int,
                0,
                row_of(x, n as int),
                col_of(x, n as int),
            ),
        forall|x: int| m * n <= x < final(c)@.len() ==> #[trigger] final(c)@[x] == old(c)@[x],
{
    proof {
        lemma_contiguous(m as int, k as int);
        lemma_contiguous(k as int, n as int);
        lemma_contiguous(m as int, n as int);
    }
    strassen_rec(a, k, b, n, c, n, m, k, n, 0);
}

/// The position of row `i`, column `p` lies within contiguous storage.
pub proof fn lemma_in_storage(i: int, p: int, m: int, k: int)
    requires
        0 <= i < m,
        0 <= p < k,
    ensures
        0 <= i * k + p < m * k,
{
    lemma_row_fits(i, m, k);
    assert((m - 1) * k + k == m * k) by (nonlinear_arith);
}

/// The transpose of a matrix.
pub open spec fn transposed<S>(a: Mat<S>) -> Mat<S> {
    |i: int, p: int| a(p, i)
}

/// The product of two matrices into cleared storage.
pub open spec fn mat_product<S: Number>(
    tb: Transpose,
    m: int,
    n: int,
    k: int,
    a: Mat<S>,
    b: Mat<S>,
) -> Mat<S> {
    |i: int, j: int|
        gemm_entry(
            tb,
            m,
            n,
            k,
            S::spec_one(),
            a,
            b,
            S::spec_zero(),
            S::spec_zero(),
            i,
            j,
        )
}

/// Zero adds nothing and, as a left factor, leaves nothing.
pub open spec fn zero_absorbs<S: Number>() -> bool {
    let z = S::spec_zero();
    &&& z.spec_same(z)
    &&& forall|x: S| #[trigger] z.spec_times(x) == z
    &&& forall|x: S| #[trigger] x.spec_plus(z) == x
}

proof fn lemma_zero_small<S: Number>(alpha: S, a: Mat<S>, b: Mat<S>, i: int, j: int, p: int)
    requires
        zero_absorbs::<S>(),
        forall|t: int| 0 <= t < p ==> #[trigger] a(i, t) == S::spec_zero(),
    ensures
        small_acc(alpha, a, b, S::spec_zero(), i, j, p) == S::spec_zero(),
    decreases p,
{
    if p > 0 {
        lemma_zero_small(alpha, a, b, i, j, p - 1);
        assert(a(i, p - 1) == S::spec_zero());
    }
}

proof fn lemma_zero_panel<S: Number>(
    tb: Transpose,
    alpha: S,
    a: Mat<S>,
    b: Mat<S>,
    i: int,
    j: int,
    lo: int,
    hi: int,
)
    requires
        zero_absorbs::<S>(),
        0 <= lo,
        forall|t: int| 0 <= t < hi ==> #[trigger] a(i, t) == S::spec_zero(),
    ensures
        panel_sum(tb, alpha, a, b, i, j, lo, hi) == S::spec_zero(),
    decreases hi - lo,
{
    if lo < hi {
        lemma_zero_panel(tb, alpha, a, b, i, j, lo, hi - 1);
        assert(a(i, hi - 1) == S::spec_zero());
    }
}

proof fn lemma_zero_blocked<S: Number>(
    tb: Transpose,
    alpha: S,
    a: Mat<S>,
    b: Mat<S>,
    k: int,
    i: int,
    j: int,
    q: int,
)
    requires
        zero_absorbs::<S>(),
        forall|t: int| 0 <= t < k ==> #[trigger] a(i, t) == S::spec_zero(),
    ensures
        blocked_acc(tb, alpha, a, b, k, S::spec_zero(), i, j, q) == S::spec_zero(),
    decreases q,
{
    if q > 0 {
        lemma_zero_blocked(tb, alpha, a, b, k, i, j, q - 1);
        let lo = (q - 1) * KC;
        let hi = if lo + KC <= k {
            lo + KC
        } else {
            k
        };
        lemma_zero_panel(tb, alpha, a, b, i, j, lo, hi);
    }
}

/// A row of zeros gives a row of zeros.
pub proof fn lemma_zero_row<S: Number>(
    tb: Transpose,
    m: int,
    n: int,
    k: int,
    a: Mat<S>,
    b: Mat<S>,
    i: int,
    j: int,
)
    requires
        zero_absorbs::<S>(),
        forall|t: int| 0 <= t < k ==> #[trigger] a(i, t) == S::spec_zero(),
    ensures
        mat_product(tb, m, n, k, a, b)(i, j) == S::spec_zero(),
{
    let (o, z) = (S::spec_one(), S::spec_zero());
    assert(scaled(z, z) == z);
    lemma_zero_small(o, a, b, i, j, k);
    lemma_zero_blocked(tb, o, a, b, k, i, j, panels(k));
}

/// The product of two operands in new storage.
pub(crate) fn fresh_product<S: Number>(
    transa: Transpose,
    transb: Transpose,
    m: usize,
    n: usize,
    k: usize,
    a: &[S],
    lda: usize,
    b: &[S],
    ldb: usize,
    Ghost(aa): Ghost<Mat<S>>,
    Ghost(bb): Ghost<Mat<S>>,
) -> (r: Vec<S>)
    requires
        op_need(transa, m as int, k as int, lda as int) <= a@.len(),
        op_need(transb, k as int, n as int, ldb as int) <= b@.len(),
        m * n <= usize::MAX,
        agree(operand(transa, a@, lda as int), aa, m as int, k as int),
        agree(operand(transb, b@, ldb as int), bb, k as int, n as int),
    ensures
        holds(
            r@,
            mat_product(transb, m as int, n as int, k as int, aa, bb),
            m as int,
            n as int,
        ),
{
    let mut r: Vec<S> = filled(S::zero(), m * n);
    proof {
        lemma_contiguous(m as int, n as int);
    }
    sgemm(
        transa,
        transb,
        m,
        n,
        k,
        S::one(),
        a,
        lda,
        b,
        ldb,
        S::zero(),
        &mut r,
        n,
    );
    proof {
        let c = mat_product(transb, m as int, n as int, k as int, aa, bb);
        assert forall|x: int| 0 <= x < r@.len() implies #[trigger] r@[x] == c(
            row_of(x, n as int),
            col_of(x, n as int),
        ) by {
            assert(in_block(x, n as int, 0, m as int, 0, n as int));
            lemma_gemm_agree(
                transb,
                m as int,
                n as int,
                k as int,
                S::spec_one(),
                operand(transa, a@, lda as int),
                aa,
                operand(transb, b@, ldb as int),
                bb,
                S::spec_zero(),
                S::spec_zero(),
                row_of(x, n as int),
                col_of(x, n as int),
            );
        }
        lemma_holds_from(r@, c, m as int, n as int);
    }
    r
}

// ---- The length of a vector, and providers of matrix products

/// The squares of the elements.
pub open spec fn element_squares<S: Number>(x: Seq<S>) -> spec_fn(int) -> S {
    |i: int| x[i].spec_times(x[i])
}

/// The length of a vector: the root of the sum of the squares.
pub fn snrm2<S: Real>(n: usize, x: &[S]) -> (r: S)
    requires
        n <= x@.len(),
    ensures
        r == number::sum_n(element_squares(x@), n as int).spec_sqrt(),
{
    let mut s = S::zero();
    for i in 0..n
        invariant
            n <= x@.len(),
            s == number::sum_n(element_squares(x@), i as int),
    {
        s = s.plus(x[i].times(x[i]));
    }
    s.sqrt()
}

/// A provider of matrix products.
pub trait BlasBackend: Send + Sync {
    /// What the provider is called.
    fn name(&self) -> (r: &str)
        ensures
            r@.len() > 0,
    ;

    /// `C = alpha * op(A) * op(B) + beta * C`, where what lies between the rows of `C` is kept.
    /// In which order the products of an entry are summed is the provider's own.
    fn sgemm<S: Number>(
        &self,
        transa: Transpose,
        transb: Transpose,
        m: usize,
        n: usize,
        k: usize,
        alpha: S,
        a: &[S],
        lda: usize,
        b: &[S],
        ldb: usize,
        beta: S,
        c: &mut [S],
        ldc: usize,
    )
        requires
            op_need(transa, m as int, k as int, lda as int) <= a@.len(),
            op_need(transb, k as int, n as int, ldb as int) <= b@.len(),
            op_need(Transpose::NoTrans, m as int, n as int, ldc as int) <= old(c)@.len(),
            n <= ldc,
        ensures
            final(c)@.len() == old(c)@.len(),
            forall|x: int|
                0 <= x < final(c)@.len() && !in_block(x, ldc as int, 0, m as int, 0, n as int)
                    ==> #[trigger] final(c)@[x] == old(c)@[x],
            forall|x: int|
                0 <= x < final(c)@.len() && in_block(x, ldc as int, 0, m as int, 0, n as int)
                    ==> ways::adds_up(
                    #[trigger] final(c)@[x],
                    k as int,
                    alpha,
                    ways::row(operand(transa, a@, lda as int), row_of(x, ldc as int)),
                    ways::column(operand(transb, b@, ldb as int), col_of(x, ldc as int)),
                    scaled(old(c)@[x], beta),
                ),
    ;
}

/// What a processor has for matrix products, and whether its widest registers are wanted.
#[derive(Debug, Clone, Copy)]
pub struct Processor {
    pub avx2: bool,
    pub fma: bool,
    pub avx512f: bool,
    pub wants_avx512: bool,
}

/// What the kernels for a processor are called.
pub open spec fn kernel_text(p: Processor) -> Seq<char> {
    if p.avx2 && p.fma {
        if p.wants_avx512 && p.avx512f {
            "native-avx512f (4x16 tile)"@
        } else {
            "native-avx2+fma (4x16 tile)"@
        }
    } else {
        "native-scalar"@
    }
}

/// What the kernels for a processor are called.
pub fn kernel_name(p: Processor) -> (r: &'static str)
    ensures
        r@ == kernel_text(p),
{
    if p.avx2 && p.fma {
        if p.wants_avx512 && p.avx512f {
            "native-avx512f (4x16 tile)"
        } else {
            "native-avx2+fma (4x16 tile)"
        }
    } else {
        "native-scalar"
    }
}

/// A letter of the alphabet, small or capital.
pub open spec fn is_letter(c: char, small: char, capital: char) -> bool {
    c == small || c == capital
}

/// A setting that asks for the widest registers: one, or `true` in letters of either size.
pub open spec fn asks_for_avx512(setting: Option<Seq<char>>) -> bool {
    match setting {
        Some(s) => {
            ||| s == seq!['1']
            ||| {
                &&& s.len() == 4
                &&& is_letter(s[0], 't', 'T')
                &&& is_letter(s[1], 'r', 'R')
                &&& is_letter(s[2], 'u', 'U')
                &&& is_letter(s[3], 'e', 'E')
            }
        },
        None => false,
    }
}

/// Whether a setting asks for the widest registers.
pub fn want_avx512(setting: Option<&str>) -> (r: bool)
    ensures
        r == asks_for_avx512(
            match setting {
                Some(s) => Some(s@),
                None => None,
            },
        ),
{
    match setting {
        Some(s) => {
            let v = chars_of(s);
            if v.len() == 1 {
                let one = v[0] == '1';
                assert(one ==> v@ =~= seq!['1']);
                one
            } else {
                v.len() == 4 && (v[0] == 't' || v[0] == 'T') && (v[1] == 'r' || v[1] == 'R') && (
                v[2] == 'u' || v[2] == 'U') && (v[3] == 'e' || v[3] == 'E')
            }
        },
        None => false,
    }
}

/// The products of this library, by kernels that ask nothing of the processor.
#[derive(Debug, Clone, Copy)]
pub struct NativeBackend;

impl Default for NativeBackend {
    fn default() -> (r: Self)
        ensures
            r == NativeBackend,
    {
        NativeBackend
    }
}

impl BlasBackend for NativeBackend {
    fn name(&self) -> (r: &str)
        ensures
            r@ == kernel_text(
                Processor { avx2: false, fma: false, avx512f: false, wants_avx512: false },
            ),
    {
        proof {
            reveal_strlit("native-scalar");
        }
        kernel_name(Processor { avx2: false, fma: false, avx512f: false, wants_avx512: false })
    }

    fn sgemm<S: Number>(
        &self,
        transa: Transpose,
        transb: Transpose,
        m: usize,
        n: usize,
        k: usize,
        alpha: S,
        a: &[S],
        lda: usize,
        b: &[S],
        ldb: usize,
        beta: S,
        c: &mut [S],
        ldc: usize,
    )
        ensures
            forall|x: int|
                0 <= x < final(c)@.len() && in_block(x, ldc as int, 0, m as int, 0, n as int)
                    ==> #[trigger] final(c)@[x] == gemm_entry(
                    transb,
                    m as int,
                    n as int,
                    k as int,
                    alpha,
                    operand(transa, a@, lda as int),
                    operand(transb, b@, ldb as int),
                    beta,
                    old(c)@[x],
                    row_of(x, ldc as int),
                    col_of(x, ldc as int),
                ),
    {
        let ghost first = c@;
        sgemm(transa, transb, m, n, k, alpha, a, lda, b, ldb, beta, c, ldc);
        proof {
            let (l, r) = (operand(transa, a@, lda as int), operand(transb, b@, ldb as int));
            assert forall|x: int|
                0 <= x < c@.len() && in_block(
                    x,
                    ldc as int,
                    0,
                    m as int,
                    0,
                    n as int,
                ) implies ways::adds_up(
                #[trigger] c@[x],
                k as int,
                alpha,
                ways::row(l, row_of(x, ldc as int)),
                ways::column(r, col_of(x, ldc as int)),
                scaled(first[x], beta),
            ) by {
                ways::lemma_entry_adds_up(
                    transb,
                    m as int,
                    n as int,
                    k as int,
                    alpha,
                    l,
                    r,
                    beta,
                    first[x],
                    row_of(x, ldc as int),
                    col_of(x, ldc as int),
                );
            }
        }
    }
}

} // verus!
