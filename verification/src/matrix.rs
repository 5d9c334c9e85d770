//! Dense numeric matrices: row-major storage, element access, multiplication,
//! exponentiation and in-place accumulation, together with the algebraic laws
//! of those operations (identity, associativity, the power recurrence).

use crate::sums::{
    lemma_sum_block, lemma_sum_ext, lemma_sum_one_point, lemma_sum_scale, lemma_sum_scale_left,
    lemma_sum_swap, sum,
};
use vstd::arithmetic::div_mod::{lemma_fundamental_div_mod, lemma_fundamental_div_mod_converse};
use vstd::arithmetic::mul::{
    lemma_mul_inequality, lemma_mul_is_associative, lemma_mul_is_commutative,
    lemma_mul_is_distributive_sub_other_way, lemma_mul_nonnegative,
};
use vstd::pervasive::VecAdditionalExecFns;
use vstd::prelude::*;

verus! {

/// Mathematical model of a dense matrix: the dimensions and the flat
/// row-major contents as unbounded integers.
#[verifier::ext_equal]
pub ghost struct MatrixModel {
    pub rows: nat,
    pub cols: nat,
    pub elems: Seq<int>,
}

impl MatrixModel {
    /// The flat storage holds exactly `rows * cols` elements.
    pub open spec fn wf(self) -> bool {
        self.elems.len() == self.rows * self.cols
    }

    /// `(i, j)` is a legal position of this matrix.
    pub open spec fn in_bounds(self, i: int, j: int) -> bool {
        0 <= i < self.rows && 0 <= j < self.cols
    }

    /// The element at row `i`, column `j`: row-major offset `i * cols + j`.
    pub open spec fn entry(self, i: int, j: int) -> int {
        self.elems[i * self.cols + j]
    }
}

/// A legal position maps to a flat offset inside the storage.
pub proof fn lemma_flat_index_bounds(m: MatrixModel, i: int, j: int)
    requires
        m.wf(),
        m.in_bounds(i, j),
    ensures
        0 <= i * m.cols + j < m.elems.len(),
        i * m.cols >= 0,
{
    lemma_mul_nonnegative(i, m.cols as int);
    lemma_mul_inequality(i, m.rows - 1, m.cols as int);
    lemma_mul_is_distributive_sub_other_way(m.cols as int, m.rows as int, 1);
}

/// The row and column can be read back from a flat row-major offset.
pub proof fn lemma_flat_index_decode(m: MatrixModel, i: int, j: int)
    requires
        m.in_bounds(i, j),
    ensures
        (i * m.cols + j) / m.cols as int == i,
        (i * m.cols + j) % m.cols as int == j,
{
    lemma_fundamental_div_mod_converse(i * m.cols + j, m.cols as int, i, j);
}

/// The `k`-th term of the inner product behind entry `(i, j)` of `a * b`.
pub open spec fn product_at(a: MatrixModel, b: MatrixModel, i: int, j: int, k: int) -> int {
    a.entry(i, k) * b.entry(k, j)
}

/// The inner product behind entry `(i, j)` of `a * b`, as a function of the
/// summation index.
pub open spec fn product_term(a: MatrixModel, b: MatrixModel, i: int, j: int) -> spec_fn(
    int,
) -> int {
    |k: int| product_at(a, b, i, j, k)
}

/// The first `k` terms of the inner product behind entry `(i, j)` of `a * b`,
/// accumulated in ascending index order from an additive identity.
pub open spec fn product_prefix(a: MatrixModel, b: MatrixModel, i: int, j: int, k: nat) -> int {
    sum(k, product_term(a, b, i, j))
}

/// Entry `(i, j)` of the product `a * b`: the inner product of row `i` of `a`
/// with column `j` of `b`.
pub open spec fn product_entry(a: MatrixModel, b: MatrixModel, i: int, j: int) -> int {
    product_prefix(a, b, i, j, a.cols)
}

/// The matrix product. Its dimensions are `(a.rows, b.cols)`.
pub open spec fn mat_mul(a: MatrixModel, b: MatrixModel) -> MatrixModel {
    MatrixModel {
        rows: a.rows,
        cols: b.cols,
        elems: Seq::new(
            a.rows * b.cols,
            |x: int| product_entry(a, b, x / b.cols as int, x % b.cols as int),
        ),
    }
}

/// Every term and every partial inner product of `a * b` fits in the
/// element type, so the product can be computed without overflow.
pub open spec fn mul_fits(a: MatrixModel, b: MatrixModel) -> bool {
    &&& forall|i: int, j: int, k: int|
        0 <= i < a.rows && 0 <= j < b.cols && 0 <= k < a.cols ==> i64::MIN <= #[trigger] product_at(
            a,
            b,
            i,
            j,
            k,
        ) <= i64::MAX
    &&& forall|i: int, j: int, k: nat|
        0 <= i < a.rows && 0 <= j < b.cols && k <= a.cols ==> i64::MIN
            <= #[trigger] product_prefix(a, b, i, j, k) <= i64::MAX
}

/// Inside its dimensions, the product's entries are the inner products.
pub proof fn lemma_mat_mul_entry(a: MatrixModel, b: MatrixModel, i: int, j: int)
    requires
        0 <= i < a.rows,
        0 <= j < b.cols,
    ensures
        mat_mul(a, b).entry(i, j) == product_entry(a, b, i, j),
{
    let m = mat_mul(a, b);
    lemma_flat_index_bounds(m, i, j);
    lemma_flat_index_decode(m, i, j);
}

/// A matrix built from a flat row-major sequence gives every value back:
/// reading cell `(i, j)` reproduces element `i * cols + j` of the sequence.
pub proof fn lemma_flat_round_trip(rows: nat, cols: nat, elems: Seq<int>)
    requires
        elems.len() == rows * cols,
    ensures
        forall|i: int, j: int|
            0 <= i < rows && 0 <= j < cols ==> #[trigger] (MatrixModel { rows, cols, elems }).entry(
                i,
                j,
            ) == elems[i * cols + j],
{
}

/// The identity matrix of dimension `n`: ones on the diagonal, zeros off it.
pub open spec fn identity_model(n: nat) -> MatrixModel {
    MatrixModel {
        rows: n,
        cols: n,
        elems: Seq::new(
            n * n,
            |x: int| if x / n as int == x % n as int { 1int } else { 0int },
        ),
    }
}

/// The identity matrix is well formed and has the expected entries.
pub proof fn lemma_identity_entry(n: nat, i: int, j: int)
    requires
        0 <= i < n,
        0 <= j < n,
    ensures
        identity_model(n).wf(),
        identity_model(n).entry(i, j) == (if i == j { 1int } else { 0int }),
{
    let m = identity_model(n);
    lemma_flat_index_bounds(m, i, j);
    lemma_flat_index_decode(m, i, j);
}

/// Decompose a flat offset of an `rows x cols` grid into its row and column.
pub proof fn lemma_decode_in_range(rows: nat, cols: nat, x: int) -> (ij: (int, int))
    requires
        0 <= x < rows * cols,
    ensures
        ij.0 == x / cols as int,
        ij.1 == x % cols as int,
        0 <= ij.0 < rows,
        0 <= ij.1 < cols,
        x == ij.0 * cols + ij.1,
{
    assert(cols > 0) by (nonlinear_arith)
        requires
            0 <= x < rows * cols,
    ;
    lemma_fundamental_div_mod(x, cols as int);
    let i = x / cols as int;
    let j = x % cols as int;
    assert(0 <= i < rows) by (nonlinear_arith)
        requires
            x == cols * i + j,
            0 <= j < cols,
            0 <= x < rows * cols,
    ;
    lemma_mul_is_commutative(cols as int, i);
    (i, j)
}

proof fn lemma_mul_identity_right(a: MatrixModel)
    requires
        a.wf(),
    ensures
        mat_mul(a, identity_model(a.cols)) == a,
{
    let n = a.cols;
    let idm = identity_model(n);
    let m = mat_mul(a, idm);
    assert forall|x: int| 0 <= x < m.elems.len() implies m.elems[x] == a.elems[x] by {
        let ij = lemma_decode_in_range(a.rows, n, x);
        let i = ij.0;
        let j = ij.1;
        let f = product_term(a, idm, i, j);
        assert forall|k: int| 0 <= k < n && k != j implies #[trigger] f(k) == 0 by {
            lemma_identity_entry(n, k, j);
        };
        lemma_identity_entry(n, j, j);
        lemma_sum_one_point(n, f, j);
        assert(m.elems[x] == product_entry(a, idm, i, j));
        assert(product_entry(a, idm, i, j) == a.entry(i, j));
    };
    assert(m.elems =~= a.elems);
    assert(m =~= a);
}

proof fn lemma_mul_identity_left(a: MatrixModel)
    requires
        a.wf(),
    ensures
        mat_mul(identity_model(a.rows), a) == a,
{
    let n = a.rows;
    let idm = identity_model(n);
    let m = mat_mul(idm, a);
    assert(m.elems.len() == n * a.cols);
    assert forall|x: int| 0 <= x < m.elems.len() implies m.elems[x] == a.elems[x] by {
        let ij = lemma_decode_in_range(n, a.cols, x);
        let i = ij.0;
        let j = ij.1;
        let f = product_term(idm, a, i, j);
        assert forall|k: int| 0 <= k < n && k != i implies #[trigger] f(k) == 0 by {
            lemma_identity_entry(n, i, k);
        };
        lemma_identity_entry(n, i, i);
        lemma_sum_one_point(n, f, i);
        assert(m.elems[x] == product_entry(idm, a, i, j));
        assert(product_entry(idm, a, i, j) == a.entry(i, j));
    };
    assert(m.elems =~= a.elems);
    assert(m =~= a);
}

/// Multiplying by a compatible identity matrix on either side leaves a
/// matrix unchanged.
pub proof fn lemma_mul_identity(a: MatrixModel)
    requires
        a.wf(),
    ensures
        mat_mul(a, identity_model(a.cols)) == a,
        mat_mul(identity_model(a.rows), a) == a,
{
    lemma_mul_identity_right(a);
    lemma_mul_identity_left(a);
}

spec fn triple_at(a: MatrixModel, b: MatrixModel, c: MatrixModel, i: int, j: int, k: int, t: int) -> int {
    a.entry(i, k) * b.entry(k, t) * c.entry(t, j)
}

proof fn lemma_assoc_entry(a: MatrixModel, b: MatrixModel, c: MatrixModel, i: int, j: int)
    requires
        a.wf(),
        b.wf(),
        c.wf(),
        a.cols == b.rows,
        b.cols == c.rows,
        0 <= i < a.rows,
        0 <= j < c.cols,
    ensures
        product_entry(mat_mul(a, b), c, i, j) == product_entry(a, mat_mul(b, c), i, j),
{
    let p = a.cols;
    let q = b.cols;
    let ab = mat_mul(a, b);
    let bc = mat_mul(b, c);
    let both = |k: int, t: int| triple_at(a, b, c, i, j, k, t);
    let by_t = |t: int| sum(p, |k: int| both(k, t));
    let by_k = |k: int| sum(q, |t: int| both(k, t));

    // The left-hand inner products expand to mixed sums over k.
    let lhs_term = product_term(ab, c, i, j);
    assert forall|t: int| 0 <= t < q implies #[trigger] lhs_term(t) == by_t(t) by {
        lemma_mat_mul_entry(a, b, i, t);
        let f1 = product_term(a, b, i, t);
        let f2 = |k: int| both(k, t);
        assert forall|k: int| 0 <= k < p implies #[trigger] f2(k) == f1(k) * c.entry(t, j) by {
        };
        lemma_sum_scale(p, f1, f2, c.entry(t, j));
    };
    lemma_sum_ext(q, lhs_term, by_t);

    // Exchange the two summations.
    lemma_sum_swap(p, q, both);
    assert((|i0: int| sum(q, |j0: int| both(i0, j0))) =~= by_k);
    assert((|j0: int| sum(p, |i0: int| both(i0, j0))) =~= by_t);

    // The mixed sums over t collapse to the right-hand inner products.
    let rhs_term = product_term(a, bc, i, j);
    assert forall|k: int| 0 <= k < p implies #[trigger] by_k(k) == rhs_term(k) by {
        lemma_mat_mul_entry(b, c, k, j);
        let g1 = product_term(b, c, k, j);
        let g2 = |t: int| both(k, t);
        assert forall|t: int| 0 <= t < q implies #[trigger] g2(t) == a.entry(i, k) * g1(t) by {
            lemma_mul_is_associative(a.entry(i, k), b.entry(k, t), c.entry(t, j));
        };
        lemma_sum_scale_left(q, g1, g2, a.entry(i, k));
    };
    lemma_sum_ext(p, by_k, rhs_term);
}

/// Matrix multiplication is associative on compatible dimensions.
pub proof fn lemma_mul_assoc(a: MatrixModel, b: MatrixModel, c: MatrixModel)
    requires
        a.wf(),
        b.wf(),
        c.wf(),
        a.cols == b.rows,
        b.cols == c.rows,
    ensures
        mat_mul(mat_mul(a, b), c) == mat_mul(a, mat_mul(b, c)),
{
    let l = mat_mul(mat_mul(a, b), c);
    let r = mat_mul(a, mat_mul(b, c));
    assert forall|x: int| 0 <= x < l.elems.len() implies l.elems[x] == r.elems[x] by {
        let ij = lemma_decode_in_range(a.rows, c.cols, x);
        lemma_assoc_entry(a, b, c, ij.0, ij.1);
    };
    assert(l.elems =~= r.elems);
    assert(l =~= r);
}

/// Repeated multiplication: `a` multiplied by itself `k - 1` further times.
pub open spec fn mat_pow(a: MatrixModel, k: nat) -> MatrixModel
    decreases k,
{
    if k <= 1 {
        a
    } else {
        mat_mul(mat_pow(a, (k - 1) as nat), a)
    }
}

/// Every multiplication performed while raising `a` to the `k`-th power
/// stays within the element type.
pub open spec fn pow_fits(a: MatrixModel, k: nat) -> bool {
    forall|p: nat| 1 <= p < k ==> mul_fits(#[trigger] mat_pow(a, p), a)
}

/// Powers of a square matrix keep its dimensions.
pub proof fn lemma_mat_pow_dims(a: MatrixModel, k: nat)
    requires
        a.wf(),
        a.rows == a.cols,
        k >= 1,
    ensures
        mat_pow(a, k).wf(),
        mat_pow(a, k).rows == a.rows,
        mat_pow(a, k).cols == a.cols,
    decreases k,
{
    if k > 1 {
        lemma_mat_pow_dims(a, (k - 1) as nat);
    }
}

/// The first power of a matrix is the matrix itself.
pub proof fn lemma_pow_one(a: MatrixModel)
    ensures
        mat_pow(a, 1) == a,
{
}

/// For exponents above one, a power peels one factor off on the left:
/// `a^k == a * a^(k-1)`.
pub proof fn lemma_pow_unfold(a: MatrixModel, k: nat)
    requires
        a.wf(),
        a.rows == a.cols,
        k > 1,
    ensures
        mat_pow(a, k) == mat_mul(a, mat_pow(a, (k - 1) as nat)),
    decreases k,
{
    if k > 2 {
        lemma_pow_unfold(a, (k - 1) as nat);
        lemma_mat_pow_dims(a, (k - 2) as nat);
        lemma_mul_assoc(a, mat_pow(a, (k - 2) as nat), a);
    }
}

/// The sum of all elements of a matrix, over the flat storage.
pub open spec fn elems_total(m: MatrixModel) -> int {
    sum(m.elems.len(), |x: int| m.elems[x])
}

/// The sum of all elements regrouped as a sum of row sums.
pub proof fn lemma_elems_total_by_rows(m: MatrixModel)
    requires
        m.wf(),
    ensures
        elems_total(m) == sum(m.rows, |i: int| sum(m.cols, |j: int| m.entry(i, j))),
    decreases m.rows,
{
    let flat = |x: int| m.elems[x];
    lemma_sum_block(m.rows, m.cols, flat);
    let lhs_rows = |i: int| sum(m.cols, |j: int| flat(i * m.cols as int + j));
    let rhs_rows = |i: int| sum(m.cols, |j: int| m.entry(i, j));
    assert forall|i: int| 0 <= i < m.rows implies #[trigger] lhs_rows(i) == rhs_rows(i) by {
        assert((|j: int| flat(i * m.cols as int + j)) =~= (|j: int| m.entry(i, j)));
    };
    lemma_sum_ext(m.rows, lhs_rows, rhs_rows);
    assert((|i: int| sum(m.cols, |j: int| flat(i * m.cols as int + j))) =~= lhs_rows);
}

/// Dense matrix of `i64` elements, stored flat in row-major order. The one
/// signed element type is wide enough both for edge multiplicities and for
/// the `-1`/`+1` entries of an incidence matrix.
#[derive(Debug, PartialEq, Eq, Clone)]
pub struct Matrix {
    mat: Vec<i64>,
    n_rows: usize,
    n_cols: usize,
}

impl View for Matrix {
    type V = MatrixModel;

    closed spec fn view(&self) -> MatrixModel {
        MatrixModel {
            rows: self.n_rows as nat,
            cols: self.n_cols as nat,
            elems: self.mat@.map_values(|x: i64| x as int),
        }
    }
}

impl Matrix {
    /// Wrap an existing flat row-major sequence as a matrix.
    pub fn from_vec(vec: Vec<i64>, n_rows: usize, n_cols: usize) -> (res: Matrix)
        requires
            vec@.len() == n_rows * n_cols,
        ensures
            res@.rows == n_rows,
            res@.cols == n_cols,
            res@.elems == vec@.map_values(|x: i64| x as int),
            res@.wf(),
    {
        Matrix { mat: vec, n_rows, n_cols }
    }

    /// A matrix of the given dimensions with every cell equal to `fill`.
    pub fn new(fill: i64, n_rows: usize, n_cols: usize) -> (res: Matrix)
        requires
            n_rows * n_cols <= usize::MAX,
        ensures
            res@.rows == n_rows,
            res@.cols == n_cols,
            res@.wf(),
            forall|k: int| 0 <= k < n_rows * n_cols ==> res@.elems[k] == fill as int,
    {
        let total = n_rows * n_cols;
        let mut mat: Vec<i64> = Vec::new();
        let mut k: usize = 0;
        while k < total
            invariant
                k <= total,
                mat@.len() == k,
                forall|t: int| 0 <= t < k ==> mat@[t] == fill,
            decreases total - k,
        {
            mat.push(fill);
            k = k + 1;
        }
        Matrix { mat, n_rows, n_cols }
    }

    /// The number of rows.
    pub fn num_rows(&self) -> (r: usize)
        ensures
            r == self@.rows,
    {
        self.n_rows
    }

    /// The number of columns.
    pub fn num_cols(&self) -> (r: usize)
        ensures
            r == self@.cols,
    {
        self.n_cols
    }

    /// Read the element at row `i`, column `j`.
    pub fn get(&self, i: usize, j: usize) -> (r: i64)
        requires
            self@.wf(),
            i < self@.rows,
            j < self@.cols,
        ensures
            r as int == self@.entry(i as int, j as int),
    {
        let total = self.mat.len();
        proof {
            assert(total <= usize::MAX);
            lemma_flat_index_bounds(self@, i as int, j as int);
        }
        self.mat[i * self.n_cols + j]
    }

    /// Write `value` to the element at row `i`, column `j`.
    pub fn set(&mut self, i: usize, j: usize, value: i64)
        requires
            old(self)@.wf(),
            i < old(self)@.rows,
            j < old(self)@.cols,
        ensures
            final(self)@.rows == old(self)@.rows,
            final(self)@.cols == old(self)@.cols,
            final(self)@.wf(),
            final(self)@.elems == old(self)@.elems.update(
                i as int * old(self)@.cols + j as int,
                value as int,
            ),
    {
        let total = self.mat.len();
        proof {
            assert(total <= usize::MAX);
            lemma_flat_index_bounds(self@, i as int, j as int);
        }
        self.mat.set(i * self.n_cols + j, value);
        proof {
            assert(self@.elems =~= old(self)@.elems.update(
                i as int * old(self)@.cols + j as int,
                value as int,
            ));
        }
    }

    /// The standard matrix product, as a new matrix. Entry `(i, j)` is the
    /// inner product of row `i` of `self` with column `j` of `other`,
    /// accumulated in ascending index order from zero.
    #[verifier::loop_isolation(false)]
    pub fn mul(&self, other: &Matrix) -> (res: Matrix)
        requires
            self@.wf(),
            other@.wf(),
            self@.cols == other@.rows,
            mul_fits(self@, other@),
        ensures
            res@ == mat_mul(self@, other@),
            res@.wf(),
    {
        let ghost a = self@;
        let ghost b = other@;
        let n_rows = self.n_rows;
        let n_cols = other.n_cols;
        let inner = self.n_cols;
        let mut mat: Vec<i64> = Vec::new();
        let mut i: usize = 0;
        while i < n_rows
            invariant
                i <= n_rows,
                mat@.len() == i * n_cols,
                forall|x: int|
                    0 <= x < mat@.len() ==> #[trigger] mat@[x] as int == product_entry(
                        a,
                        b,
                        x / n_cols as int,
                        x % n_cols as int,
                    ),
            decreases n_rows - i,
        {
            let mut j: usize = 0;
            while j < n_cols
                invariant
                    j <= n_cols,
                    mat@.len() == i * n_cols + j,
                    forall|x: int|
                        0 <= x < mat@.len() ==> #[trigger] mat@[x] as int == product_entry(
                            a,
                            b,
                            x / n_cols as int,
                            x % n_cols as int,
                        ),
                decreases n_cols - j,
            {
                let mut acc: i64 = 0;
                let mut k: usize = 0;
                while k < inner
                    invariant
                        k <= inner,
                        acc as int == product_prefix(a, b, i as int, j as int, k as nat),
                    decreases inner - k,
                {
                    let x = self.get(i, k);
                    let y = other.get(k, j);
                    proof {
                        assert(x as int * y as int == product_at(a, b, i as int, j as int, k as int));
                        assert(i64::MIN <= product_at(a, b, i as int, j as int, k as int) <= i64::MAX);
                        assert(i64::MIN <= product_prefix(a, b, i as int, j as int, (k + 1) as nat) <= i64::MAX);
                        assert(product_prefix(a, b, i as int, j as int, (k + 1) as nat)
                            == product_prefix(a, b, i as int, j as int, k as nat) + product_at(
                            a,
                            b,
                            i as int,
                            j as int,
                            k as int,
                        ));
                    }
                    acc = acc + x * y;
                    k = k + 1;
                }
                proof {
                    lemma_fundamental_div_mod_converse(
                        i as int * n_cols as int + j as int,
                        n_cols as int,
                        i as int,
                        j as int,
                    );
                }
                mat.push(acc);
                j = j + 1;
            }
            proof {
                assert((i as int + 1) * n_cols as int == i as int * n_cols as int
                    + n_cols as int) by (nonlinear_arith);
            }
            i = i + 1;
        }
        let res = Matrix { mat, n_rows, n_cols };
        proof {
            assert(res@.elems =~= mat_mul(a, b).elems);
            assert(res@ =~= mat_mul(a, b));
        }
        res
    }

    /// A fresh matrix with the same dimensions and contents.
    fn duplicate(&self) -> (res: Matrix)
        ensures
            res@ == self@,
    {
        let total = self.mat.len();
        let mut mat: Vec<i64> = Vec::new();
        let mut k: usize = 0;
        while k < total
            invariant
                k <= total,
                total == self.mat@.len(),
                mat@ =~= self.mat@.take(k as int),
            decreases total - k,
        {
            mat.push(self.mat[k]);
            k = k + 1;
        }
        let res = Matrix { mat, n_rows: self.n_rows, n_cols: self.n_cols };
        proof {
            assert(res@.elems =~= self@.elems);
            assert(res@ =~= self@);
        }
        res
    }

    /// `self` raised to the `exponent`-th power by repeated multiplication,
    /// for a square matrix and an exponent of at least one.
    #[verifier::loop_isolation(false)]
    pub fn pow(&self, deg: usize) -> (res: Matrix)
        requires
            self@.wf(),
            deg >= 1,
            deg > 1 ==> self@.rows == self@.cols,
            pow_fits(self@, deg as nat),
        ensures
            res@ == mat_pow(self@, deg as nat),
    {
        let ghost a = self@;
        let mut res = self.duplicate();
        let mut t: usize = 1;
        while t < deg
            invariant
                1 <= t <= deg,
                res@ == mat_pow(a, t as nat),
            decreases deg - t,
        {
            proof {
                lemma_mat_pow_dims(a, t as nat);
            }
            res = res.mul(self);
            t = t + 1;
        }
        res
    }

    /// In-place addition: every cell of `self` grows by the matching cell of
    /// `other`. Both operands must have identical dimensions.
    #[verifier::loop_isolation(false)]
    pub fn accumulate(&mut self, other: &Matrix)
        requires
            old(self)@.wf(),
            other@.wf(),
            old(self)@.rows == other@.rows,
            old(self)@.cols == other@.cols,
            forall|x: int|
                0 <= x < old(self)@.elems.len() ==> i64::MIN <= #[trigger] old(
                    self,
                )@.elems[x] + other@.elems[x] <= i64::MAX,
        ensures
            final(self)@.rows == old(self)@.rows,
            final(self)@.cols == old(self)@.cols,
            final(self)@.wf(),
            final(self)@.elems.len() == old(self)@.elems.len(),
            forall|x: int|
                0 <= x < old(self)@.elems.len() ==> #[trigger] final(self)@.elems[x] == old(
                    self,
                )@.elems[x] + other@.elems[x],
    {
        let total = self.mat.len();
        let mut k: usize = 0;
        while k < total
            invariant
                k <= total,
                self.n_rows == old(self).n_rows,
                self.n_cols == old(self).n_cols,
                self.mat@.len() == total,
                forall|x: int|
                    k <= x < total ==> #[trigger] self.mat@[x] == old(self).mat@[x],
                forall|x: int|
                    0 <= x < k ==> #[trigger] self.mat@[x] as int == old(self)@.elems[x]
                        + other@.elems[x],
            decreases total - k,
        {
            proof {
                assert(other@.elems.len() == other@.rows * other@.cols);
                assert(i64::MIN <= old(self)@.elems[k as int] + other@.elems[k as int]
                    <= i64::MAX);
                assert(self.mat@[k as int] == old(self).mat@[k as int]);
                assert(old(self)@.elems[k as int] == old(self).mat@[k as int] as int);
                assert(other@.elems[k as int] == other.mat@[k as int] as int);
            }
            let v = self.mat[k] + other.mat[k];
            self.mat.set(k, v);
            k = k + 1;
        }
    }
}

} // verus!
