//! Dense two-dimensional containers of scalar words, stored row-major, with
//! the element-wise and linear-algebra operations the network engine uses.
//!
//! A `Matrix` holds `rows * cols` words in `data`, with entry `(r, c)` at
//! `data[r * cols + c]`. Operations that combine scalars take the scalar
//! operation as a closure; their contracts relate every output word to the
//! input words through that closure's contract.

use vstd::prelude::*;

verus! {

/// The mathematical value of a [`Matrix`]: a shape and the flat row-major
/// sequence of its words.
#[verifier::ext_equal]
pub ghost struct MatModel {
    pub rows: nat,
    pub cols: nat,
    pub data: Seq<u64>,
}

impl MatModel {
    /// The storage invariant: the flat data holds exactly one word per entry.
    pub open spec fn wf(self) -> bool {
        self.data.len() == self.rows * self.cols
    }

    /// The word at row `r`, column `c` of the row-major layout.
    pub open spec fn ent(self, r: int, c: int) -> u64 {
        self.data[r * self.cols + c]
    }

    /// Shape equality, entry values aside.
    pub open spec fn same_shape(self, other: MatModel) -> bool {
        self.rows == other.rows && self.cols == other.cols
    }

    /// The column matrix holding `data`, one word per row.
    pub open spec fn column(data: Seq<u64>) -> MatModel {
        MatModel { rows: data.len(), cols: 1, data }
    }

    /// The transpose: shape `(cols, rows)`, entry `(j, i)` holding entry
    /// `(i, j)` of `self`.
    pub open spec fn transpose_spec(self) -> MatModel {
        MatModel {
            rows: self.cols,
            cols: self.rows,
            data: Seq::new(self.cols * self.rows, |k: int| self.ent(k % self.rows as int, k / self.rows as int)),
        }
    }
}

/// Every output word of an element-wise unary application: `r` has the shape
/// of `a`, and each word of `r` is an output of `f` on the matching word of
/// `a`.
pub open spec fn map_rel<F: Fn(u64) -> u64>(f: F, a: MatModel, r: MatModel) -> bool {
    &&& r.rows == a.rows
    &&& r.cols == a.cols
    &&& r.data.len() == a.data.len()
    &&& forall|k: int| 0 <= k < a.data.len() ==> call_ensures(f, (a.data[k],), #[trigger] r.data[k])
}

/// Every output word of an element-wise binary combination: `r` has the shape
/// of `a`, and each word of `r` is an output of `f` on the matching words of
/// `a` and `b`.
pub open spec fn zip_rel<F: Fn(u64, u64) -> u64>(f: F, a: MatModel, b: MatModel, r: MatModel) -> bool {
    &&& r.rows == a.rows
    &&& r.cols == a.cols
    &&& r.data.len() == a.data.len()
    &&& forall|k: int| 0 <= k < a.data.len() ==> call_ensures(f, (a.data[k], b.data[k]), #[trigger] r.data[k])
}

/// The run of partial sums of the inner product of row `i` of `a` against
/// column `j` of `b` under the multiply-accumulate closure `f` (where
/// `f(acc, x, y)` stands for `acc + x * y`): `s` starts at the zero word and
/// each following element is an output of `f` on its predecessor and the
/// next pair of entries, in ascending term order.
pub open spec fn is_mac_chain<F: Fn(u64, u64, u64) -> u64>(
    f: F,
    a: MatModel,
    b: MatModel,
    i: int,
    j: int,
    s: Seq<u64>,
) -> bool {
    &&& s.len() == a.cols + 1
    &&& s[0] == crate::ZERO_WORD
    &&& forall|k: int|
        0 <= k < a.cols ==> call_ensures(f, (s[k], a.ent(i, k), b.ent(k, j)), #[trigger] s[k + 1])
}

/// `out` is a full inner-product accumulation of row `i` of `a` against
/// column `j` of `b` under `f`: the last partial sum of some complete run.
pub open spec fn dot_entry_rel<F: Fn(u64, u64, u64) -> u64>(
    f: F,
    a: MatModel,
    b: MatModel,
    i: int,
    j: int,
    out: u64,
) -> bool {
    exists|s: Seq<u64>| #[trigger] is_mac_chain(f, a, b, i, j, s) && out == s[a.cols as int]
}

/// The matrix product under the multiply-accumulate closure `f`: `r` has
/// shape `(a.rows, b.cols)` and each entry is the in-order accumulation of
/// the matching row of `a` against the matching column of `b`.
pub open spec fn dot_rel<F: Fn(u64, u64, u64) -> u64>(f: F, a: MatModel, b: MatModel, r: MatModel) -> bool {
    &&& r.rows == a.rows
    &&& r.cols == b.cols
    &&& r.wf()
    &&& forall|i: int, j: int|
        0 <= i < r.rows && 0 <= j < r.cols ==> dot_entry_rel(f, a, b, i, j, #[trigger] r.ent(i, j))
}

/// In a row-major layout with `c` columns, every entry of a row before row
/// `i` sits strictly below offset `i * c`.
proof fn lemma_entry_index_bound(i2: int, j2: int, i: int, c: int)
    requires
        0 <= i2 < i,
        0 <= j2 < c,
    ensures
        i2 * c + j2 < i * c,
{
    assert(i2 * c + j2 < i * c) by (nonlinear_arith)
        requires
            0 <= i2 < i,
            0 <= j2 < c,
    ;
}

/// The error a shape-checked operation reports when its operands'
/// dimensions are incompatible.
#[derive(Clone, Copy, Debug, PartialEq, Eq, Structural)]
pub enum MatrixError {
    DimensionMismatch,
}

/// A dense matrix of scalar words in row-major order.
///
/// Invariant: `data.len() == rows * cols`; every constructor establishes it
/// and every operation preserves it.
#[derive(Debug)]
pub struct Matrix {
    pub rows: usize,
    pub cols: usize,
    pub data: Vec<u64>,
}

impl View for Matrix {
    type V = MatModel;

    open spec fn view(&self) -> MatModel {
        MatModel { rows: self.rows as nat, cols: self.cols as nat, data: self.data@ }
    }
}

/// A fresh vector holding the same words as `v`.
pub(crate) fn copy_words(v: &Vec<u64>) -> (r: Vec<u64>)
    ensures
        r@ == v@,
{
    let mut out: Vec<u64> = Vec::new();
    let mut i: usize = 0;
    while i < v.len()
        invariant
            i <= v.len(),
            out@ == v@.subrange(0, i as int),
        decreases v.len() - i,
    {
        out.push(v[i]);
        i += 1;
    }
    proof {
        assert(out@ =~= v@);
    }
    out
}

impl Clone for Matrix {
    /// A structural copy: the clone has the same model.
    fn clone(&self) -> (r: Matrix)
        ensures
            r@ == self@,
    {
        Matrix { rows: self.rows, cols: self.cols, data: copy_words(&self.data) }
    }
}

impl Matrix {
    /// Wraps an existing flat row-major buffer as a matrix of the given
    /// shape. The buffer must hold exactly one word per entry.
    pub fn new(rows: usize, cols: usize, data: Vec<u64>) -> (r: Matrix)
        requires
            data@.len() == rows * cols,
        ensures
            r@ == (MatModel { rows: rows as nat, cols: cols as nat, data: data@ }),
    {
        Matrix { rows, cols, data }
    }

    /// A matrix of the given shape filled with the zero word.
    pub fn zeros(rows: usize, cols: usize) -> (r: Matrix)
        requires
            rows * cols <= usize::MAX,
        ensures
            r@.rows == rows,
            r@.cols == cols,
            r@.wf(),
            forall|k: int| 0 <= k < r@.data.len() ==> r@.data[k] == crate::ZERO_WORD,
    {
        let n: usize = rows * cols;
        let mut data: Vec<u64> = Vec::new();
        let mut i: usize = 0;
        while i < n
            invariant
                i <= n,
                data@.len() == i,
                forall|k: int| 0 <= k < i ==> data@[k] == crate::ZERO_WORD,
            decreases n - i,
        {
            data.push(crate::ZERO_WORD);
            i += 1;
        }
        Matrix { rows, cols, data }
    }

    /// A matrix of the given shape whose every word was drawn from the
    /// caller's generator closure.
    pub fn random<G: Fn() -> u64>(rows: usize, cols: usize, gen: G) -> (r: Matrix)
        requires
            rows * cols <= usize::MAX,
            forall|x: ()| call_requires(gen, x),
        ensures
            r@.rows == rows,
            r@.cols == cols,
            r@.wf(),
            forall|k: int| 0 <= k < r@.data.len() ==> call_ensures(gen, (), #[trigger] r@.data[k]),
    {
        let n: usize = rows * cols;
        let mut data: Vec<u64> = Vec::new();
        let mut i: usize = 0;
        while i < n
            invariant
                i <= n,
                data@.len() == i,
                forall|x: ()| call_requires(gen, x),
                forall|k: int| 0 <= k < i ==> call_ensures(gen, (), #[trigger] data@[k]),
            decreases n - i,
        {
            data.push(gen());
            i += 1;
        }
        Matrix { rows, cols, data }
    }

    /// The transpose: a `(cols, rows)` matrix with entry `(j, i)` equal to
    /// entry `(i, j)` of `self`.
    pub fn transpose(&self) -> (r: Matrix)
        requires
            self@.wf(),
        ensures
            r@ == self@.transpose_spec(),
    {
        let len: usize = self.data.len();
        let mut buffer: Vec<u64> = Vec::new();
        let mut j: usize = 0;
        while j < self.cols
            invariant
                j <= self.cols,
                len == self@.rows * self@.cols,
                self@.wf(),
                buffer@.len() == j * self@.rows,
                forall|k: int|
                    0 <= k < buffer@.len() ==> buffer@[k] == self@.ent(
                        k % (self@.rows as int),
                        k / (self@.rows as int),
                    ),
            decreases self.cols - j,
        {
            let mut i: usize = 0;
            while i < self.rows
                invariant
                    j < self.cols,
                    i <= self.rows,
                    len == self@.rows * self@.cols,
                    self@.wf(),
                    buffer@.len() == j * self@.rows + i,
                    forall|k: int|
                        0 <= k < buffer@.len() ==> buffer@[k] == self@.ent(
                            k % (self@.rows as int),
                            k / (self@.rows as int),
                        ),
                decreases self.rows - i,
            {
                proof {
                    assert(i * self@.cols + j < self@.rows * self@.cols) by (nonlinear_arith)
                        requires 0 <= i < self@.rows, 0 <= j < self@.cols;
                    assert(j * self@.rows + i < self@.cols * self@.rows) by (nonlinear_arith)
                        requires 0 <= i < self@.rows, 0 <= j < self@.cols;
                    vstd::arithmetic::mul::lemma_mul_is_commutative(self@.cols as int, self@.rows as int);
                }
                let src: usize = i * self.cols + j;
                buffer.push(self.data[src]);
                proof {
                    assert((j * self@.rows as int + i) % (self@.rows as int) == i
                        && (j * self@.rows as int + i) / (self@.rows as int) == j) by (nonlinear_arith)
                        requires 0 <= i < self@.rows, 0 <= j;
                }
                i += 1;
            }
            proof {
                assert((j + 1) * self@.rows as int == j * self@.rows as int + self@.rows) by (nonlinear_arith);
            }
            j += 1;
        }
        let r = Matrix { rows: self.cols, cols: self.rows, data: buffer };
        proof {
            vstd::arithmetic::mul::lemma_mul_is_commutative(self@.cols as int, self@.rows as int);
            assert(r@.data =~= self@.transpose_spec().data);
            assert(r@ =~= self@.transpose_spec());
        }
        r
    }
}

impl Matrix {
    /// The element-wise combination of two same-shape matrices under `f`.
    fn zip_with<F: Fn(u64, u64) -> u64>(&self, other: &Matrix, f: F) -> (r: Matrix)
        requires
            self@.wf(),
            other@.wf(),
            self@.same_shape(other@),
            forall|a: u64, b: u64| call_requires(f, (a, b)),
        ensures
            r@.wf(),
            zip_rel(f, self@, other@, r@),
    {
        let mut data: Vec<u64> = Vec::new();
        let mut i: usize = 0;
        let len: usize = self.data.len();
        while i < len
            invariant
                i <= len,
                len == self@.data.len(),
                self@.data.len() == other@.data.len(),
                data@.len() == i,
                forall|a: u64, b: u64| call_requires(f, (a, b)),
                forall|k: int|
                    0 <= k < i ==> call_ensures(f, (self@.data[k], other@.data[k]), #[trigger] data@[k]),
            decreases len - i,
        {
            data.push(f(self.data[i], other.data[i]));
            i += 1;
        }
        Matrix { rows: self.rows, cols: self.cols, data }
    }

    /// Element-wise addition under the caller's scalar addition `f`:
    /// succeeds exactly when the shapes agree, and then every output word is
    /// an output of `f` on the matching operand words.
    pub fn add<F: Fn(u64, u64) -> u64>(&self, other: &Matrix, f: F) -> (r: Result<Matrix, MatrixError>)
        requires
            self@.wf(),
            other@.wf(),
            forall|a: u64, b: u64| call_requires(f, (a, b)),
        ensures
            r is Ok <==> self@.same_shape(other@),
            r matches Ok(m) ==> m@.wf() && zip_rel(f, self@, other@, m@),
            r matches Err(e) ==> e == MatrixError::DimensionMismatch,
    {
        if self.rows != other.rows || self.cols != other.cols {
            return Err(MatrixError::DimensionMismatch);
        }
        Ok(self.zip_with(other, f))
    }

    /// Element-wise subtraction under the caller's scalar subtraction `f`:
    /// succeeds exactly when the shapes agree, and then every output word is
    /// an output of `f` on the matching operand words.
    pub fn subtract<F: Fn(u64, u64) -> u64>(&self, other: &Matrix, f: F) -> (r: Result<
        Matrix,
        MatrixError,
    >)
        requires
            self@.wf(),
            other@.wf(),
            forall|a: u64, b: u64| call_requires(f, (a, b)),
        ensures
            r is Ok <==> self@.same_shape(other@),
            r matches Ok(m) ==> m@.wf() && zip_rel(f, self@, other@, m@),
            r matches Err(e) ==> e == MatrixError::DimensionMismatch,
    {
        if self.rows != other.rows || self.cols != other.cols {
            return Err(MatrixError::DimensionMismatch);
        }
        Ok(self.zip_with(other, f))
    }

    /// The Hadamard (element-wise) product under the caller's scalar
    /// multiplication `f`: succeeds exactly when the shapes agree, and then
    /// every output word is an output of `f` on the matching operand words.
    pub fn elementwise_multiply<F: Fn(u64, u64) -> u64>(&self, other: &Matrix, f: F) -> (r: Result<
        Matrix,
        MatrixError,
    >)
        requires
            self@.wf(),
            other@.wf(),
            forall|a: u64, b: u64| call_requires(f, (a, b)),
        ensures
            r is Ok <==> self@.same_shape(other@),
            r matches Ok(m) ==> m@.wf() && zip_rel(f, self@, other@, m@),
            r matches Err(e) ==> e == MatrixError::DimensionMismatch,
    {
        if self.rows != other.rows || self.cols != other.cols {
            return Err(MatrixError::DimensionMismatch);
        }
        Ok(self.zip_with(other, f))
    }

    /// Applies `f` to every word, preserving the shape.
    pub fn map<F: Fn(u64) -> u64>(&self, f: F) -> (r: Matrix)
        requires
            self@.wf(),
            forall|a: u64| call_requires(f, (a,)),
        ensures
            r@.wf(),
            map_rel(f, self@, r@),
    {
        let mut data: Vec<u64> = Vec::new();
        let mut i: usize = 0;
        let len: usize = self.data.len();
        while i < len
            invariant
                i <= len,
                len == self@.data.len(),
                data@.len() == i,
                forall|a: u64| call_requires(f, (a,)),
                forall|k: int| 0 <= k < i ==> call_ensures(f, (self@.data[k],), #[trigger] data@[k]),
            decreases len - i,
        {
            data.push(f(self.data[i]));
            i += 1;
        }
        Matrix { rows: self.rows, cols: self.cols, data }
    }

    /// The matrix product under the caller's multiply-accumulate closure
    /// `f`, where `f(acc, x, y)` stands for `acc + x * y`: succeeds exactly
    /// when the inner dimensions agree (`self.cols == other.rows`), and then
    /// the result has shape `(self.rows, other.cols)` with every entry the
    /// in-order accumulation of the matching row against the matching
    /// column, seeded with the zero word.
    pub fn dot_multiply<F: Fn(u64, u64, u64) -> u64>(&self, other: &Matrix, f: F) -> (r: Result<
        Matrix,
        MatrixError,
    >)
        requires
            self@.wf(),
            other@.wf(),
            self@.rows * other@.cols <= usize::MAX,
            forall|a: u64, b: u64, c: u64| call_requires(f, (a, b, c)),
        ensures
            r is Ok <==> self@.cols == other@.rows,
            r matches Ok(m) ==> m@.wf() && dot_rel(f, self@, other@, m@),
            r matches Err(e) ==> e == MatrixError::DimensionMismatch,
    {
        if self.cols != other.rows {
            return Err(MatrixError::DimensionMismatch);
        }
        let alen: usize = self.data.len();
        let blen: usize = other.data.len();
        let mut data: Vec<u64> = Vec::new();
        let mut i: usize = 0;
        while i < self.rows
            invariant
                i <= self@.rows,
                alen == self@.rows * self@.cols,
                blen == other@.rows * other@.cols,
                self@.wf(),
                other@.wf(),
                self@.cols == other@.rows,
                self@.rows * other@.cols <= usize::MAX,
                forall|a: u64, b: u64, c: u64| call_requires(f, (a, b, c)),
                data@.len() == i * other@.cols,
                forall|i2: int, j2: int|
                    0 <= i2 < i && 0 <= j2 < other@.cols ==> dot_entry_rel(
                        f,
                        self@,
                        other@,
                        i2,
                        j2,
                        #[trigger] data@[i2 * other@.cols + j2],
                    ),
            decreases self@.rows - i,
        {
            let mut j: usize = 0;
            while j < other.cols
                invariant
                    i < self@.rows,
                    j <= other@.cols,
                    alen == self@.rows * self@.cols,
                    blen == other@.rows * other@.cols,
                    self@.wf(),
                    other@.wf(),
                    self@.cols == other@.rows,
                    self@.rows * other@.cols <= usize::MAX,
                    forall|a: u64, b: u64, c: u64| call_requires(f, (a, b, c)),
                    data@.len() == i * other@.cols + j,
                    forall|i2: int, j2: int|
                        0 <= i2 < i && 0 <= j2 < other@.cols ==> dot_entry_rel(
                            f,
                            self@,
                            other@,
                            i2,
                            j2,
                            #[trigger] data@[i2 * other@.cols + j2],
                        ),
                    forall|j2: int|
                        0 <= j2 < j ==> dot_entry_rel(
                            f,
                            self@,
                            other@,
                            i as int,
                            j2,
                            #[trigger] data@[i * other@.cols + j2],
                        ),
                decreases other@.cols - j,
            {
                let mut sum: u64 = crate::ZERO_WORD;
                let ghost mut chain: Seq<u64> = seq![crate::ZERO_WORD];
                let mut k: usize = 0;
                while k < self.cols
                    invariant
                        i < self@.rows,
                        j < other@.cols,
                        k <= self@.cols,
                        alen == self@.rows * self@.cols,
                        blen == other@.rows * other@.cols,
                        self@.wf(),
                        other@.wf(),
                        self@.cols == other@.rows,
                        forall|a: u64, b: u64, c: u64| call_requires(f, (a, b, c)),
                        chain.len() == k + 1,
                        chain[0] == crate::ZERO_WORD,
                        sum == chain[k as int],
                        forall|k2: int|
                            0 <= k2 < k ==> call_ensures(
                                f,
                                (chain[k2], self@.ent(i as int, k2), other@.ent(k2, j as int)),
                                #[trigger] chain[k2 + 1],
                            ),
                    decreases self@.cols - k,
                {
                    proof {
                        assert(i * self@.cols + k < self@.rows * self@.cols) by (nonlinear_arith)
                            requires 0 <= i < self@.rows, 0 <= k < self@.cols;
                        assert(k * other@.cols + j < other@.rows * other@.cols) by (nonlinear_arith)
                            requires 0 <= k < other@.rows, 0 <= j < other@.cols;
                    }
                    let a_val: u64 = self.data[i * self.cols + k];
                    let b_val: u64 = other.data[k * other.cols + j];
                    sum = f(sum, a_val, b_val);
                    proof {
                        assert(a_val == self@.ent(i as int, k as int));
                        assert(b_val == other@.ent(k as int, j as int));
                        chain = chain.push(sum);
                    }
                    k += 1;
                }
                proof {
                    assert(i * other@.cols + j < self@.rows * other@.cols) by (nonlinear_arith)
                        requires 0 <= i < self@.rows, 0 <= j < other@.cols;
                    assert(is_mac_chain(f, self@, other@, i as int, j as int, chain));
                    assert(dot_entry_rel(f, self@, other@, i as int, j as int, sum));
                }
                data.push(sum);
                proof {
                    assert forall|i2: int, j2: int|
                        0 <= i2 < i && 0 <= j2 < other@.cols implies dot_entry_rel(
                        f,
                        self@,
                        other@,
                        i2,
                        j2,
                        #[trigger] data@[i2 * other@.cols + j2],
                    ) by {
                        lemma_entry_index_bound(i2, j2, i as int, other@.cols as int);
                    }
                }
                j += 1;
            }
            proof {
                assert((i + 1) * other@.cols as int == i * other@.cols as int + other@.cols) by (nonlinear_arith);
                assert forall|i2: int, j2: int|
                    0 <= i2 < i + 1 && 0 <= j2 < other@.cols implies dot_entry_rel(
                    f,
                    self@,
                    other@,
                    i2,
                    j2,
                    #[trigger] data@[i2 * other@.cols + j2],
                ) by {
                    if i2 < i {
                        lemma_entry_index_bound(i2, j2, i as int, other@.cols as int);
                    }
                }
            }
            i += 1;
        }
        let m = Matrix { rows: self.rows, cols: other.cols, data };
        proof {
            vstd::arithmetic::mul::lemma_mul_is_commutative(self@.rows as int, other@.cols as int);
            assert forall|i2: int, j2: int|
                0 <= i2 < m@.rows && 0 <= j2 < m@.cols implies dot_entry_rel(
                f,
                self@,
                other@,
                i2,
                j2,
                #[trigger] m@.ent(i2, j2),
            ) by {
                lemma_entry_index_bound(i2, j2, m@.rows as int, other@.cols as int);
                assert(m@.ent(i2, j2) == data@[i2 * other@.cols + j2]);
            }
        }
        Ok(m)
    }
}

impl From<Vec<u64>> for Matrix {
    /// A column matrix holding the vector's words, one per row.
    fn from(vec: Vec<u64>) -> (r: Matrix) {
        let rows = vec.len();
        Matrix { rows, cols: 1, data: vec }
    }
}

impl vstd::std_specs::convert::FromSpecImpl<Vec<u64>> for Matrix {
    open spec fn obeys_from_spec() -> bool {
        true
    }

    open spec fn from_spec(vec: Vec<u64>) -> Matrix {
        Matrix { rows: vec@.len() as usize, cols: 1, data: vec }
    }
}

impl PartialEq for Matrix {
    /// Structural equality: same shape and the same word at every entry.
    fn eq(&self, other: &Matrix) -> (r: bool)
        ensures
            r == (self@.rows == other@.rows && self@.cols == other@.cols && self@.data == other@.data),
    {
        if self.rows != other.rows || self.cols != other.cols || self.data.len() != other.data.len() {
            return false;
        }
        let mut i: usize = 0;
        while i < self.data.len()
            invariant
                i <= self@.data.len(),
                self@.data.len() == other@.data.len(),
                forall|k: int| 0 <= k < i ==> self@.data[k] == other@.data[k],
            decreases self@.data.len() - i,
        {
            if self.data[i] != other.data[i] {
                return false;
            }
            i += 1;
        }
        proof {
            assert(self@.data =~= other@.data);
        }
        true
    }
}

impl vstd::std_specs::cmp::PartialEqSpecImpl for Matrix {
    open spec fn obeys_eq_spec() -> bool {
        true
    }

    open spec fn eq_spec(&self, other: &Matrix) -> bool {
        self@.rows == other@.rows && self@.cols == other@.cols && self@.data == other@.data
    }
}

} // verus!
