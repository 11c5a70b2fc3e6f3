//! Row-major trace matrices of canonical KoalaBear elements.
use vstd::prelude::*;
use crate::field::canonical;

verus! {

/// A row-major matrix of field elements, each held as its canonical `u32` representative.
///
/// This is the library's form of a Plonky3 `RowMajorMatrix<KoalaBear>`: cell `(r, c)` is
/// `values[r * width + c]`.
pub struct TraceMatrix {
    pub values: Vec<u32>,
    pub width: usize,
}

impl TraceMatrix {
    /// The matrix is rectangular with a positive width.
    pub open spec fn wf(&self) -> bool {
        &&& self.width > 0
        &&& (self.values@.len() as int) % (self.width as int) == 0
    }

    /// Every cell is a canonical field element.
    pub open spec fn all_canonical(&self) -> bool {
        forall|i: int| 0 <= i < self.values@.len() ==> canonical(#[trigger] self.values@[i])
    }

    /// Number of rows.
    pub open spec fn rows(&self) -> nat {
        ((self.values@.len() as int) / (self.width as int)) as nat
    }

    /// Cell `(r, c)`.
    pub open spec fn cell(&self, r: int, c: int) -> u32 {
        self.values@[r * self.width + c]
    }

    /// Row `r` as a sequence of `width` cells.
    pub open spec fn row_seq(&self, r: int) -> Seq<u32> {
        self.values@.subrange(r * self.width, r * self.width + self.width)
    }

    /// Matrix with the given row-major `values` and `width`.
    pub fn new(values: Vec<u32>, width: usize) -> (m: TraceMatrix)
        requires
            width > 0,
            (values@.len() as int) % (width as int) == 0,
        ensures
            m.wf(),
            m.values@ == values@,
            m.width == width,
    {
        TraceMatrix { values, width }
    }

    /// Number of rows.
    pub fn height(&self) -> (h: usize)
        requires
            self.wf(),
        ensures
            h == self.rows(),
    {
        self.values.len() / self.width
    }

    /// Copy of row `r`.
    pub fn row(&self, r: usize) -> (out: Vec<u32>)
        requires
            self.wf(),
            r < self.rows(),
        ensures
            out@ == self.row_seq(r as int),
    {
        proof {
            lemma_row_in_bounds(self.values@.len() as int, self.width as int, r as int);
        }
        let len: usize = self.values.len();
        let w: usize = self.width;
        let base: usize = r * w;
        let mut out: Vec<u32> = Vec::with_capacity(w);
        let mut c: usize = 0;
        while c < w
            invariant
                w == self.width,
                base == r * w,
                base + w <= len,
                len == self.values@.len(),
                c <= w,
                out@ =~= self.values@.subrange(base as int, base + c),
            decreases w - c,
        {
            out.push(self.values[base + c]);
            c = c + 1;
        }
        out
    }
}

/// Row `r < len / w` of a length-`len` row-major layout lies inside it.
pub proof fn lemma_row_in_bounds(len: int, w: int, r: int)
    requires
        w > 0,
        len % w == 0,
        len >= 0,
        0 <= r < len / w,
    ensures
        r * w + w <= len,
        0 <= r * w,
{
    vstd::arithmetic::div_mod::lemma_fundamental_div_mod(len, w);
    assert(r * w + w <= len) by (nonlinear_arith)
        requires
            r < len / w,
            len == w * (len / w) + len % w,
            len % w == 0,
            w > 0,
    ;
    assert(0 <= r * w) by (nonlinear_arith)
        requires
            r >= 0,
            w > 0,
    ;
}

/// Row-major concatenation of `rows`.
pub open spec fn concat_rows(rows: Seq<Seq<u32>>) -> Seq<u32>
    decreases rows.len(),
{
    if rows.len() == 0 {
        Seq::empty()
    } else {
        concat_rows(rows.drop_last()) + rows.last()
    }
}

/// Every row has length `w`.
pub open spec fn uniform_width(rows: Seq<Seq<u32>>, w: nat) -> bool {
    forall|i: int| 0 <= i < rows.len() ==> (#[trigger] rows[i]).len() == w
}

/// Concatenating one more row appends it.
pub proof fn lemma_concat_rows_push(rows: Seq<Seq<u32>>, row: Seq<u32>)
    ensures
        concat_rows(rows.push(row)) == concat_rows(rows) + row,
{
    assert(rows.push(row).drop_last() =~= rows);
}

/// Concatenation of a prefix grows by the next row.
pub proof fn lemma_concat_rows_take(rows: Seq<Seq<u32>>, k: int)
    requires
        0 <= k < rows.len(),
    ensures
        concat_rows(rows.take(k + 1)) == concat_rows(rows.take(k)) + rows[k],
{
    assert(rows.take(k + 1).drop_last() =~= rows.take(k));
}

/// Length and indexing of a concatenation of rows of width `w`.
pub proof fn lemma_concat_rows_index(rows: Seq<Seq<u32>>, w: nat)
    requires
        uniform_width(rows, w),
    ensures
        concat_rows(rows).len() == rows.len() * w,
        forall|r: int, c: int|
            0 <= r < rows.len() && 0 <= c < w ==> concat_rows(rows)[r * w + c] == #[trigger] rows[r][c],
    decreases rows.len(),
{
    if rows.len() > 0 {
        let init = rows.drop_last();
        assert(uniform_width(init, w)) by {
            assert forall|i: int| 0 <= i < init.len() implies (#[trigger] init[i]).len() == w by {
                assert(init[i] == rows[i]);
            }
        }
        lemma_concat_rows_index(init, w);
        let n = rows.len() as int;
        assert(rows.last().len() == w) by {
            assert(rows[n - 1].len() == w);
        }
        assert((n - 1) * w + w == n * w) by (nonlinear_arith);
        assert forall|r: int, c: int| 0 <= r < rows.len() && 0 <= c < w implies concat_rows(rows)[r * w + c] == #[trigger] rows[r][c] by {
            if r < n - 1 {
                assert(r * w + c < (n - 1) * w) by (nonlinear_arith)
                    requires
                        r < n - 1,
                        c < w,
                        0 <= r,
                ;
                assert(init[r] == rows[r]);
                assert(0 <= r * w) by (nonlinear_arith)
                    requires
                        0 <= r,
                ;
            } else {
                assert(r == n - 1);
            }
        }
    }
}

/// Cell `(r, c)` of a matrix whose values are the concatenation of uniform rows.
pub proof fn lemma_matrix_cells(m: TraceMatrix, rows: Seq<Seq<u32>>)
    requires
        m.width > 0,
        uniform_width(rows, m.width as nat),
        m.values@ == concat_rows(rows),
    ensures
        m.wf(),
        m.rows() == rows.len(),
        forall|r: int, c: int|
            0 <= r < rows.len() && 0 <= c < m.width ==> m.cell(r, c) == #[trigger] rows[r][c],
        forall|r: int| 0 <= r < rows.len() ==> m.row_seq(r) == #[trigger] rows[r],
{
    let w = m.width as nat;
    lemma_concat_rows_index(rows, w);
    vstd::arithmetic::div_mod::lemma_mod_multiples_basic(rows.len() as int, w as int);
    vstd::arithmetic::div_mod::lemma_div_multiples_vanish(rows.len() as int, w as int);
    vstd::arithmetic::mul::lemma_mul_is_commutative(rows.len() as int, w as int);
    assert forall|r: int| 0 <= r < rows.len() implies m.row_seq(r) == #[trigger] rows[r] by {
        assert(r * w + w <= rows.len() * w) by (nonlinear_arith)
            requires
                r < rows.len(),
        ;
        assert(0 <= r * w) by (nonlinear_arith)
            requires
                0 <= r,
        ;
        assert(m.row_seq(r) =~= rows[r]) by {
            assert forall|c: int| 0 <= c < w implies m.row_seq(r)[c] == rows[r][c] by {
                assert(concat_rows(rows)[r * w + c] == rows[r][c]);
            }
        }
    }
}


/// The rows of a matrix, in order.
pub open spec fn matrix_rows(m: TraceMatrix) -> Seq<Seq<u32>> {
    Seq::new(m.rows(), |r: int| m.row_seq(r))
}

/// Rows of a rectangular matrix have its width.
pub proof fn lemma_matrix_rows(m: TraceMatrix)
    requires
        m.wf(),
    ensures
        matrix_rows(m).len() == m.rows(),
        uniform_width(matrix_rows(m), m.width as nat),
        forall|r: int| 0 <= r < m.rows() ==> #[trigger] matrix_rows(m)[r] == m.row_seq(r),
{
    assert forall|r: int| 0 <= r < matrix_rows(m).len() implies (#[trigger] matrix_rows(m)[r]).len() == m.width by {
        vstd::arithmetic::div_mod::lemma_fundamental_div_mod(m.values@.len() as int, m.width as int);
        lemma_row_in_bounds(m.values@.len() as int, m.width as int, r);
    }
}

/// A matrix built from uniform rows has exactly those rows.
pub proof fn lemma_matrix_rows_of(m: TraceMatrix, rows: Seq<Seq<u32>>)
    requires
        m.width > 0,
        uniform_width(rows, m.width as nat),
        m.values@ == concat_rows(rows),
    ensures
        matrix_rows(m) == rows,
{
    lemma_matrix_cells(m, rows);
    assert(matrix_rows(m) =~= rows);
}

} // verus!
