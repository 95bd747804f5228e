use vstd::prelude::*;

use crate::buffer::{UnifiedBuffer, is_shape_mismatch, product_fits, shape_product, single_size};
use crate::error::BridgeError;

verus! {

/// Offset of entry `(i, j)` in a row-major layout whose rows have `width`
/// entries.
pub open spec fn flat_index(i: int, j: int, width: int) -> int {
    i * width + j
}

/// `out` is the `cols × rows` transpose of the row-major `rows × cols`
/// matrix `input`: entry `(r, c)` of the input is entry `(c, r)` of the
/// output.
pub open spec fn is_transpose<T>(out: Seq<T>, input: Seq<T>, rows: nat, cols: nat) -> bool {
    &&& input.len() == rows * cols
    &&& out.len() == rows * cols
    &&& forall|r: int, c: int|
        0 <= r < rows && 0 <= c < cols ==> #[trigger] out[flat_index(c, r, rows as int)]
            == input[flat_index(r, c, cols as int)]
}

/// Entries of a `h × w` row-major layout lie inside it, and a row ends
/// before the next one starts.
proof fn lemma_flat_index_bounds(i: int, j: int, h: int, w: int)
    requires
        0 <= i < h,
        0 <= j < w,
    ensures
        0 <= flat_index(i, j, w) < h * w,
        flat_index(i, j, w) < (i + 1) * w,
        i * w <= flat_index(i, j, w),
{
    assert(0 <= i * w + j < h * w) by (nonlinear_arith)
        requires
            0 <= i < h,
            0 <= j < w,
    ;
    assert((i + 1) * w == i * w + w) by (nonlinear_arith);
}

/// Transposing twice gives back the matrix one started from.
pub proof fn law_transpose_involution<T>(s: Seq<T>, t: Seq<T>, u: Seq<T>, rows: nat, cols: nat)
    requires
        is_transpose(t, s, rows, cols),
        is_transpose(u, t, cols, rows),
    ensures
        u == s,
{
    assert forall|i: int| 0 <= i < s.len() implies u[i] == s[i] by {
        let c = cols as int;
        let h = rows as int;
        assert(c > 0) by (nonlinear_arith)
            requires
                0 <= i < h * c,
                h >= 0,
        ;
        let a = i / c;
        let b = i % c;
        vstd::arithmetic::div_mod::lemma_fundamental_div_mod(i, c);
        assert(0 <= b < c);
        assert(0 <= a < h) by (nonlinear_arith)
            requires
                i == c * a + b,
                0 <= b < c,
                0 <= i < h * c,
        ;
        assert(i == flat_index(a, b, c)) by (nonlinear_arith)
            requires
                i == c * a + b,
        ;
        assert(u[flat_index(a, b, c)] == t[flat_index(b, a, h)]);
        assert(t[flat_index(b, a, h)] == s[flat_index(a, b, c)]);
    }
    assert(u =~= s);
}

/// A matrix has exactly one transpose.
pub proof fn law_transpose_unique<T>(s: Seq<T>, o1: Seq<T>, o2: Seq<T>, rows: nat, cols: nat)
    requires
        is_transpose(o1, s, rows, cols),
        is_transpose(o2, s, rows, cols),
    ensures
        o1 == o2,
{
    assert forall|i: int| 0 <= i < o1.len() implies o1[i] == o2[i] by {
        let h = rows as int;
        assert(h > 0) by (nonlinear_arith)
            requires
                0 <= i < h * cols,
                cols >= 0,
        ;
        let c = i / h;
        let r = i % h;
        vstd::arithmetic::div_mod::lemma_fundamental_div_mod(i, h);
        assert(0 <= c < cols) by (nonlinear_arith)
            requires
                i == h * c + r,
                0 <= r < h,
                0 <= i < h * cols,
        ;
        assert(i == flat_index(c, r, h)) by (nonlinear_arith)
            requires
                i == h * c + r,
        ;
        assert(o1[flat_index(c, r, h)] == s[flat_index(r, c, cols as int)]);
        assert(o2[flat_index(c, r, h)] == s[flat_index(r, c, cols as int)]);
    }
    assert(o1 =~= o2);
}

/// Transposes the row-major `rows × cols` matrix `input`; fails when the
/// input does not hold `rows * cols` entries.
pub fn transpose<T: Copy>(input: &[T], rows: usize, cols: usize) -> (r: Result<
    Vec<T>,
    BridgeError,
>)
    requires
        rows * cols <= usize::MAX,
    ensures
        r is Ok <==> input@.len() == rows * cols,
        r matches Ok(out) ==> is_transpose(out@, input@, rows as nat, cols as nat),
        r matches Err(e) ==> is_shape_mismatch(e, seq![rows, cols], seq![input@.len() as usize]),
{
    if input.len() != rows * cols {
        let mut expected: Vec<usize> = Vec::new();
        expected.push(rows);
        expected.push(cols);
        assert(expected@ =~= seq![rows, cols]);
        return Err(BridgeError::ShapeMismatch { expected, got: single_size(input.len()) });
    }
    let mut out: Vec<T> = Vec::new();
    let mut c: usize = 0;
    while c < cols
        invariant
            input@.len() == rows * cols,
            rows * cols <= usize::MAX,
            c <= cols,
            out@.len() == c * rows,
            forall|r: int, c2: int|
                0 <= r < rows && 0 <= c2 < c ==> #[trigger] out@[flat_index(c2, r, rows as int)]
                    == input@[flat_index(r, c2, cols as int)],
        decreases cols - c,
    {
        let mut r: usize = 0;
        assert(c * rows + rows == (c + 1) * rows) by (nonlinear_arith);
        while r < rows
            invariant
                input@.len() == rows * cols,
                rows * cols <= usize::MAX,
                c < cols,
                r <= rows,
                out@.len() == c * rows + r,
                forall|r2: int, c2: int|
                    0 <= r2 < rows && 0 <= c2 < c ==> #[trigger] out@[flat_index(c2, r2, rows as int)]
                        == input@[flat_index(r2, c2, cols as int)],
                forall|r2: int|
                    0 <= r2 < r ==> #[trigger] out@[flat_index(c as int, r2, rows as int)]
                        == input@[flat_index(r2, c as int, cols as int)],
            decreases rows - r,
        {
            proof {
                lemma_flat_index_bounds(r as int, c as int, rows as int, cols as int);
            }
            let ghost before = out@;
            out.push(input[r * cols + c]);
            proof {
                assert(out@.len() == flat_index(c as int, r as int, rows as int) + 1);
                assert forall|r2: int, c2: int|
                    0 <= r2 < rows && 0 <= c2 < c implies #[trigger] out@[flat_index(
                    c2,
                    r2,
                    rows as int,
                )] == input@[flat_index(r2, c2, cols as int)] by {
                    lemma_flat_index_bounds(c2, r2, cols as int, rows as int);
                    assert((c2 + 1) * rows <= c * rows) by (nonlinear_arith)
                        requires
                            c2 + 1 <= c,
                            rows >= 0,
                    ;
                    assert(out@[flat_index(c2, r2, rows as int)] == before[flat_index(
                        c2,
                        r2,
                        rows as int,
                    )]);
                }
                assert forall|r2: int|
                    0 <= r2 < r + 1 implies #[trigger] out@[flat_index(c as int, r2, rows as int)]
                    == input@[flat_index(r2, c as int, cols as int)] by {
                    if r2 < r {
                        assert(out@[flat_index(c as int, r2, rows as int)] == before[flat_index(
                            c as int,
                            r2,
                            rows as int,
                        )]);
                    }
                }
            }
            r = r + 1;
        }
        assert forall|r2: int, c2: int|
            0 <= r2 < rows && 0 <= c2 < c + 1 implies #[trigger] out@[flat_index(c2, r2, rows as int)]
            == input@[flat_index(r2, c2, cols as int)] by {
            if c2 == c {
            }
        }
        c = c + 1;
    }
    assert(out@.len() == rows * cols) by (nonlinear_arith)
        requires
            out@.len() == cols * rows,
    ;
    Ok(out)
}

/// Bridge from tensors to unified memory buffers.
pub struct TensorBridge;

impl TensorBridge {
    /// Convert flat data with a shape into a unified buffer.
    pub fn to_unified<T: Clone>(data: Vec<T>, shape: Vec<usize>) -> (r: Result<
        UnifiedBuffer<T>,
        BridgeError,
    >)
        requires
            product_fits(shape@),
        ensures
            r is Ok <==> data@.len() == shape_product(shape@),
            r matches Ok(b) ==> b.data_view() == data@ && b.shape_view() == shape@,
            r matches Err(e) ==> is_shape_mismatch(
                e,
                seq![shape_product(shape@) as usize],
                seq![data@.len() as usize],
            ),
    {
        UnifiedBuffer::new(data, shape)
    }

    /// Extract flat data and shape from a unified buffer.
    pub fn from_unified<T: Copy>(buf: &UnifiedBuffer<T>) -> (r: (Vec<T>, Vec<usize>))
        ensures
            r.0@ == buf.data_view(),
            r.1@ == buf.shape_view(),
    {
        (vstd::slice::slice_to_vec(buf.data()), vstd::slice::slice_to_vec(buf.shape()))
    }

    /// The column-major entries of a two-dimensional buffer, with its row
    /// and column counts; fails for a buffer of another rank.
    pub fn unified_to_column_major<T: Copy>(buf: &UnifiedBuffer<T>) -> (r: Result<
        (usize, usize, Vec<T>),
        BridgeError,
    >)
        requires
            buf.shape_view().len() == 2 ==> buf.data_view().len() == buf.shape_view()[0]
                * buf.shape_view()[1],
        ensures
            r is Ok <==> buf.shape_view().len() == 2,
            r matches Ok(m) ==> m.0 == buf.shape_view()[0] && m.1 == buf.shape_view()[1]
                && is_transpose(m.2@, buf.data_view(), m.0 as nat, m.1 as nat),
            r matches Err(e) ==> (e matches BridgeError::Other(msg) && msg@
                == "expected 2-D buffer"@),
    {
        if buf.shape().len() != 2 {
            return Err(BridgeError::Other(String::from_str("expected 2-D buffer")));
        }
        let nrows = buf.shape()[0];
        let ncols = buf.shape()[1];
        let len = buf.data().len();
        assert(len == nrows * ncols);
        let col_major = transpose(buf.data(), nrows, ncols).unwrap();
        Ok((nrows, ncols, col_major))
    }

    /// A two-dimensional buffer, in row-major order, of the matrix whose
    /// column-major entries are given.
    pub fn column_major_to_unified<T: Copy>(nrows: usize, ncols: usize, col_major: &[T]) -> (b:
        UnifiedBuffer<T>)
        requires
            col_major@.len() == nrows * ncols,
        ensures
            b.shape_view() == seq![nrows, ncols],
            b.is_consistent(),
            is_transpose(b.data_view(), col_major@, ncols as nat, nrows as nat),
    {
        let len = col_major.len();
        assert(nrows * ncols == ncols * nrows) by (nonlinear_arith);
        let data = transpose(col_major, ncols, nrows).unwrap();
        let mut shape: Vec<usize> = Vec::new();
        shape.push(nrows);
        shape.push(ncols);
        proof {
            let sh = shape@;
            assert(sh =~= seq![nrows, ncols]);
            assert(sh.take(0) =~= Seq::<usize>::empty());
            assert(sh.take(1) =~= seq![nrows]);
            assert(sh.take(1).drop_last() =~= Seq::<usize>::empty());
            assert(sh.take(2) =~= sh);
            assert(sh.drop_last() =~= seq![nrows]);
            assert(seq![nrows].drop_last() =~= Seq::<usize>::empty());
            assert(shape_product(Seq::<usize>::empty()) == 1);
            assert(seq![nrows].last() == nrows);
            assert(shape_product(seq![nrows]) == shape_product(Seq::<usize>::empty()) * (nrows as nat));
            assert(shape_product(seq![nrows]) == nrows);
            assert(shape_product(sh) == nrows * ncols);
            assert forall|k: int| 0 <= k <= sh.len() implies #[trigger] shape_product(sh.take(k))
                <= usize::MAX by {
                if k == 0 {
                    assert(sh.take(k) =~= Seq::<usize>::empty());
                } else if k == 1 {
                    assert(sh.take(k) =~= seq![nrows]);
                } else {
                    assert(sh.take(k) =~= sh);
                }
            }
        }
        UnifiedBuffer::new(data, shape).unwrap()
    }
}

} // verus!
