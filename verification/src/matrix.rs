//! Matrices stored row by row, and the product of byte matrices.
use crate::parallel::parallel_map;
use ndarray::{ArrayView2, Axis, Slice};
use std::num::Wrapping;
use vstd::arithmetic::div_mod::lemma_fundamental_div_mod;
use vstd::math::min;
use vstd::prelude::*;

verus! {

/// The entry at row `i` and column `j` of a matrix `width` columns wide.
pub open spec fn cell<T>(entries: Seq<T>, width: int, i: int, j: int) -> T {
    entries[i * width + j]
}

/// Row `i` of a matrix `width` columns wide.
pub open spec fn matrix_row<T>(entries: Seq<T>, width: int, i: int) -> Seq<T> {
    entries.subrange(i * width, (i + 1) * width)
}

/// Column `j` of a matrix of `height` rows, `width` columns wide.
pub open spec fn matrix_column<T>(entries: Seq<T>, height: nat, width: int, j: int) -> Seq<T> {
    Seq::new(height, |i: int| cell(entries, width, i, j))
}

/// The inner product of two rows of bytes.
pub open spec fn inner_product(a: Seq<i8>, b: Seq<i8>) -> int
    decreases a.len(),
{
    if a.len() == 0 {
        0
    } else {
        inner_product(a.drop_last(), b.drop_last()) + a.last() * b.last()
    }
}

/// An integer reduced to 32 bits in two's complement.
pub open spec fn wrapped(x: int) -> int {
    let low = x % 0x1_0000_0000;
    if low < 0x8000_0000 {
        low
    } else {
        low - 0x1_0000_0000
    }
}

/// The entry at row `i` and column `j` of the product of two byte matrices,
/// `k` columns and `n` columns wide, in 32 bits with wrap-around.
pub open spec fn product_entry(lhs: Seq<i8>, rhs: Seq<i8>, k: nat, n: int, i: int, j: int) -> int {
    wrapped(inner_product(matrix_row(lhs, k as int, i), matrix_column(rhs, k, n, j)))
}

/// Columns `from..to` of the product of an `m` by `k` and a `k` by `n` matrix
/// of bytes, accumulated in 32 bits with wrap-around.
///
/// This is ndarray's `dot` on two-dimensional arrays of `Wrapping<i32>`, which
/// adds up, for each row of the left and each column of the right matrix, the
/// products of their entries.  The right one is what `slice_axis` cuts out of
/// the whole: its columns from `from` up to `to`.  Sum and product of
/// `Wrapping<i32>` are those of the integers, reduced to 32 bits.  The bounds
/// on the sizes are those under which ndarray takes the shapes and the wider
/// copies can be allocated.
#[verifier::external_body]
pub(crate) fn matmul_i8_to_i32(
    lhs: &[i8],
    rhs: &[i8],
    m: usize,
    k: usize,
    n: usize,
    from: usize,
    to: usize,
) -> (r: Vec<i32>)
    requires
        m > 0,
        k > 0,
        from < to <= n,
        lhs@.len() == m * k,
        rhs@.len() == k * n,
        k * n <= isize::MAX,
        4 * (m * k) <= isize::MAX,
        4 * (k * (to - from)) <= isize::MAX,
        4 * (m * (to - from)) <= isize::MAX,
    ensures
        r@.len() == m * (to - from),
        forall|i: int, j: int|
            0 <= i < m && 0 <= j < to - from ==> #[trigger] cell(r@, to - from, i, j)
                == product_entry(lhs@, rhs@, k as nat, n as int, i, from + j),
{
    let left = ArrayView2::from_shape((m, k), lhs).expect("left shape");
    let right = ArrayView2::from_shape((k, n), rhs).expect("right shape");
    let part = right.slice_axis(Axis(1), Slice::from(from..to));
    let product = left.mapv(i32::from).mapv(Wrapping).dot(&part.mapv(i32::from).mapv(Wrapping));
    product.iter().map(|entry| entry.0).collect()
}

/// The most columns that are multiplied at once.
pub const BLOCK_COLUMNS: usize = 4096;

/// Where block `b` ends of `n` columns cut into blocks `width` columns wide.
pub open spec fn block_end(b: int, width: int, n: int) -> int {
    min((b + 1) * width, n)
}

/// Whether block `b` of `width` columns of a product is a matrix with the
/// entries of those columns.
pub open spec fn is_block(
    block: Seq<i32>,
    b: int,
    width: int,
    lhs: Seq<i8>,
    rhs: Seq<i8>,
    m: int,
    k: nat,
    n: int,
) -> bool {
    let columns = block_end(b, width, n) - b * width;
    &&& columns > 0
    &&& block.len() == m * columns
    &&& forall|i: int, j: int|
        0 <= i < m && 0 <= j < columns ==> #[trigger] cell(block, columns, i, j) == product_entry(
            lhs,
            rhs,
            k,
            n,
            i,
            b * width + j,
        )
}

/// Whether `blocks` hold all columns of a product, `width` to a block, the
/// last block what is left.
pub open spec fn are_blocks(
    blocks: Seq<Vec<i32>>,
    width: int,
    lhs: Seq<i8>,
    rhs: Seq<i8>,
    m: int,
    k: nat,
    n: int,
) -> bool {
    &&& width > 0
    &&& n <= blocks.len() * width
    &&& forall|b: int|
        0 <= b < blocks.len() ==> is_block((#[trigger] blocks[b])@, b, width, lhs, rhs, m, k, n)
}

/// Block `b` of a product, `width` columns to a block.
fn multiply_block(
    lhs: &[i8],
    rhs: &[i8],
    m: usize,
    k: usize,
    n: usize,
    width: usize,
    b: usize,
) -> (r: Vec<i32>)
    requires
        m > 0,
        k > 0,
        width > 0,
        lhs@.len() == m * k,
        rhs@.len() == k * n,
        k * n <= isize::MAX,
        4 * (m * k) <= isize::MAX,
        4 * (k * width) <= isize::MAX,
        4 * (m * n) <= isize::MAX,
        b * width < n,
    ensures
        is_block(r@, b as int, width as int, lhs@, rhs@, m as int, k as nat, n as int),
{
    let from: usize = b * width;
    let to: usize = if n - from < width {
        n
    } else {
        from + width
    };
    proof {
        let columns = to - from;
        assert((b + 1) * width == b * width + width) by (nonlinear_arith);
        assert(4 * (k * columns) <= 4 * (k * width) && 4 * (m * columns) <= 4 * (m * n))
            by (nonlinear_arith)
            requires
                0 <= columns <= width,
                columns <= n,
                k >= 0,
                m >= 0,
        ;
    }
    matmul_i8_to_i32(lhs, rhs, m, k, n, from, to)
}

/// The product of an `m` by `k` and a `k` by `n` matrix of bytes, in blocks of
/// columns, and the number of columns of a block.
///
/// Four bytes for each entry are needed of the left matrix, of the product and
/// of one block of the right matrix at a time.
pub(crate) fn multiply_blocks(lhs: &[i8], rhs: &[i8], m: usize, k: usize, n: usize) -> (r: (
    Vec<Vec<i32>>,
    usize,
))
    requires
        m > 0,
        k > 0,
        n > 0,
        lhs@.len() == m * k,
        rhs@.len() == k * n,
        k * n <= isize::MAX,
        4 * (m * k) <= isize::MAX,
        4 * (m * n) <= isize::MAX,
    ensures
        are_blocks(r.0@, r.1 as int, lhs@, rhs@, m as int, k as nat, n as int),
{
    let room: usize = isize::MAX as usize / 4 / k;
    let width: usize = if room < BLOCK_COLUMNS {
        room
    } else {
        BLOCK_COLUMNS
    };
    proof {
        let quarter = isize::MAX as usize as int / 4;
        assert(k <= m * k) by (nonlinear_arith)
            requires
                m >= 1,
                k >= 0,
        ;
        lemma_fundamental_div_mod(quarter, k as int);
        assert(room >= 1) by (nonlinear_arith)
            requires
                quarter == k * room + quarter % (k as int),
                0 <= quarter % (k as int) < k,
                k <= quarter,
        ;
        assert(k * width <= k * room) by (nonlinear_arith)
            requires
                width <= room,
                k >= 0,
        ;
    }
    let count: usize = (n - 1) / width + 1;
    proof {
        lemma_fundamental_div_mod(n - 1, width as int);
        assert(n <= count * width && (count - 1) * width < n) by (nonlinear_arith)
            requires
                n - 1 == width * (count - 1) + (n - 1) % (width as int),
                0 <= (n - 1) % (width as int) < width,
        ;
        assert forall|b: int| 0 <= b < count implies #[trigger] (b * width) < n by {
            assert(b * width <= (count - 1) * width) by (nonlinear_arith)
                requires
                    b <= count - 1,
                    width >= 0,
            ;
        }
    }
    let multiplied = |b: usize| -> (block: Vec<i32>)
        requires
            m > 0,
            k > 0,
            width > 0,
            lhs@.len() == m * k,
            rhs@.len() == k * n,
            k * n <= isize::MAX,
            4 * (m * k) <= isize::MAX,
            4 * (k * width) <= isize::MAX,
            4 * (m * n) <= isize::MAX,
            b * width < n,
        ensures
            is_block(block@, b as int, width as int, lhs@, rhs@, m as int, k as nat, n as int),
        { multiply_block(lhs, rhs, m, k, n, width, b) };
    let blocks: Vec<Vec<i32>> = parallel_map(count, multiplied);
    assert forall|b: int| 0 <= b < count implies is_block(
        (#[trigger] blocks@[b])@,
        b,
        width as int,
        lhs@,
        rhs@,
        m as int,
        k as nat,
        n as int,
    ) by {
        assert(call_ensures(multiplied, (b as usize,), blocks@[b]));
    }
    (blocks, width)
}

/// Row `i` of a product that is held in blocks of columns.
pub(crate) fn row_of_blocks(
    blocks: &Vec<Vec<i32>>,
    width: usize,
    n: usize,
    i: usize,
    Ghost(lhs): Ghost<Seq<i8>>,
    Ghost(rhs): Ghost<Seq<i8>>,
    Ghost(m): Ghost<int>,
    Ghost(k): Ghost<nat>,
) -> (r: Vec<i32>)
    requires
        are_blocks(blocks@, width as int, lhs, rhs, m, k, n as int),
        i < m,
    ensures
        r@.len() == n,
        forall|j: int|
            0 <= j < n ==> #[trigger] r@[j] == product_entry(lhs, rhs, k, n as int, i as int, j),
{
    let mut row: Vec<i32> = Vec::with_capacity(n);
    let mut b: usize = 0;
    while b < blocks.len()
        invariant
            b <= blocks@.len(),
            i < m,
            are_blocks(blocks@, width as int, lhs, rhs, m, k, n as int),
            row@.len() == min(b * width, n as int),
            forall|j: int|
                0 <= j < row@.len() ==> #[trigger] row@[j] == product_entry(
                    lhs,
                    rhs,
                    k,
                    n as int,
                    i as int,
                    j,
                ),
        decreases blocks.len() - b,
    {
        let ghost before = row@;
        proof {
            assert(is_block(blocks@[b as int]@, b as int, width as int, lhs, rhs, m, k, n as int));
            assert((b + 1) * width == b * width + width) by (nonlinear_arith);
        }
        let left: usize = n - row.len();
        let columns: usize = if left < width {
            left
        } else {
            width
        };
        proof {
            lemma_row_in_range(i as int, m, columns as int);
            assert(i + 1 <= (i + 1) * columns) by (nonlinear_arith)
                requires
                    i >= 0,
                    columns >= 1,
            ;
            assert(blocks@[b as int].len() <= usize::MAX);
        }
        let part: &[i32] = &blocks[b].as_slice()[i * columns..(i + 1) * columns];
        append_row(&mut row, part);
        proof {
            let base = b * width;
            assert forall|j: int| 0 <= j < row@.len() implies #[trigger] row@[j] == product_entry(
                lhs,
                rhs,
                k,
                n as int,
                i as int,
                j,
            ) by {
                if j < base {
                    assert(row@[j] == before[j]);
                } else {
                    assert(row@[j] == part@[j - base]);
                    assert(cell(blocks@[b as int]@, columns as int, i as int, j - base) == part@[j
                        - base]);
                }
            }
        }
        b += 1;
    }
    row
}

/// Appends a row to a matrix.
pub fn append_row<T: Copy>(joined: &mut Vec<T>, row: &[T])
    ensures
        final(joined)@ == old(joined)@ + row@,
{
    let mut j: usize = 0;
    while j < row.len()
        invariant
            j <= row@.len(),
            joined@ =~= old(joined)@ + row@.take(j as int),
        decreases row.len() - j,
    {
        joined.push(row[j]);
        j += 1;
    }
    assert(row@.take(j as int) =~= row@);
}

/// A row appended to `i` rows is row `i`, and leaves the others as they were.
pub proof fn lemma_appended_row<T>(before: Seq<T>, row: Seq<T>, i: int, width: int)
    requires
        i >= 0,
        row.len() == width,
        before.len() == i * width,
    ensures
        (before + row).len() == (i + 1) * width,
        matrix_row(before + row, width, i) == row,
        forall|h: int|
            0 <= h < i ==> #[trigger] matrix_row(before + row, width, h) == matrix_row(
                before,
                width,
                h,
            ),
{
    lemma_row_in_range(i, i + 1, width);
    assert(matrix_row(before + row, width, i) =~= row);
    assert forall|h: int| 0 <= h < i implies #[trigger] matrix_row(before + row, width, h)
        == matrix_row(before, width, h) by {
        lemma_row_in_range(h, i, width);
        assert(matrix_row(before + row, width, h) =~= matrix_row(before, width, h));
    }
}

/// Joins rows of equal width into one matrix.
pub fn join_rows<T: Copy>(rows: &Vec<Vec<T>>, width: usize) -> (r: Vec<T>)
    requires
        forall|i: int| 0 <= i < rows@.len() ==> (#[trigger] rows@[i])@.len() == width,
    ensures
        r@.len() == rows@.len() * width,
        forall|i: int|
            0 <= i < rows@.len() ==> matrix_row(r@, width as int, i) == (#[trigger] rows@[i])@,
{
    let mut joined: Vec<T> = Vec::new();
    let mut i: usize = 0;
    while i < rows.len()
        invariant
            i <= rows.len(),
            joined@.len() == i * width,
            forall|h: int| 0 <= h < rows@.len() ==> (#[trigger] rows@[h])@.len() == width,
            forall|h: int|
                0 <= h < i ==> matrix_row(joined@, width as int, h) == (#[trigger] rows@[h])@,
        decreases rows.len() - i,
    {
        proof {
            lemma_appended_row(joined@, rows@[i as int]@, i as int, width as int);
        }
        append_row(&mut joined, rows[i].as_slice());
        i += 1;
    }
    joined
}

/// The entries of a row are entries of the matrix.
pub proof fn lemma_cell_of_row<T>(entries: Seq<T>, height: int, width: int, i: int, j: int)
    requires
        0 <= i < height,
        0 <= j < width,
        entries.len() == height * width,
    ensures
        cell(entries, width, i, j) == matrix_row(entries, width, i)[j],
{
    lemma_row_in_range(i, height, width);
}

/// Matrices with the same rows are equal.
pub proof fn lemma_equal_rows<T>(a: Seq<T>, b: Seq<T>, height: int, width: int)
    requires
        width > 0,
        a.len() == height * width,
        b.len() == height * width,
        forall|i: int|
            0 <= i < height ==> #[trigger] matrix_row(a, width, i) == matrix_row(b, width, i),
    ensures
        a == b,
{
    assert forall|x: int| 0 <= x < a.len() implies a[x] == b[x] by {
        let i = x / width;
        let j = x % width;
        lemma_fundamental_div_mod(x, width);
        assert(0 <= i < height) by (nonlinear_arith)
            requires
                x == width * i + j,
                0 <= j < width,
                0 <= x < height * width,
        ;
        assert(i * width + j == x) by (nonlinear_arith)
            requires
                x == width * i + j,
        ;
        lemma_cell_of_row(a, height, width, i, j);
        lemma_cell_of_row(b, height, width, i, j);
        assert(matrix_row(a, width, i) == matrix_row(b, width, i));
    }
    assert(a =~= b);
}

/// A row of a matrix lies within its entries.
pub proof fn lemma_row_in_range(i: int, height: int, width: int)
    requires
        0 <= i < height,
        width >= 0,
    ensures
        0 <= i * width <= (i + 1) * width <= height * width,
        (i + 1) * width == i * width + width,
{
    assert(0 <= i * width && (i + 1) * width <= height * width && (i + 1) * width == i * width
        + width) by (nonlinear_arith)
        requires
            0 <= i < height,
            width >= 0,
    ;
}

/// An entry of a matrix lies within its entries.
pub proof fn lemma_cell_in_range(i: int, j: int, height: int, width: int)
    requires
        0 <= i < height,
        0 <= j < width,
    ensures
        0 <= i * width + j < height * width,
{
    lemma_row_in_range(i, height, width);
}

} // verus!
