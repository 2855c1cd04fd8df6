//! Byte-buffer primitives shared by the CPU and GPU backends.
use vstd::arithmetic::div_mod::*;
use vstd::arithmetic::mul::*;
use vstd::prelude::*;

pub mod gpu;

verus! {

/// Whether byte `i` of a destination lies in a block of `rows` rows of
/// `row_bytes` bytes each, the first starting at `start` and each next one
/// `stride` bytes further.
pub open spec fn in_row_block(i: int, start: int, stride: int, row_bytes: int, rows: int) -> bool {
    &&& stride > 0
    &&& start <= i
    &&& (i - start) / stride < rows
    &&& (i - start) % stride < row_bytes
}

/// The source byte that a block copy places at destination byte `i`: same row
/// of the block, same offset within the row.
pub open spec fn row_block_source(
    i: int,
    dst_start: int,
    dst_stride: int,
    src_start: int,
    src_stride: int,
) -> int {
    src_start + ((i - dst_start) / dst_stride) * src_stride + (i - dst_start) % dst_stride
}

/// `dst` after copying `rows` rows of `row_bytes` bytes from `src` (rows
/// `src_stride` apart from `src_start`) into `dst` (rows `dst_stride` apart from
/// `dst_start`); every byte outside the block keeps its value.
pub open spec fn rows_copied(
    dst: Seq<u8>,
    dst_start: int,
    dst_stride: int,
    src: Seq<u8>,
    src_start: int,
    src_stride: int,
    row_bytes: int,
    rows: int,
) -> Seq<u8> {
    Seq::new(
        dst.len(),
        |i: int|
            if in_row_block(i, dst_start, dst_stride, row_bytes, rows) {
                src[row_block_source(i, dst_start, dst_stride, src_start, src_stride)]
            } else {
                dst[i]
            },
    )
}

/// `rows_copied` with the rows before `row` complete and the first `done` bytes
/// of row `row` copied.
spec fn rows_partly_copied(
    dst: Seq<u8>,
    dst_start: int,
    dst_stride: int,
    src: Seq<u8>,
    src_start: int,
    src_stride: int,
    row_bytes: int,
    row: int,
    done: int,
) -> Seq<u8> {
    Seq::new(
        dst.len(),
        |i: int|
            if in_row_block(i, dst_start, dst_stride, row_bytes, row) || (dst_start + row
                * dst_stride <= i < dst_start + row * dst_stride + done) {
                src[row_block_source(i, dst_start, dst_stride, src_start, src_stride)]
            } else {
                dst[i]
            },
    )
}

/// The bytes of a block row sit at `start + row * stride + offset`.
proof fn lemma_block_position(i: int, start: int, stride: int, row: int, offset: int)
    requires
        stride > 0,
        row >= 0,
        0 <= offset < stride,
        i == start + row * stride + offset,
    ensures
        (i - start) / stride == row,
        (i - start) % stride == offset,
        start <= i,
{
    lemma_fundamental_div_mod_converse(i - start, stride, row, offset);
    lemma_mul_nonnegative(row, stride);
}

/// A byte at `start + row * stride + offset`, offset within the row, lies in
/// the block exactly when the row does.
proof fn lemma_in_row_block_at(
    start: int,
    stride: int,
    row_bytes: int,
    rows: int,
    row: int,
    offset: int,
)
    requires
        0 < stride,
        row_bytes <= stride,
        0 <= row,
        0 <= offset < row_bytes,
    ensures
        in_row_block(start + row * stride + offset, start, stride, row_bytes, rows) <==> row
            < rows,
{
    lemma_block_position(start + row * stride + offset, start, stride, row, offset);
}

/// Block rows of one more row are the block rows of `row` rows plus row `row`.
proof fn lemma_block_extends(
    i: int,
    start: int,
    stride: int,
    row_bytes: int,
    row: int,
)
    requires
        0 < stride,
        row_bytes <= stride,
        0 <= row,
    ensures
        in_row_block(i, start, stride, row_bytes, row + 1) <==> (in_row_block(
            i,
            start,
            stride,
            row_bytes,
            row,
        ) || (start + row * stride <= i < start + row * stride + row_bytes)),
{
    if start <= i {
        let q = (i - start) / stride;
        let m = (i - start) % stride;
        lemma_fundamental_div_mod(i - start, stride);
        lemma_mod_pos_bound(i - start, stride);
        lemma_div_pos_is_pos(i - start, stride);
        if start + row * stride <= i < start + row * stride + row_bytes {
            lemma_block_position(i, start, stride, row, i - start - row * stride);
        }
        if q == row && m < row_bytes {
            assert(i == start + row * stride + m) by {
                lemma_mul_is_commutative(stride, row);
            }
        }
    }
}

/// The largest row start of a block lies at `(rows - 1) * stride`.
proof fn lemma_row_offset_bound(row: int, rows: int, stride: int)
    requires
        0 <= row < rows,
        0 <= stride,
    ensures
        row * stride <= (rows - 1) * stride,
        0 <= row * stride,
{
    lemma_mul_inequality(row, rows - 1, stride);
    lemma_mul_nonnegative(row, stride);
}

/// Copies a block of `rows` rows of `row_bytes` bytes from `src` into `dst`,
/// rows lying `src_stride` and `dst_stride` bytes apart. Bytes of `dst` outside
/// the block are left as they were.
pub fn copy_rows(
    dst: &mut [u8],
    dst_start: usize,
    dst_stride: usize,
    src: &[u8],
    src_start: usize,
    src_stride: usize,
    row_bytes: usize,
    rows: usize,
)
    requires
        0 < dst_stride,
        row_bytes <= dst_stride,
        rows > 0 ==> dst_start + (rows - 1) * dst_stride + row_bytes <= old(dst)@.len(),
        rows > 0 ==> src_start + (rows - 1) * src_stride + row_bytes <= src@.len(),
    ensures
        final(dst)@ == rows_copied(
            old(dst)@,
            dst_start as int,
            dst_stride as int,
            src@,
            src_start as int,
            src_stride as int,
            row_bytes as int,
            rows as int,
        ),
{
    let ghost dst0 = dst@;
    let dst_len = dst.len();
    let src_len = src.len();
    let mut row: usize = 0;
    assert(dst@ =~= rows_copied(
        dst0,
        dst_start as int,
        dst_stride as int,
        src@,
        src_start as int,
        src_stride as int,
        row_bytes as int,
        0,
    ));
    while row < rows
        invariant
            0 < dst_stride,
            row_bytes <= dst_stride,
            row <= rows,
            rows > 0 ==> dst_start + (rows - 1) * dst_stride + row_bytes <= dst0.len(),
            rows > 0 ==> src_start + (rows - 1) * src_stride + row_bytes <= src@.len(),
            dst@.len() == dst0.len(),
            dst_len == dst0.len(),
            src_len == src@.len(),
            dst@ == rows_copied(
                dst0,
                dst_start as int,
                dst_stride as int,
                src@,
                src_start as int,
                src_stride as int,
                row_bytes as int,
                row as int,
            ),
        decreases rows - row,
    {
        proof {
            lemma_row_offset_bound(row as int, rows as int, dst_stride as int);
            lemma_row_offset_bound(row as int, rows as int, src_stride as int);
        }
        let dst_row: usize = dst_start + row * dst_stride;
        let src_row: usize = src_start + row * src_stride;
        let mut done: usize = 0;
        assert(dst@ =~= rows_partly_copied(
            dst0,
            dst_start as int,
            dst_stride as int,
            src@,
            src_start as int,
            src_stride as int,
            row_bytes as int,
            row as int,
            0,
        ));
        while done < row_bytes
            invariant
                0 < dst_stride,
                row_bytes <= dst_stride,
                row < rows,
                done <= row_bytes,
                dst_row == dst_start + row * dst_stride,
                src_row == src_start + row * src_stride,
                dst_row + row_bytes <= dst0.len(),
                src_row + row_bytes <= src@.len(),
                dst@.len() == dst0.len(),
                dst_len == dst0.len(),
                src_len == src@.len(),
                dst@ == rows_partly_copied(
                    dst0,
                    dst_start as int,
                    dst_stride as int,
                    src@,
                    src_start as int,
                    src_stride as int,
                    row_bytes as int,
                    row as int,
                    done as int,
                ),
            decreases row_bytes - done,
        {
            let ghost before = dst@;
            dst[dst_row + done] = src[src_row + done];
            proof {
                let j = dst_row + done;
                lemma_block_position(
                    j as int,
                    dst_start as int,
                    dst_stride as int,
                    row as int,
                    done as int,
                );
                lemma_in_row_block_at(
                    dst_start as int,
                    dst_stride as int,
                    row_bytes as int,
                    row as int,
                    row as int,
                    done as int,
                );
                assert(dst@ =~= rows_partly_copied(
                    dst0,
                    dst_start as int,
                    dst_stride as int,
                    src@,
                    src_start as int,
                    src_stride as int,
                    row_bytes as int,
                    row as int,
                    done + 1,
                ));
            }
            done = done + 1;
        }
        proof {
            let target = rows_copied(
                dst0,
                dst_start as int,
                dst_stride as int,
                src@,
                src_start as int,
                src_stride as int,
                row_bytes as int,
                row + 1,
            );
            assert forall|i: int| 0 <= i < dst0.len() implies dst@[i] == target[i] by {
                lemma_block_extends(
                    i,
                    dst_start as int,
                    dst_stride as int,
                    row_bytes as int,
                    row as int,
                );
            }
            assert(dst@ =~= target);
        }
        row = row + 1;
    }
}

} // verus!
