//! Reading a rendered frame back: rows are padded to the copy alignment in the
//! buffer, and packed in the image.

use vstd::prelude::*;
use vstd::slice::slice_subrange;
use crate::align::{align_to, aligned, lemma_aligned_is_least_multiple};

verus! {

/// The alignment of the rows of a buffer that a texture is copied to.
pub const COPY_BYTES_PER_ROW_ALIGNMENT: u32 = 256;

/// The bytes of a row of pixels.
pub open spec fn row_bytes(width: int) -> int {
    4 * width
}

/// The bytes from the start of one row to the start of the next in the buffer.
pub open spec fn padded_row_bytes(width: int) -> int {
    aligned(row_bytes(width), COPY_BYTES_PER_ROW_ALIGNMENT as int)
}

/// The sizes with which a frame can be read back: all byte counts, and the sum
/// that the rounding goes through, fit in 32 bits.
pub open spec fn readable(width: int, height: int) -> bool {
    &&& row_bytes(width) + COPY_BYTES_PER_ROW_ALIGNMENT <= u32::MAX
    &&& padded_row_bytes(width) * height <= u32::MAX
}

/// How far a buffer must reach to hold all rows. The padding of the last row
/// does not count.
pub open spec fn needed_bytes(width: int, height: int) -> int {
    if height == 0 {
        0
    } else {
        padded_row_bytes(width) * (height - 1) + row_bytes(width)
    }
}

/// The first `rows` rows of a padded buffer, without the padding.
pub open spec fn unpadded(data: Seq<u8>, row: int, padded: int, rows: int) -> Seq<u8>
    decreases rows,
{
    if rows <= 0 {
        Seq::empty()
    } else {
        unpadded(data, row, padded, rows - 1) + data.subrange(
            padded * (rows - 1),
            padded * (rows - 1) + row,
        )
    }
}

/// The layout of the buffer that a frame is copied to.
#[derive(Clone, Copy, Debug, PartialEq, Eq, Structural)]
pub struct ReadbackLayout {
    pub width: u32,
    pub height: u32,
    pub padded_bytes_per_row: u32,
    pub buffer_size: u64,
}

impl ReadbackLayout {
    /// The layout is the one for its size.
    pub open spec fn wf(&self) -> bool {
        &&& readable(self.width as int, self.height as int)
        &&& self.padded_bytes_per_row == padded_row_bytes(self.width as int)
        &&& self.buffer_size == padded_row_bytes(self.width as int) * self.height
    }

    /// Lays out the buffer for a frame of the given size.
    pub fn new(width: u32, height: u32) -> (r: ReadbackLayout)
        requires
            readable(width as int, height as int),
        ensures
            r.wf(),
            r.width == width,
            r.height == height,
            r.padded_bytes_per_row % 256 == 0,
            4 * width <= r.padded_bytes_per_row < 4 * width + 256,
            r.buffer_size == r.padded_bytes_per_row * height,
    {
        proof {
            lemma_rows_are_padded_least(width as int);
        }
        let padded: u32 = align_to(4 * width, COPY_BYTES_PER_ROW_ALIGNMENT);
        ReadbackLayout {
            width,
            height,
            padded_bytes_per_row: padded,
            buffer_size: (padded * height) as u64,
        }
    }

    /// Lays out the buffer for a frame whose size may be too large; `None` if
    /// it is.
    pub fn try_new(width: u32, height: u32) -> (r: Option<ReadbackLayout>)
        ensures
            r is Some <==> readable(width as int, height as int),
            r matches Some(layout) ==> layout.wf() && layout.width == width && layout.height == height,
            r matches Some(layout) ==> {
                &&& layout.padded_bytes_per_row % 256 == 0
                &&& 4 * width <= layout.padded_bytes_per_row < 4 * width + 256
                &&& layout.buffer_size == layout.padded_bytes_per_row * height
            },
            forall|padded: int|
                4 * width <= padded < 4 * width + 256 && padded % 256 == 0 ==> (r is Some <==> 4 * width + 256 <= u32::MAX
                    && #[trigger] (padded * height) <= u32::MAX),
    {
        proof {
            lemma_rows_are_padded_least(width as int);
        }
        let row: u64 = 4 * (width as u64);
        if row + COPY_BYTES_PER_ROW_ALIGNMENT as u64 > u32::MAX as u64 {
            return None;
        }
        let padded: u64 = align_to(row as u32, COPY_BYTES_PER_ROW_ALIGNMENT) as u64;
        assert(padded * height <= u32::MAX * u32::MAX) by (nonlinear_arith)
            requires
                0 <= padded <= u32::MAX,
                0 <= height <= u32::MAX,
        ;
        if padded * (height as u64) > u32::MAX as u64 {
            return None;
        }
        Some(ReadbackLayout::new(width, height))
    }

    /// Takes the rows of the frame out of the buffer.
    pub fn unpad(&self, data: &[u8]) -> (r: Vec<u8>)
        requires
            self.wf(),
            needed_bytes(self.width as int, self.height as int) <= data@.len(),
        ensures
            r@ == unpadded(
                data@,
                row_bytes(self.width as int),
                padded_row_bytes(self.width as int),
                self.height as int,
            ),
            r@.len() == 4 * self.width * self.height,
            forall|y: int, x: int|
                0 <= y < self.height && 0 <= x < 4 * self.width ==> #[trigger] r@[4 * self.width * y + x]
                    == data@[self.padded_bytes_per_row * y + x],
    {
        let ghost w = self.width as int;
        let ghost row = row_bytes(w);
        let ghost padded_spec = padded_row_bytes(w);
        proof {
            lemma_packed_fits(w, self.height as int);
        }
        let mut pixels: Vec<u8> = Vec::with_capacity((self.width * self.height * 4) as usize);
        let padded: usize = self.padded_bytes_per_row as usize;
        let row_size: usize = (4 * self.width) as usize;
        let mut y: u32 = 0;
        while y < self.height
            invariant
                self.wf(),
                w == self.width,
                row == row_bytes(w),
                padded_spec == padded_row_bytes(w),
                padded == padded_spec,
                row_size == row,
                needed_bytes(w, self.height as int) <= data@.len(),
                0 <= y <= self.height,
                pixels@ == unpadded(data@, row, padded_spec, y as int),
            decreases self.height - y,
        {
            proof {
                lemma_row_in_buffer(w, self.height as int, y as int);
            }
            let start: usize = y as usize * padded;
            let end: usize = start + row_size;
            let ghost before = pixels@;
            let part = slice_subrange(data, start, end);
            pixels.extend_from_slice(part);
            assert(pixels@ =~= before + data@.subrange(padded_spec * y, padded_spec * y + row));
            y = y + 1;
        }
        proof {
            lemma_unpadded_len(data@, w, self.height as int, self.height as int);
            assert forall|y: int, x: int|
                0 <= y < self.height && 0 <= x < 4 * self.width implies #[trigger] pixels@[4 * self.width * y + x]
                == data@[self.padded_bytes_per_row * y + x] by {
                lemma_unpadded_byte(data@, w, self.height as int, y, x);
            }
        }
        pixels
    }
}

/// A row takes four bytes for each pixel, and is padded to the least multiple of
/// 256 that holds it. A frame can be read back exactly if the rows, the rounding
/// and all rows together stay within 32 bits.
pub proof fn lemma_rows_are_padded_least(width: int)
    requires
        0 <= width,
    ensures
        row_bytes(width) == 4 * width,
        padded_row_bytes(width) % 256 == 0,
        4 * width <= padded_row_bytes(width) < 4 * width + 256,
        forall|padded: int|
            4 * width <= padded < 4 * width + 256 && #[trigger] (padded % 256) == 0 ==> padded == padded_row_bytes(width),
        forall|padded: int, height: int|
            4 * width <= padded < 4 * width + 256 && padded % 256 == 0 ==> (#[trigger] readable(width, height) <==> 4
                * width + 256 <= u32::MAX && #[trigger] (padded * height) <= u32::MAX),
{
    lemma_aligned_is_least_multiple(row_bytes(width), COPY_BYTES_PER_ROW_ALIGNMENT as int);
}

/// A buffer must reach to the end of the last row: row `y` starts `y` padded rows
/// from the start.
pub proof fn lemma_last_row_is_needed(width: int, height: int)
    requires
        0 <= width,
        0 <= height,
    ensures
        height > 0 ==> needed_bytes(width, height) == padded_row_bytes(width) * (height - 1) + 4 * width,
        height == 0 ==> needed_bytes(width, height) == 0,
{
}

proof fn lemma_packed_fits(width: int, height: int)
    requires
        0 <= width,
        0 <= height,
        readable(width, height),
    ensures
        0 <= width * height,
        width * height * 4 <= u32::MAX,
        row_bytes(width) <= padded_row_bytes(width),
{
    lemma_aligned_is_least_multiple(row_bytes(width), COPY_BYTES_PER_ROW_ALIGNMENT as int);
    let padded = padded_row_bytes(width);
    assert(0 <= width * height && width * height * 4 <= padded * height) by (nonlinear_arith)
        requires
            0 <= width,
            0 <= height,
            4 * width <= padded,
    ;
}

/// Row `y` lies within the part of the buffer that must be there, and its end
/// is within 32 bits.
proof fn lemma_row_in_buffer(width: int, height: int, y: int)
    requires
        0 <= width,
        0 <= y < height,
        readable(width, height),
    ensures
        0 <= padded_row_bytes(width) * y,
        y * padded_row_bytes(width) == padded_row_bytes(width) * y,
        padded_row_bytes(width) * y + row_bytes(width) <= needed_bytes(width, height),
        needed_bytes(width, height) <= u32::MAX,
{
    lemma_aligned_is_least_multiple(row_bytes(width), COPY_BYTES_PER_ROW_ALIGNMENT as int);
    let padded = padded_row_bytes(width);
    assert(0 <= padded * y <= padded * (height - 1)) by (nonlinear_arith)
        requires
            0 <= y <= height - 1,
            0 <= padded,
    ;
    assert(padded * (height - 1) + padded == padded * height) by (nonlinear_arith);
    assert(y * padded == padded * y) by (nonlinear_arith);
}

proof fn lemma_unpadded_len(data: Seq<u8>, width: int, height: int, rows: int)
    requires
        0 <= width,
        0 <= rows <= height,
        readable(width, height),
        needed_bytes(width, height) <= data.len(),
    ensures
        unpadded(data, row_bytes(width), padded_row_bytes(width), rows).len() == 4 * width * rows,
    decreases rows,
{
    if rows > 0 {
        lemma_unpadded_len(data, width, height, rows - 1);
        lemma_row_in_buffer(width, height, rows - 1);
        assert(4 * width * (rows - 1) + 4 * width == 4 * width * rows) by (nonlinear_arith);
    } else {
        assert(4 * width * rows == 0) by (nonlinear_arith)
            requires
                rows == 0,
        ;
    }
}

/// The buffer `data` holds the rows of `frame`, each at the start of a padded
/// row. What the padding holds is left open.
pub open spec fn holds_frame(data: Seq<u8>, frame: Seq<u8>, width: int, height: int) -> bool {
    &&& needed_bytes(width, height) <= data.len()
    &&& frame.len() == row_bytes(width) * height
    &&& forall|y: int|
        0 <= y < height ==> #[trigger] data.subrange(
            padded_row_bytes(width) * y,
            padded_row_bytes(width) * y + row_bytes(width),
        ) == frame.subrange(row_bytes(width) * y, row_bytes(width) * y + row_bytes(width))
}

proof fn lemma_unpadded_prefix(data: Seq<u8>, frame: Seq<u8>, width: int, height: int, rows: int)
    requires
        0 <= width,
        0 <= rows <= height,
        readable(width, height),
        holds_frame(data, frame, width, height),
    ensures
        0 <= row_bytes(width) * rows <= frame.len(),
        unpadded(data, row_bytes(width), padded_row_bytes(width), rows) == frame.take(row_bytes(width) * rows),
    decreases rows,
{
    let row = row_bytes(width);
    let padded = padded_row_bytes(width);
    assert(0 <= row * rows <= row * height) by (nonlinear_arith)
        requires
            0 <= row,
            0 <= rows <= height,
    ;
    if rows > 0 {
        lemma_unpadded_prefix(data, frame, width, height, rows - 1);
        assert(row * (rows - 1) + row == row * rows) by (nonlinear_arith);
        assert(data.subrange(padded * (rows - 1), padded * (rows - 1) + row) == frame.subrange(
            row * (rows - 1),
            row * (rows - 1) + row,
        ));
        assert(frame.take(row * (rows - 1)) + frame.subrange(row * (rows - 1), row * rows) =~= frame.take(row * rows));
    } else {
        assert(row * rows == 0) by (nonlinear_arith)
            requires
                rows == 0,
        ;
        assert(frame.take(0) =~= Seq::empty());
    }
}

/// Reading back gives the frame that was copied to the buffer, whatever the
/// padding holds.
pub proof fn lemma_unpad_returns_frame(data: Seq<u8>, frame: Seq<u8>, width: int, height: int)
    requires
        0 <= width,
        0 <= height,
        readable(width, height),
        holds_frame(data, frame, width, height),
    ensures
        unpadded(data, row_bytes(width), padded_row_bytes(width), height) == frame,
{
    lemma_unpadded_prefix(data, frame, width, height, height);
    assert(frame.take(frame.len() as int) =~= frame);
}

/// Byte `x` of row `y` of the packed frame is byte `x` of padded row `y`.
pub proof fn lemma_unpadded_byte(data: Seq<u8>, width: int, height: int, y: int, x: int)
    requires
        0 <= width,
        readable(width, height),
        needed_bytes(width, height) <= data.len(),
        0 <= y < height,
        0 <= x < row_bytes(width),
    ensures
        unpadded(data, row_bytes(width), padded_row_bytes(width), height)[row_bytes(width) * y + x]
            == data[padded_row_bytes(width) * y + x],
{
    lemma_unpadded_byte_within(data, width, height, height, y, x);
}

proof fn lemma_unpadded_byte_within(data: Seq<u8>, width: int, height: int, rows: int, y: int, x: int)
    requires
        0 <= width,
        readable(width, height),
        needed_bytes(width, height) <= data.len(),
        0 <= y < rows <= height,
        0 <= x < row_bytes(width),
    ensures
        unpadded(data, row_bytes(width), padded_row_bytes(width), rows)[row_bytes(width) * y + x]
            == data[padded_row_bytes(width) * y + x],
    decreases rows,
{
    let row = row_bytes(width);
    lemma_unpadded_len(data, width, height, rows - 1);
    lemma_row_in_buffer(width, height, rows - 1);
    assert(4 * width * (rows - 1) == row * (rows - 1));
    assert(0 <= row * y) by (nonlinear_arith)
        requires
            0 <= row,
            0 <= y,
    ;
    if y < rows - 1 {
        assert(row * y + row <= row * (rows - 1)) by (nonlinear_arith)
            requires
                0 <= row,
                y + 1 <= rows - 1,
        ;
        lemma_unpadded_byte_within(data, width, height, rows - 1, y, x);
    }
}

/// The buffer is large enough for the frame, and its rows are aligned.
pub proof fn lemma_buffer_holds_needed_bytes(layout: ReadbackLayout)
    requires
        layout.wf(),
    ensures
        needed_bytes(layout.width as int, layout.height as int) <= layout.buffer_size,
        layout.padded_bytes_per_row % COPY_BYTES_PER_ROW_ALIGNMENT == 0,
{
    let w = layout.width as int;
    let h = layout.height as int;
    lemma_aligned_is_least_multiple(row_bytes(w), COPY_BYTES_PER_ROW_ALIGNMENT as int);
    let padded = padded_row_bytes(w);
    assert(padded * (h - 1) + padded == padded * h) by (nonlinear_arith);
    assert(0 <= padded * h) by (nonlinear_arith)
        requires
            0 <= padded,
            0 <= h,
    ;
}

} // verus!
