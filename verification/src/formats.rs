//! Which image files may be handed to the decoders.
//!
//! On some files the decoders of the `image` crate panic instead of reporting an
//! error. The headers of a file tell whether it can be one of them.

use vstd::prelude::*;

verus! {

/// The number in the two bytes at `i`, the more significant byte first.
pub open spec fn be16(data: Seq<u8>, i: int) -> int {
    data[i] * 256 + data[i + 1]
}

/// The number in the four bytes at `i`, the most significant byte first.
pub open spec fn be32(data: Seq<u8>, i: int) -> int {
    be16(data, i) * 65536 + be16(data, i + 2)
}

/// `PLTE`, the palette.
pub const PLTE: u32 = 0x504c_5445;

/// `acTL`, the number of frames of an animation.
pub const ACTL: u32 = 0x6163_544c;

/// `fcTL`, a frame of an animation.
pub const FCTL: u32 = 0x6663_544c;

/// `IDAT`, image data.
pub const IDAT: u32 = 0x4944_4154;

/// `fdAT`, image data of an animation.
pub const FDAT: u32 = 0x6664_4154;

/// `IEND`, the end of the file.
pub const IEND: u32 = 0x4945_4e44;

/// So many pixels take up 2 GiB in four bytes each, and 512 MiB in one.
pub const PIXEL_LIMIT: u64 = 0x2000_0000;

/// The longest side of a JPEG for which the position behind its last block fits
/// in 16 bits.
pub const SCAN_SIDE_LIMIT: u64 = 65528;

/// Where addresses have 32 bits, so many pixels fit in memory in four bytes each.
pub open spec fn memory_holds(pixels: int) -> bool {
    usize::MAX > u32::MAX || pixels < PIXEL_LIMIT
}

/// `data` starts as a PNG does.
pub open spec fn is_png(data: Seq<u8>) -> bool {
    data.len() >= 8 && be32(data, 0) == 0x8950_4e47 && be32(data, 4) == 0x0d0a_1a0a
}

/// `data` starts as a JPEG does.
pub open spec fn is_jpeg(data: Seq<u8>) -> bool {
    data.len() >= 3 && data[0] == 0xff && data[1] == 0xd8 && data[2] == 0xff
}

/// The palette of an indexed image consists of at most 256 entries of three
/// bytes each.
pub open spec fn palette_supported(data: Seq<u8>, length: int) -> bool {
    data.len() > 25 && data[25] == 3 ==> length % 3 == 0 && length <= 768
}

/// From the chunk at `pos` to the image data, palettes are supported, and the
/// frames of an animation can be counted. Before `pos`, `frames` of them were
/// announced, and `framed` tells whether one was described: where none is, the
/// image counts as one more.
pub open spec fn chunks_supported(data: Seq<u8>, pos: int, frames: int, framed: bool) -> bool
    decreases data.len() - pos,
{
    if pos < 0 || pos + 8 > data.len() {
        true
    } else {
        let length = be32(data, pos);
        let kind = be32(data, pos + 4);
        if kind == IDAT {
            framed || frames + 1 <= usize::MAX
        } else if kind == FDAT || kind == IEND || length < 0 || length > data.len() - pos - 12 {
            true
        } else {
            &&& kind == PLTE ==> palette_supported(data, length)
            &&& chunks_supported(
                data,
                pos + 12 + length,
                if kind == ACTL && length >= 8 {
                    be32(data, pos + 8)
                } else {
                    frames
                },
                framed || (kind == FCTL && length > 0),
            )
        }
    }
}

/// What a PNG must be like: it fits in memory, and its chunks are supported.
pub open spec fn png_supported(data: Seq<u8>) -> bool {
    &&& data.len() >= 24 ==> memory_holds(be32(data, 16) * be32(data, 20))
    &&& chunks_supported(data, 8, 0, false)
}

/// A marker stands at `pos`: 0xff, and a byte that is neither 0 nor 0xff.
pub open spec fn marker_at(data: Seq<u8>, pos: int) -> bool {
    data[pos] == 0xff && data[pos + 1] != 0 && data[pos + 1] != 0xff
}

/// The markers of frame headers.
pub open spec fn starts_frame(marker: u8) -> bool {
    0xc0 <= marker <= 0xcf && marker != 0xc4 && marker != 0xc8 && marker != 0xcc
}

/// The markers of tables, comments and application data, which have a length.
pub open spec fn starts_table(marker: u8) -> bool {
    marker == 0xc4 || marker == 0xdb || marker == 0xdd || 0xe0 <= marker <= 0xef || marker == 0xfe
}

/// The segment whose marker stands at `pos` ends within `data`.
pub open spec fn segment_complete(data: Seq<u8>, pos: int) -> bool {
    pos + 4 <= data.len() && 2 <= be16(data, pos + 2) <= data.len() - pos - 2
}

/// Where the segment whose marker stands at `pos` ends.
pub open spec fn segment_end(data: Seq<u8>, pos: int) -> int {
    pos + 2 + be16(data, pos + 2)
}

/// Where, from `pos` on, the first frame header has its marker, if there are
/// only tables, comments and application data before it. Bytes between segments
/// are passed over.
pub open spec fn frame_from(data: Seq<u8>, pos: int) -> Option<int>
    decreases data.len() - pos,
{
    if pos < 0 || pos + 2 > data.len() {
        None
    } else if !marker_at(data, pos) {
        frame_from(data, pos + 1)
    } else if starts_frame(data[pos + 1]) {
        Some(pos)
    } else if starts_table(data[pos + 1]) && segment_complete(data, pos) {
        frame_from(data, segment_end(data, pos))
    } else {
        None
    }
}

/// From `pos` to the end of the image, one of the scans is of a single
/// component. The data of a scan has no markers but those of restarts (0xd0 to
/// 0xd7).
pub open spec fn single_scan_from(data: Seq<u8>, pos: int) -> bool
    decreases data.len() - pos,
{
    if pos < 0 || pos + 2 > data.len() {
        false
    } else if !marker_at(data, pos) || 0xd0 <= data[pos + 1] <= 0xd7 {
        single_scan_from(data, pos + 1)
    } else if data[pos + 1] == 0xda && segment_complete(data, pos) {
        (be16(data, pos + 2) > 2 && data[pos + 4] == 1) || single_scan_from(data, segment_end(data, pos))
    } else if starts_table(data[pos + 1]) && segment_complete(data, pos) {
        single_scan_from(data, segment_end(data, pos))
    } else {
        false
    }
}

/// The segment with its marker at `pos` is the header of a sequential,
/// progressive or lossless frame, with the length that its number of components
/// asks for.
pub open spec fn is_frame(data: Seq<u8>, pos: int) -> bool {
    &&& pos + 10 <= data.len()
    &&& 0xc0 <= data[pos + 1] <= 0xc3
    &&& be16(data, pos + 2) == 8 + 3 * data[pos + 9]
}

/// The frame is coded without loss.
pub open spec fn is_lossless(data: Seq<u8>, pos: int) -> bool {
    data[pos + 1] == 0xc3
}

/// The height in the frame header at `pos`.
pub open spec fn frame_height(data: Seq<u8>, pos: int) -> int {
    be16(data, pos + 5)
}

/// The width in the frame header at `pos`.
pub open spec fn frame_width(data: Seq<u8>, pos: int) -> int {
    be16(data, pos + 7)
}

/// The samples of the frame have as many bytes as the decoder announces: only
/// lossless frames have samples of other than 8 bits, and of those only the
/// ones of more than 8 bits in a single component are announced with two bytes.
pub open spec fn samples_supported(data: Seq<u8>, pos: int) -> bool {
    is_lossless(data, pos) ==> data[pos + 4] == 8 || (data[pos + 4] > 8 && data[pos + 9] == 1)
}

/// How many blocks of component `k` lie side by side in a unit of the frame
/// whose header is at `pos`.
pub open spec fn blocks_across(data: Seq<u8>, pos: int, k: int) -> int {
    data[pos + 11 + 3 * k] as int / 16
}

/// A component has three blocks side by side. Its rows are then filled up to a
/// number of blocks that three divides.
pub open spec fn has_triple(data: Seq<u8>, pos: int) -> bool {
    exists|k: int| 0 <= k < data[pos + 9] && #[trigger] blocks_across(data, pos, k) == 3
}

/// The positions that the decoder computes of the blocks fit in 16 bits. Where a
/// scan is of a single component, it computes one behind the last row, and one
/// behind the last column if that is followed by a block that fills up the row.
pub open spec fn sides_supported(data: Seq<u8>, pos: int) -> bool {
    ||| is_lossless(data, pos)
    ||| !single_scan_from(data, segment_end(data, pos))
    ||| {
        &&& frame_height(data, pos) <= SCAN_SIDE_LIMIT
        &&& frame_width(data, pos) <= SCAN_SIDE_LIMIT || !has_triple(data, pos)
    }
}

/// The decoder can work on the frame whose header is at `pos`.
pub open spec fn frame_supported(data: Seq<u8>, pos: int) -> bool {
    &&& samples_supported(data, pos)
    &&& sides_supported(data, pos)
    &&& memory_holds(frame_height(data, pos) * frame_width(data, pos))
}

/// What a JPEG must be like: its frame, if it has one, is supported.
pub open spec fn jpeg_supported(data: Seq<u8>) -> bool {
    frame_from(data, 2) matches Some(pos) ==> (is_frame(data, pos) ==> frame_supported(data, pos))
}

/// Where this holds, no decoder panics on `data`.
pub open spec fn decodable(data: Seq<u8>) -> bool {
    &&& is_png(data) ==> png_supported(data)
    &&& is_jpeg(data) ==> jpeg_supported(data)
}

/// The JPEG decoder may start threads for `data`: it does so for lossy frames
/// that are more than 128 pixels wide.
pub open spec fn asks_for_threads(data: Seq<u8>) -> bool {
    &&& is_jpeg(data)
    &&& frame_from(data, 2) matches Some(pos)
    &&& is_frame(data, pos)
    &&& !is_lossless(data, pos)
    &&& frame_width(data, pos) > 128
}

fn read16(data: &[u8], i: usize) -> (r: u64)
    requires
        i + 2 <= data@.len(),
    ensures
        r == be16(data@, i as int),
        r <= 0xffff,
{
    data[i] as u64 * 256 + data[i + 1] as u64
}

fn read32(data: &[u8], i: usize) -> (r: u64)
    requires
        i + 4 <= data@.len(),
    ensures
        r == be32(data@, i as int),
        r <= 0xffff_ffff,
{
    assert(data.len() == data@.len());
    read16(data, i) * 65536 + read16(data, i + 2)
}

fn does_memory_hold(pixels: u64) -> (r: bool)
    ensures
        r == memory_holds(pixels as int),
{
    usize::MAX as u64 > u32::MAX as u64 || pixels < PIXEL_LIMIT
}

fn are_chunks_supported(data: &[u8]) -> (r: bool)
    requires
        data@.len() >= 8,
    ensures
        r == chunks_supported(data@, 8, 0, false),
{
    let mut pos: usize = 8;
    let mut frames: u64 = 0;
    let mut framed: bool = false;
    while data.len() - pos >= 8
        invariant
            8 <= pos <= data@.len(),
            frames <= 0xffff_ffff,
            chunks_supported(data@, 8, 0, false) == chunks_supported(data@, pos as int, frames as int, framed),
        decreases data@.len() - pos,
    {
        let length: u64 = read32(data, pos);
        let kind: u64 = read32(data, pos + 4);
        if kind == IDAT as u64 {
            return framed || frames + 1 <= usize::MAX as u64;
        }
        if kind == FDAT as u64 || kind == IEND as u64 || data.len() - pos < 12 || length > (data.len() - pos - 12) as u64 {
            return true;
        }
        if kind == PLTE as u64 && data.len() > 25 && data[25] == 3 && (length % 3 != 0 || length > 768) {
            return false;
        }
        if kind == ACTL as u64 && length >= 8 {
            frames = read32(data, pos + 8);
        }
        framed = framed || (kind == FCTL as u64 && length > 0);
        pos = pos + 12 + length as usize;
    }
    true
}

fn is_png_supported(data: &[u8]) -> (r: bool)
    requires
        data@.len() >= 8,
    ensures
        r == png_supported(data@),
{
    if data.len() >= 24 {
        let width: u64 = read32(data, 16);
        let height: u64 = read32(data, 20);
        assert(width * height <= 0xffff_ffff * 0xffff_ffff) by (nonlinear_arith)
            requires
                0 <= width <= 0xffff_ffff,
                0 <= height <= 0xffff_ffff,
        ;
        if !does_memory_hold(width * height) {
            return false;
        }
    }
    are_chunks_supported(data)
}

fn is_marker_at(data: &[u8], pos: usize) -> (r: bool)
    requires
        pos + 2 <= data@.len(),
    ensures
        r == marker_at(data@, pos as int),
{
    data[pos] == 0xff && data[pos + 1] != 0 && data[pos + 1] != 0xff
}

fn is_table(marker: u8) -> (r: bool)
    ensures
        r == starts_table(marker),
{
    marker == 0xc4 || marker == 0xdb || marker == 0xdd || (0xe0 <= marker && marker <= 0xef) || marker == 0xfe
}

/// Where the segment whose marker stands at `pos` ends, if that is within `data`.
fn end_of_segment(data: &[u8], pos: usize) -> (r: Option<usize>)
    requires
        pos + 2 <= data@.len(),
    ensures
        r is Some <==> segment_complete(data@, pos as int),
        r matches Some(end) ==> end == segment_end(data@, pos as int) && pos + 4 <= end <= data@.len(),
{
    let rest: usize = data.len() - pos - 2;
    if rest < 2 {
        return None;
    }
    let length: usize = read16(data, pos + 2) as usize;
    if length < 2 || length > rest {
        return None;
    }
    Some(pos + 2 + length)
}

fn find_frame(data: &[u8]) -> (r: Option<usize>)
    requires
        data@.len() >= 2,
    ensures
        r is Some <==> frame_from(data@, 2) is Some,
        r matches Some(pos) ==> frame_from(data@, 2) == Some(pos as int) && pos + 2 <= data@.len()
            && starts_frame(data@[pos + 1]),
{
    let mut pos: usize = 2;
    while data.len() - pos >= 2
        invariant
            2 <= pos <= data@.len(),
            frame_from(data@, 2) == frame_from(data@, pos as int),
        decreases data@.len() - pos,
    {
        if !is_marker_at(data, pos) {
            pos = pos + 1;
        } else {
            let marker: u8 = data[pos + 1];
            if 0xc0 <= marker && marker <= 0xcf && marker != 0xc4 && marker != 0xc8 && marker != 0xcc {
                return Some(pos);
            }
            if !is_table(marker) {
                return None;
            }
            match end_of_segment(data, pos) {
                Some(end) => {
                    pos = end;
                },
                None => {
                    return None;
                },
            }
        }
    }
    None
}

fn has_single_scan(data: &[u8], start: usize) -> (r: bool)
    requires
        start <= data@.len(),
    ensures
        r == single_scan_from(data@, start as int),
{
    let mut pos: usize = start;
    while data.len() - pos >= 2
        invariant
            pos <= data@.len(),
            single_scan_from(data@, start as int) == single_scan_from(data@, pos as int),
        decreases data@.len() - pos,
    {
        if !is_marker_at(data, pos) || (0xd0 <= data[pos + 1] && data[pos + 1] <= 0xd7) {
            pos = pos + 1;
        } else {
            let scan: bool = data[pos + 1] == 0xda;
            if !scan && !is_table(data[pos + 1]) {
                return false;
            }
            match end_of_segment(data, pos) {
                Some(end) => {
                    if scan && end - pos > 4 && data[pos + 4] == 1 {
                        return true;
                    }
                    pos = end;
                },
                None => {
                    return false;
                },
            }
        }
    }
    false
}

fn find_triple(data: &[u8], pos: usize) -> (r: bool)
    requires
        pos + 10 + 3 * data@[pos + 9] <= data@.len(),
    ensures
        r == has_triple(data@, pos as int),
{
    assert(data.len() == data@.len());
    let count: usize = data[pos + 9] as usize;
    let mut k: usize = 0;
    while k < count
        invariant
            k <= count,
            count == data@[pos + 9],
            pos + 10 + 3 * count <= data@.len() <= usize::MAX,
            forall|j: int| 0 <= j < k ==> #[trigger] blocks_across(data@, pos as int, j) != 3,
        decreases count - k,
    {
        let found: bool = data[pos + 11 + 3 * k] / 16 == 3;
        assert(found == (blocks_across(data@, pos as int, k as int) == 3));
        if found {
            return true;
        }
        k = k + 1;
    }
    false
}

fn is_jpeg_supported(data: &[u8]) -> (r: bool)
    requires
        data@.len() >= 3,
    ensures
        r == jpeg_supported(data@),
{
    let pos: usize = match find_frame(data) {
        Some(pos) => pos,
        None => {
            return true;
        },
    };
    if data.len() - pos < 10 || data[pos + 1] > 0xc3 || read16(data, pos + 2) != 8 + 3 * data[pos + 9] as u64 {
        return true;
    }
    let lossless: bool = data[pos + 1] == 0xc3;
    let precision: u8 = data[pos + 4];
    if lossless && precision != 8 && (precision < 8 || data[pos + 9] != 1) {
        return false;
    }
    let height: u64 = read16(data, pos + 5);
    let width: u64 = read16(data, pos + 7);
    if !lossless {
        if let Some(end) = end_of_segment(data, pos) {
            let exceeds: bool = height > SCAN_SIDE_LIMIT || (width > SCAN_SIDE_LIMIT && find_triple(data, pos));
            if exceeds && has_single_scan(data, end) {
                return false;
            }
        }
    }
    assert(height * width <= 0xffff * 0xffff) by (nonlinear_arith)
        requires
            0 <= width <= 0xffff,
            0 <= height <= 0xffff,
    ;
    does_memory_hold(height * width)
}

/// Whether `data` is known to be such that no decoder panics on it.
pub fn is_decodable(data: &[u8]) -> (r: bool)
    ensures
        r == decodable(data@),
{
    if data.len() >= 8 && read32(data, 0) == 0x8950_4e47 && read32(data, 4) == 0x0d0a_1a0a {
        is_png_supported(data)
    } else if data.len() >= 3 && data[0] == 0xff && data[1] == 0xd8 && data[2] == 0xff {
        is_jpeg_supported(data)
    } else {
        true
    }
}

/// Data that starts neither as a PNG nor as a JPEG does is left to the decoders.
pub proof fn lemma_other_data_passes(data: Seq<u8>)
    requires
        data.len() < 8 || data[0] != 0x89 || data[1] != 0x50 || data[2] != 0x4e || data[3] != 0x47 || data[4] != 0x0d
            || data[5] != 0x0a || data[6] != 0x1a || data[7] != 0x0a,
        data.len() < 3 || data[0] != 0xff || data[1] != 0xd8 || data[2] != 0xff,
    ensures
        decodable(data),
        !asks_for_threads(data),
{
}

/// A palette chunk stands at `pos`, and its length is no multiple of three or more
/// than 256 entries take.
pub open spec fn odd_palette_at(data: Seq<u8>, pos: int) -> bool {
    let length = data[pos] * 16777216 + data[pos + 1] * 65536 + data[pos + 2] * 256 + data[pos + 3];
    &&& 8 <= pos && pos + 12 + length <= data.len()
    &&& data[pos + 4] == 0x50 && data[pos + 5] == 0x4c && data[pos + 6] == 0x54 && data[pos + 7] == 0x45
    &&& length % 3 != 0 || length > 768
}

/// A chunk stands at `pos` that announces as many frames as 32 bits can hold.
pub open spec fn most_frames_at(data: Seq<u8>, pos: int) -> bool {
    &&& 8 <= pos && pos + 20 <= data.len()
    &&& data[pos + 4] == 0x61 && data[pos + 5] == 0x63 && data[pos + 6] == 0x54 && data[pos + 7] == 0x4c
    &&& data[pos + 8] == 0xff && data[pos + 9] == 0xff && data[pos + 10] == 0xff && data[pos + 11] == 0xff
}

proof fn lemma_chunk_at_fault(data: Seq<u8>, pos: int, frames: int, framed: bool)
    requires
        8 <= pos,
        0 <= frames <= 0xffff_ffff,
        !chunks_supported(data, pos, frames, framed),
    ensures
        ({
            ||| usize::MAX <= u32::MAX && (frames == 0xffff_ffff || exists|p: int| #[trigger] most_frames_at(data, p))
            ||| data.len() > 25 && data[25] == 3 && exists|p: int| #[trigger] odd_palette_at(data, p)
        }),
    decreases data.len() - pos,
{
    let length = be32(data, pos);
    let kind = be32(data, pos + 4);
    if kind != IDAT {
        if kind == PLTE && !palette_supported(data, length) {
            assert(odd_palette_at(data, pos));
        } else {
            let now = if kind == ACTL && length >= 8 {
                be32(data, pos + 8)
            } else {
                frames
            };
            lemma_chunk_at_fault(data, pos + 12 + length, now, framed || (kind == FCTL && length > 0));
            if now == 0xffff_ffff && frames != 0xffff_ffff {
                assert(most_frames_at(data, pos));
            }
        }
    }
}

/// A PNG is refused for two reasons only: it is indexed and has a palette of an
/// odd length, or addresses have 32 bits and it has too many pixels or frames.
pub proof fn lemma_png_is_refused_for_a_reason(data: Seq<u8>)
    requires
        data.len() >= 1,
        data[0] == 0x89,
        !decodable(data),
    ensures
        ({
            ||| data.len() > 25 && data[25] == 3 && exists|p: int| #[trigger] odd_palette_at(data, p)
            ||| usize::MAX <= u32::MAX && exists|p: int| #[trigger] most_frames_at(data, p)
            ||| usize::MAX <= u32::MAX && be32(data, 16) * be32(data, 20) >= 0x2000_0000
        }),
{
    if !chunks_supported(data, 8, 0, false) {
        lemma_chunk_at_fault(data, 8, 0, false);
    }
}

/// Where addresses have 32 bits, a PNG with too many pixels is refused.
pub proof fn lemma_large_png_is_refused(data: Seq<u8>)
    requires
        usize::MAX <= u32::MAX,
        is_png(data),
        data.len() >= 24,
        (data[16] * 16777216 + data[17] * 65536 + data[18] * 256 + data[19]) * (data[20] * 16777216 + data[21] * 65536
            + data[22] * 256 + data[23]) >= 0x2000_0000,
    ensures
        !decodable(data),
{
    assert(be32(data, 16) == data[16] * 16777216 + data[17] * 65536 + data[18] * 256 + data[19]);
    assert(be32(data, 20) == data[20] * 16777216 + data[21] * 65536 + data[22] * 256 + data[23]);
}

/// From one chunk to the next: it is neither image data nor the end, and is
/// complete.
pub open spec fn next_chunk(data: Seq<u8>, a: int, b: int) -> bool {
    let kind = seq![data[a + 4], data[a + 5], data[a + 6], data[a + 7]];
    &&& a + 12 <= b <= data.len()
    &&& b == a + 12 + data[a] * 16777216 + data[a + 1] * 65536 + data[a + 2] * 256 + data[a + 3]
    &&& kind != seq![0x49u8, 0x44, 0x41, 0x54]
    &&& kind != seq![0x66u8, 0x64, 0x41, 0x54]
    &&& kind != seq![0x49u8, 0x45, 0x4e, 0x44]
}

proof fn lemma_chunk_kind(data: Seq<u8>, a: int, b: int)
    requires
        0 <= a,
        next_chunk(data, a, b),
    ensures
        be32(data, a + 4) != IDAT,
        be32(data, a + 4) != FDAT,
        be32(data, a + 4) != IEND,
        b == a + 12 + be32(data, a),
{
    let kind = seq![data[a + 4], data[a + 5], data[a + 6], data[a + 7]];
    if be32(data, a + 4) == IDAT {
        assert(kind =~= seq![0x49u8, 0x44, 0x41, 0x54]);
    }
    if be32(data, a + 4) == FDAT {
        assert(kind =~= seq![0x66u8, 0x64, 0x41, 0x54]);
    }
    if be32(data, a + 4) == IEND {
        assert(kind =~= seq![0x49u8, 0x45, 0x4e, 0x44]);
    }
}

/// An indexed PNG with a palette of an odd length is refused, wherever before the
/// image data the palette stands: `path` goes to it chunk by chunk.
pub proof fn lemma_odd_palette_is_refused(data: Seq<u8>, path: Seq<int>)
    requires
        is_png(data),
        data.len() > 25,
        data[25] == 3,
        path.len() > 0,
        path[0] == 8,
        forall|i: int| 0 <= i < path.len() - 1 ==> #[trigger] next_chunk(data, path[i], path[i + 1]),
        odd_palette_at(data, path.last()),
    ensures
        !decodable(data),
{
    lemma_odd_palette_along(data, path, 0, 0, false);
}

proof fn lemma_odd_palette_along(data: Seq<u8>, path: Seq<int>, i: int, frames: int, framed: bool)
    requires
        data.len() > 25,
        data[25] == 3,
        0 <= i < path.len(),
        8 <= path[i],
        forall|j: int| 0 <= j < path.len() - 1 ==> #[trigger] next_chunk(data, path[j], path[j + 1]),
        odd_palette_at(data, path.last()),
    ensures
        !chunks_supported(data, path[i], frames, framed),
    decreases path.len() - i,
{
    let pos = path[i];
    if i < path.len() - 1 {
        assert(next_chunk(data, path[i], path[i + 1]));
        lemma_chunk_kind(data, pos, path[i + 1]);
        let length = be32(data, pos);
        let kind = be32(data, pos + 4);
        let now = if kind == ACTL && length >= 8 {
            be32(data, pos + 8)
        } else {
            frames
        };
        lemma_odd_palette_along(data, path, i + 1, now, framed || (kind == FCTL && length > 0));
    }
}

/// A scan of a single component starts at `pos`.
pub open spec fn single_scan_at(data: Seq<u8>, pos: int) -> bool {
    pos + 5 <= data.len() && data[pos] == 0xff && data[pos + 1] == 0xda && data[pos + 4] == 1
}

/// The chunk at `pos` is of the kind `a`, `b`, `c`, `d`.
pub open spec fn kind_at(data: Seq<u8>, pos: int, a: u8, b: u8, c: u8, d: u8) -> bool {
    data[pos + 4] == a && data[pos + 5] == b && data[pos + 6] == c && data[pos + 7] == d
}

proof fn lemma_most_frames_along(data: Seq<u8>, path: Seq<int>, at: int, i: int, frames: int)
    requires
        usize::MAX <= u32::MAX,
        0 <= i < path.len(),
        8 <= path[i],
        forall|j: int| 0 <= j < path.len() - 1 ==> #[trigger] next_chunk(data, path[j], path[j + 1]),
        path.last() + 8 <= data.len(),
        kind_at(data, path.last(), 0x49, 0x44, 0x41, 0x54),
        0 <= at < path.len() - 1,
        path[at + 1] >= path[at] + 20,
        most_frames_at(data, path[at]),
        forall|j: int| at < j < path.len() - 1 ==> !kind_at(data, #[trigger] path[j], 0x61, 0x63, 0x54, 0x4c),
        forall|j: int| 0 <= j < path.len() - 1 ==> !kind_at(data, #[trigger] path[j], 0x66, 0x63, 0x54, 0x4c),
        i > at ==> frames == 0xffff_ffff,
    ensures
        !chunks_supported(data, path[i], frames, false),
    decreases path.len() - i,
{
    let pos = path[i];
    if i < path.len() - 1 {
        assert(next_chunk(data, path[i], path[i + 1]));
        lemma_chunk_kind(data, pos, path[i + 1]);
        assert(!kind_at(data, path[i], 0x66, 0x63, 0x54, 0x4c));
        let length = be32(data, pos);
        let kind = be32(data, pos + 4);
        let now = if kind == ACTL && length >= 8 {
            be32(data, pos + 8)
        } else {
            frames
        };
        if i > at {
            assert(!kind_at(data, path[i], 0x61, 0x63, 0x54, 0x4c));
        }
        lemma_most_frames_along(data, path, at, i + 1, now);
    }
}

/// Where addresses have 32 bits, a PNG that announces as many frames as 32 bits can
/// hold, and describes none of them before the image data, is refused: `path` goes
/// to the image data chunk by chunk, and the last announcement is at `path[at]`.
pub proof fn lemma_most_frames_are_refused(data: Seq<u8>, path: Seq<int>, at: int)
    requires
        usize::MAX <= u32::MAX,
        is_png(data),
        path.len() > 0,
        path[0] == 8,
        forall|j: int| 0 <= j < path.len() - 1 ==> #[trigger] next_chunk(data, path[j], path[j + 1]),
        path.last() + 8 <= data.len(),
        kind_at(data, path.last(), 0x49, 0x44, 0x41, 0x54),
        0 <= at < path.len() - 1,
        path[at + 1] >= path[at] + 20,
        most_frames_at(data, path[at]),
        forall|j: int| at < j < path.len() - 1 ==> !kind_at(data, #[trigger] path[j], 0x61, 0x63, 0x54, 0x4c),
        forall|j: int| 0 <= j < path.len() - 1 ==> !kind_at(data, #[trigger] path[j], 0x66, 0x63, 0x54, 0x4c),
    ensures
        !decodable(data),
{
    lemma_most_frames_along(data, path, at, 0, 0);
}

/// A frame header stands at `pos` on which the decoder can panic: the samples are
/// lossless and of an odd size; a side exceeds what 16 bits can count in blocks,
/// a width only if a component has three blocks side by side, and a scan of a
/// single component follows; or, where addresses have 32 bits, there are too many
/// pixels.
pub open spec fn odd_frame_at(data: Seq<u8>, pos: int) -> bool {
    let height = data[pos + 5] * 256 + data[pos + 6];
    let width = data[pos + 7] * 256 + data[pos + 8];
    &&& 2 <= pos && pos + 10 <= data.len()
    &&& data[pos] == 0xff && 0xc0 <= data[pos + 1] <= 0xc3
    &&& {
        ||| data[pos + 1] == 0xc3 && data[pos + 4] < 8
        ||| data[pos + 1] == 0xc3 && data[pos + 4] > 8 && data[pos + 9] != 1
        ||| {
            &&& data[pos + 1] != 0xc3
            &&& height > 65528 || (width > 65528 && exists|k: int|
                0 <= k < data[pos + 9] && #[trigger] blocks_across(data, pos, k) == 3)
            &&& exists|scan: int| scan >= pos + 10 && #[trigger] single_scan_at(data, scan)
        }
        ||| usize::MAX <= u32::MAX && height * width >= 0x2000_0000
    }
}

proof fn lemma_found_frame_is_marked(data: Seq<u8>, pos: int)
    requires
        2 <= pos,
    ensures
        frame_from(data, pos) matches Some(p) ==> pos <= p && p + 2 <= data.len() && data[p] == 0xff,
    decreases data.len() - pos,
{
    if pos + 2 <= data.len() {
        if !marker_at(data, pos) {
            lemma_found_frame_is_marked(data, pos + 1);
        } else if !starts_frame(data[pos + 1]) && starts_table(data[pos + 1]) && segment_complete(data, pos) {
            lemma_found_frame_is_marked(data, segment_end(data, pos));
        }
    }
}

proof fn lemma_found_scan_is_there(data: Seq<u8>, pos: int)
    requires
        0 <= pos,
        single_scan_from(data, pos),
    ensures
        exists|scan: int| scan >= pos && #[trigger] single_scan_at(data, scan),
    decreases data.len() - pos,
{
    if !marker_at(data, pos) || 0xd0 <= data[pos + 1] <= 0xd7 {
        lemma_found_scan_is_there(data, pos + 1);
    } else if data[pos + 1] == 0xda && be16(data, pos + 2) > 2 && data[pos + 4] == 1 {
        assert(single_scan_at(data, pos));
    } else {
        lemma_found_scan_is_there(data, segment_end(data, pos));
    }
}

/// A JPEG is refused only for a frame header on which the decoder can panic, and
/// asks for threads only if it has a lossy frame that is wider than 128 pixels.
pub proof fn lemma_jpeg_is_refused_for_a_reason(data: Seq<u8>)
    requires
        data.len() >= 1,
        data[0] == 0xff,
    ensures
        !decodable(data) ==> exists|p: int| #[trigger] odd_frame_at(data, p),
        asks_for_threads(data) ==> exists|p: int|
            2 <= p && p + 10 <= data.len() && #[trigger] data[p] == 0xff && 0xc0 <= data[p + 1] <= 0xc2 && data[p + 7] * 256
                + data[p + 8] > 128,
{
    lemma_found_frame_is_marked(data, 2);
    if let Some(p) = frame_from(data, 2) {
        if !decodable(data) {
            if single_scan_from(data, segment_end(data, p)) {
                lemma_found_scan_is_there(data, segment_end(data, p));
            }
            assert(odd_frame_at(data, p));
        }
        if asks_for_threads(data) {
            assert(data[p] == 0xff);
        }
    }
}

/// From one place to the next on the way to the frame header: past a byte that
/// starts no marker, or past a segment of tables, comments or application data.
pub open spec fn next_segment(data: Seq<u8>, a: int, b: int) -> bool {
    let marker = data[a + 1];
    let length = data[a + 2] * 256 + data[a + 3];
    &&& a + 2 <= data.len()
    &&& {
        ||| b == a + 1 && (data[a] != 0xff || marker == 0 || marker == 0xff)
        ||| {
            &&& data[a] == 0xff && b == a + 2 + length && length >= 2 && b <= data.len()
            &&& marker == 0xc4 || marker == 0xdb || marker == 0xdd || marker == 0xfe || 0xe0 <= marker <= 0xef
        }
    }
}

proof fn lemma_frame_along(data: Seq<u8>, path: Seq<int>, i: int)
    requires
        0 <= i < path.len(),
        2 <= path[i],
        forall|j: int| 0 <= j < path.len() - 1 ==> #[trigger] next_segment(data, path[j], path[j + 1]),
        path.last() + 2 <= data.len(),
        data[path.last()] == 0xff,
        0xc0 <= data[path.last() + 1] <= 0xc3,
    ensures
        2 <= path.last(),
        frame_from(data, path[i]) == Some(path.last()),
    decreases path.len() - i,
{
    if i < path.len() - 1 {
        assert(next_segment(data, path[i], path[i + 1]));
        lemma_frame_along(data, path, i + 1);
    }
}

/// The frame of a JPEG is the first that is reached segment by segment: `path`
/// goes to it. If its samples are lossless and of an odd size, the file is
/// refused; if it is wider than 128 pixels and lossy, it asks for threads.
pub proof fn lemma_first_frame_decides(data: Seq<u8>, path: Seq<int>)
    requires
        is_jpeg(data),
        path.len() > 0,
        path[0] == 2,
        forall|i: int| 0 <= i < path.len() - 1 ==> #[trigger] next_segment(data, path[i], path[i + 1]),
        path.last() + 10 <= data.len(),
        data[path.last()] == 0xff,
        0xc0 <= data[path.last() + 1] <= 0xc3,
        data[path.last() + 2] * 256 + data[path.last() + 3] == 8 + 3 * data[path.last() + 9],
    ensures
        data[path.last() + 1] == 0xc3 && data[path.last() + 4] < 8 ==> !decodable(data),
        data[path.last() + 1] == 0xc3 && data[path.last() + 4] > 8 && data[path.last() + 9] != 1 ==> !decodable(data),
        usize::MAX <= u32::MAX && (data[path.last() + 5] * 256 + data[path.last() + 6]) * (data[path.last() + 7] * 256
            + data[path.last() + 8]) >= 0x2000_0000 ==> !decodable(data),
        asks_for_threads(data) <==> data[path.last() + 1] != 0xc3 && data[path.last() + 7] * 256 + data[path.last() + 8]
            > 128,
{
    lemma_frame_along(data, path, 0);
}

/// From one place to the next on the way to a scan of a single component: as on
/// the way to the frame header, past a restart, or past the header of a scan of
/// more components.
pub open spec fn next_in_image(data: Seq<u8>, a: int, b: int) -> bool {
    let marker = data[a + 1];
    let length = data[a + 2] * 256 + data[a + 3];
    ||| next_segment(data, a, b)
    ||| a + 2 <= data.len() && b == a + 1 && data[a] == 0xff && 0xd0 <= marker <= 0xd7
    ||| data[a] == 0xff && marker == 0xda && data[a + 4] != 1 && length > 2 && b == a + 2 + length && b <= data.len()
}

proof fn lemma_single_scan_along(data: Seq<u8>, path: Seq<int>, i: int)
    requires
        0 <= i < path.len(),
        2 <= path[i],
        forall|j: int| 0 <= j < path.len() - 1 ==> #[trigger] next_in_image(data, path[j], path[j + 1]),
        path.last() + 5 <= data.len(),
        data[path.last()] == 0xff,
        data[path.last() + 1] == 0xda,
        data[path.last() + 4] == 1,
        3 <= data[path.last() + 2] * 256 + data[path.last() + 3] <= data.len() - path.last() - 2,
    ensures
        single_scan_from(data, path[i]),
    decreases path.len() - i,
{
    if i < path.len() - 1 {
        assert(next_in_image(data, path[i], path[i + 1]));
        lemma_single_scan_along(data, path, i + 1);
    }
}

/// A lossy JPEG that is higher than 65528, or wider with three blocks of component
/// `k` side by side, is refused if one of its scans is of a single component:
/// `path` goes to the frame header, and `scans` from its end to the scan.
pub proof fn lemma_large_single_scan_is_refused(data: Seq<u8>, path: Seq<int>, scans: Seq<int>, k: int)
    requires
        is_jpeg(data),
        path.len() > 0,
        path[0] == 2,
        forall|i: int| 0 <= i < path.len() - 1 ==> #[trigger] next_segment(data, path[i], path[i + 1]),
        path.last() + 10 <= data.len(),
        data[path.last()] == 0xff,
        0xc0 <= data[path.last() + 1] <= 0xc2,
        data[path.last() + 2] * 256 + data[path.last() + 3] == 8 + 3 * data[path.last() + 9],
        data[path.last() + 5] * 256 + data[path.last() + 6] > 65528 || (data[path.last() + 7] * 256 + data[path.last()
            + 8] > 65528 && 0 <= k < data[path.last() + 9] && data[path.last() + 11 + 3 * k] / 16 == 3),
        scans.len() > 0,
        scans[0] == path.last() + 10 + 3 * data[path.last() + 9],
        forall|i: int| 0 <= i < scans.len() - 1 ==> #[trigger] next_in_image(data, scans[i], scans[i + 1]),
        scans.last() + 5 <= data.len(),
        data[scans.last()] == 0xff,
        data[scans.last() + 1] == 0xda,
        data[scans.last() + 4] == 1,
        3 <= data[scans.last() + 2] * 256 + data[scans.last() + 3] <= data.len() - scans.last() - 2,
    ensures
        !decodable(data),
{
    lemma_frame_along(data, path, 0);
    lemma_single_scan_along(data, scans, 0);
    assert(blocks_across(data, path.last(), k) == data[path.last() + 11 + 3 * k] / 16);
}

} // verus!
