//! Which files can be handed to the decoders of the `image` crate without a panic.
//!
//! The decoders are made for files that are what they claim to be. On others some of them overflow
//! or reach outside of a table. Which files these are exactly takes pages to say, so more is left
//! out than need be; ordinary pictures stay in.
use vstd::prelude::*;

verus! {

/// Two bytes as a number, the higher one first.
pub open spec fn number16(bytes: Seq<u8>, i: int) -> int {
    0x100 * bytes[i] + bytes[i + 1]
}

/// Four bytes as a number, the highest one first.
pub open spec fn number32(bytes: Seq<u8>, i: int) -> int {
    0x100_0000 * bytes[i] + 0x1_0000 * bytes[i + 1] + 0x100 * bytes[i + 2] + bytes[i + 3]
}

/// Whether the bytes begin like a file of a format that is left out as a whole, because nothing
/// short can be said of when its decoder returns: WebP ("RIFF"), TIFF ("II*" and a zero, or "MM", a
/// zero and "*") and OpenEXR.
pub open spec fn is_left_out(bytes: Seq<u8>) -> bool {
    bytes.len() >= 4 && {
        ||| bytes[0] == 0x52 && bytes[1] == 0x49 && bytes[2] == 0x46 && bytes[3] == 0x46
        ||| bytes[0] == 0x49 && bytes[1] == 0x49 && bytes[2] == 0x2A && bytes[3] == 0
        ||| bytes[0] == 0x4D && bytes[1] == 0x4D && bytes[2] == 0 && bytes[3] == 0x2A
        ||| bytes[0] == 0x76 && bytes[1] == 0x2F && bytes[2] == 0x31 && bytes[3] == 0x01
    }
}

/// Whether the bytes begin like a Radiance file: with "#?RADIANCE".
pub open spec fn is_radiance(bytes: Seq<u8>) -> bool {
    &&& bytes.len() >= 10
    &&& bytes[0] == 0x23 && bytes[1] == 0x3F
    &&& bytes[2] == 0x52 && bytes[3] == 0x41 && bytes[4] == 0x44 && bytes[5] == 0x49
    &&& bytes[6] == 0x41 && bytes[7] == 0x4E && bytes[8] == 0x43 && bytes[9] == 0x45
}

/// Whether a run of pixels is marked at a place of a Radiance file: three bytes of 1, then a count.
pub open spec fn marks_run(bytes: Seq<u8>, i: int) -> bool {
    bytes[i] == 1 && bytes[i + 1] == 1 && bytes[i + 2] == 1
}

/// Whether four runs in a row are marked from a place on. Each multiplies the length of the next
/// by 256, until that overflows.
pub open spec fn marks_long_run(bytes: Seq<u8>, i: int) -> bool {
    &&& 0 <= i && i + 16 <= bytes.len()
    &&& marks_run(bytes, i) && marks_run(bytes, i + 4)
    &&& marks_run(bytes, i + 8) && marks_run(bytes, i + 12)
}

/// Whether a PNG palette chunk begins at a place ("PLTE" behind its length) whose length is not a
/// whole number of colours: the last colour would then be read behind the end of the palette. An
/// icon file can hold a PNG, so the place is anywhere.
pub open spec fn has_torn_palette(bytes: Seq<u8>, i: int) -> bool {
    &&& 0 <= i && i + 8 <= bytes.len()
    &&& bytes[i + 4] == 0x50 && bytes[i + 5] == 0x4C && bytes[i + 6] == 0x54 && bytes[i + 7] == 0x45
    &&& number32(bytes, i) % 3 != 0
}

/// Whether the bytes begin like a JPEG file.
pub open spec fn is_jpeg(bytes: Seq<u8>) -> bool {
    bytes.len() >= 3 && bytes[0] == 0xFF && bytes[1] == 0xD8 && bytes[2] == 0xFF
}

/// Whether a JPEG segment with this code can begin at a place.
pub open spec fn is_segment(bytes: Seq<u8>, i: int, code: u8) -> bool {
    0 <= i && i + 2 <= bytes.len() && bytes[i] == 0xFF && bytes[i + 1] == code
}

/// Whether the header of a sequential JPEG frame can begin at a place.
pub open spec fn is_frame(bytes: Seq<u8>, i: int) -> bool {
    is_segment(bytes, i, 0xC0) || is_segment(bytes, i, 0xC1)
}

/// The largest side of a JPEG frame that stays in.
pub const MAX_FRAME_SIDE: u32 = 4096;

/// The most blocks of a JPEG frame that stay in, and the most that its blocks times the first step of
/// a quantization table may come to.
pub const MAX_SCALED_BLOCKS: u32 = 65_536;

/// How many blocks of 8 by 8 samples a colour of a frame has at most: four to each 16 by 16 pixels.
pub open spec fn block_count(bytes: Seq<u8>, i: int) -> int {
    4 * (((number16(bytes, i + 5) + 15) / 16) * ((number16(bytes, i + 7) + 15) / 16))
}

/// Whether a frame is plain: neither long nor large, and grey or in three colours of which the
/// second and the third have one sample to each one, two or four of the first.
pub open spec fn is_plain_frame(bytes: Seq<u8>, i: int) -> bool {
    &&& i + 13 <= bytes.len()
    &&& number16(bytes, i + 5) <= MAX_FRAME_SIDE
    &&& number16(bytes, i + 7) <= MAX_FRAME_SIDE
    &&& block_count(bytes, i) <= MAX_SCALED_BLOCKS
    &&& {
        ||| bytes[i + 9] == 1 && bytes[i + 11] == 0x11
        ||| {
            &&& bytes[i + 9] == 3 && i + 19 <= bytes.len()
            &&& bytes[i + 11] == 0x11 || bytes[i + 11] == 0x12 || bytes[i + 11] == 0x21
                || bytes[i + 11] == 0x22
            &&& bytes[i + 14] == 0x11 && bytes[i + 17] == 0x11
        }
    }
}

/// Whether table `t` of the quantization tables at a place is plain for a frame with this many
/// blocks: one byte to a step, and a small first step. A large one times the sum of the differences
/// from block to block could overflow.
pub open spec fn is_plain_table(bytes: Seq<u8>, i: int, t: int, blocks: int) -> bool {
    &&& i + 5 + 65 * t < bytes.len()
    &&& bytes[i + 4 + 65 * t] < 16
    &&& blocks * bytes[i + 5 + 65 * t] <= MAX_SCALED_BLOCKS
}

/// Whether all quantization tables at a place are plain for a frame with this many blocks.
pub open spec fn are_plain_tables(bytes: Seq<u8>, i: int, blocks: int) -> bool {
    &&& i + 4 <= bytes.len()
    &&& forall|t: int|
        0 <= t && 4 + 65 * t < 2 + number16(bytes, i + 2) ==> #[trigger] is_plain_table(
            bytes,
            i,
            t,
            blocks,
        )
}

/// Whether a JPEG file is plain: one sequential frame in one scan of all its colours, with plain
/// quantization tables, and less than 4 GiB long.
pub open spec fn is_plain_jpeg(bytes: Seq<u8>) -> bool {
    &&& bytes.len() <= 0xFFFF_FFFF
    &&& forall|i: int| !(#[trigger] is_segment(bytes, i, 0xC2))
    &&& forall|i: int| #[trigger] is_frame(bytes, i) ==> is_plain_frame(bytes, i)
    &&& forall|i: int|
        #[trigger] is_segment(bytes, i, 0xDB) ==> are_plain_tables(bytes, i, 0)
    &&& forall|i: int, j: int|
        #[trigger] is_frame(bytes, i) && #[trigger] is_segment(bytes, j, 0xDB) ==> are_plain_tables(
            bytes,
            j,
            block_count(bytes, i),
        )
    &&& forall|i: int, j: int|
        #[trigger] is_frame(bytes, i) && #[trigger] is_frame(bytes, j) ==> i == j
    &&& forall|i: int, j: int|
        #[trigger] is_segment(bytes, i, 0xDA) && #[trigger] is_segment(bytes, j, 0xDA) ==> i == j
    &&& forall|i: int, j: int|
        #[trigger] is_segment(bytes, i, 0xDA) && #[trigger] is_frame(bytes, j) ==> i + 4
            < bytes.len() && j + 9 < bytes.len() && bytes[i + 4] == bytes[j + 9]
}

/// Whether decoding the bytes may panic, as far as can be told in short: a file of a format that is
/// left out, a Radiance file with four run marks in a row, a JPEG file that is not plain, or
/// anything that holds a torn PNG palette.
pub open spec fn may_panic(bytes: Seq<u8>) -> bool {
    ||| is_left_out(bytes)
    ||| is_radiance(bytes) && exists|i: int| #[trigger] marks_long_run(bytes, i)
    ||| is_jpeg(bytes) && !is_plain_jpeg(bytes)
    ||| exists|i: int| #[trigger] has_torn_palette(bytes, i)
}

fn read16(bytes: &[u8], i: usize) -> (number: u32)
    requires
        i + 2 <= bytes@.len(),
    ensures
        number == number16(bytes@, i as int),
{
    0x100 * bytes[i] as u32 + bytes[i + 1] as u32
}

fn holds_long_run(bytes: &[u8]) -> (answer: bool)
    ensures
        answer == exists|i: int| #[trigger] marks_long_run(bytes@, i),
{
    let mut i: usize = 0;
    while bytes.len() >= 16 && i <= bytes.len() - 16
        invariant
            bytes@.len() >= 16 ==> i <= bytes@.len() - 15,
            forall|j: int| 0 <= j < i ==> !(#[trigger] marks_long_run(bytes@, j)),
        decreases bytes@.len() - i,
    {
        if bytes[i] == 1 && bytes[i + 1] == 1 && bytes[i + 2] == 1 && bytes[i + 4] == 1 && bytes[i
            + 5] == 1 && bytes[i + 6] == 1 && bytes[i + 8] == 1 && bytes[i + 9] == 1 && bytes[i
            + 10] == 1 && bytes[i + 12] == 1 && bytes[i + 13] == 1 && bytes[i + 14] == 1 {
            assert(marks_long_run(bytes@, i as int));
            return true;
        }
        i += 1;
    }
    false
}

fn holds_torn_palette(bytes: &[u8]) -> (answer: bool)
    ensures
        answer == exists|i: int| #[trigger] has_torn_palette(bytes@, i),
{
    let mut i: usize = 0;
    while bytes.len() >= 8 && i <= bytes.len() - 8
        invariant
            bytes@.len() >= 8 ==> i <= bytes@.len() - 7,
            forall|j: int| 0 <= j < i ==> !(#[trigger] has_torn_palette(bytes@, j)),
        decreases bytes@.len() - i,
    {
        if bytes[i + 4] == 0x50 && bytes[i + 5] == 0x4C && bytes[i + 6] == 0x54 && bytes[i + 7]
            == 0x45 {
            let length: u64 = 0x100_0000 * bytes[i] as u64 + 0x1_0000 * bytes[i + 1] as u64 + 0x100
                * bytes[i + 2] as u64 + bytes[i + 3] as u64;
            if length % 3 != 0 {
                assert(has_torn_palette(bytes@, i as int));
                return true;
            }
        }
        i += 1;
    }
    false
}

fn count_blocks(bytes: &[u8], i: usize) -> (blocks: u32)
    requires
        i + 13 <= bytes@.len(),
        number16(bytes@, i + 5) <= MAX_FRAME_SIDE,
        number16(bytes@, i + 7) <= MAX_FRAME_SIDE,
    ensures
        blocks == block_count(bytes@, i as int),
{
    let count = bytes.len();
    assert(i + 13 <= count);
    let rows = (read16(bytes, i + 5) + 15) / 16;
    let columns = (read16(bytes, i + 7) + 15) / 16;
    assert(rows * columns <= 257 * 257) by (nonlinear_arith)
        requires
            0 <= rows <= 257,
            0 <= columns <= 257,
    ;
    4 * (rows * columns)
}

fn plain_frame(bytes: &[u8], i: usize) -> (answer: bool)
    requires
        is_frame(bytes@, i as int),
    ensures
        answer == is_plain_frame(bytes@, i as int),
{
    if bytes.len() - i < 13 {
        return false;
    }
    if read16(bytes, i + 5) > MAX_FRAME_SIDE || read16(bytes, i + 7) > MAX_FRAME_SIDE {
        return false;
    }
    if count_blocks(bytes, i) > MAX_SCALED_BLOCKS {
        return false;
    }
    let first = bytes[i + 11];
    if bytes[i + 9] == 1 {
        first == 0x11
    } else {
        bytes[i + 9] == 3 && bytes.len() - i >= 19 && (first == 0x11 || first == 0x12 || first
            == 0x21 || first == 0x22) && bytes[i + 14] == 0x11 && bytes[i + 17] == 0x11
    }
}

fn plain_tables(bytes: &[u8], i: usize, blocks: u32) -> (answer: bool)
    requires
        is_segment(bytes@, i as int, 0xDB),
        bytes@.len() <= 0xFFFF_FFFF,
    ensures
        answer == are_plain_tables(bytes@, i as int, blocks as int),
{
    if bytes.len() - i < 4 {
        return false;
    }
    let end = 2 + read16(bytes, i + 2) as usize;
    let mut t: usize = 0;
    while 4 + 65 * t < end
        invariant
            i + 4 <= bytes@.len() <= 0xFFFF_FFFF,
            end == 2 + number16(bytes@, i + 2),
            end <= 2 + 0xFFFF,
            65 * t <= end + 65,
            forall|s: int| 0 <= s < t ==> #[trigger] is_plain_table(
                    bytes@,
                    i as int,
                    s,
                    blocks as int,
                ),
        decreases end + 65 - 65 * t,
    {
        if bytes.len() - i <= 5 + 65 * t || bytes[i + 4 + 65 * t] >= 16 {
            assert(!is_plain_table(bytes@, i as int, t as int, blocks as int));
            return false;
        }
        let step = bytes[i + 5 + 65 * t];
        assert(0 <= blocks * step <= 0xFFFF_FFFF * 0xFF) by (nonlinear_arith)
            requires
                0 <= blocks <= 0xFFFF_FFFF,
                0 <= step <= 0xFF,
        ;
        if blocks as u64 * step as u64 > MAX_SCALED_BLOCKS as u64 {
            assert(!is_plain_table(bytes@, i as int, t as int, blocks as int));
            return false;
        }
        t += 1;
    }
    true
}

fn plain_tables_all_over(bytes: &[u8], blocks: u32) -> (answer: bool)
    requires
        bytes@.len() <= 0xFFFF_FFFF,
    ensures
        answer <==> forall|j: int| #[trigger]
            is_segment(bytes@, j, 0xDB) ==> are_plain_tables(bytes@, j, blocks as int),
{
    let mut i: usize = 0;
    while bytes.len() >= 2 && i <= bytes.len() - 2
        invariant
            bytes@.len() <= 0xFFFF_FFFF,
            bytes@.len() >= 2 ==> i <= bytes@.len() - 1,
            forall|j: int|
                0 <= j < i && #[trigger] is_segment(bytes@, j, 0xDB) ==> are_plain_tables(
                    bytes@,
                    j,
                    blocks as int,
                ),
        decreases bytes@.len() - i,
    {
        if bytes[i] == 0xFF && bytes[i + 1] == 0xDB && !plain_tables(bytes, i, blocks) {
            assert(is_segment(bytes@, i as int, 0xDB));
            return false;
        }
        i += 1;
    }
    true
}

fn plain_jpeg(bytes: &[u8]) -> (answer: bool)
    ensures
        answer == is_plain_jpeg(bytes@),
{
    if bytes.len() as u64 > 0xFFFF_FFFF {
        return false;
    }
    let mut frame: Option<usize> = None;
    let mut scan: Option<usize> = None;
    let mut i: usize = 0;
    while bytes.len() >= 2 && i <= bytes.len() - 2
        invariant
            bytes@.len() <= 0xFFFF_FFFF,
            bytes@.len() >= 2 ==> i <= bytes@.len() - 1,
            forall|j: int| 0 <= j < i ==> !(#[trigger] is_segment(bytes@, j, 0xC2)),
            forall|j: int|
                0 <= j < i && #[trigger] is_frame(bytes@, j) ==> frame == Some(j as usize),
            forall|j: int|
                0 <= j < i && #[trigger] is_segment(bytes@, j, 0xDA) ==> scan == Some(j as usize),
            frame matches Some(j) ==> j < i && is_frame(bytes@, j as int) && is_plain_frame(
                bytes@,
                j as int,
            ),
            scan matches Some(j) ==> j < i && is_segment(bytes@, j as int, 0xDA),
        decreases bytes@.len() - i,
    {
        if bytes[i] == 0xFF {
            let code = bytes[i + 1];
            if code == 0xC2 {
                assert(is_segment(bytes@, i as int, 0xC2));
                return false;
            }
            if code == 0xC0 || code == 0xC1 {
                assert(is_frame(bytes@, i as int));
                if !plain_frame(bytes, i) {
                    return false;
                }
                if let Some(j) = frame {
                    assert(is_frame(bytes@, j as int));
                    return false;
                }
                frame = Some(i);
            }
            if code == 0xDA {
                assert(is_segment(bytes@, i as int, 0xDA));
                if let Some(j) = scan {
                    assert(is_segment(bytes@, j as int, 0xDA));
                    return false;
                }
                scan = Some(i);
            }
        }
        i += 1;
    }
    let blocks = match frame {
        Some(j) => count_blocks(bytes, j),
        None => 0,
    };
    if !plain_tables_all_over(bytes, blocks) {
        proof {
            if let Some(j) = frame {
                assert(is_frame(bytes@, j as int));
            }
        }
        return false;
    }
    proof {
        lemma_plain_without_blocks(bytes@, blocks as int);
    }
    match (frame, scan) {
        (Some(j), Some(k)) => {
            assert(is_frame(bytes@, j as int) && is_segment(bytes@, k as int, 0xDA));
            bytes.len() - k > 4 && bytes[k + 4] == bytes[j + 9]
        },
        _ => true,
    }
}

/// Tables that are plain for a frame are plain where there is no frame.
proof fn lemma_plain_without_blocks(bytes: Seq<u8>, blocks: int)
    ensures
        forall|j: int| #[trigger]
            is_segment(bytes, j, 0xDB) && are_plain_tables(bytes, j, blocks) ==> are_plain_tables(
                bytes,
                j,
                0,
            ),
{
    assert forall|j: int| #[trigger]
        is_segment(bytes, j, 0xDB) && are_plain_tables(bytes, j, blocks) implies are_plain_tables(
        bytes,
        j,
        0,
    ) by {
        assert forall|t: int|
            0 <= t && 4 + 65 * t < 2 + number16(bytes, j + 2) implies #[trigger] is_plain_table(
            bytes,
            j,
            t,
            0,
        ) by {
            assert(is_plain_table(bytes, j, t, blocks));
        }
    }
}

/// Tells whether the bytes can be decoded without a panic.
pub fn may_decode(bytes: &[u8]) -> (answer: bool)
    ensures
        answer == !may_panic(bytes@),
{
    if bytes.len() >= 4 {
        let (a, b, c, d) = (bytes[0], bytes[1], bytes[2], bytes[3]);
        if (a == 0x52 && b == 0x49 && c == 0x46 && d == 0x46) || (a == 0x49 && b == 0x49 && c
            == 0x2A && d == 0) || (a == 0x4D && b == 0x4D && c == 0 && d == 0x2A) || (a == 0x76 && b
            == 0x2F && c == 0x31 && d == 0x01) {
            return false;
        }
    }
    assert(!is_left_out(bytes@));
    let radiance = bytes.len() >= 10 && bytes[0] == 0x23 && bytes[1] == 0x3F && bytes[2] == 0x52
        && bytes[3] == 0x41 && bytes[4] == 0x44 && bytes[5] == 0x49 && bytes[6] == 0x41 && bytes[7]
        == 0x4E && bytes[8] == 0x43 && bytes[9] == 0x45;
    if radiance && holds_long_run(bytes) {
        return false;
    }
    let jpeg = bytes.len() >= 3 && bytes[0] == 0xFF && bytes[1] == 0xD8 && bytes[2] == 0xFF;
    if jpeg && !plain_jpeg(bytes) {
        return false;
    }
    !holds_torn_palette(bytes)
}

/// Files of the formats that are left out are known by how they begin, and are not decoded.
pub proof fn law_left_out_by_signature(bytes: Seq<u8>)
    requires
        bytes.len() >= 4,
        (bytes.take(4) == seq![0x52u8, 0x49, 0x46, 0x46]) || (bytes.take(4) == seq![
            0x49u8,
            0x49,
            0x2A,
            0,
        ]) || (bytes.take(4) == seq![0x4Du8, 0x4D, 0, 0x2A]) || (bytes.take(4) == seq![
            0x76u8,
            0x2F,
            0x31,
            0x01,
        ]),
    ensures
        may_panic(bytes),
{
    let begin = bytes.take(4);
    assert(begin[0] == bytes[0] && begin[1] == bytes[1] && begin[2] == bytes[2] && begin[3]
        == bytes[3]);
}

/// Whether a PNG palette chunk is named at a place.
pub open spec fn names_palette(bytes: Seq<u8>, i: int) -> bool {
    &&& 0 <= i && i + 4 <= bytes.len()
    &&& bytes.subrange(i, i + 4) == seq![0x50u8, 0x4C, 0x54, 0x45]
}

/// A file that does not begin like one of a format that is left out, a Radiance file or a JPEG file
/// is decoded exactly if every palette in it has a length that is a multiple of three; so one
/// without a palette is decoded.
pub proof fn law_other_files_decoded(bytes: Seq<u8>)
    requires
        bytes.len() >= 1,
        bytes[0] != 0x52 && bytes[0] != 0x49 && bytes[0] != 0x4D && bytes[0] != 0x76,
        bytes[0] != 0x23,
        bytes[0] != 0xFF,
    ensures
        may_panic(bytes) <==> exists|i: int|
            i >= 4 && #[trigger] names_palette(bytes, i) && (0x100_0000 * bytes[i - 4] + 0x1_0000
                * bytes[i - 3] + 0x100 * bytes[i - 2] + bytes[i - 1]) % 3 != 0,
{
    if may_panic(bytes) {
        let i = choose|i: int| #[trigger] has_torn_palette(bytes, i);
        assert(bytes.subrange(i + 4, i + 8) =~= seq![0x50u8, 0x4C, 0x54, 0x45]);
        assert(names_palette(bytes, i + 4));
    }
    if exists|i: int|
        i >= 4 && #[trigger] names_palette(bytes, i) && (0x100_0000 * bytes[i - 4] + 0x1_0000
            * bytes[i - 3] + 0x100 * bytes[i - 2] + bytes[i - 1]) % 3 != 0 {
        let i = choose|i: int|
            i >= 4 && #[trigger] names_palette(bytes, i) && (0x100_0000 * bytes[i - 4] + 0x1_0000
                * bytes[i - 3] + 0x100 * bytes[i - 2] + bytes[i - 1]) % 3 != 0;
        let name = bytes.subrange(i, i + 4);
        assert(name[0] == bytes[i] && name[1] == bytes[i + 1] && name[2] == bytes[i + 2] && name[3]
            == bytes[i + 3]);
        assert(has_torn_palette(bytes, i - 4));
    }
}

/// A Radiance file with four run marks in a row is not decoded, and one in which three bytes of 1
/// never stand side by side and which holds no palette is.
pub proof fn law_radiance_by_run_marks(bytes: Seq<u8>, i: int)
    requires
        bytes.len() >= 10,
        bytes.take(10) == seq![0x23u8, 0x3F, 0x52, 0x41, 0x44, 0x49, 0x41, 0x4E, 0x43, 0x45],
    ensures
        0 <= i && i + 16 <= bytes.len() && (forall|k: int|
            i <= k < i + 16 && (k - i) % 4 != 3 ==> #[trigger] bytes[k] == 1) ==> may_panic(bytes),
        (forall|k: int|
            0 <= k && k + 2 < bytes.len() && bytes[k] == 1 && bytes[k + 1] == 1 ==> #[trigger] bytes[k
                + 2] != 1) && (forall|k: int| !(#[trigger] names_palette(bytes, k)))
            ==> !may_panic(bytes),
{
    let begin = bytes.take(10);
    assert(begin[0] == bytes[0] && begin[1] == bytes[1] && begin[2] == bytes[2] && begin[3]
        == bytes[3] && begin[4] == bytes[4] && begin[5] == bytes[5] && begin[6] == bytes[6]
        && begin[7] == bytes[7] && begin[8] == bytes[8] && begin[9] == bytes[9]);
    assert(is_radiance(bytes));
    if 0 <= i && i + 16 <= bytes.len() && (forall|k: int|
        i <= k < i + 16 && (k - i) % 4 != 3 ==> #[trigger] bytes[k] == 1) {
        assert(marks_long_run(bytes, i));
    }
    if (forall|k: int|
        0 <= k && k + 2 < bytes.len() && bytes[k] == 1 && bytes[k + 1] == 1 ==> #[trigger] bytes[k
            + 2] != 1) && (forall|k: int| !(#[trigger] names_palette(bytes, k))) {
        assert forall|k: int| !(#[trigger] marks_long_run(bytes, k)) by {
            if marks_long_run(bytes, k) {
                assert(bytes[k + 2] != 1);
            }
        }
        assert forall|k: int| !(#[trigger] has_torn_palette(bytes, k)) by {
            if has_torn_palette(bytes, k) {
                assert(bytes.subrange(k + 4, k + 8) =~= seq![0x50u8, 0x4C, 0x54, 0x45]);
                assert(names_palette(bytes, k + 4));
            }
        }
    }
}

/// How many blocks of 8 by 8 samples a JPEG frame at a place has at most, by its height and width.
pub open spec fn frame_blocks(bytes: Seq<u8>, frame: int) -> int {
    let height = 256 * bytes[frame + 5] + bytes[frame + 6];
    let width = 256 * bytes[frame + 7] + bytes[frame + 8];
    4 * (((height + 15) / 16) * ((width + 15) / 16))
}

/// Whether a JPEG frame at a place is of an ordinary kind: up to 4096 pixels on a side, not more than
/// 65536 blocks, and grey, or in colour with the second and the third colour sampled once where the
/// first is sampled once or twice in each direction.
pub open spec fn is_ordinary_frame(bytes: Seq<u8>, frame: int) -> bool {
    &&& 0 <= frame && frame + 13 <= bytes.len()
    &&& 256 * bytes[frame + 5] + bytes[frame + 6] <= 4096
    &&& 256 * bytes[frame + 7] + bytes[frame + 8] <= 4096
    &&& frame_blocks(bytes, frame) <= 65536
    &&& bytes[frame + 9] == 1 || bytes[frame + 9] == 3
    &&& bytes[frame + 9] == 1 ==> bytes[frame + 11] == 0x11
    &&& bytes[frame + 9] == 3 ==> {
        &&& frame + 19 <= bytes.len()
        &&& seq![0x11u8, 0x12, 0x21, 0x22].contains(bytes[frame + 11])
        &&& bytes[frame + 14] == 0x11
        &&& bytes[frame + 17] == 0x11
    }
}

/// Whether a quantization table begins at a place with one byte to a step and a first step that is
/// small for this many blocks.
pub open spec fn has_small_step(bytes: Seq<u8>, place: int, blocks: int) -> bool {
    place + 1 < bytes.len() && bytes[place] < 16 && blocks * bytes[place + 1] <= 65536
}

/// Whether the quantization tables of a segment, 65 bytes each, all have first steps that are small
/// for this many blocks.
pub open spec fn holds_small_tables(bytes: Seq<u8>, i: int, blocks: int) -> bool {
    &&& i + 4 <= bytes.len()
    &&& forall|place: int|
        i + 4 <= place < i + 2 + 256 * bytes[i + 2] + bytes[i + 3] && (place - i - 4) % 65 == 0
            ==> #[trigger] has_small_step(bytes, place, blocks)
}

/// A JPEG file with a frame at `frame` and a scan at `scan` is decoded exactly if it has no other
/// frame and no other scan, the frame is of an ordinary kind, the scan has all of its colours, and
/// the steps of all quantization tables are small; as long as it holds no palette.
pub proof fn law_jpeg_decoded_if_ordinary(bytes: Seq<u8>, frame: int, scan: int)
    requires
        4 <= bytes.len() <= 0xFFFF_FFFF,
        bytes[0] == 0xFF && bytes[1] == 0xD8 && bytes[2] == 0xFF,
        0 <= frame && frame + 2 <= bytes.len(),
        bytes[frame] == 0xFF && (bytes[frame + 1] == 0xC0 || bytes[frame + 1] == 0xC1),
        0 <= scan && scan + 2 <= bytes.len(),
        bytes[scan] == 0xFF && bytes[scan + 1] == 0xDA,
        forall|k: int| !(#[trigger] names_palette(bytes, k)),
    ensures
        !may_panic(bytes) <==> {
            &&& is_ordinary_frame(bytes, frame)
            &&& scan + 4 < bytes.len() && bytes[scan + 4] == bytes[frame + 9]
            &&& forall|k: int|
                0 <= k && k + 1 < bytes.len() && #[trigger] bytes[k] == 0xFF ==> {
                    &&& bytes[k + 1] != 0xC2
                    &&& bytes[k + 1] == 0xC0 || bytes[k + 1] == 0xC1 ==> k == frame
                    &&& bytes[k + 1] == 0xDA ==> k == scan
                    &&& bytes[k + 1] == 0xDB ==> holds_small_tables(
                        bytes,
                        k,
                        frame_blocks(bytes, frame),
                    )
                }
        },
{
    let blocks = frame_blocks(bytes, frame);
    assert forall|k: int| !(#[trigger] has_torn_palette(bytes, k)) by {
        if has_torn_palette(bytes, k) {
            assert(bytes.subrange(k + 4, k + 8) =~= seq![0x50u8, 0x4C, 0x54, 0x45]);
            assert(names_palette(bytes, k + 4));
        }
    }
    assert(may_panic(bytes) <==> !is_plain_jpeg(bytes));
    assert(is_frame(bytes, frame));
    assert(is_segment(bytes, scan, 0xDA));
    let kinds = seq![0x11u8, 0x12, 0x21, 0x22];
    assert(kinds[0] == 0x11 && kinds[1] == 0x12 && kinds[2] == 0x21 && kinds[3] == 0x22);
    assert(blocks == block_count(bytes, frame));
    assert(is_plain_frame(bytes, frame) <==> is_ordinary_frame(bytes, frame));
    assert(0 <= blocks) by {
        let a = (number16(bytes, frame + 5) + 15) / 16;
        let b = (number16(bytes, frame + 7) + 15) / 16;
        assert(0 <= a * b) by (nonlinear_arith)
            requires
                0 <= a,
                0 <= b,
        ;
    }
    assert forall|k: int| #[trigger] is_segment(bytes, k, 0xDB) implies are_plain_tables(
        bytes,
        k,
        blocks,
    ) == holds_small_tables(bytes, k, blocks) by {
        lemma_tables_small(bytes, k, blocks);
    }
    if is_plain_jpeg(bytes) {
        assert forall|k: int| 0 <= k && k + 1 < bytes.len() && #[trigger] bytes[k] == 0xFF implies {
            &&& bytes[k + 1] != 0xC2
            &&& bytes[k + 1] == 0xC0 || bytes[k + 1] == 0xC1 ==> k == frame
            &&& bytes[k + 1] == 0xDA ==> k == scan
            &&& bytes[k + 1] == 0xDB ==> holds_small_tables(bytes, k, blocks)
        } by {
            assert(!is_segment(bytes, k, 0xC2));
            if bytes[k + 1] == 0xC0 || bytes[k + 1] == 0xC1 {
                assert(is_frame(bytes, k));
            }
            if bytes[k + 1] == 0xDA {
                assert(is_segment(bytes, k, 0xDA));
            }
            if bytes[k + 1] == 0xDB {
                assert(is_segment(bytes, k, 0xDB));
            }
        }
    }
    if is_ordinary_frame(bytes, frame) && scan + 4 < bytes.len() && bytes[scan + 4] == bytes[frame
        + 9] && (forall|k: int|
        0 <= k && k + 1 < bytes.len() && #[trigger] bytes[k] == 0xFF ==> {
            &&& bytes[k + 1] != 0xC2
            &&& bytes[k + 1] == 0xC0 || bytes[k + 1] == 0xC1 ==> k == frame
            &&& bytes[k + 1] == 0xDA ==> k == scan
            &&& bytes[k + 1] == 0xDB ==> holds_small_tables(bytes, k, blocks)
        }) {
        assert forall|k: int| !(#[trigger] is_segment(bytes, k, 0xC2)) by {
            if is_segment(bytes, k, 0xC2) {
                assert(bytes[k] == 0xFF);
            }
        }
        assert forall|k: int| #[trigger] is_frame(bytes, k) implies k == frame by {
            assert(bytes[k] == 0xFF);
        }
        assert forall|k: int| #[trigger] is_segment(bytes, k, 0xDA) implies k == scan by {
            assert(bytes[k] == 0xFF);
        }
        assert forall|k: int| #[trigger] is_segment(bytes, k, 0xDB) implies are_plain_tables(
            bytes,
            k,
            blocks,
        ) by {
            assert(bytes[k] == 0xFF);
        }
        lemma_plain_without_blocks(bytes, blocks);
        assert(is_plain_jpeg(bytes));
    }
}

proof fn lemma_tables_small(bytes: Seq<u8>, i: int, blocks: int)
    requires
        is_segment(bytes, i, 0xDB),
    ensures
        are_plain_tables(bytes, i, blocks) == holds_small_tables(bytes, i, blocks),
{
    if are_plain_tables(bytes, i, blocks) {
        assert forall|place: int|
            i + 4 <= place < i + 2 + 256 * bytes[i + 2] + bytes[i + 3] && (place - i - 4) % 65
                == 0 implies #[trigger] has_small_step(bytes, place, blocks) by {
            let t = (place - i - 4) / 65;
            assert(place == i + 4 + 65 * t);
            assert(is_plain_table(bytes, i, t, blocks));
        }
    }
    if holds_small_tables(bytes, i, blocks) {
        assert forall|t: int|
            0 <= t && 4 + 65 * t < 2 + number16(bytes, i + 2) implies #[trigger] is_plain_table(
            bytes,
            i,
            t,
            blocks,
        ) by {
            assert(has_small_step(bytes, i + 4 + 65 * t, blocks));
        }
    }
}

} // verus!
