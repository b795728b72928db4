//! Little-endian integers at arbitrary offsets of a byte buffer.
//!
//! Every reader is total: an offset whose field does not fit in the buffer
//! reads as zero, so a slip in the arithmetic of a caller can never read out of
//! bounds.

use vstd::prelude::*;

verus! {

/// The two-byte little-endian value at `off`, or zero where it does not fit.
pub open spec fn u16_at(data: Seq<u8>, off: int) -> int {
    if 0 <= off && off + 2 <= data.len() {
        data[off] + 0x100 * data[off + 1]
    } else {
        0
    }
}

/// The four-byte little-endian value at `off`, or zero where it does not fit.
pub open spec fn u32_at(data: Seq<u8>, off: int) -> int {
    if 0 <= off && off + 4 <= data.len() {
        data[off] + 0x100 * data[off + 1] + 0x1_0000 * data[off + 2] + 0x100_0000 * data[off + 3]
    } else {
        0
    }
}

/// The eight-byte little-endian value at `off`, or zero where it does not fit.
pub open spec fn u64_at(data: Seq<u8>, off: int) -> int {
    if 0 <= off && off + 8 <= data.len() {
        u32_at(data, off) + 0x1_0000_0000 * u32_at(data, off + 4)
    } else {
        0
    }
}

/// Read the `u16` at `off`.
pub fn read_u16(data: &[u8], off: usize) -> (value: u16)
    ensures
        value == u16_at(data@, off as int),
{
    if off <= data.len() && data.len() - off >= 2 {
        data[off] as u16 + 0x100 * (data[off + 1] as u16)
    } else {
        0
    }
}

/// Read the `u32` at `off`.
pub fn read_u32(data: &[u8], off: usize) -> (value: u32)
    ensures
        value == u32_at(data@, off as int),
{
    if off <= data.len() && data.len() - off >= 4 {
        data[off] as u32 + 0x100 * (data[off + 1] as u32) + 0x1_0000 * (data[off + 2] as u32)
            + 0x100_0000 * (data[off + 3] as u32)
    } else {
        0
    }
}

/// Read the `u64` at `off`.
pub fn read_u64(data: &[u8], off: usize) -> (value: u64)
    ensures
        value == u64_at(data@, off as int),
{
    if off <= data.len() && data.len() - off >= 8 {
        let low: u32 = read_u32(data, off);
        let high: u32 = read_u32(data, off + 4);
        low as u64 + 0x1_0000_0000 * (high as u64)
    } else {
        0
    }
}

/// Bytes that stand between others read as the number whose lowest byte comes first.
pub proof fn law_little_endian(
    front: Seq<u8>,
    b0: u8,
    b1: u8,
    b2: u8,
    b3: u8,
    high: Seq<u8>,
    back: Seq<u8>,
)
    requires
        high.len() == 4,
    ensures
        u16_at(front + seq![b0, b1] + back, front.len() as int) == b0 + 256 * b1,
        u32_at(front + seq![b0, b1, b2, b3] + back, front.len() as int) == b0 + 256 * b1 + 65536
            * b2 + 16777216 * b3,
        u64_at(front + (seq![b0, b1, b2, b3] + high) + back, front.len() as int) == b0 + 256 * b1
            + 65536 * b2 + 16777216 * b3 + 4294967296 * (high[0] + 256 * high[1] + 65536 * high[2]
            + 16777216 * high[3]),
{
    let two = front + seq![b0, b1] + back;
    let four = front + seq![b0, b1, b2, b3] + back;
    let eight = front + (seq![b0, b1, b2, b3] + high) + back;
    let n = front.len() as int;
    assert(two[n] == b0 && two[n + 1] == b1);
    assert(four[n] == b0 && four[n + 1] == b1 && four[n + 2] == b2 && four[n + 3] == b3);
    assert(eight[n] == b0 && eight[n + 1] == b1 && eight[n + 2] == b2 && eight[n + 3] == b3);
    assert(eight[n + 4] == high[0] && eight[n + 5] == high[1] && eight[n + 6] == high[2] && eight[n
        + 7] == high[3]);
}

/// A field that does not fit reads as zero, and one that fits depends on no byte
/// beside it.
pub proof fn law_reads_only_its_field(d: Seq<u8>, e: Seq<u8>, off: int, width: int)
    requires
        d.len() == e.len(),
        width == 2 || width == 4 || width == 8,
        forall|i: int| off <= i < off + width && 0 <= i < d.len() ==> d[i] == #[trigger] e[i],
    ensures
        width == 2 ==> u16_at(d, off) == u16_at(e, off),
        width == 4 ==> u32_at(d, off) == u32_at(e, off),
        width == 8 ==> u64_at(d, off) == u64_at(e, off),
        width == 2 && (off < 0 || off + 2 > d.len()) ==> u16_at(d, off) == 0,
        width == 4 && (off < 0 || off + 4 > d.len()) ==> u32_at(d, off) == 0,
        width == 8 && (off < 0 || off + 8 > d.len()) ==> u64_at(d, off) == 0,
{
    if 0 <= off && off + width <= d.len() {
        assert(d[off] == e[off] && d[off + 1] == e[off + 1]);
        if width >= 4 {
            assert(d[off + 2] == e[off + 2] && d[off + 3] == e[off + 3]);
        }
        if width == 8 {
            assert(d[off + 4] == e[off + 4] && d[off + 5] == e[off + 5]);
            assert(d[off + 6] == e[off + 6] && d[off + 7] == e[off + 7]);
        }
    }
}

} // verus!
