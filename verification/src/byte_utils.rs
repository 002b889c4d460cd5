use vstd::prelude::*;

verus! {

/// The unsigned value of the four bytes at `offset`, least significant first.
pub open spec fn le_u32_at(data: Seq<u8>, offset: int) -> int {
    data[offset] + 256 * data[offset + 1] + 65536 * data[offset + 2] + 16777216 * data[offset + 3]
}

/// The two's-complement 32-bit value of the four little-endian bytes at `offset`.
pub open spec fn i32_at(data: Seq<u8>, offset: int) -> int {
    let u = le_u32_at(data, offset);
    if u < 0x8000_0000 {
        u
    } else {
        u - 0x1_0000_0000
    }
}

/// The four little-endian bytes of a 32-bit two's-complement value.
pub open spec fn i32_le_bytes(value: int) -> Seq<u8> {
    let u = if value < 0 { value + 0x1_0000_0000 } else { value };
    seq![
        (u % 256) as u8,
        ((u / 256) % 256) as u8,
        ((u / 65536) % 256) as u8,
        ((u / 16777216) % 256) as u8,
    ]
}

/// Reads a 32-bit signed integer stored little-endian at `offset`.
pub fn read_i32(data: &[u8], offset: usize) -> (value: i32)
    requires
        offset + 4 <= data@.len(),
    ensures
        value == i32_at(data@, offset as int),
{
    let u: u32 = data[offset] as u32 + (data[offset + 1] as u32) * 256 + (data[offset + 2] as u32)
        * 65536 + (data[offset + 3] as u32) * 16777216;
    if u < 0x8000_0000 {
        u as i32
    } else {
        let low: u32 = u - 0x8000_0000;
        (low as i32) - 0x7fff_ffff - 1
    }
}

/// Writes a 32-bit signed integer little-endian at `offset`; the other bytes stay.
pub fn write_i32(data: &mut [u8], offset: usize, value: i32)
    requires
        offset + 4 <= old(data)@.len(),
    ensures
        final(data)@.len() == old(data)@.len(),
        final(data)@.subrange(offset as int, offset + 4) == i32_le_bytes(value as int),
        forall|k: int|
            0 <= k < old(data)@.len() && !(offset <= k < offset + 4) ==> #[trigger] final(data)@[k]
                == old(data)@[k],
{
    let u: u32 = if value < 0 {
        ((value as i64) + 0x1_0000_0000i64) as u32
    } else {
        value as u32
    };
    data[offset] = (u % 256) as u8;
    data[offset + 1] = ((u / 256) % 256) as u8;
    data[offset + 2] = ((u / 65536) % 256) as u8;
    data[offset + 3] = ((u / 16777216) % 256) as u8;
    assert(data@.subrange(offset as int, offset + 4) =~= i32_le_bytes(value as int));
}

/// A value written by `write_i32` reads back unchanged.
pub proof fn lemma_i32_round_trip(data: Seq<u8>, offset: int, value: int)
    requires
        0 <= offset,
        offset + 4 <= data.len(),
        i32::MIN <= value <= i32::MAX,
        data.subrange(offset, offset + 4) == i32_le_bytes(value),
    ensures
        i32_at(data, offset) == value,
{
    assert(data[offset] == data.subrange(offset, offset + 4)[0]);
    assert(data[offset + 1] == data.subrange(offset, offset + 4)[1]);
    assert(data[offset + 2] == data.subrange(offset, offset + 4)[2]);
    assert(data[offset + 3] == data.subrange(offset, offset + 4)[3]);
    let u = if value < 0 { value + 0x1_0000_0000 } else { value };
    assert(u % 256 + 256 * ((u / 256) % 256) + 65536 * ((u / 65536) % 256) + 16777216 * ((u
        / 16777216) % 256) == u) by (nonlinear_arith)
        requires
            0 <= u < 0x1_0000_0000,
    ;
}

/// Reading four bytes depends on those bytes alone.
pub proof fn lemma_i32_at_frame(a: Seq<u8>, b: Seq<u8>, offset: int)
    requires
        0 <= offset,
        offset + 4 <= a.len(),
        offset + 4 <= b.len(),
        forall|k: int| offset <= k < offset + 4 ==> a[k] == b[k],
    ensures
        i32_at(a, offset) == i32_at(b, offset),
{
    assert(a[offset + 1] == b[offset + 1]);
    assert(a[offset + 2] == b[offset + 2]);
    assert(a[offset + 3] == b[offset + 3]);
}

} // verus!
