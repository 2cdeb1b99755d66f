//! Byte-level codecs shared by the record store and the slotted page:
//! fixed-width little-endian integers and bounds-checked range copies.
//! Records and page headers are read and written only through these,
//! never by reinterpreting a buffer as a typed value.

use vstd::prelude::*;

verus! {

/// The value of the two little-endian bytes of `s` at offset `off`.
pub open spec fn u16_le(s: Seq<u8>, off: int) -> int {
    s[off] + 256 * s[off + 1]
}

/// The 32-bit value encoded by four bytes in little-endian order.
pub open spec fn u32_le(b0: u8, b1: u8, b2: u8, b3: u8) -> u32 {
    (b0 as u32) | ((b1 as u32) << 8) | ((b2 as u32) << 16) | ((b3 as u32) << 24)
}

/// Reads the 16-bit little-endian value stored at byte offset `off`.
pub fn get_u16_le(data: &Vec<u8>, off: usize) -> (r: u16)
    requires
        off + 2 <= data.len(),
    ensures
        r == u16_le(data@, off as int),
{
    let b0 = data[off];
    let b1 = data[off + 1];
    (b0 as u16) + 256 * (b1 as u16)
}

/// Writes `v` at byte offset `off` in little-endian order; no other byte moves.
pub fn set_u16_le(data: &mut Vec<u8>, off: usize, v: u16)
    requires
        off + 2 <= old(data).len(),
    ensures
        final(data)@.len() == old(data)@.len(),
        u16_le(final(data)@, off as int) == v,
        forall|j: int|
            0 <= j < old(data)@.len() && j != off && j != off + 1 ==> final(data)@[j] == old(
                data,
            )@[j],
{
    proof {
        assert(v == (v & 0xff) + 256 * (v >> 8)) by (bit_vector);
        assert(v & 0xff < 256) by (bit_vector);
        assert(v >> 8 < 256) by (bit_vector);
    }
    let lo = (v & 0xff) as u8;
    let hi = (v >> 8) as u8;
    data.set(off, lo);
    data.set(off + 1, hi);
}

/// Copies all of `src` into `data` at byte offset `off`; bytes outside the
/// window `[off, off + src.len())` are untouched.
pub fn write_bytes(data: &mut Vec<u8>, off: usize, src: &Vec<u8>)
    requires
        off + src.len() <= old(data).len(),
    ensures
        final(data)@.len() == old(data)@.len(),
        final(data)@.subrange(off as int, off + src@.len()) == src@,
        forall|j: int|
            0 <= j < old(data)@.len() && !(off <= j < off + src@.len()) ==> final(data)@[j] == old(
                data,
            )@[j],
{
    let mut i: usize = 0;
    while i < src.len()
        invariant
            i <= src@.len(),
            off + src.len() <= data.len(),
            data@.len() == old(data)@.len(),
            forall|j: int|
                0 <= j < data@.len() && !(off <= j < off + src@.len()) ==> data@[j] == old(
                    data,
                )@[j],
            forall|j: int| 0 <= j < i ==> data@[off + j] == src@[j],
        decreases src@.len() - i,
    {
        let b = src[i];
        data.set(off + i, b);
        i = i + 1;
    }
    proof {
        assert(data@.subrange(off as int, off + src@.len()) =~= src@);
    }
}

/// Copies `len` bytes out of `data` starting at byte offset `off`.
pub fn read_bytes(data: &Vec<u8>, off: usize, len: usize) -> (r: Vec<u8>)
    requires
        off + len <= data.len(),
    ensures
        r@ == data@.subrange(off as int, off + len),
{
    let mut r: Vec<u8> = Vec::new();
    let mut i: usize = 0;
    while i < len
        invariant
            i <= len,
            off + len <= data.len(),
            r@.len() == i,
            forall|j: int| 0 <= j < i ==> r@[j] == data@[off + j],
        decreases len - i,
    {
        r.push(data[off + i]);
        i = i + 1;
    }
    proof {
        assert(r@ =~= data@.subrange(off as int, off + len));
    }
    r
}

/// Encodes a 32-bit record value as its four little-endian bytes.
pub fn encode_u32(v: u32) -> (b: Vec<u8>)
    ensures
        b@.len() == 4,
        u32_le(b@[0], b@[1], b@[2], b@[3]) == v,
{
    proof {
        assert(((v & 0xff) as u8 as u32) | ((((v >> 8) & 0xff) as u8 as u32) << 8) | ((((v >> 16)
            & 0xff) as u8 as u32) << 16) | ((((v >> 24) & 0xff) as u8 as u32) << 24) == v)
            by (bit_vector);
    }
    let mut b: Vec<u8> = Vec::new();
    b.push((v & 0xff) as u8);
    b.push(((v >> 8) & 0xff) as u8);
    b.push(((v >> 16) & 0xff) as u8);
    b.push(((v >> 24) & 0xff) as u8);
    b
}

/// Decodes the four little-endian bytes of a 32-bit record value.
pub fn decode_u32(b: &Vec<u8>) -> (v: u32)
    requires
        b@.len() == 4,
    ensures
        v == u32_le(b@[0], b@[1], b@[2], b@[3]),
{
    (b[0] as u32) | ((b[1] as u32) << 8) | ((b[2] as u32) << 16) | ((b[3] as u32) << 24)
}

} // verus!
