//! Big-endian integer reads over byte sequences.

use vstd::prelude::*;

verus! {

/// The big-endian 16-bit value at `p`.
pub open spec fn be16(s: Seq<u8>, p: int) -> int {
    s[p] as int * 256 + s[p + 1] as int
}

/// The big-endian 24-bit value at `p`.
pub open spec fn be24(s: Seq<u8>, p: int) -> int {
    s[p] as int * 65536 + s[p + 1] as int * 256 + s[p + 2] as int
}

/// The big-endian 32-bit value at `p`.
pub open spec fn be32(s: Seq<u8>, p: int) -> int {
    s[p] as int * 16777216 + s[p + 1] as int * 65536 + s[p + 2] as int * 256 + s[p + 3] as int
}

/// Reads the big-endian 16-bit value at `pos`.
pub fn get_be16(data: &[u8], pos: usize) -> (r: u16)
    requires
        pos + 2 <= data@.len(),
    ensures
        r as int == be16(data@, pos as int),
{
    data[pos] as u16 * 256 + data[pos + 1] as u16
}

/// Reads the big-endian 24-bit value at `pos`.
pub fn get_be24(data: &[u8], pos: usize) -> (r: u32)
    requires
        pos + 3 <= data@.len(),
    ensures
        r as int == be24(data@, pos as int),
{
    data[pos] as u32 * 65536 + data[pos + 1] as u32 * 256 + data[pos + 2] as u32
}

/// Reads the big-endian 32-bit value at `pos`.
pub fn get_be32(data: &[u8], pos: usize) -> (r: u32)
    requires
        pos + 4 <= data@.len(),
    ensures
        r as int == be32(data@, pos as int),
{
    data[pos] as u32 * 16777216 + data[pos + 1] as u32 * 65536 + data[pos + 2] as u32 * 256
        + data[pos + 3] as u32
}

/// Copies `data[lo..hi]` into a new vector.
pub fn copy_range(data: &[u8], lo: usize, hi: usize) -> (r: Vec<u8>)
    requires
        lo <= hi <= data@.len(),
    ensures
        r@ == data@.subrange(lo as int, hi as int),
{
    let mut r: Vec<u8> = Vec::with_capacity(hi - lo);
    let mut i: usize = lo;
    while i < hi
        invariant
            lo <= i <= hi <= data@.len(),
            r@ == data@.subrange(lo as int, i as int),
        decreases hi - i,
    {
        r.push(data[i]);
        i += 1;
    }
    r
}

} // verus!
