//! Repair of CFF fonts whose charstrings carry data after `endchar`.

use vstd::prelude::*;
use crate::bytes::{be16, be24, be32, get_be16, get_be24, get_be32, copy_range};
use crate::text::{contains, str_contains};

verus! {

/// The CFF `endchar` operator.
pub const ENDCHAR: u8 = 14;

/// The `CFF ` table tag.
pub const CFF_TAG: u32 = 0x43464620;

/// The offset of `off_size` bytes at `pos`, or 0 where it does not fit.
pub open spec fn spec_read_offset(s: Seq<u8>, pos: int, off_size: int) -> int {
    if pos + off_size > s.len() {
        0
    } else if off_size == 1 {
        s[pos] as int
    } else if off_size == 2 {
        be16(s, pos)
    } else if off_size == 3 {
        be24(s, pos)
    } else if off_size == 4 {
        be32(s, pos)
    } else {
        0
    }
}

/// Reads a CFF INDEX offset of `off_size` bytes at `pos`; 0 where it does not fit.
pub fn read_offset(data: &[u8], pos: usize, off_size: usize) -> (r: usize)
    ensures
        r as int == spec_read_offset(data@, pos as int, off_size as int),
{
    if pos > data.len() || off_size > data.len() - pos {
        return 0;
    }
    if off_size == 1 {
        data[pos] as usize
    } else if off_size == 2 {
        get_be16(data, pos) as usize
    } else if off_size == 3 {
        get_be24(data, pos) as usize
    } else if off_size == 4 {
        get_be32(data, pos) as usize
    } else {
        0
    }
}


/// The location of table `tag` among the records `i..n` of the table directory.
pub open spec fn spec_find_table_from(s: Seq<u8>, tag: int, i: int, n: int) -> Option<(int, int)>
    decreases n - i,
{
    if i >= n {
        None
    } else {
        let rec = 12 + 16 * i;
        if rec + 16 > s.len() {
            None
        } else if be32(s, rec) == tag {
            Some((be32(s, rec + 8), be32(s, rec + 12)))
        } else {
            spec_find_table_from(s, tag, i + 1, n)
        }
    }
}

/// The (offset, length) of table `tag` in an sfnt font, as its directory gives them.
pub open spec fn spec_find_table(s: Seq<u8>, tag: int) -> Option<(int, int)> {
    if s.len() < 12 {
        None
    } else {
        let version = be32(s, 0);
        if version != 0x00010000 && version != 0x4F54544F {
            None
        } else {
            spec_find_table_from(s, tag, 0, be16(s, 4))
        }
    }
}

/// Finds the offset and length of table `tag` in an sfnt font (TrueType or
/// OpenType/CFF outlines); `None` where the header is not such a font or the
/// directory holds no record for `tag` before it runs out of data.
pub fn find_table(data: &[u8], tag: u32) -> (r: Option<(usize, usize)>)
    ensures
        r is None <==> spec_find_table(data@, tag as int) is None,
        r matches Some(p) ==> spec_find_table(data@, tag as int) == Some((p.0 as int, p.1 as int)),
{
    if data.len() < 12 {
        return None;
    }
    let version = get_be32(data, 0);
    if version != 0x00010000 && version != 0x4F54544F {
        return None;
    }
    let num_tables = get_be16(data, 4) as usize;
    let mut i: usize = 0;
    while i < num_tables
        invariant
            0 <= i <= num_tables,
            num_tables as int == be16(data@, 4),
            num_tables <= 65535,
            data@.len() >= 12,
            spec_find_table(data@, tag as int) == spec_find_table_from(data@, tag as int, i as int, num_tables as int),
        decreases num_tables - i,
    {
        let rec = 12 + i * 16;
        if rec > data.len() || data.len() - rec < 16 {
            return None;
        }
        if get_be32(data, rec) == tag {
            let offset = get_be32(data, rec + 8) as usize;
            let length = get_be32(data, rec + 12) as usize;
            return Some((offset, length));
        }
        i += 1;
    }
    None
}

/// Layout of a CFF INDEX.
#[derive(Debug, Clone, Copy, PartialEq, Eq)]
pub struct IndexInfo {
    pub count: usize,
    pub off_size: usize,
    pub offsets_start: usize,
    pub data_start: usize,
    pub data_length: usize,
    pub index_size: usize,
}

/// The layout of the CFF INDEX that starts at `start`, where it is well formed:
/// its offsets are 1-based and its data lies inside `s`.
pub open spec fn spec_index_info(s: Seq<u8>, start: int) -> Option<IndexInfo> {
    if start + 2 > s.len() {
        None
    } else {
        let count = be16(s, start);
        let pos = start + 2;
        if count == 0 {
            Some(
                IndexInfo {
                    count: 0,
                    off_size: 0,
                    offsets_start: 0,
                    data_start: 0,
                    data_length: 0,
                    index_size: 2,
                },
            )
        } else if pos >= s.len() {
            None
        } else {
            let off = s[pos] as int;
            let offsets_start = pos + 1;
            if off == 0 || off > 4 {
                None
            } else if spec_read_offset(s, offsets_start, off) != 1 {
                None
            } else {
                let last_pos = offsets_start + count * off;
                if last_pos + off > s.len() {
                    None
                } else {
                    let last = spec_read_offset(s, last_pos, off);
                    let data_length = if last >= 1 { last - 1 } else { 0 };
                    let data_start = last_pos + off;
                    if data_start + data_length > s.len() {
                        None
                    } else {
                        Some(
                            IndexInfo {
                                count: count as usize,
                                off_size: off as usize,
                                offsets_start: offsets_start as usize,
                                data_start: data_start as usize,
                                data_length: data_length as usize,
                                index_size: (data_start + data_length - start) as usize,
                            },
                        )
                    }
                }
            }
        }
    }
}

/// Facts about a well formed INDEX layout.
pub open spec fn index_info_wf(s: Seq<u8>, start: int, info: IndexInfo) -> bool {
    &&& start + info.index_size <= s.len()
    &&& info.count <= 65535
    &&& info.count == 0 ==> info.index_size == 2 && info.off_size == 0
    &&& info.count > 0 ==> {
        &&& 1 <= info.off_size <= 4
        &&& info.offsets_start == start + 3
        &&& info.data_start == info.offsets_start + (info.count + 1) * info.off_size
        &&& info.data_start + info.data_length <= s.len()
        &&& info.index_size == info.data_start + info.data_length - start
    }
}

proof fn lemma_mul_bound(count: int, off: int)
    requires
        0 <= count <= 65535,
        0 <= off <= 4,
    ensures
        0 <= count * off <= 262140,
        (count + 1) * off == count * off + off,
{
    assert(0 <= count * off <= 262140) by (nonlinear_arith)
        requires
            0 <= count <= 65535,
            0 <= off <= 4,
    ;
    assert((count + 1) * off == count * off + off) by (nonlinear_arith);
}

/// Reads the layout of the CFF INDEX that starts at `index_start`.
pub fn find_index_data_info(data: &[u8], index_start: usize) -> (r: Option<IndexInfo>)
    ensures
        r == spec_index_info(data@, index_start as int),
        r matches Some(info) ==> index_info_wf(data@, index_start as int, info),
{
    let len = data.len();
    if index_start > len || len - index_start < 2 {
        return None;
    }
    let count = get_be16(data, index_start) as usize;
    let pos = index_start + 2;
    if count == 0 {
        return Some(
            IndexInfo {
                count: 0,
                off_size: 0,
                offsets_start: 0,
                data_start: 0,
                data_length: 0,
                index_size: 2,
            },
        );
    }
    if pos >= len {
        return None;
    }
    let off_size = data[pos] as usize;
    let offsets_start = pos + 1;
    if off_size == 0 || off_size > 4 {
        return None;
    }
    if read_offset(data, offsets_start, off_size) != 1 {
        return None;
    }
    proof {
        lemma_mul_bound(count as int, off_size as int);
    }
    let span = count * off_size;
    if span > len - offsets_start || off_size > len - offsets_start - span {
        return None;
    }
    let last_off_pos = offsets_start + span;
    let last_offset = read_offset(data, last_off_pos, off_size);
    let data_length = if last_offset >= 1 { last_offset - 1 } else { 0 };
    let data_start = last_off_pos + off_size;
    if data_length > len - data_start {
        return None;
    }
    Some(
        IndexInfo {
            count,
            off_size,
            offsets_start,
            data_start,
            data_length,
            index_size: data_start + data_length - index_start,
        },
    )
}

/// The position just after the CFF INDEX at `pos`.
pub open spec fn spec_skip_index(s: Seq<u8>, pos: int) -> Option<int> {
    match spec_index_info(s, pos) {
        Some(info) => Some(pos + info.index_size),
        None => None,
    }
}

/// Skips the CFF INDEX at `pos`, returning the position after it.
pub fn skip_index(data: &[u8], pos: usize) -> (r: Option<usize>)
    ensures
        r is None <==> spec_skip_index(data@, pos as int) is None,
        r matches Some(end) ==> spec_skip_index(data@, pos as int) == Some(end as int) && end <= data@.len(),
{
    let len = data.len();
    match find_index_data_info(data, pos) {
        Some(info) => Some(info.index_size + pos),
        None => None,
    }
}


/// The search of the fallback: the first endchar at or after `i` among the
/// last ten bytes of `s`.
pub open spec fn spec_fallback_search(s: Seq<u8>, i: int) -> Option<int>
    decreases s.len() - i,
{
    if i < 0 || i >= s.len() {
        None
    } else if s[i] == ENDCHAR && (s.len() < 10 || i >= s.len() - 10) {
        Some(i + 1)
    } else {
        spec_fallback_search(s, i + 1)
    }
}

/// Where a charstring ends when its operators cannot be followed: after a
/// final endchar, after one just before the last byte, or after the first one
/// at or after `start` among the last ten bytes.
pub open spec fn spec_endchar_fallback(s: Seq<u8>, start: int) -> Option<int> {
    if s.len() == 0 {
        None
    } else if s[s.len() - 1] == ENDCHAR {
        Some(s.len() as int)
    } else if s.len() >= 2 && s[s.len() - 2] == ENDCHAR {
        Some(s.len() - 1)
    } else {
        spec_fallback_search(s, start)
    }
}

/// Stem hint operators, which also consume an implicit argument list.
pub open spec fn is_stem_op(b: u8) -> bool {
    b == 1 || b == 3 || b == 18 || b == 23
}

/// Single-byte operators that clear the argument stack.
pub open spec fn is_plain_op(b: u8) -> bool {
    b == 0 || b == 2 || (4 <= b <= 11) || b == 13 || (15 <= b <= 17) || b == 21
}

/// Reserved single-byte operators.
pub open spec fn is_reserved_op(b: u8) -> bool {
    b == 22 || (24 <= b <= 27) || b == 30 || b == 31
}

/// Number of bytes of an operand that starts with `b` (a byte that is no
/// operator): 1 for 32..=246, 2 for 247..=254, 3 for 28, 5 for 29 and 255.
pub open spec fn operand_size(b: u8) -> int {
    if 32 <= b <= 246 {
        1
    } else if 247 <= b <= 254 {
        2
    } else if b == 28 {
        3
    } else {
        5
    }
}

/// Number of bytes of a hint mask for `stems` stems.
pub open spec fn hint_mask_bytes(stems: nat) -> int {
    ((stems + 7) / 8) as int
}

/// Walks a Type 2 charstring from `pos`, with `stems` stems declared so far
/// and `args` arguments on the stack, to the position just after its endchar.
/// Where the walk leaves the data, the end is found by `spec_endchar_fallback`.
pub open spec fn spec_charstring_walk(s: Seq<u8>, pos: int, stems: nat, args: nat) -> Option<int>
    decreases s.len() - pos,
{
    if pos < 0 || pos >= s.len() {
        spec_endchar_fallback(s, 0)
    } else {
        let b = s[pos];
        if b == ENDCHAR {
            Some(pos + 1)
        } else if b == 19 || b == 20 {
            let st: nat = stems + args / 2;
            let hint = hint_mask_bytes(st);
            if pos + 1 + hint > s.len() {
                spec_endchar_fallback(s, pos)
            } else {
                spec_charstring_walk(s, pos + 1 + hint, st as nat, 0)
            }
        } else if is_stem_op(b) {
            spec_charstring_walk(s, pos + 1, stems + args / 2, 0)
        } else if b == 12 {
            if pos + 1 < s.len() {
                spec_charstring_walk(s, pos + 2, stems, 0)
            } else {
                spec_endchar_fallback(s, 0)
            }
        } else if is_plain_op(b) || is_reserved_op(b) {
            spec_charstring_walk(s, pos + 1, stems, 0)
        } else if pos + operand_size(b) >= s.len() {
            spec_endchar_fallback(s, 0)
        } else {
            spec_charstring_walk(s, pos + operand_size(b), stems, args + 1)
        }
    }
}

/// The length of the charstring `s` up to and including its endchar.
pub open spec fn spec_charstring_end(s: Seq<u8>) -> Option<int> {
    spec_charstring_walk(s, 0, 0, 0)
}

proof fn lemma_fallback_search_ends_at_endchar(s: Seq<u8>, i: int)
    ensures
        spec_fallback_search(s, i) matches Some(n) ==> 1 <= n <= s.len() && s[n - 1] == ENDCHAR,
    decreases s.len() - i,
{
    if i >= 0 && i < s.len() {
        lemma_fallback_search_ends_at_endchar(s, i + 1);
    }
}

proof fn lemma_fallback_ends_at_endchar(s: Seq<u8>, start: int)
    ensures
        spec_endchar_fallback(s, start) matches Some(n) ==> 1 <= n <= s.len() && s[n - 1] == ENDCHAR,
{
    lemma_fallback_search_ends_at_endchar(s, start);
}

/// Every end of a charstring that the walk reports lies just after an endchar byte.
pub proof fn lemma_charstring_walk_ends_at_endchar(s: Seq<u8>, pos: int, stems: nat, args: nat)
    ensures
        spec_charstring_walk(s, pos, stems, args) matches Some(n) ==> 1 <= n <= s.len() && s[n - 1] == ENDCHAR,
    decreases s.len() - pos,
{
    lemma_fallback_ends_at_endchar(s, 0);
    if pos >= 0 && pos < s.len() {
        let b = s[pos];
        lemma_fallback_ends_at_endchar(s, pos);
        if b == ENDCHAR {
        } else if b == 19 || b == 20 {
            let st: nat = stems + args / 2;
            let hint = hint_mask_bytes(st);
            if pos + 1 + hint <= s.len() {
                lemma_charstring_walk_ends_at_endchar(s, pos + 1 + hint, st as nat, 0);
            }
        } else if is_stem_op(b) {
            lemma_charstring_walk_ends_at_endchar(s, pos + 1, stems + args / 2, 0);
        } else if b == 12 {
            if pos + 1 < s.len() {
                lemma_charstring_walk_ends_at_endchar(s, pos + 2, stems, 0);
            }
        } else if is_plain_op(b) || is_reserved_op(b) {
            lemma_charstring_walk_ends_at_endchar(s, pos + 1, stems, 0);
        } else if pos + operand_size(b) < s.len() {
            lemma_charstring_walk_ends_at_endchar(s, pos + operand_size(b), stems, args + 1);
        }
    }
}

/// Finds the end of a charstring whose operators cannot be followed: see
/// `spec_endchar_fallback`.
fn find_endchar_fallback(data: &[u8], start: usize) -> (r: Option<usize>)
    ensures
        r is None <==> spec_endchar_fallback(data@, start as int) is None,
        r matches Some(n) ==> spec_endchar_fallback(data@, start as int) == Some(n as int),
{
    let len = data.len();
    if len == 0 {
        return None;
    }
    if data[len - 1] == ENDCHAR {
        return Some(len);
    }
    if len >= 2 && data[len - 2] == ENDCHAR {
        return Some(len - 1);
    }
    let mut i = start;
    while i < len
        invariant
            start <= i,
            len == data@.len(),
            len > 0,
            data@[len - 1] != ENDCHAR,
            !(len >= 2 && data@[len - 2] == ENDCHAR),
            spec_fallback_search(data@, start as int) == spec_fallback_search(data@, i as int),
        decreases len - i,
    {
        if data[i] == ENDCHAR && (len < 10 || i >= len - 10) {
            assert(spec_fallback_search(data@, i as int) == Some(i + 1));
            return Some(i + 1);
        }
        i += 1;
    }
    None
}

/// Parses a CFF Type 2 charstring and returns the position just after its
/// endchar operator.
pub fn find_charstring_end(data: &[u8]) -> (r: Option<usize>)
    ensures
        r is None <==> spec_charstring_end(data@) is None,
        r matches Some(n) ==> spec_charstring_end(data@) == Some(n as int),
        r matches Some(n) ==> 1 <= n <= data@.len() && data@[n - 1] == ENDCHAR,
{
    proof {
        lemma_charstring_walk_ends_at_endchar(data@, 0, 0, 0);
    }
    let len = data.len();
    let mut pos: usize = 0;
    let mut stems: u64 = 0;
    let mut args: usize = 0;
    while pos < len
        invariant
            len == data@.len(),
            stems + args <= pos,
            spec_charstring_end(data@) matches Some(n) ==> 1 <= n <= data@.len() && data@[n - 1] == ENDCHAR,
            spec_charstring_end(data@) == spec_charstring_walk(data@, pos as int, stems as nat, args as nat),
        decreases len - pos,
    {
        let b = data[pos];
        if b == ENDCHAR {
            return Some(pos + 1);
        } else if b == 19 || b == 20 {
            stems = stems + (args / 2) as u64;
            args = 0;
            let hint = stems / 8 + if stems % 8 != 0 { 1 } else { 0 };
            assert(hint as int == hint_mask_bytes(stems as nat));
            if hint > (len - pos - 1) as u64 {
                return find_endchar_fallback(data, pos);
            }
            pos = pos + 1 + hint as usize;
        } else if b == 1 || b == 3 || b == 18 || b == 23 {
            stems = stems + (args / 2) as u64;
            args = 0;
            pos += 1;
        } else if b == 12 {
            if pos + 1 < len {
                args = 0;
                pos += 2;
            } else {
                return find_endchar_fallback(data, 0);
            }
        } else if b == 0 || b == 2 || (4 <= b && b <= 11) || b == 13 || (15 <= b && b <= 17) || b
            == 21 || b == 22 || (24 <= b && b <= 27) || b == 30 || b == 31 {
            args = 0;
            pos += 1;
        } else {
            let size: usize = if 32 <= b && b <= 246 {
                1
            } else if 247 <= b && b <= 254 {
                2
            } else if b == 28 {
                3
            } else {
                5
            };
            args = args + 1;
            if size >= len - pos {
                return find_endchar_fallback(data, 0);
            }
            pos = pos + size;
        }
    }
    find_endchar_fallback(data, 0)
}


/// The position just after a BCD real number whose nibbles start at `pos`:
/// after the first byte, before `end`, that holds a 0xF nibble, else `end`.
pub open spec fn spec_bcd_end(s: Seq<u8>, pos: int, end: int) -> int
    decreases end - pos,
{
    if pos >= end {
        end
    } else if s[pos] / 16 == 15 || s[pos] % 16 == 15 {
        pos + 1
    } else {
        spec_bcd_end(s, pos + 1, end)
    }
}

/// The signed value of a big-endian 16-bit field.
pub open spec fn signed16(v: int) -> int {
    if v >= 32768 { v - 65536 } else { v }
}

/// The signed value of a big-endian 32-bit field.
pub open spec fn signed32(v: int) -> int {
    if v >= 0x8000_0000 { v - 0x1_0000_0000 } else { v }
}

/// Walks the DICT data in `s[pos..end]` with the operands `ops` read so far,
/// to the operand of the CharStrings operator (17), taken as an offset.
pub open spec fn spec_dict_walk(s: Seq<u8>, pos: int, end: int, ops: Seq<i32>) -> Option<usize>
    decreases end - pos,
{
    if pos < 0 || pos >= end {
        None
    } else {
        let b0 = s[pos];
        if b0 == 12 {
            if pos + 1 >= end {
                None
            } else {
                spec_dict_walk(s, pos + 2, end, Seq::empty())
            }
        } else if b0 <= 21 {
            if b0 == 17 {
                if ops.len() != 1 {
                    None
                } else {
                    Some(#[verifier::truncate] (ops[0] as usize))
                }
            } else {
                spec_dict_walk(s, pos + 1, end, Seq::empty())
            }
        } else if 32 <= b0 <= 246 {
            spec_dict_walk(s, pos + 1, end, ops.push((b0 - 139) as i32))
        } else if 247 <= b0 <= 250 {
            if pos + 1 >= end {
                None
            } else {
                spec_dict_walk(s, pos + 2, end, ops.push(((b0 - 247) * 256 + s[pos + 1] + 108) as i32))
            }
        } else if 251 <= b0 <= 254 {
            if pos + 1 >= end {
                None
            } else {
                spec_dict_walk(s, pos + 2, end, ops.push((-(b0 - 251) * 256 - s[pos + 1] - 108) as i32))
            }
        } else if b0 == 28 {
            if pos + 2 >= end {
                None
            } else {
                spec_dict_walk(s, pos + 3, end, ops.push(signed16(be16(s, pos + 1)) as i32))
            }
        } else if b0 == 29 {
            if pos + 4 >= end {
                None
            } else {
                spec_dict_walk(s, pos + 5, end, ops.push(signed32(be32(s, pos + 1)) as i32))
            }
        } else if b0 == 30 {
            proof {
                lemma_bcd_end_bounds(s, pos + 1, end);
            }
            spec_dict_walk(s, spec_bcd_end(s, pos + 1, end), end, ops)
        } else {
            None
        }
    }
}

/// The CharStrings offset that the Top DICT in `s[dict_start..dict_end]` gives.
pub open spec fn spec_charstrings_offset(s: Seq<u8>, dict_start: int, dict_end: int) -> Option<usize> {
    if dict_start >= dict_end || dict_end > s.len() {
        None
    } else {
        spec_dict_walk(s, dict_start, dict_end, Seq::empty())
    }
}

pub proof fn lemma_bcd_end_bounds(s: Seq<u8>, pos: int, end: int)
    requires
        pos <= end,
    ensures
        pos <= spec_bcd_end(s, pos, end) <= end,
    decreases end - pos,
{
    if pos < end && !(s[pos] / 16 == 15 || s[pos] % 16 == 15) {
        lemma_bcd_end_bounds(s, pos + 1, end);
    }
}

proof fn lemma_bcd_end_local(s: Seq<u8>, a: int, p: int, e: int)
    requires
        0 <= a <= p,
        e <= s.len(),
    ensures
        spec_bcd_end(s, p, e) - a == spec_bcd_end(s.subrange(a, e), p - a, e - a),
    decreases e - p,
{
    if p < e {
        assert(s.subrange(a, e)[p - a] == s[p]);
        if !(s[p] / 16 == 15 || s[p] % 16 == 15) {
            lemma_bcd_end_local(s, a, p + 1, e);
        }
    }
}

proof fn lemma_dict_walk_local(s: Seq<u8>, a: int, pos: int, e: int, ops: Seq<i32>)
    requires
        0 <= a <= pos,
        e <= s.len(),
    ensures
        spec_dict_walk(s, pos, e, ops) == spec_dict_walk(s.subrange(a, e), pos - a, e - a, ops),
    decreases e - pos,
{
    let t = s.subrange(a, e);
    if pos < e {
        let b0 = s[pos];
        assert(t[pos - a] == b0);
        if pos + 1 < e {
            assert(t[pos - a + 1] == s[pos + 1]);
        }
        if pos + 4 < e {
            assert(t[pos - a + 2] == s[pos + 2]);
            assert(t[pos - a + 3] == s[pos + 3]);
            assert(t[pos - a + 4] == s[pos + 4]);
        } else if pos + 2 < e {
            assert(t[pos - a + 2] == s[pos + 2]);
        }
        if b0 == 12 {
            if pos + 1 < e {
                lemma_dict_walk_local(s, a, pos + 2, e, Seq::empty());
            }
        } else if b0 <= 21 {
            if b0 != 17 {
                lemma_dict_walk_local(s, a, pos + 1, e, Seq::empty());
            }
        } else if 32 <= b0 <= 246 {
            lemma_dict_walk_local(s, a, pos + 1, e, ops.push((b0 - 139) as i32));
        } else if 247 <= b0 <= 250 {
            if pos + 1 < e {
                lemma_dict_walk_local(s, a, pos + 2, e, ops.push(((b0 - 247) * 256 + s[pos + 1] + 108) as i32));
            }
        } else if 251 <= b0 <= 254 {
            if pos + 1 < e {
                lemma_dict_walk_local(s, a, pos + 2, e, ops.push((-(b0 - 251) * 256 - s[pos + 1] - 108) as i32));
            }
        } else if b0 == 28 {
            if pos + 2 < e {
                assert(be16(s, pos + 1) == be16(t, pos - a + 1));
                lemma_dict_walk_local(s, a, pos + 3, e, ops.push(signed16(be16(s, pos + 1)) as i32));
            }
        } else if b0 == 29 {
            if pos + 4 < e {
                assert(be32(s, pos + 1) == be32(t, pos - a + 1));
                lemma_dict_walk_local(s, a, pos + 5, e, ops.push(signed32(be32(s, pos + 1)) as i32));
            }
        } else if b0 == 30 {
            lemma_bcd_end_bounds(s, pos + 1, e);
            lemma_bcd_end_local(s, a, pos + 1, e);
            lemma_dict_walk_local(s, a, spec_bcd_end(s, pos + 1, e), e, ops);
        }
    }
}

/// The CharStrings offset depends on the bytes of the DICT range alone:
/// scanning `s[start..end]` on its own gives the same result.
pub proof fn law_dict_scan_is_local(s: Seq<u8>, start: int, end: int)
    requires
        0 <= start < end <= s.len(),
    ensures
        spec_charstrings_offset(s, start, end) == spec_charstrings_offset(s.subrange(start, end), 0, end - start),
{
    lemma_dict_walk_local(s, start, start, end, Seq::empty());
}

/// Parses a Top DICT to find the CharStrings offset (operator 17).
pub fn find_charstrings_offset(data: &[u8], dict_start: usize, dict_end: usize) -> (r: Option<usize>)
    ensures
        r == spec_charstrings_offset(data@, dict_start as int, dict_end as int),
{
    if dict_start >= dict_end || dict_end > data.len() {
        return None;
    }
    let mut pos = dict_start;
    let mut operands: Vec<i32> = Vec::new();
    while pos < dict_end
        invariant
            dict_end <= data@.len(),
            spec_charstrings_offset(data@, dict_start as int, dict_end as int)
                == spec_dict_walk(data@, pos as int, dict_end as int, operands@),
        decreases dict_end - pos,
    {
        let b0 = data[pos];
        if b0 == 12 {
            if pos + 1 >= dict_end {
                return None;
            }
            operands.clear();
            pos += 2;
        } else if b0 <= 21 {
            if b0 == 17 {
                if operands.len() != 1 {
                    return None;
                }
                return Some(#[verifier::truncate] (operands[0] as usize));
            }
            operands.clear();
            pos += 1;
        } else if 32 <= b0 && b0 <= 246 {
            operands.push(b0 as i32 - 139);
            pos += 1;
        } else if 247 <= b0 && b0 <= 250 {
            if pos + 1 >= dict_end {
                return None;
            }
            let val = (b0 as i32 - 247) * 256 + data[pos + 1] as i32 + 108;
            operands.push(val);
            pos += 2;
        } else if 251 <= b0 && b0 <= 254 {
            if pos + 1 >= dict_end {
                return None;
            }
            let val = -(b0 as i32 - 251) * 256 - data[pos + 1] as i32 - 108;
            operands.push(val);
            pos += 2;
        } else if b0 == 28 {
            if dict_end - pos <= 2 {
                return None;
            }
            let raw = get_be16(data, pos + 1) as i32;
            let val = if raw >= 32768 { raw - 65536 } else { raw };
            operands.push(val);
            pos += 3;
        } else if b0 == 29 {
            if dict_end - pos <= 4 {
                return None;
            }
            let raw = get_be32(data, pos + 1);
            let val: i32 = if raw >= 0x8000_0000 {
                (raw - 0x8000_0000) as i32 - 0x4000_0000 - 0x4000_0000
            } else {
                raw as i32
            };
            operands.push(val);
            pos += 5;
        } else if b0 == 30 {
            pos += 1;
            proof {
                lemma_bcd_end_bounds(data@, pos as int, dict_end as int);
            }
            let ghost target = spec_bcd_end(data@, pos as int, dict_end as int);
            while pos < dict_end
                invariant_except_break
                    spec_bcd_end(data@, pos as int, dict_end as int) == target,
                invariant
                    dict_end <= data@.len(),
                    pos <= dict_end,
                ensures
                    pos == target,
                decreases dict_end - pos,
            {
                let byte = data[pos];
                pos += 1;
                let high = byte / 16;
                let low = byte % 16;
                if high == 15 || low == 15 {
                    break;
                }
            }
        } else {
            return None;
        }
    }
    None
}


/// The `i`-th offset of the INDEX `info` (1-based into its data).
pub open spec fn cs_offset(s: Seq<u8>, info: IndexInfo, i: int) -> int {
    spec_read_offset(s, info.offsets_start + i * info.off_size, info.off_size as int)
}

/// `x - 1`, saturating at 0.
pub open spec fn sat1(x: int) -> int {
    if x >= 1 { x - 1 } else { 0 }
}

/// Start of charstring `i`, relative to the INDEX at `abs`.
pub open spec fn cs_start(s: Seq<u8>, abs: int, info: IndexInfo, i: int) -> int {
    (info.data_start - abs) + sat1(cs_offset(s, info, i))
}

/// End of charstring `i`, relative to the INDEX at `abs`.
pub open spec fn cs_end(s: Seq<u8>, abs: int, info: IndexInfo, i: int) -> int {
    (info.data_start - abs) + sat1(cs_offset(s, info, i + 1))
}

/// Charstring `i` is a non-empty range inside the data from `abs` on.
pub open spec fn cs_valid(s: Seq<u8>, abs: int, info: IndexInfo, i: int) -> bool {
    let l = s.len() - abs;
    !(cs_start(s, abs, info, i) >= l || cs_end(s, abs, info, i) > l || cs_start(s, abs, info, i)
        >= cs_end(s, abs, info, i))
}

/// The bytes of charstring `i`.
pub open spec fn cs_bytes(s: Seq<u8>, abs: int, info: IndexInfo, i: int) -> Seq<u8> {
    s.subrange(abs + cs_start(s, abs, info, i), abs + cs_end(s, abs, info, i))
}

/// The length charstring `i` keeps: up to its endchar, all of it where no end
/// is found, and 0 where it is no valid range.
pub open spec fn cs_new_len(s: Seq<u8>, abs: int, info: IndexInfo, i: int) -> int {
    if cs_valid(s, abs, info, i) {
        match spec_charstring_end(cs_bytes(s, abs, info, i)) {
            Some(n) => n,
            None => cs_bytes(s, abs, info, i).len() as int,
        }
    } else {
        0
    }
}

/// Charstring `i` carries data after its end.
pub open spec fn cs_truncated(s: Seq<u8>, abs: int, info: IndexInfo, i: int) -> bool {
    cs_valid(s, abs, info, i) && cs_new_len(s, abs, info, i) < cs_bytes(s, abs, info, i).len()
}

/// Some charstring of the INDEX carries data after its end.
pub open spec fn any_truncated(s: Seq<u8>, abs: int, info: IndexInfo) -> bool {
    exists|i: int| 0 <= i < info.count && cs_truncated(s, abs, info, i)
}

/// Sum of the kept lengths of the first `n` charstrings.
pub open spec fn new_len_sum(s: Seq<u8>, abs: int, info: IndexInfo, n: int) -> int
    decreases n,
{
    if n <= 0 {
        0
    } else {
        new_len_sum(s, abs, info, n - 1) + cs_new_len(s, abs, info, n - 1)
    }
}

/// The smallest offset size that holds `total + 1`.
pub open spec fn new_off_size(total: int) -> int {
    if total + 1 < 256 {
        1
    } else if total + 1 < 65536 {
        2
    } else if total + 1 < 16777216 {
        3
    } else {
        4
    }
}

/// `v` written big-endian in `size` bytes, higher bytes dropped.
pub open spec fn encode_offset(v: int, size: int) -> Seq<u8> {
    if size == 1 {
        seq![(v % 256) as u8]
    } else if size == 2 {
        seq![(v / 256 % 256) as u8, (v % 256) as u8]
    } else if size == 3 {
        seq![(v / 65536 % 256) as u8, (v / 256 % 256) as u8, (v % 256) as u8]
    } else {
        seq![
            (v / 16777216 % 256) as u8,
            (v / 65536 % 256) as u8,
            (v / 256 % 256) as u8,
            (v % 256) as u8,
        ]
    }
}

/// The first `n` offsets of the rebuilt INDEX, each `size` bytes.
pub open spec fn offsets_bytes(s: Seq<u8>, abs: int, info: IndexInfo, size: int, n: int) -> Seq<u8>
    decreases n,
{
    if n <= 0 {
        Seq::empty()
    } else {
        offsets_bytes(s, abs, info, size, n - 1) + encode_offset(
            1 + new_len_sum(s, abs, info, n - 1),
            size,
        )
    }
}

/// The kept part of charstring `i`.
pub open spec fn kept_bytes(s: Seq<u8>, abs: int, info: IndexInfo, i: int) -> Seq<u8> {
    if cs_new_len(s, abs, info, i) > 0 {
        s.subrange(
            abs + cs_start(s, abs, info, i),
            abs + cs_start(s, abs, info, i) + cs_new_len(s, abs, info, i),
        )
    } else {
        Seq::empty()
    }
}

/// The kept parts of the first `n` charstrings, one after another.
pub open spec fn body_bytes(s: Seq<u8>, abs: int, info: IndexInfo, n: int) -> Seq<u8>
    decreases n,
{
    if n <= 0 {
        Seq::empty()
    } else {
        body_bytes(s, abs, info, n - 1) + kept_bytes(s, abs, info, n - 1)
    }
}

/// The rebuilt CharStrings INDEX: count, offset size, offsets, kept charstrings.
pub open spec fn rebuilt_index(s: Seq<u8>, abs: int, info: IndexInfo) -> Seq<u8> {
    let total = new_len_sum(s, abs, info, info.count as int);
    let size = new_off_size(total);
    seq![(info.count / 256) as u8, (info.count % 256) as u8, size as u8] + offsets_bytes(
        s,
        abs,
        info,
        size,
        info.count + 1,
    ) + body_bytes(s, abs, info, info.count as int)
}

/// The font data once the CharStrings INDEX at `abs` is rebuilt with every
/// charstring cut after its endchar, and zeros pad it to its old size; `None`
/// where there is no well formed INDEX there, no charstring to cut, or the new
/// INDEX would not fit in memory.
pub open spec fn spec_rebuild(s: Seq<u8>, abs: int) -> Option<Seq<u8>> {
    if abs >= s.len() {
        None
    } else {
        match spec_index_info(s, abs) {
            None => None,
            Some(info) => {
                if !any_truncated(s, abs, info) {
                    None
                } else {
                    let total = new_len_sum(s, abs, info, info.count as int);
                    let size = new_off_size(total);
                    if 3 + (info.count + 1) * size + total > usize::MAX {
                        None
                    } else {
                        let idx = rebuilt_index(s, abs, info);
                        let pad = if info.index_size >= idx.len() {
                            info.index_size - idx.len()
                        } else {
                            0
                        };
                        Some(
                            s.take(abs) + idx + Seq::new(pad as nat, |k: int| 0u8) + s.skip(
                                abs + info.index_size,
                            ),
                        )
                    }
                }
            }
        }
    }
}

proof fn lemma_mul_le(i: int, n: int, off: int)
    requires
        0 <= i <= n,
        0 <= off,
    ensures
        i * off <= n * off,
        0 <= i * off,
{
    assert(i * off <= n * off) by (nonlinear_arith)
        requires
            0 <= i <= n,
            0 <= off,
    ;
    assert(0 <= i * off) by (nonlinear_arith)
        requires
            0 <= i,
            0 <= off,
    ;
}

proof fn lemma_new_len_sum_mono(s: Seq<u8>, abs: int, info: IndexInfo, i: int, j: int)
    requires
        0 <= i <= j,
        forall|k: int| 0 <= k < j ==> cs_new_len(s, abs, info, k) >= 0,
    ensures
        new_len_sum(s, abs, info, i) <= new_len_sum(s, abs, info, j),
    decreases j - i,
{
    if i < j {
        lemma_new_len_sum_mono(s, abs, info, i, j - 1);
    }
}

proof fn lemma_cs_new_len_bounds(s: Seq<u8>, abs: int, info: IndexInfo, i: int)
    requires
        0 <= abs < s.len(),
    ensures
        0 <= cs_new_len(s, abs, info, i),
        cs_valid(s, abs, info, i) ==> cs_new_len(s, abs, info, i) <= cs_end(s, abs, info, i)
            - cs_start(s, abs, info, i),
{
    if cs_valid(s, abs, info, i) {
        lemma_charstring_walk_ends_at_endchar(cs_bytes(s, abs, info, i), 0, 0, 0);
    }
}

/// Appends `value` written big-endian in `size` bytes (1 to 4), higher bytes dropped.
fn push_offset(v: &mut Vec<u8>, value: usize, size: usize)
    requires
        1 <= size <= 4,
    ensures
        final(v)@ == old(v)@ + encode_offset(value as int, size as int),
{
    if size == 4 {
        v.push((value / 16777216 % 256) as u8);
    }
    if size >= 3 {
        v.push((value / 65536 % 256) as u8);
    }
    if size >= 2 {
        v.push((value / 256 % 256) as u8);
    }
    v.push((value % 256) as u8);
    assert(final(v)@ =~= old(v)@ + encode_offset(value as int, size as int));
}

/// Facts that the steps of a rebuild share: a well formed INDEX of at least
/// one charstring at `abs`, inside `s`.
pub open spec fn rebuild_ctx(s: Seq<u8>, abs: int, info: IndexInfo) -> bool {
    &&& 0 <= abs < s.len()
    &&& s.len() <= usize::MAX
    &&& index_info_wf(s, abs, info)
    &&& info.count > 0
    &&& spec_index_info(s, abs) == Some(info)
}

/// Reads the `count + 1` offsets of the INDEX `info`.
fn read_index_offsets(data: &[u8], abs: usize, info: IndexInfo) -> (offsets: Vec<usize>)
    requires
        rebuild_ctx(data@, abs as int, info),
    ensures
        offsets@.len() == info.count + 1,
        forall|j: int| 0 <= j <= info.count ==> offsets@[j] == cs_offset(data@, info, j),
{
    let count = info.count;
    let off_size = info.off_size;
    let mut offsets: Vec<usize> = Vec::new();
    let mut i: usize = 0;
    while i <= count
        invariant
            rebuild_ctx(data@, abs as int, info),
            count == info.count,
            off_size == info.off_size,
            i <= count + 1,
            offsets@.len() == i,
            forall|j: int| 0 <= j < i ==> offsets@[j] == cs_offset(data@, info, j),
        decreases count + 1 - i,
    {
        proof {
            lemma_mul_le(i as int, count as int + 1, off_size as int);
            lemma_mul_bound(count as int, off_size as int);
        }
        let o = read_offset(data, info.offsets_start + i * off_size, off_size);
        offsets.push(o);
        i += 1;
    }
    offsets
}

/// The kept length of charstring `i` and whether it is cut.
fn charstring_kept_len(data: &[u8], abs: usize, info: IndexInfo, offsets: &Vec<usize>, i: usize) -> (r: (
    usize,
    bool,
))
    requires
        rebuild_ctx(data@, abs as int, info),
        i < info.count,
        offsets@.len() == info.count + 1,
        forall|j: int| 0 <= j <= info.count ==> offsets@[j] == cs_offset(data@, info, j),
    ensures
        r.0 == cs_new_len(data@, abs as int, info, i as int),
        r.1 == cs_truncated(data@, abs as int, info, i as int),
{
    proof {
        lemma_cs_new_len_bounds(data@, abs as int, info, i as int);
    }
    let index_len = data.len() - abs;
    let dsr = info.data_start - abs;
    let room = index_len - dsr;
    let o1 = if offsets[i] >= 1 { offsets[i] - 1 } else { 0 };
    let o2 = if offsets[i + 1] >= 1 { offsets[i + 1] - 1 } else { 0 };
    if o1 < room && o2 <= room && o1 < o2 {
        let cs = copy_range(data, abs + dsr + o1, abs + dsr + o2);
        let nl = match find_charstring_end(cs.as_slice()) {
            Some(n) => n,
            None => cs.len(),
        };
        (nl, nl < cs.len())
    } else {
        (0, false)
    }
}

/// The kept lengths of all charstrings, their sum, and whether any is cut;
/// `None` where the sum does not fit in `usize`.
fn kept_lengths(data: &[u8], abs: usize, info: IndexInfo, offsets: &Vec<usize>) -> (r: Option<(Vec<usize>, usize, bool)>)
    requires
        rebuild_ctx(data@, abs as int, info),
        offsets@.len() == info.count + 1,
        forall|j: int| 0 <= j <= info.count ==> offsets@[j] == cs_offset(data@, info, j),
    ensures
        r is None ==> new_len_sum(data@, abs as int, info, info.count as int) > usize::MAX,
        r matches Some(t) ==> {
            &&& t.0@.len() == info.count
            &&& forall|j: int| 0 <= j < info.count ==> t.0@[j] == cs_new_len(data@, abs as int, info, j)
            &&& t.1 == new_len_sum(data@, abs as int, info, info.count as int)
            &&& t.2 == any_truncated(data@, abs as int, info)
        },
{
    let count = info.count;
    let ghost s = data@;
    let mut new_lengths: Vec<usize> = Vec::new();
    let mut total: usize = 0;
    let mut truncated = false;
    let mut i: usize = 0;
    while i < count
        invariant
            rebuild_ctx(s, abs as int, info),
            data@ == s,
            count == info.count,
            offsets@.len() == count + 1,
            forall|j: int| 0 <= j <= count ==> offsets@[j] == cs_offset(s, info, j),
            i <= count,
            new_lengths@.len() == i,
            forall|j: int| 0 <= j < i ==> new_lengths@[j] == cs_new_len(s, abs as int, info, j),
            total == new_len_sum(s, abs as int, info, i as int),
            truncated == exists|j: int| 0 <= j < i && cs_truncated(s, abs as int, info, j),
        decreases count - i,
    {
        let (nl, cut) = charstring_kept_len(data, abs, info, offsets, i);
        if cut {
            truncated = true;
        }
        if nl > usize::MAX - total {
            proof {
                assert forall|k: int| 0 <= k < count implies cs_new_len(s, abs as int, info, k) >= 0 by {
                    lemma_cs_new_len_bounds(s, abs as int, info, k);
                }
                lemma_new_len_sum_mono(s, abs as int, info, i as int + 1, count as int);
            }
            return None;
        }
        new_lengths.push(nl);
        total = total + nl;
        i += 1;
    }
    Some((new_lengths, total, truncated))
}

/// Appends the `count + 1` offsets of the rebuilt INDEX.
fn push_new_offsets(idx: &mut Vec<u8>, data: &[u8], abs: usize, info: IndexInfo, new_lengths: &Vec<usize>, total: usize, size: usize)
    requires
        rebuild_ctx(data@, abs as int, info),
        1 <= size <= 4,
        new_lengths@.len() == info.count,
        forall|j: int| 0 <= j < info.count ==> new_lengths@[j] == cs_new_len(data@, abs as int, info, j),
        total == new_len_sum(data@, abs as int, info, info.count as int),
        total < usize::MAX,
    ensures
        final(idx)@ == old(idx)@ + offsets_bytes(data@, abs as int, info, size as int, info.count + 1),
{
    let ghost s = data@;
    let ghost head = idx@;
    let count = info.count;
    proof {
        assert forall|k: int| 0 <= k < count implies cs_new_len(s, abs as int, info, k) >= 0 by {
            lemma_cs_new_len_bounds(s, abs as int, info, k);
        }
    }
    let mut cur: usize = 1;
    let mut i: usize = 0;
    while i <= count
        invariant
            rebuild_ctx(s, abs as int, info),
            count == info.count,
            1 <= size <= 4,
            new_lengths@.len() == count,
            forall|j: int| 0 <= j < count ==> new_lengths@[j] == cs_new_len(s, abs as int, info, j),
            forall|k: int| 0 <= k < count ==> cs_new_len(s, abs as int, info, k) >= 0,
            total == new_len_sum(s, abs as int, info, count as int),
            total < usize::MAX,
            i <= count + 1,
            i <= count ==> cur == 1 + new_len_sum(s, abs as int, info, i as int),
            idx@ == head + offsets_bytes(s, abs as int, info, size as int, i as int),
        decreases count + 1 - i,
    {
        push_offset(idx, cur, size);
        assert(idx@ =~= head + offsets_bytes(s, abs as int, info, size as int, i as int + 1));
        if i < count {
            proof {
                lemma_new_len_sum_mono(s, abs as int, info, i as int + 1, count as int);
            }
            cur = cur + new_lengths[i];
        }
        i += 1;
    }
}

/// Appends the kept parts of all charstrings.
fn push_kept_charstrings(idx: &mut Vec<u8>, data: &[u8], abs: usize, info: IndexInfo, offsets: &Vec<usize>, new_lengths: &Vec<usize>)
    requires
        rebuild_ctx(data@, abs as int, info),
        offsets@.len() == info.count + 1,
        forall|j: int| 0 <= j <= info.count ==> offsets@[j] == cs_offset(data@, info, j),
        new_lengths@.len() == info.count,
        forall|j: int| 0 <= j < info.count ==> new_lengths@[j] == cs_new_len(data@, abs as int, info, j),
    ensures
        final(idx)@ == old(idx)@ + body_bytes(data@, abs as int, info, info.count as int),
{
    let ghost s = data@;
    let ghost head = idx@;
    let count = info.count;
    let dsr = info.data_start - abs;
    let mut i: usize = 0;
    while i < count
        invariant
            rebuild_ctx(s, abs as int, info),
            data@ == s,
            count == info.count,
            dsr == info.data_start - abs,
            offsets@.len() == count + 1,
            forall|j: int| 0 <= j <= count ==> offsets@[j] == cs_offset(s, info, j),
            new_lengths@.len() == count,
            forall|j: int| 0 <= j < count ==> new_lengths@[j] == cs_new_len(s, abs as int, info, j),
            i <= count,
            idx@ == head + body_bytes(s, abs as int, info, i as int),
        decreases count - i,
    {
        proof {
            lemma_cs_new_len_bounds(s, abs as int, info, i as int);
        }
        let nl = new_lengths[i];
        if nl > 0 {
            let o1 = if offsets[i] >= 1 { offsets[i] - 1 } else { 0 };
            let from = abs + dsr + o1;
            let ghost before = idx@;
            let mut k: usize = 0;
            while k < nl
                invariant
                    data@ == s,
                    s.len() <= usize::MAX,
                    from + nl <= s.len(),
                    k <= nl,
                    idx@ == before + s.subrange(from as int, from + k),
                decreases nl - k,
            {
                idx.push(data[from + k]);
                assert(s.subrange(from as int, from + k + 1) =~= s.subrange(from as int, from + k).push(
                    s[from + k],
                ));
                k += 1;
            }
        }
        assert(idx@ =~= head + body_bytes(s, abs as int, info, i as int + 1));
        i += 1;
    }
}

/// Rebuilds the CFF CharStrings INDEX at `cff_offset + charstrings_offset`,
/// cutting each charstring after its endchar; returns whether it rewrote
/// `data`. The rewritten INDEX is padded with zeros to its old size. An
/// offset past the end of `data`, or one whose sum overflows, leaves `data`
/// as it is.
#[verifier::rlimit(60)]
#[verifier::spinoff_prover]
pub fn rebuild_charstrings_index_at(data: &mut Vec<u8>, cff_offset: usize, charstrings_offset: usize) -> (r: bool)
    ensures
        r == spec_rebuild(old(data)@, cff_offset + charstrings_offset) is Some,
        r ==> spec_rebuild(old(data)@, cff_offset + charstrings_offset) == Some(final(data)@),
        !r ==> final(data)@ == old(data)@,
{
    let abs = match cff_offset.checked_add(charstrings_offset) {
        Some(a) => a,
        None => {
            let len = data.len();
            assert(cff_offset + charstrings_offset >= len);
            return false;
        },
    };
    let len = data.len();
    if abs >= len {
        return false;
    }
    let ghost s = data@;
    let info = match find_index_data_info(data.as_slice(), abs) {
        Some(info) => info,
        None => return false,
    };
    let count = info.count;
    if count == 0 {
        assert(!any_truncated(s, abs as int, info));
        return false;
    }
    let offsets = read_index_offsets(data.as_slice(), abs, info);
    let (new_lengths, total, truncated) = match kept_lengths(data.as_slice(), abs, info, &offsets) {
        Some(t) => t,
        None => {
            proof {
                lemma_mul_bound(count as int, new_off_size(new_len_sum(s, abs as int, info, count as int)));
            }
            return false;
        },
    };
    if !truncated {
        return false;
    }
    let size: usize = if total < 255 {
        1
    } else if total < 65535 {
        2
    } else if total < 16777215 {
        3
    } else {
        4
    };
    proof {
        lemma_mul_bound(count as int, size as int);
    }
    let header = 3 + (count + 1) * size;
    if total > usize::MAX - header {
        return false;
    }
    let mut idx: Vec<u8> = Vec::new();
    idx.push((count / 256) as u8);
    idx.push((count % 256) as u8);
    idx.push(size as u8);
    push_new_offsets(&mut idx, data.as_slice(), abs, info, &new_lengths, total, size);
    push_kept_charstrings(&mut idx, data.as_slice(), abs, info, &offsets, &new_lengths);
    assert(idx@ =~= rebuilt_index(s, abs as int, info));
    let old_size = info.index_size;
    let pad = if old_size >= idx.len() { old_size - idx.len() } else { 0 };
    let mut out: Vec<u8> = copy_range(data.as_slice(), 0, abs);
    out.append(&mut idx);
    let ghost b = out@;
    let mut k: usize = 0;
    while k < pad
        invariant
            k <= pad,
            out@ == b + Seq::new(k as nat, |q: int| 0u8),
        decreases pad - k,
    {
        out.push(0u8);
        assert(out@ =~= b + Seq::new((k + 1) as nat, |q: int| 0u8));
        k += 1;
    }
    let mut tail = copy_range(data.as_slice(), abs + old_size, len);
    out.append(&mut tail);
    assert(s.take(abs as int) =~= s.subrange(0, abs as int));
    assert(s.skip(abs + old_size) =~= s.subrange(abs + old_size, len as int));
    *data = out;
    true
}

/// Where a font's CFF table lies and the CharStrings offset its Top DICT gives:
/// the table from the directory, past its header and Name INDEX to the Top
/// DICT INDEX, whose data is the DICT.
pub open spec fn spec_cff_location(s: Seq<u8>) -> Option<(int, usize)> {
    match spec_find_table(s, CFF_TAG as int) {
        None => None,
        Some(t) => {
            let off = t.0;
            if off >= s.len() {
                None
            } else {
                let cff = s.skip(off);
                if cff.len() < 4 {
                    None
                } else {
                    let header_size = if cff[2] < 4 { 4 } else { cff[2] as int };
                    match spec_skip_index(cff, header_size) {
                        None => None,
                        Some(pos) => match spec_index_info(cff, pos) {
                            None => None,
                            Some(info) => match spec_charstrings_offset(
                                cff,
                                info.data_start as int,
                                info.data_start + info.data_length,
                            ) {
                                None => None,
                                Some(c) => Some((off, c)),
                            },
                        },
                    }
                }
            }
        },
    }
}

/// The repaired font: its CharStrings INDEX rebuilt as `spec_rebuild` says;
/// `None` where the CFF table cannot be followed to it, where the offset runs
/// past the address space, or where nothing needs a cut.
pub open spec fn spec_fix_cff(s: Seq<u8>) -> Option<Seq<u8>> {
    match spec_cff_location(s) {
        None => None,
        Some(loc) => if loc.0 + loc.1 > usize::MAX {
            None
        } else {
            spec_rebuild(s, loc.0 + loc.1)
        },
    }
}

/// Repairs a CFF font in place by cutting its charstrings after their
/// endchar; `Some(())` where the font was rewritten.
pub fn fix_cff_font(data: &mut Vec<u8>) -> (r: Option<()>)
    ensures
        r is Some <==> spec_fix_cff(old(data)@) is Some,
        r is Some ==> spec_fix_cff(old(data)@) == Some(final(data)@),
        r is None ==> final(data)@ == old(data)@,
{
    let (cff_offset, _) = match find_table(data.as_slice(), CFF_TAG) {
        Some(t) => t,
        None => return None,
    };
    let len = data.len();
    if cff_offset >= len {
        return None;
    }
    let cff = copy_range(data.as_slice(), cff_offset, len);
    if cff.len() < 4 {
        return None;
    }
    let header_size: usize = if (cff[2] as usize) < 4 { 4 } else { cff[2] as usize };
    let pos = match skip_index(cff.as_slice(), header_size) {
        Some(p) => p,
        None => return None,
    };
    let info = match find_index_data_info(cff.as_slice(), pos) {
        Some(i) => i,
        None => return None,
    };
    let dict_start = info.data_start;
    let dict_end = info.data_start + info.data_length;
    let charstrings_offset = match find_charstrings_offset(cff.as_slice(), dict_start, dict_end) {
        Some(o) => o,
        None => return None,
    };
    if charstrings_offset > usize::MAX - cff_offset {
        return None;
    }
    if rebuild_charstrings_index_at(data, cff_offset, charstrings_offset) {
        Some(())
    } else {
        None
    }
}

/// Checks whether an error message tells of CFF charstring trouble.
pub fn is_cff_charstring_error(error: &str) -> (r: bool)
    ensures
        r == (contains(error@, "CFF"@) || contains(error@, "endchar"@) || contains(error@, "unused data"@)),
{
    str_contains(error, "CFF") || str_contains(error, "endchar") || str_contains(error, "unused data")
}

proof fn lemma_walk_prefix(s: Seq<u8>, n: int, pos: int, stems: nat, args: nat)
    requires
        0 <= pos,
        spec_charstring_walk(s, pos, stems, args) == Some(n),
        1 <= n <= s.len(),
        s[n - 1] == ENDCHAR,
    ensures
        spec_charstring_walk(s.take(n), pos, stems, args) == Some(n),
    decreases s.len() - pos,
{
    let t = s.take(n);
    assert(t.len() == n);
    assert(t[n - 1] == ENDCHAR);
    assert(spec_endchar_fallback(t, 0) == Some(n));
    assert(spec_endchar_fallback(t, pos) == Some(n));
    if pos < s.len() && pos < n {
        let b = s[pos];
        assert(t[pos] == b);
        if b == ENDCHAR {
        } else if b == 19 || b == 20 {
            let st: nat = stems + args / 2;
            let hint = hint_mask_bytes(st);
            if pos + 1 + hint <= s.len() {
                lemma_walk_prefix(s, n, pos + 1 + hint, st as nat, 0);
            }
        } else if is_stem_op(b) {
            lemma_walk_prefix(s, n, pos + 1, stems + args / 2, 0);
        } else if b == 12 {
            if pos + 1 < s.len() {
                lemma_walk_prefix(s, n, pos + 2, stems, 0);
            }
        } else if is_plain_op(b) || is_reserved_op(b) {
            lemma_walk_prefix(s, n, pos + 1, stems, 0);
        } else if pos + operand_size(b) < s.len() {
            lemma_walk_prefix(s, n, pos + operand_size(b), stems, args + 1);
        }
    }
}

/// A charstring cut just after its end ends at the same place.
proof fn lemma_charstring_end_prefix(b: Seq<u8>)
    requires
        spec_charstring_end(b) is Some,
    ensures
        spec_charstring_end(b.take(spec_charstring_end(b)->Some_0)) == spec_charstring_end(b),
{
    lemma_charstring_walk_ends_at_endchar(b, 0, 0, 0);
    lemma_walk_prefix(b, spec_charstring_end(b)->Some_0, 0, 0, 0);
}

/// The largest offset that `size` bytes hold, plus one.
pub open spec fn offset_limit(size: int) -> int {
    if size == 1 {
        0x100
    } else if size == 2 {
        0x10000
    } else if size == 3 {
        0x100_0000
    } else {
        0x1_0000_0000
    }
}

proof fn lemma_encode_decode(v: int, size: int)
    requires
        1 <= size <= 4,
        0 <= v < offset_limit(size),
    ensures
        encode_offset(v, size).len() == size,
        spec_read_offset(encode_offset(v, size), 0, size) == v,
{
    let x = v as u32;
    if size == 2 {
        assert((x / 256 % 256) * 256 + x % 256 == x) by (bit_vector)
            requires
                x < 0x10000,
        ;
    } else if size == 3 {
        assert((x / 65536 % 256) * 65536 + (x / 256 % 256) * 256 + x % 256 == x) by (bit_vector)
            requires
                x < 0x100_0000,
        ;
    } else if size == 4 {
        assert((x / 16777216 % 256) * 16777216 + (x / 65536 % 256) * 65536 + (x / 256 % 256) * 256 + x % 256 == x)
            by (bit_vector);
    }
}

proof fn lemma_read_offset_at(t: Seq<u8>, p: int, e: Seq<u8>, size: int)
    requires
        1 <= size <= 4,
        0 <= p,
        p + size <= t.len(),
        e.len() == size,
        t.subrange(p, p + size) == e,
    ensures
        spec_read_offset(t, p, size) == spec_read_offset(e, 0, size),
{
    assert(t[p] == e[0]);
    if size >= 2 {
        assert(t[p + 1] == e[1]);
    }
    if size >= 3 {
        assert(t[p + 2] == e[2]);
    }
    if size >= 4 {
        assert(t[p + 3] == e[3]);
    }
}

proof fn lemma_kept(s: Seq<u8>, abs: int, info: IndexInfo, i: int)
    requires
        0 <= abs,
        info.data_start >= abs,
    ensures
        0 <= cs_new_len(s, abs, info, i),
        kept_bytes(s, abs, info, i).len() == cs_new_len(s, abs, info, i),
        cs_new_len(s, abs, info, i) > 0 ==> cs_valid(s, abs, info, i) && kept_bytes(s, abs, info, i) == cs_bytes(
            s,
            abs,
            info,
            i,
        ).take(cs_new_len(s, abs, info, i)),
{
    if cs_valid(s, abs, info, i) {
        let bytes = cs_bytes(s, abs, info, i);
        lemma_charstring_walk_ends_at_endchar(bytes, 0, 0, 0);
        if cs_new_len(s, abs, info, i) > 0 {
            assert(kept_bytes(s, abs, info, i) =~= bytes.take(cs_new_len(s, abs, info, i)));
        }
    }
}

proof fn lemma_body(s: Seq<u8>, abs: int, info: IndexInfo, n: int)
    requires
        0 <= abs,
        info.data_start >= abs,
        0 <= n,
    ensures
        body_bytes(s, abs, info, n).len() == new_len_sum(s, abs, info, n),
        forall|i: int| 0 <= i <= n ==> 0 <= #[trigger] new_len_sum(s, abs, info, i) <= new_len_sum(s, abs, info, n),
        forall|i: int|
            0 <= i < n ==> body_bytes(s, abs, info, n).subrange(
                new_len_sum(s, abs, info, i),
                new_len_sum(s, abs, info, i) + cs_new_len(s, abs, info, i),
            ) == #[trigger] kept_bytes(s, abs, info, i),
    decreases n,
{
    if n > 0 {
        lemma_body(s, abs, info, n - 1);
        lemma_kept(s, abs, info, n - 1);
        let prev = body_bytes(s, abs, info, n - 1);
        let now = body_bytes(s, abs, info, n);
        assert forall|i: int| 0 <= i < n implies now.subrange(
            new_len_sum(s, abs, info, i),
            new_len_sum(s, abs, info, i) + cs_new_len(s, abs, info, i),
        ) == #[trigger] kept_bytes(s, abs, info, i) by {
            lemma_kept(s, abs, info, i);
            if i < n - 1 {
                assert(new_len_sum(s, abs, info, i + 1) == new_len_sum(s, abs, info, i) + cs_new_len(s, abs, info, i));
                assert(new_len_sum(s, abs, info, i + 1) <= new_len_sum(s, abs, info, n - 1));
                assert(now.subrange(
                    new_len_sum(s, abs, info, i),
                    new_len_sum(s, abs, info, i) + cs_new_len(s, abs, info, i),
                ) =~= prev.subrange(
                    new_len_sum(s, abs, info, i),
                    new_len_sum(s, abs, info, i) + cs_new_len(s, abs, info, i),
                ));
            } else {
                assert(now.subrange(
                    new_len_sum(s, abs, info, i),
                    new_len_sum(s, abs, info, i) + cs_new_len(s, abs, info, i),
                ) =~= kept_bytes(s, abs, info, i));
            }
        }
    }
}

proof fn lemma_offsets(s: Seq<u8>, abs: int, info: IndexInfo, size: int, n: int)
    requires
        1 <= size <= 4,
        0 <= n,
    ensures
        offsets_bytes(s, abs, info, size, n).len() == n * size,
        forall|i: int|
            0 <= i < n ==> offsets_bytes(s, abs, info, size, n).subrange(i * size, i * size + size) == #[trigger] encode_offset(
                1 + new_len_sum(s, abs, info, i),
                size,
            ),
    decreases n,
{
    if n > 0 {
        lemma_offsets(s, abs, info, size, n - 1);
        let prev = offsets_bytes(s, abs, info, size, n - 1);
        let now = offsets_bytes(s, abs, info, size, n);
        assert(encode_offset(1 + new_len_sum(s, abs, info, n - 1), size).len() == size);
        assert((n - 1) * size + size == n * size) by (nonlinear_arith);
        assert forall|i: int| 0 <= i < n implies now.subrange(i * size, i * size + size) == #[trigger] encode_offset(
            1 + new_len_sum(s, abs, info, i),
            size,
        ) by {
            if i < n - 1 {
                assert(i * size + size <= (n - 1) * size) by (nonlinear_arith)
                    requires
                        i < n - 1,
                        0 <= i,
                        1 <= size,
                ;
                assert(0 <= i * size) by (nonlinear_arith)
                    requires
                        0 <= i,
                        1 <= size,
                ;
                assert(now.subrange(i * size, i * size + size) =~= prev.subrange(i * size, i * size + size));
            } else {
                assert(now.subrange(i * size, i * size + size) =~= encode_offset(1 + new_len_sum(s, abs, info, i), size));
            }
        }
    } else {
        assert(0 * size == 0) by (nonlinear_arith);
    }
}

/// The layout of the rebuilt CharStrings INDEX at `abs`.
pub open spec fn rebuilt_info(s: Seq<u8>, abs: int, info: IndexInfo) -> IndexInfo {
    let total = new_len_sum(s, abs, info, info.count as int);
    let size = new_off_size(total);
    IndexInfo {
        count: info.count,
        off_size: size as usize,
        offsets_start: (abs + 3) as usize,
        data_start: (abs + 3 + (info.count + 1) * size) as usize,
        data_length: total as usize,
        index_size: (3 + (info.count + 1) * size + total) as usize,
    }
}

/// The facts the rest of the argument needs about a rebuild: the INDEX that
/// was read, the data that came out, and the rebuilt INDEX inside it.
pub open spec fn rebuild_setting(s: Seq<u8>, abs: int, info: IndexInfo, t: Seq<u8>) -> bool {
    &&& 0 <= abs < s.len()
    &&& spec_index_info(s, abs) == Some(info)
    &&& spec_rebuild(s, abs) == Some(t)
    &&& t.len() <= usize::MAX
    &&& new_len_sum(s, abs, info, info.count as int) + 1 < 0x1_0000_0000
}

proof fn lemma_rebuilt_bytes(s: Seq<u8>, abs: int, info: IndexInfo, t: Seq<u8>)
    requires
        rebuild_setting(s, abs, info, t),
    ensures
        ({
            let total = new_len_sum(s, abs, info, info.count as int);
            let size = new_off_size(total);
            let idx = rebuilt_index(s, abs, info);
            &&& 1 <= info.count <= 65535
            &&& 1 <= size <= 4
            &&& 0 <= total
            &&& total + 1 < offset_limit(size)
            &&& info.data_start >= abs
            &&& idx.len() == 3 + (info.count + 1) * size + total
            &&& abs + idx.len() <= t.len()
            &&& t.subrange(abs, abs + idx.len()) == idx
            &&& forall|i: int| 0 <= i <= info.count ==> 0 <= #[trigger] new_len_sum(s, abs, info, i) <= total
        }),
{
    let total = new_len_sum(s, abs, info, info.count as int);
    let size = new_off_size(total);
    let idx = rebuilt_index(s, abs, info);
    let count = info.count as int;
    assert(count >= 1) by {
        let i = choose|i: int| 0 <= i < info.count && cs_truncated(s, abs, info, i);
    }
    assert(count <= 65535);
    lemma_mul_bound(count, s[abs + 2] as int);
    assert(info.data_start >= abs);
    lemma_body(s, abs, info, count);
    lemma_offsets(s, abs, info, size, count + 1);
    assert(idx.len() == 3 + (count + 1) * size + total);
    let pad = if info.index_size >= idx.len() { info.index_size - idx.len() } else { 0 };
    assert(t == s.take(abs) + idx + Seq::new(pad as nat, |k: int| 0u8) + s.skip(abs + info.index_size));
    assert(t.subrange(abs, abs + idx.len()) =~= idx);
}

#[verifier::spinoff_prover]
#[verifier::rlimit(40)]
proof fn lemma_rebuilt_offsets(s: Seq<u8>, abs: int, info: IndexInfo, t: Seq<u8>, i: int)
    requires
        rebuild_setting(s, abs, info, t),
        0 <= i <= info.count,
    ensures
        ({
            let size = new_off_size(new_len_sum(s, abs, info, info.count as int));
            &&& abs + 3 + i * size + size <= t.len()
            &&& spec_read_offset(t, abs + 3 + i * size, size) == 1 + new_len_sum(s, abs, info, i)
        }),
{
    lemma_rebuilt_bytes(s, abs, info, t);
    let total = new_len_sum(s, abs, info, info.count as int);
    let size = new_off_size(total);
    let idx = rebuilt_index(s, abs, info);
    let count = info.count as int;
    lemma_offsets(s, abs, info, size, count + 1);
    let offs = offsets_bytes(s, abs, info, size, count + 1);
    let v = 1 + new_len_sum(s, abs, info, i);
    assert(offs.subrange(i * size, i * size + size) == encode_offset(v, size));
    lemma_mul_le(i, count, size);
    assert(i * size + size <= (count + 1) * size) by (nonlinear_arith)
        requires
            i <= count,
            1 <= size,
    ;
    lemma_encode_decode(v, size);
    let p = abs + 3 + i * size;
    assert(t.subrange(p, p + size) =~= offs.subrange(i * size, i * size + size)) by {
        assert forall|k: int| 0 <= k < size implies #[trigger] t.subrange(p, p + size)[k] == offs.subrange(i * size, i * size + size)[k] by {
            assert(t[p + k] == t.subrange(abs, abs + idx.len())[3 + i * size + k]);
            assert(idx[3 + i * size + k] == offs[i * size + k]);
        }
    }
    lemma_read_offset_at(t, p, encode_offset(v, size), size);
}

proof fn lemma_rebuilt_info(s: Seq<u8>, abs: int, info: IndexInfo, t: Seq<u8>)
    requires
        rebuild_setting(s, abs, info, t),
    ensures
        spec_index_info(t, abs) == Some(rebuilt_info(s, abs, info)),
{
    lemma_rebuilt_bytes(s, abs, info, t);
    let total = new_len_sum(s, abs, info, info.count as int);
    let size = new_off_size(total);
    let idx = rebuilt_index(s, abs, info);
    let count = info.count as int;
    assert(t[abs] == idx[0]);
    assert(t[abs + 1] == idx[1]);
    assert(t[abs + 2] == idx[2]);
    assert(be16(t, abs) == count);
    assert(t[abs + 2] == size);
    lemma_rebuilt_offsets(s, abs, info, t, 0);
    lemma_rebuilt_offsets(s, abs, info, t, count);
    assert(abs + 3 + count * size + size == abs + 3 + (count + 1) * size) by (nonlinear_arith);
}

#[verifier::spinoff_prover]
#[verifier::rlimit(40)]
proof fn lemma_rebuilt_charstring(s: Seq<u8>, abs: int, info: IndexInfo, t: Seq<u8>, i: int)
    requires
        rebuild_setting(s, abs, info, t),
        0 <= i < info.count,
    ensures
        cs_bytes(t, abs, rebuilt_info(s, abs, info), i) == kept_bytes(s, abs, info, i) || !cs_valid(
            t,
            abs,
            rebuilt_info(s, abs, info),
            i,
        ),
        !cs_truncated(t, abs, rebuilt_info(s, abs, info), i),
{
    lemma_rebuilt_bytes(s, abs, info, t);
    let total = new_len_sum(s, abs, info, info.count as int);
    let size = new_off_size(total);
    let idx = rebuilt_index(s, abs, info);
    let count = info.count as int;
    let info2 = rebuilt_info(s, abs, info);
    lemma_rebuilt_offsets(s, abs, info, t, i);
    lemma_rebuilt_offsets(s, abs, info, t, i + 1);
    assert(abs + 3 + (i + 1) * size == abs + 3 + i * size + size) by (nonlinear_arith);
    let a = new_len_sum(s, abs, info, i);
    let e = new_len_sum(s, abs, info, i + 1);
    lemma_kept(s, abs, info, i);
    assert(e == a + cs_new_len(s, abs, info, i));
    assert(cs_offset(t, info2, i) == 1 + a);
    assert(cs_offset(t, info2, i + 1) == 1 + e);
    let ds = 3 + (count + 1) * size;
    assert(cs_start(t, abs, info2, i) == ds + a);
    assert(cs_end(t, abs, info2, i) == ds + e);
    lemma_body(s, abs, info, count);
    let body = body_bytes(s, abs, info, count);
    assert(body.subrange(a, e) == kept_bytes(s, abs, info, i));
    assert(idx == seq![(info.count / 256) as u8, (info.count % 256) as u8, size as u8] + offsets_bytes(
        s,
        abs,
        info,
        size,
        count + 1,
    ) + body);
    lemma_offsets(s, abs, info, size, count + 1);
    if cs_valid(t, abs, info2, i) {
        let cb = cs_bytes(t, abs, info2, i);
        assert(cb =~= kept_bytes(s, abs, info, i)) by {
            assert forall|k: int| 0 <= k < cb.len() implies #[trigger] cb[k] == body.subrange(a, e)[k] by {
                assert(cb[k] == t[abs + ds + a + k]);
                assert(t[abs + ds + a + k] == t.subrange(abs, abs + idx.len())[ds + a + k]);
                assert(idx[ds + a + k] == body[a + k]);
            }
        }
        let n = cs_new_len(s, abs, info, i);
        assert(n > 0);
        let bytes = cs_bytes(s, abs, info, i);
        match spec_charstring_end(bytes) {
            Some(m) => {
                lemma_charstring_end_prefix(bytes);
                assert(cb == bytes.take(m));
            },
            None => {
                assert(bytes.take(n) =~= bytes);
            },
        }
    }
}

proof fn lemma_read_offset_limit(s: Seq<u8>, pos: int, off: int)
    requires
        1 <= off <= 4,
    ensures
        0 <= spec_read_offset(s, pos, off) < offset_limit(off),
{
}

proof fn lemma_sum_within_offsets(s: Seq<u8>, abs: int, info: IndexInfo, n: int)
    requires
        0 <= abs < s.len(),
        0 <= n <= info.count,
        cs_offset(s, info, 0) == 1,
        forall|i: int| 0 <= i < info.count ==> #[trigger] cs_offset(s, info, i) <= cs_offset(s, info, i + 1),
    ensures
        cs_offset(s, info, n) >= 1,
        new_len_sum(s, abs, info, n) <= cs_offset(s, info, n) - 1,
    decreases n,
{
    if n > 0 {
        lemma_sum_within_offsets(s, abs, info, n - 1);
        assert(cs_offset(s, info, n - 1) <= cs_offset(s, info, n));
        lemma_cs_new_len_bounds(s, abs, info, n - 1);
    }
}

/// The offsets that the INDEX at `abs` gives do not decrease.
pub open spec fn offsets_ascend(s: Seq<u8>, info: IndexInfo) -> bool {
    forall|i: int| 0 <= i < info.count ==> #[trigger] cs_offset(s, info, i) <= cs_offset(s, info, i + 1)
}

#[verifier::rlimit(40)]
proof fn lemma_rebuilt_fits(s: Seq<u8>, abs: int, info: IndexInfo)
    requires
        0 <= abs < s.len(),
        s.len() <= usize::MAX,
        spec_index_info(s, abs) == Some(info),
        info.count >= 1,
        offsets_ascend(s, info),
    ensures
        rebuilt_index(s, abs, info).len() <= info.index_size,
        abs + info.index_size <= s.len(),
        info.data_start >= abs,
{
    let count = info.count as int;
    let off = info.off_size as int;
    let pos = abs + 2;
    assert(s[pos] as int == off);
    assert(1 <= off <= 4);
    assert(info.offsets_start as int == abs + 3);
    lemma_mul_bound(count, off);
    assert(cs_offset(s, info, 0) == spec_read_offset(s, abs + 3, off));
    assert(cs_offset(s, info, 0) == 1);
    let last_pos = abs + 3 + count * off;
    let last = spec_read_offset(s, last_pos, off);
    assert(cs_offset(s, info, count) == last);
    assert(info.data_length as int == if last >= 1 { last - 1 } else { 0 });
    assert(info.data_start as int == last_pos + off);
    assert(info.index_size as int == info.data_start + info.data_length - abs);
    lemma_sum_within_offsets(s, abs, info, count);
    lemma_read_offset_limit(s, last_pos, off);
    let total = new_len_sum(s, abs, info, count);
    let size = new_off_size(total);
    assert(total <= info.data_length);
    assert(size <= off);
    assert((count + 1) * size <= (count + 1) * off) by (nonlinear_arith)
        requires
            size <= off,
            0 <= count,
    ;
    lemma_body(s, abs, info, count);
    lemma_offsets(s, abs, info, size, count + 1);
    assert(rebuilt_index(s, abs, info).len() == 3 + (count + 1) * size + total);
}

/// A rebuilt CharStrings INDEX takes no more room than the old one where
/// the old offsets do not decrease: the data keeps its length and every
/// byte before the INDEX and after its old end; the new INDEX stands at
/// the same place and zeros fill the rest of the old one.
pub proof fn law_rebuild_keeps_layout(s: Seq<u8>, abs: int)
    requires
        0 <= abs,
        s.len() <= usize::MAX,
        spec_rebuild(s, abs) is Some,
        spec_index_info(s, abs) matches Some(info) && offsets_ascend(s, info),
    ensures
        ({
            let t = spec_rebuild(s, abs)->Some_0;
            let info = spec_index_info(s, abs)->Some_0;
            let idx = rebuilt_index(s, abs, info);
            &&& idx.len() <= info.index_size
            &&& abs + info.index_size <= s.len()
            &&& t.len() == s.len()
            &&& t.take(abs) == s.take(abs)
            &&& t.subrange(abs, abs + idx.len()) == idx
            &&& forall|k: int| abs + idx.len() <= k < abs + info.index_size ==> t[k] == 0
            &&& t.skip(abs + info.index_size) == s.skip(abs + info.index_size)
        }),
{
    let t = spec_rebuild(s, abs)->Some_0;
    let info = spec_index_info(s, abs)->Some_0;
    assert(info.count >= 1) by {
        let i = choose|i: int| 0 <= i < info.count && cs_truncated(s, abs, info, i);
    }
    lemma_rebuilt_fits(s, abs, info);
    let idx = rebuilt_index(s, abs, info);
    let pad = (info.index_size - idx.len()) as nat;
    let zeros = Seq::new(pad, |k: int| 0u8);
    let tail = s.skip(abs + info.index_size);
    assert(t == s.take(abs) + idx + zeros + tail);
    assert(t.take(abs) =~= s.take(abs));
    assert(t.subrange(abs, abs + idx.len()) =~= idx);
    assert forall|k: int| abs + idx.len() <= k < abs + info.index_size implies t[k] == 0 by {
        assert(t[k] == zeros[k - abs - idx.len()]);
    }
    assert(t.skip(abs + info.index_size) =~= tail);
}

proof fn lemma_find_table_from_nonneg(s: Seq<u8>, tag: int, i: int, n: int)
    ensures
        spec_find_table_from(s, tag, i, n) matches Some(p) ==> p.0 >= 0,
    decreases n - i,
{
    if i < n {
        let rec = 12 + 16 * i;
        if rec + 16 <= s.len() && be32(s, rec) != tag {
            lemma_find_table_from_nonneg(s, tag, i + 1, n);
        }
    }
}

/// A repaired font keeps its length and every byte before its CFF table,
/// where the CharStrings INDEX offsets do not decrease; a font that is not
/// repaired is left as it is.
pub proof fn law_fix_keeps_layout(s: Seq<u8>)
    requires
        s.len() <= usize::MAX,
        spec_fix_cff(s) is Some ==> (spec_cff_location(s) matches Some(loc) && spec_index_info(s, loc.0 + loc.1)
            matches Some(info) && offsets_ascend(s, info)),
    ensures
        spec_fix_cff(s) matches Some(t) ==> t.len() == s.len() && t.take(spec_cff_location(s)->Some_0.0)
            == s.take(spec_cff_location(s)->Some_0.0),
{
    if spec_fix_cff(s) is Some {
        let loc = spec_cff_location(s)->Some_0;
        let abs = loc.0 + loc.1;
        if s.len() >= 12 {
            lemma_find_table_from_nonneg(s, CFF_TAG as int, 0, be16(s, 4));
        }
        assert(0 <= loc.0);
        law_rebuild_keeps_layout(s, abs);
        let t = spec_fix_cff(s)->Some_0;
        assert(t.take(abs) == s.take(abs));
        assert(t.take(loc.0) =~= t.take(abs).take(loc.0));
        assert(s.take(loc.0) =~= s.take(abs).take(loc.0));
    }
}

/// A repaired CharStrings INDEX needs no further cut: the rebuilt data
/// holds a well formed INDEX at the same place, with as many charstrings,
/// none of which carries data after its end. (Offsets are at most 4 bytes,
/// so the kept charstrings must total less than 2^32 bytes.)
pub proof fn law_rebuild_leaves_nothing_to_cut(s: Seq<u8>, abs: int)
    requires
        0 <= abs,
        spec_rebuild(s, abs) is Some,
        spec_rebuild(s, abs)->Some_0.len() <= usize::MAX,
        spec_index_info(s, abs) matches Some(info) && new_len_sum(s, abs, info, info.count as int) + 1
            < 0x1_0000_0000,
    ensures
        ({
            let t = spec_rebuild(s, abs)->Some_0;
            &&& spec_index_info(t, abs) matches Some(info2) && info2.count == spec_index_info(s, abs)->Some_0.count
                && !any_truncated(t, abs, info2)
            &&& spec_rebuild(t, abs) is None
        }),
{
    let t = spec_rebuild(s, abs)->Some_0;
    let info = spec_index_info(s, abs)->Some_0;
    assert(rebuild_setting(s, abs, info, t));
    lemma_rebuilt_info(s, abs, info, t);
    let info2 = rebuilt_info(s, abs, info);
    assert forall|i: int| 0 <= i < info2.count implies !cs_truncated(t, abs, info2, i) by {
        lemma_rebuilt_charstring(s, abs, info, t, i);
    }
}

} // verus!
