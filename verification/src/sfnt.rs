//! Fonts in the sfnt container: faces of a collection, the table directory
//! and the whole-font checksum, and extraction of one face as a standalone font.

use vstd::prelude::*;
use crate::bytes::{be16, be32, get_be16, get_be32, copy_range};
use crate::text::{chars_of, decimal, nat_to_chars, string_from_chars};

verus! {

/// Why a face could not be made into a standalone font.
#[derive(Debug, Clone, PartialEq, Eq)]
pub enum FontError {
    /// The face does not parse; the parser's own account of why.
    ParseFace(String),
    /// The face's scaler type lies past the end of the data.
    ScalerTypeOutOfBounds,
    /// The face has no tables.
    NoTableRecords,
    /// The face has more tables than a directory holds.
    TooManyTables,
    /// A table's end does not fit in the address space.
    TableRangeOverflow,
    /// The table with this tag lies past the end of the data.
    TableOutOfBounds(u32),
    /// The font is shorter than its header.
    SfntTooSmall,
    /// The table directory runs past the end of the font.
    InvalidTableDirectory,
    /// The `head` table is shorter than 12 bytes or runs past the end.
    InvalidHeadBounds,
    /// There is no `head` table.
    HeadNotFound,
    /// A face other than the first of a font that is no collection.
    FaceIndexOutOfBoundsSingle(u32),
    /// A collection shorter than its header.
    InvalidTtcHeader,
    /// A face index at or past the collection's count (index, count).
    FaceIndexOutOfBounds(u32, u32),
    /// The collection's offset table runs past the end.
    InvalidTtcOffsetTable,
    /// A face offset that leaves no room for the face's scaler type.
    InvalidTtcFaceOffset,
}

/// `value` rounded up to a multiple of 4.
pub fn align4(value: usize) -> (r: usize)
    requires
        value <= usize::MAX - 3,
    ensures
        r as int == (value + 3) / 4 * 4,
        r >= value,
        r % 4 == 0,
        r < value + 4,
{
    (value + 3) / 4 * 4
}

/// The big-endian `u16` at `at`, where it lies inside `bytes`.
pub fn read_u16_be(bytes: &[u8], at: usize) -> (r: Option<u16>)
    ensures
        r is Some <==> at + 2 <= bytes@.len(),
        r matches Some(v) ==> v as int == be16(bytes@, at as int),
{
    if at > bytes.len() || bytes.len() - at < 2 {
        return None;
    }
    Some(get_be16(bytes, at))
}

/// The big-endian `u32` at `at`, where it lies inside `bytes`.
pub fn read_u32_be(bytes: &[u8], at: usize) -> (r: Option<u32>)
    ensures
        r is Some <==> at + 4 <= bytes@.len(),
        r matches Some(v) ==> v as int == be32(bytes@, at as int),
{
    if at > bytes.len() || bytes.len() - at < 4 {
        return None;
    }
    Some(get_be32(bytes, at))
}

/// The data starts with the collection tag `ttcf`.
pub open spec fn is_collection(s: Seq<u8>) -> bool {
    s.len() >= 4 && s[0] == 0x74 && s[1] == 0x74 && s[2] == 0x63 && s[3] == 0x66
}

/// Where face `face_index` starts: 0 for the only face of a single font,
/// else the collection's offset for it, which must leave room for 4 bytes.
pub open spec fn spec_face_offset(s: Seq<u8>, face_index: u32) -> Result<int, FontError> {
    if !is_collection(s) {
        if face_index == 0 {
            Ok(0)
        } else {
            Err(FontError::FaceIndexOutOfBoundsSingle(face_index))
        }
    } else if s.len() < 12 {
        Err(FontError::InvalidTtcHeader)
    } else {
        let num = be32(s, 8);
        if face_index >= num {
            Err(FontError::FaceIndexOutOfBounds(face_index, num as u32))
        } else {
            let table = 12 + face_index * 4;
            if table + 4 > s.len() {
                Err(FontError::InvalidTtcOffsetTable)
            } else {
                let off = be32(s, table);
                if off + 4 > s.len() {
                    Err(FontError::InvalidTtcFaceOffset)
                } else {
                    Ok(off)
                }
            }
        }
    }
}

/// Whether `bytes` starts with `ttcf`.
fn starts_with_ttcf(bytes: &[u8]) -> (r: bool)
    ensures
        r == is_collection(bytes@),
{
    bytes.len() >= 4 && bytes[0] == 0x74 && bytes[1] == 0x74 && bytes[2] == 0x63 && bytes[3] == 0x66
}

/// Finds where face `face_index` of a font or font collection starts.
pub fn resolve_face_offset(font_bytes: &[u8], face_index: u32) -> (r: Result<usize, FontError>)
    ensures
        match r {
            Ok(o) => spec_face_offset(font_bytes@, face_index) == Ok::<int, FontError>(o as int),
            Err(e) => spec_face_offset(font_bytes@, face_index) == Err::<int, FontError>(e),
        },
        r matches Ok(o) ==> is_collection(font_bytes@) ==> o + 4 <= font_bytes@.len(),
{
    if !starts_with_ttcf(font_bytes) {
        if face_index == 0 {
            return Ok(0);
        }
        return Err(FontError::FaceIndexOutOfBoundsSingle(face_index));
    }
    let len = font_bytes.len();
    if len < 12 {
        return Err(FontError::InvalidTtcHeader);
    }
    let num_faces = get_be32(font_bytes, 8);
    if face_index >= num_faces {
        return Err(FontError::FaceIndexOutOfBounds(face_index, num_faces));
    }
    let fi = face_index as usize;
    if fi > (len - 12) / 4 || len - 12 - fi * 4 < 4 {
        return Err(FontError::InvalidTtcOffsetTable);
    }
    let table_offset = 12 + fi * 4;
    let offset = get_be32(font_bytes, table_offset) as usize;
    if offset > len || len - offset < 4 {
        return Err(FontError::InvalidTtcFaceOffset);
    }
    Ok(offset)
}

/// The big-endian word at `p`, missing bytes read as 0.
pub open spec fn word_at(s: Seq<u8>, p: int) -> int {
    byte_at(s, p) * 16777216 + byte_at(s, p + 1) * 65536 + byte_at(s, p + 2) * 256 + byte_at(s, p + 3)
}

/// The byte at `i`, or 0 past the end.
pub open spec fn byte_at(s: Seq<u8>, i: int) -> int {
    if 0 <= i < s.len() { s[i] as int } else { 0 }
}

/// The sum of the big-endian words of `s` from `p` on, 4 bytes apart.
pub open spec fn words_from(s: Seq<u8>, p: int) -> int
    decreases s.len() + 4 - p,
{
    if p < 0 || p >= s.len() {
        0
    } else {
        word_at(s, p) + words_from(s, p + 4)
    }
}

/// The sfnt checksum of a whole font: the sum of its words modulo 2^32.
pub open spec fn font_checksum(s: Seq<u8>) -> int {
    words_from(s, 0) % 0x1_0000_0000
}

/// `s` with the 4 bytes at `p` replaced by `v` big-endian.
pub open spec fn with_word(s: Seq<u8>, p: int, v: int) -> Seq<u8> {
    s.take(p) + seq![(v / 16777216 % 256) as u8, (v / 65536 % 256) as u8, (v / 256 % 256) as u8, (v % 256) as u8] + s.skip(p + 4)
}

/// The first `head` record among records `i..n` of the directory, as its
/// offset and length.
pub open spec fn head_record_from(s: Seq<u8>, i: int, n: int) -> Option<(int, int)>
    decreases n - i,
{
    if i < 0 || i >= n {
        None
    } else {
        let rec = 12 + 16 * i;
        if be32(s, rec) == 0x68656164 {
            Some((be32(s, rec + 8), be32(s, rec + 12)))
        } else {
            head_record_from(s, i + 1, n)
        }
    }
}

/// Where the `head` table of an sfnt font starts.
pub open spec fn spec_head_offset(s: Seq<u8>) -> Result<int, FontError> {
    if s.len() < 12 {
        Err(FontError::SfntTooSmall)
    } else {
        let n = be16(s, 4);
        if s.len() < 12 + 16 * n {
            Err(FontError::InvalidTableDirectory)
        } else {
            match head_record_from(s, 0, n) {
                None => Err(FontError::HeadNotFound),
                Some(h) => if h.1 < 12 || h.0 + h.1 > s.len() {
                    Err(FontError::InvalidHeadBounds)
                } else {
                    Ok(h.0)
                },
            }
        }
    }
}

/// The font with its `checkSumAdjustment` set: the word 8 bytes into `head`
/// becomes `0xB1B0AFBA` minus the checksum of the font with that word zeroed.
pub open spec fn spec_adjusted(s: Seq<u8>) -> Result<Seq<u8>, FontError> {
    match spec_head_offset(s) {
        Err(e) => Err(e),
        Ok(h) => {
            let zeroed = with_word(s, h + 8, 0);
            let adj = (0xB1B0AFBA - font_checksum(zeroed)) % 0x1_0000_0000;
            Ok(with_word(zeroed, h + 8, adj))
        },
    }
}

proof fn lemma_words_replace(s: Seq<u8>, t: Seq<u8>, a: int, p: int)
    requires
        s.len() == t.len(),
        0 <= p,
        p % 4 == 0,
        a % 4 == 0,
        0 <= a,
        a + 4 <= s.len(),
        forall|i: int| 0 <= i < s.len() && !(a <= i < a + 4) ==> s[i] == t[i],
    ensures
        words_from(t, p) == words_from(s, p) + (if p <= a { word_at(t, a) - word_at(s, a) } else { 0 }),
    decreases s.len() + 4 - p,
{
    if p < s.len() {
        lemma_words_replace(s, t, a, p + 4);
        if p != a {
            assert(word_at(t, p) == word_at(s, p)) by {
                assert(byte_at(t, p) == byte_at(s, p));
                assert(byte_at(t, p + 1) == byte_at(s, p + 1));
                assert(byte_at(t, p + 2) == byte_at(s, p + 2));
                assert(byte_at(t, p + 3) == byte_at(s, p + 3));
            }
        }
    }
}

/// The checksum of a whole font.
fn compute_checksum(data: &[u8]) -> (r: u32)
    ensures
        r as int == font_checksum(data@),
{
    let len = data.len();
    let mut sum: u64 = 0;
    let mut p: usize = 0;
    while p < len
        invariant
            len == data@.len(),
            p <= len,
            p % 4 == 0 || p == len,
            sum < 0x1_0000_0000,
            (sum + words_from(data@, p as int)) % 0x1_0000_0000 == font_checksum(data@),
        decreases len - p,
    {
        let b0 = data[p] as u64;
        let b1: u64 = if len - p > 1 { data[p + 1] as u64 } else { 0 };
        let b2: u64 = if len - p > 2 { data[p + 2] as u64 } else { 0 };
        let b3: u64 = if len - p > 3 { data[p + 3] as u64 } else { 0 };
        let word = b0 * 16777216 + b1 * 65536 + b2 * 256 + b3;
        assert(word == word_at(data@, p as int));
        let ghost rest = words_from(data@, p + 4);
        proof {
            vstd::arithmetic::div_mod::lemma_add_mod_noop_right(rest, sum + word, 0x1_0000_0000);
        }
        sum = (sum + word) % 0x1_0000_0000;
        if len - p <= 4 {
            p = len;
        } else {
            p += 4;
        }
    }
    sum as u32
}

/// The offset and length of the first `head` record of the directory.
fn find_head_record(data: &[u8]) -> (r: Result<(usize, usize), FontError>)
    ensures
        match r {
            Ok(h) => spec_head_offset(data@) == Ok::<int, FontError>(h.0 as int) && h.0 + h.1 <= data.len() && h.1 >= 12,
            Err(e) => spec_head_offset(data@) == Err::<int, FontError>(e),
        },
{
    let len = data.len();
    if len < 12 {
        return Err(FontError::SfntTooSmall);
    }
    let num_tables = get_be16(data, 4) as usize;
    if len - 12 < num_tables * 16 {
        return Err(FontError::InvalidTableDirectory);
    }
    let mut index: usize = 0;
    while index < num_tables && get_be32(data, 12 + index * 16) != 0x68656164
        invariant
            len == data@.len(),
            num_tables as int == be16(data@, 4),
            12 + 16 * num_tables <= len,
            index <= num_tables,
            head_record_from(data@, 0, num_tables as int) == head_record_from(data@, index as int, num_tables as int),
        decreases num_tables - index,
    {
        index += 1;
    }
    if index >= num_tables {
        return Err(FontError::HeadNotFound);
    }
    let rec = 12 + index * 16;
    let offset = get_be32(data, rec + 8) as usize;
    let length = get_be32(data, rec + 12) as usize;
    if length < 12 || offset > len || len - offset < length {
        return Err(FontError::InvalidHeadBounds);
    }
    Ok((offset, length))
}

/// Writes `v` big-endian into the 4 bytes at `at`.
fn set_word(data: &mut Vec<u8>, at: usize, v: u32)
    requires
        at + 4 <= old(data)@.len(),
    ensures
        final(data)@ == with_word(old(data)@, at as int, v as int),
{
    let _len = data.len();
    data.set(at, (v / 16777216 % 256) as u8);
    data.set(at + 1, (v / 65536 % 256) as u8);
    data.set(at + 2, (v / 256 % 256) as u8);
    data.set(at + 3, (v % 256) as u8);
    assert(final(data)@ =~= with_word(old(data)@, at as int, v as int));
}

/// A font whose adjustment word (at a multiple of 4, zeroed) is set to
/// `0xB1B0AFBA` minus the font's checksum sums to `0xB1B0AFBA`.
proof fn lemma_adjustment_closes(zeroed: Seq<u8>, at: int, adj: u32)
    requires
        0 <= at,
        at % 4 == 0,
        at + 4 <= zeroed.len(),
        word_at(zeroed, at) == 0,
        adj as int == (0xB1B0AFBA - font_checksum(zeroed)) % 0x1_0000_0000,
    ensures
        font_checksum(with_word(zeroed, at, adj as int)) == 0xB1B0AFBA,
{
    let t = with_word(zeroed, at, adj as int);
    assert(t.len() == zeroed.len());
    assert forall|i: int| 0 <= i < zeroed.len() && !(at <= i < at + 4) implies zeroed[i] == t[i] by {
        if i < at {
            assert(t[i] == zeroed.take(at)[i]);
        } else {
            assert(t[i] == zeroed.skip(at + 4)[i - at - 4]);
        }
    }
    lemma_words_replace(zeroed, t, at, 0);
    let v = adj;
    assert((v / 16777216 % 256) * 16777216 + (v / 65536 % 256) * 65536 + (v / 256 % 256) * 256 + v % 256 == v) by (bit_vector);
    assert(byte_at(t, at) == v / 16777216 % 256);
    assert(byte_at(t, at + 1) == v / 65536 % 256);
    assert(byte_at(t, at + 2) == v / 256 % 256);
    assert(byte_at(t, at + 3) == v % 256);
    assert(word_at(t, at) == adj);
    let w = words_from(zeroed, 0);
    assert(words_from(t, 0) == w + adj);
    let m: int = 0x1_0000_0000;
    let r = w % m;
    vstd::arithmetic::div_mod::lemma_fundamental_div_mod(w, m);
    vstd::arithmetic::div_mod::lemma_add_mod_noop(w, adj as int, m);
    vstd::arithmetic::div_mod::lemma_small_mod(adj as nat, m as nat);
    if 0xB1B0AFBA >= r {
        vstd::arithmetic::div_mod::lemma_small_mod((0xB1B0AFBA - r) as nat, m as nat);
        assert(r + adj == 0xB1B0AFBA);
        vstd::arithmetic::div_mod::lemma_small_mod(0xB1B0AFBAnat, m as nat);
    } else {
        vstd::arithmetic::div_mod::lemma_mod_add_multiples_vanish(0xB1B0AFBA - r, m);
        vstd::arithmetic::div_mod::lemma_small_mod((0xB1B0AFBA - r + m) as nat, m as nat);
        assert(r + adj == 0xB1B0AFBA + m);
        vstd::arithmetic::div_mod::lemma_mod_add_multiples_vanish(0xB1B0AFBA, m);
        vstd::arithmetic::div_mod::lemma_small_mod(0xB1B0AFBAnat, m as nat);
    }
}

/// Sets the `head` table's `checkSumAdjustment` of an sfnt font.
pub fn apply_check_sum_adjustment(sfnt: &mut Vec<u8>) -> (r: Result<(), FontError>)
    ensures
        match r {
            Ok(()) => spec_adjusted(old(sfnt)@) == Ok::<Seq<u8>, FontError>(final(sfnt)@),
            Err(e) => spec_adjusted(old(sfnt)@) == Err::<Seq<u8>, FontError>(e) && final(sfnt)@ == old(sfnt)@,
        },
        r is Ok ==> (spec_head_offset(old(sfnt)@) matches Ok(h) && h % 4 == 0 ==> font_checksum(final(sfnt)@) == 0xB1B0AFBA),
{
    let (offset, _length) = match find_head_record(sfnt.as_slice()) {
        Ok(h) => h,
        Err(e) => return Err(e),
    };
    let at = offset + 8;
    set_word(sfnt, at, 0);
    let ghost zeroed = sfnt@;
    let checksum = compute_checksum(sfnt.as_slice());
    let adjustment = 0xB1B0AFBAu32.wrapping_sub(checksum);
    set_word(sfnt, at, adjustment);
    proof {
        if at % 4 == 0 {
            assert(word_at(zeroed, at as int) == 0) by {
                assert(byte_at(zeroed, at as int) == 0);
                assert(byte_at(zeroed, at + 1) == 0);
                assert(byte_at(zeroed, at + 2) == 0);
                assert(byte_at(zeroed, at + 3) == 0);
            }
            lemma_adjustment_closes(zeroed, at as int, adjustment);
        }
    }
    Ok(())
}


/// A table record of a face's directory: tag, checksum, offset, length.
pub type TableRecord = (u32, u32, u32, u32);

/// The position at which a record with tag `t` goes into `s`: before the
/// first record from `i` on whose tag is greater, so equal tags keep their
/// order.
pub open spec fn insert_pos(s: Seq<TableRecord>, t: u32, i: int) -> int
    decreases s.len() - i,
{
    if i < 0 || i >= s.len() {
        s.len() as int
    } else if s[i].0 > t {
        i
    } else {
        insert_pos(s, t, i + 1)
    }
}

/// The records sorted by tag; records with equal tags keep their order.
pub open spec fn sort_by_tag(rs: Seq<TableRecord>) -> Seq<TableRecord>
    decreases rs.len(),
{
    if rs.len() == 0 {
        rs
    } else {
        let s = sort_by_tag(rs.drop_last());
        s.insert(insert_pos(s, rs.last().0, 0), rs.last())
    }
}

proof fn lemma_insert_pos_bounds(s: Seq<TableRecord>, t: u32, i: int)
    requires
        0 <= i <= s.len(),
    ensures
        i <= insert_pos(s, t, i) <= s.len(),
        forall|j: int| i <= j < insert_pos(s, t, i) ==> s[j].0 <= t,
        insert_pos(s, t, i) < s.len() ==> s[insert_pos(s, t, i)].0 > t,
    decreases s.len() - i,
{
    if i < s.len() && s[i].0 <= t {
        lemma_insert_pos_bounds(s, t, i + 1);
    }
}

/// Tags never decrease along `s`.
pub open spec fn tags_sorted(s: Seq<TableRecord>) -> bool {
    forall|i: int, j: int| 0 <= i <= j < s.len() ==> s[i].0 <= s[j].0
}

/// Sorting by tag gives records in tag order, with the same records.
pub proof fn lemma_sort_by_tag(rs: Seq<TableRecord>)
    ensures
        tags_sorted(sort_by_tag(rs)),
        sort_by_tag(rs).to_multiset() =~= rs.to_multiset(),
        sort_by_tag(rs).len() == rs.len(),
    decreases rs.len(),
{
    broadcast use vstd::seq_lib::group_to_multiset_ensures;
    if rs.len() > 0 {
        let s = sort_by_tag(rs.drop_last());
        lemma_sort_by_tag(rs.drop_last());
        let r = rs.last();
        let k = insert_pos(s, r.0, 0);
        lemma_insert_pos_bounds(s, r.0, 0);
        let t = s.insert(k, r);
        assert forall|i: int, j: int| 0 <= i <= j < t.len() implies t[i].0 <= t[j].0 by {
            if i < k && j > k {
                assert(t[i] == s[i]);
                assert(t[j] == s[j - 1]);
            }
            if i < k && j == k {
                assert(t[i] == s[i]);
            }
            if i == k && j > k {
                assert(t[j] == s[j - 1]);
                assert(s[k].0 > r.0);
                assert(s[k].0 <= s[j - 1].0);
            }
        }
        vstd::seq_lib::lemma_multiset_commutative(rs.drop_last(), seq![r]);
        assert(rs =~= rs.drop_last() + seq![r]);
        assert(t =~= s.take(k) + seq![r] + s.skip(k));
        assert(s =~= s.take(k) + s.skip(k));
        vstd::seq_lib::lemma_multiset_commutative(s.take(k), s.skip(k));
        vstd::seq_lib::lemma_multiset_commutative(s.take(k) + seq![r], s.skip(k));
        vstd::seq_lib::lemma_multiset_commutative(s.take(k), seq![r]);
    }
}

/// Copies `records` sorted by tag, equal tags in their order.
fn sort_records(records: &Vec<TableRecord>) -> (r: Vec<TableRecord>)
    ensures
        r@ == sort_by_tag(records@),
{
    let mut out: Vec<TableRecord> = Vec::new();
    let mut i: usize = 0;
    while i < records.len()
        invariant
            i <= records@.len(),
            out@ == sort_by_tag(records@.take(i as int)),
        decreases records@.len() - i,
    {
        let rec = records[i];
        proof {
            lemma_sort_by_tag(records@.take(i as int));
        }
        let mut k: usize = 0;
        while k < out.len() && out[k].0 <= rec.0
            invariant
                k <= out@.len(),
                insert_pos(out@, rec.0, 0) == insert_pos(out@, rec.0, k as int),
            decreases out@.len() - k,
        {
            k += 1;
        }
        out.insert(k, rec);
        assert(records@.take(i + 1).drop_last() =~= records@.take(i as int));
        i += 1;
    }
    assert(records@.take(records@.len() as int) =~= records@);
    out
}

/// `floor(log2(n))`, 0 below 2.
pub open spec fn log2_floor(n: nat) -> nat
    decreases n,
{
    if n < 2 {
        0
    } else {
        1 + log2_floor(n / 2)
    }
}

/// The largest power of two that is at most `n`, 1 below 2.
pub open spec fn max_pow2(n: nat) -> nat
    decreases n,
{
    if n < 2 {
        1
    } else {
        2 * max_pow2(n / 2)
    }
}

proof fn lemma_max_pow2(n: nat)
    requires
        n >= 1,
    ensures
        max_pow2(n) <= n < 2 * max_pow2(n),
        max_pow2(n) <= 2048 || max_pow2(n) % 4096 == 0,
        max_pow2(n) == 1 || max_pow2(n) == 2 || max_pow2(n) == 4 || max_pow2(n) == 8
            || max_pow2(n) == 16 || max_pow2(n) == 32 || max_pow2(n) == 64 || max_pow2(n) == 128
            || max_pow2(n) == 256 || max_pow2(n) == 512 || max_pow2(n) == 1024
            || max_pow2(n) == 2048 || max_pow2(n) % 4096 == 0,
    decreases n,
{
    if n >= 2 {
        lemma_max_pow2(n / 2);
    }
}

/// The binary-search fields of a table directory of `n` tables: search range,
/// entry selector and range shift, each as the 16-bit value it is written as.
pub open spec fn search_fields(n: nat) -> (int, int, int) {
    let sr: int = (max_pow2(n) * 16 % 65536) as int;
    (sr, log2_floor(n) as int, n * 16 % 65536 - sr)
}

/// The search fields of a directory of `n` tables.
fn directory_search_fields(n: usize) -> (r: (u16, u16, u16))
    requires
        1 <= n <= 65535,
    ensures
        r.0 as int == search_fields(n as nat).0,
        r.1 as int == search_fields(n as nat).1,
        r.2 as int == search_fields(n as nat).2,
{
    let mut p: usize = 1;
    let mut e: u16 = 0;
    while p <= n / 2
        invariant
            1 <= p <= n <= 65535,
            (e as int) < (p as int),
            max_pow2(n as nat) == p * max_pow2(n as nat / p as nat),
            log2_floor(n as nat) == e + log2_floor(n as nat / p as nat),
        decreases n - p,
    {
        proof {
            let q = n as nat / p as nat;
            assert(q >= 2) by (nonlinear_arith)
                requires
                    p <= n / 2,
                    p >= 1,
                    q == n as nat / p as nat,
            ;
            vstd::arithmetic::div_mod::lemma_div_denominator(n as int, p as int, 2);
            assert(max_pow2(q) == 2 * max_pow2(q / 2));
            assert(log2_floor(q) == 1 + log2_floor(q / 2));
            assert(p * max_pow2(q) == (p * 2) * max_pow2(q / 2)) by (nonlinear_arith)
                requires
                    max_pow2(q) == 2 * max_pow2(q / 2),
            ;
        }
        p = p * 2;
        e = e + 1;
    }
    proof {
        let q = n as nat / p as nat;
        assert(q == 1) by (nonlinear_arith)
            requires
                p > n / 2,
                p <= n,
                p >= 1,
                q == n as nat / p as nat,
        ;
        assert(max_pow2(1) == 1);
        assert(log2_floor(1) == 0);
        assert(max_pow2(q) == 1);
        assert(p * max_pow2(q) == p) by (nonlinear_arith)
            requires
                max_pow2(q) == 1,
        ;
        assert(max_pow2(n as nat) == p);
        assert(log2_floor(n as nat) == e);
        lemma_max_pow2(n as nat);
        if p % 4096 == 0 {
            assert((p * 16) % 65536 == 0) by (nonlinear_arith)
                requires
                    p % 4096 == 0,
            ;
        } else {
            assert(p <= 2048);
            assert(n * 16 < 65536);
            assert((n * 16) % 65536 == n * 16);
            assert((p * 16) % 65536 == p * 16);
        }
    }
    let search_range: u16 = ((p * 16) % 65536) as u16;
    let range_shift: u16 = ((n * 16) % 65536) as u16 - search_range;
    (search_range, e, range_shift)
}

/// The 4 bytes of `v` big-endian.
pub open spec fn be32_bytes(v: int) -> Seq<u8> {
    seq![(v / 16777216 % 256) as u8, (v / 65536 % 256) as u8, (v / 256 % 256) as u8, (v % 256) as u8]
}

/// The 2 bytes of `v` big-endian.
pub open spec fn be16_bytes(v: int) -> Seq<u8> {
    seq![(v / 256 % 256) as u8, (v % 256) as u8]
}

/// `v` rounded up to a multiple of 4.
pub open spec fn align4_spec(v: int) -> int {
    (v + 3) / 4 * 4
}

/// Where the data of table `i` of `rs` starts in the standalone font: after
/// the header, the directory, and the padded tables before it.
pub open spec fn table_start(rs: Seq<TableRecord>, i: int) -> int
    decreases i,
{
    if i <= 0 {
        12 + 16 * rs.len() as int
    } else {
        table_start(rs, i - 1) + align4_spec(rs[i - 1].3 as int)
    }
}

/// The directory entry of table `r` placed at `at`: tag, checksum, offset
/// (modulo 2^32), length.
pub open spec fn entry_bytes(r: TableRecord, at: int) -> Seq<u8> {
    be32_bytes(r.0 as int) + be32_bytes(r.1 as int) + be32_bytes(at % 0x1_0000_0000) + be32_bytes(r.3 as int)
}

/// The directory entry of table `i`.
pub open spec fn directory_entry(rs: Seq<TableRecord>, i: int) -> Seq<u8> {
    entry_bytes(rs[i], table_start(rs, i))
}

/// The directory entries of the first `i` tables.
pub open spec fn directory_upto(rs: Seq<TableRecord>, i: int) -> Seq<u8>
    decreases i,
{
    if i <= 0 {
        Seq::empty()
    } else {
        directory_upto(rs, i - 1) + directory_entry(rs, i - 1)
    }
}

/// `k` zero bytes.
pub open spec fn zeros(k: int) -> Seq<u8> {
    Seq::new(k as nat, |_j: int| 0u8)
}

/// The data of table `i`, padded with zeros to a multiple of 4.
pub open spec fn padded_table(data: Seq<u8>, r: TableRecord) -> Seq<u8> {
    data.subrange(r.2 as int, r.2 + r.3) + zeros(align4_spec(r.3 as int) - r.3)
}

/// The padded data of the first `i` tables.
pub open spec fn payload_upto(data: Seq<u8>, rs: Seq<TableRecord>, i: int) -> Seq<u8>
    decreases i,
{
    if i <= 0 {
        Seq::empty()
    } else {
        payload_upto(data, rs, i - 1) + padded_table(data, rs[i - 1])
    }
}

/// Why table `r` cannot be copied out of data of length `len`, if it cannot.
pub open spec fn table_error(len: int, r: TableRecord) -> Option<FontError> {
    if r.2 + r.3 > usize::MAX {
        Some(FontError::TableRangeOverflow)
    } else if r.2 + r.3 > len {
        Some(FontError::TableOutOfBounds(r.0))
    } else {
        None
    }
}

/// The error of the first of the first `i` tables that has one.
pub open spec fn table_error_upto(len: int, rs: Seq<TableRecord>, i: int) -> Option<FontError>
    decreases i,
{
    if i <= 0 {
        None
    } else {
        match table_error_upto(len, rs, i - 1) {
            Some(e) => Some(e),
            None => table_error(len, rs[i - 1]),
        }
    }
}

proof fn lemma_table_error_stays(len: int, rs: Seq<TableRecord>, i: int, j: int)
    requires
        0 <= i <= j,
        table_error_upto(len, rs, i) is Some,
    ensures
        table_error_upto(len, rs, j) == table_error_upto(len, rs, i),
    decreases j - i,
{
    if j > i {
        lemma_table_error_stays(len, rs, i, j - 1);
    }
}

/// The header of the standalone font: the face's scaler type, the number of
/// tables and the search fields.
pub open spec fn sfnt_header(scaler: Seq<u8>, n: nat) -> Seq<u8> {
    scaler + be16_bytes(n as int) + be16_bytes(search_fields(n).0) + be16_bytes(search_fields(n).1)
        + be16_bytes(search_fields(n).2)
}

/// What face `face_index` of `data` becomes as a standalone font, given the
/// records of its table directory.
pub open spec fn spec_standalone(data: Seq<u8>, face_index: u32, records: Seq<TableRecord>) -> Result<Seq<u8>, FontError> {
    match spec_face_offset(data, face_index) {
        Err(e) => Err(e),
        Ok(off) => if off + 4 > data.len() {
            Err(FontError::ScalerTypeOutOfBounds)
        } else if records.len() == 0 {
            Err(FontError::NoTableRecords)
        } else if records.len() > 65535 {
            Err(FontError::TooManyTables)
        } else {
            let rs = sort_by_tag(records);
            let n = rs.len();
            match table_error_upto(data.len() as int, rs, n as int) {
                Some(e) => Err(e),
                None => spec_adjusted(
                    sfnt_header(data.subrange(off, off + 4), n) + directory_upto(rs, n as int)
                        + payload_upto(data, rs, n as int),
                ),
            }
        },
    }
}

/// Appends `v` big-endian.
fn push_be32(out: &mut Vec<u8>, v: u32)
    ensures
        final(out)@ == old(out)@ + be32_bytes(v as int),
{
    out.push((v / 16777216 % 256) as u8);
    out.push((v / 65536 % 256) as u8);
    out.push((v / 256 % 256) as u8);
    out.push((v % 256) as u8);
    assert(final(out)@ =~= old(out)@ + be32_bytes(v as int));
}

/// Appends `v` big-endian.
fn push_be16(out: &mut Vec<u8>, v: u16)
    ensures
        final(out)@ == old(out)@ + be16_bytes(v as int),
{
    out.push((v / 256 % 256) as u8);
    out.push((v % 256) as u8);
    assert(final(out)@ =~= old(out)@ + be16_bytes(v as int));
}

/// Appends `data[lo..hi]` and then zeros up to `padded` bytes in all.
fn push_padded(out: &mut Vec<u8>, data: &[u8], lo: usize, hi: usize, padded: u64)
    requires
        lo <= hi <= data@.len(),
        hi - lo <= padded,
    ensures
        final(out)@ == old(out)@ + data@.subrange(lo as int, hi as int) + zeros(padded - (hi - lo)),
{
    let mut i: usize = lo;
    while i < hi
        invariant
            lo <= i <= hi <= data@.len(),
            out@ == old(out)@ + data@.subrange(lo as int, i as int),
        decreases hi - i,
    {
        out.push(data[i]);
        assert(data@.subrange(lo as int, i + 1) =~= data@.subrange(lo as int, i as int).push(data@[i as int]));
        i += 1;
    }
    let pad: u64 = padded - (hi - lo) as u64;
    let mut k: u64 = 0;
    while k < pad
        invariant
            k <= pad,
            out@ == old(out)@ + data@.subrange(lo as int, hi as int) + zeros(k as int),
        decreases pad - k,
    {
        out.push(0u8);
        assert(zeros(k + 1) =~= zeros(k as int).push(0u8));
        k += 1;
    }
}

proof fn lemma_align4(l: int)
    requires
        0 <= l,
    ensures
        align4_spec(l) % 4 == 0,
        l <= align4_spec(l) <= l + 3,
{
    let a = align4_spec(l);
    assert(a % 4 == 0 && l <= a <= l + 3) by (nonlinear_arith)
        requires
            a == (l + 3) / 4 * 4,
            0 <= l,
    ;
}

#[verifier::spinoff_prover]
proof fn lemma_table_start_bound(rs: Seq<TableRecord>, i: int)
    requires
        0 <= i <= rs.len(),
    ensures
        table_start(rs, i) <= 12 + 16 * rs.len() + i * 0x1_0000_0004,
        table_start(rs, i) % 4 == 0,
        table_start(rs, i) >= 12 + 16 * rs.len(),
    decreases i,
{
    if i > 0 {
        lemma_table_start_bound(rs, i - 1);
        let prev = table_start(rs, i - 1);
        let l = rs[i - 1].3 as int;
        lemma_align4(l);
        let a = align4_spec(l);
        assert(table_start(rs, i) == prev + a);
        assert((prev + a) % 4 == 0) by (nonlinear_arith)
            requires
                prev % 4 == 0,
                a % 4 == 0,
        ;
        assert(i * 0x1_0000_0004 == (i - 1) * 0x1_0000_0004 + 0x1_0000_0004) by (nonlinear_arith);
    } else {
        assert((12 + 16 * rs.len()) % 4 == 0) by (nonlinear_arith);
    }
}

proof fn lemma_layout_step(data: Seq<u8>, rs: Seq<TableRecord>, i: int)
    requires
        0 <= i < rs.len(),
        table_error_upto(data.len() as int, rs, i) is None,
        table_error(data.len() as int, rs[i]) is None,
    ensures
        table_error_upto(data.len() as int, rs, i + 1) is None,
        table_start(rs, i + 1) == table_start(rs, i) + align4_spec(rs[i].3 as int),
        directory_upto(rs, i + 1) == directory_upto(rs, i) + entry_bytes(rs[i], table_start(rs, i)),
        payload_upto(data, rs, i + 1) == payload_upto(data, rs, i) + padded_table(data, rs[i]),
{
}

/// Appends the directory entry of table `rec`, placed at `at`, and its
/// padded data; returns the padded length, or why the table cannot be
/// copied.
fn copy_table(data: &[u8], rec: TableRecord, at: u64, directory: &mut Vec<u8>, payload: &mut Vec<u8>) -> (r: Result<u64, FontError>)
    ensures
        match r {
            Ok(padded) => {
                &&& table_error(data@.len() as int, rec) is None
                &&& padded == align4_spec(rec.3 as int)
                &&& final(directory)@ == old(directory)@ + entry_bytes(rec, at as int)
                &&& final(payload)@ == old(payload)@ + padded_table(data@, rec)
            },
            Err(e) => table_error(data@.len() as int, rec) == Some(e),
        },
{
    let (tag, check_sum, offset, length) = rec;
    let start = offset as usize;
    let len = length as usize;
    let end = match start.checked_add(len) {
        Some(e) => e,
        None => return Err(FontError::TableRangeOverflow),
    };
    if end > data.len() {
        return Err(FontError::TableOutOfBounds(tag));
    }
    let padded: u64 = (length as u64 + 3) / 4 * 4;
    push_be32(directory, tag);
    push_be32(directory, check_sum);
    push_be32(directory, (at % 0x1_0000_0000) as u32);
    push_be32(directory, length);
    push_padded(payload, data, start, end, padded);
    assert(final(directory)@ =~= old(directory)@ + entry_bytes(rec, at as int));
    Ok(padded)
}

/// The directory and the padded table data of the tables `rs`, or the error
/// of the first table that cannot be copied.
fn lay_out_tables(data: &[u8], rs: &Vec<TableRecord>) -> (r: Result<(Vec<u8>, Vec<u8>), FontError>)
    requires
        1 <= rs@.len() <= 65535,
    ensures
        match r {
            Ok(dp) => {
                &&& table_error_upto(data@.len() as int, rs@, rs@.len() as int) is None
                &&& dp.0@ == directory_upto(rs@, rs@.len() as int)
                &&& dp.1@ == payload_upto(data@, rs@, rs@.len() as int)
            },
            Err(e) => table_error_upto(data@.len() as int, rs@, rs@.len() as int) == Some(e),
        },
{
    let n = rs.len();
    let mut table_offset: u64 = 12 + 16 * n as u64;
    let mut directory: Vec<u8> = Vec::new();
    let mut payload: Vec<u8> = Vec::new();
    let mut i: usize = 0;
    while i < n
        invariant
            n == rs@.len(),
            1 <= n <= 65535,
            i <= n,
            table_offset as int == table_start(rs@, i as int),
            directory@ == directory_upto(rs@, i as int),
            payload@ == payload_upto(data@, rs@, i as int),
            table_error_upto(data@.len() as int, rs@, i as int) is None,
        decreases n - i,
    {
        proof {
            lemma_table_start_bound(rs@, i as int);
            lemma_table_start_bound(rs@, i + 1);
        }
        match copy_table(data, rs[i], table_offset, &mut directory, &mut payload) {
            Ok(padded) => {
                proof {
                    lemma_layout_step(data@, rs@, i as int);
                }
                table_offset = table_offset + padded;
            },
            Err(e) => {
                proof {
                    lemma_table_error_stays(data@.len() as int, rs@, i + 1, n as int);
                }
                return Err(e);
            },
        }
        i += 1;
    }
    Ok((directory, payload))
}

/// Builds face `face_index` of `data` as a standalone font from the records
/// of its table directory: the tables sorted by tag, each copied and padded
/// to a multiple of 4, behind a fresh directory, with the checksum
/// adjustment set.
pub fn standalone_from_records(data: &[u8], face_index: u32, records: &Vec<TableRecord>) -> (r: Result<Vec<u8>, FontError>)
    ensures
        match r {
            Ok(v) => spec_standalone(data@, face_index, records@) == Ok::<Seq<u8>, FontError>(v@),
            Err(e) => spec_standalone(data@, face_index, records@) == Err::<Seq<u8>, FontError>(e),
        },
{
    let off = match resolve_face_offset(data, face_index) {
        Ok(o) => o,
        Err(e) => return Err(e),
    };
    if off > data.len() || data.len() - off < 4 {
        return Err(FontError::ScalerTypeOutOfBounds);
    }
    if records.len() == 0 {
        return Err(FontError::NoTableRecords);
    }
    if records.len() > 65535 {
        return Err(FontError::TooManyTables);
    }
    let rs = sort_records(records);
    proof {
        lemma_sort_by_tag(records@);
    }
    let n = rs.len();
    let (mut directory, mut payload) = match lay_out_tables(data, &rs) {
        Ok(dp) => dp,
        Err(e) => return Err(e),
    };
    let (search_range, entry_selector, range_shift) = directory_search_fields(n);
    let mut out: Vec<u8> = copy_range(data, off, off + 4);
    push_be16(&mut out, n as u16);
    push_be16(&mut out, search_range);
    push_be16(&mut out, entry_selector);
    push_be16(&mut out, range_shift);
    out.append(&mut directory);
    out.append(&mut payload);
    match apply_check_sum_adjustment(&mut out) {
        Ok(()) => Ok(out),
        Err(e) => Err(e),
    }
}

/// The table records that `ttf_parser::RawFace::parse` reads for face
/// `index` of `data`, each as (tag, checksum, offset, length) in directory
/// order, or the parser's error in its debug form.
pub uninterp spec fn raw_face_table_records(data: Seq<u8>, index: u32) -> Result<Seq<TableRecord>, Seq<char>>;

/// Calls `ttf_parser::RawFace::parse` on face `index` of `data` and returns
/// its table records in directory order, or the error's debug form. The
/// contract names that result, and states that there are at most 65535
/// records: the parser reads them as an array with a 16-bit count.
#[verifier::external_body]
fn parse_raw_face_records(data: &[u8], index: u32) -> (r: Result<Vec<TableRecord>, String>)
    ensures
        match r {
            Ok(v) => raw_face_table_records(data@, index) == Ok::<Seq<TableRecord>, Seq<char>>(v@)
                && v@.len() <= 65535,
            Err(m) => raw_face_table_records(data@, index) == Err::<Seq<TableRecord>, Seq<char>>(m@),
        },
{
    match ttf_parser::RawFace::parse(data, index) {
        Ok(face) => Ok(face.table_records.into_iter().map(|t| (t.tag.0, t.check_sum, t.offset, t.length)).collect()),
        Err(e) => Err(format!("{e:?}")),
    }
}

/// What extracting face `face_index` of `data` gives, the error as its
/// message.
pub open spec fn spec_extract(data: Seq<u8>, face_index: u32) -> Result<Seq<u8>, Seq<char>> {
    if face_index == 0 && !is_collection(data) {
        Ok(data)
    } else {
        match raw_face_table_records(data, face_index) {
            Err(m) => Err("failed to parse face: "@ + m),
            Ok(recs) => match spec_standalone(data, face_index, recs) {
                Ok(v) => Ok(v),
                Err(e) => Err(font_error_message(e)),
            },
        }
    }
}

/// Face `face_index` of a font or font collection as a standalone font.
/// Face 0 of a font that is no collection is the font itself; any other
/// face is rebuilt from the table records that the parser reads for it.
pub fn extract_face_as_standalone_sfnt(font_bytes: &[u8], face_index: u32) -> (r: Result<Vec<u8>, FontError>)
    ensures
        face_index == 0 && !is_collection(font_bytes@) ==> (r matches Ok(v) && v@ == font_bytes@),
        !(face_index == 0 && !is_collection(font_bytes@)) ==> match raw_face_table_records(font_bytes@, face_index) {
            Err(m) => (r matches Err(FontError::ParseFace(s)) && s@ == m),
            Ok(recs) => match r {
                Ok(v) => spec_standalone(font_bytes@, face_index, recs) == Ok::<Seq<u8>, FontError>(v@),
                Err(e) => spec_standalone(font_bytes@, face_index, recs) == Err::<Seq<u8>, FontError>(e),
            },
        },
        match r {
            Ok(v) => spec_extract(font_bytes@, face_index) == Ok::<Seq<u8>, Seq<char>>(v@),
            Err(e) => spec_extract(font_bytes@, face_index) == Err::<Seq<u8>, Seq<char>>(font_error_message(e)),
        },
{
    if face_index == 0 && !starts_with_ttcf(font_bytes) {
        return Ok(vstd::slice::slice_to_vec(font_bytes));
    }
    match parse_raw_face_records(font_bytes, face_index) {
        Err(m) => Err(FontError::ParseFace(m)),
        Ok(records) => standalone_from_records(font_bytes, face_index, &records),
    }
}

proof fn lemma_be32_bytes(v: int)
    requires
        0 <= v < 0x1_0000_0000,
    ensures
        be32(be32_bytes(v), 0) == v,
{
    let x = v as u32;
    assert((x / 16777216 % 256) * 16777216 + (x / 65536 % 256) * 65536 + (x / 256 % 256) * 256 + x % 256 == x) by (bit_vector);
}

proof fn lemma_directory_upto(rs: Seq<TableRecord>, k: int, i: int)
    requires
        0 <= i < k <= rs.len(),
    ensures
        directory_upto(rs, k).len() == 16 * k,
        directory_upto(rs, k).subrange(16 * i, 16 * i + 16) == directory_entry(rs, i),
    decreases k,
{
    lemma_directory_len(rs, k - 1);
    if i < k - 1 {
        lemma_directory_upto(rs, k - 1, i);
        assert(directory_upto(rs, k).subrange(16 * i, 16 * i + 16) =~= directory_upto(rs, k - 1).subrange(16 * i, 16 * i + 16));
    } else {
        assert(directory_upto(rs, k).subrange(16 * i, 16 * i + 16) =~= directory_entry(rs, i));
    }
}

proof fn lemma_directory_len(rs: Seq<TableRecord>, k: int)
    requires
        0 <= k <= rs.len(),
    ensures
        directory_upto(rs, k).len() == 16 * k,
    decreases k,
{
    if k > 0 {
        lemma_directory_len(rs, k - 1);
    }
}

proof fn lemma_head_aligned(s: Seq<u8>, j: int, n: int)
    requires
        0 <= j,
        forall|i: int| j <= i < n ==> #[trigger] be32(s, 12 + 16 * i + 8) % 4 == 0,
    ensures
        head_record_from(s, j, n) matches Some(h) ==> h.0 % 4 == 0,
    decreases n - j,
{
    if j < n {
        assert(be32(s, 12 + 16 * j + 8) % 4 == 0);
        lemma_head_aligned(s, j + 1, n);
    }
}

proof fn lemma_head_record_nonneg(s: Seq<u8>, j: int, n: int)
    ensures
        head_record_from(s, j, n) matches Some(h) ==> h.0 >= 0 && h.1 >= 0,
    decreases n - j,
{
    if 0 <= j < n {
        lemma_head_record_nonneg(s, j + 1, n);
    }
}

/// A font whose `head` table starts at a multiple of 4 checksums to
/// `0xB1B0AFBA` once its adjustment is set.
proof fn lemma_adjusted_checksum(s: Seq<u8>)
    requires
        spec_head_offset(s) matches Ok(h) && h % 4 == 0,
    ensures
        spec_adjusted(s) matches Ok(v) ==> font_checksum(v) == 0xB1B0AFBA,
{
    let h = spec_head_offset(s)->Ok_0;
    lemma_head_record_nonneg(s, 0, be16(s, 4));
    let at = h + 8;
    let zeroed = with_word(s, at, 0);
    assert(at + 4 <= s.len());
    assert(zeroed.len() == s.len());
    assert(byte_at(zeroed, at) == 0);
    assert(byte_at(zeroed, at + 1) == 0);
    assert(byte_at(zeroed, at + 2) == 0);
    assert(byte_at(zeroed, at + 3) == 0);
    let adj = (0xB1B0AFBA - font_checksum(zeroed)) % 0x1_0000_0000;
    lemma_adjustment_closes(zeroed, at, adj as u32);
}

/// The table directory of the standalone font sits right after its 12-byte
/// header: entry `i` of the font is directory entry `i`.
proof fn lemma_directory_in_font(header: Seq<u8>, dir: Seq<u8>, payload: Seq<u8>, rs: Seq<TableRecord>, i: int)
    requires
        header.len() == 12,
        dir == directory_upto(rs, rs.len() as int),
        0 <= i < rs.len(),
    ensures
        be32(header + dir + payload, 12 + 16 * i + 8) == table_start(rs, i) % 0x1_0000_0000,
{
    lemma_directory_upto(rs, rs.len() as int, i);
    let f = header + dir + payload;
    let e = directory_entry(rs, i);
    let v = table_start(rs, i) % 0x1_0000_0000;
    assert forall|t: int| 0 <= t < 16 implies f[12 + 16 * i + t] == e[t] by {
        assert(f[12 + 16 * i + t] == dir[16 * i + t]);
        assert(dir.subrange(16 * i, 16 * i + 16)[t] == dir[16 * i + t]);
    }
    lemma_be32_bytes(v);
    assert(e.subrange(8, 12) =~= be32_bytes(v));
    assert(be32(f, 12 + 16 * i + 8) == be32(be32_bytes(v), 0));
}

proof fn lemma_be16_bytes(v: int)
    requires
        0 <= v < 0x10000,
    ensures
        be16(be16_bytes(v), 0) == v,
{
    let x = v as u16;
    assert((x / 256 % 256) * 256 + x % 256 == x) by (bit_vector);
}

/// Every directory entry of the built font gives an offset that is a
/// multiple of 4.
proof fn lemma_entries_aligned(header: Seq<u8>, dir: Seq<u8>, payload: Seq<u8>, rs: Seq<TableRecord>)
    requires
        header.len() == 12,
        dir == directory_upto(rs, rs.len() as int),
    ensures
        forall|i: int| 0 <= i < rs.len() ==> #[trigger] be32(header + dir + payload, 12 + 16 * i + 8) % 4 == 0,
{
    assert forall|i: int| 0 <= i < rs.len() implies #[trigger] be32(header + dir + payload, 12 + 16 * i + 8) % 4 == 0 by {
        lemma_directory_in_font(header, dir, payload, rs, i);
        lemma_table_start_bound(rs, i);
        assert((table_start(rs, i) % 0x1_0000_0000) % 4 == 0) by (nonlinear_arith)
            requires
                table_start(rs, i) % 4 == 0,
                table_start(rs, i) >= 0,
        ;
    }
}

/// In the font built from header, directory and tables, the `head` table, if
/// found, starts at a multiple of 4.
proof fn lemma_built_head_aligned(scaler: Seq<u8>, data: Seq<u8>, rs: Seq<TableRecord>)
    requires
        scaler.len() == 4,
        1 <= rs.len() <= 65535,
    ensures
        spec_head_offset(
            sfnt_header(scaler, rs.len()) + directory_upto(rs, rs.len() as int) + payload_upto(data, rs, rs.len() as int),
        ) matches Ok(h) ==> h % 4 == 0,
{
    let n = rs.len();
    let header = sfnt_header(scaler, n);
    let dir = directory_upto(rs, n as int);
    let payload = payload_upto(data, rs, n as int);
    let f = header + dir + payload;
    assert(header.len() == 12);
    lemma_entries_aligned(header, dir, payload, rs);
    lemma_be16_bytes(n as int);
    assert(be16(f, 4) == n) by {
        assert(f[4] == header[4]);
        assert(f[5] == header[5]);
        assert(header[4] == be16_bytes(n as int)[0]);
        assert(header[5] == be16_bytes(n as int)[1]);
    }
    lemma_head_aligned(f, 0, n as int);
}

/// A face rebuilt as a standalone font checksums to `0xB1B0AFBA`, the value
/// the sfnt format asks of a whole font: every table, `head` among them,
/// starts at a multiple of 4.
pub proof fn law_standalone_checksum(data: Seq<u8>, face_index: u32, records: Seq<TableRecord>)
    requires
        spec_standalone(data, face_index, records) is Ok,
    ensures
        font_checksum(spec_standalone(data, face_index, records)->Ok_0) == 0xB1B0AFBA,
{
    let off = spec_face_offset(data, face_index)->Ok_0;
    let rs = sort_by_tag(records);
    lemma_sort_by_tag(records);
    let scaler = data.subrange(off, off + 4);
    lemma_built_head_aligned(scaler, data, rs);
    lemma_adjusted_checksum(
        sfnt_header(scaler, rs.len()) + directory_upto(rs, rs.len() as int) + payload_upto(data, rs, rs.len() as int),
    );
}

/// `2^e`.
pub open spec fn two_pow(e: nat) -> nat
    decreases e,
{
    if e == 0 {
        1
    } else {
        2 * two_pow((e - 1) as nat)
    }
}

proof fn lemma_max_pow2_is_power(n: nat)
    requires
        n >= 1,
    ensures
        max_pow2(n) == two_pow(log2_floor(n)),
    decreases n,
{
    if n >= 2 {
        lemma_max_pow2_is_power(n / 2);
    }
}

proof fn lemma_log2_bound(n: nat, k: nat)
    requires
        1 <= n < two_pow(k),
    ensures
        log2_floor(n) < k,
    decreases n,
{
    if n >= 2 {
        assert(k >= 1);
        lemma_log2_bound(n / 2, (k - 1) as nat);
    }
}

proof fn lemma_payload_len(data: Seq<u8>, rs: Seq<TableRecord>, i: int)
    requires
        0 <= i <= rs.len(),
        table_error_upto(data.len() as int, rs, i) is None,
    ensures
        payload_upto(data, rs, i).len() + 12 + 16 * rs.len() == table_start(rs, i),
    decreases i,
{
    if i > 0 {
        if table_error_upto(data.len() as int, rs, i - 1) is Some {
            lemma_table_error_stays(data.len() as int, rs, i - 1, i);
        }
        lemma_payload_len(data, rs, i - 1);
        lemma_align4(rs[i - 1].3 as int);
        assert(padded_table(data, rs[i - 1]).len() == align4_spec(rs[i - 1].3 as int));
    }
}

proof fn lemma_table_start_mono(rs: Seq<TableRecord>, i: int, j: int)
    requires
        0 <= i <= j <= rs.len(),
    ensures
        table_start(rs, i) <= table_start(rs, j),
    decreases j - i,
{
    if i < j {
        lemma_table_start_mono(rs, i, j - 1);
        lemma_align4(rs[j - 1].3 as int);
    }
}

proof fn lemma_head_is_entry(s: Seq<u8>, j: int, n: int)
    requires
        0 <= j,
    ensures
        head_record_from(s, j, n) matches Some(h) ==> exists|i: int| j <= i < n && h.0 == #[trigger] be32(s, 12 + 16 * i + 8),
    decreases n - j,
{
    if j < n {
        lemma_head_is_entry(s, j + 1, n);
        if be32(s, 12 + 16 * j + 8) == be32(s, 12 + 16 * j + 8) && be32(s, 12 + 16 * j) == 0x68656164 {
            assert(head_record_from(s, j, n) == Some((be32(s, 12 + 16 * j + 8), be32(s, 12 + 16 * j + 12))));
        }
    }
}

proof fn lemma_search_fields_range(n: nat)
    requires
        1 <= n <= 65535,
    ensures
        0 <= search_fields(n).0 < 65536,
        0 <= search_fields(n).1 <= 15,
        search_fields(n).1 == log2_floor(n),
        0 <= search_fields(n).2 < 65536,
        (search_fields(n).0 + search_fields(n).2) % 65536 == (16 * n) % 65536,
        n < 4096 ==> search_fields(n).0 == 16 * max_pow2(n) && search_fields(n).2 == 16 * n - 16 * max_pow2(n),
{
    lemma_max_pow2(n);
    lemma_max_pow2_is_power(n);
    assert(two_pow(16) == 65536) by {
        reveal_with_fuel(two_pow, 17);
    }
    lemma_log2_bound(n, 16);
    let m = max_pow2(n);
    let sr: int = (m * 16 % 65536) as int;
    if n < 4096 {
        assert(m * 16 < 65536);
        assert(sr == m * 16);
        assert(n * 16 < 65536);
        assert(n * 16 % 65536 == n * 16);
    } else {
        assert(m > 2048);
        assert(sr == 0) by (nonlinear_arith)
            requires
                m % 4096 == 0,
                sr == (m * 16 % 65536) as int,
        ;
    }
}

proof fn lemma_header_fields(f: Seq<u8>, scaler: Seq<u8>, n: nat)
    requires
        scaler.len() == 4,
        1 <= n <= 65535,
        f.len() >= 12,
        f.subrange(0, 12) == sfnt_header(scaler, n),
    ensures
        be16(f, 4) == n,
        be16(f, 6) == search_fields(n).0,
        be16(f, 8) == search_fields(n).1,
        be16(f, 10) == search_fields(n).2,
{
    let header = sfnt_header(scaler, n);
    let sf = search_fields(n);
    lemma_search_fields_range(n);
    lemma_be16_bytes(n as int);
    lemma_be16_bytes(sf.0);
    lemma_be16_bytes(sf.1);
    lemma_be16_bytes(sf.2);
    assert(f[4] == header[4] && f[5] == header[5]);
    assert(f[6] == header[6] && f[7] == header[7]);
    assert(f[8] == header[8] && f[9] == header[9]);
    assert(f[10] == header[10] && f[11] == header[11]);
    assert(header[4] == be16_bytes(n as int)[0] && header[5] == be16_bytes(n as int)[1]);
    assert(header[6] == be16_bytes(sf.0)[0] && header[7] == be16_bytes(sf.0)[1]);
    assert(header[8] == be16_bytes(sf.1)[0] && header[9] == be16_bytes(sf.1)[1]);
    assert(header[10] == be16_bytes(sf.2)[0] && header[11] == be16_bytes(sf.2)[1]);
}

proof fn lemma_adjusted_keeps_front(f: Seq<u8>)
    requires
        spec_adjusted(f) is Ok,
        spec_head_offset(f)->Ok_0 >= 4,
    ensures
        forall|k: int| 0 <= k < 12 ==> spec_adjusted(f)->Ok_0[k] == f[k],
        spec_adjusted(f)->Ok_0.len() == f.len(),
{
    let h = spec_head_offset(f)->Ok_0;
    lemma_head_record_nonneg(f, 0, be16(f, 4));
    let zeroed = with_word(f, h + 8, 0);
    let adj = (0xB1B0AFBA - font_checksum(zeroed)) % 0x1_0000_0000;
    let v = with_word(zeroed, h + 8, adj);
    assert(spec_adjusted(f)->Ok_0 == v);
    assert forall|k: int| 0 <= k < 12 implies v[k] == f[k] by {
        assert(zeroed[k] == f[k]);
        assert(v[k] == zeroed[k]);
    }
}

/// In a rebuilt face below 4 GiB the `head` table lies past the header.
proof fn lemma_built_head_past_header(data: Seq<u8>, scaler: Seq<u8>, rs: Seq<TableRecord>)
    requires
        scaler.len() == 4,
        1 <= rs.len() <= 65535,
        table_error_upto(data.len() as int, rs, rs.len() as int) is None,
        table_start(rs, rs.len() as int) < 0x1_0000_0000,
        spec_head_offset(
            sfnt_header(scaler, rs.len()) + directory_upto(rs, rs.len() as int) + payload_upto(data, rs, rs.len() as int),
        ) is Ok,
    ensures
        spec_head_offset(
            sfnt_header(scaler, rs.len()) + directory_upto(rs, rs.len() as int) + payload_upto(data, rs, rs.len() as int),
        )->Ok_0 >= 12,
{
    let n = rs.len();
    let header = sfnt_header(scaler, n);
    let dir = directory_upto(rs, n as int);
    let payload = payload_upto(data, rs, n as int);
    let f = header + dir + payload;
    assert(f.subrange(0, 12) =~= header);
    lemma_header_fields(f, scaler, n);
    let h = spec_head_offset(f)->Ok_0;
    lemma_head_is_entry(f, 0, n as int);
    let i = choose|i: int| 0 <= i < n && h == #[trigger] be32(f, 12 + 16 * i + 8);
    lemma_directory_in_font(header, dir, payload, rs, i);
    lemma_table_start_mono(rs, i, n as int);
    lemma_table_start_bound(rs, i);
}

/// The header facts of `law_standalone_header`, of a font of `n` tables.
pub open spec fn header_ok(v: Seq<u8>, n: nat) -> bool {
    let sr = be16(v, 6);
    let es = be16(v, 8);
    let rsh = be16(v, 10);
    &&& be16(v, 4) == n
    &&& (sr + rsh) % 65536 == (16 * n) % 65536
    &&& n < 4096 ==> {
        &&& sr == 16 * two_pow(es as nat)
        &&& sr <= 16 * n < 2 * sr
        &&& rsh == 16 * n - sr
    }
}

proof fn lemma_built_header(data: Seq<u8>, scaler: Seq<u8>, rs: Seq<TableRecord>, v: Seq<u8>)
    requires
        scaler.len() == 4,
        1 <= rs.len() <= 65535,
        table_error_upto(data.len() as int, rs, rs.len() as int) is None,
        spec_adjusted(
            sfnt_header(scaler, rs.len()) + directory_upto(rs, rs.len() as int) + payload_upto(data, rs, rs.len() as int),
        ) == Ok::<Seq<u8>, FontError>(v),
        v.len() < 0x1_0000_0000,
    ensures
        header_ok(v, rs.len()),
{
    let n = rs.len();
    let header = sfnt_header(scaler, n);
    let dir = directory_upto(rs, n as int);
    let payload = payload_upto(data, rs, n as int);
    let f = header + dir + payload;
    assert(f.subrange(0, 12) =~= header);
    lemma_header_fields(f, scaler, n);
    lemma_search_fields_range(n);
    lemma_max_pow2(n);
    lemma_max_pow2_is_power(n);
    lemma_directory_len(rs, n as int);
    lemma_payload_len(data, rs, n as int);
    assert(f.len() == table_start(rs, n as int));
    assert(spec_head_offset(f) is Ok);
    assert(spec_adjusted(f)->Ok_0 == v);
    lemma_adjusted_len(f);
    lemma_built_head_past_header(data, scaler, rs);
    lemma_adjusted_keeps_front(f);
    assert(be16(v, 4) == be16(f, 4));
    assert(be16(v, 6) == be16(f, 6));
    assert(be16(v, 8) == be16(f, 8));
    assert(be16(v, 10) == be16(f, 10));
}

proof fn lemma_adjusted_len(f: Seq<u8>)
    requires
        spec_adjusted(f) is Ok,
    ensures
        spec_adjusted(f)->Ok_0.len() == f.len(),
{
    let h = spec_head_offset(f)->Ok_0;
    lemma_head_record_nonneg(f, 0, be16(f, 4));
}

/// The table directory header of a face rebuilt as a standalone font (of
/// less than 4 GiB, as 32-bit table offsets require): it counts the face's
/// tables, and its search range plus range shift is 16 times that count
/// (as 16-bit fields). Below 4096 tables, the search range is 16 times the
/// largest power of two not above the count, `2^entrySelector`, and the
/// range shift is the rest of 16 times the count.
pub proof fn law_standalone_header(data: Seq<u8>, face_index: u32, records: Seq<TableRecord>)
    requires
        spec_standalone(data, face_index, records) matches Ok(v) && v.len() < 0x1_0000_0000,
    ensures
        header_ok(spec_standalone(data, face_index, records)->Ok_0, records.len()),
{
    let v = spec_standalone(data, face_index, records)->Ok_0;
    let off = spec_face_offset(data, face_index)->Ok_0;
    let rs = sort_by_tag(records);
    lemma_sort_by_tag(records);
    let scaler = data.subrange(off, off + 4);
    lemma_built_header(data, scaler, rs, v);
}

/// The text that `String::from_utf8_lossy` makes of `bytes`.
pub uninterp spec fn utf8_lossy(bytes: Seq<u8>) -> Seq<char>;

/// `String::from_utf8_lossy`: the bytes as text, each invalid sequence as
/// U+FFFD. The contract names the result.
#[verifier::external_body]
fn text_of_bytes(bytes: &[u8]) -> (r: String)
    ensures
        r@ == utf8_lossy(bytes@),
{
    String::from_utf8_lossy(bytes).into_owned()
}

/// The message of a face-extraction error.
pub open spec fn font_error_message(e: FontError) -> Seq<char> {
    match e {
        FontError::ParseFace(m) => "failed to parse face: "@ + m@,
        FontError::ScalerTypeOutOfBounds => "face scaler type out of bounds"@,
        FontError::NoTableRecords => "no table records in face"@,
        FontError::TooManyTables => "too many tables"@,
        FontError::TableRangeOverflow => "table range overflow"@,
        FontError::TableOutOfBounds(tag) => "table '"@ + utf8_lossy(be32_bytes(tag as int)) + "' out of bounds"@,
        FontError::SfntTooSmall => "sfnt too small"@,
        FontError::InvalidTableDirectory => "invalid sfnt table directory"@,
        FontError::InvalidHeadBounds => "invalid head table bounds"@,
        FontError::HeadNotFound => "head table not found"@,
        FontError::FaceIndexOutOfBoundsSingle(i) => "face index out of bounds for single font: "@ + decimal(i as nat),
        FontError::InvalidTtcHeader => "invalid TTC header"@,
        FontError::FaceIndexOutOfBounds(i, n) => "face index out of bounds: "@ + decimal(i as nat) + " >= "@ + decimal(n as nat),
        FontError::InvalidTtcOffsetTable => "invalid TTC face offset table"@,
        FontError::InvalidTtcFaceOffset => "invalid TTC face offset"@,
    }
}

/// `a` followed by `b`.
fn concat(a: &str, b: &[char]) -> (r: Vec<char>)
    ensures
        r@ == a@ + b@,
{
    let mut out = chars_of(a);
    let mut i: usize = 0;
    let ghost start = out@;
    while i < b.len()
        invariant
            i <= b@.len(),
            start == a@,
            out@ == start + b@.take(i as int),
        decreases b@.len() - i,
    {
        out.push(b[i]);
        assert(b@.take(i + 1) =~= b@.take(i as int).push(b@[i as int]));
        i += 1;
    }
    assert(b@.take(b@.len() as int) =~= b@);
    out
}

impl FontError {
    /// What went wrong, in words.
    pub fn message(&self) -> (r: String)
        ensures
            r@ == font_error_message(*self),
    {
        let text: Vec<char> = match self {
            FontError::ParseFace(m) => concat("failed to parse face: ", &chars_of(m.as_str())),
            FontError::ScalerTypeOutOfBounds => chars_of("face scaler type out of bounds"),
            FontError::NoTableRecords => chars_of("no table records in face"),
            FontError::TooManyTables => chars_of("too many tables"),
            FontError::TableRangeOverflow => chars_of("table range overflow"),
            FontError::TableOutOfBounds(tag) => {
                let mut tag_bytes: Vec<u8> = Vec::new();
                push_be32(&mut tag_bytes, *tag);
                assert(tag_bytes@ =~= be32_bytes(*tag as int));
                let name = text_of_bytes(tag_bytes.as_slice());
                let mut t = concat("table '", &chars_of(name.as_str()));
                let mut rest = chars_of("' out of bounds");
                t.append(&mut rest);
                t
            },
            FontError::SfntTooSmall => chars_of("sfnt too small"),
            FontError::InvalidTableDirectory => chars_of("invalid sfnt table directory"),
            FontError::InvalidHeadBounds => chars_of("invalid head table bounds"),
            FontError::HeadNotFound => chars_of("head table not found"),
            FontError::FaceIndexOutOfBoundsSingle(i) => concat("face index out of bounds for single font: ", &nat_to_chars(*i as u64)),
            FontError::InvalidTtcHeader => chars_of("invalid TTC header"),
            FontError::FaceIndexOutOfBounds(i, n) => {
                let mut t = concat("face index out of bounds: ", &nat_to_chars(*i as u64));
                let mut rest = concat(" >= ", &nat_to_chars(*n as u64));
                t.append(&mut rest);
                t
            },
            FontError::InvalidTtcOffsetTable => chars_of("invalid TTC face offset table"),
            FontError::InvalidTtcFaceOffset => chars_of("invalid TTC face offset"),
        };
        string_from_chars(&text)
    }
}

} // verus!
