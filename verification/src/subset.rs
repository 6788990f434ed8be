//! Subsetting a font to the glyphs that a set of characters needs, with one
//! retry after a CFF charstring repair.

use vstd::prelude::*;
use crate::cff_fix::{fix_cff_font, is_cff_charstring_error, spec_fix_cff};
use crate::text::{contains, string_from_chars, chars_of};
use allsorts::binary::read::ReadScope;
use allsorts::error::ParseError;
use allsorts::font::{Font, read_cmap_subtable};
use allsorts::font_data::FontData;
use allsorts::subset::{CmapTarget, SubsetProfile, subset as allsorts_subset};
use allsorts::tables::cmap::Cmap;
use allsorts::tables::{FontTableProvider, HheaTable};
use allsorts::tag;

verus! {

/// Which stage of the subsetting failed.
#[derive(Debug, Clone, Copy, PartialEq, Eq, Structural)]
pub enum SubsetErrorKind {
    /// The font data did not parse.
    Parse,
    /// A table could not be read out of the font.
    ReadWrite,
    /// The subsetter refused the font.
    Subset,
}

/// A failed subsetting: the stage and the subsetter's own account.
#[derive(Debug, Clone)]
pub struct SubsetFailure {
    pub kind: SubsetErrorKind,
    pub detail: String,
}

impl View for SubsetFailure {
    type V = (SubsetErrorKind, Seq<char>);

    open spec fn view(&self) -> (SubsetErrorKind, Seq<char>) {
        (self.kind, self.detail@)
    }
}

/// The message of a failure: the stage's prefix, then the detail.
pub open spec fn failure_message(f: (SubsetErrorKind, Seq<char>)) -> Seq<char> {
    match f.0 {
        SubsetErrorKind::Parse => "parse error: "@ + f.1,
        SubsetErrorKind::ReadWrite => "read/write error: "@ + f.1,
        SubsetErrorKind::Subset => "font subsetting error: "@ + f.1,
    }
}

impl SubsetFailure {
    /// The failure as a message: `parse error: `, `read/write error: ` or
    /// `font subsetting error: `, then the detail.
    pub fn message(&self) -> (r: String)
        ensures
            r@ == failure_message(self@),
    {
        let prefix = match self.kind {
            SubsetErrorKind::Parse => "parse error: ",
            SubsetErrorKind::ReadWrite => "read/write error: ",
            SubsetErrorKind::Subset => "font subsetting error: ",
        };
        let mut all = chars_of(prefix);
        let mut rest = chars_of(self.detail.as_str());
        all.append(&mut rest);
        string_from_chars(&all)
    }
}

/// A failure of the given stage with the given detail.
fn failure(kind: SubsetErrorKind, detail: String) -> (r: SubsetFailure)
    ensures
        r@ == (kind, detail@),
{
    SubsetFailure { kind, detail }
}

/// Why the font data cannot be read as a font with a character map by
/// allsorts (`ReadScope::read::<FontData>`, `FontData::table_provider`,
/// `Font::new`, then the `cmap` table read as a `Cmap` and its subtable
/// by `read_cmap_subtable`), if it cannot.
pub uninterp spec fn cmap_load_error(data: Seq<u8>) -> Option<(SubsetErrorKind, Seq<char>)>;

/// The glyph that the font's character map gives a character
/// (`CmapSubtable::map_glyph` with the character's code point), where it
/// gives one without error.
pub uninterp spec fn cmap_glyph(data: Seq<u8>, c: char) -> Option<u16>;

/// Reads `data` as a font with allsorts, reads its character map, and maps
/// each character to a glyph. The contract names what the loading gives and
/// what the map gives each character.
#[verifier::external_body]
fn map_glyphs(data: &[u8], chars: &[char]) -> (r: Result<Vec<Option<u16>>, SubsetFailure>)
    ensures
        match r {
            Ok(v) => {
                &&& cmap_load_error(data@) is None
                &&& v@.len() == chars@.len()
                &&& forall|i: int| 0 <= i < chars@.len() ==> #[trigger] v@[i] == cmap_glyph(data@, chars@[i])
            },
            Err(e) => cmap_load_error(data@) == Some(e@),
        },
{
    let parse = |e: ParseError| failure(SubsetErrorKind::Parse, e.to_string());
    let font_data = ReadScope::new(data).read::<FontData>().map_err(parse)?;
    let provider = font_data.table_provider(0).map_err(|e| failure(SubsetErrorKind::ReadWrite, e.to_string()))?;
    let font = Font::new(provider).map_err(parse)?;
    let cmap_data = font.font_table_provider.read_table_data(tag::CMAP).map_err(parse)?;
    let cmap = read_cmap_subtable(&ReadScope::new(&cmap_data).read::<Cmap>().map_err(parse)?).map_err(parse)?.ok_or_else(|| parse(ParseError::UnsuitableCmap))?.1;
    Ok(chars.iter().map(|c| cmap.map_glyph(*c as u32).ok().flatten()).collect())
}

/// The number of horizontal metrics in the font's `hhea` table as allsorts
/// reads it (`ReadScope::read::<FontData>`, `FontData::table_provider(0)`,
/// `read_table_data` of `hhea`, `ReadScope::read::<HheaTable>`), where
/// that table reads.
pub uninterp spec fn hhea_metric_count(data: Seq<u8>) -> Option<u16>;

/// Reads the `numberOfHMetrics` field of the font's `hhea` table with
/// allsorts. The contract names the result.
#[verifier::external_body]
fn read_hhea_metric_count(data: &[u8]) -> (r: Option<u16>)
    ensures
        r == hhea_metric_count(data@),
{
    let font_data = ReadScope::new(data).read::<FontData<'_>>().ok()?;
    let provider = font_data.table_provider(0).ok()?;
    let hhea_data = provider.read_table_data(tag::HHEA).ok()?;
    ReadScope::new(&hhea_data).read::<HheaTable>().ok().map(|h| h.num_h_metrics)
}

/// The failure that stands for a subset of a font without horizontal
/// metrics: allsorts reads the last metric at index `numberOfHMetrics - 1`,
/// which with no metrics is out of range.
pub open spec fn no_metrics_failure() -> (SubsetErrorKind, Seq<char>) {
    (SubsetErrorKind::Subset, "subset: parse error: invalid data index"@)
}

/// What allsorts gives for the font `data` subset to `glyph_ids`
/// (`allsorts::subset::subset` with the minimal profile and a Unicode
/// character map, on the font loaded as `map_glyphs` loads it).
pub uninterp spec fn subset_output(data: Seq<u8>, glyph_ids: Seq<u16>) -> Result<Seq<u8>, (SubsetErrorKind, Seq<char>)>;

/// Loads `data` as a font with allsorts and subsets it to `glyph_ids`. The
/// contract names the result. allsorts computes `numberOfHMetrics - 1`
/// while it rebuilds `hmtx`, so a font whose `hhea` table holds no metrics
/// is left out.
#[verifier::external_body]
fn subset_glyphs(data: &[u8], glyph_ids: &[u16]) -> (r: Result<Vec<u8>, SubsetFailure>)
    requires
        hhea_metric_count(data@) != Some(0u16),
    ensures
        match r {
            Ok(v) => subset_output(data@, glyph_ids@) == Ok::<Seq<u8>, (SubsetErrorKind, Seq<char>)>(v@),
            Err(e) => subset_output(data@, glyph_ids@) == Err::<Seq<u8>, (SubsetErrorKind, Seq<char>)>(e@),
        },
{
    let parse = |e: ParseError| failure(SubsetErrorKind::Parse, e.to_string());
    let font_data = ReadScope::new(data).read::<FontData<'_>>().map_err(parse)?;
    let provider = font_data.table_provider(0).map_err(|e| failure(SubsetErrorKind::ReadWrite, e.to_string()))?;
    let font = Font::new(provider).map_err(parse)?;
    allsorts_subset(&font.font_table_provider, glyph_ids, &SubsetProfile::Minimal, CmapTarget::Unicode)
        .map_err(|e| failure(SubsetErrorKind::Subset, e.to_string()))
}

/// Each element is less than the next.
pub open spec fn increasing(s: Seq<u16>) -> bool {
    forall|i: int, j: int| 0 <= i < j < s.len() ==> s[i] < s[j]
}

/// The glyphs a subset keeps: glyph 0 and the glyph of each character that
/// the character map maps.
pub open spec fn glyph_set(data: Seq<u8>, chars: Seq<char>) -> Set<u16> {
    Set::new(|g: u16| g == 0 || exists|i: int| 0 <= i < chars.len() && cmap_glyph(data, #[trigger] chars[i]) == Some(g))
}

/// The glyphs of `glyph_set` in increasing order.
pub open spec fn glyph_list(data: Seq<u8>, chars: Seq<char>) -> Seq<u16> {
    choose|g: Seq<u16>| increasing(g) && g.to_set() == glyph_set(data, chars)
}

/// What subsetting `data` to `chars` gives: the loading's error; else, for
/// a font without horizontal metrics, `no_metrics_failure`; else the subset
/// to the glyphs of `glyph_set` in increasing order.
pub open spec fn spec_subset_with(data: Seq<u8>, chars: Seq<char>) -> Result<Seq<u8>, (SubsetErrorKind, Seq<char>)> {
    match cmap_load_error(data) {
        Some(e) => Err(e),
        None => if hhea_metric_count(data) == Some(0u16) {
            Err(no_metrics_failure())
        } else {
            subset_output(data, glyph_list(data, chars))
        },
    }
}

/// Two increasing sequences with the same elements are equal.
pub proof fn lemma_increasing_unique(a: Seq<u16>, b: Seq<u16>)
    requires
        increasing(a),
        increasing(b),
        a.to_set() == b.to_set(),
    ensures
        a == b,
    decreases a.len(),
{
    if a.len() == 0 {
        if b.len() > 0 {
            assert(b.to_set().contains(b[0]));
        }
        assert(b =~= a);
    } else {
        assert(a.to_set().contains(a[0]));
        assert(b.to_set().contains(a[0]));
        assert(b.contains(a[0]));
        assert(b.len() > 0);
        assert(b.to_set().contains(b[0]));
        assert(a.to_set().contains(b[0]));
        assert(a.contains(b[0]));
        let ja = choose|j: int| 0 <= j < a.len() && a[j] == b[0];
        let jb = choose|j: int| 0 <= j < b.len() && b[j] == a[0];
        assert(a[0] <= b[0]) by {
            if ja > 0 {
                assert(a[0] < a[ja]);
            }
        }
        assert(b[0] <= a[0]) by {
            if jb > 0 {
                assert(b[0] < b[jb]);
            }
        }
        let ta = a.drop_first();
        let tb = b.drop_first();
        assert forall|y: u16| ta.to_set().contains(y) <==> tb.to_set().contains(y) by {
            if ta.contains(y) {
                let j = choose|j: int| 0 <= j < ta.len() && ta[j] == y;
                assert(a[j + 1] == y);
                assert(a.contains(y));
                assert(a.to_set().contains(y));
                assert(b.to_set().contains(y));
                assert(b.contains(y));
                let k = choose|k: int| 0 <= k < b.len() && b[k] == y;
                assert(a[0] < y);
                assert(k > 0);
                assert(tb[k - 1] == y);
            }
            if tb.contains(y) {
                let j = choose|j: int| 0 <= j < tb.len() && tb[j] == y;
                assert(b[j + 1] == y);
                assert(b.contains(y));
                assert(b.to_set().contains(y));
                assert(a.to_set().contains(y));
                assert(a.contains(y));
                let k = choose|k: int| 0 <= k < a.len() && a[k] == y;
                assert(b[0] < y);
                assert(k > 0);
                assert(ta[k - 1] == y);
            }
        }
        assert(ta.to_set() =~= tb.to_set());
        lemma_increasing_unique(ta, tb);
        assert(a =~= seq![a[0]] + ta);
        assert(b =~= seq![b[0]] + tb);
    }
}

/// The first position from `i` on whose glyph is not less than `g`.
pub open spec fn glyph_pos(s: Seq<u16>, g: u16, i: int) -> int
    decreases s.len() - i,
{
    if i < 0 || i >= s.len() {
        s.len() as int
    } else if s[i] < g {
        glyph_pos(s, g, i + 1)
    } else {
        i
    }
}

/// The increasing list `s` with `g` added in its place, unless it is there.
pub open spec fn insert_increasing(s: Seq<u16>, g: u16) -> Seq<u16> {
    let k = glyph_pos(s, g, 0);
    if k < s.len() && s[k] == g {
        s
    } else {
        s.insert(k, g)
    }
}

/// Glyph 0, then the glyphs of the first `i` characters, each added in its
/// place.
pub open spec fn glyphs_upto(data: Seq<u8>, chars: Seq<char>, i: int) -> Seq<u16>
    decreases i,
{
    if i <= 0 {
        seq![0u16]
    } else {
        match cmap_glyph(data, chars[i - 1]) {
            Some(g) => insert_increasing(glyphs_upto(data, chars, i - 1), g),
            None => glyphs_upto(data, chars, i - 1),
        }
    }
}

proof fn lemma_glyph_pos(s: Seq<u16>, g: u16, i: int)
    requires
        0 <= i <= s.len(),
    ensures
        i <= glyph_pos(s, g, i) <= s.len(),
        forall|j: int| i <= j < glyph_pos(s, g, i) ==> s[j] < g,
        glyph_pos(s, g, i) < s.len() ==> s[glyph_pos(s, g, i)] >= g,
    decreases s.len() - i,
{
    if i < s.len() && s[i] < g {
        lemma_glyph_pos(s, g, i + 1);
    }
}

proof fn lemma_insert_increasing(s: Seq<u16>, g: u16)
    requires
        increasing(s),
    ensures
        increasing(insert_increasing(s, g)),
        insert_increasing(s, g).to_set() == s.to_set().insert(g),
{
    let k = glyph_pos(s, g, 0);
    lemma_glyph_pos(s, g, 0);
    if k < s.len() && s[k] == g {
        assert(s.contains(g));
        assert(s.to_set() =~= s.to_set().insert(g));
    } else {
        let t = s.insert(k, g);
        assert forall|i: int, j: int| 0 <= i < j < t.len() implies t[i] < t[j] by {
            if j < k {
                assert(s[i] < s[j]);
            } else if i < k && j == k {
            } else if i < k && j > k {
                assert(s[i] < s[j - 1]);
            } else if i == k && j > k {
                if j - 1 > k {
                    assert(s[k] < s[j - 1]);
                }
            } else {
                assert(s[i - 1] < s[j - 1]);
            }
        }
        assert forall|y: u16| t.to_set().contains(y) <==> s.to_set().insert(g).contains(y) by {
            if t.contains(y) {
                let j = choose|j: int| 0 <= j < t.len() && t[j] == y;
                if j < k {
                    assert(s[j] == y);
                } else if j > k {
                    assert(s[j - 1] == y);
                }
            }
            if s.contains(y) {
                let j = choose|j: int| 0 <= j < s.len() && s[j] == y;
                if j < k {
                    assert(t[j] == y);
                } else {
                    assert(t[j + 1] == y);
                }
            }
            if y == g {
                assert(t[k] == y);
            }
        }
        assert(t.to_set() =~= s.to_set().insert(g));
    }
}

proof fn lemma_glyphs_upto(data: Seq<u8>, chars: Seq<char>, i: int)
    requires
        0 <= i <= chars.len(),
    ensures
        increasing(glyphs_upto(data, chars, i)),
        glyphs_upto(data, chars, i).to_set() == Set::new(
            |g: u16| g == 0 || exists|j: int| 0 <= j < i && cmap_glyph(data, #[trigger] chars[j]) == Some(g),
        ),
    decreases i,
{
    let target = Set::new(|g: u16| g == 0 || exists|j: int| 0 <= j < i && cmap_glyph(data, #[trigger] chars[j]) == Some(g));
    if i == 0 {
        let s = seq![0u16];
        assert forall|y: u16| s.to_set().contains(y) <==> target.contains(y) by {
            if y == 0 {
                assert(s[0] == y);
            }
        }
        assert(s.to_set() =~= target);
    } else {
        lemma_glyphs_upto(data, chars, i - 1);
        let prev = glyphs_upto(data, chars, i - 1);
        let before = Set::new(|g: u16| g == 0 || exists|j: int| 0 <= j < i - 1 && cmap_glyph(data, #[trigger] chars[j]) == Some(g));
        match cmap_glyph(data, chars[i - 1]) {
            Some(g) => {
                lemma_insert_increasing(prev, g);
                assert forall|y: u16| before.insert(g).contains(y) <==> target.contains(y) by {
                    if target.contains(y) && y != 0 && y != g {
                        let j = choose|j: int| 0 <= j < i && cmap_glyph(data, #[trigger] chars[j]) == Some(y);
                        assert(j < i - 1);
                    }
                    if before.contains(y) && y != 0 {
                        let j = choose|j: int| 0 <= j < i - 1 && cmap_glyph(data, #[trigger] chars[j]) == Some(y);
                        assert(0 <= j < i);
                    }
                    if y == g {
                        assert(cmap_glyph(data, chars[i - 1]) == Some(y));
                    }
                }
                assert(before.insert(g) =~= target);
            },
            None => {
                assert forall|y: u16| before.contains(y) <==> target.contains(y) by {
                    if target.contains(y) && y != 0 {
                        let j = choose|j: int| 0 <= j < i && cmap_glyph(data, #[trigger] chars[j]) == Some(y);
                        assert(j < i - 1);
                    }
                    if before.contains(y) && y != 0 {
                        let j = choose|j: int| 0 <= j < i - 1 && cmap_glyph(data, #[trigger] chars[j]) == Some(y);
                        assert(0 <= j < i);
                    }
                }
                assert(before =~= target);
            },
        }
    }
}

/// The glyphs a subset keeps come in increasing order without repeats,
/// glyph 0 among them, and are exactly glyph 0 and the glyphs that the
/// character map gives the characters; they depend on the set of
/// characters only, not on their order or repeats.
pub proof fn law_glyph_list(data: Seq<u8>, chars: Seq<char>, other: Seq<char>)
    ensures
        increasing(glyph_list(data, chars)),
        glyph_list(data, chars).to_set() == glyph_set(data, chars),
        glyph_list(data, chars).contains(0),
        chars.to_set() == other.to_set() ==> glyph_list(data, chars) == glyph_list(data, other),
{
    lemma_glyphs_upto(data, chars, chars.len() as int);
    let w = glyphs_upto(data, chars, chars.len() as int);
    assert(w.to_set() =~= glyph_set(data, chars));
    assert(glyph_list(data, chars).to_set().contains(0));
    if chars.to_set() == other.to_set() {
        assert forall|g: u16| glyph_set(data, chars).contains(g) <==> glyph_set(data, other).contains(g) by {
            if g != 0 && glyph_set(data, chars).contains(g) {
                let j = choose|j: int| 0 <= j < chars.len() && cmap_glyph(data, #[trigger] chars[j]) == Some(g);
                assert(chars.to_set().contains(chars[j]));
                assert(other.to_set().contains(chars[j]));
                let k = choose|k: int| 0 <= k < other.len() && other[k] == chars[j];
                assert(cmap_glyph(data, other[k]) == Some(g));
            }
            if g != 0 && glyph_set(data, other).contains(g) {
                let j = choose|j: int| 0 <= j < other.len() && cmap_glyph(data, #[trigger] other[j]) == Some(g);
                assert(other.to_set().contains(other[j]));
                assert(chars.to_set().contains(other[j]));
                let k = choose|k: int| 0 <= k < chars.len() && chars[k] == other[j];
                assert(cmap_glyph(data, chars[k]) == Some(g));
            }
        }
        assert(glyph_set(data, chars) =~= glyph_set(data, other));
    }
}

/// Adds `g` to the increasing list `v` unless it is there.
fn insert_glyph(v: &mut Vec<u16>, g: u16)
    requires
        increasing(old(v)@),
    ensures
        increasing(final(v)@),
        final(v)@.to_set() == old(v)@.to_set().insert(g),
{
    let mut k: usize = 0;
    while k < v.len() && v[k] < g
        invariant
            k <= v@.len(),
            forall|j: int| 0 <= j < k ==> v@[j] < g,
        decreases v@.len() - k,
    {
        k += 1;
    }
    if k < v.len() && v[k] == g {
        assert(v@.to_set() =~= v@.to_set().insert(g)) by {
            assert(v@.contains(g));
        }
        return;
    }
    let ghost before = v@;
    v.insert(k, g);
    assert(v@ =~= before.take(k as int) + seq![g] + before.skip(k as int)) by {
        assert(before.insert(k as int, g) =~= before.take(k as int) + seq![g] + before.skip(k as int));
    }
    assert forall|y: u16| v@.contains(y) <==> before.contains(y) || y == g by {
        if v@.contains(y) {
            let j = choose|j: int| 0 <= j < v@.len() && v@[j] == y;
            if j < k {
                assert(before[j] == y);
            } else if j > k {
                assert(before[j - 1] == y);
            }
        }
        if before.contains(y) {
            let j = choose|j: int| 0 <= j < before.len() && before[j] == y;
            if j < k {
                assert(v@[j] == y);
            } else {
                assert(v@[j + 1] == y);
            }
        }
        if y == g {
            assert(v@[k as int] == y);
        }
    }
    assert forall|y: u16| v@.to_set().contains(y) <==> before.to_set().insert(g).contains(y) by {
        assert(v@.to_set().contains(y) == v@.contains(y));
        assert(before.to_set().contains(y) == before.contains(y));
        assert(v@.contains(y) <==> before.contains(y) || y == g);
    }
    assert(v@.to_set() =~= before.to_set().insert(g));
}

/// Subsets the font `original_bytes` to the glyphs the characters need,
/// with allsorts: glyph 0 and each glyph the character map gives one of
/// the characters, in increasing order without repeats. A font whose
/// `hhea` table holds no horizontal metrics fails with
/// `no_metrics_failure` before allsorts subsets it.
pub fn subset_with_allsorts(original_bytes: &[u8], required_chars: &[char]) -> (r: Result<Vec<u8>, SubsetFailure>)
    ensures
        match r {
            Ok(v) => spec_subset_with(original_bytes@, required_chars@) == Ok::<Seq<u8>, (SubsetErrorKind, Seq<char>)>(v@),
            Err(e) => spec_subset_with(original_bytes@, required_chars@) == Err::<Seq<u8>, (SubsetErrorKind, Seq<char>)>(e@),
        },
{
    let mapped = match map_glyphs(original_bytes, required_chars) {
        Ok(m) => m,
        Err(e) => return Err(e),
    };
    let mut glyph_ids: Vec<u16> = Vec::new();
    glyph_ids.push(0);
    assert(glyph_ids@[0] == 0);
    assert forall|y: u16| glyph_ids@.to_set().contains(y) <==> y == 0 by {
        if y == 0 {
            assert(glyph_ids@.contains(y));
        }
    }
    let mut i: usize = 0;
    while i < mapped.len()
        invariant
            i <= mapped@.len(),
            mapped@.len() == required_chars@.len(),
            forall|j: int| 0 <= j < required_chars@.len() ==> #[trigger] mapped@[j] == cmap_glyph(original_bytes@, required_chars@[j]),
            increasing(glyph_ids@),
            glyph_ids@.to_set() == Set::new(|g: u16| g == 0 || exists|j: int| 0 <= j < i && cmap_glyph(original_bytes@, #[trigger] required_chars@[j]) == Some(g)),
        decreases mapped@.len() - i,
    {
        let ghost before = glyph_ids@.to_set();
        match mapped[i] {
            Some(g) => insert_glyph(&mut glyph_ids, g),
            None => {},
        }
        assert(glyph_ids@.to_set() =~= Set::new(|g: u16| g == 0 || exists|j: int| 0 <= j < i + 1 && cmap_glyph(original_bytes@, #[trigger] required_chars@[j]) == Some(g))) by {
            assert forall|g: u16| (g == 0 || exists|j: int| 0 <= j < i + 1 && cmap_glyph(original_bytes@, #[trigger] required_chars@[j]) == Some(g))
                implies glyph_ids@.to_set().contains(g) by {
                if g != 0 {
                    let j = choose|j: int| 0 <= j < i + 1 && cmap_glyph(original_bytes@, #[trigger] required_chars@[j]) == Some(g);
                    if j < i {
                        assert(before.contains(g));
                    }
                }
            }
            assert forall|g: u16| glyph_ids@.to_set().contains(g)
                implies (g == 0 || exists|j: int| 0 <= j < i + 1 && cmap_glyph(original_bytes@, #[trigger] required_chars@[j]) == Some(g)) by {
                if before.contains(g) && g != 0 {
                    let j = choose|j: int| 0 <= j < i && cmap_glyph(original_bytes@, #[trigger] required_chars@[j]) == Some(g);
                    assert(0 <= j < i + 1);
                }
            }
        }
        i += 1;
    }
    assert(glyph_ids@.to_set() =~= glyph_set(original_bytes@, required_chars@));
    proof {
        lemma_increasing_unique(glyph_ids@, glyph_list(original_bytes@, required_chars@));
    }
    match read_hhea_metric_count(original_bytes) {
        Some(0) => {
            let detail = string_from_chars(&chars_of("subset: parse error: invalid data index"));
            return Err(failure(SubsetErrorKind::Subset, detail));
        },
        _ => {},
    }
    subset_glyphs(original_bytes, &glyph_ids)
}

/// Whether a failure's message marks a CFF charstring problem: it names
/// `CFF`, `endchar` or `unused data`.
pub open spec fn is_cff_failure(e: (SubsetErrorKind, Seq<char>)) -> bool {
    let m = failure_message(e);
    contains(m, "CFF"@) || contains(m, "endchar"@) || contains(m, "unused data"@)
}

/// What subsetting gives, with the retry: where the first attempt fails
/// with a CFF charstring error and the repair applies, the subset of the
/// repaired font if that succeeds; else the first attempt's result.
pub open spec fn spec_subset(data: Seq<u8>, chars: Seq<char>) -> Result<Seq<u8>, (SubsetErrorKind, Seq<char>)> {
    let first = spec_subset_with(data, chars);
    match first {
        Ok(_) => first,
        Err(e) => if is_cff_failure(e) && spec_fix_cff(data) is Some {
            let retry = spec_subset_with(spec_fix_cff(data)->Some_0, chars);
            if retry is Ok {
                retry
            } else {
                first
            }
        } else {
            first
        },
    }
}

/// Subsets a font to the glyphs the characters need. Where that fails with
/// a CFF charstring error (the message names `CFF`, `endchar` or `unused
/// data`) and the CFF repair applies, the repaired font is subset instead;
/// if that fails too, the first error stands.
pub fn subset(original_bytes: &[u8], required_chars: &[char]) -> (r: Result<Vec<u8>, SubsetFailure>)
    ensures
        match r {
            Ok(v) => spec_subset(original_bytes@, required_chars@) == Ok::<Seq<u8>, (SubsetErrorKind, Seq<char>)>(v@),
            Err(e) => spec_subset(original_bytes@, required_chars@) == Err::<Seq<u8>, (SubsetErrorKind, Seq<char>)>(e@),
        },
{
    match subset_with_allsorts(original_bytes, required_chars) {
        Ok(result) => Ok(result),
        Err(e) => {
            let message = e.message();
            if is_cff_charstring_error(message.as_str()) {
                let mut fixed = vstd::slice::slice_to_vec(original_bytes);
                if fix_cff_font(&mut fixed).is_some() {
                    match subset_with_allsorts(fixed.as_slice(), required_chars) {
                        Ok(result) => {
                            return Ok(result);
                        },
                        Err(_) => {},
                    }
                }
            }
            Err(e)
        },
    }
}

} // verus!
