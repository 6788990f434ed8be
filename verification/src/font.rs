//! Font records: the names, weight and slant of each face of a font file,
//! and the choice of the record that best serves a font request.

use vstd::prelude::*;
use crate::bytes::be32;
use crate::sfnt::is_collection;
use crate::ass::{Cmp, FontRequest, RequestKey, compare_chars, lemma_seq_lt_transitive, lemma_seq_lt_trichotomy, seq_lt};
use crate::text::{
    ascii_lower, ascii_lower_seq, chars_contains, chars_eq, chars_of, contains, is_white_space, is_whitespace, lower_ascii,
    string_from_chars, trim, trim_chars,
};

verus! {

/// A face found in a font file, as the index records it.
#[derive(Debug, Clone)]
pub struct FontRecord {
    pub display_name: String,
    pub normalized_name: String,
    pub path: String,
    pub face_index: u32,
    pub inferred_weight: i32,
    pub is_italic: bool,
    pub aliases: Vec<String>,
}

/// A font record as plain values.
pub struct RecordView {
    pub display_name: Seq<char>,
    pub normalized_name: Seq<char>,
    pub path: Seq<char>,
    pub face_index: u32,
    pub inferred_weight: i32,
    pub is_italic: bool,
    pub aliases: Seq<Seq<char>>,
}

/// The characters of each string.
pub open spec fn strings_view(v: Seq<String>) -> Seq<Seq<char>> {
    v.map_values(|s: String| s@)
}

impl View for FontRecord {
    type V = RecordView;

    open spec fn view(&self) -> RecordView {
        RecordView {
            display_name: self.display_name@,
            normalized_name: self.normalized_name@,
            path: self.path@,
            face_index: self.face_index,
            inferred_weight: self.inferred_weight,
            is_italic: self.is_italic,
            aliases: strings_view(self.aliases@),
        }
    }
}

/// What `char::to_lowercase` yields for `c`: its Unicode lowercase mapping.
pub uninterp spec fn char_lowercase(c: char) -> Seq<char>;

/// The Unicode lowercase mapping of `c` (`char::to_lowercase`), one or more
/// characters. The contract names the result and states, as the
/// documentation and the Unicode tables do, that it is never empty and that
/// an ASCII character maps to its ASCII lowercase alone (`A`..=`Z` to the
/// letter 32 higher, every other ASCII character to itself).
#[verifier::external_body]
fn lowercase_of(c: char) -> (r: Vec<char>)
    ensures
        r@ == char_lowercase(c),
        r@.len() >= 1,
        (c as u32) < 128 ==> r@ == seq![ascii_lower(c)],
{
    c.to_lowercase().collect()
}

/// The characters that a normalized font name leaves out besides white
/// space.
pub open spec fn is_name_separator(c: char) -> bool {
    c == '-' || c == '_' || c == '@' || c == ',' || c == ':'
}

/// The lowercase of one character: an ASCII character's ASCII lowercase,
/// another character's Unicode lowercase mapping.
pub open spec fn lower_char(c: char) -> Seq<char> {
    if (c as u32) < 128 {
        seq![ascii_lower(c)]
    } else {
        char_lowercase(c)
    }
}

/// A font name reduced for comparison: white space and separators dropped,
/// the rest in lowercase.
pub open spec fn normalized(s: Seq<char>) -> Seq<char>
    decreases s.len(),
{
    if s.len() == 0 {
        Seq::empty()
    } else {
        let c = s.last();
        normalized(s.drop_last()) + if is_white_space(c) || is_name_separator(c) {
            Seq::empty()
        } else {
            lower_char(c)
        }
    }
}

/// The ASCII uppercase of one character; other characters are kept.
pub open spec fn ascii_upper(c: char) -> char {
    if 'a' <= c <= 'z' {
        ((c as u32) - 32) as char
    } else {
        c
    }
}

/// Every character is ASCII.
pub open spec fn is_ascii_seq(s: Seq<char>) -> bool {
    forall|i: int| 0 <= i < s.len() ==> (s[i] as u32) < 128
}

proof fn lemma_upper_char(c: char)
    ensures
        (c as u32) < 128 <==> (ascii_upper(c) as u32) < 128,
        (c as u32) < 128 ==> ascii_lower(ascii_upper(c)) == ascii_lower(c),
        (c as u32) >= 128 ==> ascii_upper(c) == c,
        is_white_space(ascii_upper(c)) == is_white_space(c),
        is_name_separator(ascii_upper(c)) == is_name_separator(c),
{
    if 'a' <= c <= 'z' {
        let u = ascii_upper(c);
        assert(u as u32 == (c as u32) - 32);
        assert('A' <= u <= 'Z');
        assert(ascii_lower(u) as u32 == c as u32);
    }
}

/// Uppercasing the ASCII letters of a name does not change its normal form.
pub proof fn law_normalized_ignores_ascii_case(s: Seq<char>)
    ensures
        normalized(s.map_values(|c: char| ascii_upper(c))) == normalized(s),
    decreases s.len(),
{
    let u = s.map_values(|c: char| ascii_upper(c));
    if s.len() > 0 {
        law_normalized_ignores_ascii_case(s.drop_last());
        assert(u.drop_last() =~= s.drop_last().map_values(|c: char| ascii_upper(c)));
        lemma_upper_char(s.last());
        assert(u.last() == ascii_upper(s.last()));
    }
}

proof fn lemma_lower_char_clean(c: char)
    requires
        (c as u32) < 128,
        !(is_white_space(c) || is_name_separator(c)),
    ensures
        lower_char(c) == seq![ascii_lower(c)],
        (ascii_lower(c) as u32) < 128,
        !(is_white_space(ascii_lower(c)) || is_name_separator(ascii_lower(c))),
        ascii_lower(ascii_lower(c)) == ascii_lower(c),
        !('A' <= ascii_lower(c) <= 'Z'),
{
    if 'A' <= c <= 'Z' {
        let l = ascii_lower(c);
        assert(l as u32 == (c as u32) + 32);
        assert('a' <= l <= 'z');
    }
}

proof fn lemma_normalized_concat(a: Seq<char>, b: Seq<char>)
    ensures
        normalized(a + b) == normalized(a) + normalized(b),
    decreases b.len(),
{
    if b.len() == 0 {
        assert(a + b =~= a);
        assert(normalized(a) + normalized(b) =~= normalized(a));
    } else {
        lemma_normalized_concat(a, b.drop_last());
        assert((a + b).drop_last() =~= a + b.drop_last());
        assert((a + b).last() == b.last());
    }
}

/// The normal form of an ASCII name is ASCII, holds no white space, no
/// separator and no uppercase letter, and normalizing it again changes
/// nothing.
pub proof fn law_normalized_ascii(s: Seq<char>)
    requires
        is_ascii_seq(s),
    ensures
        is_ascii_seq(normalized(s)),
        forall|i: int| 0 <= i < normalized(s).len() ==> !is_white_space(#[trigger] normalized(s)[i])
            && !is_name_separator(normalized(s)[i]) && !('A' <= normalized(s)[i] <= 'Z'),
        normalized(normalized(s)) == normalized(s),
    decreases s.len(),
{
    if s.len() > 0 {
        let p = s.drop_last();
        assert(is_ascii_seq(p));
        law_normalized_ascii(p);
        let c = s.last();
        let n = normalized(s);
        let np = normalized(p);
        if is_white_space(c) || is_name_separator(c) {
            assert(n =~= np);
        } else {
            lemma_lower_char_clean(c);
            let l = ascii_lower(c);
            assert(n == np + seq![l]);
            assert forall|i: int| 0 <= i < n.len() implies (n[i] as u32) < 128 by {
                if i < np.len() {
                    assert(n[i] == np[i]);
                }
            }
            assert forall|i: int| 0 <= i < n.len() implies !is_white_space(#[trigger] n[i])
                && !is_name_separator(n[i]) && !('A' <= n[i] <= 'Z') by {
                if i < np.len() {
                    assert(n[i] == np[i]);
                }
            }
            lemma_normalized_concat(np, seq![l]);
            assert(seq![l].drop_last() =~= Seq::<char>::empty());
            assert(normalized(seq![l]) == normalized(Seq::<char>::empty()) + lower_char(l));
            assert(normalized(seq![l]) =~= seq![l]);
        }
    }
}

/// The name reduced for comparison: white space and `- _ @ , :` dropped,
/// the rest lowercased.
pub fn normalize_font_name(value: &str) -> (r: String)
    ensures
        r@ == normalized(value@),
{
    let chars = chars_of(value);
    let mut out: Vec<char> = Vec::new();
    let mut i: usize = 0;
    while i < chars.len()
        invariant
            i <= chars@.len(),
            chars@ == value@,
            out@ == normalized(chars@.take(i as int)),
        decreases chars@.len() - i,
    {
        let c = chars[i];
        assert(chars@.take(i + 1).drop_last() == chars@.take(i as int));
        assert(chars@.take(i + 1).last() == c);
        if !(is_whitespace(c) || c == '-' || c == '_' || c == '@' || c == ',' || c == ':') {
            let lower = lowercase_of(c);
            assert(lower@ == lower_char(c));
            let mut k: usize = 0;
            while k < lower.len()
                invariant
                    k <= lower@.len(),
                    out@ == normalized(chars@.take(i as int)) + lower@.take(k as int),
                decreases lower@.len() - k,
            {
                out.push(lower[k]);
                assert(lower@.take(k + 1) == lower@.take(k as int).push(lower@[k as int]));
                k += 1;
            }
            assert(lower@.take(lower@.len() as int) == lower@);
        } else {
            assert(normalized(chars@.take(i + 1)) == normalized(chars@.take(i as int)) + Seq::<char>::empty());
        }
        i += 1;
    }
    assert(chars@.take(chars@.len() as int) == chars@);
    string_from_chars(&out)
}

/// The weight that a font name suggests by its words.
pub open spec fn spec_infer_weight(name: Seq<char>) -> i32 {
    let lower = ascii_lower_seq(name);
    if contains(lower, seq!['b', 'l', 'a', 'c', 'k']) || contains(lower, seq!['h', 'e', 'a', 'v', 'y']) {
        900
    } else if contains(lower, seq!['e', 'x', 't', 'r', 'a', 'b', 'o', 'l', 'd']) || contains(
        lower,
        seq!['u', 'l', 't', 'r', 'a', 'b', 'o', 'l', 'd'],
    ) {
        800
    } else if contains(lower, seq!['s', 'e', 'm', 'i', 'b', 'o', 'l', 'd']) || contains(
        lower,
        seq!['d', 'e', 'm', 'i', 'b', 'o', 'l', 'd'],
    ) {
        600
    } else if contains(lower, seq!['b', 'o', 'l', 'd']) {
        700
    } else if contains(lower, seq!['m', 'e', 'd', 'i', 'u', 'm']) {
        500
    } else if contains(lower, seq!['l', 'i', 'g', 'h', 't']) {
        300
    } else if contains(lower, seq!['t', 'h', 'i', 'n']) {
        200
    } else {
        400
    }
}

/// Whether a font name suggests a slanted face.
pub open spec fn spec_infer_italic(name: Seq<char>) -> bool {
    let lower = ascii_lower_seq(name);
    contains(lower, seq!['i', 't', 'a', 'l', 'i', 'c']) || contains(lower, seq!['o', 'b', 'l', 'i', 'q', 'u', 'e'])
}

/// The weight that the words of a font name suggest: 900 for black or
/// heavy, 800 extrabold, 600 semibold, 700 bold, 500 medium, 300 light,
/// 200 thin, else 400.
pub fn infer_weight(name: &str) -> (r: i32)
    ensures
        r == spec_infer_weight(name@),
{
    let lower = lower_ascii(&chars_of(name));
    if chars_contains(&lower, &['b', 'l', 'a', 'c', 'k']) || chars_contains(&lower, &['h', 'e', 'a', 'v', 'y']) {
        900
    } else if chars_contains(&lower, &['e', 'x', 't', 'r', 'a', 'b', 'o', 'l', 'd']) || chars_contains(
        &lower,
        &['u', 'l', 't', 'r', 'a', 'b', 'o', 'l', 'd'],
    ) {
        800
    } else if chars_contains(&lower, &['s', 'e', 'm', 'i', 'b', 'o', 'l', 'd']) || chars_contains(
        &lower,
        &['d', 'e', 'm', 'i', 'b', 'o', 'l', 'd'],
    ) {
        600
    } else if chars_contains(&lower, &['b', 'o', 'l', 'd']) {
        700
    } else if chars_contains(&lower, &['m', 'e', 'd', 'i', 'u', 'm']) {
        500
    } else if chars_contains(&lower, &['l', 'i', 'g', 'h', 't']) {
        300
    } else if chars_contains(&lower, &['t', 'h', 'i', 'n']) {
        200
    } else {
        400
    }
}

/// Whether the name says italic or oblique, in any ASCII case.
pub fn infer_italic(name: &str) -> (r: bool)
    ensures
        r == spec_infer_italic(name@),
{
    let lower = lower_ascii(&chars_of(name));
    chars_contains(&lower, &['i', 't', 'a', 'l', 'i', 'c']) || chars_contains(&lower, &['o', 'b', 'l', 'i', 'q', 'u', 'e'])
}

/// The record of a face known only by its file name: face 0, with weight
/// and slant guessed from the name.
pub open spec fn spec_fallback_record(path: Seq<char>, name: Seq<char>) -> RecordView {
    RecordView {
        display_name: name,
        normalized_name: normalized(name),
        path: path,
        face_index: 0,
        inferred_weight: spec_infer_weight(name),
        is_italic: spec_infer_italic(name),
        aliases: seq![name],
    }
}

/// A record for a font file that could not be read or parsed, named after
/// the file.
pub fn fallback_record(path: &str, fallback_name: &str) -> (r: FontRecord)
    ensures
        r@ == spec_fallback_record(path@, fallback_name@),
{
    let name = string_from_chars(&chars_of(fallback_name));
    let mut aliases: Vec<String> = Vec::new();
    aliases.push(string_from_chars(&chars_of(fallback_name)));
    let r = FontRecord {
        normalized_name: normalize_font_name(fallback_name),
        display_name: name,
        path: string_from_chars(&chars_of(path)),
        face_index: 0,
        inferred_weight: infer_weight(fallback_name),
        is_italic: infer_italic(fallback_name),
        aliases,
    };
    assert(strings_view(r.aliases@) =~= seq![fallback_name@]);
    r
}

/// The records as plain values.
pub open spec fn records_view(fs: Seq<FontRecord>) -> Seq<RecordView> {
    fs.map_values(|f: FontRecord| f@)
}

/// A record answers to the (normalized) name `target` by its own name or by
/// one of its aliases.
pub open spec fn is_candidate(f: RecordView, target: Seq<char>) -> bool {
    f.normalized_name == target || exists|k: int| 0 <= k < f.aliases.len() && normalized(#[trigger] f.aliases[k]) == target
}

/// The weight a request asks for: its own when 600 or more, else 400.
pub open spec fn requested_weight(req: RequestKey) -> int {
    if req.bold >= 600 {
        req.bold as int
    } else {
        400
    }
}

/// How far a record is from a request: the weight gap, plus 300 when the
/// slant differs. Lower is better.
pub open spec fn match_score(f: RecordView, req: RequestKey) -> int {
    let gap = f.inferred_weight - requested_weight(req);
    (if gap < 0 { -gap } else { gap }) + if f.is_italic == req.italic { 0int } else { 300int }
}

/// Among the first `i` records, the first candidate with the lowest score.
pub open spec fn best_upto(fs: Seq<RecordView>, req: RequestKey, i: int) -> Option<int>
    decreases i,
{
    if i <= 0 {
        None
    } else {
        let prev = best_upto(fs, req, i - 1);
        if !is_candidate(fs[i - 1], normalized(req.font_name)) {
            prev
        } else {
            match prev {
                None => Some(i - 1),
                Some(j) => if match_score(fs[i - 1], req) < match_score(fs[j], req) {
                    Some(i - 1)
                } else {
                    Some(j)
                },
            }
        }
    }
}

/// The record that serves a request best: the first candidate with the
/// lowest score.
pub open spec fn best_match(fs: Seq<RecordView>, req: RequestKey) -> Option<int> {
    best_upto(fs, req, fs.len() as int)
}

/// Whether `f` answers to the normalized name `target`.
fn record_matches(f: &FontRecord, target: &[char]) -> (r: bool)
    ensures
        r == is_candidate(f@, target@),
{
    if chars_eq(&chars_of(f.normalized_name.as_str()), target) {
        return true;
    }
    let mut k: usize = 0;
    while k < f.aliases.len()
        invariant
            k <= f.aliases@.len(),
            f@.normalized_name != target@,
            forall|j: int| 0 <= j < k ==> normalized(#[trigger] f@.aliases[j]) != target@,
        decreases f.aliases@.len() - k,
    {
        let alias = normalize_font_name(f.aliases[k].as_str());
        if chars_eq(&chars_of(alias.as_str()), target) {
            assert(normalized(f@.aliases[k as int]) == target@);
            return true;
        }
        k += 1;
    }
    false
}

/// The score of `f` for a request, as `match_score` says.
fn score_of(f: &FontRecord, request: &FontRequest) -> (r: i64)
    ensures
        r == match_score(f@, request@),
{
    let req_weight: i64 = if request.bold >= 600 { request.bold as i64 } else { 400 };
    let gap: i64 = f.inferred_weight as i64 - req_weight;
    let abs_gap: i64 = if gap < 0 { -gap } else { gap };
    abs_gap + if f.is_italic == request.italic { 0 } else { 300 }
}

/// The font record that serves a request best, if any record answers to
/// its name: the one whose weight is nearest the request's (600 and above
/// as asked, else 400) with a penalty of 300 for the wrong slant; the first
/// such record on ties.
pub fn match_best_font<'a>(fonts: &'a [FontRecord], request: &FontRequest) -> (r: Option<&'a FontRecord>)
    ensures
        match best_match(records_view(fonts@), request@) {
            None => r is None,
            Some(k) => r matches Some(f) && 0 <= k < fonts@.len() && *f == fonts@[k],
        },
{
    let target = chars_of(normalize_font_name(request.font_name.as_str()).as_str());
    let ghost fs = records_view(fonts@);
    let mut best: Option<usize> = None;
    let mut best_score: i64 = 0;
    let mut i: usize = 0;
    while i < fonts.len()
        invariant
            i <= fonts@.len(),
            fs == records_view(fonts@),
            target@ == normalized(request@.font_name),
            match best_upto(fs, request@, i as int) {
                None => best is None,
                Some(k) => best == Some(k as usize) && 0 <= k < i && best_score == match_score(fs[k], request@),
            },
        decreases fonts@.len() - i,
    {
        if record_matches(&fonts[i], &target) {
            let score = score_of(&fonts[i], request);
            match best {
                None => {
                    best = Some(i);
                    best_score = score;
                },
                Some(_) => {
                    if score < best_score {
                        best = Some(i);
                        best_score = score;
                    }
                },
            }
        }
        i += 1;
    }
    match best {
        None => None,
        Some(k) => Some(&fonts[k]),
    }
}

proof fn lemma_best_upto(fs: Seq<RecordView>, req: RequestKey, i: int)
    requires
        0 <= i <= fs.len(),
    ensures
        best_upto(fs, req, i) is None <==> forall|j: int| 0 <= j < i ==> !is_candidate(#[trigger] fs[j], normalized(req.font_name)),
        best_upto(fs, req, i) matches Some(k) ==> {
            &&& 0 <= k < i
            &&& is_candidate(fs[k], normalized(req.font_name))
            &&& forall|j: int| 0 <= j < i && is_candidate(#[trigger] fs[j], normalized(req.font_name)) ==> match_score(fs[k], req) <= match_score(fs[j], req)
            &&& forall|j: int| 0 <= j < k && is_candidate(#[trigger] fs[j], normalized(req.font_name)) ==> match_score(fs[k], req) < match_score(fs[j], req)
        },
    decreases i,
{
    if i > 0 {
        lemma_best_upto(fs, req, i - 1);
    }
}

/// The record chosen for a request answers to its name, scores no worse
/// than any other that does, and strictly better than every one before it;
/// there is none only when no record answers to the name.
pub proof fn law_best_match(fs: Seq<RecordView>, req: RequestKey)
    ensures
        best_match(fs, req) is None <==> forall|j: int| 0 <= j < fs.len() ==> !is_candidate(#[trigger] fs[j], normalized(req.font_name)),
        best_match(fs, req) matches Some(k) ==> {
            &&& 0 <= k < fs.len()
            &&& is_candidate(fs[k], normalized(req.font_name))
            &&& forall|j: int| 0 <= j < fs.len() && is_candidate(#[trigger] fs[j], normalized(req.font_name)) ==> match_score(fs[k], req) <= match_score(fs[j], req)
            &&& forall|j: int| 0 <= j < k && is_candidate(#[trigger] fs[j], normalized(req.font_name)) ==> match_score(fs[k], req) < match_score(fs[j], req)
        },
{
    lemma_best_upto(fs, req, fs.len() as int);
}

/// A slant that differs from the request's costs 300 over one that
/// matches, whichever way it differs: of two records of the same weight,
/// the one whose slant differs scores 300 more.
pub proof fn law_slant_penalty(f: RecordView, g: RecordView, req: RequestKey)
    requires
        f.inferred_weight == g.inferred_weight,
        f.is_italic == req.italic,
        g.is_italic != req.italic,
    ensures
        match_score(g, req) == match_score(f, req) + 300,
{
}

/// Of two records with the same slant, the one whose weight lies nearer the
/// requested weight scores lower, by exactly the difference in distance.
pub proof fn law_weight_distance(f: RecordView, g: RecordView, req: RequestKey)
    requires
        f.is_italic == g.is_italic,
    ensures
        ({
            let df = f.inferred_weight - requested_weight(req);
            let dg = g.inferred_weight - requested_weight(req);
            let af = if df < 0 { -df } else { df };
            let ag = if dg < 0 { -dg } else { dg };
            match_score(g, req) - match_score(f, req) == ag - af
        }),
{
}

/// Of two candidates of the same weight, one with the request's slant and
/// one without, the one without is never chosen: an upright request gets an
/// upright face over an italic one of the same weight, and an italic request
/// the reverse.
pub proof fn law_matching_slant_preferred(fs: Seq<RecordView>, req: RequestKey, i: int, j: int)
    requires
        0 <= i < fs.len(),
        0 <= j < fs.len(),
        is_candidate(fs[i], normalized(req.font_name)),
        is_candidate(fs[j], normalized(req.font_name)),
        fs[i].inferred_weight == fs[j].inferred_weight,
        fs[j].is_italic == req.italic,
        fs[i].is_italic != req.italic,
    ensures
        best_match(fs, req) is Some,
        best_match(fs, req) != Some(i),
{
    law_best_match(fs, req);
    law_slant_penalty(fs[j], fs[i], req);
}

/// Whether `ext` names a font file type that the index reads: ttf, otf,
/// ttc, otc, woff or woff2, in any ASCII case.
pub open spec fn spec_supported_extension(ext: Seq<char>) -> bool {
    let e = ascii_lower_seq(ext);
    e == seq!['t', 't', 'f'] || e == seq!['o', 't', 'f'] || e == seq!['t', 't', 'c'] || e == seq!['o', 't', 'c']
        || e == seq!['w', 'o', 'f', 'f'] || e == seq!['w', 'o', 'f', 'f', '2']
}

/// Whether a file extension names a font type that the index reads.
pub fn is_supported_extension(ext: &str) -> (r: bool)
    ensures
        r == spec_supported_extension(ext@),
{
    let e = lower_ascii(&chars_of(ext));
    chars_eq(&e, &['t', 't', 'f']) || chars_eq(&e, &['o', 't', 'f']) || chars_eq(&e, &['t', 't', 'c'])
        || chars_eq(&e, &['o', 't', 'c']) || chars_eq(&e, &['w', 'o', 'f', 'f']) || chars_eq(
        &e,
        &['w', 'o', 'f', 'f', '2'],
    )
}

/// The position of the last `c` in `p`, or -1 where there is none.
pub open spec fn last_index_of(p: Seq<char>, c: char) -> int
    decreases p.len(),
{
    if p.len() == 0 {
        -1
    } else if p.last() == c {
        p.len() - 1
    } else {
        last_index_of(p.drop_last(), c)
    }
}

/// The last index of a character lies within the sequence, and holds it.
pub proof fn lemma_last_index_of(p: Seq<char>, c: char)
    ensures
        -1 <= last_index_of(p, c) < p.len(),
        last_index_of(p, c) >= 0 ==> p[last_index_of(p, c)] == c,
        forall|i: int| last_index_of(p, c) < i < p.len() ==> p[i] != c,
    decreases p.len(),
{
    if p.len() > 0 && p.last() != c {
        lemma_last_index_of(p.drop_last(), c);
        assert forall|i: int| last_index_of(p, c) < i < p.len() implies p[i] != c by {
            if i < p.len() - 1 {
                assert(p.drop_last()[i] == p[i]);
            }
        }
    }
}

/// A path that every platform splits alike: `/` is its only separator
/// (no `\`, no `:` that could start a drive prefix) and it does not start
/// with `//`, which on Windows may open a network prefix.
pub open spec fn portable_path(p: Seq<char>) -> bool {
    &&& !p.contains('\\')
    &&& !p.contains(':')
    &&& !(p.len() >= 2 && p[0] == '/' && p[1] == '/')
}

/// The file name of a `/`-separated path (`Path::file_name`): its last
/// component, where repeated and trailing separators and `.` components are
/// ignored; none where that is `..` or there is no component at all.
pub open spec fn final_component(p: Seq<char>) -> Option<Seq<char>>
    decreases p.len(),
{
    if p.len() == 0 {
        None
    } else if p.last() == '/' {
        final_component(p.drop_last())
    } else {
        let k = last_index_of(p, '/');
        proof {
            lemma_last_index_of(p, '/');
        }
        let seg = p.subrange(k + 1, p.len() as int);
        if seg == seq!['.'] {
            final_component(p.subrange(0, k + 1))
        } else if seg == seq!['.', '.'] {
            None
        } else {
            Some(seg)
        }
    }
}

/// The extension of a `/`-separated path (`Path::extension`): what follows
/// the last `.` of its file name; none where the name has no `.` but a
/// leading one.
pub open spec fn spec_path_extension(p: Seq<char>) -> Option<Seq<char>> {
    match final_component(p) {
        None => None,
        Some(n) => {
            let k = last_index_of(n, '.');
            if k <= 0 {
                None
            } else {
                Some(n.subrange(k + 1, n.len() as int))
            }
        },
    }
}

/// The stem of a `/`-separated path (`Path::file_stem`): its file name
/// before the last `.`; the whole name where it has no `.` but a leading one.
pub open spec fn spec_path_file_stem(p: Seq<char>) -> Option<Seq<char>> {
    match final_component(p) {
        None => None,
        Some(n) => {
            let k = last_index_of(n, '.');
            if k <= 0 {
                Some(n)
            } else {
                Some(n.subrange(0, k))
            }
        },
    }
}

/// An optional string as plain values.
pub open spec fn opt_chars(s: Option<String>) -> Option<Seq<char>> {
    match s {
        Some(t) => Some(t@),
        None => None,
    }
}

/// The extension of the file a path names (`Path::extension`), if it has
/// one. For a path that every platform splits alike, the documented rule:
/// what follows the last `.` of the final component. Of other paths
/// (Windows prefixes, backslash separators) nothing is stated: how they split
/// depends on the platform.
#[verifier::external_body]
pub(crate) fn path_extension(path: &str) -> (r: Option<String>)
    ensures
        portable_path(path@) ==> opt_chars(r) == spec_path_extension(path@),
{
    std::path::Path::new(path).extension().and_then(|x| x.to_str()).map(|x| x.to_string())
}

/// The name of the file a path names without its extension
/// (`Path::file_stem`), if it has one. For a path that every platform
/// splits alike, the documented rule: the final component before its last
/// `.`. Of other paths nothing is stated: how they split depends on the
/// platform.
#[verifier::external_body]
pub(crate) fn path_file_stem(path: &str) -> (r: Option<String>)
    ensures
        portable_path(path@) ==> opt_chars(r) == spec_path_file_stem(path@),
{
    std::path::Path::new(path).file_stem().and_then(|x| x.to_str()).map(|x| x.to_string())
}

/// Whether a path names a font file by its extension: the extension that
/// the platform reads in the path, checked by `is_supported_extension`.
/// For a path that every platform splits alike, that extension is the one
/// of `spec_path_extension`.
pub fn supported_font_extension(path: &str) -> (r: bool)
    ensures
        portable_path(path@) ==> r == match spec_path_extension(path@) {
            Some(e) => spec_supported_extension(e),
            None => false,
        },
{
    match path_extension(path) {
        Some(ext) => is_supported_extension(ext.as_str()),
        None => false,
    }
}

/// The name IDs whose strings serve as aliases: family, full name,
/// PostScript name and typographic family.
pub open spec fn is_alias_name_id(id: u16) -> bool {
    id == 1 || id == 4 || id == 6 || id == 16
}

/// The name records of a face as plain values: name ID and decoded text.
pub open spec fn names_view(names: Seq<(u16, Option<String>)>) -> Seq<(u16, Option<Seq<char>>)> {
    names.map_values(
        |n: (u16, Option<String>)|
            (
                n.0,
                match n.1 {
                    Some(t) => Some(t@),
                    None => None,
                },
            ),
    )
}

/// Where `x` goes in the sorted sequence `s`: before the first element that
/// is not less than it.
pub open spec fn sorted_pos(s: Seq<Seq<char>>, x: Seq<char>, i: int) -> int
    decreases s.len() - i,
{
    if i < 0 || i >= s.len() {
        s.len() as int
    } else if seq_lt(s[i], x) {
        sorted_pos(s, x, i + 1)
    } else {
        i
    }
}

/// `s` with `x` added in its place, unless it is there already.
pub open spec fn insert_sorted(s: Seq<Seq<char>>, x: Seq<char>) -> Seq<Seq<char>> {
    let k = sorted_pos(s, x, 0);
    if k < s.len() && s[k] == x {
        s
    } else {
        s.insert(k, x)
    }
}

/// The alias texts of the first `i` name records, each inserted in order
/// into a sorted list without repeats.
pub open spec fn aliases_upto(names: Seq<(u16, Option<Seq<char>>)>, i: int) -> Seq<Seq<char>>
    decreases i,
{
    if i <= 0 {
        Seq::empty()
    } else {
        let prev = aliases_upto(names, i - 1);
        let n = names[i - 1];
        if is_alias_name_id(n.0) && n.1 is Some && trim(n.1->Some_0).len() > 0 {
            insert_sorted(prev, trim(n.1->Some_0))
        } else {
            prev
        }
    }
}

/// The aliases of a face: the trimmed, non-empty texts of its family, full,
/// PostScript and typographic family names, sorted and without repeats; the
/// fallback name alone when there are none.
pub open spec fn spec_aliases(names: Seq<(u16, Option<Seq<char>>)>, fallback: Seq<char>) -> Seq<Seq<char>> {
    let a = aliases_upto(names, names.len() as int);
    if a.len() == 0 {
        seq![fallback]
    } else {
        a
    }
}

/// Each element is less than the next, by `String` order.
pub open spec fn strictly_sorted(s: Seq<Seq<char>>) -> bool {
    forall|i: int, j: int| 0 <= i < j < s.len() ==> seq_lt(#[trigger] s[i], #[trigger] s[j])
}

proof fn lemma_sorted_pos(s: Seq<Seq<char>>, x: Seq<char>, i: int)
    requires
        0 <= i <= s.len(),
    ensures
        i <= sorted_pos(s, x, i) <= s.len(),
        forall|j: int| i <= j < sorted_pos(s, x, i) ==> seq_lt(#[trigger] s[j], x),
        sorted_pos(s, x, i) < s.len() ==> !seq_lt(s[sorted_pos(s, x, i)], x),
    decreases s.len() - i,
{
    if i < s.len() && seq_lt(s[i], x) {
        lemma_sorted_pos(s, x, i + 1);
    }
}

proof fn lemma_insert_sorted(s: Seq<Seq<char>>, x: Seq<char>)
    requires
        strictly_sorted(s),
    ensures
        strictly_sorted(insert_sorted(s, x)),
        forall|y: Seq<char>| insert_sorted(s, x).contains(y) <==> (s.contains(y) || y == x),
{
    let k = sorted_pos(s, x, 0);
    lemma_sorted_pos(s, x, 0);
    if k < s.len() && s[k] == x {
        assert(s.contains(x));
    } else {
        let t = s.insert(k, x);
        if k < s.len() {
            lemma_seq_lt_trichotomy(s[k], x);
        }
        assert forall|i: int, j: int| 0 <= i < j < t.len() implies seq_lt(#[trigger] t[i], #[trigger] t[j]) by {
            if j < k {
                assert(seq_lt(s[i], s[j]));
            } else if i < k && j == k {
            } else if i < k && j > k {
                assert(seq_lt(s[i], s[j - 1]));
            } else if i == k && j > k {
                if j - 1 > k {
                    assert(seq_lt(s[k], s[j - 1]));
                    lemma_seq_lt_transitive(x, s[k], s[j - 1]);
                }
            } else {
                assert(seq_lt(s[i - 1], s[j - 1]));
            }
        }
        assert forall|y: Seq<char>| t.contains(y) <==> (s.contains(y) || y == x) by {
            if t.contains(y) {
                let j = choose|j: int| 0 <= j < t.len() && t[j] == y;
                if j < k {
                    assert(s[j] == y);
                } else if j > k {
                    assert(s[j - 1] == y);
                }
            }
            if s.contains(y) {
                let j = choose|j: int| 0 <= j < s.len() && s[j] == y;
                if j < k {
                    assert(t[j] == y);
                } else {
                    assert(t[j + 1] == y);
                }
            }
            if y == x {
                assert(t[k] == y);
            }
        }
    }
}

/// The text that name record `n` contributes as an alias, if any.
pub open spec fn alias_text(n: (u16, Option<Seq<char>>)) -> Option<Seq<char>> {
    if is_alias_name_id(n.0) && n.1 is Some && trim(n.1->Some_0).len() > 0 {
        Some(trim(n.1->Some_0))
    } else {
        None
    }
}

proof fn lemma_aliases_upto(names: Seq<(u16, Option<Seq<char>>)>, i: int)
    requires
        0 <= i <= names.len(),
    ensures
        strictly_sorted(aliases_upto(names, i)),
        forall|y: Seq<char>| aliases_upto(names, i).contains(y) <==> exists|j: int| 0 <= j < i && #[trigger] alias_text(names[j]) == Some(y),
    decreases i,
{
    if i > 0 {
        lemma_aliases_upto(names, i - 1);
        let prev = aliases_upto(names, i - 1);
        if alias_text(names[i - 1]) is Some {
            lemma_insert_sorted(prev, trim(names[i - 1].1->Some_0));
        }
        assert forall|y: Seq<char>| aliases_upto(names, i).contains(y) <==> exists|j: int| 0 <= j < i && #[trigger] alias_text(names[j]) == Some(y) by {
            if exists|j: int| 0 <= j < i && #[trigger] alias_text(names[j]) == Some(y) {
                let j = choose|j: int| 0 <= j < i && #[trigger] alias_text(names[j]) == Some(y);
                if j < i - 1 {
                    assert(exists|j2: int| 0 <= j2 < i - 1 && #[trigger] alias_text(names[j2]) == Some(y));
                }
            }
            if prev.contains(y) {
                let j = choose|j: int| 0 <= j < i - 1 && #[trigger] alias_text(names[j]) == Some(y);
                assert(0 <= j < i && alias_text(names[j]) == Some(y));
            }
        }
    }
}

/// The aliases of a face are sorted without repeats, and are exactly the
/// trimmed, non-empty texts of its family, full, PostScript and typographic
/// family names; the fallback name alone when there is none.
pub proof fn law_aliases(names: Seq<(u16, Option<Seq<char>>)>, fallback: Seq<char>)
    ensures
        strictly_sorted(spec_aliases(names, fallback)),
        spec_aliases(names, fallback).len() >= 1,
        (exists|j: int| 0 <= j < names.len() && #[trigger] alias_text(names[j]) is Some) ==> forall|y: Seq<char>|
            spec_aliases(names, fallback).contains(y) <==> exists|j: int|
                0 <= j < names.len() && #[trigger] alias_text(names[j]) == Some(y),
        (forall|j: int| 0 <= j < names.len() ==> #[trigger] alias_text(names[j]) is None) ==> spec_aliases(names, fallback)
            == seq![fallback],
{
    lemma_aliases_upto(names, names.len() as int);
    let a = aliases_upto(names, names.len() as int);
    if exists|j: int| 0 <= j < names.len() && #[trigger] alias_text(names[j]) is Some {
        let j = choose|j: int| 0 <= j < names.len() && #[trigger] alias_text(names[j]) is Some;
        let y = alias_text(names[j])->Some_0;
        assert(a.contains(y));
    } else {
        if a.len() > 0 {
            assert(a.contains(a[0]));
        }
    }
}

/// Inserts `x` into the sorted list `v` unless it is there already.
pub(crate) fn insert_sorted_chars(v: &mut Vec<Vec<char>>, x: Vec<char>)
    ensures
        chars_view(final(v)@) == insert_sorted(chars_view(old(v)@), x@),
{
    let ghost s = chars_view(v@);
    let mut k: usize = 0;
    while k < v.len() && compare_chars(&v[k], &x) == Cmp::Less
        invariant
            k <= v@.len(),
            s == chars_view(v@),
            sorted_pos(s, x@, 0) == sorted_pos(s, x@, k as int),
        decreases v@.len() - k,
    {
        k += 1;
    }
    if k < v.len() && compare_chars(&v[k], &x) == Cmp::Equal {
        return;
    }
    v.insert(k, x);
    assert(chars_view(v@) =~= s.insert(k as int, x@));
}

/// The characters of each character vector.
pub open spec fn chars_view(v: Seq<Vec<char>>) -> Seq<Seq<char>> {
    v.map_values(|c: Vec<char>| c@)
}

/// The aliases of a face from its name records: the trimmed, non-empty
/// texts of the family, full, PostScript and typographic family names,
/// sorted and without repeats; the fallback name alone when there are none.
pub fn collect_aliases(names: &Vec<(u16, Option<String>)>, fallback_name: &str) -> (r: Vec<String>)
    ensures
        strings_view(r@) == spec_aliases(names_view(names@), fallback_name@),
{
    let ghost nv = names_view(names@);
    let mut set: Vec<Vec<char>> = Vec::new();
    let mut i: usize = 0;
    while i < names.len()
        invariant
            i <= names@.len(),
            nv == names_view(names@),
            chars_view(set@) == aliases_upto(nv, i as int),
        decreases names@.len() - i,
    {
        let id = names[i].0;
        if id == 1 || id == 4 || id == 6 || id == 16 {
            match &names[i].1 {
                Some(text) => {
                    let trimmed = trim_chars(&chars_of(text.as_str()));
                    if trimmed.len() > 0 {
                        insert_sorted_chars(&mut set, trimmed);
                    }
                },
                None => {},
            }
        }
        i += 1;
    }
    let mut out: Vec<String> = Vec::new();
    if set.len() == 0 {
        out.push(string_from_chars(&chars_of(fallback_name)));
        assert(strings_view(out@) =~= seq![fallback_name@]);
        return out;
    }
    let mut k: usize = 0;
    while k < set.len()
        invariant
            k <= set@.len(),
            strings_view(out@) == chars_view(set@).take(k as int),
        decreases set@.len() - k,
    {
        let item = string_from_chars(&set[k]);
        assert(item@ == chars_view(set@)[k as int]);
        let ghost before = out@;
        out.push(item);
        assert(strings_view(out@) =~= strings_view(before).push(item@));
        assert(chars_view(set@).take(k + 1) =~= chars_view(set@).take(k as int).push(chars_view(set@)[k as int]));
        k += 1;
    }
    assert(chars_view(set@).take(set@.len() as int) =~= chars_view(set@));
    out
}

/// What the parser reads of one face: its name records (name ID and
/// decoded text), its weight class and whether it is italic.
pub struct FaceInfo {
    pub names: Vec<(u16, Option<String>)>,
    pub weight: u16,
    pub italic: bool,
}

impl View for FaceInfo {
    type V = (Seq<(u16, Option<Seq<char>>)>, u16, bool);

    open spec fn view(&self) -> (Seq<(u16, Option<Seq<char>>)>, u16, bool) {
        (names_view(self.names@), self.weight, self.italic)
    }
}

/// What `ttf_parser::Face::parse` reads of face `index` of `data`: its name
/// records, its weight class and its italic flag; `None` where the face
/// does not parse.
pub uninterp spec fn parsed_face_info(data: Seq<u8>, index: u32) -> Option<(Seq<(u16, Option<Seq<char>>)>, u16, bool)>;

/// Parses face `index` of `data` with `ttf_parser::Face::parse` and reads
/// its name records (`Face::names`, each with `Name::to_string`), its
/// weight class (`Face::weight`) and its italic flag (`Face::is_italic`).
/// The contract names that result.
#[verifier::external_body]
fn parse_face_info(data: &[u8], index: u32) -> (r: Option<FaceInfo>)
    ensures
        match r {
            Some(f) => parsed_face_info(data@, index) == Some(f@),
            None => parsed_face_info(data@, index) is None,
        },
{
    let face = ttf_parser::Face::parse(data, index).ok()?;
    let names = face.names().into_iter().map(|n| (n.name_id, n.to_string())).collect();
    Some(FaceInfo { names, weight: face.weight().to_number(), italic: face.is_italic() })
}

/// `ttf_parser::fonts_in_collection`: the face count of a font collection
/// (the 32-bit value 8 bytes in, after the `ttcf` tag and the version), or
/// `None` for data that is no collection or too short to hold the count.
#[verifier::external_body]
fn faces_in_collection(data: &[u8]) -> (r: Option<u32>)
    ensures
        r == (if is_collection(data@) && data@.len() >= 12 {
            Some(be32(data@, 8) as u32)
        } else {
            None::<u32>
        }),
{
    ttf_parser::fonts_in_collection(data)
}

/// The record of a face that parsed, with the fallback name where it has no
/// alias of its own.
pub open spec fn spec_face_record(
    path: Seq<char>,
    fallback: Seq<char>,
    index: u32,
    info: (Seq<(u16, Option<Seq<char>>)>, u16, bool),
) -> RecordView {
    let aliases = spec_aliases(info.0, fallback);
    let display = if aliases.len() > 0 { aliases[0] } else { fallback };
    RecordView {
        display_name: display,
        normalized_name: normalized(display),
        path: path,
        face_index: index,
        inferred_weight: info.1 as i32,
        is_italic: info.2,
        aliases: aliases,
    }
}

/// The records of faces `0..i`: one for each face that parses, and a
/// fallback record for face 0 when it does not.
pub open spec fn faces_upto(path: Seq<char>, fallback: Seq<char>, data: Seq<u8>, i: int) -> Seq<RecordView>
    decreases i,
{
    if i <= 0 {
        Seq::empty()
    } else {
        faces_upto(path, fallback, data, i - 1) + match parsed_face_info(data, (i - 1) as u32) {
            Some(info) => seq![spec_face_record(path, fallback, (i - 1) as u32, info)],
            None => if i - 1 == 0 {
                seq![spec_fallback_record(path, fallback)]
            } else {
                Seq::empty()
            },
        }
    }
}

/// The records of a font file: one per face of a collection (one face
/// otherwise); a single fallback record where the file could not be read
/// or no face parses.
pub open spec fn spec_records_from_data(path: Seq<char>, fallback: Seq<char>, data: Option<Seq<u8>>) -> Seq<RecordView> {
    match data {
        None => seq![spec_fallback_record(path, fallback)],
        Some(b) => {
            let count = if is_collection(b) && b.len() >= 12 { be32(b, 8) } else { 1 };
            let rs = faces_upto(path, fallback, b, count);
            if rs.len() == 0 {
                seq![spec_fallback_record(path, fallback)]
            } else {
                rs
            }
        },
    }
}

/// A record as the index keeps it: it names its file, its normalized name
/// is that of its display name, and its aliases are sorted, without
/// repeats, and not empty.
pub open spec fn record_wf(r: RecordView, path: Seq<char>) -> bool {
    &&& r.path == path
    &&& r.normalized_name == normalized(r.display_name)
    &&& r.aliases.len() >= 1
    &&& strictly_sorted(r.aliases)
}

proof fn lemma_faces_upto_wf(path: Seq<char>, fallback: Seq<char>, data: Seq<u8>, i: int)
    ensures
        forall|k: int| 0 <= k < faces_upto(path, fallback, data, i).len() ==> record_wf(#[trigger] faces_upto(path, fallback, data, i)[k], path),
    decreases i,
{
    if i > 0 {
        lemma_faces_upto_wf(path, fallback, data, i - 1);
        let prev = faces_upto(path, fallback, data, i - 1);
        let now = faces_upto(path, fallback, data, i);
        match parsed_face_info(data, (i - 1) as u32) {
            Some(info) => {
                law_aliases(info.0, fallback);
                let r = spec_face_record(path, fallback, (i - 1) as u32, info);
                assert(record_wf(r, path));
                assert forall|k: int| 0 <= k < now.len() implies record_wf(#[trigger] now[k], path) by {
                    if k < prev.len() {
                        assert(now[k] == prev[k]);
                    }
                }
            },
            None => {
                let r = spec_fallback_record(path, fallback);
                assert(strictly_sorted(r.aliases));
                assert forall|k: int| 0 <= k < now.len() implies record_wf(#[trigger] now[k], path) by {
                    if k < prev.len() {
                        assert(now[k] == prev[k]);
                    }
                }
            },
        }
    }
}

/// A font file gives at least one record, and every record it gives names
/// the file, has the normalized form of its display name, and has sorted,
/// distinct aliases, at least one.
pub proof fn law_records_well_formed(path: Seq<char>, fallback: Seq<char>, data: Option<Seq<u8>>)
    ensures
        spec_records_from_data(path, fallback, data).len() >= 1,
        forall|k: int| 0 <= k < spec_records_from_data(path, fallback, data).len() ==> record_wf(
            #[trigger] spec_records_from_data(path, fallback, data)[k],
            path,
        ),
{
    let fb = spec_fallback_record(path, fallback);
    assert(strictly_sorted(fb.aliases));
    assert(record_wf(fb, path));
    match data {
        None => {},
        Some(b) => {
            let count = if is_collection(b) && b.len() >= 12 { be32(b, 8) } else { 1 };
            lemma_faces_upto_wf(path, fallback, b, count);
        },
    }
}

/// The bytes of a file, where it could be read.
pub open spec fn opt_bytes(b: Option<Vec<u8>>) -> Option<Seq<u8>> {
    match b {
        Some(v) => Some(v@),
        None => None,
    }
}

/// The record of a face that parsed.
fn face_record(path: &str, fallback_name: &str, index: u32, info: &FaceInfo) -> (r: FontRecord)
    ensures
        r@ == spec_face_record(path@, fallback_name@, index, info@),
{
    let aliases = collect_aliases(&info.names, fallback_name);
    proof {
        law_aliases(names_view(info.names@), fallback_name@);
    }
    let display_name = if aliases.len() > 0 {
        string_from_chars(&chars_of(aliases[0].as_str()))
    } else {
        string_from_chars(&chars_of(fallback_name))
    };
    FontRecord {
        normalized_name: normalize_font_name(display_name.as_str()),
        display_name,
        path: string_from_chars(&chars_of(path)),
        face_index: index,
        inferred_weight: info.weight as i32,
        is_italic: info.italic,
        aliases,
    }
}

/// The records of a font file from its bytes (`None` where it could not be
/// read): one per face that parses, a fallback record named `fallback_name`
/// for a first face that does not, and a fallback record alone where no
/// record came out.
pub fn records_from_font_data(path: &str, fallback_name: &str, bytes: Option<&[u8]>) -> (r: Vec<FontRecord>)
    ensures
        records_view(r@) == spec_records_from_data(
            path@,
            fallback_name@,
            match bytes {
                Some(b) => Some(b@),
                None => None,
            },
        ),
{
    let data = match bytes {
        None => {
            let mut out: Vec<FontRecord> = Vec::new();
            out.push(fallback_record(path, fallback_name));
            assert(records_view(out@) =~= seq![spec_fallback_record(path@, fallback_name@)]);
            return out;
        },
        Some(b) => b,
    };
    let count: u32 = match faces_in_collection(data) {
        Some(n) => n,
        None => 1,
    };
    let mut records: Vec<FontRecord> = Vec::new();
    let mut i: u32 = 0;
    while i < count
        invariant
            i <= count,
            count as int == (if is_collection(data@) && data@.len() >= 12 { be32(data@, 8) } else { 1 }),
            records_view(records@) == faces_upto(path@, fallback_name@, data@, i as int),
        decreases count - i,
    {
        let ghost before = records@;
        match parse_face_info(data, i) {
            Some(info) => {
                records.push(face_record(path, fallback_name, i, &info));
            },
            None => {
                if i == 0 {
                    records.push(fallback_record(path, fallback_name));
                }
            },
        }
        assert(records_view(records@) =~= faces_upto(path@, fallback_name@, data@, i + 1));
        i += 1;
    }
    if records.len() == 0 {
        records.push(fallback_record(path, fallback_name));
        assert(records_view(records@) =~= seq![spec_fallback_record(path@, fallback_name@)]);
    }
    records
}

/// The fallback name of a font file: its stem without surrounding white
/// space, where that is not empty.
pub fn fallback_name_from_stem(stem: Option<&str>) -> (r: Option<String>)
    ensures
        match stem {
            None => r is None,
            Some(s) => if trim(s@).len() == 0 {
                r is None
            } else {
                r matches Some(n) && n@ == trim(s@)
            },
        },
{
    match stem {
        None => None,
        Some(s) => {
            let t = trim_chars(&chars_of(s));
            if t.len() == 0 {
                None
            } else {
                Some(string_from_chars(&t))
            }
        },
    }
}

/// The fallback name that a `/`-separated path gives: its stem without
/// surrounding white space, where that is not empty.
pub open spec fn spec_fallback_name(p: Seq<char>) -> Option<Seq<char>> {
    match spec_path_file_stem(p) {
        None => None,
        Some(s) => if trim(s).len() == 0 {
            None
        } else {
            Some(trim(s))
        },
    }
}

/// The records of the font file at `path`, given its bytes (`None` where it
/// could not be read): none where the file's name gives no fallback name,
/// else those of `records_from_font_data` under that name. The name comes
/// from the platform's reading of the path; for a path that every platform
/// splits alike it is `spec_fallback_name`.
pub fn discover_from_file(path: &str, bytes: Option<Vec<u8>>) -> (r: Vec<FontRecord>)
    ensures
        r@.len() == 0 || exists|name: Seq<char>|
            name.len() > 0 && records_view(r@) == spec_records_from_data(path@, name, opt_bytes(bytes)),
        portable_path(path@) ==> records_view(r@) == match spec_fallback_name(path@) {
            None => Seq::empty(),
            Some(name) => spec_records_from_data(path@, name, opt_bytes(bytes)),
        },
{
    let stem = path_file_stem(path);
    let fallback = match stem {
        Some(s) => fallback_name_from_stem(Some(s.as_str())),
        None => None,
    };
    match fallback {
        None => Vec::new(),
        Some(name) => {
            let r = match &bytes {
                Some(b) => records_from_font_data(path, name.as_str(), Some(b.as_slice())),
                None => records_from_font_data(path, name.as_str(), None),
            };
            r
        },
    }
}

} // verus!
