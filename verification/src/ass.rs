//! Analysis of the fonts that an ASS subtitle script uses: for each font
//! request (name, weight, italic) the characters drawn with it.

use vstd::prelude::*;
use crate::text::{
    first_char_from, lemma_first_char_from,
    ascii_lower_seq, chars_eq, chars_eq_ignore_ascii_case, chars_of, chars_starts_with,
    chars_ends_with, copy_chars, eq_ignore_ascii_case, is_control, is_control_char, line_ranges,
    lines, parse_i32, spec_parse_i32, split, splitn, splitn_ranges, starts_with, ends_with,
    string_from_chars, trim, trim_range, split_ranges, trim_ranges, trim_all, lower_ascii,
    lines_from, line_end, splitn_from, trim_start_from, trim_end_from, is_white_space, lemma_trim_start_bounds,
    lemma_trim_end_bounds,
};

verus! {

/// A font request as the analysis sees it.
pub struct RequestKey {
    pub font_name: Seq<char>,
    pub bold: i32,
    pub italic: bool,
}

/// A font that a script asks for: its name, weight and italic flag.
#[derive(Debug, Clone, PartialEq, Eq, PartialOrd, Ord, Hash)]
pub struct FontRequest {
    pub font_name: String,
    pub bold: i32,
    pub italic: bool,
}

impl View for FontRequest {
    type V = RequestKey;

    open spec fn view(&self) -> RequestKey {
        RequestKey { font_name: self.font_name@, bold: self.bold, italic: self.italic }
    }
}

/// Lexicographic order of character sequences by code point, which is the
/// order of `String`s.
pub open spec fn seq_lt(a: Seq<char>, b: Seq<char>) -> bool
    decreases a.len(),
{
    if a.len() == 0 {
        b.len() > 0
    } else if b.len() == 0 {
        false
    } else if a[0] < b[0] {
        true
    } else if a[0] > b[0] {
        false
    } else {
        seq_lt(a.drop_first(), b.drop_first())
    }
}

/// The order of font requests: by name, then weight, then italic (false first).
pub open spec fn key_lt(a: RequestKey, b: RequestKey) -> bool {
    seq_lt(a.font_name, b.font_name) || (a.font_name == b.font_name && (a.bold < b.bold || (a.bold
        == b.bold && !a.italic && b.italic)))
}

/// Exactly one of `a < b`, `a == b`, `b < a` holds.
pub proof fn lemma_seq_lt_trichotomy(a: Seq<char>, b: Seq<char>)
    ensures
        !(seq_lt(a, b) && seq_lt(b, a)),
        !seq_lt(a, a),
        a != b ==> seq_lt(a, b) || seq_lt(b, a),
    decreases a.len(),
{
    if a.len() > 0 {
        lemma_seq_lt_trichotomy(a.drop_first(), a.drop_first());
    }
    if a.len() > 0 && b.len() > 0 {
        lemma_seq_lt_trichotomy(a.drop_first(), b.drop_first());
        if a[0] == b[0] && a.drop_first() == b.drop_first() {
            assert(a =~= seq![a[0]] + a.drop_first());
            assert(b =~= seq![b[0]] + b.drop_first());
        }
    } else if a.len() == 0 && b.len() == 0 {
        assert(a =~= b);
    }
}

/// `seq_lt` is transitive.
pub proof fn lemma_seq_lt_transitive(a: Seq<char>, b: Seq<char>, c: Seq<char>)
    requires
        seq_lt(a, b),
        seq_lt(b, c),
    ensures
        seq_lt(a, c),
    decreases a.len(),
{
    if a.len() > 0 && b.len() > 0 && c.len() > 0 {
        if a[0] == b[0] && b[0] == c[0] {
            lemma_seq_lt_transitive(a.drop_first(), b.drop_first(), c.drop_first());
        }
    }
}

/// Exactly one of `a < b`, `a == b`, `b < a` holds for requests.
pub proof fn lemma_key_lt_trichotomy(a: RequestKey, b: RequestKey)
    ensures
        !(key_lt(a, b) && key_lt(b, a)),
        !key_lt(a, a),
        a != b ==> key_lt(a, b) || key_lt(b, a),
{
    lemma_seq_lt_trichotomy(a.font_name, b.font_name);
}

/// `key_lt` is transitive.
pub proof fn lemma_key_lt_transitive(a: RequestKey, b: RequestKey, c: RequestKey)
    requires
        key_lt(a, b),
        key_lt(b, c),
    ensures
        key_lt(a, c),
{
    lemma_seq_lt_trichotomy(a.font_name, b.font_name);
    lemma_seq_lt_trichotomy(b.font_name, c.font_name);
    lemma_seq_lt_trichotomy(a.font_name, c.font_name);
    if seq_lt(a.font_name, b.font_name) && seq_lt(b.font_name, c.font_name) {
        lemma_seq_lt_transitive(a.font_name, b.font_name, c.font_name);
    }
}

/// The outcome of a comparison.
#[derive(Debug, Clone, Copy, PartialEq, Eq, Structural)]
pub enum Cmp {
    Less,
    Equal,
    Greater,
}

/// Compares two character sequences in `String` order.
pub fn compare_chars(a: &[char], b: &[char]) -> (r: Cmp)
    ensures
        r == Cmp::Less <==> seq_lt(a@, b@),
        r == Cmp::Equal <==> a@ == b@,
        r == Cmp::Greater <==> seq_lt(b@, a@),
{
    proof {
        lemma_seq_lt_trichotomy(a@, b@);
    }
    assert(a@.skip(0) =~= a@);
    assert(b@.skip(0) =~= b@);
    let mut i: usize = 0;
    while i < a.len() && i < b.len()
        invariant
            i <= a@.len(),
            i <= b@.len(),
            a@.take(i as int) == b@.take(i as int),
            seq_lt(a@, b@) == seq_lt(a@.skip(i as int), b@.skip(i as int)),
            seq_lt(b@, a@) == seq_lt(b@.skip(i as int), a@.skip(i as int)),
        decreases a@.len() - i,
    {
        let x = a[i];
        let y = b[i];
        assert(a@.skip(i as int).drop_first() =~= a@.skip(i + 1));
        assert(b@.skip(i as int).drop_first() =~= b@.skip(i + 1));
        if x < y {
            return Cmp::Less;
        }
        if x > y {
            return Cmp::Greater;
        }
        assert(x == y);
        assert(a@.take(i + 1) =~= a@.take(i as int).push(x));
        assert(b@.take(i + 1) =~= b@.take(i as int).push(y));
        i += 1;
    }
    if a.len() == b.len() {
        assert(a@ =~= a@.take(i as int));
        assert(b@ =~= b@.take(i as int));
        Cmp::Equal
    } else if a.len() < b.len() {
        assert(a@ =~= a@.take(i as int));
        assert(a@ != b@);
        Cmp::Less
    } else {
        assert(b@ =~= b@.take(i as int));
        assert(a@ != b@);
        Cmp::Greater
    }
}


/// Compares two font requests given by their parts.
pub fn compare_requests(an: &[char], ab: i32, ai: bool, bn: &[char], bb: i32, bi: bool) -> (r: Cmp)
    ensures
        ({
            let a = RequestKey { font_name: an@, bold: ab, italic: ai };
            let b = RequestKey { font_name: bn@, bold: bb, italic: bi };
            &&& r == Cmp::Less <==> key_lt(a, b)
            &&& r == Cmp::Equal <==> a == b
            &&& r == Cmp::Greater <==> key_lt(b, a)
        }),
{
    proof {
        lemma_seq_lt_trichotomy(an@, bn@);
    }
    match compare_chars(an, bn) {
        Cmp::Less => Cmp::Less,
        Cmp::Greater => Cmp::Greater,
        Cmp::Equal => {
            if ab < bb {
                Cmp::Less
            } else if ab > bb {
                Cmp::Greater
            } else if ai == bi {
                Cmp::Equal
            } else if !ai {
                Cmp::Less
            } else {
                Cmp::Greater
            }
        },
    }
}

/// One font request and the characters drawn with it, as the analysis builds them.
pub struct Usage {
    pub font_name: Vec<char>,
    pub bold: i32,
    pub italic: bool,
    pub chars: Vec<char>,
}

impl Usage {
    pub open spec fn key(&self) -> RequestKey {
        RequestKey { font_name: self.font_name@, bold: self.bold, italic: self.italic }
    }

    pub open spec fn entry(&self) -> (RequestKey, Seq<char>) {
        (self.key(), self.chars@)
    }
}

/// The entries of a list of usages.
pub open spec fn usages_view(v: Seq<Usage>) -> Seq<(RequestKey, Seq<char>)> {
    Seq::new(v.len(), |i: int| v[i].entry())
}

/// `cs` with `c` added at its end unless it holds `c` already.
pub open spec fn add_char(cs: Seq<char>, c: char) -> Seq<char> {
    if cs.contains(c) {
        cs
    } else {
        cs.push(c)
    }
}

/// The entries once character `c` is recorded under request `key`: the
/// entries stay ordered by request, and `key` gets an entry where it had none.
pub open spec fn record(reqs: Seq<(RequestKey, Seq<char>)>, key: RequestKey, c: char) -> Seq<(RequestKey, Seq<char>)>
    decreases reqs.len(),
{
    if reqs.len() == 0 {
        seq![(key, seq![c])]
    } else if reqs[0].0 == key {
        seq![(key, add_char(reqs[0].1, c))] + reqs.drop_first()
    } else if key_lt(key, reqs[0].0) {
        seq![(key, seq![c])] + reqs
    } else {
        seq![reqs[0]] + record(reqs.drop_first(), key, c)
    }
}

proof fn lemma_record_at(reqs: Seq<(RequestKey, Seq<char>)>, key: RequestKey, c: char, p: int)
    requires
        0 <= p <= reqs.len(),
        forall|j: int| 0 <= j < p ==> key_lt(reqs[j].0, key),
        p < reqs.len() ==> !key_lt(reqs[p].0, key),
    ensures
        record(reqs, key, c) == if p < reqs.len() && reqs[p].0 == key {
            reqs.take(p) + seq![(key, add_char(reqs[p].1, c))] + reqs.skip(p + 1)
        } else {
            reqs.take(p) + seq![(key, seq![c])] + reqs.skip(p)
        },
    decreases p,
{
    if p == 0 {
        if reqs.len() > 0 {
            lemma_key_lt_trichotomy(reqs[0].0, key);
            assert(reqs.skip(1) =~= reqs.drop_first());
        }
        assert(reqs.take(0) =~= Seq::<(RequestKey, Seq<char>)>::empty());
        assert(reqs.skip(0) =~= reqs);
    } else {
        let rest = reqs.drop_first();
        lemma_key_lt_trichotomy(reqs[0].0, key);
        assert forall|j: int| 0 <= j < p - 1 implies key_lt(rest[j].0, key) by {
            assert(rest[j] == reqs[j + 1]);
        }
        lemma_record_at(rest, key, c, p - 1);
        assert(reqs.take(p) =~= seq![reqs[0]] + rest.take(p - 1));
        assert(reqs.skip(p) =~= rest.skip(p - 1));
        if p < reqs.len() {
            assert(reqs.skip(p + 1) =~= rest.skip(p));
        }
        if p < reqs.len() && reqs[p].0 == key {
            assert(record(reqs, key, c) =~= reqs.take(p) + seq![(key, add_char(reqs[p].1, c))]
                + reqs.skip(p + 1));
        } else {
            assert(record(reqs, key, c) =~= reqs.take(p) + seq![(key, seq![c])] + reqs.skip(p));
        }
    }
}

/// Adds `c` to `cs` unless it is there.
fn add_char_exec(cs: &mut Vec<char>, c: char)
    ensures
        final(cs)@ == add_char(old(cs)@, c),
{
    let mut i: usize = 0;
    while i < cs.len()
        invariant
            i <= cs@.len(),
            forall|j: int| 0 <= j < i ==> cs@[j] != c,
        decreases cs@.len() - i,
    {
        if cs[i] == c {
            assert(cs@.contains(c));
            return;
        }
        i += 1;
    }
    assert(!cs@.contains(c));
    cs.push(c);
}

/// Records character `c` under the request (`name`, `bold`, `italic`).
pub fn record_char(reqs: &mut Vec<Usage>, name: &[char], bold: i32, italic: bool, c: char)
    ensures
        usages_view(final(reqs)@) == record(
            usages_view(old(reqs)@),
            RequestKey { font_name: name@, bold, italic },
            c,
        ),
{
    let ghost key = RequestKey { font_name: name@, bold, italic };
    let ghost v0 = usages_view(reqs@);
    let mut p: usize = 0;
    loop
        invariant
            p <= reqs@.len(),
            usages_view(reqs@) == v0,
            v0.len() == reqs@.len(),
            key == (RequestKey { font_name: name@, bold, italic }),
            forall|j: int| 0 <= j < p ==> key_lt(v0[j].0, key),
        ensures
            p <= reqs@.len(),
            forall|j: int| 0 <= j < p ==> key_lt(v0[j].0, key),
            p < reqs@.len() ==> !key_lt(v0[p as int].0, key),
        decreases reqs@.len() - p,
    {
        if p >= reqs.len() {
            break;
        }
        let u = &reqs[p];
        assert(v0[p as int] == reqs@[p as int].entry());
        let o = compare_requests(&u.font_name, u.bold, u.italic, name, bold, italic);
        if o != Cmp::Less {
            break;
        }
        p += 1;
    }
    proof {
        if p < reqs@.len() {
            assert(v0[p as int].0 == reqs@[p as int].key());
        }
        lemma_record_at(v0, key, c, p as int);
    }
    if p < reqs.len() && compare_requests(&reqs[p].font_name, reqs[p].bold, reqs[p].italic, name, bold, italic) == Cmp::Equal {
        let mut u = reqs.remove(p);
        add_char_exec(&mut u.chars, c);
        reqs.insert(p, u);
        assert(usages_view(reqs@) =~= v0.take(p as int) + seq![(key, add_char(v0[p as int].1, c))]
            + v0.skip(p + 1));
    } else {
        let mut cs: Vec<char> = Vec::new();
        cs.push(c);
        let u = Usage { font_name: copy_chars(name, 0, name.len()), bold, italic, chars: cs };
        assert(name@.subrange(0, name@.len() as int) =~= name@);
        reqs.insert(p, u);
        assert(usages_view(reqs@) =~= v0.take(p as int) + seq![(key, seq![c])] + v0.skip(p as int));
    }
}


/// The names of a `Format:` line: split at commas, trimmed, empty ones
/// dropped, ASCII lowercased.
pub open spec fn clean_fields(ps: Seq<Seq<char>>) -> Seq<Seq<char>>
    decreases ps.len(),
{
    if ps.len() == 0 {
        Seq::empty()
    } else {
        let rest = clean_fields(ps.drop_last());
        let t = trim(ps.last());
        if t.len() == 0 {
            rest
        } else {
            rest.push(ascii_lower_seq(t))
        }
    }
}

/// The fields a `Format:` line names.
pub open spec fn format_fields(rest: Seq<char>) -> Seq<Seq<char>> {
    clean_fields(split(rest, ','))
}

/// The first position at or after `i` of `key` in `f`.
pub open spec fn first_index_from(f: Seq<Seq<char>>, key: Seq<char>, i: int) -> Option<int>
    decreases f.len() - i,
{
    if i < 0 || i >= f.len() {
        None
    } else if f[i] == key {
        Some(i)
    } else {
        first_index_from(f, key, i + 1)
    }
}

/// The first position of `key` in `f`.
pub open spec fn first_index(f: Seq<Seq<char>>, key: Seq<char>) -> Option<int> {
    first_index_from(f, key, 0)
}

proof fn lemma_first_index_push(f: Seq<Seq<char>>, x: Seq<char>, key: Seq<char>, j: int)
    requires
        0 <= j <= f.len(),
    ensures
        first_index_from(f.push(x), key, j) == match first_index_from(f, key, j) {
            Some(i) => Some(i),
            None => if key == x {
                Some(f.len() as int)
            } else {
                None
            },
        },
    decreases f.len() - j,
{
    if j < f.len() {
        assert(f.push(x)[j] == f[j]);
        lemma_first_index_push(f, x, key, j + 1);
    } else {
        assert(f.push(x)[j] == x);
        assert(first_index_from(f.push(x), key, j + 1) is None);
    }
}

/// The characters of each of a list of character vectors.
pub open spec fn fields_view(v: Seq<Vec<char>>) -> Seq<Seq<char>> {
    Seq::new(v.len(), |i: int| v[i]@)
}

/// The first index recorded for `key` in a list of (name, index) pairs.
pub open spec fn pairs_lookup_from(p: Seq<(Vec<char>, usize)>, key: Seq<char>, i: int) -> Option<int>
    decreases p.len() - i,
{
    if i < 0 || i >= p.len() {
        None
    } else if p[i].0@ == key {
        Some(p[i].1 as int)
    } else {
        pairs_lookup_from(p, key, i + 1)
    }
}

proof fn lemma_pairs_lookup_push(p: Seq<(Vec<char>, usize)>, x: (Vec<char>, usize), key: Seq<char>, j: int)
    requires
        0 <= j <= p.len(),
    ensures
        pairs_lookup_from(p.push(x), key, j) == match pairs_lookup_from(p, key, j) {
            Some(i) => Some(i),
            None => if key == x.0@ {
                Some(x.1 as int)
            } else {
                None
            },
        },
    decreases p.len() - j,
{
    if j < p.len() {
        assert(p.push(x)[j] == p[j]);
        lemma_pairs_lookup_push(p, x, key, j + 1);
    } else {
        assert(p.push(x)[j] == x);
        assert(pairs_lookup_from(p.push(x), key, j + 1) is None);
    }
}

/// Splits a `Format:` line into its field names.
fn parse_format_fields(s: &[char], lo: usize, hi: usize) -> (r: Vec<Vec<char>>)
    requires
        lo <= hi <= s@.len(),
    ensures
        fields_view(r@) == format_fields(s@.subrange(lo as int, hi as int)),
{
    let pieces = split_ranges(s, lo, hi, ',');
    let ghost ps = split(s@.subrange(lo as int, hi as int), ',');
    let mut r: Vec<Vec<char>> = Vec::new();
    let mut i: usize = 0;
    while i < pieces.len()
        invariant
            i <= pieces@.len(),
            pieces@.len() == ps.len(),
            ps == split(s@.subrange(lo as int, hi as int), ','),
            forall|j: int|
                0 <= j < pieces@.len() ==> lo <= (#[trigger] pieces@[j]).0 <= pieces@[j].1 <= hi
                    && s@.subrange(pieces@[j].0 as int, pieces@[j].1 as int) == ps[j],
            hi <= s@.len(),
            fields_view(r@) == clean_fields(ps.take(i as int)),
        decreases pieces@.len() - i,
    {
        let (a, b) = pieces[i];
        let (ta, tb) = trim_range(s, a, b);
        assert(ps.take(i + 1).drop_last() =~= ps.take(i as int));
        if ta < tb {
            let piece = copy_chars(s, ta, tb);
            let lower = lower_ascii(&piece);
            r.push(lower);
            assert(fields_view(r@) =~= clean_fields(ps.take(i as int)).push(lower@));
        }
        i += 1;
    }
    assert(ps.take(ps.len() as int) =~= ps);
    r
}

/// Maps each field name to the first position it has.
fn build_index_map(fields: &Vec<Vec<char>>) -> (r: Vec<(Vec<char>, usize)>)
    ensures
        forall|key: Seq<char>| #[trigger] pairs_lookup_from(r@, key, 0) == first_index(fields_view(fields@), key),
{
    let ghost f = fields_view(fields@);
    let mut r: Vec<(Vec<char>, usize)> = Vec::new();
    let mut i: usize = 0;
    while i < fields.len()
        invariant
            i <= fields@.len(),
            f == fields_view(fields@),
            forall|key: Seq<char>| #[trigger] pairs_lookup_from(r@, key, 0) == first_index_from(f.take(i as int), key, 0),
        decreases fields@.len() - i,
    {
        let key = &fields[i];
        let found = index_lookup(&r, key);
        proof {
            assert(f.take(i + 1) =~= f.take(i as int).push(f[i as int]));
            assert forall|k: Seq<char>| #[trigger] first_index_from(f.take(i + 1), k, 0) == match first_index_from(f.take(i as int), k, 0) {
                Some(j) => Some(j),
                None => if k == f[i as int] { Some(i as int) } else { None },
            } by {
                lemma_first_index_push(f.take(i as int), f[i as int], k, 0);
            }
        }
        if found.is_none() {
            let ghost old_r = r@;
            let entry = (copy_chars(key, 0, key.len()), i);
            assert(key@.subrange(0, key@.len() as int) =~= key@);
            r.push(entry);
            proof {
                assert forall|k: Seq<char>| #[trigger] pairs_lookup_from(r@, k, 0) == first_index_from(f.take(i + 1), k, 0) by {
                    lemma_pairs_lookup_push(old_r, entry, k, 0);
                }
            }
        }
        i += 1;
    }
    assert(f.take(fields@.len() as int) =~= f);
    r
}

/// The index the pairs record for `key`.
fn index_lookup(map: &Vec<(Vec<char>, usize)>, key: &[char]) -> (r: Option<usize>)
    ensures
        r matches Some(i) ==> pairs_lookup_from(map@, key@, 0) == Some(i as int),
        r is None ==> pairs_lookup_from(map@, key@, 0) is None,
{
    let mut i: usize = 0;
    while i < map.len()
        invariant
            i <= map@.len(),
            pairs_lookup_from(map@, key@, 0) == pairs_lookup_from(map@, key@, i as int),
        decreases map@.len() - i,
    {
        if chars_eq(&map[i].0, key) {
            return Some(map[i].1);
        }
        i += 1;
    }
    None
}

/// A `Format:` line of a styles or events section: its fields and where each
/// name first occurs.
pub struct LineFormat {
    pub fields: Vec<Vec<char>>,
    pub index_map: Vec<(Vec<char>, usize)>,
}

impl LineFormat {
    pub open spec fn wf(&self) -> bool {
        forall|key: Seq<char>| #[trigger] pairs_lookup_from(self.index_map@, key, 0) == first_index(fields_view(self.fields@), key)
    }

    pub open spec fn spec_fields(&self) -> Seq<Seq<char>> {
        fields_view(self.fields@)
    }
}

/// The fields of a format that names both `a` and `b`.
pub open spec fn format_with(rest: Seq<char>, a: Seq<char>, b: Seq<char>) -> Option<Seq<Seq<char>>> {
    let f = format_fields(rest);
    if first_index(f, a) is Some && first_index(f, b) is Some {
        Some(f)
    } else {
        None
    }
}

/// The format of a styles section: it must name `name` and `fontname`.
pub open spec fn spec_style_format(rest: Seq<char>) -> Option<Seq<Seq<char>>> {
    format_with(rest, "name"@, "fontname"@)
}

/// The format of an events section: it must name `style` and `text`.
pub open spec fn spec_events_format(rest: Seq<char>) -> Option<Seq<Seq<char>>> {
    format_with(rest, "style"@, "text"@)
}

/// The view of an optional format.
pub open spec fn format_view(f: Option<LineFormat>) -> Option<Seq<Seq<char>>> {
    match f {
        Some(x) => Some(x.spec_fields()),
        None => None,
    }
}

/// Parses the fields of a format line, keeping it only where it names both
/// `a` and `b`.
fn parse_format_with(s: &[char], lo: usize, hi: usize, a: &str, b: &str) -> (r: Option<LineFormat>)
    requires
        lo <= hi <= s@.len(),
    ensures
        format_view(r) == format_with(s@.subrange(lo as int, hi as int), a@, b@),
        r matches Some(f) ==> f.wf(),
{
    let fields = parse_format_fields(s, lo, hi);
    let index_map = build_index_map(&fields);
    let ka = chars_of(a);
    let kb = chars_of(b);
    let has_a = index_lookup(&index_map, &ka).is_some();
    let has_b = index_lookup(&index_map, &kb).is_some();
    if !(has_a && has_b) {
        return None;
    }
    Some(LineFormat { fields, index_map })
}

/// Parses the format line of a styles section.
fn parse_style_format(s: &[char], lo: usize, hi: usize) -> (r: Option<LineFormat>)
    requires
        lo <= hi <= s@.len(),
    ensures
        format_view(r) == spec_style_format(s@.subrange(lo as int, hi as int)),
        r matches Some(f) ==> f.wf(),
{
    parse_format_with(s, lo, hi, "name", "fontname")
}

/// Parses the format line of an events section.
fn parse_events_format(s: &[char], lo: usize, hi: usize) -> (r: Option<LineFormat>)
    requires
        lo <= hi <= s@.len(),
    ensures
        format_view(r) == spec_events_format(s@.subrange(lo as int, hi as int)),
        r matches Some(f) ==> f.wf(),
{
    parse_format_with(s, lo, hi, "style", "text")
}


/// A style: its font name and the bold and italic values as written.
pub struct StyleSpec {
    pub font_name: Seq<char>,
    pub bold: i32,
    pub italic: i32,
}

/// A style as the analysis keeps it.
pub struct StyleState {
    pub font_name: Vec<char>,
    pub bold: i32,
    pub italic: i32,
}

impl StyleState {
    pub open spec fn spec(&self) -> StyleSpec {
        StyleSpec { font_name: self.font_name@, bold: self.bold, italic: self.italic }
    }

    fn copy(&self) -> (r: StyleState)
        ensures
            r.spec() == self.spec(),
    {
        let n = copy_chars(&self.font_name, 0, self.font_name.len());
        assert(self.font_name@.subrange(0, self.font_name@.len() as int) =~= self.font_name@);
        StyleState { font_name: n, bold: self.bold, italic: self.italic }
    }
}

/// The position of `key` in the format, or `default` where there is no
/// format or it does not name `key`.
pub open spec fn index_or(fmt: Option<Seq<Seq<char>>>, key: Seq<char>, default: int) -> int {
    match fmt {
        Some(f) => match first_index(f, key) {
            Some(i) => i,
            None => default,
        },
        None => default,
    }
}

/// The integer in column `i`, 0 where it is missing or no integer.
pub open spec fn int_column(cols: Seq<Seq<char>>, i: int) -> i32 {
    if 0 <= i < cols.len() {
        match spec_parse_i32(cols[i]) {
            Some(v) => v,
            None => 0,
        }
    } else {
        0
    }
}

/// The columns of a `Style:` line: split at every comma, or into as many
/// pieces as the format has fields, each trimmed.
pub open spec fn style_columns(rest: Seq<char>, fmt: Option<Seq<Seq<char>>>) -> Seq<Seq<char>> {
    trim_all(
        match fmt {
            Some(f) => splitn(rest, ',', f.len()),
            None => split(rest, ','),
        },
    )
}

/// The name and style a `Style:` line defines: name and font name at the
/// positions the format gives (0 and 1 without one), bold and italic values
/// (positions 7 and 8 by default, 0 where missing or no integer).
pub open spec fn spec_style_line(rest: Seq<char>, fmt: Option<Seq<Seq<char>>>) -> Option<(Seq<char>, StyleSpec)> {
    let cols = style_columns(rest, fmt);
    let ni = index_or(fmt, "name"@, 0);
    let fi = index_or(fmt, "fontname"@, 1);
    let bi = index_or(fmt, "bold"@, 7);
    let ii = index_or(fmt, "italic"@, 8);
    if ni >= cols.len() || fi >= cols.len() {
        None
    } else {
        Some(
            (
                cols[ni],
                StyleSpec {
                    font_name: cols[fi],
                    bold: int_column(cols, bi),
                    italic: int_column(cols, ii),
                },
            ),
        )
    }
}

/// The style name and text of a `Dialogue:` line: split into as many pieces
/// as the format has fields (10 without one), each trimmed; style and text at
/// the positions the format gives (3 and 9 by default).
pub open spec fn spec_dialogue_line(rest: Seq<char>, fmt: Option<Seq<Seq<char>>>) -> Option<(Seq<char>, Seq<char>)> {
    let n: nat = match fmt {
        Some(f) => f.len(),
        None => 10,
    };
    let si = index_or(fmt, "style"@, 3);
    let ti = index_or(fmt, "text"@, 9);
    let cols = trim_all(splitn(rest, ',', n));
    if cols.len() <= si || cols.len() <= ti {
        None
    } else {
        Some((cols[si], cols[ti]))
    }
}

/// How many times `c` occurs in `s`.
pub open spec fn occurrences(s: Seq<char>, c: char) -> nat
    decreases s.len(),
{
    if s.len() == 0 {
        0
    } else {
        occurrences(s.drop_last(), c) + if s.last() == c { 1nat } else { 0nat }
    }
}

proof fn lemma_occurrences_concat(a: Seq<char>, b: Seq<char>, c: char)
    ensures
        occurrences(a + b, c) == occurrences(a, c) + occurrences(b, c),
    decreases b.len(),
{
    if b.len() == 0 {
        assert(a + b =~= a);
    } else {
        lemma_occurrences_concat(a, b.drop_last(), c);
        assert((a + b).drop_last() =~= a + b.drop_last());
        assert((a + b).last() == b.last());
    }
}

proof fn lemma_occurrences_none(s: Seq<char>, c: char)
    requires
        forall|k: int| 0 <= k < s.len() ==> s[k] != c,
    ensures
        occurrences(s, c) == 0,
    decreases s.len(),
{
    if s.len() > 0 {
        lemma_occurrences_none(s.drop_last(), c);
    }
}

proof fn lemma_splitn_rest(s: Seq<char>, q: int, e: int, m: nat)
    requires
        m >= 1,
        0 <= q <= e <= s.len(),
        occurrences(s.subrange(q, e), ',') == m - 1,
        m == 1 ==> e == q,
        m >= 2 ==> s[e - 1] == ',',
    ensures
        splitn_from(s, ',', q, m).len() == m,
        splitn_from(s, ',', q, m)[m - 1] == s.subrange(e, s.len() as int),
    decreases m,
{
    if m >= 2 {
        lemma_first_char_from(s, ',', q);
        let k = first_char_from(s, ',', q);
        if k >= e {
            lemma_occurrences_none(s.subrange(q, e), ',');
        }
        assert(k < e);
        assert(s.subrange(q, e) =~= s.subrange(q, k) + seq![','] + s.subrange(k + 1, e));
        lemma_occurrences_none(s.subrange(q, k), ',');
        lemma_occurrences_concat(s.subrange(q, k) + seq![','], s.subrange(k + 1, e), ',');
        lemma_occurrences_concat(s.subrange(q, k), seq![','], ',');
        assert(seq![','].drop_last() =~= Seq::<char>::empty());
        assert(occurrences(Seq::<char>::empty(), ',') == 0);
        assert(seq![','].last() == ',');
        assert(occurrences(seq![','], ',') == occurrences(seq![','].drop_last(), ',') + 1);
        assert(occurrences(seq![','], ',') == 1);
        if m == 2 {
            if k + 1 < e {
                assert(s.subrange(k + 1, e).last() == ',');
                assert(occurrences(s.subrange(k + 1, e), ',') > 0);
            }
        }
        lemma_splitn_rest(s, k + 1, e, (m - 1) as nat);
        let rest = splitn_from(s, ',', k + 1, (m - 1) as nat);
        assert(splitn_from(s, ',', q, m) == seq![s.subrange(q, k)] + rest);
    } else {
        assert(splitn_from(s, ',', q, m) == seq![s.subrange(q, s.len() as int)]);
    }
}

proof fn lemma_first_index_bound(f: Seq<Seq<char>>, key: Seq<char>, i: int)
    ensures
        first_index_from(f, key, i) matches Some(j) ==> 0 <= j < f.len(),
    decreases f.len() - i,
{
    if 0 <= i < f.len() && f[i] != key {
        lemma_first_index_bound(f, key, i + 1);
    }
}

/// The field count of a `Dialogue:` line under a format: the format's
/// fields, 10 without one.
pub open spec fn dialogue_field_count(fmt: Option<Seq<Seq<char>>>) -> nat {
    match fmt {
        Some(f) => f.len(),
        None => 10,
    }
}

/// A format whose last field is the text and that names the style (or no
/// format, whose ten fields end with the text).
pub open spec fn text_is_last(fmt: Option<Seq<Seq<char>>>) -> bool {
    match fmt {
        None => true,
        Some(f) => f.len() >= 2 && first_index(f, "text"@) == Some(f.len() - 1) && first_index(f, "style"@) is Some,
    }
}

/// The text of a `Dialogue:` line is the whole rest of the line after the
/// comma that ends the field before it, commas and all: where `p` holds one
/// comma fewer than there are fields and ends with a comma, the text read
/// from `p + t` is `t`, trimmed.
pub proof fn law_dialogue_text_keeps_commas(p: Seq<char>, t: Seq<char>, fmt: Option<Seq<Seq<char>>>)
    requires
        text_is_last(fmt),
        occurrences(p, ',') + 1 == dialogue_field_count(fmt),
        p.len() > 0,
        p.last() == ',',
    ensures
        spec_dialogue_line(p + t, fmt) matches Some(d) && d.1 == trim(t),
{
    let rest = p + t;
    let n = dialogue_field_count(fmt);
    assert(rest.subrange(0, p.len() as int) =~= p);
    assert(rest[p.len() - 1] == ',');
    lemma_splitn_rest(rest, 0, p.len() as int, n);
    assert(rest.subrange(p.len() as int, rest.len() as int) =~= t);
    match fmt {
        Some(f) => {
            lemma_first_index_bound(f, "style"@, 0);
        },
        None => {},
    }
}

/// The position of `key` in the format, or `default`.
fn format_index_or(fmt: &Option<LineFormat>, key: &str, default: usize) -> (r: usize)
    requires
        fmt matches Some(f) ==> f.wf(),
    ensures
        r as int == index_or(format_view(*fmt), key@, default as int),
{
    match fmt {
        Some(f) => {
            let k = chars_of(key);
            match index_lookup(&f.index_map, &k) {
                Some(i) => i,
                None => default,
            }
        },
        None => default,
    }
}

/// The integer in the column at range `r`, or 0.
fn column_int(s: &[char], cols: &Vec<(usize, usize)>, i: usize) -> (v: i32)
    requires
        forall|j: int| 0 <= j < cols@.len() ==> (#[trigger] cols@[j]).0 <= cols@[j].1 <= s@.len(),
    ensures
        v == int_column(
            Seq::new(cols@.len(), |j: int| s@.subrange(cols@[j].0 as int, cols@[j].1 as int)),
            i as int,
        ),
{
    if i < cols.len() {
        let (a, b) = cols[i];
        match parse_i32(s, a, b) {
            Some(v) => v,
            None => 0,
        }
    } else {
        0
    }
}

/// The trimmed columns of `s[lo..hi]`: split at every comma, or into at most
/// `n` pieces when `n` is given.
fn column_ranges(s: &[char], lo: usize, hi: usize, n: Option<usize>) -> (cols: Vec<(usize, usize)>)
    requires
        lo <= hi <= s@.len(),
    ensures
        forall|j: int| 0 <= j < cols@.len() ==> (#[trigger] cols@[j]).0 <= cols@[j].1 <= s@.len(),
        Seq::new(cols@.len(), |j: int| s@.subrange(cols@[j].0 as int, cols@[j].1 as int)) == trim_all(
            match n {
                Some(k) => splitn(s@.subrange(lo as int, hi as int), ',', k as nat),
                None => split(s@.subrange(lo as int, hi as int), ','),
            },
        ),
{
    let ghost pieces = match n {
        Some(k) => splitn(s@.subrange(lo as int, hi as int), ',', k as nat),
        None => split(s@.subrange(lo as int, hi as int), ','),
    };
    let raw = match n {
        Some(k) => splitn_ranges(s, lo, hi, ',', k),
        None => split_ranges(s, lo, hi, ','),
    };
    let cols = trim_ranges(s, &raw);
    assert(Seq::new(cols@.len(), |j: int| s@.subrange(cols@[j].0 as int, cols@[j].1 as int)) =~= trim_all(pieces));
    cols
}

/// Parses the part of a `Style:` line after its prefix.
fn parse_style_line(s: &[char], lo: usize, hi: usize, fmt: &Option<LineFormat>) -> (r: Option<(Vec<char>, StyleState)>)
    requires
        lo <= hi <= s@.len(),
        fmt matches Some(f) ==> f.wf(),
    ensures
        match r {
            Some(p) => spec_style_line(s@.subrange(lo as int, hi as int), format_view(*fmt)) == Some((p.0@, p.1.spec())),
            None => spec_style_line(s@.subrange(lo as int, hi as int), format_view(*fmt)) is None,
        },
{
    let n = match fmt {
        Some(f) => Some(f.fields.len()),
        None => None,
    };
    let cols = column_ranges(s, lo, hi, n);
    let ghost cv = Seq::new(cols@.len(), |j: int| s@.subrange(cols@[j].0 as int, cols@[j].1 as int));
    assert(cv == style_columns(s@.subrange(lo as int, hi as int), format_view(*fmt)));
    let ni = format_index_or(fmt, "name", 0);
    let fi = format_index_or(fmt, "fontname", 1);
    let bi = format_index_or(fmt, "bold", 7);
    let ii = format_index_or(fmt, "italic", 8);
    if ni >= cols.len() || fi >= cols.len() {
        return None;
    }
    let name = copy_chars(s, cols[ni].0, cols[ni].1);
    let font_name = copy_chars(s, cols[fi].0, cols[fi].1);
    let bold = column_int(s, &cols, bi);
    let italic = column_int(s, &cols, ii);
    Some((name, StyleState { font_name, bold, italic }))
}

/// Parses the part of a `Dialogue:` line after its prefix into the ranges of
/// its style name and its text.
fn parse_dialogue_line(s: &[char], lo: usize, hi: usize, fmt: &Option<LineFormat>) -> (r: Option<((usize, usize), (usize, usize))>)
    requires
        lo <= hi <= s@.len(),
        fmt matches Some(f) ==> f.wf(),
    ensures
        match r {
            Some(p) => p.0.0 <= p.0.1 <= s@.len() && p.1.0 <= p.1.1 <= s@.len() && spec_dialogue_line(
                s@.subrange(lo as int, hi as int),
                format_view(*fmt),
            ) == Some(
                (
                    s@.subrange(p.0.0 as int, p.0.1 as int),
                    s@.subrange(p.1.0 as int, p.1.1 as int),
                ),
            ),
            None => spec_dialogue_line(s@.subrange(lo as int, hi as int), format_view(*fmt)) is None,
        },
{
    let n = match fmt {
        Some(f) => f.fields.len(),
        None => 10,
    };
    let si = format_index_or(fmt, "style", 3);
    let ti = format_index_or(fmt, "text", 9);
    let cols = column_ranges(s, lo, hi, Some(n));
    if cols.len() <= si || cols.len() <= ti {
        return None;
    }
    Some((cols[si], cols[ti]))
}


/// The override tags that change the font: `\fn`, `\b`, `\i`, `\r`.
#[derive(Debug, Clone, Copy, PartialEq, Eq, Structural)]
pub enum OverrideTag {
    FontName,
    Bold,
    Italic,
    Reset,
}

/// The styles defined so far, later definitions of a name taking precedence.
pub open spec fn styles_view(v: Seq<(Vec<char>, StyleState)>) -> Seq<(Seq<char>, StyleSpec)> {
    Seq::new(v.len(), |i: int| (v[i].0@, v[i].1.spec()))
}

/// The style last defined under `name`.
pub open spec fn style_lookup(styles: Seq<(Seq<char>, StyleSpec)>, name: Seq<char>) -> Option<StyleSpec>
    decreases styles.len(),
{
    if styles.len() == 0 {
        None
    } else if styles.last().0 == name {
        Some(styles.last().1)
    } else {
        style_lookup(styles.drop_last(), name)
    }
}

/// The style once one override tag with its value applies: `\fn` sets a
/// non-empty trimmed font name, `\b` and `\i` an integer value, `\r` goes back
/// to the line's style or to a named style that exists.
pub open spec fn apply_token(tag: OverrideTag, value: Seq<char>, cur: StyleSpec, base: StyleSpec, styles: Seq<(Seq<char>, StyleSpec)>) -> StyleSpec {
    let v = trim(value);
    match tag {
        OverrideTag::FontName => if v.len() > 0 {
            StyleSpec { font_name: v, ..cur }
        } else {
            cur
        },
        OverrideTag::Bold => match spec_parse_i32(v) {
            Some(b) => StyleSpec { bold: b, ..cur },
            None => cur,
        },
        OverrideTag::Italic => match spec_parse_i32(v) {
            Some(i) => StyleSpec { italic: i, ..cur },
            None => cur,
        },
        OverrideTag::Reset => if v.len() == 0 {
            base
        } else {
            match style_lookup(styles, v) {
                Some(st) => st,
                None => cur,
            }
        },
    }
}

/// The tag that starts at `c1` (just after a backslash) and where its value starts.
pub open spec fn override_tag_at(code: Seq<char>, c1: int) -> Option<(OverrideTag, int)> {
    if c1 + 2 <= code.len() && code[c1] == 'f' && code[c1 + 1] == 'n' {
        Some((OverrideTag::FontName, c1 + 2))
    } else if c1 < code.len() && code[c1] == 'b' {
        Some((OverrideTag::Bold, c1 + 1))
    } else if c1 < code.len() && code[c1] == 'i' {
        Some((OverrideTag::Italic, c1 + 1))
    } else if c1 < code.len() && code[c1] == 'r' {
        Some((OverrideTag::Reset, c1 + 1))
    } else {
        None
    }
}

/// The style once the tags of an override block from `cursor` on apply:
/// each backslash starts a tag whose value runs to the next backslash.
pub open spec fn override_from(code: Seq<char>, cursor: int, cur: StyleSpec, base: StyleSpec, styles: Seq<(Seq<char>, StyleSpec)>) -> StyleSpec
    decreases code.len() - cursor,
{
    if cursor < 0 || cursor >= code.len() {
        cur
    } else if code[cursor] != '\\' {
        override_from(code, cursor + 1, cur, base, styles)
    } else {
        proof {
            lemma_first_char_from(code, '\\', cursor + 1);
        }
        match override_tag_at(code, cursor + 1) {
            None => override_from(code, first_char_from(code, '\\', cursor + 1), cur, base, styles),
            Some(t) => {
                proof {
                    lemma_first_char_from(code, '\\', t.1);
                }
                let ve = first_char_from(code, '\\', t.1);
                override_from(code, ve, apply_token(t.0, code.subrange(t.1, ve), cur, base, styles), base, styles)
            },
        }
    }
}

/// Bold as a weight: -1 and 1 mean 700, other values up to 0 mean 400.
pub open spec fn spec_normalize_bold(v: i32) -> i32 {
    if v == -1 || v == 1 {
        700
    } else if v <= 0 {
        400
    } else {
        v
    }
}

/// Italic as a flag: -1 and 1 mean italic.
pub open spec fn spec_normalize_italic(v: i32) -> bool {
    v == -1 || v == 1
}

/// Maps an ASS bold value to a font weight.
pub fn normalize_bold(value: i32) -> (r: i32)
    ensures
        r == spec_normalize_bold(value),
        r > 0,
{
    if value == -1 || value == 1 {
        return 700;
    }
    if value <= 0 {
        return 400;
    }
    value
}

/// Maps an ASS italic value to a flag.
pub fn normalize_italic(value: i32) -> (r: bool)
    ensures
        r == spec_normalize_italic(value),
{
    value == -1 || value == 1
}

/// The request a style makes.
pub open spec fn request_of(st: StyleSpec) -> RequestKey {
    RequestKey {
        font_name: st.font_name,
        bold: spec_normalize_bold(st.bold),
        italic: spec_normalize_italic(st.italic),
    }
}

/// The style last defined under the name at `s[lo..hi]`.
fn find_style<'a>(styles: &'a Vec<(Vec<char>, StyleState)>, s: &[char], lo: usize, hi: usize) -> (r: Option<&'a StyleState>)
    requires
        lo <= hi <= s@.len(),
    ensures
        match r {
            Some(st) => style_lookup(styles_view(styles@), s@.subrange(lo as int, hi as int)) == Some(st.spec()),
            None => style_lookup(styles_view(styles@), s@.subrange(lo as int, hi as int)) is None,
        },
{
    let name = copy_chars(s, lo, hi);
    let mut i = styles.len();
    assert(styles_view(styles@).take(i as int) =~= styles_view(styles@));
    while i > 0
        invariant
            i <= styles@.len(),
            name@ == s@.subrange(lo as int, hi as int),
            style_lookup(styles_view(styles@), name@) == style_lookup(styles_view(styles@).take(i as int), name@),
        decreases i,
    {
        assert(styles_view(styles@).take(i as int).drop_last() =~= styles_view(styles@).take(i - 1));
        assert(styles_view(styles@).take(i as int).last() == (styles@[i - 1].0@, styles@[i - 1].1.spec()));
        if chars_eq(&styles[i - 1].0, &name) {
            return Some(&styles[i - 1].1);
        }
        i -= 1;
    }
    None
}

/// Applies one override tag with the value at `s[vs..ve]` to `current`.
fn apply_override_token(tag: OverrideTag, s: &[char], vs: usize, ve: usize, current: &mut StyleState, base: &StyleState, styles: &Vec<(Vec<char>, StyleState)>)
    requires
        vs <= ve <= s@.len(),
    ensures
        final(current).spec() == apply_token(tag, s@.subrange(vs as int, ve as int), old(current).spec(), base.spec(), styles_view(styles@)),
{
    let (a, b) = trim_range(s, vs, ve);
    match tag {
        OverrideTag::FontName => {
            if a < b {
                current.font_name = copy_chars(s, a, b);
            }
        },
        OverrideTag::Bold => {
            if let Some(v) = parse_i32(s, a, b) {
                current.bold = v;
            }
        },
        OverrideTag::Italic => {
            if let Some(v) = parse_i32(s, a, b) {
                current.italic = v;
            }
        },
        OverrideTag::Reset => {
            if a == b {
                *current = base.copy();
            } else {
                match find_style(styles, s, a, b) {
                    Some(st) => {
                        *current = st.copy();
                    },
                    None => {},
                }
            }
        },
    }
}

/// Applies, in order, the override tags of the block at `s[lo..hi]` to `current`.
fn for_each_override_token(s: &[char], lo: usize, hi: usize, current: &mut StyleState, base: &StyleState, styles: &Vec<(Vec<char>, StyleState)>)
    requires
        lo <= hi <= s@.len(),
    ensures
        final(current).spec() == override_from(s@.subrange(lo as int, hi as int), 0, old(current).spec(), base.spec(), styles_view(styles@)),
{
    let ghost code = s@.subrange(lo as int, hi as int);
    let ghost goal = override_from(code, 0, current.spec(), base.spec(), styles_view(styles@));
    let mut cursor = lo;
    while cursor < hi
        invariant
            lo <= cursor <= hi <= s@.len(),
            code == s@.subrange(lo as int, hi as int),
            goal == override_from(code, cursor - lo, current.spec(), base.spec(), styles_view(styles@)),
        decreases hi - cursor,
    {
        assert(code[cursor - lo] == s@[cursor as int]);
        if s[cursor] != '\\' {
            cursor += 1;
        } else {
            let c1 = cursor + 1;
            let tag: Option<(OverrideTag, usize)> = if hi - c1 >= 2 && s[c1] == 'f' && s[c1 + 1] == 'n' {
                Some((OverrideTag::FontName, c1 + 2))
            } else if c1 < hi && s[c1] == 'b' {
                Some((OverrideTag::Bold, c1 + 1))
            } else if c1 < hi && s[c1] == 'i' {
                Some((OverrideTag::Italic, c1 + 1))
            } else if c1 < hi && s[c1] == 'r' {
                Some((OverrideTag::Reset, c1 + 1))
            } else {
                None
            };
            proof {
                if c1 + 2 <= hi {
                    assert(code[c1 - lo] == s@[c1 as int]);
                    assert(code[c1 + 1 - lo] == s@[c1 + 1]);
                } else if c1 < hi {
                    assert(code[c1 - lo] == s@[c1 as int]);
                }
                assert(tag matches Some(t) ==> override_tag_at(code, c1 - lo) == Some((t.0, t.1 - lo)));
                assert(tag is None ==> override_tag_at(code, c1 - lo) is None);
            }
            let start = match tag {
                Some(t) => t.1,
                None => c1,
            };
            let mut e = start;
            while e < hi && s[e] != '\\'
                invariant
                    lo <= start <= e <= hi <= s@.len(),
                    code == s@.subrange(lo as int, hi as int),
                    first_char_from(code, '\\', start - lo) == first_char_from(code, '\\', e - lo),
                decreases hi - e,
            {
                assert(code[e - lo] == s@[e as int]);
                e += 1;
            }
            if e < hi {
                assert(code[e - lo] == s@[e as int]);
            }
            if let Some(t) = tag {
                apply_override_token(t.0, s, t.1, e, current, base, styles);
                assert(code.subrange(t.1 - lo, e - lo) =~= s@.subrange(t.1 as int, e as int));
            }
            cursor = e;
        }
    }
}

/// Applies the override block at `s[lo..hi]` to the current style.
fn apply_override_state(s: &[char], lo: usize, hi: usize, current: &mut StyleState, base: &StyleState, styles: &Vec<(Vec<char>, StyleState)>)
    requires
        lo <= hi <= s@.len(),
    ensures
        final(current).spec() == override_from(s@.subrange(lo as int, hi as int), 0, old(current).spec(), base.spec(), styles_view(styles@)),
{
    for_each_override_token(s, lo, hi, current, base, styles);
}

/// The state of a walk over the text of a dialogue line.
pub struct TextScan {
    pub current: StyleSpec,
    pub in_override: bool,
    pub buf: Seq<char>,
    pub reqs: Seq<(RequestKey, Seq<char>)>,
}

/// One character of dialogue text: `{` opens an override block, `}` closes and
/// applies it, other characters outside blocks are recorded under the current
/// request unless they are control characters.
pub open spec fn scan_step(st: TextScan, ch: char, base: StyleSpec, styles: Seq<(Seq<char>, StyleSpec)>) -> TextScan {
    if st.in_override {
        if ch == '}' {
            TextScan {
                current: override_from(st.buf, 0, st.current, base, styles),
                in_override: false,
                buf: Seq::empty(),
                reqs: st.reqs,
            }
        } else {
            TextScan { buf: st.buf.push(ch), ..st }
        }
    } else if ch == '{' {
        TextScan { in_override: true, ..st }
    } else if !is_control_char(ch) {
        TextScan { reqs: record(st.reqs, request_of(st.current), ch), ..st }
    } else {
        st
    }
}

/// The walk over the first `n` characters of `text`.
pub open spec fn scan_prefix(text: Seq<char>, n: int, base: StyleSpec, styles: Seq<(Seq<char>, StyleSpec)>, reqs: Seq<(RequestKey, Seq<char>)>) -> TextScan
    decreases n,
{
    if n <= 0 {
        TextScan { current: base, in_override: false, buf: Seq::empty(), reqs }
    } else {
        scan_step(scan_prefix(text, n - 1, base, styles, reqs), text[n - 1], base, styles)
    }
}

/// The requests once the characters of a dialogue text are recorded.
pub open spec fn collect(text: Seq<char>, base: StyleSpec, styles: Seq<(Seq<char>, StyleSpec)>, reqs: Seq<(RequestKey, Seq<char>)>) -> Seq<(RequestKey, Seq<char>)> {
    scan_prefix(text, text.len() as int, base, styles, reqs).reqs
}

/// Records the characters of the dialogue text at `s[lo..hi]`.
fn collect_dialogue_requests(s: &[char], lo: usize, hi: usize, base: &StyleState, styles: &Vec<(Vec<char>, StyleState)>, sink: &mut Vec<Usage>)
    requires
        lo <= hi <= s@.len(),
    ensures
        usages_view(final(sink)@) == collect(s@.subrange(lo as int, hi as int), base.spec(), styles_view(styles@), usages_view(old(sink)@)),
{
    let ghost text = s@.subrange(lo as int, hi as int);
    let ghost reqs0 = usages_view(sink@);
    let mut current = base.copy();
    let mut in_override = false;
    let mut open: usize = lo;
    let mut i = lo;
    while i < hi
        invariant
            lo <= open <= i <= hi <= s@.len(),
            text == s@.subrange(lo as int, hi as int),
            scan_prefix(text, i - lo, base.spec(), styles_view(styles@), reqs0) == (TextScan {
                current: current.spec(),
                in_override,
                buf: if in_override { s@.subrange(open as int, i as int) } else { Seq::empty() },
                reqs: usages_view(sink@),
            }),
        decreases hi - i,
    {
        let ch = s[i];
        assert(text[i - lo] == ch);
        if in_override {
            if ch == '}' {
                apply_override_state(s, open, i, &mut current, base, styles);
                in_override = false;
            } else {
                assert(s@.subrange(open as int, i + 1) =~= s@.subrange(open as int, i as int).push(ch));
            }
        } else if ch == '{' {
            in_override = true;
            open = i + 1;
            assert(s@.subrange(open as int, i + 1) =~= Seq::<char>::empty());
        } else if !is_control(ch) {
            let b = normalize_bold(current.bold);
            let it = normalize_italic(current.italic);
            record_char(sink, &current.font_name, b, it, ch);
        }
        i += 1;
    }
}


/// What the analysis knows after some lines of a script.
pub struct AssState {
    pub section: Seq<char>,
    pub styles: Seq<(Seq<char>, StyleSpec)>,
    pub style_format: Option<Seq<Seq<char>>>,
    pub events_format: Option<Seq<Seq<char>>>,
    pub reqs: Seq<(RequestKey, Seq<char>)>,
}

/// The style of dialogue lines whose style is not defined.
pub open spec fn default_style() -> StyleSpec {
    StyleSpec { font_name: "Default"@, bold: 0, italic: 0 }
}

/// A styles section header, in either script version.
pub open spec fn is_styles_section(sec: Seq<char>) -> bool {
    eq_ignore_ascii_case(sec, "[V4+ Styles]"@) || eq_ignore_ascii_case(sec, "[V4 Styles]"@)
}

/// The events section header.
pub open spec fn is_events_section(sec: Seq<char>) -> bool {
    eq_ignore_ascii_case(sec, "[Events]"@)
}

/// A trimmed line of the form `[...]`.
pub open spec fn is_section_header(line: Seq<char>) -> bool {
    line.len() > 0 && line[0] == '[' && line.last() == ']'
}

/// One line of a script: a section header switches the section; in a styles
/// section `Format:` sets the style format and `Style:` defines a style; in
/// the events section `Format:` sets the event format and `Dialogue:` records
/// the characters of its text under the fonts they are drawn with.
pub open spec fn line_step(st: AssState, raw: Seq<char>) -> AssState {
    let line = trim(raw);
    if is_section_header(line) {
        AssState { section: line, ..st }
    } else if is_styles_section(st.section) && starts_with(line, "Format:"@) {
        AssState { style_format: spec_style_format(line.skip("Format:"@.len() as int)), ..st }
    } else if is_events_section(st.section) && starts_with(line, "Format:"@) {
        AssState { events_format: spec_events_format(line.skip("Format:"@.len() as int)), ..st }
    } else if is_styles_section(st.section) && starts_with(line, "Style:"@) {
        match spec_style_line(line.skip("Style:"@.len() as int), st.style_format) {
            Some(def) => AssState { styles: st.styles.push(def), ..st },
            None => st,
        }
    } else if is_events_section(st.section) && starts_with(line, "Dialogue:"@) {
        match spec_dialogue_line(line.skip("Dialogue:"@.len() as int), st.events_format) {
            Some(d) => {
                let base = match style_lookup(st.styles, d.0) {
                    Some(x) => x,
                    None => default_style(),
                };
                AssState { reqs: collect(d.1, base, st.styles, st.reqs), ..st }
            },
            None => st,
        }
    } else {
        st
    }
}

/// The analysis after the first `n` lines.
pub open spec fn analyze_prefix(ls: Seq<Seq<char>>, n: int) -> AssState
    decreases n,
{
    if n <= 0 {
        AssState {
            section: Seq::empty(),
            styles: Seq::empty(),
            style_format: None,
            events_format: None,
            reqs: Seq::empty(),
        }
    } else {
        line_step(analyze_prefix(ls, n - 1), ls[n - 1])
    }
}

/// The font requests of a script, ordered, each with the characters drawn
/// with it in the order they first occur.
pub open spec fn spec_analyze(content: Seq<char>) -> Seq<(RequestKey, Seq<char>)> {
    let ls = lines(content);
    analyze_prefix(ls, ls.len() as int).reqs
}

/// A font request with the characters a script draws with it.
#[derive(Debug, Clone)]
pub struct FontUsage {
    pub request: FontRequest,
    pub chars: Vec<char>,
}

/// The fonts a script uses.
#[derive(Debug, Clone)]
pub struct AssAnalysis {
    pub font_requests: Vec<FontUsage>,
}

impl View for AssAnalysis {
    type V = Seq<(RequestKey, Seq<char>)>;

    open spec fn view(&self) -> Seq<(RequestKey, Seq<char>)> {
        Seq::new(self.font_requests@.len(), |i: int| (self.font_requests@[i].request@, self.font_requests@[i].chars@))
    }
}

/// Whether `s[a..b]` starts with `p`.
fn range_starts_with(s: &[char], a: usize, b: usize, p: &[char]) -> (r: bool)
    requires
        a <= b <= s@.len(),
    ensures
        r == starts_with(s@.subrange(a as int, b as int), p@),
{
    if p.len() > b - a {
        return false;
    }
    let mut i: usize = 0;
    while i < p.len()
        invariant
            a + p@.len() <= b <= s@.len(),
            i <= p@.len(),
            forall|j: int| 0 <= j < i ==> s@[a + j] == p@[j],
        decreases p@.len() - i,
    {
        if s[a + i] != p[i] {
            assert(s@.subrange(a as int, b as int).subrange(0, p@.len() as int)[i as int] != p@[i as int]);
            return false;
        }
        i += 1;
    }
    assert(s@.subrange(a as int, b as int).subrange(0, p@.len() as int) =~= p@);
    true
}

/// Analyzes an ASS script: which fonts (name, weight, italic) it draws
/// characters with, and which characters each one draws.
pub fn analyze_ass(content: &str) -> (r: AssAnalysis)
    ensures
        r@ == spec_analyze(content@),
{
    let s = chars_of(content);
    let ranges = line_ranges(&s);
    let ghost ls = lines(s@);
    let v4p = chars_of("[V4+ Styles]");
    let v4 = chars_of("[V4 Styles]");
    let events = chars_of("[Events]");
    let format_p = chars_of("Format:");
    let style_p = chars_of("Style:");
    let dialogue_p = chars_of("Dialogue:");
    let mut section: Vec<char> = Vec::new();
    let mut styles: Vec<(Vec<char>, StyleState)> = Vec::new();
    let mut style_format: Option<LineFormat> = None;
    let mut events_format: Option<LineFormat> = None;
    let mut sink: Vec<Usage> = Vec::new();
    assert(styles_view(styles@) =~= Seq::<(Seq<char>, StyleSpec)>::empty());
    assert(usages_view(sink@) =~= Seq::<(RequestKey, Seq<char>)>::empty());
    assert(section@ =~= Seq::<char>::empty());
    let mut i: usize = 0;
    while i < ranges.len()
        invariant
            i <= ranges@.len(),
            ranges@.len() == ls.len(),
            ls == lines(s@),
            s@ == content@,
            v4p@ == "[V4+ Styles]"@,
            v4@ == "[V4 Styles]"@,
            events@ == "[Events]"@,
            format_p@ == "Format:"@,
            style_p@ == "Style:"@,
            dialogue_p@ == "Dialogue:"@,
            forall|j: int|
                0 <= j < ranges@.len() ==> (#[trigger] ranges@[j]).0 <= ranges@[j].1 <= s@.len()
                    && s@.subrange(ranges@[j].0 as int, ranges@[j].1 as int) == ls[j],
            style_format matches Some(f) ==> f.wf(),
            events_format matches Some(f) ==> f.wf(),
            analyze_prefix(ls, i as int) == (AssState {
                section: section@,
                styles: styles_view(styles@),
                style_format: format_view(style_format),
                events_format: format_view(events_format),
                reqs: usages_view(sink@),
            }),
        decreases ranges@.len() - i,
    {
        let (ra, rb) = ranges[i];
        let (a, b) = trim_range(&s, ra, rb);
        let ghost line = s@.subrange(a as int, b as int);
        assert(line == trim(ls[i as int]));
        let is_header = a < b && s[a] == '[' && s[b - 1] == ']';
        if is_header {
            section = copy_chars(&s, a, b);
        } else {
            let styles_sec = chars_eq_ignore_ascii_case(&section, &v4p) || chars_eq_ignore_ascii_case(&section, &v4);
            let events_sec = chars_eq_ignore_ascii_case(&section, &events);
            let is_format = range_starts_with(&s, a, b, &format_p);
            if styles_sec && is_format {
                assert(line.skip(format_p@.len() as int) =~= s@.subrange(a + format_p@.len(), b as int));
                style_format = parse_style_format(&s, a + format_p.len(), b);
            } else if events_sec && is_format {
                assert(line.skip(format_p@.len() as int) =~= s@.subrange(a + format_p@.len(), b as int));
                events_format = parse_events_format(&s, a + format_p.len(), b);
            } else if styles_sec && range_starts_with(&s, a, b, &style_p) {
                assert(line.skip(style_p@.len() as int) =~= s@.subrange(a + style_p@.len(), b as int));
                if let Some(def) = parse_style_line(&s, a + style_p.len(), b, &style_format) {
                    let ghost old_styles = styles@;
                    styles.push(def);
                    assert(styles_view(styles@) =~= styles_view(old_styles).push((def.0@, def.1.spec())));
                }
            } else if events_sec && range_starts_with(&s, a, b, &dialogue_p) {
                assert(line.skip(dialogue_p@.len() as int) =~= s@.subrange(a + dialogue_p@.len(), b as int));
                if let Some((sr, tr)) = parse_dialogue_line(&s, a + dialogue_p.len(), b, &events_format) {
                    let default = StyleState { font_name: chars_of("Default"), bold: 0, italic: 0 };
                    match find_style(&styles, &s, sr.0, sr.1) {
                        Some(st) => {
                            collect_dialogue_requests(&s, tr.0, tr.1, st, &styles, &mut sink);
                        },
                        None => {
                            collect_dialogue_requests(&s, tr.0, tr.1, &default, &styles, &mut sink);
                        },
                    }
                }
            }
        }
        i += 1;
    }
    assert(ls.len() == ranges@.len());
    let mut out: Vec<FontUsage> = Vec::new();
    let mut k: usize = 0;
    while k < sink.len()
        invariant
            k <= sink@.len(),
            out@.len() == k,
            forall|j: int| 0 <= j < k ==> (#[trigger] out@[j]).request@ == sink@[j].key() && out@[j].chars@ == sink@[j].chars@,
        decreases sink@.len() - k,
    {
        let u = &sink[k];
        let name = string_from_chars(&u.font_name);
        let cs = copy_chars(&u.chars, 0, u.chars.len());
        assert(u.chars@.subrange(0, u.chars@.len() as int) =~= u.chars@);
        out.push(FontUsage { request: FontRequest { font_name: name, bold: u.bold, italic: u.italic }, chars: cs });
        k += 1;
    }
    let r = AssAnalysis { font_requests: out };
    assert(r@ =~= usages_view(sink@));
    r
}


/// Requests ordered strictly by `key_lt` (each present once), every weight
/// positive, and each one's characters distinct and none a control character.
pub open spec fn reqs_wf(r: Seq<(RequestKey, Seq<char>)>) -> bool {
    &&& forall|i: int, j: int| 0 <= i < j < r.len() ==> key_lt(#[trigger] r[i].0, #[trigger] r[j].0)
    &&& forall|i: int| 0 <= i < r.len() ==> (#[trigger] r[i]).0.bold > 0
    &&& forall|i: int| 0 <= i < r.len() ==> (#[trigger] r[i]).1.no_duplicates()
    &&& forall|i: int, k: int| 0 <= i < r.len() && 0 <= k < r[i].1.len() ==> !is_control_char(#[trigger] r[i].1[k])
}

proof fn lemma_record_lower(reqs: Seq<(RequestKey, Seq<char>)>, key: RequestKey, c: char, b: RequestKey)
    requires
        forall|i: int| 0 <= i < reqs.len() ==> key_lt(b, #[trigger] reqs[i].0),
        key_lt(b, key),
    ensures
        forall|i: int| 0 <= i < record(reqs, key, c).len() ==> key_lt(b, #[trigger] record(reqs, key, c)[i].0),
    decreases reqs.len(),
{
    if reqs.len() > 0 && reqs[0].0 != key && !key_lt(key, reqs[0].0) {
        lemma_record_lower(reqs.drop_first(), key, c, b);
        let r = record(reqs, key, c);
        let rr = record(reqs.drop_first(), key, c);
        assert forall|i: int| 0 <= i < r.len() implies key_lt(b, #[trigger] r[i].0) by {
            if i > 0 {
                assert(r[i] == rr[i - 1]);
            }
        }
    } else if reqs.len() > 0 && reqs[0].0 == key {
        let r = record(reqs, key, c);
        assert forall|i: int| 0 <= i < r.len() implies key_lt(b, #[trigger] r[i].0) by {
            if i > 0 {
                assert(r[i] == reqs[i]);
            }
        }
    } else if reqs.len() > 0 {
        let r = record(reqs, key, c);
        assert forall|i: int| 0 <= i < r.len() implies key_lt(b, #[trigger] r[i].0) by {
            if i > 0 {
                assert(r[i] == reqs[i - 1]);
            }
        }
    }
}

proof fn lemma_add_char_wf(cs: Seq<char>, c: char)
    requires
        cs.no_duplicates(),
        forall|k: int| 0 <= k < cs.len() ==> !is_control_char(#[trigger] cs[k]),
        !is_control_char(c),
    ensures
        add_char(cs, c).no_duplicates(),
        forall|k: int| 0 <= k < add_char(cs, c).len() ==> !is_control_char(#[trigger] add_char(cs, c)[k]),
{
    if !cs.contains(c) {
        let n = cs.push(c);
        assert forall|i: int, j: int| 0 <= i < j < n.len() implies n[i] != n[j] by {
            if j == cs.len() {
                assert(n[i] == cs[i]);
            }
        }
    }
}

/// Recording a character keeps the requests ordered, their weights
/// positive and their characters distinct and printable.
pub proof fn lemma_record_wf(reqs: Seq<(RequestKey, Seq<char>)>, key: RequestKey, c: char)
    requires
        reqs_wf(reqs),
        key.bold > 0,
        !is_control_char(c),
    ensures
        reqs_wf(record(reqs, key, c)),
    decreases reqs.len(),
{
    let r = record(reqs, key, c);
    if reqs.len() == 0 {
        assert(seq![c].no_duplicates());
    } else if reqs[0].0 == key {
        lemma_add_char_wf(reqs[0].1, c);
        assert forall|i: int| 0 <= i < r.len() implies r[i].0 == reqs[i].0 && (i > 0 ==> r[i] == reqs[i]) by {}
    } else if key_lt(key, reqs[0].0) {
        assert forall|i: int| 0 < i < r.len() implies r[i] == reqs[i - 1] by {}
        assert forall|i: int| 0 < i < r.len() implies key_lt(key, #[trigger] r[i].0) by {
            if i > 1 {
                lemma_key_lt_transitive(key, reqs[0].0, reqs[i - 1].0);
            }
        }
        assert(seq![c].no_duplicates());
    } else {
        let rest = reqs.drop_first();
        lemma_key_lt_trichotomy(key, reqs[0].0);
        assert forall|i: int| 0 <= i < rest.len() implies key_lt(reqs[0].0, #[trigger] rest[i].0) by {
            assert(rest[i] == reqs[i + 1]);
        }
        lemma_record_wf(rest, key, c);
        lemma_record_lower(rest, key, c, reqs[0].0);
        let rr = record(rest, key, c);
        assert forall|i: int| 0 < i < r.len() implies r[i] == rr[i - 1] by {}
    }
}

/// Walking a dialogue text keeps the requests well formed.
pub proof fn lemma_scan_wf(text: Seq<char>, n: int, base: StyleSpec, styles: Seq<(Seq<char>, StyleSpec)>, reqs: Seq<(RequestKey, Seq<char>)>)
    requires
        reqs_wf(reqs),
        n <= text.len(),
    ensures
        reqs_wf(scan_prefix(text, n, base, styles, reqs).reqs),
    decreases n,
{
    if n > 0 {
        lemma_scan_wf(text, n - 1, base, styles, reqs);
        let st = scan_prefix(text, n - 1, base, styles, reqs);
        let ch = text[n - 1];
        if !st.in_override && ch != '{' && !is_control_char(ch) {
            lemma_record_wf(st.reqs, request_of(st.current), ch);
        }
    }
}

proof fn lemma_analyze_wf(ls: Seq<Seq<char>>, n: int)
    requires
        n <= ls.len(),
    ensures
        reqs_wf(analyze_prefix(ls, n).reqs),
    decreases n,
{
    if n > 0 {
        lemma_analyze_wf(ls, n - 1);
        let st = analyze_prefix(ls, n - 1);
        let line = trim(ls[n - 1]);
        if !is_section_header(line) && !(is_styles_section(st.section) && starts_with(line, "Format:"@))
            && !(is_events_section(st.section) && starts_with(line, "Format:"@)) && !(is_styles_section(
            st.section,
        ) && starts_with(line, "Style:"@)) && is_events_section(st.section) && starts_with(line, "Dialogue:"@) {
            match spec_dialogue_line(line.skip("Dialogue:"@.len() as int), st.events_format) {
                Some(d) => {
                    let base = match style_lookup(st.styles, d.0) {
                        Some(x) => x,
                        None => default_style(),
                    };
                    lemma_scan_wf(d.1, d.1.len() as int, base, st.styles, st.reqs);
                },
                None => {},
            }
        }
    }
}

/// Entry `j` of `b` is for the request of `e` and holds all its characters.
pub open spec fn covers(b: Seq<(RequestKey, Seq<char>)>, e: (RequestKey, Seq<char>), j: int) -> bool {
    &&& 0 <= j < b.len()
    &&& b[j].0 == e.0
    &&& forall|c: char| e.1.contains(c) ==> #[trigger] b[j].1.contains(c)
}

/// Every entry of `a` has an entry for the same request in `b` that holds
/// all of its characters.
pub open spec fn reqs_within(a: Seq<(RequestKey, Seq<char>)>, b: Seq<(RequestKey, Seq<char>)>) -> bool {
    forall|i: int| 0 <= i < a.len() ==> #[trigger] covered(b, a[i])
}

/// Some entry of `b` covers `e`.
pub open spec fn covered(b: Seq<(RequestKey, Seq<char>)>, e: (RequestKey, Seq<char>)) -> bool {
    exists|j: int| #[trigger] covers(b, e, j)
}

proof fn lemma_within_refl(a: Seq<(RequestKey, Seq<char>)>)
    ensures
        reqs_within(a, a),
{
    assert forall|i: int| 0 <= i < a.len() implies #[trigger] covered(a, a[i]) by {
        assert(covers(a, a[i], i));
    }
}

proof fn lemma_within_trans(a: Seq<(RequestKey, Seq<char>)>, b: Seq<(RequestKey, Seq<char>)>, c: Seq<(RequestKey, Seq<char>)>)
    requires
        reqs_within(a, b),
        reqs_within(b, c),
    ensures
        reqs_within(a, c),
{
    assert forall|i: int| 0 <= i < a.len() implies #[trigger] covered(c, a[i]) by {
        assert(covered(b, a[i]));
        let j = choose|j: int| #[trigger] covers(b, a[i], j);
        assert(covered(c, b[j]));
        let k = choose|k: int| #[trigger] covers(c, b[j], k);
        assert forall|x: char| a[i].1.contains(x) implies #[trigger] c[k].1.contains(x) by {
            assert(b[j].1.contains(x));
        }
        assert(covers(c, a[i], k));
    }
}

proof fn lemma_record_grows(reqs: Seq<(RequestKey, Seq<char>)>, key: RequestKey, c: char)
    ensures
        reqs_within(reqs, record(reqs, key, c)),
    decreases reqs.len(),
{
    let r = record(reqs, key, c);
    if reqs.len() == 0 {
    } else if reqs[0].0 == key {
        assert forall|i: int| 0 <= i < reqs.len() implies #[trigger] covered(r, reqs[i]) by {
            if i == 0 {
                assert forall|x: char| reqs[0].1.contains(x) implies #[trigger] r[0].1.contains(x) by {
                    if !reqs[0].1.contains(c) {
                        let k = choose|k: int| 0 <= k < reqs[0].1.len() && reqs[0].1[k] == x;
                        assert(r[0].1[k] == x);
                    }
                }
                assert(covers(r, reqs[i], 0));
            } else {
                assert(r[i] == reqs[i]);
                assert(covers(r, reqs[i], i));
            }
        }
    } else if key_lt(key, reqs[0].0) {
        assert forall|i: int| 0 <= i < reqs.len() implies #[trigger] covered(r, reqs[i]) by {
            assert(r[i + 1] == reqs[i]);
            assert(covers(r, reqs[i], i + 1));
        }
    } else {
        let rest = reqs.drop_first();
        lemma_record_grows(rest, key, c);
        let rr = record(rest, key, c);
        assert(r == seq![reqs[0]] + rr);
        assert forall|i: int| 0 <= i < reqs.len() implies #[trigger] covered(r, reqs[i]) by {
            if i == 0 {
                assert(r[0] == reqs[0]);
                assert(covers(r, reqs[i], 0));
            } else {
                assert(rest[i - 1] == reqs[i]);
                assert(covered(rr, rest[i - 1]));
                let j = choose|j: int| #[trigger] covers(rr, rest[i - 1], j);
                assert(r[j + 1] == rr[j]);
                assert(covers(r, reqs[i], j + 1));
            }
        }
    }
}

proof fn lemma_scan_grows(text: Seq<char>, n: int, base: StyleSpec, styles: Seq<(Seq<char>, StyleSpec)>, reqs: Seq<(RequestKey, Seq<char>)>)
    ensures
        reqs_within(reqs, scan_prefix(text, n, base, styles, reqs).reqs),
    decreases n,
{
    if n <= 0 {
        lemma_within_refl(reqs);
    } else {
        lemma_scan_grows(text, n - 1, base, styles, reqs);
        let st = scan_prefix(text, n - 1, base, styles, reqs);
        let ch = text[n - 1];
        if !st.in_override && ch != '{' && !is_control_char(ch) {
            lemma_record_grows(st.reqs, request_of(st.current), ch);
            lemma_within_trans(reqs, st.reqs, scan_step(st, ch, base, styles).reqs);
        } else {
            assert(scan_step(st, ch, base, styles).reqs == st.reqs);
        }
    }
}

proof fn lemma_line_step_grows(st: AssState, raw: Seq<char>)
    ensures
        reqs_within(st.reqs, line_step(st, raw).reqs),
{
    let next = line_step(st, raw);
    if next.reqs == st.reqs {
        lemma_within_refl(st.reqs);
    } else {
        let line = trim(raw);
        let d = spec_dialogue_line(line.skip("Dialogue:"@.len() as int), st.events_format)->Some_0;
        let base = match style_lookup(st.styles, d.0) {
            Some(x) => x,
            None => default_style(),
        };
        assert(next.reqs == collect(d.1, base, st.styles, st.reqs));
        lemma_scan_grows(d.1, d.1.len() as int, base, st.styles, st.reqs);
    }
}

proof fn lemma_analyze_prefix_of(ls: Seq<Seq<char>>, more: Seq<Seq<char>>, n: int)
    requires
        0 <= n <= ls.len(),
    ensures
        analyze_prefix(ls + more, n) == analyze_prefix(ls, n),
    decreases n,
{
    if n > 0 {
        lemma_analyze_prefix_of(ls, more, n - 1);
        assert((ls + more)[n - 1] == ls[n - 1]);
    }
}

/// Lines added at the end of a script only add requests and characters:
/// every request of the first lines stays, with all its characters.
pub proof fn law_analysis_grows(ls: Seq<Seq<char>>, more: Seq<Seq<char>>)
    ensures
        reqs_within(analyze_prefix(ls, ls.len() as int).reqs, analyze_prefix(ls + more, (ls + more).len() as int).reqs),
    decreases more.len(),
{
    if more.len() == 0 {
        assert(ls + more =~= ls);
        lemma_within_refl(analyze_prefix(ls, ls.len() as int).reqs);
    } else {
        let front = more.drop_last();
        law_analysis_grows(ls, front);
        let all = ls + more;
        assert(all.drop_last() =~= ls + front);
        lemma_analyze_prefix_of(ls + front, seq![more.last()], (ls + front).len() as int);
        assert(ls + front + seq![more.last()] =~= all);
        lemma_line_step_grows(analyze_prefix(ls + front, (ls + front).len() as int), more.last());
        lemma_within_trans(
            analyze_prefix(ls, ls.len() as int).reqs,
            analyze_prefix(ls + front, (ls + front).len() as int).reqs,
            analyze_prefix(all, all.len() as int).reqs,
        );
    }
}

/// The analysis state once the lines `ls` are read, one after another,
/// from `st`.
pub open spec fn run_lines(st: AssState, ls: Seq<Seq<char>>) -> AssState
    decreases ls.len(),
{
    if ls.len() == 0 {
        st
    } else {
        run_lines(line_step(st, ls[0]), ls.drop_first())
    }
}

/// The state before any line.
pub open spec fn start_state() -> AssState {
    AssState { section: Seq::empty(), styles: Seq::empty(), style_format: None, events_format: None, reqs: Seq::empty() }
}

proof fn lemma_run_lines_push(st: AssState, ls: Seq<Seq<char>>, x: Seq<char>)
    ensures
        run_lines(st, ls.push(x)) == line_step(run_lines(st, ls), x),
    decreases ls.len(),
{
    if ls.len() > 0 {
        assert(ls.push(x)[0] == ls[0]);
        assert(ls.push(x).drop_first() =~= ls.drop_first().push(x));
        lemma_run_lines_push(line_step(st, ls[0]), ls.drop_first(), x);
        assert(run_lines(st, ls.push(x)) == run_lines(line_step(st, ls[0]), ls.push(x).drop_first()));
        assert(run_lines(st, ls) == run_lines(line_step(st, ls[0]), ls.drop_first()));
    } else {
        assert(ls.push(x)[0] == x);
        assert(ls.push(x).drop_first() =~= Seq::<Seq<char>>::empty());
        assert(run_lines(line_step(st, x), Seq::<Seq<char>>::empty()) == line_step(st, x));
        assert(run_lines(st, ls.push(x)) == run_lines(line_step(st, x), ls.push(x).drop_first()));
        assert(run_lines(st, ls) == st);
    }
}

proof fn lemma_run_lines_prefix(ls: Seq<Seq<char>>, n: int)
    requires
        0 <= n <= ls.len(),
    ensures
        analyze_prefix(ls, n) == run_lines(start_state(), ls.take(n)),
    decreases n,
{
    if n > 0 {
        lemma_run_lines_prefix(ls, n - 1);
        assert(ls.take(n) =~= ls.take(n - 1).push(ls[n - 1]));
        lemma_run_lines_push(start_state(), ls.take(n - 1), ls[n - 1]);
    } else {
        assert(ls.take(0) =~= Seq::<Seq<char>>::empty());
    }
}

proof fn lemma_run_lines_grows(st: AssState, ls: Seq<Seq<char>>)
    ensures
        reqs_within(st.reqs, run_lines(st, ls).reqs),
    decreases ls.len(),
{
    if ls.len() == 0 {
        lemma_within_refl(st.reqs);
    } else {
        lemma_line_step_grows(st, ls[0]);
        lemma_run_lines_grows(line_step(st, ls[0]), ls.drop_first());
        lemma_within_trans(st.reqs, line_step(st, ls[0]).reqs, run_lines(st, ls).reqs);
    }
}

proof fn lemma_trim_start_push(y: Seq<char>, w: char, i: int)
    requires
        0 <= i <= y.len(),
        is_white_space(w),
    ensures
        trim_start_from(y.push(w), i) == if trim_start_from(y, i) < y.len() {
            trim_start_from(y, i)
        } else {
            y.len() + 1int
        },
    decreases y.len() - i,
{
    assert(y.push(w)[y.len() as int] == w);
    if i < y.len() {
        assert(y.push(w)[i] == y[i]);
        if is_white_space(y[i]) {
            lemma_trim_start_push(y, w, i + 1);
        }
    } else {
        assert(trim_start_from(y.push(w), i + 1) == i + 1);
    }
}

proof fn lemma_trim_end_agree(y: Seq<char>, z: Seq<char>, lo: int, j: int)
    requires
        0 <= lo <= j <= y.len(),
        j <= z.len(),
        forall|k: int| 0 <= k < j ==> y[k] == z[k],
    ensures
        trim_end_from(y, lo, j) == trim_end_from(z, lo, j),
    decreases j - lo,
{
    if lo < j {
        lemma_trim_end_agree(y, z, lo, j - 1);
    }
}

proof fn lemma_trim_push_white(y: Seq<char>, w: char)
    requires
        is_white_space(w),
    ensures
        trim(y.push(w)) == trim(y),
{
    let z = y.push(w);
    lemma_trim_start_push(y, w, 0);
    lemma_trim_start_bounds(y, 0);
    let lo = trim_start_from(y, 0);
    if lo < y.len() {
        assert(z[z.len() - 1] == w);
        assert(trim_end_from(z, lo, z.len() as int) == trim_end_from(z, lo, y.len() as int));
        lemma_trim_end_agree(z, y, lo, y.len() as int);
        lemma_trim_end_bounds(y, lo, y.len() as int);
        let hi = trim_end_from(y, lo, y.len() as int);
        assert(z.subrange(lo, hi) =~= y.subrange(lo, hi));
    } else {
        assert(trim_end_from(z, z.len() as int, z.len() as int) == z.len());
        assert(z.subrange(z.len() as int, z.len() as int) =~= y.subrange(lo, trim_end_from(y, lo, y.len() as int)));
    }
}

proof fn lemma_line_step_trim(st: AssState, a: Seq<char>, b: Seq<char>)
    requires
        trim(a) == trim(b),
    ensures
        line_step(st, a) == line_step(st, b),
{
}

proof fn lemma_line_step_blank(st: AssState)
    ensures
        line_step(st, Seq::empty()) == st,
{
    let e = Seq::<char>::empty();
    assert(trim_start_from(e, 0) == 0);
    assert(trim_end_from(e, 0, 0) == 0);
    assert(trim(e) =~= e);
    assert(!starts_with(e, "Format:"@)) by {
        reveal_strlit("Format:");
    }
    assert(!starts_with(e, "Style:"@)) by {
        reveal_strlit("Style:");
    }
    assert(!starts_with(e, "Dialogue:"@)) by {
        reveal_strlit("Dialogue:");
    }
}

/// Reading the lines of `c + "\n" + d` from position `i` of `c` on is
/// reading those of `c` from `i`, then the line that `d` makes.
proof fn lemma_lines_append(c: Seq<char>, d: Seq<char>, i: int, st: AssState)
    requires
        0 <= i <= c.len(),
        forall|k: int| 0 <= k < d.len() ==> d[k] != '\n',
    ensures
        run_lines(st, lines_from(c + seq!['\n'] + d, i)) == run_lines(
            run_lines(st, lines_from(c, i)),
            lines_from(c + seq!['\n'] + d, c.len() + 1int),
        ),
    decreases c.len() - i,
{
    let c2 = c + seq!['\n'] + d;
    let tail = lines_from(c2, c.len() + 1int);
    assert(c2[c.len() as int] == '\n');
    lemma_first_char_from(c2, '\n', i);
    let e2 = first_char_from(c2, '\n', i);
    if i == c.len() {
        assert(e2 == i);
        assert(line_end(c2, i) == i);
        assert(c2.subrange(i, i) =~= Seq::<char>::empty());
        let blank = Seq::<char>::empty();
        assert(lines_from(c2, i) == seq![blank] + tail);
        lemma_line_step_blank(st);
        assert((seq![blank] + tail)[0] == blank);
        assert((seq![blank] + tail).drop_first() =~= tail);
        assert(run_lines(st, lines_from(c2, i)) == run_lines(line_step(st, blank), tail));
        assert(lines_from(c, i) =~= Seq::<Seq<char>>::empty());
        assert(run_lines(st, lines_from(c, i)) == st);
    } else {
        lemma_first_char_from(c, '\n', i);
        let e = first_char_from(c, '\n', i);
        if e < c.len() {
            if e2 < e {
                assert(c2[e2] == c[e2]);
            }
            if e2 > e {
                assert(c2[e] == c[e]);
            }
            assert(e2 == e);
            if e > i {
                assert(c2[e - 1] == c[e - 1]);
            }
            assert(line_end(c2, i) == line_end(c, i));
            let l = c.subrange(i, line_end(c, i));
            assert(c2.subrange(i, line_end(c2, i)) =~= l);
            lemma_lines_append(c, d, e + 1, line_step(st, l));
            assert(lines_from(c2, i) == seq![l] + lines_from(c2, e + 1));
            assert(lines_from(c, i) == seq![l] + lines_from(c, e + 1));
            assert((seq![l] + lines_from(c2, e + 1))[0] == l);
            assert((seq![l] + lines_from(c, e + 1))[0] == l);
            assert((seq![l] + lines_from(c2, e + 1)).drop_first() =~= lines_from(c2, e + 1));
            assert((seq![l] + lines_from(c, e + 1)).drop_first() =~= lines_from(c, e + 1));
            assert(run_lines(st, lines_from(c2, i)) == run_lines(line_step(st, l), lines_from(c2, e + 1)));
            assert(run_lines(st, lines_from(c, i)) == run_lines(line_step(st, l), lines_from(c, e + 1)));
        } else {
            if e2 < c.len() {
                assert(c2[e2] == c[e2]);
            }
            assert(e2 == c.len());
            let l1 = c.subrange(i, c.len() as int);
            assert(line_end(c, i) == c.len());
            assert(lines_from(c, i) == seq![l1]);
            let l2 = c2.subrange(i, line_end(c2, i));
            if c[c.len() - 1] == '\r' {
                assert(c2[c.len() - 1] == '\r');
                assert(line_end(c2, i) == c.len() - 1);
                assert(l1 =~= l2.push('\r'));
                lemma_trim_push_white(l2, '\r');
            } else {
                assert(c2[c.len() - 1] == c[c.len() - 1]);
                assert(l2 =~= l1);
            }
            lemma_line_step_trim(st, l1, l2);
            assert(lines_from(c2, i) == seq![l2] + tail);
            assert((seq![l2] + tail)[0] == l2);
            assert((seq![l2] + tail).drop_first() =~= tail);
            assert(seq![l1].drop_first() =~= Seq::<Seq<char>>::empty());
            assert(run_lines(st, lines_from(c2, i)) == run_lines(line_step(st, l2), tail));
            assert(run_lines(st, lines_from(c, i)) == run_lines(line_step(st, l1), Seq::<Seq<char>>::empty()));
        }
    }
}

/// A line added at the end of a script only adds requests and characters:
/// every request of `c` stays in the analysis of `c`, a line break and `d`,
/// with all its characters.
pub proof fn law_appended_line_adds(c: Seq<char>, d: Seq<char>)
    requires
        forall|k: int| 0 <= k < d.len() ==> d[k] != '\n',
    ensures
        reqs_within(spec_analyze(c), spec_analyze(c + seq!['\n'] + d)),
{
    let c2 = c + seq!['\n'] + d;
    lemma_lines_append(c, d, 0, start_state());
    lemma_run_lines_prefix(lines(c), lines(c).len() as int);
    lemma_run_lines_prefix(lines(c2), lines(c2).len() as int);
    assert(lines(c).take(lines(c).len() as int) =~= lines(c));
    assert(lines(c2).take(lines(c2).len() as int) =~= lines(c2));
    let mid = run_lines(start_state(), lines(c));
    lemma_run_lines_grows(mid, lines_from(c2, c.len() + 1int));
}

/// The analysis of any script lists each font request once, in the order
/// of (name, weight, italic); every weight is positive; the characters of
/// each request are distinct and none is a control character.
pub proof fn law_analysis_well_formed(content: Seq<char>)
    ensures
        reqs_wf(spec_analyze(content)),
{
    let ls = lines(content);
    lemma_analyze_wf(ls, ls.len() as int);
}

} // verus!
