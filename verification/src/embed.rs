//! Embedding of fonts into an ASS script: the `[Fonts]` section and the
//! uuencoding it uses.

use vstd::prelude::*;
use crate::text::{
    chars_eq_ignore_ascii_case, chars_of, eq_ignore_ascii_case, line_ranges, lines,
    string_from_chars, trim, trim_range,
};

verus! {

/// A font to embed: the name it is listed under and its bytes.
#[derive(Debug, Clone)]
pub struct EmbeddedFont {
    pub font_name: String,
    pub bytes: Vec<u8>,
}

impl View for EmbeddedFont {
    type V = (Seq<char>, Seq<u8>);

    open spec fn view(&self) -> (Seq<char>, Seq<u8>) {
        (self.font_name@, self.bytes@)
    }
}

/// The character of a 6-bit value: `value + 33`.
pub open spec fn uu_char(v: int) -> char {
    (v + 33) as char
}

/// The byte at `i`, or 0 past the end.
pub open spec fn byte_or_zero(s: Seq<u8>, i: int) -> int {
    if i < s.len() { s[i] as int } else { 0 }
}

/// The characters of the group of three bytes at `pos`: four 6-bit values,
/// of which as many as there are bytes left plus one are written.
pub open spec fn uu_group(input: Seq<u8>, pos: int) -> Seq<char> {
    let s0 = byte_or_zero(input, pos);
    let s1 = byte_or_zero(input, pos + 1);
    let s2 = byte_or_zero(input, pos + 2);
    let all = seq![
        uu_char(s0 / 4),
        uu_char((s0 % 4) * 16 + s1 / 16),
        uu_char((s1 % 16) * 4 + s2 / 64),
        uu_char(s2 % 64),
    ];
    let rem = input.len() - pos;
    all.take(if rem + 1 < 4 { rem + 1 } else { 4 })
}

/// Writes `cs[i..]` after `w` characters of the current line; with `brk` a
/// line break follows each 80th character of a line (without `brk` the line
/// count no longer matters and stays as it is).
pub open spec fn emit(cs: Seq<char>, i: int, w: int, brk: bool) -> (Seq<char>, int)
    decreases cs.len() - i,
{
    if i < 0 || i >= cs.len() {
        (Seq::empty(), w)
    } else {
        let head = if brk && w + 1 == 80 { seq![cs[i], '\n'] } else { seq![cs[i]] };
        let w2 = if !brk { w } else if w + 1 == 80 { 0 } else { w + 1 };
        let rest = emit(cs, i + 1, w2, brk);
        (head + rest.0, rest.1)
    }
}

/// The encoding of the groups from `pos` on, after `w` characters of the
/// current line; line breaks come only inside groups that are not the last.
pub open spec fn uu_from(input: Seq<u8>, pos: int, w: int, linebreaks: bool) -> Seq<char>
    decreases input.len() - pos,
{
    if pos < 0 || pos >= input.len() {
        Seq::empty()
    } else {
        let e = emit(uu_group(input, pos), 0, w, linebreaks && pos + 3 < input.len());
        if pos + 3 >= input.len() {
            e.0
        } else {
            e.0 + uu_from(input, pos + 3, e.1, linebreaks)
        }
    }
}

/// The uuencoding of `input` as the ASS `[Fonts]` section writes it.
pub open spec fn uu_encode(input: Seq<u8>, linebreaks: bool) -> Seq<char> {
    uu_from(input, 0, 0, linebreaks)
}

/// The characters of the group at `pos`.
fn group_chars(input: &[u8], pos: usize) -> (r: Vec<char>)
    requires
        pos < input@.len(),
    ensures
        r@ == uu_group(input@, pos as int),
{
    let size = input.len();
    let remaining = size - pos;
    let src0 = input[pos];
    let src1: u8 = if remaining > 1 { input[pos + 1] } else { 0 };
    let src2: u8 = if remaining > 2 { input[pos + 2] } else { 0 };
    let d0 = src0 / 4;
    let d1 = (src0 % 4) * 16 + src1 / 16;
    let d2 = (src1 % 16) * 4 + src2 / 64;
    let d3 = src2 % 64;
    let count: usize = if remaining < 3 { remaining + 1 } else { 4 };
    let mut r: Vec<char> = Vec::new();
    r.push((d0 + 33) as char);
    r.push((d1 + 33) as char);
    if count >= 3 {
        r.push((d2 + 33) as char);
    }
    if count >= 4 {
        r.push((d3 + 33) as char);
    }
    assert(r@ =~= uu_group(input@, pos as int));
    r
}

/// The uuencoding of `input`, with a line break after each 80 characters of
/// a line when `insert_linebreaks` holds.
fn uuencode_chars(input: &[u8], insert_linebreaks: bool) -> (r: Vec<char>)
    ensures
        r@ == uu_encode(input@, insert_linebreaks),
{
    let size = input.len();
    let mut out: Vec<char> = Vec::new();
    let mut written: usize = 0;
    let mut pos: usize = 0;
    while pos < size
        invariant
            size == input@.len(),
            written < 80,
            uu_encode(input@, insert_linebreaks) == out@ + uu_from(input@, pos as int, written as int, insert_linebreaks),
        decreases size - pos,
    {
        let cs = group_chars(input, pos);
        let brk = insert_linebreaks && size - pos > 3;
        let ghost before = out@;
        let ghost w0 = written as int;
        let mut k: usize = 0;
        while k < cs.len()
            invariant
                cs@ == uu_group(input@, pos as int),
                cs@.len() <= 4,
                k <= cs@.len(),
                written < 80,
                before + emit(cs@, 0, w0, brk).0 == out@ + emit(cs@, k as int, written as int, brk).0,
                emit(cs@, 0, w0, brk).1 == emit(cs@, k as int, written as int, brk).1,
            decreases cs@.len() - k,
        {
            let ghost prev = out@;
            let ghost wp = written as int;
            out.push(cs[k]);
            if brk {
                written += 1;
                if written == 80 {
                    written = 0;
                    out.push('\n');
                }
            }
            assert(emit(cs@, k as int, wp, brk).0 == out@.subrange(prev.len() as int, out@.len() as int) + emit(cs@, k + 1, written as int, brk).0);
            assert(prev + emit(cs@, k as int, wp, brk).0 =~= out@ + emit(cs@, k + 1, written as int, brk).0);
            k += 1;
        }
        if size - pos <= 3 {
            pos = size;
        } else {
            pos += 3;
        }
    }
    out
}


/// Uuencodes `input` the way the ASS `[Fonts]` section stores fonts: each
/// group of three bytes becomes four characters `'!'..='`'` (fewer for a
/// final short group), with a line break after each 80 characters of a line
/// when `insert_linebreaks` holds, but none inside the last group.
pub fn uuencode(input: &[u8], insert_linebreaks: bool) -> (r: String)
    ensures
        r@ == uu_encode(input@, insert_linebreaks),
{
    let cs = uuencode_chars(input, insert_linebreaks);
    string_from_chars(&cs)
}

/// A section header `[fonts]`, in any ASCII case, once trimmed.
pub open spec fn is_fonts_header(t: Seq<char>) -> bool {
    t.len() > 0 && t[0] == '[' && t.last() == ']' && eq_ignore_ascii_case(t, "[fonts]"@)
}

/// The lines kept of the first `n`, and whether a `[Fonts]` section is being
/// skipped: its header and every line up to the next section header go.
pub open spec fn keep_lines(ls: Seq<Seq<char>>, n: int) -> (Seq<Seq<char>>, bool)
    decreases n,
{
    if n <= 0 {
        (Seq::empty(), false)
    } else {
        let prev = keep_lines(ls, n - 1);
        let t = trim(ls[n - 1]);
        let header = t.len() > 0 && t[0] == '[' && t.last() == ']';
        if header && eq_ignore_ascii_case(t, "[fonts]"@) {
            (prev.0, true)
        } else {
            let skipping = if header { false } else { prev.1 };
            if skipping {
                (prev.0, true)
            } else {
                (prev.0.push(ls[n - 1]), false)
            }
        }
    }
}

/// The lines without any `[Fonts]` section.
pub open spec fn without_fonts_section(ls: Seq<Seq<char>>) -> Seq<Seq<char>> {
    keep_lines(ls, ls.len() as int).0
}

/// Drops every `[Fonts]` section (its header and lines up to the next
/// section header) from the lines at `lines` in `s`.
fn remove_existing_fonts_section(s: &[char], lines: &Vec<(usize, usize)>) -> (r: Vec<(usize, usize)>)
    requires
        forall|i: int| 0 <= i < lines@.len() ==> (#[trigger] lines@[i]).0 <= lines@[i].1 <= s@.len(),
    ensures
        forall|i: int| 0 <= i < r@.len() ==> (#[trigger] r@[i]).0 <= r@[i].1 <= s@.len(),
        Seq::new(r@.len(), |i: int| s@.subrange(r@[i].0 as int, r@[i].1 as int)) == without_fonts_section(
            Seq::new(lines@.len(), |i: int| s@.subrange(lines@[i].0 as int, lines@[i].1 as int)),
        ),
{
    let ghost ls = Seq::new(lines@.len(), |i: int| s@.subrange(lines@[i].0 as int, lines@[i].1 as int));
    let fonts = chars_of("[fonts]");
    let mut out: Vec<(usize, usize)> = Vec::new();
    let mut skipping = false;
    let mut i: usize = 0;
    while i < lines.len()
        invariant
            i <= lines@.len(),
            fonts@ == "[fonts]"@,
            ls == Seq::new(lines@.len(), |i: int| s@.subrange(lines@[i].0 as int, lines@[i].1 as int)),
            forall|j: int| 0 <= j < lines@.len() ==> (#[trigger] lines@[j]).0 <= lines@[j].1 <= s@.len(),
            forall|j: int| 0 <= j < out@.len() ==> (#[trigger] out@[j]).0 <= out@[j].1 <= s@.len(),
            keep_lines(ls, i as int) == (Seq::new(out@.len(), |j: int| s@.subrange(out@[j].0 as int, out@[j].1 as int)), skipping),
        decreases lines@.len() - i,
    {
        let (a, b) = lines[i];
        let (ta, tb) = trim_range(s, a, b);
        let header = ta < tb && s[ta] == '[' && s[tb - 1] == ']';
        let ghost old_out = out@;
        let mut keep = true;
        if header {
            let t = crate::text::copy_chars(s, ta, tb);
            if chars_eq_ignore_ascii_case(&t, &fonts) {
                skipping = true;
                keep = false;
            } else if skipping {
                skipping = false;
            }
        }
        if keep && !skipping {
            out.push((a, b));
        }
        assert(Seq::new(out@.len(), |j: int| s@.subrange(out@[j].0 as int, out@[j].1 as int)) =~= keep_lines(ls, i + 1).0);
        i += 1;
    }
    out
}

/// The lines `ls`, each followed by a line break.
pub open spec fn join_lines(ls: Seq<Seq<char>>) -> Seq<char>
    decreases ls.len(),
{
    if ls.len() == 0 {
        Seq::empty()
    } else {
        join_lines(ls.drop_last()) + ls.last() + seq!['\n']
    }
}

/// The entry of one font: its name line, then its uuencoded bytes.
pub open spec fn font_entry(f: (Seq<char>, Seq<u8>)) -> Seq<char> {
    "fontname: "@ + f.0 + seq!['\n'] + uu_encode(f.1, true) + seq!['\n']
}

/// The entries of the fonts, one after another.
pub open spec fn font_entries(fs: Seq<(Seq<char>, Seq<u8>)>) -> Seq<char>
    decreases fs.len(),
{
    if fs.len() == 0 {
        Seq::empty()
    } else {
        font_entries(fs.drop_last()) + font_entry(fs.last())
    }
}

/// The script with its fonts embedded: unchanged where there are none;
/// otherwise its lines without any old `[Fonts]` section, then a blank line,
/// the `[Fonts]` header and the entry of each font.
pub open spec fn spec_render(original: Seq<char>, fonts: Seq<(Seq<char>, Seq<u8>)>) -> Seq<char> {
    if fonts.len() == 0 {
        original
    } else {
        join_lines(without_fonts_section(lines(original))) + "\n[Fonts]\n"@ + font_entries(fonts)
    }
}

/// The views of a list of fonts.
pub open spec fn fonts_view(fonts: Seq<EmbeddedFont>) -> Seq<(Seq<char>, Seq<u8>)> {
    Seq::new(fonts.len(), |i: int| fonts[i]@)
}

/// Appends `t` to `out`.
fn append_chars(out: &mut Vec<char>, t: &[char])
    ensures
        final(out)@ == old(out)@ + t@,
{
    let mut i: usize = 0;
    while i < t.len()
        invariant
            i <= t@.len(),
            out@ == old(out)@ + t@.take(i as int),
        decreases t@.len() - i,
    {
        out.push(t[i]);
        assert(t@.take(i + 1) =~= t@.take(i as int).push(t@[i as int]));
        i += 1;
    }
    assert(t@.take(t@.len() as int) =~= t@);
}

/// Appends `s[a..b]` to `out`.
fn append_range(out: &mut Vec<char>, s: &[char], a: usize, b: usize)
    requires
        a <= b <= s@.len(),
    ensures
        final(out)@ == old(out)@ + s@.subrange(a as int, b as int),
{
    let mut i = a;
    while i < b
        invariant
            a <= i <= b <= s@.len(),
            out@ == old(out)@ + s@.subrange(a as int, i as int),
        decreases b - i,
    {
        out.push(s[i]);
        assert(s@.subrange(a as int, i + 1) =~= s@.subrange(a as int, i as int).push(s@[i as int]));
        i += 1;
    }
}

/// Embeds `fonts` into the ASS script `original` as its `[Fonts]` section,
/// replacing any section of that name that it already has.
pub fn render_ass_with_fonts(original: &str, fonts: &[EmbeddedFont]) -> (r: String)
    ensures
        r@ == spec_render(original@, fonts_view(fonts@)),
{
    let s = chars_of(original);
    if fonts.len() == 0 {
        return string_from_chars(&s);
    }
    let ranges = line_ranges(&s);
    let ghost ls = Seq::new(ranges@.len(), |i: int| s@.subrange(ranges@[i].0 as int, ranges@[i].1 as int));
    assert(ls =~= lines(s@));
    let kept = remove_existing_fonts_section(&s, &ranges);
    let ghost ks = Seq::new(kept@.len(), |i: int| s@.subrange(kept@[i].0 as int, kept@[i].1 as int));
    let mut out: Vec<char> = Vec::new();
    let mut i: usize = 0;
    while i < kept.len()
        invariant
            i <= kept@.len(),
            ks == Seq::new(kept@.len(), |i: int| s@.subrange(kept@[i].0 as int, kept@[i].1 as int)),
            forall|j: int| 0 <= j < kept@.len() ==> (#[trigger] kept@[j]).0 <= kept@[j].1 <= s@.len(),
            out@ == join_lines(ks.take(i as int)),
        decreases kept@.len() - i,
    {
        let (a, b) = kept[i];
        append_range(&mut out, &s, a, b);
        out.push('\n');
        assert(ks.take(i + 1).drop_last() =~= ks.take(i as int));
        i += 1;
    }
    assert(ks.take(ks.len() as int) =~= ks);
    let header = chars_of("\n[Fonts]\n");
    append_chars(&mut out, &header);
    let prefix = chars_of("fontname: ");
    let ghost head = out@;
    let ghost fv = fonts_view(fonts@);
    let mut k: usize = 0;
    while k < fonts.len()
        invariant
            k <= fonts@.len(),
            fv == fonts_view(fonts@),
            prefix@ == "fontname: "@,
            out@ == head + font_entries(fv.take(k as int)),
        decreases fonts@.len() - k,
    {
        let f = &fonts[k];
        let ghost before = out@;
        append_chars(&mut out, &prefix);
        let name = chars_of(f.font_name.as_str());
        append_chars(&mut out, &name);
        out.push('\n');
        let enc = uuencode_chars(&f.bytes, true);
        append_chars(&mut out, &enc);
        out.push('\n');
        assert(out@ =~= before + font_entry(fv[k as int]));
        assert(fv.take(k + 1).drop_last() =~= fv.take(k as int));
        k += 1;
    }
    assert(fv.take(fv.len() as int) =~= fv);
    string_from_chars(&out)
}


/// `s` without its line breaks.
pub open spec fn strip_newlines(s: Seq<char>) -> Seq<char>
    decreases s.len(),
{
    if s.len() == 0 {
        Seq::empty()
    } else if s.last() == '\n' {
        strip_newlines(s.drop_last())
    } else {
        strip_newlines(s.drop_last()).push(s.last())
    }
}

proof fn lemma_strip_concat(a: Seq<char>, b: Seq<char>)
    ensures
        strip_newlines(a + b) == strip_newlines(a) + strip_newlines(b),
    decreases b.len(),
{
    if b.len() == 0 {
        assert(a + b =~= a);
        assert(strip_newlines(a) + strip_newlines(b) =~= strip_newlines(a));
    } else {
        assert((a + b).drop_last() =~= a + b.drop_last());
        lemma_strip_concat(a, b.drop_last());
        if b.last() != '\n' {
            assert(strip_newlines(a) + strip_newlines(b.drop_last()).push(b.last()) =~= (strip_newlines(a)
                + strip_newlines(b.drop_last())).push(b.last()));
        }
    }
}

proof fn lemma_strip_plain(s: Seq<char>)
    requires
        forall|i: int| 0 <= i < s.len() ==> s[i] != '\n',
    ensures
        strip_newlines(s) == s,
    decreases s.len(),
{
    if s.len() > 0 {
        lemma_strip_plain(s.drop_last());
        assert(s.drop_last().push(s.last()) =~= s);
    }
}

/// Each character of a group is one of `'!'..='`'`.
proof fn lemma_group_alphabet(input: Seq<u8>, pos: int)
    requires
        0 <= pos < input.len(),
    ensures
        forall|i: int| 0 <= i < uu_group(input, pos).len() ==> 33 <= (#[trigger] uu_group(input, pos)[i]) as u32 <= 96,
        uu_group(input, pos).len() == if input.len() - pos < 3 { input.len() - pos + 1 } else { 4 },
{
    let s0 = byte_or_zero(input, pos);
    let s1 = byte_or_zero(input, pos + 1);
    let s2 = byte_or_zero(input, pos + 2);
    assert(0 <= s0 < 256 && 0 <= s1 < 256 && 0 <= s2 < 256);
    assert(0 <= s0 / 4 < 64);
    assert(0 <= (s0 % 4) * 16 + s1 / 16 < 64);
    assert(0 <= (s1 % 16) * 4 + s2 / 64 < 64);
    assert(0 <= s2 % 64 < 64);
}

proof fn lemma_emit_plain(cs: Seq<char>, i: int, w: int)
    requires
        0 <= i <= cs.len(),
    ensures
        emit(cs, i, w, false).0 == cs.subrange(i, cs.len() as int),
    decreases cs.len() - i,
{
    if i < cs.len() {
        lemma_emit_plain(cs, i + 1, w);
        assert(seq![cs[i]] + cs.subrange(i + 1, cs.len() as int) =~= cs.subrange(i, cs.len() as int));
    } else {
        assert(cs.subrange(i, cs.len() as int) =~= Seq::<char>::empty());
    }
}

proof fn lemma_emit_strip(cs: Seq<char>, i: int, w: int, brk: bool)
    requires
        0 <= i <= cs.len(),
        forall|k: int| 0 <= k < cs.len() ==> cs[k] != '\n',
    ensures
        strip_newlines(emit(cs, i, w, brk).0) == cs.subrange(i, cs.len() as int),
    decreases cs.len() - i,
{
    if i < cs.len() {
        let w2 = if !brk { w } else if w + 1 == 80 { 0 } else { w + 1 };
        lemma_emit_strip(cs, i + 1, w2, brk);
        let head = if brk && w + 1 == 80 { seq![cs[i], '\n'] } else { seq![cs[i]] };
        lemma_strip_concat(head, emit(cs, i + 1, w2, brk).0);
        let one = seq![cs[i]];
        assert(one.drop_last() =~= Seq::<char>::empty());
        assert(strip_newlines(Seq::<char>::empty()) =~= Seq::<char>::empty());
        assert(strip_newlines(one) == strip_newlines(one.drop_last()).push(cs[i]));
        assert(strip_newlines(one) =~= one);
        if brk && w + 1 == 80 {
            assert(head.drop_last() =~= one);
            assert(head.last() == '\n');
            assert(strip_newlines(head) == strip_newlines(head.drop_last()));
        }
        assert(seq![cs[i]] + cs.subrange(i + 1, cs.len() as int) =~= cs.subrange(i, cs.len() as int));
    } else {
        assert(cs.subrange(i, cs.len() as int) =~= Seq::<char>::empty());
    }
}

proof fn lemma_uu_from_strip(input: Seq<u8>, pos: int, w: int, w2: int)
    requires
        0 <= pos,
    ensures
        strip_newlines(uu_from(input, pos, w, true)) == uu_from(input, pos, w2, false),
    decreases input.len() - pos,
{
    if pos < input.len() {
        let g = uu_group(input, pos);
        lemma_group_alphabet(input, pos);
        assert forall|k: int| 0 <= k < g.len() implies g[k] != '\n' by {
            assert(33 <= g[k] as u32);
        }
        let e = emit(g, 0, w, pos + 3 < input.len());
        lemma_emit_strip(g, 0, w, pos + 3 < input.len());
        lemma_emit_plain(g, 0, w2);
        let e2 = emit(g, 0, w2, false);
        if pos + 3 < input.len() {
            lemma_uu_from_strip(input, pos + 3, e.1, e2.1);
            lemma_strip_concat(e.0, uu_from(input, pos + 3, e.1, true));
        }
        assert(g.subrange(0, g.len() as int) =~= g);
    }
}

/// Line breaks are all that `insert_linebreaks` adds: without them the
/// encoding with breaks is the encoding without.
pub proof fn law_uuencode_linebreaks_only(input: Seq<u8>)
    ensures
        strip_newlines(uu_encode(input, true)) == uu_encode(input, false),
{
    lemma_uu_from_strip(input, 0, 0, 0);
}

proof fn lemma_uu_plain(input: Seq<u8>, pos: int, w: int)
    requires
        0 <= pos <= input.len(),
    ensures
        uu_from(input, pos, w, false).len() == (input.len() - pos) + (input.len() - pos + 2) / 3,
        forall|i: int| 0 <= i < uu_from(input, pos, w, false).len() ==> 33 <= (#[trigger] uu_from(input, pos, w, false)[i]) as u32 <= 96,
    decreases input.len() - pos,
{
    if pos < input.len() {
        let g = uu_group(input, pos);
        lemma_group_alphabet(input, pos);
        lemma_emit_plain(g, 0, w);
        assert(g.subrange(0, g.len() as int) =~= g);
        let e = emit(g, 0, w, false);
        if pos + 3 < input.len() {
            lemma_uu_plain(input, pos + 3, e.1);
            let r = uu_from(input, pos + 3, e.1, false);
            assert forall|i: int| 0 <= i < (e.0 + r).len() implies 33 <= (#[trigger] (e.0 + r)[i]) as u32 <= 96 by {
                if i >= e.0.len() {
                    assert((e.0 + r)[i] == r[i - e.0.len()]);
                }
            }
        }
    }
}

/// Without line breaks, `n` bytes become `n + ceil(n / 3)` characters, each
/// one of `'!'..='`'`.
pub proof fn law_uuencode_plain_shape(input: Seq<u8>)
    ensures
        uu_encode(input, false).len() == input.len() + (input.len() + 2) / 3,
        forall|i: int| 0 <= i < uu_encode(input, false).len() ==> 33 <= (#[trigger] uu_encode(input, false)[i]) as u32 <= 96,
{
    lemma_uu_plain(input, 0, 0);
}

proof fn lemma_emit_keeps_width(cs: Seq<char>, i: int, w: int)
    ensures
        emit(cs, i, w, false).1 == w,
    decreases cs.len() - i,
{
    if 0 <= i < cs.len() {
        lemma_emit_keeps_width(cs, i + 1, w);
    }
}

proof fn lemma_group_concat(x: Seq<u8>, y: Seq<u8>, pos: int)
    requires
        0 <= pos,
        pos + 3 <= x.len(),
    ensures
        uu_group(x + y, pos) == uu_group(x, pos),
{
    assert(byte_or_zero(x + y, pos) == byte_or_zero(x, pos));
    assert(byte_or_zero(x + y, pos + 1) == byte_or_zero(x, pos + 1));
    assert(byte_or_zero(x + y, pos + 2) == byte_or_zero(x, pos + 2));
}

proof fn lemma_group_shift(x: Seq<u8>, y: Seq<u8>, q: int)
    requires
        0 <= q < y.len(),
    ensures
        uu_group(x + y, x.len() + q) == uu_group(y, q),
{
    assert(byte_or_zero(x + y, x.len() + q) == byte_or_zero(y, q));
    assert(byte_or_zero(x + y, x.len() + q + 1) == byte_or_zero(y, q + 1));
    assert(byte_or_zero(x + y, x.len() + q + 2) == byte_or_zero(y, q + 2));
}

proof fn lemma_uu_shift(x: Seq<u8>, y: Seq<u8>, q: int, w: int)
    requires
        0 <= q,
    ensures
        uu_from(x + y, x.len() + q, w, false) == uu_from(y, q, w, false),
    decreases y.len() - q,
{
    if q < y.len() {
        lemma_group_shift(x, y, q);
        let e = emit(uu_group(y, q), 0, w, false);
        if q + 3 < y.len() {
            lemma_uu_shift(x, y, q + 3, e.1);
        }
    }
}

proof fn lemma_uu_concat(x: Seq<u8>, y: Seq<u8>, pos: int, w: int)
    requires
        x.len() % 3 == 0,
        0 <= pos <= x.len(),
        pos % 3 == 0,
    ensures
        uu_from(x + y, pos, w, false) == uu_from(x, pos, w, false) + uu_from(y, 0, w, false),
    decreases x.len() - pos,
{
    if pos == x.len() {
        lemma_uu_shift(x, y, 0, w);
        assert(uu_from(x, pos, w, false) + uu_from(y, 0, w, false) =~= uu_from(y, 0, w, false));
    } else {
        assert(pos + 3 <= x.len());
        lemma_group_concat(x, y, pos);
        let g = uu_group(x, pos);
        lemma_emit_keeps_width(g, 0, w);
        let e = emit(g, 0, w, false);
        if pos + 3 == x.len() {
            if y.len() == 0 {
                assert(x + y =~= x);
                assert(uu_from(x, pos, w, false) + uu_from(y, 0, w, false) =~= uu_from(x, pos, w, false));
            } else {
                lemma_uu_shift(x, y, 0, w);
            }
        } else {
            lemma_uu_concat(x, y, pos + 3, w);
            assert(e.0 + uu_from(x + y, pos + 3, w, false) =~= e.0 + uu_from(x, pos + 3, w, false)
                + uu_from(y, 0, w, false));
        }
    }
}

/// Without line breaks, the encoding of bytes that split after a multiple
/// of three is the encoding of the first part followed by that of the rest.
pub proof fn law_uuencode_concat(x: Seq<u8>, y: Seq<u8>)
    requires
        x.len() % 3 == 0,
    ensures
        uu_encode(x + y, false) == uu_encode(x, false) + uu_encode(y, false),
{
    lemma_uu_concat(x, y, 0, 0);
}

proof fn lemma_emit_four(cs: Seq<char>, w: int)
    requires
        cs.len() == 4,
        0 <= w < 80,
        w % 4 == 0,
    ensures
        emit(cs, 0, w, true) == (if w + 4 == 80 { (cs.push('\n'), 0int) } else { (cs, w + 4) }),
{
    reveal_with_fuel(emit, 5);
    if w + 4 == 80 {
        assert(emit(cs, 0, w, true).0 =~= cs.push('\n'));
    } else {
        assert(emit(cs, 0, w, true).0 =~= cs);
    }
}

/// The encoding with line breaks from the group at `pos`, after `w`
/// characters of the current line: a break stands exactly where a line
/// reaches 80 characters, and it never ends with a break.
proof fn lemma_uu_lines(input: Seq<u8>, pos: int, w: int)
    requires
        0 <= pos,
        0 <= w < 80,
        w % 4 == 0,
    ensures
        forall|j: int| 0 <= j < uu_from(input, pos, w, true).len() ==> ((#[trigger] uu_from(input, pos, w, true)[j]
            == '\n') <==> (w + j) % 81 == 80),
        uu_from(input, pos, w, true).len() > 0 ==> uu_from(input, pos, w, true).last() != '\n',
        uu_from(input, pos, w, true).len() > 0 <==> pos < input.len(),
    decreases input.len() - pos,
{
    let r = uu_from(input, pos, w, true);
    if pos < input.len() {
        let g = uu_group(input, pos);
        lemma_group_alphabet(input, pos);
        assert forall|k: int| 0 <= k < g.len() implies g[k] != '\n' by {
            assert(33 <= g[k] as u32);
        }
        if pos + 3 >= input.len() {
            lemma_emit_plain(g, 0, w);
            assert(g.subrange(0, g.len() as int) =~= g);
            assert(r == g);
            assert forall|j: int| 0 <= j < r.len() implies ((#[trigger] r[j] == '\n') <==> (w + j) % 81 == 80) by {
                assert(w + j < 80);
            }
        } else {
            lemma_emit_four(g, w);
            let e = emit(g, 0, w, true);
            lemma_uu_lines(input, pos + 3, e.1);
            let rest = uu_from(input, pos + 3, e.1, true);
            assert(r == e.0 + rest);
            assert forall|j: int| 0 <= j < r.len() implies ((#[trigger] r[j] == '\n') <==> (w + j) % 81 == 80) by {
                if j < e.0.len() {
                    assert(r[j] == e.0[j]);
                    if j < 4 {
                        assert(e.0[j] == g[j]);
                    }
                } else {
                    assert(r[j] == rest[j - e.0.len()]);
                    if w + 4 == 80 {
                        assert((e.1 + (j - e.0.len())) == (w + j) - 81);
                    }
                }
            }
            assert(r.last() == rest.last());
        }
    }
}

/// With line breaks, a break follows each 80th character of a line and
/// nothing else: every line but the last holds exactly 80 characters, the
/// last at most 80, and the text never ends with a break.
pub proof fn law_uuencode_lines(input: Seq<u8>)
    ensures
        forall|j: int| 0 <= j < uu_encode(input, true).len() ==> ((#[trigger] uu_encode(input, true)[j] == '\n')
            <==> j % 81 == 80),
        uu_encode(input, true).len() > 0 ==> uu_encode(input, true).last() != '\n',
{
    lemma_uu_lines(input, 0, 0);
}

proof fn lemma_uu_group_at(input: Seq<u8>, pos: int, w: int, k: int, t: int)
    requires
        0 <= pos,
        pos % 3 == 0,
        pos <= 3 * k < input.len(),
        0 <= t < uu_group(input, 3 * k).len(),
    ensures
        4 * (k - pos / 3) + t < uu_from(input, pos, w, false).len(),
        uu_from(input, pos, w, false)[4 * (k - pos / 3) + t] == uu_group(input, 3 * k)[t],
    decreases input.len() - pos,
{
    let g = uu_group(input, pos);
    lemma_group_alphabet(input, pos);
    lemma_emit_plain(g, 0, w);
    lemma_emit_keeps_width(g, 0, w);
    assert(g.subrange(0, g.len() as int) =~= g);
    let e = emit(g, 0, w, false);
    if 3 * k == pos {
        if pos + 3 < input.len() {
            let rest = uu_from(input, pos + 3, w, false);
            assert(uu_from(input, pos, w, false) == e.0 + rest);
            assert((e.0 + rest)[t] == g[t]);
        }
    } else {
        assert(pos + 3 <= 3 * k);
        assert(g.len() == 4);
        lemma_uu_group_at(input, pos + 3, w, k, t);
        let rest = uu_from(input, pos + 3, w, false);
        assert(uu_from(input, pos, w, false) == e.0 + rest);
        assert((pos + 3) / 3 == pos / 3 + 1);
        assert((e.0 + rest)[4 * (k - pos / 3) + t] == rest[4 * (k - (pos + 3) / 3) + t]);
    }
}

/// The 6-bit value that character `i` of an encoding stands for.
pub open spec fn uu_value(e: Seq<char>, i: int) -> int {
    e[i] as int - 33
}

/// The encoding can be decoded: byte `b` of the input comes back from the
/// characters of its group of three, four 6-bit values `c - 33` read as one
/// 24-bit big-endian number (the first byte from the first two characters,
/// the second from the second and third, the third from the last two).
pub proof fn law_uuencode_decodes(input: Seq<u8>, b: int)
    requires
        0 <= b < input.len(),
    ensures
        ({
            let e = uu_encode(input, false);
            let q = 4 * (b / 3);
            &&& q + (b % 3) + 1 < e.len()
            &&& forall|i: int| q <= i <= q + (b % 3) + 1 ==> 0 <= #[trigger] uu_value(e, i) < 64
            &&& b % 3 == 0 ==> input[b] == uu_value(e, q) * 4 + uu_value(e, q + 1) / 16
            &&& b % 3 == 1 ==> input[b] == (uu_value(e, q + 1) % 16) * 16 + uu_value(e, q + 2) / 4
            &&& b % 3 == 2 ==> input[b] == (uu_value(e, q + 2) % 4) * 64 + uu_value(e, q + 3)
        }),
{
    let e = uu_encode(input, false);
    let k = b / 3;
    let q = 4 * k;
    let r = b % 3;
    let g = uu_group(input, 3 * k);
    lemma_group_alphabet(input, 3 * k);
    assert(g.len() >= r + 2);
    let s0 = byte_or_zero(input, 3 * k);
    let s1 = byte_or_zero(input, 3 * k + 1);
    let s2 = byte_or_zero(input, 3 * k + 2);
    assert(0 <= s0 < 256 && 0 <= s1 < 256 && 0 <= s2 < 256);
    let d0 = s0 / 4;
    let d1 = (s0 % 4) * 16 + s1 / 16;
    let d2 = (s1 % 16) * 4 + s2 / 64;
    let d3 = s2 % 64;
    assert(0 <= d0 < 64 && 0 <= d1 < 64 && 0 <= d2 < 64 && 0 <= d3 < 64);
    lemma_uu_group_at(input, 0, 0, k, 0);
    assert(e[q] == g[0]);
    assert(g[0] == uu_char(d0));
    lemma_uu_group_at(input, 0, 0, k, 1);
    assert(e[q + 1] == g[1]);
    assert(g[1] == uu_char(d1));
    assert(uu_value(e, q) == d0);
    assert(uu_value(e, q + 1) == d1);
    if r >= 1 {
        lemma_uu_group_at(input, 0, 0, k, 2);
        assert(e[q + 2] == g[2]);
        assert(g[2] == uu_char(d2));
        assert(uu_value(e, q + 2) == d2);
    }
    if r == 2 {
        lemma_uu_group_at(input, 0, 0, k, 3);
        assert(e[q + 3] == g[3]);
        assert(g[3] == uu_char(d3));
        assert(uu_value(e, q + 3) == d3);
    }
    lemma_uu_group_at(input, 0, 0, k, r + 1);
    if r == 0 {
        assert(input[b] == s0);
        assert(d0 * 4 + d1 / 16 == s0);
    } else if r == 1 {
        assert(input[b] == s1);
        assert((d1 % 16) * 16 + d2 / 4 == s1);
    } else {
        assert(input[b] == s2);
        assert((d2 % 4) * 64 + d3 == s2);
    }
}

/// A trimmed line of the form `[...]`: a section header.
pub open spec fn is_header_line(t: Seq<char>) -> bool {
    t.len() > 0 && t[0] == '[' && t.last() == ']'
}

/// Line `i` of `ls` opens a section other than `[Fonts]`.
pub open spec fn opens_other_section(ls: Seq<Seq<char>>, i: int) -> bool {
    is_header_line(trim(ls[i])) && !is_fonts_header(trim(ls[i]))
}

/// A `[Fonts]` header at line `j` still holds at line `i`: no other section
/// header stands after it up to `i`.
pub open spec fn fonts_open(ls: Seq<Seq<char>>, j: int, i: int) -> bool {
    &&& is_fonts_header(trim(ls[j]))
    &&& forall|k: int| j < k <= i ==> !#[trigger] opens_other_section(ls, k)
}

/// Line `i` belongs to a `[Fonts]` section: it is such a header, or comes
/// after one with no other section header in between.
pub open spec fn in_fonts_section(ls: Seq<Seq<char>>, i: int) -> bool {
    exists|j: int| 0 <= j <= i && #[trigger] fonts_open(ls, j, i)
}

proof fn lemma_keep_lines_agree(a: Seq<Seq<char>>, b: Seq<Seq<char>>, n: int)
    requires
        0 <= n <= a.len(),
        n <= b.len(),
        forall|k: int| 0 <= k < n ==> a[k] == b[k],
    ensures
        keep_lines(a, n) == keep_lines(b, n),
    decreases n,
{
    if n > 0 {
        lemma_keep_lines_agree(a, b, n - 1);
        assert(a[n - 1] == b[n - 1]);
    }
}

proof fn lemma_keep_flag(ls: Seq<Seq<char>>, n: int)
    requires
        0 <= n <= ls.len(),
    ensures
        keep_lines(ls, n).1 == (n > 0 && in_fonts_section(ls, n - 1)),
    decreases n,
{
    if n > 0 {
        lemma_keep_flag(ls, n - 1);
        let i = n - 1;
        let t = trim(ls[i]);
        if is_fonts_header(t) {
            assert(fonts_open(ls, i, i));
        } else if is_header_line(t) {
            assert(opens_other_section(ls, i));
            if in_fonts_section(ls, i) {
                let j = choose|j: int| 0 <= j <= i && #[trigger] fonts_open(ls, j, i);
                assert(!opens_other_section(ls, i));
            }
        } else {
            assert(!opens_other_section(ls, i));
            if i > 0 && in_fonts_section(ls, i - 1) {
                let j = choose|j: int| 0 <= j <= i - 1 && #[trigger] fonts_open(ls, j, i - 1);
                assert forall|k: int| j < k <= i implies !#[trigger] opens_other_section(ls, k) by {
                    if k < i {
                        assert(fonts_open(ls, j, i - 1));
                    }
                }
                assert(fonts_open(ls, j, i));
            }
            if in_fonts_section(ls, i) {
                let j = choose|j: int| 0 <= j <= i && #[trigger] fonts_open(ls, j, i);
                assert(j != i);
                assert forall|k: int| j < k <= i - 1 implies !#[trigger] opens_other_section(ls, k) by {
                    assert(fonts_open(ls, j, i));
                }
                assert(fonts_open(ls, j, i - 1));
            }
        }
    }
}

/// Removing the `[Fonts]` sections keeps every other line, in order: line
/// by line, the lines kept of a script grow by its next line exactly when
/// that line is not in a `[Fonts]` section (the header `[Fonts]` and the
/// lines up to the next other section header).
pub proof fn law_fonts_section_removal(ls: Seq<Seq<char>>, n: int)
    requires
        0 <= n < ls.len(),
    ensures
        without_fonts_section(ls.take(n + 1)) == without_fonts_section(ls.take(n)) + if in_fonts_section(ls, n) {
            Seq::<Seq<char>>::empty()
        } else {
            seq![ls[n]]
        },
{
    let a = ls.take(n + 1);
    let b = ls.take(n);
    lemma_keep_lines_agree(a, ls, n);
    lemma_keep_lines_agree(b, ls, n);
    lemma_keep_lines_agree(a, ls, n + 1);
    lemma_keep_flag(ls, n);
    lemma_keep_flag(ls, n + 1);
    assert(a[n] == ls[n]);
    let prev = keep_lines(ls, n);
    if in_fonts_section(ls, n) {
        assert(keep_lines(ls, n + 1).0 =~= prev.0 + Seq::<Seq<char>>::empty());
    } else {
        assert(keep_lines(ls, n + 1).0 =~= prev.0 + seq![ls[n]]);
    }
}

/// No line that the removal keeps is a `[Fonts]` section header.
pub proof fn law_no_fonts_header_kept(ls: Seq<Seq<char>>)
    ensures
        forall|i: int| 0 <= i < without_fonts_section(ls).len() ==> !is_fonts_header(trim(#[trigger] without_fonts_section(ls)[i])),
{
    lemma_keep_lines(ls, ls.len() as int);
}

proof fn lemma_keep_lines(ls: Seq<Seq<char>>, n: int)
    requires
        n <= ls.len(),
    ensures
        forall|i: int| 0 <= i < keep_lines(ls, n).0.len() ==> !is_fonts_header(trim(#[trigger] keep_lines(ls, n).0[i])),
    decreases n,
{
    if n > 0 {
        lemma_keep_lines(ls, n - 1);
        let prev = keep_lines(ls, n - 1);
        let cur = keep_lines(ls, n);
        assert forall|i: int| 0 <= i < cur.0.len() implies !is_fonts_header(trim(#[trigger] cur.0[i])) by {
            if i < prev.0.len() {
                assert(cur.0[i] == prev.0[i]);
            }
        }
    }
}

} // verus!
