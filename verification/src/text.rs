//! Character and string operations, each stated over `Seq<char>`.

use vstd::prelude::*;

verus! {

/// The characters of `s`.
pub fn chars_of(s: &str) -> (r: Vec<char>)
    ensures
        r@ == s@,
{
    let mut r: Vec<char> = Vec::new();
    for c in it: s.chars()
        invariant
            r@ == it.seq().take(it.index() as int),
    {
        r.push(c);
    }
    r
}

/// Appends `c` to `s` (`String::push`).
#[verifier::external_body]
pub(crate) fn push_char(s: &mut String, c: char)
    ensures
        final(s)@ == old(s)@.push(c),
{
    s.push(c);
}

/// A `String` that holds the characters `v`.
pub fn string_from_chars(v: &[char]) -> (r: String)
    ensures
        r@ == v@,
{
    let mut r = String::new();
    let mut i: usize = 0;
    while i < v.len()
        invariant
            i <= v@.len(),
            r@ == v@.take(i as int),
        decreases v@.len() - i,
    {
        push_char(&mut r, v[i]);
        assert(v@.take(i + 1) == v@.take(i as int).push(v@[i as int]));
        i += 1;
    }
    assert(v@.take(v@.len() as int) == v@);
    r
}

/// Unicode `White_Space`, the property that `char::is_whitespace` tests.
pub open spec fn is_white_space(c: char) -> bool {
    let u = c as u32;
    (0x9 <= u <= 0xd) || u == 0x20 || u == 0x85 || u == 0xa0 || u == 0x1680 || (0x2000 <= u
        <= 0x200a) || u == 0x2028 || u == 0x2029 || u == 0x202f || u == 0x205f || u == 0x3000
}

/// Whether `c` has the `White_Space` property.
pub fn is_whitespace(c: char) -> (r: bool)
    ensures
        r == is_white_space(c),
{
    let u = c as u32;
    (0x9 <= u && u <= 0xd) || u == 0x20 || u == 0x85 || u == 0xa0 || u == 0x1680 || (0x2000 <= u
        && u <= 0x200a) || u == 0x2028 || u == 0x2029 || u == 0x202f || u == 0x205f || u == 0x3000
}

/// Unicode general category `Cc`, the class that `char::is_control` tests.
pub open spec fn is_control_char(c: char) -> bool {
    let u = c as u32;
    u <= 0x1f || (0x7f <= u <= 0x9f)
}

/// Whether `c` is a control character.
pub fn is_control(c: char) -> (r: bool)
    ensures
        r == is_control_char(c),
{
    let u = c as u32;
    u <= 0x1f || (0x7f <= u && u <= 0x9f)
}

/// ASCII lowercase of one character; other characters are kept.
pub open spec fn ascii_lower(c: char) -> char {
    if 'A' <= c <= 'Z' {
        ((c as u32) + 32) as char
    } else {
        c
    }
}

/// ASCII lowercase of a character sequence.
pub open spec fn ascii_lower_seq(s: Seq<char>) -> Seq<char> {
    s.map_values(|c: char| ascii_lower(c))
}

/// The ASCII lowercase of `c`.
pub fn to_ascii_lowercase(c: char) -> (r: char)
    ensures
        r == ascii_lower(c),
{
    if 'A' <= c && c <= 'Z' {
        ((c as u8) + 32) as char
    } else {
        c
    }
}

/// The ASCII lowercase of `s`.
pub fn lower_ascii(s: &[char]) -> (r: Vec<char>)
    ensures
        r@ == ascii_lower_seq(s@),
{
    let mut r: Vec<char> = Vec::new();
    let mut i: usize = 0;
    while i < s.len()
        invariant
            i <= s@.len(),
            r@ == ascii_lower_seq(s@.take(i as int)),
        decreases s@.len() - i,
    {
        r.push(to_ascii_lowercase(s[i]));
        assert(ascii_lower_seq(s@.take(i + 1)) == ascii_lower_seq(s@.take(i as int)).push(
            ascii_lower(s@[i as int]),
        ));
        i += 1;
    }
    assert(s@.take(s@.len() as int) == s@);
    r
}

/// Equality of two sequences up to ASCII case.
pub open spec fn eq_ignore_ascii_case(a: Seq<char>, b: Seq<char>) -> bool {
    ascii_lower_seq(a) == ascii_lower_seq(b)
}

/// Whether `a` and `b` are equal up to ASCII case.
pub fn chars_eq_ignore_ascii_case(a: &[char], b: &[char]) -> (r: bool)
    ensures
        r == eq_ignore_ascii_case(a@, b@),
{
    if a.len() != b.len() {
        assert(ascii_lower_seq(a@).len() != ascii_lower_seq(b@).len());
        return false;
    }
    let mut i: usize = 0;
    while i < a.len()
        invariant
            a@.len() == b@.len(),
            i <= a@.len(),
            forall|j: int| 0 <= j < i ==> ascii_lower(a@[j]) == ascii_lower(b@[j]),
        decreases a@.len() - i,
    {
        if to_ascii_lowercase(a[i]) != to_ascii_lowercase(b[i]) {
            assert(ascii_lower_seq(a@)[i as int] != ascii_lower_seq(b@)[i as int]);
            return false;
        }
        i += 1;
    }
    assert(ascii_lower_seq(a@) =~= ascii_lower_seq(b@));
    true
}

/// Whether `a` and `b` hold the same characters.
pub fn chars_eq(a: &[char], b: &[char]) -> (r: bool)
    ensures
        r == (a@ == b@),
{
    if a.len() != b.len() {
        return false;
    }
    let mut i: usize = 0;
    while i < a.len()
        invariant
            a@.len() == b@.len(),
            i <= a@.len(),
            forall|j: int| 0 <= j < i ==> a@[j] == b@[j],
        decreases a@.len() - i,
    {
        if a[i] != b[i] {
            return false;
        }
        i += 1;
    }
    assert(a@ =~= b@);
    true
}

/// `p` is a prefix of `s`.
pub open spec fn starts_with(s: Seq<char>, p: Seq<char>) -> bool {
    p.len() <= s.len() && s.subrange(0, p.len() as int) == p
}

/// `p` is a suffix of `s`.
pub open spec fn ends_with(s: Seq<char>, p: Seq<char>) -> bool {
    p.len() <= s.len() && s.subrange(s.len() - p.len(), s.len() as int) == p
}

/// `n` occurs in `h` at position `i`.
pub open spec fn occurs_at(h: Seq<char>, n: Seq<char>, i: int) -> bool {
    0 <= i && i + n.len() <= h.len() && h.subrange(i, i + n.len()) == n
}

/// `n` occurs somewhere in `h`.
pub open spec fn contains(h: Seq<char>, n: Seq<char>) -> bool {
    exists|i: int| occurs_at(h, n, i)
}

/// Whether `n` occurs in `h` at position `i`.
pub fn chars_occur_at(h: &[char], n: &[char], i: usize) -> (r: bool)
    ensures
        r == occurs_at(h@, n@, i as int),
{
    if i > h.len() || n.len() > h.len() - i {
        return false;
    }
    let hl = h.len();
    let mut j: usize = 0;
    while j < n.len()
        invariant
            hl == h@.len(),
            i + n@.len() <= h@.len(),
            j <= n@.len(),
            forall|k: int| 0 <= k < j ==> h@[i + k] == n@[k],
        decreases n@.len() - j,
    {
        if h[i + j] != n[j] {
            assert(h@.subrange(i as int, i + n@.len())[j as int] != n@[j as int]);
            return false;
        }
        j += 1;
    }
    assert(h@.subrange(i as int, i + n@.len()) =~= n@);
    true
}

/// Whether `p` is a prefix of `s`.
pub fn chars_starts_with(s: &[char], p: &[char]) -> (r: bool)
    ensures
        r == starts_with(s@, p@),
{
    chars_occur_at(s, p, 0)
}

/// Whether `p` is a suffix of `s`.
pub fn chars_ends_with(s: &[char], p: &[char]) -> (r: bool)
    ensures
        r == ends_with(s@, p@),
{
    if p.len() > s.len() {
        return false;
    }
    chars_occur_at(s, p, s.len() - p.len())
}

/// Whether `n` occurs in `h`.
pub fn chars_contains(h: &[char], n: &[char]) -> (r: bool)
    ensures
        r == contains(h@, n@),
{
    if n.len() > h.len() {
        assert forall|i: int| !occurs_at(h@, n@, i) by {}
        return false;
    }
    let last = h.len() - n.len();
    let mut i: usize = 0;
    loop
        invariant
            last == h@.len() - n@.len(),
            i <= last,
            forall|k: int| 0 <= k < i ==> !occurs_at(h@, n@, k),
        ensures
            forall|k: int| 0 <= k <= last ==> !occurs_at(h@, n@, k),
        decreases last - i,
    {
        if chars_occur_at(h, n, i) {
            return true;
        }
        if i == last {
            break;
        }
        i += 1;
    }
    assert forall|k: int| !occurs_at(h@, n@, k) by {
        if 0 <= k && k + n@.len() <= h@.len() {
            assert(k <= last);
        }
    }
    false
}

/// Whether the string `h` contains the string `n`.
pub fn str_contains(h: &str, n: &str) -> (r: bool)
    ensures
        r == contains(h@, n@),
{
    let hc = chars_of(h);
    let nc = chars_of(n);
    chars_contains(&hc, &nc)
}

/// Index of the first character at or after `i` that is no white space.
pub open spec fn trim_start_from(s: Seq<char>, i: int) -> int
    decreases s.len() - i,
{
    if 0 <= i < s.len() && is_white_space(s[i]) {
        trim_start_from(s, i + 1)
    } else {
        i
    }
}

/// End of `s[lo..j]` once white space at its end is dropped.
pub open spec fn trim_end_from(s: Seq<char>, lo: int, j: int) -> int
    decreases j - lo,
{
    if lo < j && j <= s.len() && is_white_space(s[j - 1]) {
        trim_end_from(s, lo, j - 1)
    } else {
        j
    }
}

/// `s` without leading and trailing white space (`str::trim`).
pub open spec fn trim(s: Seq<char>) -> Seq<char> {
    let lo = trim_start_from(s, 0);
    s.subrange(lo, trim_end_from(s, lo, s.len() as int))
}

pub(crate) proof fn lemma_trim_start_bounds(s: Seq<char>, i: int)
    requires
        0 <= i <= s.len(),
    ensures
        i <= trim_start_from(s, i) <= s.len(),
        trim_start_from(s, i) < s.len() ==> !is_white_space(s[trim_start_from(s, i)]),
        forall|k: int| i <= k < trim_start_from(s, i) ==> is_white_space(s[k]),
    decreases s.len() - i,
{
    if i < s.len() && is_white_space(s[i]) {
        lemma_trim_start_bounds(s, i + 1);
    }
}

pub(crate) proof fn lemma_trim_end_bounds(s: Seq<char>, lo: int, j: int)
    requires
        0 <= lo <= j <= s.len(),
    ensures
        lo <= trim_end_from(s, lo, j) <= j,
        trim_end_from(s, lo, j) > lo ==> !is_white_space(s[trim_end_from(s, lo, j) - 1]),
        forall|k: int| trim_end_from(s, lo, j) <= k < j ==> is_white_space(s[k]),
    decreases j - lo,
{
    if lo < j && is_white_space(s[j - 1]) {
        lemma_trim_end_bounds(s, lo, j - 1);
    }
}

/// Bounds of `trim(s[lo..hi])` inside `s`.
pub fn trim_range(s: &[char], lo: usize, hi: usize) -> (r: (usize, usize))
    requires
        lo <= hi <= s@.len(),
    ensures
        lo <= r.0 <= r.1 <= hi,
        s@.subrange(r.0 as int, r.1 as int) == trim(s@.subrange(lo as int, hi as int)),
{
    let ghost t = s@.subrange(lo as int, hi as int);
    let mut a = lo;
    while a < hi && is_whitespace(s[a])
        invariant
            lo <= a <= hi <= s@.len(),
            t == s@.subrange(lo as int, hi as int),
            trim_start_from(t, 0) == trim_start_from(t, a - lo),
        decreases hi - a,
    {
        a += 1;
    }
    let mut b = hi;
    while b > a && is_whitespace(s[b - 1])
        invariant
            lo <= a <= b <= hi <= s@.len(),
            t == s@.subrange(lo as int, hi as int),
            trim_start_from(t, 0) == a - lo,
            trim_end_from(t, a - lo, t.len() as int) == trim_end_from(t, a - lo, b - lo),
        decreases b - a,
    {
        b -= 1;
    }
    assert(s@.subrange(a as int, b as int) =~= t.subrange(a - lo, b - lo));
    (a, b)
}

/// `s` without leading and trailing white space.
pub fn trim_chars(s: &[char]) -> (r: Vec<char>)
    ensures
        r@ == trim(s@),
{
    let (a, b) = trim_range(s, 0, s.len());
    assert(s@.subrange(0, s@.len() as int) == s@);
    copy_chars(s, a, b)
}

/// Copies `s[lo..hi]`.
pub fn copy_chars(s: &[char], lo: usize, hi: usize) -> (r: Vec<char>)
    requires
        lo <= hi <= s@.len(),
    ensures
        r@ == s@.subrange(lo as int, hi as int),
{
    let mut r: Vec<char> = Vec::new();
    let mut i = lo;
    while i < hi
        invariant
            lo <= i <= hi <= s@.len(),
            r@ == s@.subrange(lo as int, i as int),
        decreases hi - i,
    {
        r.push(s[i]);
        i += 1;
    }
    r
}

/// The numeric value of a decimal digit.
pub open spec fn digit_value(c: char) -> int {
    (c as u32) - ('0' as u32)
}

/// Whether `c` is an ASCII decimal digit.
pub open spec fn is_digit(c: char) -> bool {
    '0' <= c <= '9'
}

/// The value of a string of decimal digits.
pub open spec fn digits_value(s: Seq<char>) -> int
    decreases s.len(),
{
    if s.len() == 0 {
        0
    } else {
        digits_value(s.drop_last()) * 10 + digit_value(s.last())
    }
}

/// Every character of `s` is a decimal digit.
pub open spec fn all_digits(s: Seq<char>) -> bool {
    forall|i: int| 0 <= i < s.len() ==> is_digit(#[trigger] s[i])
}

/// What `str::parse::<i32>` gives: an optional `+` or `-`, then at least one
/// decimal digit and nothing else, with a value that fits in `i32`.
pub open spec fn spec_parse_i32(s: Seq<char>) -> Option<i32> {
    if s.len() == 0 {
        None
    } else {
        let neg = s[0] == '-';
        let digits = if s[0] == '-' || s[0] == '+' { s.drop_first() } else { s };
        if digits.len() == 0 || !all_digits(digits) {
            None
        } else {
            let v = if neg { -digits_value(digits) } else { digits_value(digits) };
            if i32::MIN <= v <= i32::MAX {
                Some(v as i32)
            } else {
                None
            }
        }
    }
}

proof fn lemma_digits_value_nonneg(s: Seq<char>)
    requires
        all_digits(s),
    ensures
        digits_value(s) >= 0,
    decreases s.len(),
{
    if s.len() > 0 {
        assert(all_digits(s.drop_last()));
        assert(is_digit(s[s.len() - 1]));
        lemma_digits_value_nonneg(s.drop_last());
    }
}

proof fn lemma_digits_value_grows(s: Seq<char>, i: int)
    requires
        all_digits(s),
        0 <= i <= s.len(),
    ensures
        digits_value(s.take(i)) <= digits_value(s),
    decreases s.len() - i,
{
    if i < s.len() {
        assert(s.take(i + 1).drop_last() =~= s.take(i));
        assert(all_digits(s.take(i)));
        lemma_digits_value_nonneg(s.take(i));
        assert(is_digit(s[i]));
        lemma_digits_value_grows(s, i + 1);
    } else {
        assert(s.take(i) =~= s);
    }
}

/// Parses `s[lo..hi]` as an `i32`, as `str::parse::<i32>` does.
pub fn parse_i32(s: &[char], lo: usize, hi: usize) -> (r: Option<i32>)
    requires
        lo <= hi <= s@.len(),
    ensures
        r == spec_parse_i32(s@.subrange(lo as int, hi as int)),
{
    let ghost t = s@.subrange(lo as int, hi as int);
    if lo == hi {
        return None;
    }
    let neg = s[lo] == '-';
    let start = if s[lo] == '-' || s[lo] == '+' { lo + 1 } else { lo };
    let ghost digits = s@.subrange(start as int, hi as int);
    assert(digits == (if t[0] == '-' || t[0] == '+' { t.drop_first() } else { t }));
    if start == hi {
        return None;
    }
    let mut acc: i64 = 0;
    let mut i = start;
    while i < hi
        invariant
            start <= i <= hi <= s@.len(),
            start < hi,
            lo < hi,
            t == s@.subrange(lo as int, hi as int),
            neg == (t[0] == '-'),
            digits == (if t[0] == '-' || t[0] == '+' { t.drop_first() } else { t }),
            digits == s@.subrange(start as int, hi as int),
            all_digits(digits.take(i - start)),
            acc == digits_value(digits.take(i - start)),
            0 <= acc <= 2147483648,
        decreases hi - i,
    {
        let c = s[i];
        if !('0' <= c && c <= '9') {
            assert(!is_digit(digits[i - start]));
            return None;
        }
        let d = (c as u32 - '0' as u32) as i64;
        assert(digits.take(i - start + 1).drop_last() =~= digits.take(i - start));
        acc = acc * 10 + d;
        i += 1;
        assert(all_digits(digits.take(i - start)));
        if acc > 2147483648 {
            proof {
                if all_digits(digits) {
                    lemma_digits_value_grows(digits, i - start);
                }
            }
            return None;
        }
    }
    assert(digits.take(hi - start) =~= digits);
    let v = if neg { -acc } else { acc };
    if v < -2147483648 || v > 2147483647 {
        return None;
    }
    Some(v as i32)
}

/// The character of a decimal digit value.
pub open spec fn digit_char(d: int) -> char {
    (d + ('0' as u32)) as char
}

/// Decimal representation of a natural number.
pub open spec fn decimal(n: nat) -> Seq<char>
    decreases n,
{
    if n < 10 {
        seq![digit_char(n as int)]
    } else {
        decimal(n / 10).push(digit_char((n % 10) as int))
    }
}

/// Decimal representation of an integer, with `-` for negative values.
pub open spec fn decimal_int(v: int) -> Seq<char> {
    if v < 0 {
        seq!['-'] + decimal((-v) as nat)
    } else {
        decimal(v as nat)
    }
}

/// The decimal digits of `n`.
pub fn nat_to_chars(n: u64) -> (r: Vec<char>)
    ensures
        r@ == decimal(n as nat),
    decreases n,
{
    if n < 10 {
        let c = ((n as u8) + 48u8) as char;
        let mut r: Vec<char> = Vec::new();
        r.push(c);
        r
    } else {
        let mut r = nat_to_chars(n / 10);
        let c = (((n % 10) as u8) + 48u8) as char;
        r.push(c);
        r
    }
}

/// The decimal representation of `v`, as `{}` formats an integer.
pub fn int_to_chars(v: i64) -> (r: Vec<char>)
    requires
        v > i64::MIN,
    ensures
        r@ == decimal_int(v as int),
{
    if v < 0 {
        let mut r: Vec<char> = Vec::new();
        r.push('-');
        let mut d = nat_to_chars((-v) as u64);
        r.append(&mut d);
        r
    } else {
        nat_to_chars(v as u64)
    }
}


/// Index of the first `c` at or after `i` in `s`, or `s.len()`.
pub open spec fn first_char_from(s: Seq<char>, c: char, i: int) -> int
    decreases s.len() - i,
{
    if i < 0 || i >= s.len() {
        s.len() as int
    } else if s[i] == c {
        i
    } else {
        first_char_from(s, c, i + 1)
    }
}

pub proof fn lemma_first_char_from(s: Seq<char>, c: char, i: int)
    requires
        0 <= i <= s.len(),
    ensures
        i <= first_char_from(s, c, i) <= s.len(),
        first_char_from(s, c, i) < s.len() ==> s[first_char_from(s, c, i)] == c,
        forall|k: int| i <= k < first_char_from(s, c, i) ==> s[k] != c,
    decreases s.len() - i,
{
    if i < s.len() && s[i] != c {
        lemma_first_char_from(s, c, i + 1);
    }
}

/// The pieces of `s[p..]` split at `sep`, at most `n` of them, the last one
/// holding the rest (`str::splitn`).
pub open spec fn splitn_from(s: Seq<char>, sep: char, p: int, n: nat) -> Seq<Seq<char>>
    decreases n,
{
    if n == 0 {
        Seq::empty()
    } else if n == 1 {
        seq![s.subrange(p, s.len() as int)]
    } else {
        let k = first_char_from(s, sep, p);
        if k >= s.len() {
            seq![s.subrange(p, s.len() as int)]
        } else {
            seq![s.subrange(p, k)] + splitn_from(s, sep, k + 1, (n - 1) as nat)
        }
    }
}

/// `str::splitn(n, sep)`.
pub open spec fn splitn(s: Seq<char>, sep: char, n: nat) -> Seq<Seq<char>> {
    splitn_from(s, sep, 0, n)
}

/// The pieces of `s[p..]` split at every `sep`.
pub open spec fn split_from(s: Seq<char>, sep: char, p: int) -> Seq<Seq<char>>
    decreases s.len() - p,
{
    let k = first_char_from(s, sep, p);
    if p < 0 || p > s.len() || k >= s.len() {
        seq![s.subrange(p, s.len() as int)]
    } else {
        proof {
            lemma_first_char_from(s, sep, p);
        }
        seq![s.subrange(p, k)] + split_from(s, sep, k + 1)
    }
}

/// `str::split(sep)`: the pieces of `s` between its separators, one more than
/// there are separators.
pub open spec fn split(s: Seq<char>, sep: char) -> Seq<Seq<char>> {
    split_from(s, sep, 0)
}

/// The ranges in `s` of the pieces of `s[lo..hi]` split at `sep`, at most `n`.
pub fn splitn_ranges(s: &[char], lo: usize, hi: usize, sep: char, n: usize) -> (r: Vec<(usize, usize)>)
    requires
        lo <= hi <= s@.len(),
    ensures
        r@.len() == splitn(s@.subrange(lo as int, hi as int), sep, n as nat).len(),
        forall|i: int|
            0 <= i < r@.len() ==> lo <= (#[trigger] r@[i]).0 <= r@[i].1 <= hi && s@.subrange(
                r@[i].0 as int,
                r@[i].1 as int,
            ) == splitn(s@.subrange(lo as int, hi as int), sep, n as nat)[i],
{
    let ghost t = s@.subrange(lo as int, hi as int);
    let mut r: Vec<(usize, usize)> = Vec::new();
    if n == 0 {
        return r;
    }
    let ghost mut pieces: Seq<Seq<char>> = Seq::empty();
    let mut p = lo;
    let mut left = n;
    loop
        invariant_except_break
            splitn(t, sep, n as nat) == pieces + splitn_from(t, sep, p - lo, left as nat),
            1 <= left <= n,
        invariant
            lo <= p <= hi <= s@.len(),
            t == s@.subrange(lo as int, hi as int),
            r@.len() == pieces.len(),
            forall|i: int|
                0 <= i < r@.len() ==> lo <= (#[trigger] r@[i]).0 <= r@[i].1 <= hi && s@.subrange(
                    r@[i].0 as int,
                    r@[i].1 as int,
                ) == pieces[i],
        ensures
            splitn(t, sep, n as nat) == pieces,
        decreases left,
    {
        if left == 1 {
            r.push((p, hi));
            assert(t.subrange(p - lo, t.len() as int) =~= s@.subrange(p as int, hi as int));
            proof {
                let x = s@.subrange(p as int, hi as int);
                assert(splitn_from(t, sep, p - lo, 1) == seq![x]);
                assert(pieces + seq![x] =~= pieces.push(x));
                pieces = pieces.push(x);
            }
            break;
        }
        let mut k = p;
        while k < hi && s[k] != sep
            invariant
                p <= k <= hi <= s@.len(),
                lo <= p,
                t == s@.subrange(lo as int, hi as int),
                first_char_from(t, sep, p - lo) == first_char_from(t, sep, k - lo),
            decreases hi - k,
        {
            assert(t[k - lo] == s@[k as int]);
            k += 1;
        }
        if k >= hi {
            r.push((p, hi));
            assert(t.subrange(p - lo, t.len() as int) =~= s@.subrange(p as int, hi as int));
            proof {
                let x = s@.subrange(p as int, hi as int);
                assert(splitn_from(t, sep, p - lo, left as nat) == seq![x]);
                assert(pieces + seq![x] =~= pieces.push(x));
                pieces = pieces.push(x);
            }
            break;
        }
        assert(t[k - lo] == s@[k as int]);
        r.push((p, k));
        assert(t.subrange(p - lo, k - lo) =~= s@.subrange(p as int, k as int));
        proof {
            let x = s@.subrange(p as int, k as int);
            let rest = splitn_from(t, sep, k - lo + 1, (left - 1) as nat);
            assert(splitn_from(t, sep, p - lo, left as nat) == seq![x] + rest);
            assert(pieces + (seq![x] + rest) =~= pieces.push(x) + rest);
            pieces = pieces.push(x);
        }
        p = k + 1;
        left = left - 1;
    }
    r
}


/// End of the line that starts at `i`, without its `\n` and a `\r` before it.
pub open spec fn line_end(s: Seq<char>, i: int) -> int {
    let e = first_char_from(s, '\n', i);
    if e < s.len() && e > i && s[e - 1] == '\r' {
        e - 1
    } else {
        e
    }
}

/// The lines of `s` from position `i` on (`str::lines`): split after each
/// `\n`, which is dropped together with a `\r` just before it; no empty line
/// follows a final `\n`.
pub open spec fn lines_from(s: Seq<char>, i: int) -> Seq<Seq<char>>
    decreases s.len() - i,
{
    if i < 0 || i >= s.len() {
        Seq::empty()
    } else {
        proof {
            lemma_first_char_from(s, '\n', i);
        }
        let e = first_char_from(s, '\n', i);
        if e >= s.len() {
            seq![s.subrange(i, line_end(s, i))]
        } else {
            seq![s.subrange(i, line_end(s, i))] + lines_from(s, e + 1)
        }
    }
}

/// The lines of `s`.
pub open spec fn lines(s: Seq<char>) -> Seq<Seq<char>> {
    lines_from(s, 0)
}

/// The ranges in `s` of its lines.
pub fn line_ranges(s: &[char]) -> (r: Vec<(usize, usize)>)
    ensures
        r@.len() == lines(s@).len(),
        forall|i: int|
            0 <= i < r@.len() ==> (#[trigger] r@[i]).0 <= r@[i].1 <= s@.len() && s@.subrange(
                r@[i].0 as int,
                r@[i].1 as int,
            ) == lines(s@)[i],
{
    let len = s.len();
    let mut r: Vec<(usize, usize)> = Vec::new();
    let ghost mut done: Seq<Seq<char>> = Seq::empty();
    let mut p: usize = 0;
    while p < len
        invariant
            len == s@.len(),
            p <= len,
            lines(s@) == done + lines_from(s@, p as int),
            r@.len() == done.len(),
            forall|i: int|
                0 <= i < r@.len() ==> (#[trigger] r@[i]).0 <= r@[i].1 <= s@.len() && s@.subrange(
                    r@[i].0 as int,
                    r@[i].1 as int,
                ) == done[i],
        decreases len - p,
    {
        let mut e = p;
        while e < len && s[e] != '\n'
            invariant
                p <= e <= len,
                len == s@.len(),
                first_char_from(s@, '\n', p as int) == first_char_from(s@, '\n', e as int),
            decreases len - e,
        {
            e += 1;
        }
        let end = if e < len && e > p && s[e - 1] == '\r' { e - 1 } else { e };
        r.push((p, end));
        proof {
            let x = s@.subrange(p as int, end as int);
            let next: int = if e >= len { len as int } else { e + 1 };
            assert(lines_from(s@, p as int) == seq![x] + lines_from(s@, next));
            assert(done + (seq![x] + lines_from(s@, next)) =~= done.push(x) + lines_from(s@, next));
            done = done.push(x);
        }
        if e >= len {
            p = len;
        } else {
            p = e + 1;
        }
    }
    assert(done + lines_from(s@, p as int) =~= done);
    r
}


/// The ranges in `s` of the pieces of `s[lo..hi]` split at every `sep`.
pub fn split_ranges(s: &[char], lo: usize, hi: usize, sep: char) -> (r: Vec<(usize, usize)>)
    requires
        lo <= hi <= s@.len(),
    ensures
        r@.len() == split(s@.subrange(lo as int, hi as int), sep).len(),
        forall|i: int|
            0 <= i < r@.len() ==> lo <= (#[trigger] r@[i]).0 <= r@[i].1 <= hi && s@.subrange(
                r@[i].0 as int,
                r@[i].1 as int,
            ) == split(s@.subrange(lo as int, hi as int), sep)[i],
{
    let ghost t = s@.subrange(lo as int, hi as int);
    let mut r: Vec<(usize, usize)> = Vec::new();
    let ghost mut pieces: Seq<Seq<char>> = Seq::empty();
    let mut p = lo;
    loop
        invariant_except_break
            split(t, sep) == pieces + split_from(t, sep, p - lo),
        invariant
            lo <= p <= hi <= s@.len(),
            t == s@.subrange(lo as int, hi as int),
            r@.len() == pieces.len(),
            forall|i: int|
                0 <= i < r@.len() ==> lo <= (#[trigger] r@[i]).0 <= r@[i].1 <= hi && s@.subrange(
                    r@[i].0 as int,
                    r@[i].1 as int,
                ) == pieces[i],
        ensures
            split(t, sep) == pieces,
        decreases hi - p,
    {
        let mut k = p;
        while k < hi && s[k] != sep
            invariant
                p <= k <= hi <= s@.len(),
                lo <= p,
                t == s@.subrange(lo as int, hi as int),
                first_char_from(t, sep, p - lo) == first_char_from(t, sep, k - lo),
            decreases hi - k,
        {
            assert(t[k - lo] == s@[k as int]);
            k += 1;
        }
        if k >= hi {
            r.push((p, hi));
            assert(t.subrange(p - lo, t.len() as int) =~= s@.subrange(p as int, hi as int));
            proof {
                let x = s@.subrange(p as int, hi as int);
                assert(split_from(t, sep, p - lo) == seq![x]);
                assert(pieces + seq![x] =~= pieces.push(x));
                pieces = pieces.push(x);
            }
            break;
        }
        assert(t[k - lo] == s@[k as int]);
        r.push((p, k));
        assert(t.subrange(p - lo, k - lo) =~= s@.subrange(p as int, k as int));
        proof {
            let x = s@.subrange(p as int, k as int);
            let rest = split_from(t, sep, k - lo + 1);
            assert(split_from(t, sep, p - lo) == seq![x] + rest);
            assert(pieces + (seq![x] + rest) =~= pieces.push(x) + rest);
            pieces = pieces.push(x);
        }
        p = k + 1;
    }
    r
}

/// Each piece trimmed.
pub open spec fn trim_all(ps: Seq<Seq<char>>) -> Seq<Seq<char>> {
    Seq::new(ps.len(), |i: int| trim(ps[i]))
}

/// Trims each of the ranges `r` of `s`.
pub fn trim_ranges(s: &[char], r: &Vec<(usize, usize)>) -> (t: Vec<(usize, usize)>)
    requires
        forall|i: int| 0 <= i < r@.len() ==> (#[trigger] r@[i]).0 <= r@[i].1 <= s@.len(),
    ensures
        t@.len() == r@.len(),
        forall|i: int|
            0 <= i < t@.len() ==> r@[i].0 <= (#[trigger] t@[i]).0 <= t@[i].1 <= r@[i].1 && s@.subrange(
                t@[i].0 as int,
                t@[i].1 as int,
            ) == trim(s@.subrange(r@[i].0 as int, r@[i].1 as int)),
{
    let mut t: Vec<(usize, usize)> = Vec::new();
    let mut i: usize = 0;
    while i < r.len()
        invariant
            i <= r@.len(),
            forall|j: int| 0 <= j < r@.len() ==> (#[trigger] r@[j]).0 <= r@[j].1 <= s@.len(),
            t@.len() == i,
            forall|j: int|
                0 <= j < i ==> r@[j].0 <= (#[trigger] t@[j]).0 <= t@[j].1 <= r@[j].1 && s@.subrange(
                    t@[j].0 as int,
                    t@[j].1 as int,
                ) == trim(s@.subrange(r@[j].0 as int, r@[j].1 as int)),
        decreases r@.len() - i,
    {
        let (a, b) = r[i];
        let q = trim_range(s, a, b);
        t.push(q);
        i += 1;
    }
    t
}

} // verus!
