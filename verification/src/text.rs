//! Plain operations on sequences of characters.
//!
//! Text is held as `String` where it rests and as `Vec<char>` where it is
//! inspected; every contract speaks of the sequence of characters.

use vstd::prelude::*;
use vstd::slice::slice_subrange;
use vstd::string::*;
use vstd::utf8::encode_utf8;

verus! {

/// `String::push` of the standard library: the pushed character becomes the
/// last one and the others stay.
pub assume_specification[ String::push ](s: &mut String, c: char)
    ensures
        final(s)@ == old(s)@.push(c),
;

/// What `char::is_whitespace` of the standard library answers: whether a
/// character has the Unicode property `White_Space`.
pub uninterp spec fn std_white_space(c: char) -> bool;

/// `char::is_whitespace` of the standard library: its answer depends on the
/// character alone.
pub assume_specification[ char::is_whitespace ](c: char) -> (b: bool)
    ensures
        b == std_white_space(c),
;

/// What `char::is_alphabetic` of the standard library answers: whether a
/// character has the Unicode property `Alphabetic`.
pub uninterp spec fn std_alphabetic(c: char) -> bool;

/// `char::is_alphabetic` of the standard library: its answer depends on the
/// character alone.
pub assume_specification[ char::is_alphabetic ](c: char) -> (b: bool)
    ensures
        b == std_alphabetic(c),
;

/// What `char::is_numeric` of the standard library answers: whether a
/// character belongs to one of the Unicode categories of numbers.
pub uninterp spec fn std_numeric(c: char) -> bool;

/// `char::is_numeric` of the standard library: its answer depends on the
/// character alone.
pub assume_specification[ char::is_numeric ](c: char) -> (b: bool)
    ensures
        b == std_numeric(c),
;

/// Whether a character is one of the first 128.
pub open spec fn plain(c: char) -> bool {
    c <= '\u{7f}'
}

/// Whether a character is white space: of the first 128 characters the
/// space and the five from the tabulator to the carriage return, and above
/// them what the standard library counts as white space.
pub open spec fn white_space(c: char) -> bool {
    if plain(c) {
        c == ' ' || ('\t' <= c && c <= '\r')
    } else {
        std_white_space(c)
    }
}

/// Whether a character is a letter: of the first 128 characters those from
/// `a` to `z` and from `A` to `Z`, and above them what the standard library
/// counts as alphabetic.
pub open spec fn alphabetic(c: char) -> bool {
    if plain(c) {
        ('a' <= c && c <= 'z') || ('A' <= c && c <= 'Z')
    } else {
        std_alphabetic(c)
    }
}

/// Whether a character is a digit: of the first 128 characters those from
/// `0` to `9`, and above them what the standard library counts as numeric.
pub open spec fn numeric(c: char) -> bool {
    if plain(c) {
        '0' <= c && c <= '9'
    } else {
        std_numeric(c)
    }
}

/// Whether a character is a letter or a digit.
pub open spec fn alphanumeric(c: char) -> bool {
    alphabetic(c) || numeric(c)
}

/// Whether a character is white space.
pub fn is_white_space(c: char) -> (b: bool)
    ensures
        b == white_space(c),
{
    if c <= '\u{7f}' {
        c == ' ' || ('\t' <= c && c <= '\r')
    } else {
        c.is_whitespace()
    }
}

/// Whether a character is a letter.
pub fn is_letter(c: char) -> (b: bool)
    ensures
        b == alphabetic(c),
{
    if c <= '\u{7f}' {
        ('a' <= c && c <= 'z') || ('A' <= c && c <= 'Z')
    } else {
        c.is_alphabetic()
    }
}

/// Whether a character is a digit.
pub fn is_digit(c: char) -> (b: bool)
    ensures
        b == numeric(c),
{
    if c <= '\u{7f}' {
        '0' <= c && c <= '9'
    } else {
        c.is_numeric()
    }
}

/// Whether a character is a letter or a digit.
pub fn is_letter_or_digit(c: char) -> (b: bool)
    ensures
        b == alphanumeric(c),
{
    is_letter(c) || is_digit(c)
}

/// The lowercase form of a text, as Unicode defines it.
pub uninterp spec fn lowercase(s: Seq<char>) -> Seq<char>;

/// `str::to_lowercase` of the standard library: the result depends on the
/// characters of the text alone.
pub assume_specification[ str::to_lowercase ](s: &str) -> (r: String)
    ensures
        r@ == lowercase(s@),
;

/// The uppercase form of a text, as Unicode defines it.
pub uninterp spec fn uppercase(s: Seq<char>) -> Seq<char>;

/// `str::to_uppercase` of the standard library: the result depends on the
/// characters of the text alone.
pub assume_specification[ str::to_uppercase ](s: &str) -> (r: String)
    ensures
        r@ == uppercase(s@),
;

/// The number of bytes that a text takes in UTF-8: the measure of a line's width.
pub open spec fn width(s: Seq<char>) -> nat {
    encode_utf8(s).len()
}

/// The width of `s`.
pub fn width_of(s: &str) -> (n: usize)
    ensures
        n == width(s@),
{
    s.as_bytes().len()
}

/// The views of a list of strings.
pub open spec fn texts(v: Seq<String>) -> Seq<Seq<char>> {
    Seq::new(v.len(), |i: int| v[i]@)
}

pub proof fn lemma_texts_push(v: Seq<String>, s: String)
    ensures
        texts(v.push(s)) == texts(v).push(s@),
{
    assert(texts(v.push(s)) =~= texts(v).push(s@));
}

pub proof fn lemma_texts_empty()
    ensures
        texts(Seq::<String>::empty()) == Seq::<Seq<char>>::empty(),
{
    assert(texts(Seq::<String>::empty()) =~= Seq::<Seq<char>>::empty());
}

/// The characters of `s`, in order.
pub fn chars_of(s: &str) -> (v: Vec<char>)
    ensures
        v@ == s@,
{
    let mut v: Vec<char> = Vec::new();
    for c in it: s.chars()
        invariant
            v@ == it.seq().take(it.index()),
            it.seq() == s@,
    {
        v.push(c);
    }
    v
}

/// The string made of the characters of `v`, in order.
pub fn string_of(v: &[char]) -> (s: String)
    ensures
        s@ == v@,
{
    let mut s = String::new();
    let mut i: usize = 0;
    while i < v.len()
        invariant
            i <= v.len(),
            s@ == v@.take(i as int),
        decreases v.len() - i,
    {
        s.push(v[i]);
        i += 1;
    }
    s
}

/// Appends the characters of `s` to `buf`.
pub fn append_chars(buf: &mut Vec<char>, s: &[char])
    ensures
        final(buf)@ == old(buf)@ + s@,
{
    let mut i: usize = 0;
    while i < s.len()
        invariant
            i <= s.len(),
            buf@ == old(buf)@ + s@.take(i as int),
        decreases s.len() - i,
    {
        buf.push(s[i]);
        i += 1;
        assert(buf@ =~= old(buf)@ + s@.take(i as int));
    }
    assert(buf@ =~= old(buf)@ + s@);
}

/// Appends the characters of the string `s` to `buf`.
pub fn append_str(buf: &mut Vec<char>, s: &str)
    ensures
        final(buf)@ == old(buf)@ + s@,
{
    let v = chars_of(s);
    append_chars(buf, &v);
}

/// Whether `p` occurs in `s` at index `i`.
pub open spec fn occurs_at(s: Seq<char>, p: Seq<char>, i: int) -> bool {
    0 <= i && i + p.len() <= s.len() && s.subrange(i, i + p.len()) == p
}

/// Whether `p` occurs in `s` at index `i`.
pub fn matches_at(s: &[char], p: &[char], i: usize) -> (b: bool)
    ensures
        b == occurs_at(s@, p@, i as int),
{
    if i > s.len() || p.len() > s.len() - i {
        return false;
    }
    let mut j: usize = 0;
    while j < p.len()
        invariant
            j <= p.len(),
            i + p.len() <= s.len(),
            forall|k: int| 0 <= k < j ==> s@[i + k] == p@[k],
        decreases p.len() - j,
    {
        if s[i + j] != p[j] {
            assert(s@.subrange(i as int, i + p.len())[j as int] == s@[i + j]);
            return false;
        }
        j += 1;
    }
    assert(s@.subrange(i as int, i + p.len()) =~= p@);
    true
}

/// Whether `s` begins with `p`.
pub fn starts_with(s: &[char], p: &[char]) -> (b: bool)
    ensures
        b == p@.is_prefix_of(s@),
{
    let b = matches_at(s, p, 0);
    assert(p@.is_prefix_of(s@) ==> s@.subrange(0, p@.len() as int) =~= p@);
    b
}

/// Whether `s` begins with the text of `p`.
pub fn starts_with_str(s: &[char], p: &str) -> (b: bool)
    ensures
        b == p@.is_prefix_of(s@),
{
    let v = chars_of(p);
    starts_with(s, &v)
}

/// Whether `s` ends with `p`.
pub fn ends_with(s: &[char], p: &[char]) -> (b: bool)
    ensures
        b == p@.is_suffix_of(s@),
{
    if p.len() > s.len() {
        return false;
    }
    let b = matches_at(s, p, s.len() - p.len());
    assert(p@.is_suffix_of(s@) ==> s@.subrange(s@.len() - p@.len(), s@.len() as int) =~= p@);
    b
}

/// Whether `s` ends with the text of `p`.
pub fn ends_with_str(s: &[char], p: &str) -> (b: bool)
    ensures
        b == p@.is_suffix_of(s@),
{
    let v = chars_of(p);
    ends_with(s, &v)
}

/// Whether `s` begins with the character `c`.
pub open spec fn first_is(s: Seq<char>, c: char) -> bool {
    s.len() > 0 && s[0] == c
}

/// Whether `s` ends with the character `c`.
pub open spec fn last_is(s: Seq<char>, c: char) -> bool {
    s.len() > 0 && s[s.len() - 1] == c
}

/// Whether `s` begins with the character `c`.
pub fn starts_with_char(s: &[char], c: char) -> (b: bool)
    ensures
        b == first_is(s@, c),
{
    s.len() > 0 && s[0] == c
}

/// Whether `s` ends with the character `c`.
pub fn ends_with_char(s: &[char], c: char) -> (b: bool)
    ensures
        b == last_is(s@, c),
{
    s.len() > 0 && s[s.len() - 1] == c
}

/// The first index at or after `from` at which `p` occurs in `s`.
pub open spec fn first_occurrence(s: Seq<char>, p: Seq<char>, from: int) -> Option<int>
    decreases s.len() - from,
{
    if from < 0 || from + p.len() > s.len() {
        None
    } else if occurs_at(s, p, from) {
        Some(from)
    } else if from >= s.len() {
        None
    } else {
        first_occurrence(s, p, from + 1)
    }
}

/// The first index at which `p` occurs in `s`.
pub fn find(s: &[char], p: &[char]) -> (r: Option<usize>)
    ensures
        r is Some == first_occurrence(s@, p@, 0) is Some,
        r is Some ==> first_occurrence(s@, p@, 0) == Some(r.unwrap() as int),
        r is Some ==> r.unwrap() + p@.len() <= s@.len(),
{
    let mut i: usize = 0;
    while i <= s.len() && p.len() <= s.len() - i
        invariant
            i <= s.len() + 1,
            first_occurrence(s@, p@, 0) == first_occurrence(s@, p@, i as int),
        decreases s.len() + 1 - i,
    {
        if matches_at(s, p, i) {
            return Some(i);
        }
        if i >= s.len() {
            return None;
        }
        i += 1;
    }
    None
}

/// Whether `p` occurs somewhere in `s`.
pub open spec fn has(s: Seq<char>, p: Seq<char>) -> bool {
    first_occurrence(s, p, 0) is Some
}

/// Whether `p` occurs somewhere in `s`.
pub fn contains(s: &[char], p: &[char]) -> (b: bool)
    ensures
        b == has(s@, p@),
{
    find(s, p).is_some()
}

/// Whether the text of `p` occurs somewhere in `s`.
pub fn contains_str(s: &[char], p: &str) -> (b: bool)
    ensures
        b == has(s@, p@),
{
    let v = chars_of(p);
    contains(s, &v)
}

/// How often the character `c` occurs in `s`.
pub open spec fn count_of(s: Seq<char>, c: char) -> nat
    decreases s.len(),
{
    if s.len() == 0 {
        0
    } else {
        count_of(s.drop_last(), c) + if s.last() == c {
            1nat
        } else {
            0nat
        }
    }
}

/// How often the character `c` occurs in `s`.
pub fn count_char(s: &[char], c: char) -> (n: usize)
    ensures
        n == count_of(s@, c),
{
    let mut n: usize = 0;
    let mut i: usize = 0;
    while i < s.len()
        invariant
            i <= s.len(),
            n <= i,
            n == count_of(s@.take(i as int), c),
        decreases s.len() - i,
    {
        assert(s@.take(i + 1).drop_last() =~= s@.take(i as int));
        if s[i] == c {
            n += 1;
        }
        i += 1;
    }
    assert(s@.take(s@.len() as int) =~= s@);
    n
}

/// Whether the character `c` occurs in `s`.
pub fn contains_char(s: &[char], c: char) -> (b: bool)
    ensures
        b == (count_of(s@, c) > 0),
{
    count_char(s, c) > 0
}

/// `s` without the white space it begins with.
pub open spec fn trim_start(s: Seq<char>) -> Seq<char>
    decreases s.len(),
{
    if s.len() > 0 && white_space(s[0]) {
        trim_start(s.drop_first())
    } else {
        s
    }
}

/// `s` without the white space it ends with.
pub open spec fn trim_end(s: Seq<char>) -> Seq<char>
    decreases s.len(),
{
    if s.len() > 0 && white_space(s.last()) {
        trim_end(s.drop_last())
    } else {
        s
    }
}

/// `s` without the white space at either end.
pub open spec fn trim(s: Seq<char>) -> Seq<char> {
    trim_end(trim_start(s))
}

/// `s` without the white space it begins with.
pub fn trim_start_of(s: &[char]) -> (r: &[char])
    ensures
        r@ == trim_start(s@),
        r@.len() <= s@.len(),
{
    let mut i: usize = 0;
    assert(s@.subrange(0, s@.len() as int) =~= s@);
    while i < s.len() && is_white_space(s[i])
        invariant
            i <= s.len(),
            trim_start(s@) == trim_start(s@.subrange(i as int, s@.len() as int)),
        decreases s.len() - i,
    {
        assert(s@.subrange(i as int, s@.len() as int).drop_first() =~= s@.subrange(
            i + 1,
            s@.len() as int,
        ));
        i += 1;
    }
    slice_subrange(s, i, s.len())
}

/// `s` without the white space it ends with.
pub fn trim_end_of(s: &[char]) -> (r: &[char])
    ensures
        r@ == trim_end(s@),
        r@.len() <= s@.len(),
        r@ == s@.subrange(0, r@.len() as int),
{
    let mut n: usize = s.len();
    assert(s@.subrange(0, s@.len() as int) =~= s@);
    while n > 0 && is_white_space(s[n - 1])
        invariant
            n <= s.len(),
            trim_end(s@) == trim_end(s@.subrange(0, n as int)),
        decreases n,
    {
        assert(s@.subrange(0, n as int).drop_last() =~= s@.subrange(0, n - 1));
        n -= 1;
    }
    slice_subrange(s, 0, n)
}

/// `s` without the white space at either end.
pub fn trim_of(s: &[char]) -> (r: &[char])
    ensures
        r@ == trim(s@),
        r@.len() <= s@.len(),
{
    trim_end_of(trim_start_of(s))
}

/// `s` without the run of `c` it begins with.
pub open spec fn strip_leading(s: Seq<char>, c: char) -> Seq<char>
    decreases s.len(),
{
    if s.len() > 0 && s[0] == c {
        strip_leading(s.drop_first(), c)
    } else {
        s
    }
}

/// `s` without the run of `c` it ends with.
pub open spec fn strip_trailing(s: Seq<char>, c: char) -> Seq<char>
    decreases s.len(),
{
    if s.len() > 0 && s.last() == c {
        strip_trailing(s.drop_last(), c)
    } else {
        s
    }
}

/// `s` without the run of `c` it begins with.
pub fn strip_leading_of(s: &[char], c: char) -> (r: &[char])
    ensures
        r@ == strip_leading(s@, c),
        r@.len() <= s@.len(),
{
    let mut i: usize = 0;
    assert(s@.subrange(0, s@.len() as int) =~= s@);
    while i < s.len() && s[i] == c
        invariant
            i <= s.len(),
            strip_leading(s@, c) == strip_leading(s@.subrange(i as int, s@.len() as int), c),
        decreases s.len() - i,
    {
        assert(s@.subrange(i as int, s@.len() as int).drop_first() =~= s@.subrange(
            i + 1,
            s@.len() as int,
        ));
        i += 1;
    }
    slice_subrange(s, i, s.len())
}

/// `s` without the run of `c` it ends with.
pub fn strip_trailing_of(s: &[char], c: char) -> (r: &[char])
    ensures
        r@ == strip_trailing(s@, c),
        r@.len() <= s@.len(),
{
    let mut n: usize = s.len();
    assert(s@.subrange(0, s@.len() as int) =~= s@);
    while n > 0 && s[n - 1] == c
        invariant
            n <= s.len(),
            strip_trailing(s@, c) == strip_trailing(s@.subrange(0, n as int), c),
        decreases n,
    {
        assert(s@.subrange(0, n as int).drop_last() =~= s@.subrange(0, n - 1));
        n -= 1;
    }
    slice_subrange(s, 0, n)
}

/// Whether every character of `s` is white space.
pub open spec fn blank(s: Seq<char>) -> bool {
    trim(s).len() == 0
}

/// Whether every character of `s` is white space.
pub fn is_blank(s: &[char]) -> (b: bool)
    ensures
        b == blank(s@),
{
    trim_of(s).len() == 0
}

/// The number of characters from index `i` up to the next line feed or the end.
pub open spec fn line_len(s: Seq<char>, i: int) -> nat
    decreases s.len() - i,
{
    if i < 0 || i >= s.len() || s[i] == '\n' {
        0
    } else {
        1 + line_len(s, i + 1)
    }
}

/// A line without the carriage return that stood before its line feed.
pub open spec fn without_cr(line: Seq<char>) -> Seq<char> {
    if last_is(line, '\r') {
        line.drop_last()
    } else {
        line
    }
}

/// The lines of `s` from index `i` on. A line ends with a line feed, or with a
/// carriage return and a line feed, and holds neither; the last line may end
/// with the text.
pub open spec fn lines_from(s: Seq<char>, i: int) -> Seq<Seq<char>>
    decreases s.len() - i,
{
    if i < 0 || i >= s.len() {
        Seq::empty()
    } else {
        let e = i + line_len(s, i);
        if e < s.len() {
            seq![without_cr(s.subrange(i, e))] + lines_from(s, e + 1)
        } else {
            seq![s.subrange(i, e)]
        }
    }
}

/// The lines of `s`.
pub open spec fn lines(s: Seq<char>) -> Seq<Seq<char>> {
    lines_from(s, 0)
}

pub proof fn lemma_line_len_bound(s: Seq<char>, i: int)
    requires
        0 <= i <= s.len(),
    ensures
        i + line_len(s, i) <= s.len(),
        i + line_len(s, i) < s.len() ==> s[i + line_len(s, i)] == '\n',
    decreases s.len() - i,
{
    if i < s.len() && s[i] != '\n' {
        lemma_line_len_bound(s, i + 1);
    }
}

/// The lines of `s`.
pub fn lines_of(s: &[char]) -> (r: Vec<String>)
    ensures
        texts(r@) == lines(s@),
{
    let mut r: Vec<String> = Vec::new();
    let mut i: usize = 0;
    proof {
        lemma_texts_empty();
    }
    while i < s.len()
        invariant
            i <= s.len(),
            lines(s@) == texts(r@) + lines_from(s@, i as int),
        decreases s.len() - i,
    {
        let mut e: usize = i;
        while e < s.len() && s[e] != '\n'
            invariant
                i <= e <= s.len(),
                i + line_len(s@, i as int) == e + line_len(s@, e as int),
            decreases s.len() - e,
        {
            e += 1;
        }
        proof {
            lemma_line_len_bound(s@, i as int);
        }
        assert(e == i + line_len(s@, i as int));
        let ghost before = texts(r@);
        if e < s.len() {
            let mut end: usize = e;
            if end > i && s[end - 1] == '\r' {
                end -= 1;
            }
            let line = string_of(slice_subrange(s, i, end));
            assert(line@ =~= without_cr(s@.subrange(i as int, e as int)));
            proof {
                lemma_texts_push(r@, line);
            }
            r.push(line);
            assert(before + lines_from(s@, i as int) =~= texts(r@) + lines_from(s@, e + 1));
            i = e + 1;
        } else {
            let line = string_of(slice_subrange(s, i, e));
            proof {
                lemma_texts_push(r@, line);
            }
            r.push(line);
            assert(before + lines_from(s@, i as int) =~= texts(r@) + lines_from(s@, e as int));
            i = e;
        }
    }
    assert(texts(r@) + lines_from(s@, i as int) =~= texts(r@));
    r
}

/// The items of `v` from index `k` on, with `sep` between each two.
pub open spec fn joined_from(v: Seq<Seq<char>>, sep: Seq<char>, k: int) -> Seq<char>
    decreases v.len() - k,
{
    if k < 0 || k >= v.len() {
        Seq::empty()
    } else if k == v.len() - 1 {
        v[k]
    } else {
        v[k] + sep + joined_from(v, sep, k + 1)
    }
}

/// The items of `v`, with `sep` between each two.
pub open spec fn joined(v: Seq<Seq<char>>, sep: Seq<char>) -> Seq<char> {
    joined_from(v, sep, 0)
}

/// Appends to `buf` the items of `v` from index `from` up to `to`, with `sep`
/// between each two.
pub fn append_joined(buf: &mut Vec<char>, v: &[String], from: usize, to: usize, sep: &str)
    requires
        from <= to <= v@.len(),
    ensures
        final(buf)@ == old(buf)@ + joined(texts(v@).subrange(from as int, to as int), sep@),
{
    let ghost part = texts(v@).subrange(from as int, to as int);
    let mut k: usize = from;
    while k < to
        invariant
            from <= k <= to <= v@.len(),
            part == texts(v@).subrange(from as int, to as int),
            old(buf)@ + joined(part, sep@) == buf@ + joined_from(part, sep@, k - from),
        decreases to - k,
    {
        let ghost prev = buf@;
        append_str(buf, v[k].as_str());
        assert(part[k - from] == v@[k as int]@);
        if k + 1 < to {
            append_str(buf, sep);
            assert(buf@ + joined_from(part, sep@, k + 1 - from) =~= prev + joined_from(
                part,
                sep@,
                k - from,
            ));
        } else {
            assert(joined_from(part, sep@, k + 1 - from) =~= Seq::<char>::empty());
            assert(buf@ + joined_from(part, sep@, k + 1 - from) =~= prev + joined_from(
                part,
                sep@,
                k - from,
            ));
        }
        k += 1;
    }
    assert(buf@ + joined_from(part, sep@, to - from) =~= buf@);
}

/// `n` copies of `unit`, one after the other.
pub open spec fn repeated(unit: Seq<char>, n: nat) -> Seq<char>
    decreases n,
{
    if n == 0 {
        Seq::empty()
    } else {
        repeated(unit, (n - 1) as nat) + unit
    }
}

/// `n` copies of the text of `unit`, one after the other.
pub fn repeat(unit: &str, n: usize) -> (r: String)
    ensures
        r@ == repeated(unit@, n as nat),
{
    let mut r = String::new();
    let mut k: usize = 0;
    while k < n
        invariant
            k <= n,
            r@ == repeated(unit@, k as nat),
        decreases n - k,
    {
        r.append(unit);
        k += 1;
    }
    r
}

/// Whether `a` and `b` hold the same characters.
pub fn equals(a: &[char], b: &[char]) -> (r: bool)
    ensures
        r == (a@ == b@),
{
    if a.len() != b.len() {
        return false;
    }
    let r = matches_at(a, b, 0);
    assert(a@.subrange(0, a@.len() as int) =~= a@);
    r
}

/// Whether `a` holds the characters of the string `b`.
pub fn equals_str(a: &[char], b: &str) -> (r: bool)
    ensures
        r == (a@ == b@),
{
    let v = chars_of(b);
    equals(a, &v)
}

/// `s` from index `i` on, with each occurrence of `from` replaced by `to`,
/// taken from left to right.
pub open spec fn replaced_from(s: Seq<char>, from: Seq<char>, to: Seq<char>, i: int) -> Seq<char>
    decreases s.len() - i,
{
    if i < 0 || i >= s.len() {
        Seq::empty()
    } else if from.len() > 0 && occurs_at(s, from, i) {
        to + replaced_from(s, from, to, i + from.len())
    } else {
        seq![s[i]] + replaced_from(s, from, to, i + 1)
    }
}

/// `s` with each occurrence of `from` replaced by `to`.
pub open spec fn replaced(s: Seq<char>, from: Seq<char>, to: Seq<char>) -> Seq<char> {
    replaced_from(s, from, to, 0)
}

/// `s` with each occurrence of `from` replaced by `to`.
pub fn replace(s: &[char], from: &[char], to: &[char]) -> (r: Vec<char>)
    ensures
        r@ == replaced(s@, from@, to@),
{
    let mut r: Vec<char> = Vec::new();
    let mut i: usize = 0;
    while i < s.len()
        invariant
            i <= s.len(),
            replaced(s@, from@, to@) == r@ + replaced_from(s@, from@, to@, i as int),
        decreases s.len() - i,
    {
        let ghost prev = r@;
        let ghost at = i as int;
        if from.len() > 0 && matches_at(s, from, i) {
            append_chars(&mut r, to);
            i += from.len();
        } else {
            r.push(s[i]);
            i += 1;
        }
        assert(r@ + replaced_from(s@, from@, to@, i as int) =~= prev + replaced_from(
            s@,
            from@,
            to@,
            at,
        ));
    }
    assert(r@ + replaced_from(s@, from@, to@, i as int) =~= r@);
    r
}

/// Each line of `v` without the white space at either end.
pub open spec fn trimmed_all(v: Seq<Seq<char>>) -> Seq<Seq<char>> {
    Seq::new(v.len(), |k: int| trim(v[k]))
}

/// The lines of `s`, each without the white space at either end.
pub fn trimmed_lines_of(s: &[char]) -> (r: Vec<String>)
    ensures
        texts(r@) == trimmed_all(lines(s@)),
{
    let all = lines_of(s);
    let mut r: Vec<String> = Vec::new();
    let mut k: usize = 0;
    while k < all.len()
        invariant
            k <= all.len(),
            r@.len() == k,
            forall|j: int| 0 <= j < k ==> r@[j]@ == trim(#[trigger] all@[j]@),
        decreases all.len() - k,
    {
        let v = chars_of(all[k].as_str());
        r.push(string_of(trim_of(&v)));
        k += 1;
    }
    assert(texts(r@) =~= trimmed_all(texts(all@)));
    r
}

pub proof fn lemma_trim_start_len(s: Seq<char>)
    ensures
        trim_start(s).len() <= s.len(),
    decreases s.len(),
{
    if s.len() > 0 && white_space(s[0]) {
        lemma_trim_start_len(s.drop_first());
    }
}

pub proof fn lemma_trim_end_len(s: Seq<char>)
    ensures
        trim_end(s).len() <= s.len(),
    decreases s.len(),
{
    if s.len() > 0 && white_space(s.last()) {
        lemma_trim_end_len(s.drop_last());
    }
}

pub proof fn lemma_trim_len(s: Seq<char>)
    ensures
        trim(s).len() <= s.len(),
{
    lemma_trim_start_len(s);
    lemma_trim_end_len(trim_start(s));
}

/// Whether `a + b + c` is greater than `limit`, computed without overflow.
pub fn exceeds(a: usize, b: usize, c: usize, limit: usize) -> (r: bool)
    ensures
        r == (a + b + c > limit),
{
    a > limit || b > limit - a || c > limit - a - b
}

} // verus!
