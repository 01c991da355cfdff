//! Scanning past quoted literals and counting brackets.

use vstd::prelude::*;

verus! {

/// Whether `c` opens or closes a quoted literal.
pub open spec fn is_quote(c: char) -> bool {
    c == '\'' || c == '"'
}

/// Whether `c` is one of `(`, `[`, `{`.
pub open spec fn opens(c: char) -> bool {
    c == '(' || c == '[' || c == '{'
}

/// Whether `c` is one of `)`, `]`, `}`.
pub open spec fn closes(c: char) -> bool {
    c == ')' || c == ']' || c == '}'
}

/// What `c` adds to the depth of nesting.
pub open spec fn step(c: char) -> int {
    if opens(c) {
        1
    } else if closes(c) {
        -1
    } else {
        0
    }
}

/// The number of characters from index `j`, inside a literal quoted by `q`, up
/// to and with the closing quote, or up to the end of the text where none
/// closes it. A backslash takes the character after it along.
pub open spec fn literal_span(s: Seq<char>, j: int, q: char) -> nat
    decreases s.len() - j,
{
    if j < 0 || j >= s.len() {
        0
    } else if s[j] == q {
        1
    } else if s[j] == '\\' && j + 1 < s.len() {
        2 + literal_span(s, j + 2, q)
    } else {
        1 + literal_span(s, j + 1, q)
    }
}

/// The index after the literal that the quote at index `i` opens.
pub open spec fn literal_end(s: Seq<char>, i: int) -> int {
    i + 1 + literal_span(s, i + 1, s[i])
}

pub proof fn lemma_literal_span(s: Seq<char>, j: int, q: char)
    requires
        0 <= j <= s.len(),
    ensures
        j + literal_span(s, j, q) <= s.len(),
    decreases s.len() - j,
{
    if j < s.len() && s[j] != q {
        if s[j] == '\\' && j + 1 < s.len() {
            lemma_literal_span(s, j + 2, q);
        } else {
            lemma_literal_span(s, j + 1, q);
        }
    }
}

pub proof fn lemma_literal_end(s: Seq<char>, i: int)
    requires
        0 <= i < s.len(),
    ensures
        i < literal_end(s, i) <= s.len(),
{
    lemma_literal_span(s, i + 1, s[i]);
}

/// Whether `c` opens or closes a quoted literal.
pub fn quote(c: char) -> (b: bool)
    ensures
        b == is_quote(c),
{
    c == '\'' || c == '"'
}

/// Whether `c` is one of `(`, `[`, `{`.
pub fn opener(c: char) -> (b: bool)
    ensures
        b == opens(c),
{
    c == '(' || c == '[' || c == '{'
}

/// Whether `c` is one of `)`, `]`, `}`.
pub fn closer(c: char) -> (b: bool)
    ensures
        b == closes(c),
{
    c == ')' || c == ']' || c == '}'
}

/// The index after the literal that the quote at index `start` opens.
pub fn skip_literal(s: &[char], start: usize) -> (e: usize)
    requires
        start < s@.len(),
    ensures
        e == literal_end(s@, start as int),
        start < e <= s@.len(),
{
    let q = s[start];
    let mut j: usize = start + 1;
    while j < s.len() && s[j] != q
        invariant
            start < j <= s@.len(),
            q == s@[start as int],
            j + literal_span(s@, j as int, q) == literal_end(s@, start as int),
        decreases s.len() - j,
    {
        if s[j] == '\\' && j + 1 < s.len() {
            j += 2;
        } else {
            j += 1;
        }
    }
    if j < s.len() {
        j + 1
    } else {
        j
    }
}

/// The first index at or after `i` at which `c` stands in `s`.
pub open spec fn index_of(s: Seq<char>, c: char, i: int) -> Option<int>
    decreases s.len() - i,
{
    if i < 0 || i >= s.len() {
        None
    } else if s[i] == c {
        Some(i)
    } else {
        index_of(s, c, i + 1)
    }
}

/// The first index at which `c` stands in `s`.
pub fn position(s: &[char], c: char) -> (r: Option<usize>)
    ensures
        r is Some == index_of(s@, c, 0) is Some,
        r is Some ==> index_of(s@, c, 0) == Some(r.unwrap() as int) && r.unwrap() < s@.len()
            && s@[r.unwrap() as int] == c,
{
    let mut i: usize = 0;
    while i < s.len()
        invariant
            i <= s@.len(),
            index_of(s@, c, 0) == index_of(s@, c, i as int),
        decreases s.len() - i,
    {
        if s[i] == c {
            return Some(i);
        }
        i += 1;
    }
    None
}

/// Whether `c` opens a group: a round or square bracket, and a brace where
/// `braces` is set.
pub open spec fn opens_group(c: char, braces: bool) -> bool {
    c == '(' || c == '[' || (braces && c == '{')
}

/// Whether `c` closes a group: a round or square bracket, and a brace where
/// `braces` is set.
pub open spec fn closes_group(c: char, braces: bool) -> bool {
    c == ')' || c == ']' || (braces && c == '}')
}

/// The index of the first closing bracket, at or after `i` and outside quoted
/// literals, that brings the depth of nesting from `depth` back to zero.
pub open spec fn close_from(s: Seq<char>, i: int, depth: int, braces: bool) -> Option<int>
    decreases s.len() - i,
{
    if i < 0 || i >= s.len() {
        None
    } else if is_quote(s[i]) {
        proof {
            lemma_literal_end(s, i);
        }
        close_from(s, literal_end(s, i), depth, braces)
    } else if opens_group(s[i], braces) {
        close_from(s, i + 1, depth + 1, braces)
    } else if closes_group(s[i], braces) {
        if depth == 1 {
            Some(i)
        } else {
            close_from(s, i + 1, depth - 1, braces)
        }
    } else {
        close_from(s, i + 1, depth, braces)
    }
}

pub proof fn lemma_close_from(s: Seq<char>, i: int, depth: int, braces: bool)
    requires
        0 <= i,
    ensures
        close_from(s, i, depth, braces) is Some ==> i <= close_from(s, i, depth, braces).unwrap()
            < s.len(),
    decreases s.len() - i,
{
    if i < s.len() {
        if is_quote(s[i]) {
            lemma_literal_end(s, i);
            lemma_close_from(s, literal_end(s, i), depth, braces);
        } else if opens_group(s[i], braces) {
            lemma_close_from(s, i + 1, depth + 1, braces);
        } else if closes_group(s[i], braces) {
            if depth != 1 {
                lemma_close_from(s, i + 1, depth - 1, braces);
            }
        } else {
            lemma_close_from(s, i + 1, depth, braces);
        }
    }
}

/// The bracket that closes the group which opens at index `open`.
pub open spec fn closing(s: Seq<char>, open: int, braces: bool) -> Option<int> {
    close_from(s, open, 0, braces)
}

pub proof fn lemma_closing(s: Seq<char>, open: int, braces: bool)
    requires
        0 <= open < s.len(),
        opens_group(s[open], braces),
    ensures
        closing(s, open, braces) is Some ==> open < closing(s, open, braces).unwrap() < s.len(),
{
    lemma_close_from(s, open + 1, 1, braces);
}

/// The bracket that closes the group which opens at index `open`.
pub fn matching_close(s: &[char], open: usize, braces: bool) -> (r: Option<usize>)
    ensures
        r is Some == closing(s@, open as int, braces) is Some,
        r is Some ==> closing(s@, open as int, braces) == Some(r.unwrap() as int) && open
            <= r.unwrap() < s@.len(),
{
    let mut depth: i128 = 0;
    let mut i: usize = open;
    while i < s.len()
        invariant
            open <= i,
            -(i - open) <= depth <= i - open,
            closing(s@, open as int, braces) == close_from(s@, i as int, depth as int, braces),
        decreases s.len() - i,
    {
        let ch = s[i];
        if quote(ch) {
            i = skip_literal(s, i);
        } else {
            if ch == '(' || ch == '[' || (braces && ch == '{') {
                depth += 1;
            } else if ch == ')' || ch == ']' || (braces && ch == '}') {
                if depth == 1 {
                    return Some(i);
                }
                depth -= 1;
            }
            i += 1;
        }
    }
    None
}

} // verus!
