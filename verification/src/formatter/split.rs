//! Breaking a line that is too wide into several lines.

use crate::formatter::indent::{INDENT, MAX_LINE_LENGTH};
use crate::formatter::php::{call_parts, commas, commas_from, split_by_args, split_commas};
use crate::formatter::scan::{
    closing, index_of, is_quote, lemma_closing, lemma_literal_end, literal_end, matching_close,
    position, quote, skip_literal, step,
};
use crate::text::{
    alphanumeric, append_chars, blank, chars_of, ends_with_char, exceeds, find, first_is,
    first_occurrence, is_blank, last_is, lemma_texts_empty, lemma_texts_push, lemma_trim_len, lines,
    lines_of, occurs_at, starts_with, starts_with_char, string_of, strip_trailing,
    strip_trailing_of, texts, trim, trim_end, trim_end_of, trim_of, trim_start, trim_start_of,
    width, width_of,
};
use vstd::prelude::*;
use vstd::slice::slice_subrange;
use vstd::string::*;

verus! {

/// Finds the bracket that closes the group which opens at `open_pos`: the
/// first closing bracket, outside quoted literals, at which as many brackets
/// have closed as have opened from `open_pos` on.
pub fn find_matching_close(chars: &[char], open_pos: usize) -> (r: Option<usize>)
    ensures
        r is Some == closing(chars@, open_pos as int, true) is Some,
        r is Some ==> closing(chars@, open_pos as int, true) == Some(r.unwrap() as int)
            && open_pos <= r.unwrap() < chars@.len(),
{
    matching_close(chars, open_pos, true)
}

/// The `?` and the `:` of the first conditional expression from index `i` on,
/// outside quoted literals and round and square brackets. `q` is the `?`
/// found so far. A `?` directly before `>`, `?` or `:` is passed over together
/// with that character, and so is a `:` directly before another `:`.
pub open spec fn ternary_from(s: Seq<char>, i: int, depth: int, q: Option<int>) -> Option<
    (int, int),
>
    decreases s.len() - i,
{
    if i < 0 || i >= s.len() {
        None
    } else if is_quote(s[i]) {
        proof {
            lemma_literal_end(s, i);
        }
        ternary_from(s, literal_end(s, i), depth, q)
    } else if s[i] == '(' || s[i] == '[' {
        ternary_from(s, i + 1, depth + 1, q)
    } else if s[i] == ')' || s[i] == ']' {
        ternary_from(s, i + 1, depth - 1, q)
    } else if s[i] == '?' && depth == 0 && q is None {
        if i + 1 < s.len() && (s[i + 1] == '>' || s[i + 1] == '?' || s[i + 1] == ':') {
            ternary_from(s, i + 2, depth, q)
        } else {
            ternary_from(s, i + 1, depth, Some(i))
        }
    } else if s[i] == ':' && depth == 0 && q is Some {
        if i + 1 < s.len() && s[i + 1] == ':' {
            ternary_from(s, i + 2, depth, q)
        } else {
            Some((q.unwrap(), i))
        }
    } else {
        ternary_from(s, i + 1, depth, q)
    }
}

/// The indices of the `?` and the `:` of the first top-level conditional
/// expression of `s`.
pub open spec fn ternary(s: Seq<char>) -> Option<(int, int)> {
    ternary_from(s, 0, 0, None)
}

pub proof fn lemma_ternary_from(s: Seq<char>, i: int, depth: int, q: Option<int>)
    requires
        0 <= i,
        q is Some ==> 0 <= q.unwrap() < i,
    ensures
        ternary_from(s, i, depth, q) is Some ==> {
            let r = ternary_from(s, i, depth, q).unwrap();
            0 <= r.0 < r.1 < s.len()
        },
    decreases s.len() - i,
{
    if i < s.len() {
        if is_quote(s[i]) {
            lemma_literal_end(s, i);
            lemma_ternary_from(s, literal_end(s, i), depth, q);
        } else if s[i] == '(' || s[i] == '[' {
            lemma_ternary_from(s, i + 1, depth + 1, q);
        } else if s[i] == ')' || s[i] == ']' {
            lemma_ternary_from(s, i + 1, depth - 1, q);
        } else if s[i] == '?' && depth == 0 && q is None {
            if i + 1 < s.len() && (s[i + 1] == '>' || s[i + 1] == '?' || s[i + 1] == ':') {
                lemma_ternary_from(s, i + 2, depth, q);
            } else {
                lemma_ternary_from(s, i + 1, depth, Some(i));
            }
        } else if s[i] == ':' && depth == 0 && q is Some {
            if i + 1 < s.len() && s[i + 1] == ':' {
                lemma_ternary_from(s, i + 2, depth, q);
            }
        } else {
            lemma_ternary_from(s, i + 1, depth, q);
        }
    }
}

pub proof fn lemma_ternary(s: Seq<char>)
    ensures
        ternary(s) is Some ==> 0 <= ternary(s).unwrap().0 < ternary(s).unwrap().1 < s.len(),
{
    lemma_ternary_from(s, 0, 0, None);
}

/// The number of bytes that stand before index `i` of `s`.
pub open spec fn offset(s: Seq<char>, i: int) -> nat {
    width(s.subrange(0, i))
}

/// The number of bytes that stand before index `i` of `chars`.
pub fn byte_offset(chars: &[char], i: usize) -> (n: usize)
    requires
        i <= chars@.len(),
    ensures
        n == offset(chars@, i as int),
{
    width_of(string_of(slice_subrange(chars, 0, i)).as_str())
}

/// Finds the `?` and the `:` of the first top-level conditional expression,
/// each as the number of bytes that stand before it.
pub fn find_ternary_positions(code: &str) -> (r: Option<(usize, usize)>)
    ensures
        r is Some == ternary(code@) is Some,
        r is Some ==> r.unwrap().0 == offset(code@, ternary(code@).unwrap().0) && r.unwrap().1
            == offset(code@, ternary(code@).unwrap().1),
{
    let chars = chars_of(code);
    match ternary_positions(&chars) {
        Some((q, c)) => Some((byte_offset(&chars, q), byte_offset(&chars, c))),
        None => None,
    }
}

/// Finds the `?` and the `:` of the first top-level conditional expression.
pub fn ternary_positions(chars: &[char]) -> (r: Option<(usize, usize)>)
    ensures
        r is Some == ternary(chars@) is Some,
        r is Some ==> ternary(chars@) == Some((r.unwrap().0 as int, r.unwrap().1 as int)),
        r is Some ==> r.unwrap().0 < r.unwrap().1 < chars@.len(),
{
    let len = chars.len();
    let mut i: usize = 0;
    let mut depth: i128 = 0;
    let mut question_pos: Option<usize> = None;
    proof {
        lemma_ternary(chars@);
    }
    while i < len
        invariant
            i <= len == chars@.len(),
            -i <= depth <= i,
            question_pos is Some ==> question_pos.unwrap() < i,
            ternary(chars@) == ternary_from(
                chars@,
                i as int,
                depth as int,
                match question_pos {
                    Some(q) => Some(q as int),
                    None => None,
                },
            ),
        decreases len - i,
    {
        let ch = chars[i];
        if quote(ch) {
            i = skip_literal(chars, i);
        } else if ch == '(' || ch == '[' {
            depth += 1;
            i += 1;
        } else if ch == ')' || ch == ']' {
            depth -= 1;
            i += 1;
        } else if ch == '?' && depth == 0 && question_pos.is_none() {
            if i + 1 < len && (chars[i + 1] == '>' || chars[i + 1] == '?' || chars[i + 1] == ':') {
                i += 2;
            } else {
                question_pos = Some(i);
                i += 1;
            }
        } else if ch == ':' && depth == 0 && question_pos.is_some() {
            if i + 1 < len && chars[i + 1] == ':' {
                i += 2;
            } else {
                return Some((question_pos.unwrap(), i));
            }
        } else {
            i += 1;
        }
    }
    None
}

/// Whether the word `function` begins at index `i` and a character follows it.
pub open spec fn function_at(s: Seq<char>, i: int) -> bool {
    0 <= i && i + 8 < s.len() && s.subrange(i, i + 8) == seq![
        'f',
        'u',
        'n',
        'c',
        't',
        'i',
        'o',
        'n',
    ]
}

/// The braces of the first closure body from index `i` on: the first `{`
/// behind a word `function` that no letter or digit precedes, and the brace
/// that closes it.
pub open spec fn closure_from(s: Seq<char>, i: int) -> Option<(int, int)>
    decreases s.len() - i,
{
    if i < 0 || i >= s.len() {
        None
    } else if function_at(s, i) && !(i > 0 && alphanumeric(s[i - 1])) {
        match index_of(s, '{', i + 8) {
            Some(j) => match closing(s, j, true) {
                Some(c) => Some((j, c)),
                None => closure_from(s, i + 1),
            },
            None => closure_from(s, i + 1),
        }
    } else {
        closure_from(s, i + 1)
    }
}

/// The braces of the first closure body in `s`.
pub open spec fn closure_body(s: Seq<char>) -> Option<(int, int)> {
    closure_from(s, 0)
}

pub proof fn lemma_index_of(s: Seq<char>, c: char, i: int)
    requires
        0 <= i,
    ensures
        index_of(s, c, i) is Some ==> i <= index_of(s, c, i).unwrap() < s.len() && s[index_of(
            s,
            c,
            i,
        ).unwrap()] == c,
    decreases s.len() - i,
{
    if i < s.len() && s[i] != c {
        lemma_index_of(s, c, i + 1);
    }
}

pub proof fn lemma_closure_from(s: Seq<char>, i: int)
    requires
        0 <= i,
    ensures
        closure_from(s, i) is Some ==> {
            let r = closure_from(s, i).unwrap();
            0 <= r.0 < r.1 < s.len()
        },
    decreases s.len() - i,
{
    if i < s.len() {
        if function_at(s, i) && !(i > 0 && alphanumeric(s[i - 1])) {
            lemma_index_of(s, '{', i + 8);
            match index_of(s, '{', i + 8) {
                Some(j) => {
                    lemma_closing(s, j, true);
                    if closing(s, j, true) is None {
                        lemma_closure_from(s, i + 1);
                    }
                },
                None => {
                    lemma_closure_from(s, i + 1);
                },
            }
        } else {
            lemma_closure_from(s, i + 1);
        }
    }
}

fn position_from(s: &[char], c: char, from: usize) -> (r: Option<usize>)
    ensures
        r is Some == index_of(s@, c, from as int) is Some,
        r is Some ==> index_of(s@, c, from as int) == Some(r.unwrap() as int) && from
            <= r.unwrap() < s@.len() && s@[r.unwrap() as int] == c,
{
    let mut i: usize = from;
    while i < s.len()
        invariant
            from <= i,
            index_of(s@, c, from as int) == index_of(s@, c, i as int),
        decreases s.len() - i,
    {
        if s[i] == c {
            return Some(i);
        }
        i += 1;
    }
    None
}

fn function_word_at(chars: &[char], i: usize) -> (b: bool)
    requires
        i < chars@.len(),
    ensures
        b == function_at(chars@, i as int),
{
    let len = chars.len();
    if len - i <= 8 {
        return false;
    }
    let word = ['f', 'u', 'n', 'c', 't', 'i', 'o', 'n'];
    assert(word@ =~= seq!['f', 'u', 'n', 'c', 't', 'i', 'o', 'n']);
    crate::text::matches_at(chars, &word, i)
}

/// Finds the braces of the first closure body. The indices count characters.
pub fn find_closure_body(code: &str) -> (r: Option<(usize, usize)>)
    ensures
        r is Some == closure_body(code@) is Some,
        r is Some ==> closure_body(code@) == Some((r.unwrap().0 as int, r.unwrap().1 as int)),
        r is Some ==> r.unwrap().0 < r.unwrap().1 < code@.len(),
{
    let chars = chars_of(code);
    closure_braces(&chars)
}

/// Finds the braces of the first closure body.
pub fn closure_braces(chars: &[char]) -> (r: Option<(usize, usize)>)
    ensures
        r is Some == closure_body(chars@) is Some,
        r is Some ==> closure_body(chars@) == Some((r.unwrap().0 as int, r.unwrap().1 as int)),
        r is Some ==> r.unwrap().0 < r.unwrap().1 < chars@.len(),
{
    let len = chars.len();
    let mut i: usize = 0;
    proof {
        lemma_closure_from(chars@, 0);
    }
    while i < len
        invariant
            i <= len == chars@.len(),
            closure_body(chars@) == closure_from(chars@, i as int),
        decreases len - i,
    {
        if function_word_at(chars, i) && !(i > 0 && crate::text::is_letter_or_digit(chars[i - 1])) {
            if let Some(j) = position_from(chars, '{', i + 8) {
                if let Some(close) = matching_close(chars, j, true) {
                    proof {
                        lemma_closing(chars@, j as int, true);
                    }
                    return Some((j, close));
                }
            }
        }
        i += 1;
    }
    None
}

/// The first `{` from index `i` on, outside quoted literals, that a brace
/// closes, and that brace.
pub open spec fn brace_from(s: Seq<char>, i: int) -> Option<(int, int)>
    decreases s.len() - i,
{
    if i < 0 || i >= s.len() {
        None
    } else if is_quote(s[i]) {
        proof {
            lemma_literal_end(s, i);
        }
        brace_from(s, literal_end(s, i))
    } else if s[i] == '{' && closing(s, i, true) is Some {
        Some((i, closing(s, i, true).unwrap()))
    } else {
        brace_from(s, i + 1)
    }
}

/// The first block in braces of `s`.
pub open spec fn brace_block(s: Seq<char>) -> Option<(int, int)> {
    brace_from(s, 0)
}

pub proof fn lemma_brace_from(s: Seq<char>, i: int)
    requires
        0 <= i,
    ensures
        brace_from(s, i) is Some ==> {
            let r = brace_from(s, i).unwrap();
            0 <= r.0 < r.1 < s.len()
        },
    decreases s.len() - i,
{
    if i < s.len() {
        if is_quote(s[i]) {
            lemma_literal_end(s, i);
            lemma_brace_from(s, literal_end(s, i));
        } else if s[i] == '{' && closing(s, i, true) is Some {
            lemma_closing(s, i, true);
        } else {
            lemma_brace_from(s, i + 1);
        }
    }
}

/// Finds the first block in braces. The indices count characters.
pub fn find_brace_block(code: &str) -> (r: Option<(usize, usize)>)
    ensures
        r is Some == brace_block(code@) is Some,
        r is Some ==> brace_block(code@) == Some((r.unwrap().0 as int, r.unwrap().1 as int)),
        r is Some ==> r.unwrap().0 < r.unwrap().1 < code@.len(),
{
    let chars = chars_of(code);
    braces(&chars)
}

/// Finds the first block in braces.
pub fn braces(chars: &[char]) -> (r: Option<(usize, usize)>)
    ensures
        r is Some == brace_block(chars@) is Some,
        r is Some ==> brace_block(chars@) == Some((r.unwrap().0 as int, r.unwrap().1 as int)),
        r is Some ==> r.unwrap().0 < r.unwrap().1 < chars@.len(),
{
    let len = chars.len();
    let mut i: usize = 0;
    proof {
        lemma_brace_from(chars@, 0);
    }
    while i < len
        invariant
            i <= len == chars@.len(),
            brace_block(chars@) == brace_from(chars@, i as int),
        decreases len - i,
    {
        if quote(chars[i]) {
            i = skip_literal(chars, i);
        } else {
            if chars[i] == '{' {
                if let Some(close) = matching_close(chars, i, true) {
                    proof {
                        lemma_closing(chars@, i as int, true);
                    }
                    return Some((i, close));
                }
            }
            i += 1;
        }
    }
    None
}

/// Where the key of `s` ends: behind the quoted literal that `s` begins with,
/// or at the start where it begins with none.
pub open spec fn key_end(s: Seq<char>) -> int {
    if s.len() > 0 && is_quote(s[0]) {
        literal_end(s, 0)
    } else {
        0
    }
}

/// The arrow of a keyed value: where the key ends, and how far behind that
/// the first `=>` stands.
pub open spec fn array_arrow(s: Seq<char>) -> Option<(int, int)> {
    let k = key_end(s);
    match first_occurrence(s.subrange(k, s.len() as int), seq!['=', '>'], 0) {
        Some(a) => Some((k, a)),
        None => None,
    }
}

/// Finds the arrow of a keyed value: the number of bytes of the quoted
/// literal that the text begins with, and the number of bytes that stand
/// between that literal and the first `=>` behind it.
pub fn find_array_arrow(arg: &str) -> (r: Option<(usize, usize)>)
    ensures
        r is Some == array_arrow(arg@) is Some,
        r is Some ==> r.unwrap().0 == offset(arg@, array_arrow(arg@).unwrap().0) && r.unwrap().1
            == width(
            arg@.subrange(
                array_arrow(arg@).unwrap().0,
                array_arrow(arg@).unwrap().0 + array_arrow(arg@).unwrap().1,
            ),
        ),
{
    let chars = chars_of(arg);
    match arrow(&chars) {
        Some((skip, at)) => {
            let before = byte_offset(&chars, skip);
            let between = width_of(string_of(slice_subrange(&chars, skip, skip + at)).as_str());
            Some((before, between))
        },
        None => None,
    }
}

/// Finds the arrow of a keyed value.
pub fn arrow(chars: &[char]) -> (r: Option<(usize, usize)>)
    ensures
        r is Some == array_arrow(chars@) is Some,
        r is Some ==> array_arrow(chars@) == Some((r.unwrap().0 as int, r.unwrap().1 as int)),
        r is Some ==> r.unwrap().0 + r.unwrap().1 + 2 <= chars@.len(),
{
    let len = chars.len();
    let mut i: usize = 0;
    if len > 0 && quote(chars[0]) {
        i = skip_literal(chars, 0);
    }
    let pattern = ['=', '>'];
    assert(pattern@ =~= seq!['=', '>']);
    match find(slice_subrange(chars, i, len), &pattern) {
        Some(a) => Some((i, a)),
        None => None,
    }
}

/// The statements of a closure body from index `i` on. A statement ends with
/// a `;` outside brackets and braces, or with the `}` that closes a block.
pub open spec fn body_from(
    s: Seq<char>,
    i: int,
    brace: int,
    paren: int,
    cur: Seq<char>,
    stmts: Seq<Seq<char>>,
) -> Seq<Seq<char>>
    decreases s.len() - i,
{
    if i < 0 || i >= s.len() {
        with_statement(stmts, cur)
    } else if is_quote(s[i]) {
        proof {
            lemma_literal_end(s, i);
        }
        body_from(s, literal_end(s, i), brace, paren, cur + s.subrange(i, literal_end(s, i)), stmts)
    } else if s[i] == '(' {
        body_from(s, i + 1, brace, paren + 1, cur.push(s[i]), stmts)
    } else if s[i] == ')' {
        body_from(s, i + 1, brace, paren - 1, cur.push(s[i]), stmts)
    } else if s[i] == '{' {
        body_from(s, i + 1, brace + 1, paren, cur.push(s[i]), stmts)
    } else if s[i] == '}' && brace > 0 {
        if brace == 1 {
            body_from(s, i + 1, 0, paren, Seq::empty(), with_statement(stmts, cur.push(s[i])))
        } else {
            body_from(s, i + 1, brace - 1, paren, cur.push(s[i]), stmts)
        }
    } else if s[i] == ';' && brace == 0 && paren <= 0 {
        body_from(s, i + 1, brace, paren, Seq::empty(), with_statement(stmts, cur.push(s[i])))
    } else {
        body_from(s, i + 1, brace, paren, cur.push(s[i]), stmts)
    }
}

/// `stmts` with the trimmed text of `cur` behind them, unless `cur` is blank.
pub open spec fn with_statement(stmts: Seq<Seq<char>>, cur: Seq<char>) -> Seq<Seq<char>> {
    if trim(cur).len() > 0 {
        stmts.push(trim(cur))
    } else {
        stmts
    }
}

/// The statements of a closure body.
pub open spec fn body_statements(s: Seq<char>) -> Seq<Seq<char>> {
    body_from(s, 0, 0, 0, Seq::empty(), Seq::empty())
}

fn push_statement(statements: &mut Vec<String>, current: &Vec<char>)
    ensures
        texts(final(statements)@) == with_statement(texts(old(statements)@), current@),
{
    let trimmed = trim_of(current);
    if trimmed.len() > 0 {
        let st = string_of(trimmed);
        proof {
            lemma_texts_push(statements@, st);
        }
        statements.push(st);
    }
}

/// Cuts a closure body into its statements.
pub fn normalize_closure_body(body: &str) -> (r: Vec<String>)
    ensures
        texts(r@) == body_statements(body@),
{
    let chars = chars_of(body);
    closure_statements(&chars)
}

/// Cuts a closure body into its statements.
pub fn closure_statements(chars: &[char]) -> (r: Vec<String>)
    ensures
        texts(r@) == body_statements(chars@),
{
    let len = chars.len();
    let mut statements: Vec<String> = Vec::new();
    let mut current: Vec<char> = Vec::new();
    let mut i: usize = 0;
    let mut brace_depth: i128 = 0;
    let mut paren_depth: i128 = 0;
    proof {
        lemma_texts_empty();
    }
    while i < len
        invariant
            i <= len == chars@.len(),
            -i <= paren_depth <= i,
            0 <= brace_depth <= i,
            body_from(
                chars@,
                i as int,
                brace_depth as int,
                paren_depth as int,
                current@,
                texts(statements@),
            ) == body_statements(chars@),
        decreases len - i,
    {
        let ch = chars[i];
        if quote(ch) {
            let e = skip_literal(chars, i);
            append_chars(&mut current, slice_subrange(chars, i, e));
            i = e;
        } else if ch == '(' {
            paren_depth += 1;
            current.push(ch);
            i += 1;
        } else if ch == ')' {
            paren_depth -= 1;
            current.push(ch);
            i += 1;
        } else if ch == '{' {
            brace_depth += 1;
            current.push(ch);
            i += 1;
        } else if ch == '}' && brace_depth > 0 {
            brace_depth -= 1;
            current.push(ch);
            if brace_depth == 0 {
                push_statement(&mut statements, &current);
                current = Vec::new();
            }
            i += 1;
        } else {
            current.push(ch);
            if ch == ';' && brace_depth == 0 && paren_depth <= 0 {
                push_statement(&mut statements, &current);
                current = Vec::new();
            }
            i += 1;
        }
    }
    push_statement(&mut statements, &current);
    statements
}

/// The length of the longest item of `items`.
pub open spec fn max_len(items: Seq<Seq<char>>) -> nat
    decreases items.len(),
{
    if items.len() == 0 {
        0
    } else if items.last().len() > max_len(items.drop_last()) {
        items.last().len()
    } else {
        max_len(items.drop_last())
    }
}

pub proof fn lemma_max_len_push(items: Seq<Seq<char>>, x: Seq<char>)
    ensures
        max_len(items.push(x)) == if x.len() > max_len(items) {
            x.len()
        } else {
            max_len(items)
        },
{
    assert(items.push(x).drop_last() =~= items);
}

pub proof fn lemma_max_len(items: Seq<Seq<char>>, k: int)
    requires
        0 <= k < items.len(),
    ensures
        items[k].len() <= max_len(items),
    decreases items.len(),
{
    if k < items.len() - 1 {
        lemma_max_len(items.drop_last(), k);
    }
}

pub proof fn lemma_commas_from(
    s: Seq<char>,
    i: int,
    depth: int,
    cur: Seq<char>,
    items: Seq<Seq<char>>,
)
    requires
        0 <= i <= s.len(),
        cur.len() <= i,
        max_len(items) <= s.len(),
    ensures
        max_len(commas_from(s, i, depth, cur, items)) <= s.len(),
    decreases s.len() - i,
{
    lemma_trim_len(cur);
    lemma_max_len_push(items, trim(cur));
    if i < s.len() {
        if is_quote(s[i]) {
            lemma_literal_end(s, i);
            lemma_commas_from(
                s,
                literal_end(s, i),
                depth,
                cur + s.subrange(i, literal_end(s, i)),
                items,
            );
        } else if step(s[i]) == 0 && s[i] == ',' && depth == 0 {
            lemma_commas_from(s, i + 1, depth, Seq::empty(), items.push(trim(cur)));
        } else {
            lemma_commas_from(s, i + 1, depth + step(s[i]), cur.push(s[i]), items);
        }
    }
}

/// No item of a list is longer than the list.
pub proof fn lemma_commas_max(s: Seq<char>)
    ensures
        max_len(commas(s)) <= s.len(),
{
    lemma_commas_from(s, 0, 0, Seq::empty(), Seq::empty());
}

pub proof fn lemma_body_from(
    s: Seq<char>,
    i: int,
    brace: int,
    paren: int,
    cur: Seq<char>,
    stmts: Seq<Seq<char>>,
)
    requires
        0 <= i <= s.len(),
        cur.len() <= i,
        max_len(stmts) <= s.len(),
    ensures
        max_len(body_from(s, i, brace, paren, cur, stmts)) <= s.len(),
    decreases s.len() - i,
{
    lemma_trim_len(cur);
    lemma_max_len_push(stmts, trim(cur));
    if i < s.len() {
        lemma_trim_len(cur.push(s[i]));
        lemma_max_len_push(stmts, trim(cur.push(s[i])));
        if is_quote(s[i]) {
            lemma_literal_end(s, i);
            lemma_body_from(
                s,
                literal_end(s, i),
                brace,
                paren,
                cur + s.subrange(i, literal_end(s, i)),
                stmts,
            );
        } else if s[i] == '(' {
            lemma_body_from(s, i + 1, brace, paren + 1, cur.push(s[i]), stmts);
        } else if s[i] == ')' {
            lemma_body_from(s, i + 1, brace, paren - 1, cur.push(s[i]), stmts);
        } else if s[i] == '{' {
            lemma_body_from(s, i + 1, brace + 1, paren, cur.push(s[i]), stmts);
        } else if s[i] == '}' && brace > 0 {
            if brace == 1 {
                lemma_body_from(
                    s,
                    i + 1,
                    0,
                    paren,
                    Seq::empty(),
                    with_statement(stmts, cur.push(s[i])),
                );
            } else {
                lemma_body_from(s, i + 1, brace - 1, paren, cur.push(s[i]), stmts);
            }
        } else if s[i] == ';' && brace == 0 && paren <= 0 {
            lemma_body_from(
                s,
                i + 1,
                brace,
                paren,
                Seq::empty(),
                with_statement(stmts, cur.push(s[i])),
            );
        } else {
            lemma_body_from(s, i + 1, brace, paren, cur.push(s[i]), stmts);
        }
    }
}

/// No statement of a closure body is longer than the body.
pub proof fn lemma_body_max(s: Seq<char>)
    ensures
        max_len(body_statements(s)) <= s.len(),
{
    lemma_body_from(s, 0, 0, 0, Seq::empty(), Seq::empty());
}

/// Each argument of a call is shorter than the call.
pub proof fn lemma_call_parts(s: Seq<char>)
    ensures
        call_parts(s) is Some ==> max_len(call_parts(s).unwrap().1) + call_parts(
            s,
        ).unwrap().2.len() < s.len(),
{
    lemma_index_of(s, '(', 0);
    if index_of(s, '(', 0) is Some {
        let open = index_of(s, '(', 0).unwrap();
        lemma_closing(s, open, false);
        if closing(s, open, false) is Some {
            let close = closing(s, open, false).unwrap();
            lemma_commas_max(s.subrange(open + 1, close));
        }
    }
}

/// The text that is tried for one item of a list that is written out over
/// several lines: in order, the ways in which a wide item is broken further.
#[derive(Clone, Copy)]
pub enum Style {
    /// An argument of a call: a wide one is broken as a keyed list, a list, a
    /// closure or a line.
    Argument,
    /// The single item of a list: a wide one is broken as a keyed list or a
    /// line.
    Lone,
    /// An item of a list inside a list: a wide one is broken as a keyed list,
    /// a list, a closure or a line.
    SubItem,
    /// An item of a list that is an argument, or of the list under a key: a
    /// wide one is broken as a keyed list, a list, a closure or a line; a
    /// list of several items is always written out.
    Value,
    /// An item of the last argument of an echo: a wide one is broken as a
    /// keyed list, a list or a line.
    EchoItem,
    /// An argument of an echo: a wide one is broken as a keyed list, a list
    /// or a line.
    EchoArg,
    /// A statement of a block: a wide one is broken as a line.
    BlockStatement,
    /// A statement of a closure: one with a block is written out; a wide one
    /// is broken as a line.
    ClosureStatement,
}

/// `pad` and one more level of indentation.
pub open spec fn deeper(pad: Seq<char>) -> Seq<char> {
    pad + INDENT@
}

/// Whether `item` with a comma behind it is too wide for a line behind `pad`.
pub open spec fn over(pad: Seq<char>, item: Seq<char>) -> bool {
    width(pad) + width(item) + 1 > MAX_LINE_LENGTH
}

/// Whether `item` is too wide for a line behind `pad`.
pub open spec fn wide(pad: Seq<char>, item: Seq<char>) -> bool {
    width(pad) + width(item) > MAX_LINE_LENGTH
}

/// Whether `item` is too wide for a line behind `pad` on which `lead`
/// columns stand before it and `trail` columns behind it.
pub open spec fn crowded(pad: Seq<char>, lead: nat, item: Seq<char>, trail: nat) -> bool {
    width(pad) + lead + width(item) + trail > MAX_LINE_LENGTH
}

/// Whether `s` stands in square brackets.
pub open spec fn is_list(s: Seq<char>) -> bool {
    first_is(s, '[') && last_is(s, ']')
}

/// What stands between the first and the last character of `s`.
pub open spec fn inside(s: Seq<char>) -> Seq<char> {
    s.subrange(1, s.len() - 1)
}

/// The lines of a broken item with a comma behind the last one.
pub open spec fn comma_ended(x: Seq<char>) -> Seq<char> {
    strip_trailing(x, '\n') + ",\n"@
}

/// `s` without `p` at its start, where it starts with `p`.
pub open spec fn without_prefix(s: Seq<char>, p: Seq<char>) -> Seq<char> {
    if p.is_prefix_of(s) {
        s.subrange(p.len() as int, s.len() as int)
    } else {
        s
    }
}

/// The lines of `rows` from index `k` on that are not blank, each with a line
/// feed behind it.
pub open spec fn kept_lines(rows: Seq<Seq<char>>, k: int) -> Seq<char>
    decreases rows.len() - k,
{
    if k < 0 || k >= rows.len() {
        Seq::empty()
    } else if blank(rows[k]) {
        kept_lines(rows, k + 1)
    } else {
        rows[k] + "\n"@ + kept_lines(rows, k + 1)
    }
}

/// One item on a line of its own behind `pad`, with a comma.
pub open spec fn plain(item: Seq<char>, pad: Seq<char>) -> Seq<char> {
    pad + item + ",\n"@
}

/// A value of a conditional expression behind its marker: on one line where
/// that fits, and else broken as a line, with the marker before its first
/// line.
pub open spec fn ternary_value(value: Seq<char>, pad: Seq<char>, marker: char) -> Seq<char> {
    value_in(value, pad, marker, 0)
}

/// A value of a conditional expression behind its marker, where `trail`
/// columns are still to stand behind its last line: on one line where that
/// fits, and else broken as a line, with the marker before its first line.
pub open spec fn value_in(value: Seq<char>, pad: Seq<char>, marker: char, trail: nat) -> Seq<
    char,
>
    decreases value.len(), 9int, 0int,
{
    let single = pad.push(marker) + " "@ + value + "\n"@;
    if !crowded(pad, 2, value, trail) {
        single
    } else {
        match break_in(value, pad, 2, trail) {
            Some(split) => {
                let rows = lines(split);
                if rows.len() > 0 {
                    pad.push(marker) + " "@ + trim_start(without_prefix(rows[0], pad)) + "\n"@
                        + kept_lines(rows, 1)
                } else {
                    single
                }
            },
            None => single,
        }
    }
}

/// A line that is too wide for what is left behind `pad`, broken into
/// several: at its conditional expression, else at the arguments of its
/// call, else at the items of the list that is its call's one argument, else
/// at the items of the list under its key. The condition and the values of
/// the conditional expression, the arguments of the call and what stands
/// behind them are broken in turn where they are too wide and can be broken.
/// There is none where the line fits or where none of these is found in it.
pub open spec fn split_line(s: Seq<char>, pad: Seq<char>) -> Option<Seq<char>>
    decreases s.len(), 8int, 0int,
{
    if !wide(pad, s) {
        None
    } else {
        break_in(s, pad, 0, 0)
    }
}

/// A line broken into several in the first way that is found in it, whatever
/// its width: at its conditional expression, else at the arguments of its
/// call, else at the items of the list that is its call's one argument, else
/// at the items of the list under its key, with or without a call in the
/// line. There is none where none of these is found in it.
pub open spec fn break_line(s: Seq<char>, pad: Seq<char>) -> Option<Seq<char>> {
    break_in(s, pad, 0, 0)
}

/// A line broken as `break_line` says, where `lead` columns are still to
/// stand before its first line and `trail` columns behind its last line: a
/// marker, a comma or a bracket. The parts that become the first and the last
/// line are measured with them.
pub open spec fn break_in(s: Seq<char>, pad: Seq<char>, lead: nat, trail: nat) -> Option<
    Seq<char>,
>
    decreases s.len(), 7int, 0int,
{
    if ternary(s) is Some {
        let q = ternary(s).unwrap().0;
        let c = ternary(s).unwrap().1;
        proof {
            lemma_ternary(s);
            crate::text::lemma_trim_end_len(s.subrange(0, q));
            lemma_trim_len(s.subrange(q + 1, c));
            lemma_trim_len(s.subrange(c + 1, s.len() as int));
        }
        Some(
            part_in(trim_end(s.subrange(0, q)), pad, lead, 0) + value_in(
                trim(s.subrange(q + 1, c)),
                deeper(pad),
                '?',
                0,
            ) + value_in(trim(s.subrange(c + 1, s.len() as int)), deeper(pad), ':', trail),
        )
    } else if call_parts(s) is Some {
        let parts = call_parts(s).unwrap();
        proof {
            lemma_call_parts(s);
        }
        Some(build_in(parts.0, parts.1, parts.2, pad, trail))
    } else if call_of_list(s) is Some {
        let open = call_of_list(s).unwrap().0;
        let close = call_of_list(s).unwrap().1;
        let inner = trim(s.subrange(open + 1, close));
        proof {
            reveal_strlit("]");
            lemma_index_of(s, '(', 0);
            lemma_closing(s, open, true);
            lemma_trim_len(s.subrange(open + 1, close));
            lemma_commas_max(inside(inner));
        }
        Some(
            build_in(
                s.subrange(0, open + 1) + "["@,
                commas(inside(inner)),
                "]"@ + s.subrange(close, s.len() as int),
                pad,
                trail,
            ),
        )
    } else {
        nested_in(s, pad, lead)
    }
}

/// The brackets of a call whose one argument is a list of several items:
/// the first `(` of the line and the bracket that closes it. There is none
/// where no `(` stands in the line, where nothing closes it, or where what
/// stands between them is no list of several items.
pub open spec fn call_of_list(s: Seq<char>) -> Option<(int, int)> {
    match index_of(s, '(', 0) {
        None => None,
        Some(open) => match closing(s, open, true) {
            None => None,
            Some(close) => if is_list(trim(s.subrange(open + 1, close))) && commas(
                inside(trim(s.subrange(open + 1, close))),
            ).len() > 1 {
                Some((open, close))
            } else {
                None
            },
        },
    }
}

/// A part of a line on lines of its own behind `pad`: broken where it is too
/// wide and can be broken, and else on one line.
pub open spec fn part_text(s: Seq<char>, pad: Seq<char>) -> Seq<char> {
    part_in(s, pad, 0, 0)
}

/// A part of a line on lines of its own behind `pad`, where `lead` columns
/// are still to stand before its first line and `trail` columns behind its
/// last line: broken where it is too wide with them and can be broken, and
/// else on one line.
pub open spec fn part_in(s: Seq<char>, pad: Seq<char>, lead: nat, trail: nat) -> Seq<char>
    decreases s.len(), 9int, 0int,
{
    if crowded(pad, lead, s, trail) && break_in(s, pad, lead, trail) is Some {
        break_in(s, pad, lead, trail).unwrap()
    } else {
        pad + s + "\n"@
    }
}

/// The first line of a list or a block that is written out: `head`, and
/// `tail` behind it. Where that is too wide and `head` can be broken, `head`
/// is broken and `tail` stands behind its last line.
pub open spec fn head_text(head: Seq<char>, tail: Seq<char>, pad: Seq<char>) -> Seq<char> {
    head_in(head, tail, pad, 0)
}

/// The first line of a list or a block as `head_text` says, where `lead`
/// columns are still to stand before it.
pub open spec fn head_in(head: Seq<char>, tail: Seq<char>, pad: Seq<char>, lead: nat) -> Seq<
    char,
>
    decreases head.len(), 9int, 0int,
{
    if crowded(pad, lead, head + tail, 0) && break_in(head, pad, lead, width(tail)) is Some {
        strip_trailing(break_in(head, pad, lead, width(tail)).unwrap(), '\n') + tail + "\n"@
    } else {
        pad + head + tail + "\n"@
    }
}

/// A call written out over several lines: what stands before the arguments,
/// each argument, and what stands behind them, which is broken in turn where
/// it is too wide and can be broken.
pub open spec fn build(
    prefix: Seq<char>,
    args: Seq<Seq<char>>,
    suffix: Seq<char>,
    pad: Seq<char>,
) -> Seq<char> {
    build_in(prefix, args, suffix, pad, 0)
}

/// A call written out as `build` says, where `trail` columns are still to
/// stand behind its last line.
pub open spec fn build_in(
    prefix: Seq<char>,
    args: Seq<Seq<char>>,
    suffix: Seq<char>,
    pad: Seq<char>,
    trail: nat,
) -> Seq<char>
    decreases max_len(args) + suffix.len() + 1, 1int, 0int,
{
    pad + prefix + "\n"@ + items_text(args, 0, deeper(pad), Style::Argument) + part_in(
        suffix,
        pad,
        0,
        trail,
    )
}

/// The items of `items` from index `k` on, each written as `style` says.
pub open spec fn items_text(items: Seq<Seq<char>>, k: int, pad: Seq<char>, style: Style) -> Seq<
    char,
>
    decreases max_len(items) + 1, 0int, items.len() - k,
{
    if k < 0 || k >= items.len() {
        Seq::empty()
    } else {
        proof {
            lemma_max_len(items, k);
        }
        item_text(items[k], pad, style) + items_text(items, k + 1, pad, style)
    }
}

/// One item of a list behind `pad`, written as `style` says: broken further
/// in the first way that applies, and else on a line of its own.
pub open spec fn item_text(item: Seq<char>, pad: Seq<char>, style: Style) -> Seq<char>
    decreases item.len(), 9int, 0int,
{
    match style {
        Style::Argument => {
            if over(pad, item) && nested_in(item, pad, 0) is Some {
                nested_in(item, pad, 0).unwrap()
            } else if over(pad, item) && bare_array(item, pad) is Some {
                bare_array(item, pad).unwrap()
            } else if over(pad, item) && inline_closure(item, pad) is Some {
                inline_closure(item, pad).unwrap()
            } else if over(pad, item) && break_in(item, pad, 0, 1) is Some {
                comma_ended(break_in(item, pad, 0, 1).unwrap())
            } else {
                plain(item, pad)
            }
        },
        Style::Lone => {
            if over(pad, item) && nested_in(item, pad, 0) is Some {
                nested_in(item, pad, 0).unwrap()
            } else if over(pad, item) && break_in(item, pad, 0, 1) is Some {
                comma_ended(break_in(item, pad, 0, 1).unwrap())
            } else {
                plain(item, pad)
            }
        },
        Style::SubItem => {
            if over(pad, item) && nested_in(item, pad, 0) is Some {
                nested_in(item, pad, 0).unwrap()
            } else if over(pad, item) && bare_sub_array(item, pad) is Some {
                bare_sub_array(item, pad).unwrap()
            } else if over(pad, item) && inline_closure(item, pad) is Some {
                inline_closure(item, pad).unwrap()
            } else if over(pad, item) && break_in(item, pad, 0, 1) is Some {
                comma_ended(break_in(item, pad, 0, 1).unwrap())
            } else {
                plain(item, pad)
            }
        },
        Style::Value => {
            if over(pad, item) && nested_in(item, pad, 0) is Some {
                nested_in(item, pad, 0).unwrap()
            } else if over(pad, item) && bare_sub_array(item, pad) is Some {
                bare_sub_array(item, pad).unwrap()
            } else if over(pad, item) && inline_closure(item, pad) is Some {
                inline_closure(item, pad).unwrap()
            } else if over(pad, item) && break_in(item, pad, 0, 1) is Some {
                comma_ended(break_in(item, pad, 0, 1).unwrap())
            } else if bare_sub_array(item, pad) is Some {
                bare_sub_array(item, pad).unwrap()
            } else {
                plain(item, pad)
            }
        },
        Style::EchoItem => {
            if over(pad, item) && nested_in(item, pad, 0) is Some {
                nested_in(item, pad, 0).unwrap()
            } else if over(pad, item) && bare_sub_array(item, pad) is Some {
                bare_sub_array(item, pad).unwrap()
            } else if over(pad, item) && break_in(item, pad, 0, 1) is Some {
                comma_ended(break_in(item, pad, 0, 1).unwrap())
            } else {
                plain(item, pad)
            }
        },
        Style::EchoArg => {
            if over(pad, item) && nested_in(item, pad, 0) is Some {
                nested_in(item, pad, 0).unwrap()
            } else if over(pad, item) && bare_array(item, pad) is Some {
                bare_array(item, pad).unwrap()
            } else if over(pad, item) && break_in(item, pad, 0, 1) is Some {
                comma_ended(break_in(item, pad, 0, 1).unwrap())
            } else {
                plain(item, pad)
            }
        },
        Style::BlockStatement => {
            if wide(pad, item) && split_line(item, pad) is Some {
                split_line(item, pad).unwrap()
            } else {
                pad + item + "\n"@
            }
        },
        Style::ClosureStatement => {
            if brace_text(item, pad) is Some {
                brace_text(item, pad).unwrap()
            } else if wide(pad, item) && split_line(item, pad) is Some {
                split_line(item, pad).unwrap()
            } else {
                pad + item + "\n"@
            }
        },
    }
}

/// A list written out item by item. There is none where `arg`, trimmed, does
/// not stand in square brackets, where the list is empty, or where its only
/// item fits one line.
pub open spec fn bare_array(arg: Seq<char>, pad: Seq<char>) -> Option<Seq<char>>
    decreases arg.len(), 5int, 0int,
{
    let t = trim(arg);
    if !is_list(t) {
        None
    } else {
        let items = commas(inside(t));
        proof {
            lemma_trim_len(arg);
            lemma_commas_max(inside(t));
            if items.len() > 0 {
                lemma_max_len(items, 0);
            }
        }
        if items.len() == 0 {
            None
        } else if items.len() == 1 {
            if over(deeper(pad), items[0]) {
                Some(pad + "[\n"@ + item_text(items[0], deeper(pad), Style::Lone) + pad + "],\n"@)
            } else {
                None
            }
        } else {
            Some(pad + "[\n"@ + items_text(items, 0, deeper(pad), Style::Value) + pad + "],\n"@)
        }
    }
}

/// A list inside a list written out item by item. There is none where `item`
/// does not stand in square brackets or holds fewer than two items.
pub open spec fn bare_sub_array(item: Seq<char>, pad: Seq<char>) -> Option<Seq<char>>
    decreases item.len(), 5int, 0int,
{
    if !is_list(item) {
        None
    } else {
        let items = commas(inside(item));
        proof {
            lemma_commas_max(inside(item));
        }
        if items.len() <= 1 {
            None
        } else {
            Some(pad + "[\n"@ + items_text(items, 0, deeper(pad), Style::SubItem) + pad + "],\n"@)
        }
    }
}

/// Where the value of a keyed item begins: behind its arrow.
pub open spec fn value_start(arg: Seq<char>) -> int {
    array_arrow(arg).unwrap().0 + array_arrow(arg).unwrap().1 + 2
}

pub proof fn lemma_array_arrow(s: Seq<char>)
    ensures
        array_arrow(s) is Some ==> 2 <= value_start(s) <= s.len(),
{
    let k = key_end(s);
    if s.len() > 0 && is_quote(s[0]) {
        lemma_literal_end(s, 0);
    }
    lemma_first_occurrence(s.subrange(k, s.len() as int), seq!['=', '>'], 0);
}

pub proof fn lemma_first_occurrence(s: Seq<char>, p: Seq<char>, from: int)
    requires
        0 <= from,
    ensures
        first_occurrence(s, p, from) is Some ==> from <= first_occurrence(s, p, from).unwrap()
            && first_occurrence(s, p, from).unwrap() + p.len() <= s.len(),
    decreases s.len() - from,
{
    if from + p.len() <= s.len() && !occurs_at(s, p, from) && from < s.len() {
        lemma_first_occurrence(s, p, from + 1);
    }
}

/// The list under a key written out item by item. There is none where `arg`
/// holds no `=>`, where what follows the arrow does not stand in square
/// brackets, or where that list holds fewer than two items.
pub open spec fn nested(arg: Seq<char>, pad: Seq<char>) -> Option<Seq<char>> {
    nested_in(arg, pad, 0)
}

/// The list under a key written out as `nested` says, where `lead` columns
/// are still to stand before its first line.
pub open spec fn nested_in(arg: Seq<char>, pad: Seq<char>, lead: nat) -> Option<Seq<char>>
    decreases arg.len(), 5int, 0int,
{
    if array_arrow(arg) is None {
        None
    } else {
        let at = value_start(arg);
        let value = trim(arg.subrange(at, arg.len() as int));
        proof {
            lemma_array_arrow(arg);
            lemma_trim_len(arg.subrange(at, arg.len() as int));
            if is_list(value) {
                lemma_commas_max(inside(value));
            }
        }
        if !is_list(value) {
            None
        } else if commas(inside(value)).len() <= 1 {
            None
        } else {
            Some(
                head_in(arg.subrange(0, at), " ["@, pad, lead) + items_text(
                    commas(inside(value)),
                    0,
                    deeper(pad),
                    Style::Value,
                ) + pad + "],\n"@,
            )
        }
    }
}

/// A closure written out statement by statement. There is none where `arg`
/// holds no closure body or the body holds fewer than two statements.
pub open spec fn inline_closure(arg: Seq<char>, pad: Seq<char>) -> Option<Seq<char>>
    decreases arg.len(), 5int, 0int,
{
    if closure_body(arg) is None {
        None
    } else {
        let open = closure_body(arg).unwrap().0;
        let close = closure_body(arg).unwrap().1;
        let stmts = body_statements(arg.subrange(open + 1, close));
        let after = trim_start(arg.subrange(close + 1, arg.len() as int));
        proof {
            reveal_strlit("}");
            lemma_closure_from(arg, 0);
            lemma_body_max(arg.subrange(open + 1, close));
            crate::text::lemma_trim_end_len(arg.subrange(0, open));
            crate::text::lemma_trim_start_len(arg.subrange(close + 1, arg.len() as int));
        }
        if stmts.len() <= 1 {
            None
        } else {
            Some(
                head_in(trim_end(arg.subrange(0, open)), " {"@, pad, 0) + items_text(
                    stmts,
                    0,
                    deeper(pad),
                    Style::ClosureStatement,
                ) + if after.len() == 0 {
                    pad + "},\n"@
                } else {
                    part_in("}"@ + after, pad, 0, 0)
                },
            )
        }
    }
}

/// A statement with a block written out statement by statement. There is none
/// where `stmt` holds no block in braces or the block is empty.
pub open spec fn brace_text(stmt: Seq<char>, pad: Seq<char>) -> Option<Seq<char>>
    decreases stmt.len(), 5int, 0int,
{
    if brace_block(stmt) is None {
        None
    } else {
        let open = brace_block(stmt).unwrap().0;
        let close = brace_block(stmt).unwrap().1;
        let body = trim(stmt.subrange(open + 1, close));
        let after = trim(stmt.subrange(close + 1, stmt.len() as int));
        proof {
            reveal_strlit("} ");
            lemma_brace_from(stmt, 0);
            lemma_trim_len(stmt.subrange(open + 1, close));
            lemma_trim_len(stmt.subrange(close + 1, stmt.len() as int));
            crate::text::lemma_trim_end_len(stmt.subrange(0, open));
            lemma_body_max(body);
        }
        if body.len() == 0 || body_statements(body).len() == 0 {
            None
        } else {
            Some(
                head_in(trim_end(stmt.subrange(0, open)), " {"@, pad, 0) + items_text(
                    body_statements(body),
                    0,
                    deeper(pad),
                    Style::BlockStatement,
                ) + if after.len() == 0 {
                    pad + "}\n"@
                } else {
                    part_in("} "@ + after, pad, 0, 0)
                },
            )
        }
    }
}

/// Whether a result holds the text that is owed, or none where none is owed.
pub open spec fn agrees(r: Option<String>, owed: Option<Seq<char>>) -> bool {
    match r {
        Some(x) => owed == Some(x@),
        None => owed is None,
    }
}

/// `pad` and one more level of indentation.
pub fn deeper_pad(pad: &str) -> (r: String)
    ensures
        r@ == deeper(pad@),
{
    let mut r = String::from_str(pad);
    r.append(INDENT);
    r
}

/// Whether `item` with a comma behind it is too wide for a line behind `pad`.
pub fn is_over(pad: &str, item: &str) -> (b: bool)
    ensures
        b == over(pad@, item@),
{
    exceeds(width_of(pad), width_of(item), 1, MAX_LINE_LENGTH)
}

/// Whether `item` is too wide for a line behind `pad`.
pub fn is_wide(pad: &str, item: &str) -> (b: bool)
    ensures
        b == wide(pad@, item@),
{
    exceeds(width_of(pad), width_of(item), 0, MAX_LINE_LENGTH)
}

/// Whether `item` is too wide for a line behind `pad` on which `lead`
/// columns stand before it and `trail` columns behind it.
pub fn is_crowded(pad: &str, lead: usize, item: &str, trail: usize) -> (b: bool)
    ensures
        b == crowded(pad@, lead as nat, item@, trail as nat),
{
    let a = width_of(pad);
    let w = width_of(item);
    a > MAX_LINE_LENGTH || lead > MAX_LINE_LENGTH - a || w > MAX_LINE_LENGTH - a - lead || trail
        > MAX_LINE_LENGTH - a - lead - w
}

fn comma_end(split: &str) -> (r: String)
    ensures
        r@ == comma_ended(split@),
{
    let chars = chars_of(split);
    let mut r = string_of(strip_trailing_of(&chars, '\n'));
    r.append(",\n");
    r
}

fn plain_line(item: &str, pad: &str) -> (r: String)
    ensures
        r@ == plain(item@, pad@),
{
    let mut r = String::from_str(pad);
    r.append(item);
    r.append(",\n");
    r
}

fn statement_line(item: &str, pad: &str) -> (r: String)
    ensures
        r@ == pad@ + item@ + "\n"@,
{
    let mut r = String::from_str(pad);
    r.append(item);
    r.append("\n");
    r
}

fn kept(rows: &Vec<String>, from: usize) -> (r: String)
    ensures
        r@ == kept_lines(texts(rows@), from as int),
{
    let mut r = String::new();
    let mut k: usize = from;
    while k < rows.len()
        invariant
            from <= k,
            r@ + kept_lines(texts(rows@), k as int) == kept_lines(texts(rows@), from as int),
        decreases rows.len() - k,
    {
        let ghost prev = r@;
        let row = chars_of(rows[k].as_str());
        if !is_blank(&row) {
            r.append(rows[k].as_str());
            r.append("\n");
        }
        assert(r@ + kept_lines(texts(rows@), k + 1) =~= prev + kept_lines(
            texts(rows@),
            k as int,
        ));
        k += 1;
    }
    assert(r@ + kept_lines(texts(rows@), k as int) =~= r@);
    r
}

/// Writes one item of a list behind `pad`, as `style` says.
pub fn emit_item(item: &str, pad: &str, style: Style) -> (r: String)
    ensures
        r@ == item_text(item@, pad@, style),
    decreases item@.len(), 9int, 0int,
{
    match style {
        Style::Argument => {
            if is_over(pad, item) {
                if let Some(x) = emit_nested(item, pad, 0) {
                    return x;
                }
                if let Some(x) = expand_bare_array(item, pad) {
                    return x;
                }
                if let Some(x) = expand_inline_closure(item, pad) {
                    return x;
                }
                if let Some(x) = emit_break(item, pad, 0, 1) {
                    return comma_end(x.as_str());
                }
            }
            plain_line(item, pad)
        },
        Style::Lone => {
            if is_over(pad, item) {
                if let Some(x) = emit_nested(item, pad, 0) {
                    return x;
                }
                if let Some(x) = emit_break(item, pad, 0, 1) {
                    return comma_end(x.as_str());
                }
            }
            plain_line(item, pad)
        },
        Style::SubItem => {
            if is_over(pad, item) {
                if let Some(x) = emit_nested(item, pad, 0) {
                    return x;
                }
                if let Some(x) = expand_bare_sub_array(item, pad) {
                    return x;
                }
                if let Some(x) = expand_inline_closure(item, pad) {
                    return x;
                }
                if let Some(x) = emit_break(item, pad, 0, 1) {
                    return comma_end(x.as_str());
                }
            }
            plain_line(item, pad)
        },
        Style::Value => {
            if is_over(pad, item) {
                if let Some(x) = emit_nested(item, pad, 0) {
                    return x;
                }
                if let Some(x) = expand_bare_sub_array(item, pad) {
                    return x;
                }
                if let Some(x) = expand_inline_closure(item, pad) {
                    return x;
                }
                if let Some(x) = emit_break(item, pad, 0, 1) {
                    return comma_end(x.as_str());
                }
            }
            if let Some(x) = expand_bare_sub_array(item, pad) {
                return x;
            }
            plain_line(item, pad)
        },
        Style::EchoItem => {
            if is_over(pad, item) {
                if let Some(x) = emit_nested(item, pad, 0) {
                    return x;
                }
                if let Some(x) = expand_bare_sub_array(item, pad) {
                    return x;
                }
                if let Some(x) = emit_break(item, pad, 0, 1) {
                    return comma_end(x.as_str());
                }
            }
            plain_line(item, pad)
        },
        Style::EchoArg => {
            if is_over(pad, item) {
                if let Some(x) = emit_nested(item, pad, 0) {
                    return x;
                }
                if let Some(x) = expand_bare_array(item, pad) {
                    return x;
                }
                if let Some(x) = emit_break(item, pad, 0, 1) {
                    return comma_end(x.as_str());
                }
            }
            plain_line(item, pad)
        },
        Style::BlockStatement => {
            if is_wide(pad, item) {
                if let Some(x) = try_split_long_line(item, pad) {
                    return x;
                }
            }
            statement_line(item, pad)
        },
        Style::ClosureStatement => {
            if let Some(x) = expand_brace_block(item, pad) {
                return x;
            }
            if is_wide(pad, item) {
                if let Some(x) = try_split_long_line(item, pad) {
                    return x;
                }
            }
            statement_line(item, pad)
        },
    }
}

/// Writes the items of a list behind `pad`, each as `style` says.
pub fn emit_items(items: &[String], pad: &str, style: Style) -> (r: String)
    ensures
        r@ == items_text(texts(items@), 0, pad@, style),
    decreases max_len(texts(items@)) + 1, 0int, 0int,
{
    let mut r = String::new();
    let mut k: usize = 0;
    while k < items.len()
        invariant
            k <= items@.len(),
            r@ + items_text(texts(items@), k as int, pad@, style) == items_text(
                texts(items@),
                0,
                pad@,
                style,
            ),
        decreases items.len() - k,
    {
        proof {
            lemma_max_len(texts(items@), k as int);
        }
        let ghost prev = r@;
        let t = emit_item(items[k].as_str(), pad, style);
        r.append(t.as_str());
        assert(r@ + items_text(texts(items@), k + 1, pad@, style) =~= prev + items_text(
            texts(items@),
            k as int,
            pad@,
            style,
        ));
        k += 1;
    }
    assert(r@ + items_text(texts(items@), k as int, pad@, style) =~= r@);
    r
}

/// Appends one value of a conditional expression behind its marker.
pub fn append_ternary_value(result: &mut String, marker: char, value: &str, line_pad: &str)
    ensures
        final(result)@ == old(result)@ + ternary_value(value@, line_pad@, marker),
{
    emit_value(result, marker, value, line_pad, 0)
}

/// Appends one value of a conditional expression behind its marker, where
/// `trail` columns are still to stand behind its last line.
pub fn emit_value(
    result: &mut String,
    marker: char,
    value: &str,
    line_pad: &str,
    trail: usize,
)
    ensures
        final(result)@ == old(result)@ + value_in(value@, line_pad@, marker, trail as nat),
    decreases value@.len(), 9int, 0int,
{
    let mut single = String::from_str(line_pad);
    single.push(marker);
    single.append(" ");
    single.append(value);
    single.append("\n");
    if !is_crowded(line_pad, 2, value, trail) {
        result.append(single.as_str());
        return;
    }
    if let Some(split) = emit_break(value, line_pad, 2, trail) {
        let chars = chars_of(split.as_str());
        let rows = lines_of(&chars);
        if rows.len() > 0 {
            let first_chars = chars_of(rows[0].as_str());
            let pad_chars = chars_of(line_pad);
            let cut = if starts_with(&first_chars, &pad_chars) {
                slice_subrange(&first_chars, pad_chars.len(), first_chars.len())
            } else {
                first_chars.as_slice()
            };
            let first = string_of(trim_start_of(cut));
            let rest = kept(&rows, 1);
            let mut out = String::from_str(line_pad);
            out.push(marker);
            out.append(" ");
            out.append(first.as_str());
            out.append("\n");
            out.append(rest.as_str());
            result.append(out.as_str());
            return;
        }
    }
    result.append(single.as_str());
}

/// Breaks a line that is too wide for what is left behind `base_pad`.
pub fn try_split_long_line(formatted: &str, base_pad: &str) -> (r: Option<String>)
    ensures
        agrees(r, split_line(formatted@, base_pad@)),
    decreases formatted@.len(), 8int, 0int,
{
    if !is_wide(base_pad, formatted) {
        return None;
    }
    emit_break(formatted, base_pad, 0, 0)
}

/// Breaks a line in the first way that is found in it, where `lead` columns
/// are still to stand before its first line and `trail` columns behind its
/// last line.
pub fn emit_break(formatted: &str, base_pad: &str, lead: usize, trail: usize) -> (r: Option<
    String,
>)
    ensures
        agrees(r, break_in(formatted@, base_pad@, lead as nat, trail as nat)),
    decreases formatted@.len(), 7int, 0int,
{
    let chars = chars_of(formatted);
    let len = chars.len();
    if let Some((q_pos, c_pos)) = ternary_positions(&chars) {
        let condition = string_of(trim_end_of(slice_subrange(&chars, 0, q_pos)));
        let true_val = string_of(trim_of(slice_subrange(&chars, q_pos + 1, c_pos)));
        let false_val = string_of(trim_of(slice_subrange(&chars, c_pos + 1, len)));
        let inner_pad = deeper_pad(base_pad);
        let mut result = emit_part(condition.as_str(), base_pad, lead, 0);
        emit_value(&mut result, '?', true_val.as_str(), inner_pad.as_str(), 0);
        emit_value(&mut result, ':', false_val.as_str(), inner_pad.as_str(), trail);
        return Some(result);
    }
    if let Some((prefix, args, suffix)) = split_by_args(formatted) {
        proof {
            lemma_call_parts(formatted@);
        }
        return Some(
            emit_build(prefix.as_str(), args.as_slice(), suffix.as_str(), base_pad, trail),
        );
    }
    if let Some(open_pos) = position(&chars, '(') {
        if let Some(close_pos) = matching_close(&chars, open_pos, true) {
            proof {
                lemma_closing(chars@, open_pos as int, true);
            }
            let inner = trim_of(slice_subrange(&chars, open_pos + 1, close_pos));
            if starts_with_char(inner, '[') && ends_with_char(inner, ']') {
                let items = split_commas(slice_subrange(inner, 1, inner.len() - 1));
                if items.len() > 1 {
                    proof {
                        reveal_strlit("]");
                        lemma_commas_max(inside(inner@));
                    }
                    let mut new_prefix = string_of(slice_subrange(&chars, 0, open_pos + 1));
                    new_prefix.append("[");
                    let mut new_suffix = String::from_str("]");
                    let tail = string_of(slice_subrange(&chars, close_pos, len));
                    new_suffix.append(tail.as_str());
                    return Some(
                        emit_build(
                            new_prefix.as_str(),
                            items.as_slice(),
                            new_suffix.as_str(),
                            base_pad,
                            trail,
                        ),
                    );
                }
            }
        }
    }
    emit_nested(formatted, base_pad, lead)
}

/// Writes a call over several lines: what stands before the arguments, each
/// argument on lines of its own, and what stands behind them.
pub fn build_split(prefix: &str, args: &[String], suffix: &str, pad: &str) -> (r: String)
    ensures
        r@ == build(prefix@, texts(args@), suffix@, pad@),
{
    emit_build(prefix, args, suffix, pad, 0)
}

/// Writes a call over several lines, where `trail` columns are still to
/// stand behind its last line.
pub fn emit_build(prefix: &str, args: &[String], suffix: &str, pad: &str, trail: usize) -> (r:
    String)
    ensures
        r@ == build_in(prefix@, texts(args@), suffix@, pad@, trail as nat),
    decreases max_len(texts(args@)) + suffix@.len() + 1, 1int, 0int,
{
    let inner_pad = deeper_pad(pad);
    let body = emit_items(args, inner_pad.as_str(), Style::Argument);
    let tail = emit_part(suffix, pad, 0, trail);
    let mut result = String::from_str(pad);
    result.append(prefix);
    result.append("\n");
    result.append(body.as_str());
    result.append(tail.as_str());
    result
}

/// Writes the first line of a list or a block that is written out: `head`
/// with `tail` behind it, `head` broken where the line is too wide and it can
/// be broken. `lead` columns are still to stand before the line.
pub fn emit_head(head: &str, tail: &str, pad: &str, lead: usize) -> (r: String)
    ensures
        r@ == head_in(head@, tail@, pad@, lead as nat),
    decreases head@.len(), 9int, 0int,
{
    let mut whole = String::from_str(head);
    whole.append(tail);
    if is_crowded(pad, lead, whole.as_str(), 0) {
        if let Some(split) = emit_break(head, pad, lead, width_of(tail)) {
            let chars = chars_of(split.as_str());
            let mut r = string_of(strip_trailing_of(&chars, '\n'));
            r.append(tail);
            r.append("\n");
            return r;
        }
    }
    let mut r = String::from_str(pad);
    r.append(head);
    r.append(tail);
    r.append("\n");
    r
}

/// Writes a part of a line on lines of its own behind `pad`: broken where it
/// is too wide and can be broken, and else on one line. `lead` columns are
/// still to stand before its first line and `trail` columns behind its last.
pub fn emit_part(part: &str, pad: &str, lead: usize, trail: usize) -> (r: String)
    ensures
        r@ == part_in(part@, pad@, lead as nat, trail as nat),
    decreases part@.len(), 9int, 0int,
{
    if is_crowded(pad, lead, part, trail) {
        if let Some(split) = emit_break(part, pad, lead, trail) {
            return split;
        }
    }
    statement_line(part, pad)
}

fn bracketed(body: &str, pad: &str) -> (r: String)
    ensures
        r@ == pad@ + "[\n"@ + body@ + pad@ + "],\n"@,
{
    let mut result = String::from_str(pad);
    result.append("[\n");
    result.append(body);
    result.append(pad);
    result.append("],\n");
    result
}

/// Writes a list out item by item.
pub fn expand_bare_array(arg: &str, pad: &str) -> (r: Option<String>)
    ensures
        agrees(r, bare_array(arg@, pad@)),
    decreases arg@.len(), 5int, 0int,
{
    let chars = chars_of(arg);
    let trimmed = trim_of(&chars);
    if !starts_with_char(trimmed, '[') || !ends_with_char(trimmed, ']') {
        return None;
    }
    let items = split_commas(slice_subrange(trimmed, 1, trimmed.len() - 1));
    proof {
        lemma_commas_max(inside(trimmed@));
    }
    let nested_pad = deeper_pad(pad);
    if items.len() <= 1 {
        if items.len() == 1 {
            proof {
                lemma_max_len(texts(items@), 0);
            }
            if is_over(nested_pad.as_str(), items[0].as_str()) {
                let body = emit_item(items[0].as_str(), nested_pad.as_str(), Style::Lone);
                return Some(bracketed(body.as_str(), pad));
            }
        }
        return None;
    }
    let body = emit_items(items.as_slice(), nested_pad.as_str(), Style::Value);
    Some(bracketed(body.as_str(), pad))
}

/// Writes a list inside a list out item by item.
pub fn expand_bare_sub_array(item: &str, pad: &str) -> (r: Option<String>)
    ensures
        agrees(r, bare_sub_array(item@, pad@)),
    decreases item@.len(), 5int, 0int,
{
    let chars = chars_of(item);
    if !starts_with_char(&chars, '[') || !ends_with_char(&chars, ']') {
        return None;
    }
    let sub_items = split_commas(slice_subrange(&chars, 1, chars.len() - 1));
    proof {
        lemma_commas_max(inside(chars@));
    }
    if sub_items.len() <= 1 {
        return None;
    }
    let deeper_pad = deeper_pad(pad);
    let body = emit_items(sub_items.as_slice(), deeper_pad.as_str(), Style::SubItem);
    Some(bracketed(body.as_str(), pad))
}

/// Writes a statement with a block out statement by statement.
pub fn expand_brace_block(stmt: &str, pad: &str) -> (r: Option<String>)
    ensures
        agrees(r, brace_text(stmt@, pad@)),
    decreases stmt@.len(), 5int, 0int,
{
    let chars = chars_of(stmt);
    let len = chars.len();
    let (open, close) = match braces(&chars) {
        Some(p) => p,
        None => {
            return None;
        },
    };
    let body = trim_of(slice_subrange(&chars, open + 1, close));
    if body.len() == 0 {
        return None;
    }
    let header = string_of(trim_end_of(slice_subrange(&chars, 0, open)));
    let after_chars = trim_of(slice_subrange(&chars, close + 1, len));
    let after = string_of(after_chars);
    let inner_pad = deeper_pad(pad);
    let body_stmts = closure_statements(body);
    proof {
        lemma_body_max(body@);
    }
    if body_stmts.len() == 0 {
        return None;
    }
    let lines = emit_items(body_stmts.as_slice(), inner_pad.as_str(), Style::BlockStatement);
    let mut result = emit_head(header.as_str(), " {", pad, 0);
    result.append(lines.as_str());
    if after_chars.len() == 0 {
        let mut tail = String::from_str(pad);
        tail.append("}\n");
        result.append(tail.as_str());
    } else {
        let mut closing = String::from_str("} ");
        closing.append(after.as_str());
        proof {
            reveal_strlit("} ");
            lemma_brace_from(stmt@, 0);
            lemma_trim_len(stmt@.subrange(open + 1, close as int));
            lemma_trim_len(stmt@.subrange(close + 1, stmt@.len() as int));
        }
        let tail = emit_part(closing.as_str(), pad, 0, 0);
        result.append(tail.as_str());
    }
    Some(result)
}

/// Writes a closure out statement by statement.
pub fn expand_inline_closure(arg: &str, pad: &str) -> (r: Option<String>)
    ensures
        agrees(r, inline_closure(arg@, pad@)),
    decreases arg@.len(), 5int, 0int,
{
    let chars = chars_of(arg);
    let len = chars.len();
    let (open_brace, close_brace) = match closure_braces(&chars) {
        Some(p) => p,
        None => {
            return None;
        },
    };
    let stmts = closure_statements(slice_subrange(&chars, open_brace + 1, close_brace));
    proof {
        lemma_body_max(chars@.subrange(open_brace + 1, close_brace as int));
    }
    if stmts.len() <= 1 {
        return None;
    }
    let header = string_of(trim_end_of(slice_subrange(&chars, 0, open_brace)));
    let after_chars = trim_start_of(slice_subrange(&chars, close_brace + 1, len));
    let after_close = string_of(after_chars);
    let body_pad = deeper_pad(pad);
    let lines = emit_items(stmts.as_slice(), body_pad.as_str(), Style::ClosureStatement);
    let mut result = emit_head(header.as_str(), " {", pad, 0);
    result.append(lines.as_str());
    if after_chars.len() == 0 {
        let mut tail = String::from_str(pad);
        tail.append("},\n");
        result.append(tail.as_str());
    } else {
        let mut closing = String::from_str("}");
        closing.append(after_close.as_str());
        proof {
            reveal_strlit("}");
            lemma_closure_from(arg@, 0);
            crate::text::lemma_trim_start_len(arg@.subrange(close_brace + 1, arg@.len() as int));
        }
        let tail = emit_part(closing.as_str(), pad, 0, 0);
        result.append(tail.as_str());
    }
    Some(result)
}

/// Writes the list under a key out item by item.
pub fn expand_nested_array(arg: &str, pad: &str) -> (r: Option<String>)
    ensures
        agrees(r, nested(arg@, pad@)),
{
    emit_nested(arg, pad, 0)
}

/// Writes the list under a key out item by item, where `lead` columns are
/// still to stand before its first line.
pub fn emit_nested(arg: &str, pad: &str, lead: usize) -> (r: Option<String>)
    ensures
        agrees(r, nested_in(arg@, pad@, lead as nat)),
    decreases arg@.len(), 5int, 0int,
{
    let chars = chars_of(arg);
    let len = chars.len();
    let (skip, arrow_pos) = match arrow(&chars) {
        Some(p) => p,
        None => {
            return None;
        },
    };
    let at = skip + arrow_pos + 2;
    let value = trim_of(slice_subrange(&chars, at, len));
    if !starts_with_char(value, '[') || !ends_with_char(value, ']') {
        return None;
    }
    let items = split_commas(slice_subrange(value, 1, value.len() - 1));
    proof {
        lemma_commas_max(inside(value@));
    }
    if items.len() <= 1 {
        return None;
    }
    let key = string_of(slice_subrange(&chars, 0, at));
    let nested_pad = deeper_pad(pad);
    let body = emit_items(items.as_slice(), nested_pad.as_str(), Style::Value);
    let mut result = emit_head(key.as_str(), " [", pad, lead);
    result.append(body.as_str());
    result.append(pad);
    result.append("],\n");
    Some(result)
}

} // verus!
