//! The spacing of one line of code, and the cuts of a line at its top level.

use crate::formatter::scan::{
    closing, index_of, is_quote, lemma_closing, lemma_literal_end, literal_end, matching_close,
    position, quote, skip_literal, step,
};
use crate::formatter::stable::{
    law_spacing_is_stable, law_spacing_keeps_literals, law_spacing_keeps_what_is_written, literals,
    solid,
};
use crate::text::{
    alphabetic, alphanumeric, append_chars, append_joined, chars_of, equals_str, joined,
    lemma_texts_empty, lemma_texts_push, lines, replace, replaced, string_of, strip_trailing, texts,
    trim, trim_end, trim_end_of, trim_of, trimmed_all, trimmed_lines_of,
};
use vstd::prelude::*;
use vstd::slice::slice_subrange;

verus! {

/// Whether `w` is a control keyword that takes one space before its bracket.
pub open spec fn is_keyword(w: Seq<char>) -> bool {
    w == "if"@ || w == "elseif"@ || w == "else"@ || w == "foreach"@ || w == "for"@ || w
        == "while"@ || w == "switch"@ || w == "catch"@ || w == "match"@
}

fn keyword(w: &[char]) -> (b: bool)
    ensures
        b == is_keyword(w@),
{
    equals_str(w, "if") || equals_str(w, "elseif") || equals_str(w, "else") || equals_str(
        w,
        "foreach",
    ) || equals_str(w, "for") || equals_str(w, "while") || equals_str(w, "switch") || equals_str(
        w,
        "catch",
    ) || equals_str(w, "match")
}

/// The number of letters, digits and underscores that stand at index `i`.
pub open spec fn word_len(s: Seq<char>, i: int) -> nat
    decreases s.len() - i,
{
    if 0 <= i < s.len() && (alphanumeric(s[i]) || s[i] == '_') {
        1 + word_len(s, i + 1)
    } else {
        0
    }
}

/// The number of spaces that stand at index `i`.
pub open spec fn space_run(s: Seq<char>, i: int) -> nat
    decreases s.len() - i,
{
    if 0 <= i < s.len() && s[i] == ' ' {
        1 + space_run(s, i + 1)
    } else {
        0
    }
}

pub proof fn lemma_word_len(s: Seq<char>, i: int)
    requires
        0 <= i <= s.len(),
    ensures
        i + word_len(s, i) <= s.len(),
    decreases s.len() - i,
{
    if i < s.len() && (alphanumeric(s[i]) || s[i] == '_') {
        lemma_word_len(s, i + 1);
    }
}

pub proof fn lemma_space_run(s: Seq<char>, i: int)
    requires
        0 <= i <= s.len(),
    ensures
        i + space_run(s, i) <= s.len(),
    decreases s.len() - i,
{
    if i < s.len() && s[i] == ' ' {
        lemma_space_run(s, i + 1);
    }
}

/// `out` after a `=>`: the spaces at its end give way to one space, the
/// arrow and one space.
pub open spec fn with_arrow(out: Seq<char>) -> Seq<char> {
    strip_trailing(out, ' ').push(' ').push('=').push('>').push(' ')
}

/// `out` after the comma at index `i`: the comma, and one space unless the
/// line ends behind the comma and the spaces that follow it, or a line feed
/// stands there.
pub open spec fn with_comma(s: Seq<char>, i: int, out: Seq<char>) -> Seq<char> {
    let j = i + 1 + space_run(s, i + 1);
    if j < s.len() && s[j] != '\n' {
        out.push(',').push(' ')
    } else {
        out.push(',')
    }
}

/// `out` after the word at index `i`: a control keyword that stands directly
/// before `(` gets one space behind it.
pub open spec fn with_word(s: Seq<char>, i: int, out: Seq<char>) -> Seq<char> {
    let e = i + word_len(s, i);
    let w = s.subrange(i, e);
    if is_keyword(w) && e < s.len() && s[e] == '(' {
        (out + w).push(' ')
    } else {
        out + w
    }
}

/// The spaced form of `s` from index `i` on, behind what `out` already holds.
pub open spec fn tidy_from(s: Seq<char>, i: int, out: Seq<char>) -> Seq<char>
    decreases s.len() - i,
{
    if i < 0 || i >= s.len() {
        out
    } else if is_quote(s[i]) {
        proof {
            lemma_literal_end(s, i);
        }
        tidy_from(s, literal_end(s, i), out + s.subrange(i, literal_end(s, i)))
    } else if s[i] == '=' && i + 1 < s.len() && s[i + 1] == '>' {
        proof {
            lemma_space_run(s, i + 2);
        }
        tidy_from(s, i + 2 + space_run(s, i + 2), with_arrow(out))
    } else if s[i] == ',' {
        proof {
            lemma_space_run(s, i + 1);
        }
        tidy_from(s, i + 1 + space_run(s, i + 1), with_comma(s, i, out))
    } else if alphabetic(s[i]) {
        proof {
            lemma_word_len(s, i);
        }
        tidy_from(s, i + word_len(s, i), with_word(s, i, out))
    } else if s[i] == ')' || s[i] == ']' {
        tidy_from(s, i + 1, strip_trailing(out, ' ').push(s[i]))
    } else if s[i] == '(' || s[i] == '[' {
        proof {
            lemma_space_run(s, i + 1);
        }
        tidy_from(s, i + 1 + space_run(s, i + 1), out.push(s[i]))
    } else {
        tidy_from(s, i + 1, out.push(s[i]))
    }
}

/// The spaced form of one line of code: quoted literals are kept as they are;
/// a comma is followed by one space; `=>` stands between single spaces; a
/// control keyword directly before `(` is followed by one space; no space
/// stands behind `(` or `[`, nor before `)` or `]`.
pub open spec fn tidy(s: Seq<char>) -> Seq<char> {
    tidy_from(s, 0, Seq::empty())
}

fn skip_spaces(chars: &[char], start: usize) -> (next: usize)
    requires
        start <= chars@.len(),
    ensures
        next == start + space_run(chars@, start as int),
        start <= next <= chars@.len(),
{
    let mut i = start;
    while i < chars.len() && chars[i] == ' '
        invariant
            start <= i <= chars@.len(),
            i + space_run(chars@, i as int) == start + space_run(chars@, start as int),
        decreases chars.len() - i,
    {
        i += 1;
    }
    i
}

fn format_fat_arrow(chars: &[char], start: usize, result: &mut Vec<char>) -> (next: usize)
    requires
        start + 1 < chars@.len(),
    ensures
        next == start + 2 + space_run(chars@, start + 2),
        start + 2 <= next <= chars@.len(),
        final(result)@ == with_arrow(old(result)@),
{
    let len = chars.len();
    strip_spaces(result);
    result.push(' ');
    result.push('=');
    result.push('>');
    result.push(' ');
    skip_spaces(chars, start + 2)
}

fn format_comma(chars: &[char], start: usize, result: &mut Vec<char>) -> (next: usize)
    requires
        start < chars@.len(),
    ensures
        next == start + 1 + space_run(chars@, start + 1),
        start + 1 <= next <= chars@.len(),
        final(result)@ == with_comma(chars@, start as int, old(result)@),
{
    let len = chars.len();
    result.push(',');
    let i = skip_spaces(chars, start + 1);
    if i < len && chars[i] != '\n' {
        result.push(' ');
    }
    i
}

fn format_keyword(chars: &[char], start: usize, result: &mut Vec<char>) -> (next: usize)
    requires
        start < chars@.len(),
    ensures
        next == start + word_len(chars@, start as int),
        next <= chars@.len(),
        final(result)@ == with_word(chars@, start as int, old(result)@),
{
    let len = chars.len();
    let mut i = start;
    while i < len && (crate::text::is_letter_or_digit(chars[i]) || chars[i] == '_')
        invariant
            start <= i <= len == chars@.len(),
            i + word_len(chars@, i as int) == start + word_len(chars@, start as int),
        decreases len - i,
    {
        i += 1;
    }
    let word = slice_subrange(chars, start, i);
    append_chars(result, word);
    if keyword(word) && i < len && chars[i] == '(' {
        result.push(' ');
    }
    i
}

fn strip_spaces(result: &mut Vec<char>)
    ensures
        final(result)@ == strip_trailing(old(result)@, ' '),
{
    while result.len() > 0 && result[result.len() - 1] == ' '
        invariant
            strip_trailing(old(result)@, ' ') == strip_trailing(result@, ' '),
        decreases result@.len(),
    {
        assert(result@.subrange(0, result@.len() - 1) =~= result@.drop_last());
        result.pop();
    }
}

/// Normalises the spacing of one line of code. Nothing but spaces is added
/// or taken away, the quoted literals are kept as they are, and to space the
/// result once more changes nothing.
pub fn format_php_code(code: &str) -> (r: String)
    ensures
        r@ == tidy(code@),
        solid(r@) == solid(code@),
        literals(r@) == literals(code@),
        tidy(r@) == r@,
{
    proof {
        law_spacing_keeps_what_is_written(code@);
        law_spacing_keeps_literals(code@);
        law_spacing_is_stable(code@);
    }
    let chars = chars_of(code);
    let len = chars.len();
    let mut result: Vec<char> = Vec::new();
    let mut i: usize = 0;
    while i < len
        invariant
            i <= len == chars@.len(),
            chars@ == code@,
            tidy_from(chars@, i as int, result@) == tidy(code@),
        decreases len - i,
    {
        let ch = chars[i];
        if quote(ch) {
            let e = skip_literal(&chars, i);
            append_chars(&mut result, slice_subrange(&chars, i, e));
            i = e;
        } else if ch == '=' && i + 1 < len && chars[i + 1] == '>' {
            i = format_fat_arrow(&chars, i, &mut result);
        } else if ch == ',' {
            i = format_comma(&chars, i, &mut result);
        } else if crate::text::is_letter(ch) {
            assert(word_len(chars@, i as int) >= 1);
            i = format_keyword(&chars, i, &mut result);
        } else if ch == ')' || ch == ']' {
            strip_spaces(&mut result);
            result.push(ch);
            i += 1;
        } else if ch == '(' || ch == '[' {
            result.push(ch);
            i = skip_spaces(&chars, i + 1);
        } else {
            result.push(ch);
            i += 1;
        }
    }
    string_of(&result)
}

/// Whether `s` is spaced from index `i` on as it should be: outside quoted
/// literals, exactly one space stands on each side of each `=>`; exactly one
/// space follows each comma, unless the line ends or a line feed stands
/// behind it; no control keyword stands directly before `(`; no space stands
/// before `)` or `]`, nor behind `(` or `[`.
pub open spec fn well_spaced_from(s: Seq<char>, i: int) -> bool
    decreases s.len() - i,
{
    if i < 0 || i >= s.len() {
        true
    } else if is_quote(s[i]) {
        proof {
            lemma_literal_end(s, i);
        }
        well_spaced_from(s, literal_end(s, i))
    } else if s[i] == '=' && i + 1 < s.len() && s[i + 1] == '>' {
        i > 0 && s[i - 1] == ' ' && !(i > 1 && s[i - 2] == ' ') && i + 2 < s.len() && s[i + 2]
            == ' ' && !(i + 3 < s.len() && s[i + 3] == ' ') && well_spaced_from(s, i + 3)
    } else if s[i] == ',' {
        if i + 1 >= s.len() || s[i + 1] == '\n' {
            well_spaced_from(s, i + 1)
        } else {
            s[i + 1] == ' ' && i + 2 < s.len() && s[i + 2] != ' ' && s[i + 2] != '\n'
                && well_spaced_from(s, i + 2)
        }
    } else if alphabetic(s[i]) {
        proof {
            lemma_word_len(s, i);
        }
        !(is_keyword(s.subrange(i, i + word_len(s, i))) && i + word_len(s, i) < s.len() && s[i
            + word_len(s, i)] == '(') && well_spaced_from(s, i + word_len(s, i))
    } else if s[i] == ')' || s[i] == ']' {
        !(i > 0 && s[i - 1] == ' ') && well_spaced_from(s, i + 1)
    } else if s[i] == '(' || s[i] == '[' {
        !(i + 1 < s.len() && s[i + 1] == ' ') && well_spaced_from(s, i + 1)
    } else {
        well_spaced_from(s, i + 1)
    }
}

/// Whether a line of code is spaced as it should be.
pub open spec fn well_spaced(s: Seq<char>) -> bool {
    well_spaced_from(s, 0)
}

proof fn lemma_well_spaced_kept(s: Seq<char>, i: int)
    requires
        0 <= i <= s.len(),
        well_spaced_from(s, i),
    ensures
        tidy_from(s, i, s.subrange(0, i)) == s,
    decreases s.len() - i,
{
    let out = s.subrange(0, i);
    if i >= s.len() {
        assert(out =~= s);
    } else if is_quote(s[i]) {
        lemma_literal_end(s, i);
        let e = literal_end(s, i);
        assert(out + s.subrange(i, e) =~= s.subrange(0, e));
        lemma_well_spaced_kept(s, e);
    } else if s[i] == '=' && i + 1 < s.len() && s[i + 1] == '>' {
        assert(space_run(s, i + 3) == 0);
        assert(space_run(s, i + 2) == 1);
        assert(out.drop_last() =~= s.subrange(0, i - 1));
        assert(strip_trailing(s.subrange(0, i - 1), ' ') == s.subrange(0, i - 1));
        assert(strip_trailing(out, ' ') == s.subrange(0, i - 1));
        assert(with_arrow(out) =~= s.subrange(0, i + 3));
        lemma_well_spaced_kept(s, i + 3);
    } else if s[i] == ',' {
        if i + 1 >= s.len() || s[i + 1] == '\n' {
            assert(space_run(s, i + 1) == 0);
            assert(with_comma(s, i, out) =~= s.subrange(0, i + 1));
            lemma_well_spaced_kept(s, i + 1);
        } else {
            assert(space_run(s, i + 2) == 0);
            assert(space_run(s, i + 1) == 1);
            assert(with_comma(s, i, out) =~= s.subrange(0, i + 2));
            lemma_well_spaced_kept(s, i + 2);
        }
    } else if alphabetic(s[i]) {
        lemma_word_len(s, i);
        let e = i + word_len(s, i);
        assert(with_word(s, i, out) =~= s.subrange(0, e));
        lemma_well_spaced_kept(s, e);
    } else if s[i] == ')' || s[i] == ']' {
        assert(strip_trailing(out, ' ') == out);
        assert(out.push(s[i]) =~= s.subrange(0, i + 1));
        lemma_well_spaced_kept(s, i + 1);
    } else if s[i] == '(' || s[i] == '[' {
        assert(space_run(s, i + 1) == 0);
        assert(out.push(s[i]) =~= s.subrange(0, i + 1));
        lemma_well_spaced_kept(s, i + 1);
    } else {
        assert(out.push(s[i]) =~= s.subrange(0, i + 1));
        lemma_well_spaced_kept(s, i + 1);
    }
}

/// A line that is spaced as it should be is left as it is.
pub proof fn law_well_spaced_line_is_kept(s: Seq<char>)
    requires
        well_spaced(s),
    ensures
        tidy(s) == s,
{
    assert(s.subrange(0, 0) =~= Seq::<char>::empty());
    lemma_well_spaced_kept(s, 0);
}

/// The lines of `s`, each trimmed, joined by single spaces, with no space
/// left before `->`.
pub open spec fn one_line(s: Seq<char>) -> Seq<char> {
    replaced(joined(trimmed_all(lines(s)), seq![' ']), seq![' ', '-', '>'], seq!['-', '>'])
}

/// Joins the lines of a piece of code into one line.
pub fn join_php_lines(code: &str) -> (r: String)
    ensures
        r@ == one_line(code@),
{
    let chars = chars_of(code);
    let rows = trimmed_lines_of(&chars);
    let mut buf: Vec<char> = Vec::new();
    let sep = string_of(&[' ']);
    append_joined(&mut buf, rows.as_slice(), 0, rows.len(), sep.as_str());
    assert(texts(rows@).subrange(0, rows@.len() as int) =~= texts(rows@));
    let from = [' ', '-', '>'];
    let to = ['-', '>'];
    assert(sep@ =~= seq![' ']);
    assert(from@ =~= seq![' ', '-', '>']);
    assert(to@ =~= seq!['-', '>']);
    let out = replace(&buf, &from, &to);
    string_of(&out)
}

/// The links of a chain of calls from index `i` on: a new link begins at each
/// `->` that stands outside quoted literals and brackets.
pub open spec fn chain_from(
    s: Seq<char>,
    i: int,
    depth: int,
    cur: Seq<char>,
    parts: Seq<Seq<char>>,
) -> Seq<Seq<char>>
    decreases s.len() - i,
{
    if i < 0 || i >= s.len() {
        if cur.len() > 0 {
            parts.push(trim_end(cur))
        } else {
            parts
        }
    } else if is_quote(s[i]) {
        proof {
            lemma_literal_end(s, i);
        }
        chain_from(s, literal_end(s, i), depth, cur + s.subrange(i, literal_end(s, i)), parts)
    } else if depth + step(s[i]) == 0 && s[i] == '-' && i + 1 < s.len() && s[i + 1] == '>' {
        chain_from(s, i + 2, depth, seq!['-', '>'], parts.push(trim_end(cur)))
    } else {
        chain_from(s, i + 1, depth + step(s[i]), cur.push(s[i]), parts)
    }
}

/// The links of a chain of calls: the text before the first top-level `->`,
/// then one link for each `->`, which it begins with; white space at the end
/// of a link is dropped.
pub open spec fn chain(s: Seq<char>) -> Seq<Seq<char>> {
    chain_from(s, 0, 0, Seq::empty(), Seq::empty())
}

/// Cuts a line before each top-level `->`.
pub fn split_by_chain(code: &str) -> (r: Vec<String>)
    ensures
        texts(r@) == chain(code@),
{
    let chars = chars_of(code);
    let len = chars.len();
    let mut parts: Vec<String> = Vec::new();
    let mut current: Vec<char> = Vec::new();
    let mut i: usize = 0;
    let mut depth: i128 = 0;
    proof {
        lemma_texts_empty();
    }
    while i < len
        invariant
            i <= len == chars@.len(),
            chars@ == code@,
            -i <= depth <= i,
            chain_from(chars@, i as int, depth as int, current@, texts(parts@)) == chain(code@),
        decreases len - i,
    {
        let ch = chars[i];
        if quote(ch) {
            let e = skip_literal(&chars, i);
            append_chars(&mut current, slice_subrange(&chars, i, e));
            i = e;
        } else {
            if ch == '(' || ch == '[' || ch == '{' {
                depth += 1;
            } else if ch == ')' || ch == ']' || ch == '}' {
                depth -= 1;
            }
            if depth == 0 && ch == '-' && i + 1 < len && chars[i + 1] == '>' {
                let part = string_of(trim_end_of(&current));
                proof {
                    lemma_texts_push(parts@, part);
                }
                parts.push(part);
                current = Vec::new();
                current.push('-');
                current.push('>');
                assert(current@ =~= seq!['-', '>']);
                i += 2;
            } else {
                current.push(ch);
                i += 1;
            }
        }
    }
    if current.len() > 0 {
        let part = string_of(trim_end_of(&current));
        proof {
            lemma_texts_push(parts@, part);
        }
        parts.push(part);
    }
    parts
}

/// The items of a list from index `i` on: a new item begins behind each comma
/// that stands outside quoted literals and brackets.
pub open spec fn commas_from(
    s: Seq<char>,
    i: int,
    depth: int,
    cur: Seq<char>,
    items: Seq<Seq<char>>,
) -> Seq<Seq<char>>
    decreases s.len() - i,
{
    if i < 0 || i >= s.len() {
        if trim(cur).len() > 0 {
            items.push(trim(cur))
        } else {
            items
        }
    } else if is_quote(s[i]) {
        proof {
            lemma_literal_end(s, i);
        }
        commas_from(s, literal_end(s, i), depth, cur + s.subrange(i, literal_end(s, i)), items)
    } else if step(s[i]) == 0 && s[i] == ',' && depth == 0 {
        commas_from(s, i + 1, depth, Seq::empty(), items.push(trim(cur)))
    } else {
        commas_from(s, i + 1, depth + step(s[i]), cur.push(s[i]), items)
    }
}

/// The items of a list: the trimmed texts between the top-level commas; what
/// follows the last comma counts only where it is not blank.
pub open spec fn commas(s: Seq<char>) -> Seq<Seq<char>> {
    commas_from(s, 0, 0, Seq::empty(), Seq::empty())
}

/// Cuts a list at its top-level commas.
pub fn split_by_commas(code: &str) -> (r: Vec<String>)
    ensures
        texts(r@) == commas(code@),
{
    let chars = chars_of(code);
    split_commas(&chars)
}

/// Cuts a list at its top-level commas.
pub fn split_commas(chars: &[char]) -> (r: Vec<String>)
    ensures
        texts(r@) == commas(chars@),
{
    let len = chars.len();
    let mut items: Vec<String> = Vec::new();
    let mut current: Vec<char> = Vec::new();
    let mut i: usize = 0;
    let mut depth: i128 = 0;
    proof {
        lemma_texts_empty();
    }
    while i < len
        invariant
            i <= len == chars@.len(),
            -i <= depth <= i,
            commas_from(chars@, i as int, depth as int, current@, texts(items@)) == commas(chars@),
        decreases len - i,
    {
        let ch = chars[i];
        if quote(ch) {
            let e = skip_literal(chars, i);
            append_chars(&mut current, slice_subrange(chars, i, e));
            i = e;
        } else if ch == '(' || ch == '[' || ch == '{' {
            depth += 1;
            current.push(ch);
            i += 1;
        } else if ch == ')' || ch == ']' || ch == '}' {
            depth -= 1;
            current.push(ch);
            i += 1;
        } else if ch == ',' && depth == 0 {
            let item = string_of(trim_of(&current));
            proof {
                lemma_texts_push(items@, item);
            }
            items.push(item);
            current = Vec::new();
            i += 1;
        } else {
            current.push(ch);
            i += 1;
        }
    }
    let last = trim_of(&current);
    if last.len() > 0 {
        let item = string_of(last);
        proof {
            lemma_texts_push(items@, item);
        }
        items.push(item);
    }
    items
}

/// The parts of a call: the text up to and with the first `(`, the arguments
/// between it and the bracket that closes it, and the text from that bracket
/// on. There is none where no `(` stands in `s`, where nothing closes it, or
/// where fewer than two arguments stand between them.
pub open spec fn call_parts(s: Seq<char>) -> Option<(Seq<char>, Seq<Seq<char>>, Seq<char>)> {
    match index_of(s, '(', 0) {
        None => None,
        Some(open) => match closing(s, open, false) {
            None => None,
            Some(close) => {
                let args = commas(s.subrange(open + 1, close));
                if args.len() <= 1 {
                    None
                } else {
                    Some((s.subrange(0, open + 1), args, s.subrange(close, s.len() as int)))
                }
            },
        },
    }
}

/// Cuts a call into what stands before its arguments, the arguments, and what
/// stands behind them.
pub fn split_by_args(code: &str) -> (r: Option<(String, Vec<String>, String)>)
    ensures
        r is Some == call_parts(code@) is Some,
        r is Some ==> call_parts(code@) == Some(
            (r.unwrap().0@, texts(r.unwrap().1@), r.unwrap().2@),
        ),
{
    let chars = chars_of(code);
    let len = chars.len();
    let open_pos = match position(&chars, '(') {
        Some(p) => p,
        None => {
            return None;
        },
    };
    let close_pos = match matching_close(&chars, open_pos, false) {
        Some(p) => p,
        None => {
            return None;
        },
    };
    proof {
        lemma_closing(chars@, open_pos as int, false);
    }
    let args = split_commas(slice_subrange(&chars, open_pos + 1, close_pos));
    if args.len() <= 1 {
        return None;
    }
    let prefix = string_of(slice_subrange(&chars, 0, open_pos + 1));
    let suffix = string_of(slice_subrange(&chars, close_pos, len));
    Some((prefix, args, suffix))
}

/// Whether `c` is one of the digits `0` to `9`.
pub open spec fn is_digit(c: char) -> bool {
    '0' <= c && c <= '9'
}

/// Whether the dot at index `i` joins two texts: it touches no digit and no
/// other dot, and no `=` follows it.
pub open spec fn joins_at(s: Seq<char>, i: int) -> bool {
    &&& 0 <= i < s.len()
    &&& s[i] == '.'
    &&& !(i > 0 && (is_digit(s[i - 1]) || s[i - 1] == '.'))
    &&& !(i + 1 < s.len() && (is_digit(s[i + 1]) || s[i + 1] == '.' || s[i + 1] == '='))
}

/// The texts that the joining dots from index `i` on part: a new text begins
/// behind each joining dot that stands outside quoted literals and brackets.
pub open spec fn concat_from(
    s: Seq<char>,
    i: int,
    depth: int,
    cur: Seq<char>,
    parts: Seq<Seq<char>>,
) -> Seq<Seq<char>>
    decreases s.len() - i,
{
    if i < 0 || i >= s.len() {
        if trim(cur).len() > 0 {
            parts.push(trim(cur))
        } else {
            parts
        }
    } else if is_quote(s[i]) {
        proof {
            lemma_literal_end(s, i);
        }
        concat_from(s, literal_end(s, i), depth, cur + s.subrange(i, literal_end(s, i)), parts)
    } else if depth == 0 && joins_at(s, i) {
        concat_from(s, i + 1, depth, Seq::empty(), parts.push(trim(cur)))
    } else {
        concat_from(s, i + 1, depth + step(s[i]), cur.push(s[i]), parts)
    }
}

/// The trimmed texts between the top-level joining dots of `s`; what follows
/// the last dot counts only where it is not blank.
pub open spec fn concat(s: Seq<char>) -> Seq<Seq<char>> {
    concat_from(s, 0, 0, Seq::empty(), Seq::empty())
}

fn digit(c: char) -> (b: bool)
    ensures
        b == is_digit(c),
{
    '0' <= c && c <= '9'
}

fn joining_dot(chars: &[char], i: usize) -> (b: bool)
    requires
        i < chars@.len(),
    ensures
        b == joins_at(chars@, i as int),
{
    if chars[i] != '.' {
        return false;
    }
    if i > 0 && (digit(chars[i - 1]) || chars[i - 1] == '.') {
        return false;
    }
    if i + 1 < chars.len() && (digit(chars[i + 1]) || chars[i + 1] == '.' || chars[i + 1] == '=') {
        return false;
    }
    true
}

/// Cuts a line at its top-level joining dots.
pub fn split_by_concat(code: &str) -> (r: Vec<String>)
    ensures
        texts(r@) == concat(code@),
{
    let chars = chars_of(code);
    let len = chars.len();
    let mut parts: Vec<String> = Vec::new();
    let mut current: Vec<char> = Vec::new();
    let mut i: usize = 0;
    let mut depth: i128 = 0;
    proof {
        lemma_texts_empty();
    }
    while i < len
        invariant
            i <= len == chars@.len(),
            chars@ == code@,
            -i <= depth <= i,
            concat_from(chars@, i as int, depth as int, current@, texts(parts@)) == concat(code@),
        decreases len - i,
    {
        let ch = chars[i];
        if quote(ch) {
            let e = skip_literal(&chars, i);
            append_chars(&mut current, slice_subrange(&chars, i, e));
            i = e;
        } else if depth == 0 && joining_dot(&chars, i) {
            let part = string_of(trim_of(&current));
            proof {
                lemma_texts_push(parts@, part);
            }
            parts.push(part);
            current = Vec::new();
            i += 1;
        } else {
            if ch == '(' || ch == '[' || ch == '{' {
                depth += 1;
            } else if ch == ')' || ch == ']' || ch == '}' {
                depth -= 1;
            }
            current.push(ch);
            i += 1;
        }
    }
    let last = trim_of(&current);
    if last.len() > 0 {
        let part = string_of(last);
        proof {
            lemma_texts_push(parts@, part);
        }
        parts.push(part);
    }
    parts
}

} // verus!
