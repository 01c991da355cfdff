//! Reindenting a block of code: the tests on a piece of code, the cut of a
//! line into statements, and the depth of nesting from line to line.

use crate::formatter::flow::{close, closed, start, walk, walked};
use crate::formatter::php::{call_parts, commas, lemma_word_len, word_len};
use crate::formatter::scan::{
    closer, closes, closing, is_quote, lemma_literal_end, literal_end, opener, opens, quote,
    skip_literal,
};
use crate::formatter::split::{
    break_in, call_of_list, crowded, deeper, head_in, inside, items_text, lemma_array_arrow,
    lemma_ternary, part_in, split_line, Style, ternary, try_split_long_line, value_in, value_start,
};
use crate::text::{
    alphanumeric, append_chars, append_joined, blank, chars_of, contains_char, contains_str,
    count_of, ends_with_char, find, first_is, first_occurrence, has, is_blank, joined, last_is,
    lemma_texts_empty, lemma_texts_push, lemma_trim_len, lines, lines_of, lowercase, matches_at,
    occurs_at, repeat, repeated, starts_with_char, starts_with_str, string_of, strip_leading,
    strip_leading_of, strip_trailing, strip_trailing_of, texts, trim, trim_end, trim_end_of,
    trim_of, width,
};
use vstd::prelude::*;
use vstd::slice::slice_subrange;
use vstd::string::*;

verus! {

/// One level of indentation.
pub const INDENT: &'static str = "    ";

/// The width that a line should not pass.
pub const MAX_LINE_LENGTH: usize = 120;

/// Whether `p` occurs in `s` at or after index `i`, outside quoted literals.
pub open spec fn outside_from(s: Seq<char>, p: Seq<char>, i: int) -> bool
    decreases s.len() - i,
{
    if i < 0 || i >= s.len() {
        false
    } else if is_quote(s[i]) {
        proof {
            lemma_literal_end(s, i);
        }
        outside_from(s, p, literal_end(s, i))
    } else if occurs_at(s, p, i) {
        true
    } else {
        outside_from(s, p, i + 1)
    }
}

/// Whether `p` occurs in `s` outside quoted literals: at an index that no
/// literal covers which began before it.
pub open spec fn outside(s: Seq<char>, p: Seq<char>) -> bool {
    outside_from(s, p, 0)
}

/// Whether `needle` occurs in `code` outside quoted literals.
pub fn contains_outside_strings(code: &str, needle: &str) -> (b: bool)
    ensures
        b == outside(code@, needle@),
{
    let chars = chars_of(code);
    let pattern = chars_of(needle);
    occurs_outside(&chars, &pattern)
}

/// Whether `needle` occurs in `chars` outside quoted literals.
pub fn occurs_outside(chars: &[char], needle: &[char]) -> (b: bool)
    ensures
        b == outside(chars@, needle@),
{
    let len = chars.len();
    let mut i: usize = 0;
    while i < len
        invariant
            i <= len == chars@.len(),
            outside(chars@, needle@) == outside_from(chars@, needle@, i as int),
        decreases len - i,
    {
        if quote(chars[i]) {
            i = skip_literal(chars, i);
        } else {
            if matches_at(chars, needle, i) {
                return true;
            }
            i += 1;
        }
    }
    false
}

/// Whether a lowercase text speaks of a `switch`: it holds `switch`, or
/// `break` outside quoted literals, and it holds `case ` or `default:`.
pub open spec fn switch_form(lower: Seq<char>) -> bool {
    (has(lower, "switch"@) || outside(lower, "break"@)) && (has(lower, "case "@) || has(
        lower,
        "default:"@,
    ))
}

/// Whether a lowercase text speaks of a `switch`.
pub fn is_switch_form(lower: &str) -> (b: bool)
    ensures
        b == switch_form(lower@),
{
    let chars = chars_of(lower);
    let word = chars_of("break");
    (contains_str(&chars, "switch") || occurs_outside(&chars, &word)) && (contains_str(
        &chars,
        "case ",
    ) || contains_str(&chars, "default:"))
}

/// Whether a piece of code speaks of a `switch`, whatever its case.
pub fn has_switch_case(code: &str) -> (b: bool)
    ensures
        b == switch_form(lowercase(code@)),
{
    let lower = code.to_lowercase();
    is_switch_form(lower.as_str())
}

/// Whether a trimmed piece of code opens a block: it ends with `:` or `{`, or
/// holds `::begin(`.
pub open spec fn opener_form(t: Seq<char>) -> bool {
    last_is(t, ':') || last_is(t, '{') || has(t, "::begin("@)
}

/// Whether a piece of code opens a block.
pub fn is_php_block_opener(code: &str) -> (b: bool)
    ensures
        b == opener_form(trim(code@)),
{
    let chars = chars_of(code);
    let trimmed = trim_of(&chars);
    ends_with_char(trimmed, ':') || ends_with_char(trimmed, '{') || contains_str(
        trimmed,
        "::begin(",
    )
}

/// Whether a trimmed lowercase piece of code closes a block, or stands level
/// with the block's opener.
pub open spec fn closer_form(lower: Seq<char>) -> bool {
    "endif"@.is_prefix_of(lower) || "endforeach"@.is_prefix_of(lower) || "endfor"@.is_prefix_of(
        lower,
    ) || "endwhile"@.is_prefix_of(lower) || "endswitch"@.is_prefix_of(lower)
        || "else"@.is_prefix_of(lower) || "elseif"@.is_prefix_of(lower) || first_is(lower, '}')
        || outside(lower, "break;"@) || "case "@.is_prefix_of(lower) || "default:"@.is_prefix_of(
        lower,
    ) || has(lower, "::end("@)
}

/// Whether a trimmed lowercase piece of code closes a block.
pub fn is_closer_form(lower: &str) -> (b: bool)
    ensures
        b == closer_form(lower@),
{
    let chars = chars_of(lower);
    let word = chars_of("break;");
    starts_with_str(&chars, "endif") || starts_with_str(&chars, "endforeach") || starts_with_str(
        &chars,
        "endfor",
    ) || starts_with_str(&chars, "endwhile") || starts_with_str(&chars, "endswitch")
        || starts_with_str(&chars, "else") || starts_with_str(&chars, "elseif")
        || starts_with_char(&chars, '}') || occurs_outside(&chars, &word) || starts_with_str(
        &chars,
        "case ",
    ) || starts_with_str(&chars, "default:") || contains_str(&chars, "::end(")
}

/// The lowercase form of a piece of code without the white space around it.
pub fn lowered(code: &str) -> (r: String)
    ensures
        r@ == lowercase(trim(code@)),
{
    let chars = chars_of(code);
    let trimmed = string_of(trim_of(&chars));
    trimmed.as_str().to_lowercase()
}

/// Whether a piece of code closes a block, whatever its case.
pub fn is_php_block_closer(code: &str) -> (b: bool)
    ensures
        b == closer_form(lowercase(trim(code@))),
{
    let lower = lowered(code);
    is_closer_form(lower.as_str())
}

/// Whether a trimmed lowercase piece of code is a label of a `switch`.
pub open spec fn peer_form(lower: Seq<char>) -> bool {
    "case "@.is_prefix_of(lower) || "default:"@.is_prefix_of(lower)
}

/// Whether a trimmed lowercase piece of code is a label of a `switch`.
pub fn is_peer_form(lower: &str) -> (b: bool)
    ensures
        b == peer_form(lower@),
{
    let chars = chars_of(lower);
    starts_with_str(&chars, "case ") || starts_with_str(&chars, "default:")
}

/// Whether a piece of code is a label of a `switch`, whatever its case.
pub fn is_switch_case_peer(code: &str) -> (b: bool)
    ensures
        b == peer_form(lowercase(trim(code@))),
{
    let lower = lowered(code);
    is_peer_form(lower.as_str())
}

/// Whether a line, trimmed, is an import or a `declare`.
pub open spec fn header_line(line: Seq<char>) -> bool {
    "use "@.is_prefix_of(trim(line)) || "declare("@.is_prefix_of(trim(line))
}

/// Whether a piece of code holds a line that is an import or a `declare`.
pub open spec fn header_block(s: Seq<char>) -> bool {
    exists|k: int| 0 <= k < lines(s).len() && header_line(#[trigger] lines(s)[k])
}

/// Whether a line, trimmed, is an import or a `declare`.
pub fn is_header_line(line: &[char]) -> (b: bool)
    ensures
        b == header_line(line@),
{
    let t = trim_of(line);
    starts_with_str(t, "use ") || starts_with_str(t, "declare(")
}

/// Whether a piece of code holds a line that is an import or a `declare`.
pub fn is_header_php_block(code: &str) -> (b: bool)
    ensures
        b == header_block(code@),
{
    let chars = chars_of(code);
    let rows = lines_of(&chars);
    let mut k: usize = 0;
    while k < rows.len()
        invariant
            k <= rows@.len(),
            texts(rows@) == lines(code@),
            forall|j: int| 0 <= j < k ==> !header_line(#[trigger] lines(code@)[j]),
        decreases rows.len() - k,
    {
        let row = chars_of(rows[k].as_str());
        assert(texts(rows@)[k as int] == rows@[k as int]@);
        if is_header_line(&row) {
            return true;
        }
        k += 1;
    }
    false
}

/// The number of closing brackets that `s` has at index `i` and behind it
/// without a break.
pub open spec fn closer_run(s: Seq<char>, i: int) -> nat
    decreases s.len() - i,
{
    if 0 <= i < s.len() && closes(s[i]) {
        1 + closer_run(s, i + 1)
    } else {
        0
    }
}

/// Counts the closing brackets that `s` begins with.
pub fn count_leading_closers(s: &str) -> (n: usize)
    ensures
        n == closer_run(s@, 0),
{
    let chars = chars_of(s);
    let mut i: usize = 0;
    while i < chars.len() && closer(chars[i])
        invariant
            i <= chars@.len(),
            i + closer_run(chars@, i as int) == closer_run(chars@, 0),
        decreases chars.len() - i,
    {
        i += 1;
    }
    i
}

/// The number of opening brackets in `s` from index `i` on, outside quoted
/// literals.
pub open spec fn opens_from(s: Seq<char>, i: int) -> nat
    decreases s.len() - i,
{
    if i < 0 || i >= s.len() {
        0
    } else if is_quote(s[i]) {
        proof {
            lemma_literal_end(s, i);
        }
        opens_from(s, literal_end(s, i))
    } else if opens(s[i]) {
        1 + opens_from(s, i + 1)
    } else {
        opens_from(s, i + 1)
    }
}

/// The number of closing brackets in `s` from index `i` on, outside quoted
/// literals.
pub open spec fn closes_from(s: Seq<char>, i: int) -> nat
    decreases s.len() - i,
{
    if i < 0 || i >= s.len() {
        0
    } else if is_quote(s[i]) {
        proof {
            lemma_literal_end(s, i);
        }
        closes_from(s, literal_end(s, i))
    } else if closes(s[i]) {
        1 + closes_from(s, i + 1)
    } else {
        closes_from(s, i + 1)
    }
}

/// Counts the opening and the closing brackets of `s` outside quoted literals.
pub fn count_brackets(s: &str) -> (r: (usize, usize))
    ensures
        r.0 == opens_from(s@, 0),
        r.1 == closes_from(s@, 0),
{
    let chars = chars_of(s);
    brackets(&chars)
}

/// Counts the opening and the closing brackets of `chars` outside quoted
/// literals.
pub fn brackets(chars: &[char]) -> (r: (usize, usize))
    ensures
        r.0 == opens_from(chars@, 0),
        r.1 == closes_from(chars@, 0),
        r.0 + r.1 <= chars@.len(),
{
    let len = chars.len();
    let mut openers: usize = 0;
    let mut closers: usize = 0;
    let mut i: usize = 0;
    while i < len
        invariant
            i <= len == chars@.len(),
            openers + closers <= i,
            openers + opens_from(chars@, i as int) == opens_from(chars@, 0),
            closers + closes_from(chars@, i as int) == closes_from(chars@, 0),
        decreases len - i,
    {
        let ch = chars[i];
        if quote(ch) {
            i = skip_literal(chars, i);
        } else {
            if opener(ch) {
                openers += 1;
            } else if closer(ch) {
                closers += 1;
            }
            i += 1;
        }
    }
    (openers, closers)
}

/// Copies the quoted literal that begins at `start` to `result`, and returns
/// the index behind it.
pub fn skip_string_literal(chars: &[char], start: usize, result: &mut String) -> (next: usize)
    requires
        start < chars@.len(),
    ensures
        next == literal_end(chars@, start as int),
        start < next <= chars@.len(),
        final(result)@ == old(result)@ + chars@.subrange(start as int, next as int),
{
    let e = skip_literal(chars, start);
    let literal = string_of(slice_subrange(chars, start, e));
    result.append(literal.as_str());
    e
}

/// Whether `kw` stands in `s` at index `pos` and no letter or digit stands
/// before it.
pub open spec fn keyword_at(s: Seq<char>, pos: int, kw: Seq<char>) -> bool {
    occurs_at(s, kw, pos) && !(pos > 0 && alphanumeric(s[pos - 1]))
}

/// Whether `keyword` stands in `chars` at index `pos` as the start of a word.
pub fn matches_keyword_at(chars: &[char], pos: usize, keyword: &str) -> (b: bool)
    ensures
        b == keyword_at(chars@, pos as int, keyword@),
{
    let kw = chars_of(keyword);
    if !matches_at(chars, &kw, pos) {
        return false;
    }
    if pos > 0 && crate::text::is_letter_or_digit(chars[pos - 1]) {
        return false;
    }
    true
}

/// `out` with the opener of a doc comment, which begins at index `i`, moved
/// to a line of its own.
pub open spec fn opener_apart(s: Seq<char>, i: int, out: Seq<char>) -> Seq<char> {
    if s[i] == '/' && i + 2 < s.len() && s[i + 1] == '*' && s[i + 2] == '*' && !last_is(out, '\n')
        && out.len() > 1 {
        out.drop_last().push('\n').push(out.last())
    } else {
        out
    }
}

/// `out` with the closer of a doc comment, which ends at index `i`, moved to
/// a line of its own, and an empty line behind it where code follows.
pub open spec fn closer_apart(s: Seq<char>, i: int, out: Seq<char>) -> Seq<char> {
    if s[i] == '/' && out.len() >= 2 && out[out.len() - 1] == '/' && out[out.len() - 2] == '*' {
        let cut = out.subrange(0, out.len() - 2);
        let head = if last_is(cut, '\n') {
            cut
        } else {
            trim_end(cut).push('\n')
        };
        let closed = head + "*/\n"@;
        if i + 1 < s.len() && s[i + 1] != '\n' {
            closed.push('\n')
        } else {
            closed
        }
    } else {
        out
    }
}

/// `out` with the `*` at index `i`, which begins a tag, moved to a line of
/// its own.
pub open spec fn tag_apart(s: Seq<char>, i: int, out: Seq<char>) -> Seq<char> {
    if s[i] == '*' && i + 2 < s.len() && s[i + 1] == ' ' && s[i + 2] == '@' && out.len() > 0
        && !last_is(out, '\n') && !last_is(out, '/') && !"/**"@.is_suffix_of(out) {
        out.drop_last().push('\n').push(s[i])
    } else {
        out
    }
}

/// `out` after the character at index `i` has been copied to it, with the
/// parts of a doc comment set apart.
pub open spec fn comment_apart(s: Seq<char>, i: int, out: Seq<char>) -> Seq<char> {
    tag_apart(s, i, closer_apart(s, i, opener_apart(s, i, out)))
}

fn handle_comment_boundaries(chars: &[char], i: usize, ch: char, result: &mut Vec<char>)
    requires
        i < chars@.len(),
        ch == chars@[i as int],
    ensures
        final(result)@ == comment_apart(chars@, i as int, old(result)@),
{
    let len = chars.len();
    if ch == '/' && len - i > 2 && chars[i + 1] == '*' && chars[i + 2] == '*' && !ends_with_char(
        result,
        '\n',
    ) && result.len() > 1 {
        let ghost before = result@;
        let last = result[result.len() - 1];
        result.pop();
        assert(result@ =~= before.drop_last());
        result.push('\n');
        result.push(last);
    }
    let ghost first = result@;
    assert(first == opener_apart(chars@, i as int, old(result)@));
    if ch == '/' && result.len() >= 2 && result[result.len() - 1] == '/' && result[result.len()
        - 2] == '*' {
        result.pop();
        result.pop();
        assert(result@ =~= first.subrange(0, first.len() - 2));
        if !ends_with_char(result, '\n') {
            let kept = trim_end_of(result).len();
            result.truncate(kept);
            result.push('\n');
        }
        crate::text::append_str(result, "*/\n");
        if len - i > 1 && chars[i + 1] != '\n' {
            result.push('\n');
        }
    }
    let ghost second = result@;
    assert(second == closer_apart(chars@, i as int, first));
    if ch == '*' && len - i > 2 && chars[i + 1] == ' ' && chars[i + 2] == '@' && result.len() > 0
        && !ends_with_char(result, '\n') && !ends_with_char(result, '/')
        && !crate::text::ends_with_str(result, "/**") {
        result.pop();
        assert(result@ =~= second.drop_last());
        result.push('\n');
        result.push(ch);
    }
}

/// What a character adds to the depth of round brackets.
pub open spec fn paren_step(c: char) -> int {
    if c == '(' {
        1
    } else if c == ')' {
        -1
    } else {
        0
    }
}

/// `out` before the character at index `i` is copied: a label of a `switch`
/// outside round brackets begins a new line.
pub open spec fn label_apart(s: Seq<char>, i: int, depth: int, out: Seq<char>) -> Seq<char> {
    if depth <= 0 && !last_is(out, '\n') && trim_end(out).len() > 0 && (keyword_at(s, i, "case "@)
        || keyword_at(s, i, "default:"@)) {
        out.push('\n')
    } else {
        out
    }
}

/// `out` with the character at index `i` copied to it: a `;` outside round
/// brackets ends its line.
pub open spec fn copied(s: Seq<char>, i: int, depth: int, out: Seq<char>) -> Seq<char> {
    if s[i] == ';' && depth <= 0 && i + 1 < s.len() && s[i + 1] != '\n' {
        out.push(s[i]).push('\n')
    } else {
        out.push(s[i])
    }
}

/// The statements of `s` from index `i` on, one to a line, behind what `out`
/// holds. `depth` is the depth of round brackets before index `i`.
pub open spec fn statements_from(s: Seq<char>, i: int, depth: int, out: Seq<char>) -> Seq<char>
    decreases s.len() - i,
{
    if i < 0 || i >= s.len() {
        out
    } else if is_quote(s[i]) {
        proof {
            lemma_literal_end(s, i);
        }
        statements_from(s, literal_end(s, i), depth, out + s.subrange(i, literal_end(s, i)))
    } else {
        let d = depth + paren_step(s[i]);
        statements_from(s, i + 1, d, comment_apart(s, i, copied(s, i, d, label_apart(s, i, d, out))))
    }
}

/// A piece of code with its statements one to a line: behind a line feed at
/// the start, the text of `s` with a line feed behind each `;` that stands
/// outside round brackets and quoted literals, a line feed before each label
/// of a `switch` there, and the parts of doc comments set apart.
pub open spec fn statements(s: Seq<char>) -> Seq<char> {
    statements_from(s, 0, 0, seq!['\n'])
}

/// Puts the statements of a piece of code one to a line.
pub fn normalize_statements(code: &str) -> (r: String)
    ensures
        r@ == statements(code@),
{
    let chars = chars_of(code);
    let len = chars.len();
    let mut result: Vec<char> = Vec::new();
    result.push('\n');
    assert(result@ =~= seq!['\n']);
    let mut i: usize = 0;
    let mut paren_depth: i128 = 0;
    while i < len
        invariant
            i <= len == chars@.len(),
            chars@ == code@,
            -i <= paren_depth <= i,
            statements_from(chars@, i as int, paren_depth as int, result@) == statements(code@),
        decreases len - i,
    {
        let ch = chars[i];
        if quote(ch) {
            let e = skip_literal(&chars, i);
            append_chars(&mut result, slice_subrange(&chars, i, e));
            i = e;
        } else {
            if ch == '(' {
                paren_depth += 1;
            } else if ch == ')' {
                paren_depth -= 1;
            }
            if paren_depth <= 0 && !ends_with_char(&result, '\n') && trim_end_of(&result).len() > 0
                && (matches_keyword_at(&chars, i, "case ") || matches_keyword_at(
                &chars,
                i,
                "default:",
            )) {
                result.push('\n');
            }
            result.push(ch);
            if ch == ';' && paren_depth <= 0 && i + 1 < len && chars[i + 1] != '\n' {
                result.push('\n');
            }
            handle_comment_boundaries(&chars, i, ch, &mut result);
            i += 1;
        }
    }
    string_of(&result)
}

/// The depth of nesting held within bounds: never below zero.
pub open spec fn held(depth: int) -> int {
    if depth < 0 {
        0
    } else if depth > i32::MAX {
        i32::MAX as int
    } else {
        depth
    }
}

/// Whether a line goes on a conditional expression.
pub open spec fn goes_on(line: Seq<char>) -> bool {
    "? "@.is_prefix_of(line) || ": "@.is_prefix_of(line)
}

/// The depth at which a line is written: the depth before it, less the
/// closing brackets that it begins with, one more where it goes on a
/// conditional expression, and never below zero.
pub open spec fn write_depth(depth: int, line: Seq<char>) -> int {
    let d = depth - closer_run(line, 0) + if goes_on(line) {
        1int
    } else {
        0int
    };
    if d < 0 {
        0
    } else {
        d
    }
}

/// What a line adds to the depth: its opening brackets less its closing ones,
/// and never more than one.
pub open spec fn carry(line: Seq<char>) -> int {
    let net = opens_from(line, 0) - closes_from(line, 0);
    if net > 1 {
        1
    } else {
        net
    }
}

/// The depth behind a line.
pub open spec fn next_depth(depth: int, line: Seq<char>) -> int {
    held(depth + carry(line))
}

/// A line behind its padding: broken where it is too wide, and with one
/// space more where it begins with `*`.
pub open spec fn reindented(line: Seq<char>, pad: Seq<char>, depth: int) -> Seq<char> {
    let base = pad + repeated(INDENT@, write_depth(depth, line) as nat);
    match split_line(line, base) {
        Some(x) => x,
        None => if first_is(line, '*') {
            base + " "@ + line + "\n"@
        } else {
            base + line + "\n"@
        },
    }
}

proof fn lemma_starts(a: Seq<char>, rest: Seq<char>)
    ensures
        a.is_prefix_of(a + rest),
{
    assert(a =~= (a + rest).subrange(0, a.len() as int));
}

proof fn lemma_starts_more(a: Seq<char>, x: Seq<char>, rest: Seq<char>)
    requires
        a.is_prefix_of(x),
    ensures
        a.is_prefix_of(x + rest),
{
    assert(a =~= x.subrange(0, a.len() as int));
    assert(a =~= (x + rest).subrange(0, a.len() as int));
}

proof fn lemma_strip_keeps_prefix(a: Seq<char>, x: Seq<char>)
    requires
        a.is_prefix_of(x),
        !last_is(a, '\n'),
    ensures
        a.is_prefix_of(strip_trailing(x, '\n')),
    decreases x.len(),
{
    if x.len() > 0 && x.last() == '\n' {
        if x.len() == a.len() {
            assert(a =~= x);
        }
        assert(a =~= x.drop_last().subrange(0, a.len() as int));
        lemma_strip_keeps_prefix(a, x.drop_last());
    }
}

/// A line that is broken begins with its padding.
pub proof fn lemma_break_begins_with_pad(s: Seq<char>, pad: Seq<char>, lead: nat, trail: nat)
    requires
        !last_is(pad, '\n'),
    ensures
        break_in(s, pad, lead, trail) is Some ==> pad.is_prefix_of(
            break_in(s, pad, lead, trail).unwrap(),
        ),
    decreases s.len(),
{
    if break_in(s, pad, lead, trail) is Some {
        let x = break_in(s, pad, lead, trail).unwrap();
        if ternary(s) is Some {
            lemma_ternary(s);
            let q = ternary(s).unwrap().0;
            let c = ternary(s).unwrap().1;
            let cond = trim_end(s.subrange(0, q));
            crate::text::lemma_trim_end_len(s.subrange(0, q));
            lemma_break_begins_with_pad(cond, pad, lead, 0);
            let head = part_in(cond, pad, lead, 0);
            lemma_starts(pad, cond + "\n"@);
            assert(pad + cond + "\n"@ =~= pad + (cond + "\n"@));
            assert(pad.is_prefix_of(head));
            let yes = value_in(trim(s.subrange(q + 1, c)), deeper(pad), '?', 0);
            let no = value_in(trim(s.subrange(c + 1, s.len() as int)), deeper(pad), ':', trail);
            lemma_starts_more(pad, head, yes);
            lemma_starts_more(pad, head + yes, no);
        } else if call_parts(s) is Some {
            let parts = call_parts(s).unwrap();
            let rest = parts.0 + "\n"@ + items_text(parts.1, 0, deeper(pad), Style::Argument)
                + part_in(parts.2, pad, 0, trail);
            assert(x =~= pad + rest);
            lemma_starts(pad, rest);
        } else if call_of_list(s) is Some {
            let open = call_of_list(s).unwrap().0;
            let close = call_of_list(s).unwrap().1;
            let inner = trim(s.subrange(open + 1, close));
            let rest = (s.subrange(0, open + 1) + "["@) + "\n"@ + items_text(
                commas(inside(inner)),
                0,
                deeper(pad),
                Style::Argument,
            ) + part_in("]"@ + s.subrange(close, s.len() as int), pad, 0, trail);
            assert(x =~= pad + rest);
            lemma_starts(pad, rest);
        } else {
            lemma_array_arrow(s);
            let at = value_start(s);
            let key = s.subrange(0, at);
            let value = trim(s.subrange(at, s.len() as int));
            lemma_trim_len(s.subrange(at, s.len() as int));
            let head = head_in(key, " ["@, pad, lead);
            let room = width(" ["@);
            if crowded(pad, lead, key + " ["@, 0) && break_in(key, pad, lead, room) is Some {
                lemma_break_begins_with_pad(key, pad, lead, room);
                let split = break_in(key, pad, lead, room).unwrap();
                lemma_strip_keeps_prefix(pad, split);
                lemma_starts_more(pad, strip_trailing(split, '\n'), " ["@);
                lemma_starts_more(pad, strip_trailing(split, '\n') + " ["@, "\n"@);
            } else {
                assert(head =~= pad + (key + " ["@ + "\n"@));
                lemma_starts(pad, key + " ["@ + "\n"@);
            }
            let body = items_text(commas(inside(value)), 0, deeper(pad), Style::Value);
            lemma_starts_more(pad, head, body);
            lemma_starts_more(pad, head + body, pad);
            lemma_starts_more(pad, head + body + pad, "],\n"@);
        }
    }
}

/// A line is written behind the padding of its depth: where the padding of
/// the block does not end in a line feed, what is appended for the line
/// begins with that padding and four spaces for each level of the depth at
/// which it is written. That depth is the depth before the line, less the
/// closing brackets that the line begins with, one more where it goes on a
/// conditional expression, and never below zero.
pub proof fn law_line_begins_with_its_padding(line: Seq<char>, pad: Seq<char>, depth: int)
    requires
        !last_is(pad, '\n'),
    ensures
        (pad + repeated(INDENT@, write_depth(depth, line) as nat)).is_prefix_of(
            reindented(line, pad, depth),
        ),
        write_depth(depth, line) >= 0,
{
    let level = write_depth(depth, line) as nat;
    let base = pad + repeated(INDENT@, level);
    if level == 0 {
        assert(base =~= pad);
    } else {
        reveal_strlit("    ");
        assert(base.last() == repeated(INDENT@, level).last());
    }
    lemma_break_begins_with_pad(line, base, 0, 0);
    if split_line(line, base) is None {
        if first_is(line, '*') {
            assert(base + " "@ + line + "\n"@ =~= base + (" "@ + line + "\n"@));
            lemma_starts(base, " "@ + line + "\n"@);
        } else {
            assert(base + line + "\n"@ =~= base + (line + "\n"@));
            lemma_starts(base, line + "\n"@);
        }
    }
}

/// A line carries at most one level over to the next line, however many
/// brackets it opens, and the depth behind it is never below zero.
pub proof fn law_carry_is_at_most_one(depth: int, line: Seq<char>)
    requires
        depth >= 0,
    ensures
        0 <= next_depth(depth, line) <= depth + 1,
{
}

fn hold(depth: i128) -> (r: i32)
    ensures
        r == held(depth as int),
{
    if depth < 0 {
        0
    } else if depth > 2147483647 {
        2147483647
    } else {
        depth as i32
    }
}

/// Appends one line to `result` at the depth that it stands at, and moves
/// `depth` on to the depth behind it, which is never below zero.
pub fn emit_reindented_line(formatted: &str, pad: &str, depth: &mut i32, result: &mut String)
    ensures
        final(result)@ == old(result)@ + reindented(formatted@, pad@, *old(depth) as int),
        *final(depth) == next_depth(*old(depth) as int, formatted@),
        *final(depth) >= 0,
        *old(depth) >= 0 ==> *final(depth) <= *old(depth) + 1,
{
    let chars = chars_of(formatted);
    let leading = count_leading_closers(formatted);
    let is_ternary_cont = starts_with_str(&chars, "? ") || starts_with_str(&chars, ": ");
    let extra: i128 = if is_ternary_cont {
        1
    } else {
        0
    };
    let sum: i128 = *depth as i128 - leading as i128 + extra;
    let level: usize = if sum < 0 {
        0
    } else {
        sum as usize
    };
    let inner_pad = repeat(INDENT, level);
    let mut base_pad = String::from_str(pad);
    base_pad.append(inner_pad.as_str());
    let mut line = String::new();
    match try_split_long_line(formatted, base_pad.as_str()) {
        Some(split) => {
            line = split;
        },
        None => {
            line = base_pad;
            if starts_with_char(&chars, '*') {
                line.append(" ");
            }
            line.append(formatted);
            line.append("\n");
        },
    }
    result.append(line.as_str());
    let (openers, closers) = brackets(&chars);
    let net: i128 = openers as i128 - closers as i128;
    let step: i128 = if net > 1 {
        1
    } else {
        net
    };
    *depth = hold(*depth as i128 + step);
}

/// The rows that are not blank.
pub open spec fn filled_rows(rows: Seq<Seq<char>>) -> Seq<Seq<char>>
    decreases rows.len(),
{
    if rows.len() == 0 {
        Seq::empty()
    } else if blank(rows.last()) {
        filled_rows(rows.drop_last())
    } else {
        filled_rows(rows.drop_last()).push(rows.last())
    }
}

/// The lines of `s` that are not blank.
pub fn filled_lines_of(s: &[char]) -> (r: Vec<String>)
    ensures
        texts(r@) == filled_rows(lines(s@)),
{
    let rows = lines_of(s);
    let mut r: Vec<String> = Vec::new();
    let mut k: usize = 0;
    proof {
        lemma_texts_empty();
    }
    assert(texts(rows@).take(0) =~= Seq::<Seq<char>>::empty());
    while k < rows.len()
        invariant
            k <= rows@.len(),
            texts(r@) == filled_rows(texts(rows@).take(k as int)),
        decreases rows.len() - k,
    {
        let row = chars_of(rows[k].as_str());
        assert(texts(rows@).take(k + 1).drop_last() =~= texts(rows@).take(k as int));
        assert(texts(rows@).take(k + 1).last() == row@);
        if !is_blank(&row) {
            let t = rows[k].clone();
            proof {
                lemma_texts_push(r@, t);
            }
            r.push(t);
        }
        k += 1;
    }
    assert(texts(rows@).take(k as int) =~= texts(rows@));
    r
}

/// Whether a trimmed line opens a control block: its lowercase form begins
/// with `if`, `foreach`, `for` or `while` before a space or `(`, or with
/// `switch ` , and the line ends with `:`.
pub open spec fn control_opener(last: Seq<char>, lower: Seq<char>) -> bool {
    ("if "@.is_prefix_of(lower) || "if("@.is_prefix_of(lower) || "foreach "@.is_prefix_of(lower)
        || "foreach("@.is_prefix_of(lower) || "for "@.is_prefix_of(lower) || "for("@.is_prefix_of(
        lower,
    ) || "while "@.is_prefix_of(lower) || "while("@.is_prefix_of(lower) || "switch "@.is_prefix_of(
        lower,
    )) && last_is(last, ':')
}

/// Whether a trimmed line opens a control block; `lower` is its lowercase form.
pub fn is_control_opener(last: &str, lower: &str) -> (b: bool)
    ensures
        b == control_opener(last@, lower@),
{
    let chars = chars_of(lower);
    let line = chars_of(last);
    (starts_with_str(&chars, "if ") || starts_with_str(&chars, "if(") || starts_with_str(
        &chars,
        "foreach ",
    ) || starts_with_str(&chars, "foreach(") || starts_with_str(&chars, "for ") || starts_with_str(
        &chars,
        "for(",
    ) || starts_with_str(&chars, "while ") || starts_with_str(&chars, "while(") || starts_with_str(
        &chars,
        "switch ",
    )) && ends_with_char(&line, ':')
}

/// The index of the last row, at or before `end`, that is not blank; zero
/// where there is none behind the first.
pub open spec fn last_filled(rows: Seq<Seq<char>>, end: int) -> int
    decreases end,
{
    if end > 0 && end < rows.len() && blank(rows[end]) {
        last_filled(rows, end - 1)
    } else {
        end
    }
}

/// The index of the first row, at or behind `start` and before `end`, that
/// is not blank; `end` where there is none.
pub open spec fn first_filled(rows: Seq<Seq<char>>, start: int, end: int) -> int
    decreases end - start,
{
    if 0 <= start < end && start < rows.len() && blank(rows[start]) {
        first_filled(rows, start + 1, end)
    } else {
        start
    }
}

/// The header of a block: the lines of `s` from the first that is not blank
/// up to the last that is not blank, without that last one; where `s` has one
/// line, or nothing stands before its last line, the lines of `normal` that
/// are not blank, without the last.
pub open spec fn header_part(s: Seq<char>, normal: Seq<Seq<char>>) -> Seq<char> {
    let rows = lines(s);
    let end = last_filled(rows, rows.len() - 1);
    let start = first_filled(rows, 0, end);
    if rows.len() > 1 && start < end {
        joined(rows.subrange(start, end), "\n"@)
    } else {
        joined(normal.subrange(0, normal.len() - 1), "\n"@)
    }
}

/// The line that would open a control block at the end of `s`: the last
/// statement of `s`, trimmed. There is none where `s` opens no block, holds
/// fewer than two statements, or its last statement opens no control block.
pub open spec fn opener_part(s: Seq<char>) -> Option<Seq<char>> {
    let normal = filled_rows(lines(statements(s)));
    if !opener_form(trim(s)) || normal.len() < 2 {
        None
    } else if control_opener(trim(normal.last()), lowercase(trim(normal.last()))) {
        Some(trim(normal.last()))
    } else {
        None
    }
}

/// Parts a block that ends with the opener of a control block into what
/// stands before the opener and the opener.
pub fn split_header_and_opener(code: &str) -> (r: Option<(String, String)>)
    ensures
        r is Some == opener_part(code@) is Some,
        r is Some ==> opener_part(code@) == Some(r.unwrap().1@) && r.unwrap().0@ == header_part(
            code@,
            filled_rows(lines(statements(code@))),
        ),
{
    if !is_php_block_opener(code) {
        return None;
    }
    let normalized = normalize_statements(code);
    let normal_chars = chars_of(normalized.as_str());
    let rows = filled_lines_of(&normal_chars);
    if rows.len() < 2 {
        return None;
    }
    let last_chars = chars_of(rows[rows.len() - 1].as_str());
    assert(texts(rows@).last() == last_chars@);
    let last = string_of(trim_of(&last_chars));
    let lower = last.as_str().to_lowercase();
    if !is_control_opener(last.as_str(), lower.as_str()) {
        return None;
    }
    let chars = chars_of(code);
    let orig = lines_of(&chars);
    let mut header: Vec<char> = Vec::new();
    if orig.len() > 1 {
        let mut end: usize = orig.len() - 1;
        while end > 0 && is_blank_row(&orig, end)
            invariant
                end < orig@.len(),
                last_filled(texts(orig@), end as int) == last_filled(
                    texts(orig@),
                    orig@.len() - 1,
                ),
            decreases end,
        {
            end -= 1;
        }
        let mut start: usize = 0;
        while start < end && is_blank_row(&orig, start)
            invariant
                start <= end < orig@.len(),
                first_filled(texts(orig@), start as int, end as int) == first_filled(
                    texts(orig@),
                    0,
                    end as int,
                ),
            decreases end - start,
        {
            start += 1;
        }
        if start < end {
            append_joined(&mut header, orig.as_slice(), start, end, "\n");
            assert(header@ =~= joined(texts(orig@).subrange(start as int, end as int), "\n"@));
            return Some((string_of(&header), last));
        }
    }
    append_joined(&mut header, rows.as_slice(), 0, rows.len() - 1, "\n");
    assert(header@ =~= joined(texts(rows@).subrange(0, rows@.len() - 1), "\n"@));
    Some((string_of(&header), last))
}

fn is_blank_row(rows: &Vec<String>, k: usize) -> (b: bool)
    requires
        k < rows@.len(),
    ensures
        b == blank(texts(rows@)[k as int]),
{
    let row = chars_of(rows[k].as_str());
    is_blank(&row)
}

/// Whether the row at index `i` is joined with the rows behind it: it ends
/// with `?`, or the next row goes on a conditional expression.
pub open spec fn joins_next(rows: Seq<Seq<char>>, i: int) -> bool {
    last_is(trim(rows[i]), '?') || (i + 1 < rows.len() && goes_on(trim(rows[i + 1])))
}

/// The number of rows from index `i` on that are joined to the row before
/// them: up to a blank row, or up to and with a row that holds `;`.
pub open spec fn gathered(rows: Seq<Seq<char>>, i: int) -> nat
    decreases rows.len() - i,
{
    if i < 0 || i >= rows.len() || blank(rows[i]) {
        0
    } else if count_of(trim(rows[i]), ';') > 0 {
        1
    } else {
        1 + gathered(rows, i + 1)
    }
}

/// `text` with the rows that are joined to it, each trimmed and behind a
/// space.
pub open spec fn gather_text(rows: Seq<Seq<char>>, i: int, text: Seq<char>) -> Seq<char>
    decreases rows.len() - i,
{
    if i < 0 || i >= rows.len() || blank(rows[i]) {
        text
    } else if count_of(trim(rows[i]), ';') > 0 {
        text + " "@ + trim(rows[i])
    } else {
        gather_text(rows, i + 1, text + " "@ + trim(rows[i]))
    }
}

pub proof fn lemma_gathered(rows: Seq<Seq<char>>, i: int)
    requires
        0 <= i <= rows.len(),
    ensures
        i + gathered(rows, i) <= rows.len(),
    decreases rows.len() - i,
{
    if i < rows.len() && !blank(rows[i]) && count_of(trim(rows[i]), ';') == 0 {
        lemma_gathered(rows, i + 1);
    }
}

/// The rows from index `i` on, with the rows of each conditional expression
/// joined into one.
pub open spec fn ternary_rows(rows: Seq<Seq<char>>, i: int) -> Seq<Seq<char>>
    decreases rows.len() - i,
{
    if i < 0 || i >= rows.len() {
        Seq::empty()
    } else if !joins_next(rows, i) {
        seq![rows[i]] + ternary_rows(rows, i + 1)
    } else {
        proof {
            lemma_gathered(rows, i + 1);
        }
        seq![gather_text(rows, i + 1, trim(rows[i]))] + ternary_rows(
            rows,
            i + 1 + gathered(rows, i + 1),
        )
    }
}

/// A piece of code with each conditional expression that stood on several
/// lines on one line.
pub open spec fn ternaries_joined(s: Seq<char>) -> Seq<char> {
    joined(ternary_rows(lines(s), 0), "\n"@)
}

/// Joins the lines of each conditional expression into one line.
pub fn join_ternary_lines(code: &str) -> (r: String)
    ensures
        r@ == ternaries_joined(code@),
{
    let chars = chars_of(code);
    let rows = lines_of(&chars);
    let mut result: Vec<String> = Vec::new();
    let mut i: usize = 0;
    proof {
        lemma_texts_empty();
    }
    while i < rows.len()
        invariant
            i <= rows@.len(),
            texts(result@) + ternary_rows(texts(rows@), i as int) == ternary_rows(texts(rows@), 0),
        decreases rows.len() - i,
    {
        let ghost prev = texts(result@);
        let ghost at = i as int;
        let row = chars_of(rows[i].as_str());
        assert(texts(rows@)[i as int] == row@);
        let trimmed = trim_of(&row);
        let ends_with_ternary = ends_with_char(trimmed, '?');
        let mut next_is_continuation = false;
        if i + 1 < rows.len() {
            let next = chars_of(rows[i + 1].as_str());
            assert(texts(rows@)[i + 1] == next@);
            let t = trim_of(&next);
            next_is_continuation = starts_with_str(t, "? ") || starts_with_str(t, ": ");
        }
        if !(ends_with_ternary || next_is_continuation) {
            let kept = rows[i].clone();
            proof {
                lemma_texts_push(result@, kept);
            }
            result.push(kept);
            i += 1;
            assert(texts(result@) + ternary_rows(texts(rows@), i as int) =~= prev + ternary_rows(
                texts(rows@),
                at,
            ));
        } else {
            let mut text = string_of(trimmed);
            i += 1;
            let mut done = false;
            while i < rows.len() && !done
                invariant
                    at < i <= rows@.len(),
                    !done ==> gather_text(texts(rows@), i as int, text@) == gather_text(
                        texts(rows@),
                        at + 1,
                        trim(texts(rows@)[at]),
                    ),
                    !done ==> i + gathered(texts(rows@), i as int) == at + 1 + gathered(
                        texts(rows@),
                        at + 1,
                    ),
                    done ==> text@ == gather_text(
                        texts(rows@),
                        at + 1,
                        trim(texts(rows@)[at]),
                    ),
                    done ==> i == at + 1 + gathered(texts(rows@), at + 1),
                decreases rows.len() - i + if done {
                    0int
                } else {
                    1int
                },
            {
                let next_row = chars_of(rows[i].as_str());
                assert(texts(rows@)[i as int] == next_row@);
                let next = trim_of(&next_row);
                if next.len() == 0 {
                    done = true;
                } else {
                    text.append(" ");
                    text.append(string_of(next).as_str());
                    i += 1;
                    if contains_char(next, ';') {
                        done = true;
                    }
                }
            }
            proof {
                lemma_texts_push(result@, text);
            }
            result.push(text);
            assert(texts(result@) + ternary_rows(texts(rows@), i as int) =~= prev + ternary_rows(
                texts(rows@),
                at,
            ));
        }
    }
    let mut out: Vec<char> = Vec::new();
    append_joined(&mut out, result.as_slice(), 0, result.len(), "\n");
    assert(texts(result@).subrange(0, result@.len() as int) =~= texts(result@));
    assert(texts(result@) + ternary_rows(texts(rows@), i as int) =~= texts(result@));
    string_of(&out)
}

/// The number of times that `q` stands in `s` from index `i` on, where a
/// backslash takes the character behind it along.
pub open spec fn unescaped_from(s: Seq<char>, i: int, q: char) -> nat
    decreases s.len() - i,
{
    if i < 0 || i >= s.len() {
        0
    } else if s[i] == '\\' {
        if i + 1 < s.len() {
            unescaped_from(s, i + 2, q)
        } else {
            0
        }
    } else if s[i] == q {
        1 + unescaped_from(s, i + 1, q)
    } else {
        unescaped_from(s, i + 1, q)
    }
}

/// Counts the quotes `quote` of a line that no backslash precedes.
pub fn count_unescaped_quotes(line: &str, quote: char) -> (n: usize)
    ensures
        n == unescaped_from(line@, 0, quote),
{
    let chars = chars_of(line);
    let len = chars.len();
    let mut count: usize = 0;
    let mut i: usize = 0;
    while i < len
        invariant
            i <= len == chars@.len(),
            count <= i,
            count + unescaped_from(chars@, i as int, quote) == unescaped_from(chars@, 0, quote),
        decreases len - i,
    {
        if chars[i] == '\\' {
            if len - i > 1 {
                i += 2;
            } else {
                i = len;
            }
        } else {
            if chars[i] == quote {
                count += 1;
            }
            i += 1;
        }
    }
    count
}

/// The quote of the literal that is open at the end of `s`, read from index
/// `i` on with `open` as the quote that is open there.
pub open spec fn open_quote_from(s: Seq<char>, i: int, open: Option<char>) -> Option<char>
    decreases s.len() - i,
{
    if i < 0 || i >= s.len() {
        open
    } else if s[i] == '\\' && open is Some {
        if i + 1 < s.len() {
            open_quote_from(s, i + 2, open)
        } else {
            open
        }
    } else if open is Some {
        if s[i] == open.unwrap() {
            open_quote_from(s, i + 1, None)
        } else {
            open_quote_from(s, i + 1, open)
        }
    } else if is_quote(s[i]) {
        open_quote_from(s, i + 1, Some(s[i]))
    } else {
        open_quote_from(s, i + 1, open)
    }
}

/// The quote of the literal that a line leaves open.
pub open spec fn open_quote(s: Seq<char>) -> Option<char> {
    open_quote_from(s, 0, None)
}

/// Finds the quote of the literal that a line leaves open.
pub fn detect_open_quote(line: &str) -> (r: Option<char>)
    ensures
        r == open_quote(line@),
{
    let chars = chars_of(line);
    let len = chars.len();
    let mut i: usize = 0;
    let mut in_str: Option<char> = None;
    while i < len
        invariant
            i <= len == chars@.len(),
            open_quote_from(chars@, i as int, in_str) == open_quote(chars@),
        decreases len - i,
    {
        let ch = chars[i];
        if ch == '\\' && in_str.is_some() {
            if len - i > 1 {
                i += 2;
            } else {
                i = len;
            }
        } else {
            match in_str {
                Some(q) => {
                    if ch == q {
                        in_str = None;
                    }
                },
                None => {
                    if quote(ch) {
                        in_str = Some(ch);
                    }
                },
            }
            i += 1;
        }
    }
    in_str
}

/// Whether a line leaves a quoted literal open.
pub fn has_unclosed_string(line: &str) -> (b: bool)
    ensures
        b == open_quote(line@) is Some,
{
    detect_open_quote(line).is_some()
}

/// `s` without the run of `c` at either end.
pub open spec fn strip_both(s: Seq<char>, c: char) -> Seq<char> {
    strip_trailing(strip_leading(s, c), c)
}

/// The marker of the heredoc that a line opens: what follows the first
/// `<<<`, trimmed, without quotes around it and commas behind it. There is
/// none where no `<<<` stands in the line, or where what follows holds
/// anything but letters, digits and underscores.
pub open spec fn heredoc_marker(s: Seq<char>) -> Option<Seq<char>> {
    match first_occurrence(s, "<<<"@, 0) {
        None => None,
        Some(pos) => {
            let after = trim(s.subrange(pos + "<<<"@.len(), s.len() as int));
            let marker = strip_trailing(strip_both(strip_both(after, '\''), '"'), ',');
            if after.len() > 0 && marker.len() > 0 && word_len(marker, 0) == marker.len() {
                Some(marker)
            } else {
                None
            }
        },
    }
}

/// Finds the marker of the heredoc that a line opens.
pub fn detect_heredoc(line: &str) -> (r: Option<String>)
    ensures
        r is Some == heredoc_marker(line@) is Some,
        r is Some ==> heredoc_marker(line@) == Some(r.unwrap()@),
{
    let chars = chars_of(line);
    let len = chars.len();
    let pattern = chars_of("<<<");
    let pos = match find(&chars, &pattern) {
        Some(p) => p,
        None => {
            return None;
        },
    };
    let after = trim_of(slice_subrange(&chars, pos + pattern.len(), len));
    if after.len() == 0 {
        return None;
    }
    let a = strip_trailing_of(strip_leading_of(after, '\''), '\'');
    let b = strip_trailing_of(strip_leading_of(a, '"'), '"');
    let marker = strip_trailing_of(b, ',');
    let mut k: usize = 0;
    while k < marker.len() && (crate::text::is_letter_or_digit(marker[k]) || marker[k] == '_')
        invariant
            k <= marker@.len(),
            k + word_len(marker@, k as int) == word_len(marker@, 0),
        decreases marker.len() - k,
    {
        k += 1;
    }
    proof {
        lemma_word_len(marker@, 0);
    }
    if k == marker.len() && marker.len() > 0 {
        Some(string_of(marker))
    } else {
        None
    }
}

/// The number of `;` in `s` from index `i` on that stand outside quoted
/// literals and round brackets.
pub open spec fn semicolons_from(s: Seq<char>, i: int, depth: int) -> nat
    decreases s.len() - i,
{
    if i < 0 || i >= s.len() {
        0
    } else if is_quote(s[i]) {
        proof {
            lemma_literal_end(s, i);
        }
        semicolons_from(s, literal_end(s, i), depth)
    } else if s[i] == ';' && depth <= 0 {
        1 + semicolons_from(s, i + 1, depth)
    } else {
        semicolons_from(s, i + 1, depth + paren_step(s[i]))
    }
}

/// Counts the `;` of a piece of code outside quoted literals and round
/// brackets.
pub fn count_semicolons_outside_parens(code: &str) -> (n: usize)
    ensures
        n == semicolons_from(code@, 0, 0),
{
    let chars = chars_of(code);
    let len = chars.len();
    let mut count: usize = 0;
    let mut depth: i128 = 0;
    let mut i: usize = 0;
    while i < len
        invariant
            i <= len == chars@.len(),
            chars@ == code@,
            count <= i,
            -i <= depth <= i,
            count + semicolons_from(chars@, i as int, depth as int) == semicolons_from(
                code@,
                0,
                0,
            ),
        decreases len - i,
    {
        let c = chars[i];
        if quote(c) {
            i = skip_literal(&chars, i);
        } else {
            if c == '(' {
                depth += 1;
            } else if c == ')' {
                depth -= 1;
            } else if c == ';' && depth <= 0 {
                count += 1;
            }
            i += 1;
        }
    }
    count
}

/// Whether `a` stands before `b` in the order of the dictionary, character
/// by character.
pub open spec fn before(a: Seq<char>, b: Seq<char>) -> bool
    decreases a.len(),
{
    if b.len() == 0 {
        false
    } else if a.len() == 0 {
        true
    } else if a[0] != b[0] {
        a[0] < b[0]
    } else {
        before(a.drop_first(), b.drop_first())
    }
}

/// Whether `a` stands before `b` in the order of the dictionary.
pub fn is_before(a: &[char], b: &[char]) -> (r: bool)
    ensures
        r == before(a@, b@),
{
    let mut i: usize = 0;
    assert(a@.subrange(0, a@.len() as int) =~= a@);
    assert(b@.subrange(0, b@.len() as int) =~= b@);
    while i < a.len() && i < b.len() && a[i] == b[i]
        invariant
            i <= a@.len(),
            i <= b@.len(),
            before(a@, b@) == before(
                a@.subrange(i as int, a@.len() as int),
                b@.subrange(i as int, b@.len() as int),
            ),
        decreases a.len() - i,
    {
        assert(a@.subrange(i as int, a@.len() as int).drop_first() =~= a@.subrange(
            i + 1,
            a@.len() as int,
        ));
        assert(b@.subrange(i as int, b@.len() as int).drop_first() =~= b@.subrange(
            i + 1,
            b@.len() as int,
        ));
        i += 1;
    }
    if i >= b.len() {
        false
    } else if i >= a.len() {
        true
    } else {
        a[i] < b[i]
    }
}

/// The text by which an import is ordered: the line, trimmed, in lowercase.
pub open spec fn sort_key(line: Seq<char>) -> Seq<char> {
    lowercase(trim(line))
}

/// Where `x` goes into rows that are in order: behind every row whose key
/// does not stand behind its own.
pub open spec fn insertion_point(sorted: Seq<Seq<char>>, x: Seq<char>) -> int
    decreases sorted.len(),
{
    if sorted.len() == 0 {
        0
    } else if before(sort_key(x), sort_key(sorted.last())) {
        insertion_point(sorted.drop_last(), x)
    } else {
        sorted.len() as int
    }
}

/// The rows in the order of their keys; rows with the same key keep their
/// order.
pub open spec fn sorted_by_key(rows: Seq<Seq<char>>) -> Seq<Seq<char>>
    decreases rows.len(),
{
    if rows.len() == 0 {
        Seq::empty()
    } else {
        sorted_by_key(rows.drop_last()).insert(
            insertion_point(sorted_by_key(rows.drop_last()), rows.last()),
            rows.last(),
        )
    }
}

proof fn lemma_before_one_way(a: Seq<char>, b: Seq<char>)
    ensures
        before(a, b) ==> !before(b, a),
    decreases a.len(),
{
    if a.len() > 0 && b.len() > 0 && a[0] == b[0] {
        lemma_before_one_way(a.drop_first(), b.drop_first());
    }
}

proof fn lemma_before_between(a: Seq<char>, b: Seq<char>, c: Seq<char>)
    ensures
        before(a, c) ==> before(a, b) || before(b, c),
    decreases a.len(),
{
    if a.len() > 0 && b.len() > 0 && c.len() > 0 && a[0] == b[0] && b[0] == c[0] {
        lemma_before_between(a.drop_first(), b.drop_first(), c.drop_first());
    }
}

/// Whether the rows stand in the order of their keys: no row stands behind
/// a row whose key comes after its own.
pub open spec fn ordered(rows: Seq<Seq<char>>) -> bool {
    forall|i: int, j: int|
        0 <= i < j < rows.len() ==> !before(sort_key(#[trigger] rows[j]), sort_key(#[trigger] rows[i]))
}

proof fn lemma_insertion_facts(sorted: Seq<Seq<char>>, x: Seq<char>)
    ensures
        0 <= insertion_point(sorted, x) <= sorted.len(),
        forall|j: int|
            insertion_point(sorted, x) <= j < sorted.len() ==> before(
                sort_key(x),
                sort_key(#[trigger] sorted[j]),
            ),
        insertion_point(sorted, x) > 0 ==> !before(
            sort_key(x),
            sort_key(sorted[insertion_point(sorted, x) - 1]),
        ),
    decreases sorted.len(),
{
    if sorted.len() > 0 && before(sort_key(x), sort_key(sorted.last())) {
        lemma_insertion_facts(sorted.drop_last(), x);
        let p = insertion_point(sorted, x);
        assert forall|j: int| p <= j < sorted.len() implies before(
            sort_key(x),
            sort_key(#[trigger] sorted[j]),
        ) by {
            if j < sorted.len() - 1 {
                assert(sorted.drop_last()[j] == sorted[j]);
            }
        }
        if p > 0 {
            assert(sorted.drop_last()[p - 1] == sorted[p - 1]);
        }
    }
}

proof fn lemma_insert_ordered(sorted: Seq<Seq<char>>, x: Seq<char>)
    requires
        ordered(sorted),
    ensures
        ordered(sorted.insert(insertion_point(sorted, x), x)),
        sorted.insert(insertion_point(sorted, x), x).to_multiset() == sorted.to_multiset().insert(
            x,
        ),
{
    lemma_insertion_facts(sorted, x);
    let p = insertion_point(sorted, x);
    let t = sorted.insert(p, x);
    assert forall|i: int, j: int| 0 <= i < j < t.len() implies !before(
        sort_key(#[trigger] t[j]),
        sort_key(#[trigger] t[i]),
    ) by {
        if j == p {
            assert(t[i] == sorted[i]);
            if i < p - 1 {
                lemma_before_between(sort_key(x), sort_key(sorted[p - 1]), sort_key(sorted[i]));
                assert(!before(sort_key(sorted[p - 1]), sort_key(sorted[i])));
            }
        } else if i == p {
            assert(t[j] == sorted[j - 1]);
            lemma_before_one_way(sort_key(x), sort_key(sorted[j - 1]));
        } else {
            let a = if i < p {
                i
            } else {
                i - 1
            };
            let b = if j < p {
                j
            } else {
                j - 1
            };
            assert(t[i] == sorted[a]);
            assert(t[j] == sorted[b]);
            assert(!before(sort_key(sorted[b]), sort_key(sorted[a])));
        }
    }
    assert(t.remove(p) =~= sorted);
    vstd::seq_lib::to_multiset_remove(t, p);
    assert(t[p] == x);
    t.to_multiset_ensures();
    assert(t.contains(x));
    assert(t.to_multiset() =~= sorted.to_multiset().insert(x));
}

/// Sorting puts in order and loses nothing: the rows come out in the order
/// of their keys, and they are the rows that went in, each as often.
pub proof fn law_sorted_is_ordered_permutation(rows: Seq<Seq<char>>)
    ensures
        ordered(sorted_by_key(rows)),
        sorted_by_key(rows).to_multiset() == rows.to_multiset(),
        sorted_by_key(rows).len() == rows.len(),
    decreases rows.len(),
{
    if rows.len() > 0 {
        law_sorted_is_ordered_permutation(rows.drop_last());
        lemma_insert_ordered(sorted_by_key(rows.drop_last()), rows.last());
        lemma_insertion_facts(sorted_by_key(rows.drop_last()), rows.last());
        assert(rows =~= rows.drop_last().push(rows.last()));
        vstd::seq_lib::to_multiset_build(rows.drop_last(), rows.last());
    } else {
        assert(rows =~= Seq::<Seq<char>>::empty());
    }
}

/// Puts rows into the order of their keys.
pub fn sort_rows(rows: &Vec<String>) -> (r: Vec<String>)
    ensures
        texts(r@) == sorted_by_key(texts(rows@)),
        ordered(texts(r@)),
        texts(r@).to_multiset() == texts(rows@).to_multiset(),
{
    proof {
        law_sorted_is_ordered_permutation(texts(rows@));
    }
    let mut sorted: Vec<String> = Vec::new();
    let mut k: usize = 0;
    proof {
        lemma_texts_empty();
    }
    assert(texts(rows@).take(0) =~= Seq::<Seq<char>>::empty());
    while k < rows.len()
        invariant
            k <= rows@.len(),
            sorted@.len() == k,
            texts(sorted@) == sorted_by_key(texts(rows@).take(k as int)),
        decreases rows.len() - k,
    {
        let row = rows[k].clone();
        let key = chars_of(lowered(row.as_str()).as_str());
        assert(texts(rows@).take(k + 1).drop_last() =~= texts(rows@).take(k as int));
        assert(texts(rows@).take(k + 1).last() == row@);
        let mut p: usize = sorted.len();
        assert(texts(sorted@).take(p as int) =~= texts(sorted@));
        let mut found = false;
        while p > 0 && !found
            invariant
                p <= sorted@.len(),
                key@ == sort_key(row@),
                !found ==> insertion_point(texts(sorted@), row@) == insertion_point(
                    texts(sorted@).take(p as int),
                    row@,
                ),
                found ==> insertion_point(texts(sorted@), row@) == p,
            decreases p + if found {
                0int
            } else {
                1int
            },
        {
            let other = chars_of(lowered(sorted[p - 1].as_str()).as_str());
            assert(texts(sorted@).take(p as int).last() == sorted@[p - 1]@);
            assert(texts(sorted@).take(p as int).drop_last() =~= texts(sorted@).take(p - 1));
            if is_before(&key, &other) {
                p -= 1;
            } else {
                found = true;
            }
        }
        let ghost prev = texts(sorted@);
        sorted.insert(p, row);
        assert(texts(sorted@) =~= prev.insert(p as int, row@));
        k += 1;
    }
    assert(texts(rows@).take(k as int) =~= texts(rows@));
    sorted
}

/// Whether a row is an import: trimmed, it begins with `use ` and ends with
/// `;`.
pub open spec fn use_row(row: Seq<char>) -> bool {
    "use "@.is_prefix_of(trim(row)) && last_is(trim(row), ';')
}

/// The number of imports that stand at index `i` and behind it without a
/// break.
pub open spec fn use_run(rows: Seq<Seq<char>>, i: int) -> nat
    decreases rows.len() - i,
{
    if 0 <= i < rows.len() && use_row(rows[i]) {
        1 + use_run(rows, i + 1)
    } else {
        0
    }
}

pub proof fn lemma_use_run(rows: Seq<Seq<char>>, i: int)
    requires
        0 <= i <= rows.len(),
    ensures
        i + use_run(rows, i) <= rows.len(),
    decreases rows.len() - i,
{
    if i < rows.len() && use_row(rows[i]) {
        lemma_use_run(rows, i + 1);
    }
}

/// The rows from index `i` on, with each run of imports in the order of
/// their keys.
pub open spec fn imports_sorted_from(rows: Seq<Seq<char>>, i: int) -> Seq<Seq<char>>
    decreases rows.len() - i,
{
    if i < 0 || i >= rows.len() {
        Seq::empty()
    } else if use_row(rows[i]) {
        proof {
            lemma_use_run(rows, i);
        }
        sorted_by_key(rows.subrange(i, i + use_run(rows, i))) + imports_sorted_from(
            rows,
            i + use_run(rows, i),
        )
    } else {
        seq![rows[i]] + imports_sorted_from(rows, i + 1)
    }
}

/// A text with each run of imports in order, whatever their case, and a line
/// feed at its end.
pub open spec fn imports_sorted(s: Seq<char>) -> Seq<char> {
    joined(imports_sorted_from(lines(s), 0), "\n"@) + "\n"@
}

fn is_use_row(row: &str) -> (b: bool)
    ensures
        b == use_row(row@),
{
    let chars = chars_of(row);
    let t = trim_of(&chars);
    starts_with_str(t, "use ") && ends_with_char(t, ';')
}

fn sort_use_lines(code: &str) -> (r: String)
    ensures
        r@ == imports_sorted(code@),
{
    let chars = chars_of(code);
    let rows = lines_of(&chars);
    let mut result: Vec<String> = Vec::new();
    let mut i: usize = 0;
    proof {
        lemma_texts_empty();
    }
    while i < rows.len()
        invariant
            i <= rows@.len(),
            texts(result@) + imports_sorted_from(texts(rows@), i as int) == imports_sorted_from(
                texts(rows@),
                0,
            ),
        decreases rows.len() - i,
    {
        let ghost prev = texts(result@);
        let ghost at = i as int;
        assert(texts(rows@)[i as int] == rows@[i as int]@);
        if is_use_row(rows[i].as_str()) {
            let mut group: Vec<String> = Vec::new();
            assert(texts(group@) =~= texts(rows@).subrange(at, at));
            while i < rows.len() && is_use_line_at(&rows, i)
                invariant
                    at <= i <= rows@.len(),
                    i + use_run(texts(rows@), i as int) == at + use_run(texts(rows@), at),
                    texts(group@) == texts(rows@).subrange(at, i as int),
                decreases rows.len() - i,
            {
                let row = rows[i].clone();
                proof {
                    lemma_texts_push(group@, row);
                }
                group.push(row);
                assert(texts(group@) =~= texts(rows@).subrange(at, i + 1));
                i += 1;
            }
            let sorted = sort_rows(&group);
            let mut k: usize = 0;
            let ghost base = texts(result@);
            assert(texts(result@) =~= base + texts(sorted@).take(0));
            while k < sorted.len()
                invariant
                    k <= sorted@.len(),
                    texts(result@) == base + texts(sorted@).take(k as int),
                decreases sorted.len() - k,
            {
                let row = sorted[k].clone();
                proof {
                    lemma_texts_push(result@, row);
                }
                result.push(row);
                assert(texts(result@) =~= base + texts(sorted@).take(k + 1));
                k += 1;
            }
            assert(texts(sorted@).take(k as int) =~= texts(sorted@));
            assert(texts(result@) + imports_sorted_from(texts(rows@), i as int) =~= prev
                + imports_sorted_from(texts(rows@), at));
        } else {
            let row = rows[i].clone();
            proof {
                lemma_texts_push(result@, row);
            }
            result.push(row);
            i += 1;
            assert(texts(result@) + imports_sorted_from(texts(rows@), i as int) =~= prev
                + imports_sorted_from(texts(rows@), at));
        }
    }
    assert(texts(result@) + imports_sorted_from(texts(rows@), i as int) =~= texts(result@));
    let mut out: Vec<char> = Vec::new();
    append_joined(&mut out, result.as_slice(), 0, result.len(), "\n");
    assert(texts(result@).subrange(0, result@.len() as int) =~= texts(result@));
    out.push('\n');
    proof {
        reveal_strlit("\n");
        assert(out@ =~= joined(texts(result@), "\n"@) + "\n"@);
    }
    string_of(&out)
}

fn is_use_line_at(rows: &Vec<String>, i: usize) -> (b: bool)
    requires
        i < rows@.len(),
    ensures
        b == use_row(texts(rows@)[i as int]),
{
    is_use_row(rows[i].as_str())
}

/// A piece of code made ready for the walk over its lines: code on one line
/// that holds `;` or speaks of a `switch` is cut into statements; in any
/// other, the lines of each conditional expression are joined.
pub open spec fn prepared(s: Seq<char>) -> Seq<char> {
    if count_of(s, '\n') == 0 && (count_of(s, ';') > 0 || switch_form(lowercase(s))) {
        statements(s)
    } else {
        ternaries_joined(s)
    }
}

/// A block of code reindented behind `pad`: the walk over the lines of the
/// prepared code, with what waits behind the last line written, one line
/// feed at the end, and each run of imports in order.
pub open spec fn reindented_block(s: Seq<char>, pad: Seq<char>) -> Seq<char> {
    let p = prepared(s);
    imports_sorted(
        strip_trailing(closed(walked(start(), lines(p), 0, pad, header_block(p)), pad).result, '\n')
            + "\n"@,
    )
}

/// Reindents a block of code behind `pad`.
pub fn reindent_php_block(code: &str, pad: &str) -> (r: String)
    ensures
        r@ == reindented_block(code@, pad@),
{
    let chars = chars_of(code);
    let needs_normalize = !contains_char(&chars, '\n') && (contains_char(&chars, ';')
        || has_switch_case(code));
    let code = if needs_normalize {
        normalize_statements(code)
    } else {
        join_ternary_lines(code)
    };
    let is_header = is_header_php_block(code.as_str());
    let prepared_chars = chars_of(code.as_str());
    let rows = lines_of(&prepared_chars);
    let st = walk(rows.as_slice(), pad, is_header);
    let st = close(st, pad);
    let written = chars_of(st.result.as_str());
    let mut result = string_of(strip_trailing_of(&written, '\n'));
    result.append("\n");
    sort_use_lines(result.as_str())
}

} // verus!
