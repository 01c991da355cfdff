//! Short echo tags: the tests on them and their layout.

use crate::formatter::budget::within;
use crate::formatter::indent::{lowered, MAX_LINE_LENGTH, occurs_outside, outside};
use crate::formatter::php::{
    call_parts, chain, commas, concat, format_php_code, join_php_lines, one_line, split_by_args,
    split_by_chain, split_by_concat, split_commas, tidy,
};
use crate::formatter::split::{
    deeper, deeper_pad, emit_items, inside, is_list, is_wide, items_text, split_line, Style,
    ternary, ternary_positions, try_split_long_line, wide,
};
use crate::text::{
    append_joined, chars_of, contains_char, contains_str, count_char, count_of, ends_with_char, has,
    joined, lines, lines_of, lowercase, starts_with_char, starts_with_str, string_of,
    strip_trailing, strip_trailing_of, texts, trim, trim_end, trim_end_of, trim_of, trim_start,
    trim_start_of, width, width_of,
};
use vstd::prelude::*;
use vstd::slice::slice_subrange;
use vstd::string::*;

verus! {

/// Whether a piece of code is one `echo` statement on one line.
pub open spec fn single_echo(s: Seq<char>) -> bool {
    "echo "@.is_prefix_of(trim(s)) && count_of(trim(s), '\n') == 0 && count_of(trim(s), ';') <= 1
}

/// Whether a piece of code is one `echo` statement on one line.
pub fn is_single_echo_block(code: &str) -> (b: bool)
    ensures
        b == single_echo(code@),
{
    let chars = chars_of(code);
    let trimmed = trim_of(&chars);
    starts_with_str(trimmed, "echo ") && !contains_char(trimmed, '\n') && count_char(trimmed, ';')
        <= 1
}

/// Whether a trimmed lowercase expression begins a widget or a tag.
pub open spec fn begin_form(lower: Seq<char>) -> bool {
    has(lower, "begintag("@) || has(lower, "::begin("@)
}

/// Whether a trimmed lowercase expression ends a widget or a tag.
pub open spec fn end_form(lower: Seq<char>) -> bool {
    has(lower, "endtag("@) || has(lower, "::end("@)
}

/// Whether a trimmed lowercase expression begins a widget or a tag.
pub fn is_begin_form(lower: &str) -> (b: bool)
    ensures
        b == begin_form(lower@),
{
    let chars = chars_of(lower);
    contains_str(&chars, "begintag(") || contains_str(&chars, "::begin(")
}

/// Whether a trimmed lowercase expression ends a widget or a tag.
pub fn is_end_form(lower: &str) -> (b: bool)
    ensures
        b == end_form(lower@),
{
    let chars = chars_of(lower);
    contains_str(&chars, "endtag(") || contains_str(&chars, "::end(")
}

/// Whether an echoed expression begins a widget or a tag, whatever its case.
pub fn is_echo_block_opener(code: &str) -> (b: bool)
    ensures
        b == begin_form(lowercase(trim(code@))),
{
    let lower = lowered(code);
    is_begin_form(lower.as_str())
}

/// Whether an echoed expression ends a widget or a tag, whatever its case.
pub fn is_echo_block_closer(code: &str) -> (b: bool)
    ensures
        b == end_form(lowercase(trim(code@))),
{
    let lower = lowered(code);
    is_end_form(lower.as_str())
}

/// Whether a lowercase text holds `break;` outside quoted literals.
pub fn is_break_form(lower: &str) -> (b: bool)
    ensures
        b == outside(lower@, "break;"@),
{
    let chars = chars_of(lower);
    let word = chars_of("break;");
    occurs_outside(&chars, &word)
}

/// Whether a piece of code holds `break;` outside quoted literals, whatever
/// its case.
pub fn contains_break(code: &str) -> (b: bool)
    ensures
        b == outside(lowercase(trim(code@)), "break;"@),
{
    let lower = lowered(code);
    is_break_form(lower.as_str())
}

/// A broken line as it stands behind other text: without the white space
/// before it and the line feeds behind it.
pub open spec fn bare(split: Seq<char>) -> Seq<char> {
    strip_trailing(trim_start(split), '\n')
}

fn bare_of(split: &str) -> (r: String)
    ensures
        r@ == bare(split@),
{
    let chars = chars_of(split);
    string_of(strip_trailing_of(trim_start_of(&chars), '\n'))
}

/// The links of a chain from index `k` on, each on a line of its own behind
/// `pad`; a link that is too wide is broken as a line.
pub open spec fn chain_rest(parts: Seq<Seq<char>>, k: int, pad: Seq<char>) -> Seq<char>
    decreases parts.len() - k,
{
    if k < 0 || k >= parts.len() {
        Seq::empty()
    } else if wide(pad, parts[k]) && split_line(parts[k], pad) is Some {
        "\n"@ + pad + bare(split_line(parts[k], pad).unwrap()) + chain_rest(parts, k + 1, pad)
    } else {
        "\n"@ + pad + parts[k] + chain_rest(parts, k + 1, pad)
    }
}

/// An echo of a chain of calls: the first two links on the first line, each
/// further link on a line of its own, one level deeper.
pub open spec fn chain_text(parts: Seq<Seq<char>>, pad: Seq<char>) -> Seq<char> {
    pad + "<?= "@ + parts[0] + parts[1] + chain_rest(parts, 2, deeper(pad)) + " ?>\n"@
}

/// Writes an echo of a chain of calls over several lines.
pub fn format_echo_chain(parts: &[String], pad: &str) -> (r: String)
    requires
        parts@.len() >= 2,
    ensures
        r@ == chain_text(texts(parts@), pad@),
{
    let chain_pad = deeper_pad(pad);
    let mut rest = String::new();
    let mut k: usize = 2;
    while k < parts.len()
        invariant
            2 <= k <= parts@.len(),
            rest@ + chain_rest(texts(parts@), k as int, chain_pad@) == chain_rest(
                texts(parts@),
                2,
                chain_pad@,
            ),
        decreases parts.len() - k,
    {
        let ghost prev = rest@;
        let part = parts[k].as_str();
        let mut line = String::from_str("\n");
        line.append(chain_pad.as_str());
        let mut done = false;
        if is_wide(chain_pad.as_str(), part) {
            if let Some(split) = try_split_long_line(part, chain_pad.as_str()) {
                line.append(bare_of(split.as_str()).as_str());
                done = true;
            }
        }
        if !done {
            line.append(part);
        }
        rest.append(line.as_str());
        assert(rest@ + chain_rest(texts(parts@), k + 1, chain_pad@) =~= prev + chain_rest(
            texts(parts@),
            k as int,
            chain_pad@,
        ));
        k += 1;
    }
    assert(rest@ + chain_rest(texts(parts@), k as int, chain_pad@) =~= rest@);
    let mut result = String::from_str(pad);
    result.append("<?= ");
    result.append(parts[0].as_str());
    result.append(parts[1].as_str());
    result.append(rest.as_str());
    result.append(" ?>\n");
    result
}

/// The texts from index `k` on, each behind `. ` on a line of its own.
pub open spec fn concat_rest(parts: Seq<Seq<char>>, k: int, pad: Seq<char>) -> Seq<char>
    decreases parts.len() - k,
{
    if k < 0 || k >= parts.len() {
        Seq::empty()
    } else {
        "\n"@ + pad + ". "@ + parts[k] + concat_rest(parts, k + 1, pad)
    }
}

/// An echo of joined texts: the first on the first line, each further one
/// behind `. ` on a line of its own, one level deeper.
pub open spec fn concat_text(parts: Seq<Seq<char>>, pad: Seq<char>) -> Seq<char> {
    pad + "<?= "@ + parts[0] + concat_rest(parts, 1, deeper(pad)) + " ?>\n"@
}

/// Writes an echo of joined texts over several lines.
pub fn format_echo_concat(parts: &[String], pad: &str) -> (r: String)
    requires
        parts@.len() >= 1,
    ensures
        r@ == concat_text(texts(parts@), pad@),
{
    let concat_pad = deeper_pad(pad);
    let mut rest = String::new();
    let mut k: usize = 1;
    while k < parts.len()
        invariant
            1 <= k <= parts@.len(),
            rest@ + concat_rest(texts(parts@), k as int, concat_pad@) == concat_rest(
                texts(parts@),
                1,
                concat_pad@,
            ),
        decreases parts.len() - k,
    {
        let ghost prev = rest@;
        let mut line = String::from_str("\n");
        line.append(concat_pad.as_str());
        line.append(". ");
        line.append(parts[k].as_str());
        rest.append(line.as_str());
        assert(rest@ + concat_rest(texts(parts@), k + 1, concat_pad@) =~= prev + concat_rest(
            texts(parts@),
            k as int,
            concat_pad@,
        ));
        k += 1;
    }
    assert(rest@ + concat_rest(texts(parts@), k as int, concat_pad@) =~= rest@);
    let mut result = String::from_str(pad);
    result.append("<?= ");
    result.append(parts[0].as_str());
    result.append(rest.as_str());
    result.append(" ?>\n");
    result
}

/// The first line of an echo whose last argument is a list: the arguments
/// before the last on the line of the call, and the bracket that opens the
/// list.
pub open spec fn array_head(prefix: Seq<char>, args: Seq<Seq<char>>, pad: Seq<char>) -> Seq<char> {
    pad + "<?= "@ + prefix + joined(args.subrange(0, args.len() - 1), ", "@) + ", ["@
}

/// An echo of a call whose last argument is a list of several items: the
/// other arguments stay on the first line and the items of the list stand on
/// lines of their own. There is none where the last argument does not stand
/// in square brackets, where the first line would be too wide, or where the
/// list holds fewer than two items.
pub open spec fn array_split(
    prefix: Seq<char>,
    args: Seq<Seq<char>>,
    suffix: Seq<char>,
    pad: Seq<char>,
) -> Option<Seq<char>> {
    if !is_list(args.last()) || width(array_head(prefix, args, pad)) > MAX_LINE_LENGTH || commas(
        inside(args.last()),
    ).len() <= 1 {
        None
    } else {
        Some(
            array_head(prefix, args, pad) + "\n"@ + items_text(
                commas(inside(args.last())),
                0,
                deeper(pad),
                Style::EchoItem,
            ) + pad + "]"@ + suffix + " ?>\n"@,
        )
    }
}

/// Writes an echo of a call whose last argument is a list, with the items of
/// the list on lines of their own.
pub fn format_echo_array_split(prefix: &str, args: &[String], suffix: &str, pad: &str) -> (r:
    Option<String>)
    requires
        args@.len() >= 1,
    ensures
        r is Some == array_split(prefix@, texts(args@), suffix@, pad@) is Some,
        r is Some ==> array_split(prefix@, texts(args@), suffix@, pad@) == Some(r.unwrap()@),
{
    let last = chars_of(args[args.len() - 1].as_str());
    assert(texts(args@).last() == last@);
    if !starts_with_char(&last, '[') || !ends_with_char(&last, ']') {
        return None;
    }
    let mut inline: Vec<char> = Vec::new();
    append_joined(&mut inline, args, 0, args.len() - 1, ", ");
    assert(inline@ =~= joined(texts(args@).subrange(0, args@.len() - 1), ", "@));
    let mut head = String::from_str(pad);
    head.append("<?= ");
    head.append(prefix);
    head.append(string_of(&inline).as_str());
    head.append(", [");
    if width_of(head.as_str()) > MAX_LINE_LENGTH {
        return None;
    }
    let items = split_commas(slice_subrange(&last, 1, last.len() - 1));
    if items.len() <= 1 {
        return None;
    }
    let inner_pad = deeper_pad(pad);
    let body = emit_items(items.as_slice(), inner_pad.as_str(), Style::EchoItem);
    let mut result = head;
    result.append("\n");
    result.append(body.as_str());
    result.append(pad);
    result.append("]");
    result.append(suffix);
    result.append(" ?>\n");
    Some(result)
}

/// An echo of a conditional expression on three lines: the condition, and
/// one level deeper the two values behind `?` and `:`.
pub open spec fn echo_ternary(s: Seq<char>, pad: Seq<char>) -> Option<Seq<char>> {
    match ternary(s) {
        None => None,
        Some((q, c)) => Some(
            pad + "<?= "@ + trim_end(s.subrange(0, q)) + "\n"@ + deeper(pad) + "? "@ + trim(
                s.subrange(q + 1, c),
            ) + "\n"@ + deeper(pad) + ": "@ + trim(s.subrange(c + 1, s.len() as int)) + " ?>\n"@,
        ),
    }
}

/// Writes an echo of a conditional expression on three lines.
pub fn split_ternary(code: &str, pad: &str) -> (r: Option<String>)
    ensures
        r is Some == echo_ternary(code@, pad@) is Some,
        r is Some ==> echo_ternary(code@, pad@) == Some(r.unwrap()@),
{
    let chars = chars_of(code);
    let len = chars.len();
    let (q_pos, c_pos) = match ternary_positions(&chars) {
        Some(p) => p,
        None => {
            return None;
        },
    };
    let condition = string_of(trim_end_of(slice_subrange(&chars, 0, q_pos)));
    let true_val = string_of(trim_of(slice_subrange(&chars, q_pos + 1, c_pos)));
    let false_val = string_of(trim_of(slice_subrange(&chars, c_pos + 1, len)));
    let inner_pad = deeper_pad(pad);
    let mut result = String::from_str(pad);
    result.append("<?= ");
    result.append(condition.as_str());
    result.append("\n");
    result.append(inner_pad.as_str());
    result.append("? ");
    result.append(true_val.as_str());
    result.append("\n");
    result.append(inner_pad.as_str());
    result.append(": ");
    result.append(false_val.as_str());
    result.append(" ?>\n");
    Some(result)
}

/// An echo on one line.
pub open spec fn echo_line(formatted: Seq<char>, pad: Seq<char>) -> Seq<char> {
    pad + "<?= "@ + formatted + " ?>"@
}

/// An echo of a call with each argument on lines of its own.
pub open spec fn echo_args(
    prefix: Seq<char>,
    args: Seq<Seq<char>>,
    suffix: Seq<char>,
    pad: Seq<char>,
) -> Seq<char> {
    pad + "<?= "@ + prefix + "\n"@ + items_text(args, 0, deeper(pad), Style::EchoArg) + pad
        + suffix + " ?>\n"@
}

/// The layout of an echo whose expression, spaced and on one line, is
/// `formatted`: on one line where that fits. Else the first of these that is
/// found in it and whose lines all fit: a chain of more than two links, a
/// conditional expression, joined texts, a call with a list as its last
/// argument, a call with its arguments, a line broken in any other way. And
/// on one line, too wide as it is, where there is none.
pub open spec fn echo_layout(formatted: Seq<char>, pad: Seq<char>) -> Seq<char> {
    if width(echo_line(formatted, pad)) <= MAX_LINE_LENGTH {
        echo_line(formatted, pad) + "\n"@
    } else if chain(formatted).len() > 2 && within(chain_text(chain(formatted), pad)) {
        chain_text(chain(formatted), pad)
    } else if echo_ternary(formatted, pad) is Some && within(echo_ternary(formatted, pad).unwrap()) {
        echo_ternary(formatted, pad).unwrap()
    } else if concat(formatted).len() > 1 && within(concat_text(concat(formatted), pad)) {
        concat_text(concat(formatted), pad)
    } else if echo_call(formatted, pad) is Some {
        echo_call(formatted, pad).unwrap()
    } else if split_line(formatted, pad) is Some && within(
        pad + "<?= "@ + bare(split_line(formatted, pad).unwrap()) + " ?>\n"@,
    ) {
        pad + "<?= "@ + bare(split_line(formatted, pad).unwrap()) + " ?>\n"@
    } else {
        echo_line(formatted, pad) + "\n"@
    }
}

/// An echo of a call over several lines, where its lines all fit: with the
/// list that is its last argument written out alone, and else with each
/// argument on lines of its own.
pub open spec fn echo_call(formatted: Seq<char>, pad: Seq<char>) -> Option<Seq<char>> {
    if call_parts(formatted) is None {
        None
    } else {
        let parts = call_parts(formatted).unwrap();
        if array_split(parts.0, parts.1, parts.2, pad) is Some && within(
            array_split(parts.0, parts.1, parts.2, pad).unwrap(),
        ) {
            array_split(parts.0, parts.1, parts.2, pad)
        } else if within(echo_args(parts.0, parts.1, parts.2, pad)) {
            Some(echo_args(parts.0, parts.1, parts.2, pad))
        } else {
            None
        }
    }
}

/// The layout of an echo of the expression `s`.
pub open spec fn echo_text(s: Seq<char>, pad: Seq<char>) -> Seq<char> {
    echo_layout(tidy(one_line(s)), pad)
}

/// Whether every line of `text` is within the width of a line.
pub fn fits(text: &str) -> (b: bool)
    ensures
        b == within(text@),
{
    let chars = chars_of(text);
    let rows = lines_of(&chars);
    let mut k: usize = 0;
    while k < rows.len()
        invariant
            k <= rows@.len(),
            texts(rows@) == lines(text@),
            forall|j: int| 0 <= j < k ==> width(#[trigger] lines(text@)[j]) <= MAX_LINE_LENGTH,
        decreases rows.len() - k,
    {
        assert(texts(rows@)[k as int] == rows@[k as int]@);
        if width_of(rows[k].as_str()) > MAX_LINE_LENGTH {
            return false;
        }
        k += 1;
    }
    true
}

fn echo_call_of(formatted: &str, pad: &str) -> (r: Option<String>)
    ensures
        r is Some == echo_call(formatted@, pad@) is Some,
        r is Some ==> echo_call(formatted@, pad@) == Some(r.unwrap()@),
{
    let (prefix, args, suffix) = match split_by_args(formatted) {
        Some(parts) => parts,
        None => {
            return None;
        },
    };
    if let Some(r) = format_echo_array_split(prefix.as_str(), args.as_slice(), suffix.as_str(), pad) {
        if fits(r.as_str()) {
            return Some(r);
        }
    }
    let inner_pad = deeper_pad(pad);
    let body = emit_items(args.as_slice(), inner_pad.as_str(), Style::EchoArg);
    let mut result = String::from_str(pad);
    result.append("<?= ");
    result.append(prefix.as_str());
    result.append("\n");
    result.append(body.as_str());
    result.append(pad);
    result.append(suffix.as_str());
    result.append(" ?>\n");
    if fits(result.as_str()) {
        Some(result)
    } else {
        None
    }
}

/// Lays out a short echo tag behind `pad`. Every line of the result is
/// within the width of a line, unless the result is the echo on one line.
pub fn format_echo(code: &str, pad: &str) -> (r: String)
    ensures
        r@ == echo_text(code@, pad@),
        within(r@) || r@ == echo_line(tidy(one_line(code@)), pad@) + "\n"@,
{
    let joined = join_php_lines(code);
    let formatted = format_php_code(joined.as_str());
    let mut single = String::from_str(pad);
    single.append("<?= ");
    single.append(formatted.as_str());
    single.append(" ?>");
    if width_of(single.as_str()) <= MAX_LINE_LENGTH {
        single.append("\n");
        return single;
    }
    let parts = split_by_chain(formatted.as_str());
    if parts.len() > 2 {
        let result = format_echo_chain(parts.as_slice(), pad);
        if fits(result.as_str()) {
            return result;
        }
    }
    if let Some(result) = split_ternary(formatted.as_str(), pad) {
        if fits(result.as_str()) {
            return result;
        }
    }
    let concat_parts = split_by_concat(formatted.as_str());
    if concat_parts.len() > 1 {
        let result = format_echo_concat(concat_parts.as_slice(), pad);
        if fits(result.as_str()) {
            return result;
        }
    }
    if let Some(result) = echo_call_of(formatted.as_str(), pad) {
        return result;
    }
    if let Some(split) = try_split_long_line(formatted.as_str(), pad) {
        let mut result = String::from_str(pad);
        result.append("<?= ");
        result.append(bare_of(split.as_str()).as_str());
        result.append(" ?>\n");
        if fits(result.as_str()) {
            return result;
        }
    }
    single.append("\n");
    single
}

} // verus!
