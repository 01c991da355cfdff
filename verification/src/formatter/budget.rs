//! The width of what is written: when a line is broken, and when what is
//! written for a call stays within the width of a line.

use crate::formatter::indent::MAX_LINE_LENGTH;
use crate::formatter::php::call_parts;
use crate::formatter::scan::{
    close_from, index_of, is_quote, lemma_literal_end, literal_end, literal_span,
};
use crate::formatter::split::{
    array_arrow, bare_array, bare_sub_array, brace_text, break_in, break_line, build, call_of_list,
    comma_ended, crowded, deeper, head_in, inline_closure, is_list, item_text, items_text,
    kept_lines, lemma_array_arrow, lemma_index_of, lemma_ternary, nested, over, part_in, part_text,
    plain, split_line, Style, ternary, ternary_from, ternary_value, value_in, value_start, wide,
    without_prefix,
};
use crate::formatter::stable::{lemma_closed_before_end, lemma_span_copy};
use crate::text::{
    last_is, line_len, lines, lines_from, strip_trailing, trim, trim_end, trim_start, white_space,
    width, without_cr,
};
use vstd::prelude::*;
use vstd::utf8::{encode_scalar, encode_utf8};

verus! {

/// The width of two texts, one behind the other, is the sum of their widths.
pub proof fn lemma_width_add(a: Seq<char>, b: Seq<char>)
    ensures
        width(a + b) == width(a) + width(b),
    decreases a.len(),
{
    if a.len() == 0 {
        assert(a + b =~= b);
        assert(encode_utf8(a) =~= Seq::<u8>::empty());
    } else {
        assert((a + b).drop_first() =~= a.drop_first() + b);
        assert((a + b)[0] == a[0]);
        lemma_width_add(a.drop_first(), b);
    }
}

/// Whether no line feed stands in `row` and no carriage return at its end.
pub open spec fn plain_row(row: Seq<char>) -> bool {
    (forall|k: int| 0 <= k < row.len() ==> row[k] != '\n') && !last_is(row, '\r')
}

/// The rows from index `k` on, each with a line feed behind it.
pub open spec fn written(rows: Seq<Seq<char>>, k: int) -> Seq<char>
    decreases rows.len() - k,
{
    if k < 0 || k >= rows.len() {
        Seq::empty()
    } else {
        rows[k] + seq!['\n'] + written(rows, k + 1)
    }
}

/// Whether every line of `text` is within the width of a line.
pub open spec fn within(text: Seq<char>) -> bool {
    forall|k: int| 0 <= k < lines(text).len() ==> width(#[trigger] lines(text)[k]) <= MAX_LINE_LENGTH
}

proof fn lemma_line_len_shift(pre: Seq<char>, rest: Seq<char>, i: int)
    requires
        0 <= i <= rest.len(),
    ensures
        line_len(pre + rest, pre.len() + i) == line_len(rest, i),
    decreases rest.len() - i,
{
    if i < rest.len() {
        assert((pre + rest)[pre.len() + i] == rest[i]);
        if rest[i] != '\n' {
            lemma_line_len_shift(pre, rest, i + 1);
        }
    }
}

proof fn lemma_lines_shift(pre: Seq<char>, rest: Seq<char>, i: int)
    requires
        0 <= i <= rest.len(),
    ensures
        lines_from(pre + rest, pre.len() + i) == lines_from(rest, i),
    decreases rest.len() - i,
{
    if i < rest.len() {
        lemma_line_len_shift(pre, rest, i);
        crate::text::lemma_line_len_bound(rest, i);
        let e = i + line_len(rest, i);
        assert((pre + rest).subrange(pre.len() + i, pre.len() + e) =~= rest.subrange(i, e));
        if e < rest.len() {
            lemma_lines_shift(pre, rest, e + 1);
        }
    }
}

proof fn lemma_row_len(row: Seq<char>, rest: Seq<char>, j: int)
    requires
        plain_row(row),
        0 <= j <= row.len(),
    ensures
        line_len(row + seq!['\n'] + rest, j) == row.len() - j,
    decreases row.len() - j,
{
    let t = row + seq!['\n'] + rest;
    if j < row.len() {
        assert(t[j] == row[j]);
        lemma_row_len(row, rest, j + 1);
    } else {
        assert(t[j] == '\n');
    }
}

/// The lines of a row with a line feed behind it and a text behind that are
/// the row and the lines of the text.
proof fn lemma_lines_row(row: Seq<char>, rest: Seq<char>)
    requires
        plain_row(row),
    ensures
        lines(row + seq!['\n'] + rest) == seq![row] + lines(rest),
{
    let t = row + seq!['\n'] + rest;
    lemma_row_len(row, rest, 0);
    let e = row.len() as int;
    assert(t.subrange(0, e) =~= row);
    assert(without_cr(row) == row);
    lemma_lines_shift(row + seq!['\n'], rest, 0);
    assert((row + seq!['\n']).len() == e + 1);
}

/// The lines of rows that are written one to a line are those rows.
pub proof fn lemma_lines_written(rows: Seq<Seq<char>>, k: int)
    requires
        0 <= k <= rows.len(),
        forall|j: int| 0 <= j < rows.len() ==> plain_row(#[trigger] rows[j]),
    ensures
        lines(written(rows, k)) == rows.subrange(k, rows.len() as int),
    decreases rows.len() - k,
{
    if k < rows.len() {
        lemma_lines_written(rows, k + 1);
        lemma_lines_row(rows[k], written(rows, k + 1));
        assert(seq![rows[k]] + rows.subrange(k + 1, rows.len() as int) =~= rows.subrange(
            k,
            rows.len() as int,
        ));
    } else {
        assert(rows.subrange(k, rows.len() as int) =~= Seq::<Seq<char>>::empty());
    }
}

/// A line is broken only where it is too wide: a line that fits behind its
/// padding is left as it is.
pub proof fn law_fitting_line_is_kept(s: Seq<char>, pad: Seq<char>)
    requires
        width(pad) + width(s) <= MAX_LINE_LENGTH,
    ensures
        split_line(s, pad) is None,
{
}

/// A value of a conditional expression that fits behind its marker stands on
/// one line, and that line is within the width of a line.
pub proof fn law_fitting_value_is_one_line(value: Seq<char>, pad: Seq<char>, marker: char)
    requires
        width(pad) + 2 + width(value) <= MAX_LINE_LENGTH,
        plain_row(pad.push(marker) + " "@ + value),
        marker == '?' || marker == ':',
    ensures
        ternary_value(value, pad, marker) == pad.push(marker) + " "@ + value + "\n"@,
        within(ternary_value(value, pad, marker)),
{
    reveal_strlit(" ");
    reveal_strlit("\n");
    let row = pad.push(marker) + " "@ + value;
    assert(row + "\n"@ =~= row + seq!['\n'] + Seq::<char>::empty());
    lemma_lines_row(row, Seq::empty());
    assert(lines(Seq::<char>::empty()) =~= Seq::<Seq<char>>::empty());
    lemma_width_add(pad.push(marker) + " "@, value);
    lemma_width_add(pad.push(marker), " "@);
    assert(pad.push(marker) =~= pad + seq![marker]);
    lemma_width_add(pad, seq![marker]);
    lemma_width_char(marker);
    lemma_width_char(' ');
    assert(" "@ =~= seq![' ']);
    assert(width(row) <= MAX_LINE_LENGTH);
    assert(lines(ternary_value(value, pad, marker)) =~= seq![row]);
}

/// Whether a line can be broken does not depend on what is still to stand
/// before its first line and behind its last.
pub proof fn lemma_break_found(s: Seq<char>, pad: Seq<char>, lead: nat, trail: nat)
    ensures
        break_in(s, pad, lead, trail) is Some <==> break_line(s, pad) is Some,
{
}

/// A wide item that can be broken is never written on one line as it
/// stands. What is written for an item of a list or an argument is the item
/// broken as a line, with a comma behind its last line, or the keyed list,
/// the list or the closure in it written out; for a statement it is the
/// statement broken as a line, or its block written out.
pub proof fn law_wide_item_is_broken(item: Seq<char>, pad: Seq<char>, style: Style)
    requires
        break_line(item, pad) is Some,
        match style {
            Style::BlockStatement | Style::ClosureStatement => wide(pad, item),
            _ => over(pad, item),
        },
    ensures
        ({
            let x = item_text(item, pad, style);
            match style {
                Style::BlockStatement | Style::ClosureStatement => {
                    ||| break_line(item, pad) == Some(x)
                    ||| brace_text(item, pad) == Some(x)
                },
                _ => {
                    ||| break_in(item, pad, 0, 1) is Some && x == comma_ended(
                        break_in(item, pad, 0, 1).unwrap(),
                    )
                    ||| nested(item, pad) == Some(x)
                    ||| bare_array(item, pad) == Some(x)
                    ||| bare_sub_array(item, pad) == Some(x)
                    ||| inline_closure(item, pad) == Some(x)
                },
            }
        }),
{
    lemma_break_found(item, pad, 0, 1);
}

/// A part of a line that can be broken and is too wide, with what is still
/// to stand before and behind it, is broken.
pub proof fn law_wide_part_is_broken(s: Seq<char>, pad: Seq<char>, lead: nat, trail: nat)
    requires
        crowded(pad, lead, s, trail),
        break_line(s, pad) is Some,
    ensures
        break_in(s, pad, lead, trail) == Some(part_in(s, pad, lead, trail)),
{
    lemma_break_found(s, pad, lead, trail);
}

/// The first line of a list or a block that can be broken and is too wide,
/// with what stands behind it, is broken, and what stands behind it is
/// counted to its last line.
pub proof fn law_wide_head_is_broken(head: Seq<char>, tail: Seq<char>, pad: Seq<char>, lead: nat)
    requires
        crowded(pad, lead, head + tail, 0),
        break_line(head, pad) is Some,
    ensures
        break_in(head, pad, lead, width(tail)) is Some,
        head_in(head, tail, pad, lead) == strip_trailing(
            break_in(head, pad, lead, width(tail)).unwrap(),
            '\n',
        ) + tail + "\n"@,
{
    lemma_break_found(head, pad, lead, width(tail));
}

/// What is written for a line that is broken is not empty.
pub proof fn lemma_break_is_written(s: Seq<char>, pad: Seq<char>, lead: nat, trail: nat)
    ensures
        break_in(s, pad, lead, trail) is Some ==> break_in(s, pad, lead, trail).unwrap().len()
            > 0,
{
    reveal_strlit("\n");
    reveal_strlit("],\n");
}

/// A value of a conditional expression that can be broken and is too wide
/// behind its marker is broken with the marker counted to its first line,
/// and that line stands behind the marker.
pub proof fn law_wide_value_is_broken(value: Seq<char>, pad: Seq<char>, marker: char, trail: nat)
    requires
        crowded(pad, 2, value, trail),
        break_line(value, pad) is Some,
    ensures
        break_in(value, pad, 2, trail) is Some,
        ({
            let rows = lines(break_in(value, pad, 2, trail).unwrap());
            &&& rows.len() > 0
            &&& value_in(value, pad, marker, trail) == pad.push(marker) + " "@ + trim_start(
                without_prefix(rows[0], pad),
            ) + "\n"@ + kept_lines(rows, 1)
        }),
{
    lemma_break_found(value, pad, 2, trail);
    lemma_break_is_written(value, pad, 2, trail);
}

/// A character of the first 128 has the width 1.
pub proof fn lemma_width_char(c: char)
    requires
        (c as u32) < 128,
    ensures
        width(seq![c]) == 1,
{
    assert(seq![c].drop_first() =~= Seq::<char>::empty());
    assert(encode_utf8(Seq::<char>::empty()) =~= Seq::<u8>::empty());
    assert(encode_scalar(c as u32).len() == 1);
}

/// The rows of the arguments of a call: each behind `pad`, with a comma.
pub open spec fn argument_rows(args: Seq<Seq<char>>, pad: Seq<char>) -> Seq<Seq<char>> {
    Seq::new(args.len(), |k: int| pad + args[k] + seq![','])
}

/// Whether no way of breaking an argument applies to `arg` behind `pad`.
pub open spec fn argument_is_stuck(arg: Seq<char>, pad: Seq<char>) -> bool {
    nested(arg, pad) is None && bare_array(arg, pad) is None && inline_closure(arg, pad) is None
        && break_line(arg, pad) is None
}

/// Whether an argument stays on one line behind `pad`: it fits with its
/// comma, or no way of breaking it applies.
pub open spec fn argument_stays(arg: Seq<char>, pad: Seq<char>) -> bool {
    !over(pad, arg) || argument_is_stuck(arg, pad)
}

proof fn lemma_items_written(args: Seq<Seq<char>>, k: int, pad: Seq<char>)
    requires
        0 <= k <= args.len(),
        forall|j: int| 0 <= j < args.len() ==> argument_stays(#[trigger] args[j], pad),
    ensures
        items_text(args, k, pad, Style::Argument) == written(argument_rows(args, pad), k),
    decreases args.len() - k,
{
    reveal_strlit(",\n");
    if k < args.len() {
        lemma_items_written(args, k + 1, pad);
        assert(argument_stays(args[k], pad));
        assert(item_text(args[k], pad, Style::Argument) == plain(args[k], pad));
        assert(",\n"@ =~= seq![',', '\n']);
        assert(plain(args[k], pad) =~= argument_rows(args, pad)[k] + seq!['\n']);
        assert(items_text(args, k, pad, Style::Argument) =~= written(argument_rows(args, pad), k));
    }
}

/// The rows of a call that is written over several lines.
pub open spec fn call_rows(
    prefix: Seq<char>,
    args: Seq<Seq<char>>,
    suffix: Seq<char>,
    pad: Seq<char>,
) -> Seq<Seq<char>> {
    seq![pad + prefix] + argument_rows(args, deeper(pad)) + seq![pad + suffix]
}

proof fn lemma_written_add(a: Seq<Seq<char>>, b: Seq<Seq<char>>, k: int)
    requires
        0 <= k <= a.len(),
    ensures
        written(a + b, k) == written(a, k) + written(b, 0),
    decreases a.len() - k,
{
    if k < a.len() {
        lemma_written_add(a, b, k + 1);
        assert((a + b)[k] == a[k]);
        assert(written(a + b, k) =~= written(a, k) + written(b, 0));
    } else {
        lemma_written_shift(a, b, 0);
        assert(written(a, k) =~= Seq::<char>::empty());
        assert(written(a + b, k) =~= written(a, k) + written(b, 0));
    }
}

proof fn lemma_written_shift(a: Seq<Seq<char>>, b: Seq<Seq<char>>, j: int)
    requires
        0 <= j <= b.len(),
    ensures
        written(a + b, a.len() + j) == written(b, j),
    decreases b.len() - j,
{
    if j < b.len() {
        lemma_written_shift(a, b, j + 1);
        assert((a + b)[a.len() + j] == b[j]);
    }
}

/// The lines of a call: where each argument stays on one line, what stands
/// behind the arguments is not broken, and no part holds a line feed, the
/// call is written as its rows, one to a line.
pub proof fn law_call_lines(
    prefix: Seq<char>,
    args: Seq<Seq<char>>,
    suffix: Seq<char>,
    pad: Seq<char>,
)
    requires
        forall|j: int| 0 <= j < args.len() ==> argument_stays(#[trigger] args[j], deeper(pad)),
        split_line(suffix, pad) is None,
        forall|j: int|
            0 <= j < call_rows(prefix, args, suffix, pad).len() ==> plain_row(
                #[trigger] call_rows(prefix, args, suffix, pad)[j],
            ),
    ensures
        build(prefix, args, suffix, pad) == written(call_rows(prefix, args, suffix, pad), 0),
        lines(build(prefix, args, suffix, pad)) == call_rows(prefix, args, suffix, pad),
{
    reveal_strlit("\n");
    let rows = call_rows(prefix, args, suffix, pad);
    let mid = argument_rows(args, deeper(pad));
    lemma_items_written(args, 0, deeper(pad));
    let head = seq![pad + prefix];
    let tail = seq![pad + suffix];
    lemma_written_add(head, mid + tail, 0);
    lemma_written_add(mid, tail, 0);
    assert(rows =~= head + (mid + tail));
    assert(written(head, 1) =~= Seq::<char>::empty());
    assert(written(tail, 1) =~= Seq::<char>::empty());
    assert("\n"@ =~= seq!['\n']);
    assert(written(head, 0) =~= pad + prefix + "\n"@);
    assert(written(tail, 0) =~= pad + suffix + "\n"@);
    assert(part_text(suffix, pad) == pad + suffix + "\n"@);
    assert(build(prefix, args, suffix, pad) =~= written(rows, 0));
    lemma_lines_written(rows, 0);
    assert(rows.subrange(0, rows.len() as int) =~= rows);
}

/// The width of an argument with its comma behind its padding.
proof fn lemma_argument_width(pad: Seq<char>, arg: Seq<char>)
    ensures
        width(pad + arg + seq![',']) == width(pad) + width(arg) + 1,
{
    lemma_width_add(pad + arg, seq![',']);
    lemma_width_add(pad, arg);
    lemma_width_char(',');
}

/// Width budget of a call: where the text before the arguments and the text
/// behind them fit behind the padding, each argument with its comma fits one
/// level deeper, and no part holds a line feed, every line of the call as it
/// is written over several lines is within the width of a line.
pub proof fn law_call_within_budget(
    prefix: Seq<char>,
    args: Seq<Seq<char>>,
    suffix: Seq<char>,
    pad: Seq<char>,
)
    requires
        width(pad) + width(prefix) <= MAX_LINE_LENGTH,
        width(pad) + width(suffix) <= MAX_LINE_LENGTH,
        forall|j: int| 0 <= j < args.len() ==> !over(deeper(pad), #[trigger] args[j]),
        forall|j: int|
            0 <= j < call_rows(prefix, args, suffix, pad).len() ==> plain_row(
                #[trigger] call_rows(prefix, args, suffix, pad)[j],
            ),
    ensures
        lines(build(prefix, args, suffix, pad)) == call_rows(prefix, args, suffix, pad),
        within(build(prefix, args, suffix, pad)),
{
    let rows = call_rows(prefix, args, suffix, pad);
    law_call_lines(prefix, args, suffix, pad);
    assert forall|k: int| 0 <= k < rows.len() implies width(#[trigger] rows[k])
        <= MAX_LINE_LENGTH by {
        if k == 0 {
            lemma_width_add(pad, prefix);
        } else if k == rows.len() - 1 {
            lemma_width_add(pad, suffix);
        } else {
            let a = args[k - 1];
            assert(rows[k] == deeper(pad) + a + seq![',']);
            lemma_argument_width(deeper(pad), a);
            assert(!over(deeper(pad), a));
        }
    }
}

proof fn lemma_index_prefix(s: Seq<char>, n: int, c: char, i: int)
    requires
        0 <= i <= n <= s.len(),
    ensures
        index_of(s.subrange(0, n), c, i) == match index_of(s, c, i) {
            Some(k) => if k < n {
                Some(k)
            } else {
                None
            },
            None => None,
        },
    decreases n - i,
{
    lemma_index_of(s, c, i);
    if i < n {
        assert(s.subrange(0, n)[i] == s[i]);
        if s[i] != c {
            lemma_index_prefix(s, n, c, i + 1);
        }
    }
}

proof fn lemma_ternary_prefix(s: Seq<char>, n: int, i: int, depth: int, q: Option<int>)
    requires
        0 <= i,
        0 < n <= s.len(),
        s[n - 1] == '(',
    ensures
        ternary_from(s.subrange(0, n), i, depth, q) is Some ==> ternary_from(s, i, depth, q)
            is Some,
    decreases n - i,
{
    let t = s.subrange(0, n);
    if i < n {
        assert(t[i] == s[i]);
        if i + 1 < n {
            assert(t[i + 1] == s[i + 1]);
        }
        if is_quote(s[i]) {
            lemma_literal_end(t, i);
            lemma_literal_end(s, i);
            if literal_end(t, i) < n {
                lemma_closed_before_end(t, i + 1, s[i]);
                assert forall|m: int| i + 1 <= m < i + 1 + literal_span(t, i + 1, s[i]) implies s[m]
                    == t[m - (i + 1) + (i + 1)] by {
                    assert(t[m] == s[m]);
                }
                lemma_span_copy(s, i + 1, t, i + 1, s[i]);
                lemma_ternary_prefix(s, n, literal_end(t, i), depth, q);
            }
        } else if s[i] == '(' || s[i] == '[' {
            lemma_ternary_prefix(s, n, i + 1, depth + 1, q);
        } else if s[i] == ')' || s[i] == ']' {
            lemma_ternary_prefix(s, n, i + 1, depth - 1, q);
        } else if s[i] == '?' && depth == 0 && q is None {
            if i + 1 < n {
                if s[i + 1] == '>' || s[i + 1] == '?' || s[i + 1] == ':' {
                    lemma_ternary_prefix(s, n, i + 2, depth, q);
                } else {
                    lemma_ternary_prefix(s, n, i + 1, depth, Some(i));
                }
            }
        } else if s[i] == ':' && depth == 0 && q is Some {
            if i + 1 < n {
                if s[i + 1] == ':' {
                    lemma_ternary_prefix(s, n, i + 2, depth, q);
                }
            }
        } else {
            lemma_ternary_prefix(s, n, i + 1, depth, q);
        }
    }
}

proof fn lemma_trim_start_keeps_last(t: Seq<char>)
    requires
        t.len() > 0,
        !white_space(t.last()),
    ensures
        trim_start(t).len() > 0,
        trim_start(t).last() == t.last(),
    decreases t.len(),
{
    if white_space(t[0]) {
        assert(t.len() > 1);
        assert(t.drop_first().last() == t.last());
        lemma_trim_start_keeps_last(t.drop_first());
    }
}

/// No way of breaking applies to what stands before the arguments of a call
/// in a line that holds no conditional expression.
pub proof fn lemma_prefix_is_stuck(s: Seq<char>, pad: Seq<char>)
    requires
        ternary(s) is None,
        call_parts(s) is Some,
    ensures
        break_line(call_parts(s).unwrap().0, pad) is None,
{
    lemma_index_of(s, '(', 0);
    let open = index_of(s, '(', 0).unwrap();
    let prefix = s.subrange(0, open + 1);
    assert(call_parts(s).unwrap().0 == prefix);
    lemma_ternary_prefix(s, open + 1, 0, 0, None);
    lemma_index_prefix(s, open + 1, '(', 0);
    assert(index_of(prefix, '(', 0) == Some(open));
    assert(prefix[open] == '(');
    assert(close_from(prefix, open + 1, 1, false) is None);
    assert(close_from(prefix, open + 1, 1, true) is None);
    assert(close_from(prefix, open, 0, false) is None);
    assert(close_from(prefix, open, 0, true) is None);
    assert(call_of_list(prefix) is None);
    if array_arrow(prefix) is Some {
        lemma_array_arrow(prefix);
        let at = value_start(prefix);
        let rest = prefix.subrange(at, prefix.len() as int);
        if at < prefix.len() {
            assert(rest.last() == '(');
            lemma_trim_start_keeps_last(rest);
            assert(trim(rest).last() == '(');
        } else {
            assert(rest.len() == 0);
        }
        assert(!is_list(trim(rest)));
    }
}

/// Width budget of a split call: where a line that is too wide holds no
/// conditional expression and is a call of which each argument stays on one
/// line and the rest behind the arguments is not broken, and no part holds a
/// line feed, the line is written as the rows of the call, and each row is
/// within the width of a line or is one to which no way of breaking applies.
pub proof fn law_split_call_budget(s: Seq<char>, pad: Seq<char>)
    requires
        wide(pad, s),
        ternary(s) is None,
        call_parts(s) is Some,
        forall|j: int|
            0 <= j < call_parts(s).unwrap().1.len() ==> argument_stays(
                #[trigger] call_parts(s).unwrap().1[j],
                deeper(pad),
            ),
        split_line(call_parts(s).unwrap().2, pad) is None,
        forall|j: int|
            0 <= j < call_rows(
                call_parts(s).unwrap().0,
                call_parts(s).unwrap().1,
                call_parts(s).unwrap().2,
                pad,
            ).len() ==> plain_row(
                #[trigger] call_rows(
                    call_parts(s).unwrap().0,
                    call_parts(s).unwrap().1,
                    call_parts(s).unwrap().2,
                    pad,
                )[j],
            ),
    ensures
        split_line(s, pad) is Some,
        lines(split_line(s, pad).unwrap()) == call_rows(
            call_parts(s).unwrap().0,
            call_parts(s).unwrap().1,
            call_parts(s).unwrap().2,
            pad,
        ),
        width(pad + call_parts(s).unwrap().0) <= MAX_LINE_LENGTH || break_line(
            call_parts(s).unwrap().0,
            pad,
        ) is None,
        forall|j: int|
            0 <= j < call_parts(s).unwrap().1.len() ==> width(
                deeper(pad) + (#[trigger] call_parts(s).unwrap().1[j]) + seq![','],
            ) <= MAX_LINE_LENGTH || argument_is_stuck(call_parts(s).unwrap().1[j], deeper(pad)),
        width(pad + call_parts(s).unwrap().2) <= MAX_LINE_LENGTH || break_line(
            call_parts(s).unwrap().2,
            pad,
        ) is None,
{
    let parts = call_parts(s).unwrap();
    law_call_lines(parts.0, parts.1, parts.2, pad);
    lemma_prefix_is_stuck(s, pad);
    lemma_width_add(pad, parts.2);
    assert forall|j: int| 0 <= j < parts.1.len() implies width(
        deeper(pad) + (#[trigger] parts.1[j]) + seq![','],
    ) <= MAX_LINE_LENGTH || argument_is_stuck(parts.1[j], deeper(pad)) by {
        lemma_argument_width(deeper(pad), parts.1[j]);
        assert(argument_stays(parts.1[j], deeper(pad)));
    }
}

/// The rows of a conditional expression that is written on three lines.
pub open spec fn ternary_rows(s: Seq<char>, pad: Seq<char>) -> Seq<Seq<char>> {
    let q = ternary(s).unwrap().0;
    let c = ternary(s).unwrap().1;
    seq![
        pad + trim_end(s.subrange(0, q)),
        deeper(pad).push('?') + " "@ + trim(s.subrange(q + 1, c)),
        deeper(pad).push(':') + " "@ + trim(s.subrange(c + 1, s.len() as int)),
    ]
}

/// Whether a value of a conditional expression stays on one line behind its
/// marker: it fits there, or no way of breaking it applies.
pub open spec fn value_stays(value: Seq<char>, pad: Seq<char>) -> bool {
    width(pad) + 2 + width(value) <= MAX_LINE_LENGTH || break_line(value, pad) is None
}

/// Width budget of a split conditional expression: where a line that is too
/// wide holds a conditional expression of which the condition is not broken
/// and each value stays on one line, and no part holds a line feed, the line
/// is written on three lines, and each is within the width of a line or is
/// one to which no way of breaking applies.
pub proof fn law_split_ternary_budget(s: Seq<char>, pad: Seq<char>)
    requires
        wide(pad, s),
        ternary(s) is Some,
        split_line(trim_end(s.subrange(0, ternary(s).unwrap().0)), pad) is None,
        value_stays(trim(s.subrange(ternary(s).unwrap().0 + 1, ternary(s).unwrap().1)), deeper(pad)),
        value_stays(
            trim(s.subrange(ternary(s).unwrap().1 + 1, s.len() as int)),
            deeper(pad),
        ),
        forall|j: int| 0 <= j < 3 ==> plain_row(#[trigger] ternary_rows(s, pad)[j]),
    ensures
        split_line(s, pad) is Some,
        lines(split_line(s, pad).unwrap()) == ternary_rows(s, pad),
        width(ternary_rows(s, pad)[0]) <= MAX_LINE_LENGTH || break_line(
            trim_end(s.subrange(0, ternary(s).unwrap().0)),
            pad,
        ) is None,
        width(ternary_rows(s, pad)[1]) <= MAX_LINE_LENGTH || break_line(
            trim(s.subrange(ternary(s).unwrap().0 + 1, ternary(s).unwrap().1)),
            deeper(pad),
        ) is None,
        width(ternary_rows(s, pad)[2]) <= MAX_LINE_LENGTH || break_line(
            trim(s.subrange(ternary(s).unwrap().1 + 1, s.len() as int)),
            deeper(pad),
        ) is None,
        (forall|j: int| 0 <= j < 3 ==> width(#[trigger] ternary_rows(s, pad)[j])
            <= MAX_LINE_LENGTH) ==> within(split_line(s, pad).unwrap()),
{
    reveal_strlit(" ");
    reveal_strlit("\n");
    lemma_ternary(s);
    let q = ternary(s).unwrap().0;
    let c = ternary(s).unwrap().1;
    let rows = ternary_rows(s, pad);
    let cond = trim_end(s.subrange(0, q));
    let yes = trim(s.subrange(q + 1, c));
    let no = trim(s.subrange(c + 1, s.len() as int));
    assert(rows[0] == pad + cond);
    lemma_width_add(pad, cond);
    assert(part_text(cond, pad) == rows[0] + "\n"@);
    assert(" "@ =~= seq![' ']);
    assert("\n"@ =~= seq!['\n']);
    lemma_marked_width(deeper(pad), '?', yes);
    lemma_marked_width(deeper(pad), ':', no);
    assert(rows[1] == deeper(pad).push('?') + " "@ + yes);
    assert(rows[2] == deeper(pad).push(':') + " "@ + no);
    assert(ternary_value(yes, deeper(pad), '?') == rows[1] + "\n"@);
    assert(ternary_value(no, deeper(pad), ':') == rows[2] + "\n"@);
    let text = split_line(s, pad).unwrap();
    assert(written(rows, 3) =~= Seq::<char>::empty());
    assert(written(rows, 2) =~= rows[2] + seq!['\n']);
    assert(written(rows, 1) =~= rows[1] + seq!['\n'] + (rows[2] + seq!['\n']));
    assert(written(rows, 0) =~= rows[0] + seq!['\n'] + (rows[1] + seq!['\n'] + (rows[2] + seq![
        '\n',
    ])));
    assert(text =~= written(rows, 0));
    lemma_lines_written(rows, 0);
    assert(rows.subrange(0, rows.len() as int) =~= rows);
}

/// The width of a value behind its marker.
proof fn lemma_marked_width(pad: Seq<char>, marker: char, value: Seq<char>)
    requires
        marker == '?' || marker == ':',
    ensures
        width(pad.push(marker) + " "@ + value) == width(pad) + 2 + width(value),
{
    reveal_strlit(" ");
    assert(" "@ =~= seq![' ']);
    assert(pad.push(marker) =~= pad + seq![marker]);
    lemma_width_add(pad.push(marker) + " "@, value);
    lemma_width_add(pad.push(marker), " "@);
    lemma_width_add(pad, seq![marker]);
    lemma_width_char(marker);
    lemma_width_char(' ');
}

} // verus!
