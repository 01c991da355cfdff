//! Doc comments: their bodies, their merging and their layout.

use crate::formatter::indent::{emit_reindented_line, next_depth, reindented};
use crate::formatter::scan::{index_of, position};
use crate::text::{
    blank, chars_of, contains_char, count_of, ends_with_str, equals_str, first_is, is_blank,
    lemma_texts_empty, lemma_texts_push, lines, lines_of, starts_with_char, starts_with_str,
    string_of, texts, trim, trim_end, trim_end_of, trim_of, trim_start, trim_start_of,
};
use vstd::prelude::*;
use vstd::slice::slice_subrange;
use vstd::string::*;

verus! {

/// The body of a type annotation with the type before the name: where the
/// text behind `@var ` begins with a name, which begins with `$`, and a word
/// that is no name follows it, the two change places.
pub open spec fn var_normal(body: Seq<char>) -> Seq<char> {
    if !"@var "@.is_prefix_of(body) || body.len() < 5 {
        body
    } else {
        let rest = trim(body.subrange(5, body.len() as int));
        match index_of(rest, ' ', 0) {
            None => body,
            Some(a) => {
                let name = rest.subrange(0, a);
                let tail = rest.subrange(a + 1, rest.len() as int);
                match index_of(tail, ' ', 0) {
                    None => if first_is(name, '$') && !first_is(tail, '$') {
                        "@var "@ + tail + " "@ + name
                    } else {
                        body
                    },
                    Some(b) => if first_is(name, '$') && !first_is(tail.subrange(0, b), '$') {
                        "@var "@ + tail.subrange(0, b) + " "@ + name + " "@ + tail.subrange(
                            b + 1,
                            tail.len() as int,
                        )
                    } else {
                        body
                    },
                }
            },
        }
    }
}

/// Puts the type of a type annotation before its name.
pub fn normalize_var_body(body: &str) -> (r: String)
    ensures
        r@ == var_normal(body@),
{
    let chars = chars_of(body);
    if !starts_with_str(&chars, "@var ") || chars.len() < 5 {
        return String::from_str(body);
    }
    let rest = trim_of(slice_subrange(&chars, 5, chars.len()));
    let a = match position(rest, ' ') {
        Some(a) => a,
        None => {
            return String::from_str(body);
        },
    };
    let name = slice_subrange(rest, 0, a);
    let tail = slice_subrange(rest, a + 1, rest.len());
    match position(tail, ' ') {
        None => {
            if starts_with_char(name, '$') && !starts_with_char(tail, '$') {
                let mut r = String::from_str("@var ");
                r.append(string_of(tail).as_str());
                r.append(" ");
                r.append(string_of(name).as_str());
                r
            } else {
                String::from_str(body)
            }
        },
        Some(b) => {
            let kind = slice_subrange(tail, 0, b);
            if starts_with_char(name, '$') && !starts_with_char(kind, '$') {
                let mut r = String::from_str("@var ");
                r.append(string_of(kind).as_str());
                r.append(" ");
                r.append(string_of(name).as_str());
                r.append(" ");
                r.append(string_of(slice_subrange(tail, b + 1, tail.len())).as_str());
                r
            } else {
                String::from_str(body)
            }
        },
    }
}

/// Whether a trimmed text is a doc comment on one line.
pub open spec fn one_line_comment(t: Seq<char>) -> bool {
    count_of(t, '\n') == 0 && "/**"@.is_prefix_of(t) && "*/"@.is_suffix_of(t) && t.len() >= 5
}

/// What `s` holds behind one leading `*`, without the white space there; `s`
/// itself where it begins with no `*`.
pub open spec fn unstarred(s: Seq<char>) -> Seq<char> {
    if first_is(s, '*') {
        trim_start(s.drop_first())
    } else {
        s
    }
}

/// The body of a doc comment that stands on one line: what stands between
/// `/**` and `*/`, trimmed, without a leading `*`. There is none where the
/// text, trimmed, is no such comment.
pub open spec fn comment_body(s: Seq<char>) -> Option<Seq<char>> {
    let t = trim(s);
    if one_line_comment(t) {
        Some(unstarred(trim(t.subrange(3, t.len() - 2))))
    } else {
        None
    }
}

/// The body of a doc comment that stands on one line.
pub fn single_line_body(code: &str) -> (r: Option<String>)
    ensures
        r is Some == comment_body(code@) is Some,
        r is Some ==> comment_body(code@) == Some(r.unwrap()@),
{
    let chars = chars_of(code);
    let trimmed = trim_of(&chars);
    proof {
        reveal_strlit("/**");
        reveal_strlit("*/");
    }
    if contains_char(trimmed, '\n') || !starts_with_str(trimmed, "/**") || !ends_with_str(
        trimmed,
        "*/",
    ) || trimmed.len() < 5 {
        return None;
    }
    let body = trim_of(slice_subrange(trimmed, 3, trimmed.len() - 2));
    if starts_with_char(body, '*') {
        assert(body@.drop_first() =~= body@.subrange(1, body@.len() as int));
        Some(string_of(trim_start_of(slice_subrange(body, 1, body.len()))))
    } else {
        Some(string_of(body))
    }
}

/// A doc comment of one line on three lines.
pub open spec fn expanded(s: Seq<char>) -> Option<Seq<char>> {
    match comment_body(s) {
        None => None,
        Some(b) => if b.len() == 0 {
            Some("/**\n */"@)
        } else {
            Some("/**\n * "@ + b + "\n */"@)
        },
    }
}

/// Writes a doc comment that stands on one line on three lines.
pub fn expand_single_line_docblock(code: &str) -> (r: Option<String>)
    ensures
        r is Some == expanded(code@) is Some,
        r is Some ==> expanded(code@) == Some(r.unwrap()@),
{
    match single_line_body(code) {
        None => None,
        Some(body) => {
            let chars = chars_of(body.as_str());
            if chars.len() == 0 {
                Some(String::from_str("/**\n */"))
            } else {
                let mut r = String::from_str("/**\n * ");
                r.append(body.as_str());
                r.append("\n */");
                Some(r)
            }
        },
    }
}

/// The body of a doc comment of one line, with the type of a type annotation
/// before its name. There is none where the comment is empty.
pub open spec fn extracted(s: Seq<char>) -> Option<Seq<char>> {
    match comment_body(s) {
        None => None,
        Some(b) => if b.len() == 0 {
            None
        } else {
            Some(var_normal(b))
        },
    }
}

/// Takes the body out of a doc comment that stands on one line.
pub fn extract_docblock_body(code: &str) -> (r: Option<String>)
    ensures
        r is Some == extracted(code@) is Some,
        r is Some ==> extracted(code@) == Some(r.unwrap()@),
{
    match single_line_body(code) {
        None => None,
        Some(body) => {
            let chars = chars_of(body.as_str());
            if chars.len() == 0 {
                None
            } else {
                Some(normalize_var_body(body.as_str()))
            }
        },
    }
}

/// The lines of the bodies from index `k` on, each behind ` * `.
pub open spec fn body_lines(bodies: Seq<Seq<char>>, k: int) -> Seq<char>
    decreases bodies.len() - k,
{
    if k < 0 || k >= bodies.len() {
        Seq::empty()
    } else if bodies[k].len() == 0 {
        "\n *"@ + body_lines(bodies, k + 1)
    } else {
        "\n * "@ + bodies[k] + body_lines(bodies, k + 1)
    }
}

/// One doc comment that holds the given bodies, a line each.
pub open spec fn merged(bodies: Seq<Seq<char>>) -> Seq<char> {
    "/**"@ + body_lines(bodies, 0) + "\n */"@
}

/// Writes one doc comment that holds the given bodies, a line each.
pub fn merge_docblock_bodies(bodies: &[String]) -> (r: String)
    ensures
        r@ == merged(texts(bodies@)),
{
    let mut lines = String::new();
    let mut k: usize = 0;
    while k < bodies.len()
        invariant
            k <= bodies@.len(),
            lines@ + body_lines(texts(bodies@), k as int) == body_lines(texts(bodies@), 0),
        decreases bodies.len() - k,
    {
        let ghost prev = lines@;
        let mut line = String::new();
        let chars = chars_of(bodies[k].as_str());
        if chars.len() == 0 {
            line = String::from_str("\n *");
        } else {
            line = String::from_str("\n * ");
            line.append(bodies[k].as_str());
        }
        lines.append(line.as_str());
        assert(lines@ + body_lines(texts(bodies@), k + 1) =~= prev + body_lines(
            texts(bodies@),
            k as int,
        ));
        k += 1;
    }
    assert(lines@ + body_lines(texts(bodies@), k as int) =~= lines@);
    let mut result = String::from_str("/**");
    result.append(lines.as_str());
    result.append("\n */");
    result
}

/// Descriptions, then annotations, with one empty body between them where
/// there are both.
pub open spec fn described(descriptions: Seq<Seq<char>>, vars: Seq<Seq<char>>) -> Seq<Seq<char>> {
    if descriptions.len() > 0 && vars.len() > 0 {
        descriptions + seq![Seq::<char>::empty()] + vars
    } else {
        descriptions + vars
    }
}

fn extend(all: &mut Vec<String>, more: &[String])
    ensures
        texts(final(all)@) == texts(old(all)@) + texts(more@),
{
    let mut k: usize = 0;
    assert(texts(all@) + texts(more@.take(0)) =~= texts(all@));
    while k < more.len()
        invariant
            k <= more@.len(),
            texts(all@) == texts(old(all)@) + texts(more@.take(k as int)),
        decreases more.len() - k,
    {
        let item = more[k].clone();
        proof {
            lemma_texts_push(all@, item);
        }
        all.push(item);
        assert(texts(more@.take(k + 1)) =~= texts(more@.take(k as int)).push(more@[k as int]@));
        assert(texts(all@) =~= texts(old(all)@) + texts(more@.take(k + 1)));
        k += 1;
    }
    assert(more@.take(k as int) =~= more@);
}

/// Puts descriptions and annotations into one list of bodies.
pub fn merge_descriptions_and_vars(descriptions: &[String], vars: &[String]) -> (r: Vec<String>)
    ensures
        texts(r@) == described(texts(descriptions@), texts(vars@)),
{
    let mut all_bodies: Vec<String> = Vec::new();
    proof {
        lemma_texts_empty();
    }
    extend(&mut all_bodies, descriptions);
    assert(texts(all_bodies@) =~= texts(descriptions@));
    if descriptions.len() > 0 && vars.len() > 0 {
        let empty = String::new();
        proof {
            lemma_texts_push(all_bodies@, empty);
        }
        all_bodies.push(empty);
        assert(texts(all_bodies@) =~= texts(descriptions@) + seq![Seq::<char>::empty()]);
    }
    extend(&mut all_bodies, vars);
    all_bodies
}

/// The text of the rows from index `k` on, each written at the depth that it
/// stands at, and the depth behind the last of them.
pub open spec fn emitted_all(rows: Seq<Seq<char>>, k: int, pad: Seq<char>, depth: int) -> (
    Seq<char>,
    int,
)
    decreases rows.len() - k,
{
    if k < 0 || k >= rows.len() {
        (Seq::empty(), depth)
    } else {
        let rest = emitted_all(rows, k + 1, pad, next_depth(depth, rows[k]));
        (reindented(rows[k], pad, depth) + rest.0, rest.1)
    }
}

/// Appends the rows to `result`, each at the depth that it stands at.
pub fn emit_lines(rows: &[String], pad: &str, depth: &mut i32, result: &mut String)
    ensures
        final(result)@ == old(result)@ + emitted_all(texts(rows@), 0, pad@, *old(depth) as int).0,
        *final(depth) == emitted_all(texts(rows@), 0, pad@, *old(depth) as int).1,
{
    let mut k: usize = 0;
    assert(result@ + emitted_all(texts(rows@), 0, pad@, *depth as int).0 =~= old(result)@
        + emitted_all(texts(rows@), 0, pad@, *old(depth) as int).0);
    while k < rows.len()
        invariant
            k <= rows@.len(),
            result@ + emitted_all(texts(rows@), k as int, pad@, *depth as int).0 == old(result)@
                + emitted_all(texts(rows@), 0, pad@, *old(depth) as int).0,
            emitted_all(texts(rows@), k as int, pad@, *depth as int).1 == emitted_all(
                texts(rows@),
                0,
                pad@,
                *old(depth) as int,
            ).1,
        decreases rows.len() - k,
    {
        let ghost prev = result@;
        let ghost before = *depth as int;
        emit_reindented_line(rows[k].as_str(), pad, depth, result);
        assert(result@ + emitted_all(texts(rows@), k + 1, pad@, *depth as int).0 =~= prev
            + emitted_all(texts(rows@), k as int, pad@, before).0);
        k += 1;
    }
    assert(result@ + emitted_all(texts(rows@), k as int, pad@, *depth as int).0 =~= result@);
}

/// The doc comment that is written for pending bodies: a single body on one
/// line behind ` * `, several as they are merged.
pub open spec fn flush_text(bodies: Seq<Seq<char>>) -> Seq<char> {
    if bodies.len() == 1 {
        "/**\n * "@ + bodies[0] + "\n */"@
    } else {
        merged(bodies)
    }
}

/// Writes the pending bodies as one doc comment, line by line.
pub fn flush_docblocks(bodies: &[String], pad: &str, depth: &mut i32, result: &mut String)
    ensures
        final(result)@ == old(result)@ + emitted_all(
            lines(flush_text(texts(bodies@))),
            0,
            pad@,
            *old(depth) as int,
        ).0,
        *final(depth) == emitted_all(
            lines(flush_text(texts(bodies@))),
            0,
            pad@,
            *old(depth) as int,
        ).1,
{
    let mut text = String::new();
    if bodies.len() == 1 {
        text = String::from_str("/**\n * ");
        text.append(bodies[0].as_str());
        text.append("\n */");
    } else {
        text = merge_docblock_bodies(bodies);
    }
    let chars = chars_of(text.as_str());
    let rows = lines_of(&chars);
    emit_lines(rows.as_slice(), pad, depth, result);
}

/// The rows that are not blank, each trimmed.
pub open spec fn solid_rows(rows: Seq<Seq<char>>) -> Seq<Seq<char>>
    decreases rows.len(),
{
    if rows.len() == 0 {
        Seq::empty()
    } else if blank(rows.last()) {
        solid_rows(rows.drop_last())
    } else {
        solid_rows(rows.drop_last()).push(trim(rows.last()))
    }
}

/// The trimmed lines of `s` that are not blank.
pub fn solid_lines_of(s: &[char]) -> (r: Vec<String>)
    ensures
        texts(r@) == solid_rows(lines(s@)),
{
    let rows = lines_of(s);
    let mut r: Vec<String> = Vec::new();
    let mut k: usize = 0;
    proof {
        lemma_texts_empty();
    }
    assert(texts(rows@).take(0) =~= Seq::<Seq<char>>::empty());
    while k < rows.len()
        invariant
            k <= rows@.len(),
            texts(r@) == solid_rows(texts(rows@).take(k as int)),
        decreases rows.len() - k,
    {
        let row = chars_of(rows[k].as_str());
        assert(texts(rows@).take(k + 1).drop_last() =~= texts(rows@).take(k as int));
        assert(texts(rows@).take(k + 1).last() == row@);
        if !is_blank(&row) {
            let t = string_of(trim_of(&row));
            proof {
                lemma_texts_push(r@, t);
            }
            r.push(t);
        }
        k += 1;
    }
    assert(texts(rows@).take(k as int) =~= texts(rows@));
    r
}

/// Whether each row from index `k` up to the last but one begins with `*`.
pub open spec fn starred(rows: Seq<Seq<char>>, k: int) -> bool
    decreases rows.len() - k,
{
    if k < 0 || k >= rows.len() - 1 {
        true
    } else {
        first_is(rows[k], '*') && starred(rows, k + 1)
    }
}

/// Whether a piece of code is a doc comment and nothing else: a comment on
/// one line, or lines of which the first is `/**`, the last is `*/` and each
/// between them begins with `*`.
pub open spec fn docblock_only(s: Seq<char>) -> bool {
    let t = trim(s);
    let rows = solid_rows(lines(t));
    if t.len() == 0 {
        false
    } else if "/**"@.is_prefix_of(t) && "*/"@.is_suffix_of(t) && count_of(t, '\n') == 0 {
        true
    } else {
        rows.len() >= 2 && rows[0] == "/**"@ && rows[rows.len() - 1] == "*/"@ && starred(rows, 1)
    }
}

/// Whether a piece of code is a doc comment and nothing else.
pub fn is_docblock_only(code: &str) -> (b: bool)
    ensures
        b == docblock_only(code@),
{
    let chars = chars_of(code);
    let trimmed = trim_of(&chars);
    if trimmed.len() == 0 {
        return false;
    }
    if starts_with_str(trimmed, "/**") && ends_with_str(trimmed, "*/") && !contains_char(
        trimmed,
        '\n',
    ) {
        return true;
    }
    let rows = solid_lines_of(trimmed);
    if rows.len() < 2 {
        return false;
    }
    let first = chars_of(rows[0].as_str());
    let last = chars_of(rows[rows.len() - 1].as_str());
    if !equals_str(&first, "/**") || !equals_str(&last, "*/") {
        return false;
    }
    let mut ok = true;
    let mut k: usize = rows.len() - 1;
    while k > 1
        invariant
            1 <= k <= rows@.len() - 1,
            ok == starred(texts(rows@), k as int),
        decreases k,
    {
        let row = chars_of(rows[k - 1].as_str());
        assert(texts(rows@)[k - 1] == row@);
        if !starts_with_char(&row, '*') {
            ok = false;
        }
        k -= 1;
    }
    ok
}

/// The rows from index `k` on, each behind `pad` and without the white space
/// at its end.
pub open spec fn padded_rows(rows: Seq<Seq<char>>, k: int, pad: Seq<char>) -> Seq<char>
    decreases rows.len() - k,
{
    if k < 0 || k >= rows.len() {
        Seq::empty()
    } else {
        pad + trim_end(rows[k]) + "\n"@ + padded_rows(rows, k + 1, pad)
    }
}

/// A doc comment between tags of its own: on three lines where it stood on
/// one, and else trimmed.
pub open spec fn docblock_island(s: Seq<char>, pad: Seq<char>) -> Seq<char> {
    let comment = match expanded(s) {
        Some(x) => x,
        None => trim(s),
    };
    pad + "<?php\n"@ + padded_rows(lines(comment), 0, pad) + pad + "?>\n"@
}

/// Appends a doc comment between tags of its own.
pub fn emit_docblock_php(code: &str, pad: &str, output: &mut String)
    ensures
        final(output)@ == old(output)@ + docblock_island(code@, pad@),
{
    let docblock = match expand_single_line_docblock(code) {
        Some(x) => x,
        None => {
            let chars = chars_of(code);
            string_of(trim_of(&chars))
        },
    };
    let chars = chars_of(docblock.as_str());
    let rows = lines_of(&chars);
    let mut body = String::new();
    let mut k: usize = 0;
    while k < rows.len()
        invariant
            k <= rows@.len(),
            body@ + padded_rows(texts(rows@), k as int, pad@) == padded_rows(texts(rows@), 0, pad@),
        decreases rows.len() - k,
    {
        let ghost prev = body@;
        let row = chars_of(rows[k].as_str());
        let mut line = String::from_str(pad);
        line.append(string_of(trim_end_of(&row)).as_str());
        line.append("\n");
        body.append(line.as_str());
        assert(body@ + padded_rows(texts(rows@), k + 1, pad@) =~= prev + padded_rows(
            texts(rows@),
            k as int,
            pad@,
        ));
        k += 1;
    }
    assert(body@ + padded_rows(texts(rows@), k as int, pad@) =~= body@);
    let mut island = String::from_str(pad);
    island.append("<?php\n");
    island.append(body.as_str());
    island.append(pad);
    island.append("?>\n");
    output.append(island.as_str());
}

} // verus!
