//! The walk over the lines of a block of code: what is written for each
//! line, and what is kept for the lines behind it.

use crate::formatter::docblock::{
    described, emit_lines, emitted_all, extract_docblock_body, extracted, flush_docblocks,
    flush_text, merge_descriptions_and_vars,
};
use crate::formatter::indent::{
    brackets, closes_from, count_unescaped_quotes, detect_heredoc, detect_open_quote,
    emit_reindented_line, held, heredoc_marker, next_depth, open_quote, opens_from, reindented,
    unescaped_from,
};
use crate::formatter::php::{format_php_code, tidy};
use crate::text::{
    chars_of, equals, equals_str, lemma_texts_empty, lemma_texts_push, lines, starts_with,
    starts_with_str, string_of, strip_trailing, strip_trailing_of, texts, trim, trim_of,
};
use vstd::prelude::*;
use vstd::slice::slice_subrange;
use vstd::string::*;

verus! {

/// What the walk over the lines of a block has written and what it keeps.
pub struct Flow {
    /// The text written so far.
    pub result: Seq<char>,
    /// The depth of nesting behind the last line.
    pub depth: int,
    /// Whether the last line was blank.
    pub prev_blank: bool,
    /// Whether no line with content has been seen yet.
    pub first_content: bool,
    /// Whether a doc comment was written last.
    pub after_doc: bool,
    /// Whether the last statement was an import.
    pub after_use: bool,
    /// Whether the last statement was a `declare`.
    pub after_declare: bool,
    /// The quote of the literal that is open over the end of the last line.
    pub in_string: Option<char>,
    /// The marker of the heredoc that is open.
    pub heredoc: Option<Seq<char>>,
    /// The type annotations that wait for the next statement.
    pub pending_vars: Seq<Seq<char>>,
    /// The descriptions that wait for the next statement.
    pub pending_descriptions: Seq<Seq<char>>,
    /// The imports and `declare` lines that wait behind pending comments.
    pub deferred: Seq<Seq<char>>,
    /// Whether the walk is inside a doc comment of several lines.
    pub in_docblock: bool,
    /// The bodies of the doc comment that the walk is inside.
    pub bodies: Seq<Seq<char>>,
}

/// The walk over the lines of a block, as the program holds it.
pub struct Reindenter {
    /// The text written so far.
    pub result: String,
    /// The depth of nesting behind the last line.
    pub depth: i32,
    /// Whether the last line was blank.
    pub prev_blank: bool,
    /// Whether no line with content has been seen yet.
    pub first_content: bool,
    /// Whether a doc comment was written last.
    pub after_doc: bool,
    /// Whether the last statement was an import.
    pub after_use: bool,
    /// Whether the last statement was a `declare`.
    pub after_declare: bool,
    /// The quote of the literal that is open over the end of the last line.
    pub in_string: Option<char>,
    /// The marker of the heredoc that is open.
    pub heredoc: Option<String>,
    /// The type annotations that wait for the next statement.
    pub pending_vars: Vec<String>,
    /// The descriptions that wait for the next statement.
    pub pending_descriptions: Vec<String>,
    /// The imports and `declare` lines that wait behind pending comments.
    pub deferred: Vec<String>,
    /// Whether the walk is inside a doc comment of several lines.
    pub in_docblock: bool,
    /// The bodies of the doc comment that the walk is inside.
    pub bodies: Vec<String>,
}

impl View for Reindenter {
    type V = Flow;

    open spec fn view(&self) -> Flow {
        Flow {
            result: self.result@,
            depth: self.depth as int,
            prev_blank: self.prev_blank,
            first_content: self.first_content,
            after_doc: self.after_doc,
            after_use: self.after_use,
            after_declare: self.after_declare,
            in_string: self.in_string,
            heredoc: match self.heredoc {
                Some(m) => Some(m@),
                None => None,
            },
            pending_vars: texts(self.pending_vars@),
            pending_descriptions: texts(self.pending_descriptions@),
            deferred: texts(self.deferred@),
            in_docblock: self.in_docblock,
            bodies: texts(self.bodies@),
        }
    }
}

/// The walk before the first line.
pub open spec fn start() -> Flow {
    Flow {
        result: Seq::empty(),
        depth: 0,
        prev_blank: false,
        first_content: true,
        after_doc: false,
        after_use: false,
        after_declare: false,
        in_string: None,
        heredoc: None,
        pending_vars: Seq::empty(),
        pending_descriptions: Seq::empty(),
        deferred: Seq::empty(),
        in_docblock: false,
        bodies: Seq::empty(),
    }
}

/// The walk with one line feed written.
pub open spec fn gap(f: Flow) -> Flow {
    Flow { result: f.result + "\n"@, ..f }
}

/// The walk with the rows written, each at the depth that it stands at.
pub open spec fn wrote(f: Flow, rows: Seq<Seq<char>>, pad: Seq<char>) -> Flow {
    Flow {
        result: f.result + emitted_all(rows, 0, pad, f.depth).0,
        depth: emitted_all(rows, 0, pad, f.depth).1,
        ..f
    }
}

/// The walk with one line written at the depth that it stands at.
pub open spec fn wrote_line(f: Flow, line: Seq<char>, pad: Seq<char>) -> Flow {
    Flow { result: f.result + reindented(line, pad, f.depth), depth: next_depth(f.depth, line), ..f }
}

/// The walk with the pending comments written as one doc comment, and none
/// pending.
pub open spec fn flushed(f: Flow, pad: Seq<char>) -> Flow {
    Flow {
        pending_vars: Seq::empty(),
        pending_descriptions: Seq::empty(),
        ..wrote(f, lines(flush_text(described(f.pending_descriptions, f.pending_vars))), pad)
    }
}

/// The walk with the depth moved by the brackets of `after`.
pub open spec fn moved(f: Flow, after: Seq<char>) -> Flow {
    Flow { depth: held(f.depth + opens_from(after, 0) - closes_from(after, 0)), ..f }
}

/// Whether comments wait for the next statement.
pub open spec fn has_pending(f: Flow) -> bool {
    f.pending_vars.len() > 0 || f.pending_descriptions.len() > 0
}

/// The walk over one line inside a heredoc: the line is copied; the line
/// that holds the marker alone, or the marker before `;`, closes the heredoc.
pub open spec fn heredoc_step(f: Flow, line: Seq<char>) -> Flow {
    let t = trim(line);
    let marker = f.heredoc.unwrap();
    let g = Flow { result: f.result + line + "\n"@, ..f };
    if strip_trailing(t, ';') == marker {
        let after = if marker.is_prefix_of(t) {
            t.subrange(marker.len() as int, t.len() as int)
        } else {
            Seq::empty()
        };
        moved(Flow { heredoc: None, ..g }, after)
    } else {
        g
    }
}

/// The last index before `n` at which `c` stands in `s`.
pub open spec fn last_index(s: Seq<char>, c: char, n: int) -> Option<int>
    decreases n,
{
    if n <= 0 || n > s.len() {
        None
    } else if s[n - 1] == c {
        Some(n - 1)
    } else {
        last_index(s, c, n - 1)
    }
}

/// The walk over one line inside a quoted literal: the line is copied; a
/// line with an odd number of quotes closes the literal, and what follows
/// its last quote moves the depth.
pub open spec fn string_step(f: Flow, line: Seq<char>) -> Flow {
    let q = f.in_string.unwrap();
    let g = Flow { result: f.result + line + "\n"@, ..f };
    if unescaped_from(line, 0, q) % 2 == 1 {
        let h = Flow { in_string: None, ..g };
        match last_index(line, q, line.len() as int) {
            Some(pos) => moved(h, line.subrange(pos + 1, line.len() as int)),
            None => h,
        }
    } else {
        g
    }
}

/// Whether there are bodies and each is a type annotation.
pub open spec fn all_vars(bodies: Seq<Seq<char>>) -> bool {
    bodies.len() > 0 && forall|k: int| 0 <= k < bodies.len() ==> "@var "@.is_prefix_of(#[trigger] bodies[k])
}

/// The lines of a doc comment with the given bodies.
pub open spec fn comment_rows(bodies: Seq<Seq<char>>) -> Seq<Seq<char>> {
    seq!["/**"@] + Seq::new(bodies.len(), |k: int| "* "@ + bodies[k]) + seq!["*/"@]
}

/// The walk over one trimmed line inside a doc comment of several lines. At
/// its end, a comment of type annotations and, in a header block, any other
/// comment wait for the next statement; elsewhere the comments that wait are
/// written, and then this one.
pub open spec fn docblock_step(f: Flow, t: Seq<char>, pad: Seq<char>, is_header: bool) -> Flow {
    if t == "*/"@ {
        let g = Flow { in_docblock: false, ..f };
        if all_vars(f.bodies) {
            Flow { pending_vars: f.pending_vars + f.bodies, bodies: Seq::empty(), ..g }
        } else if is_header {
            Flow {
                pending_descriptions: f.pending_descriptions + f.bodies,
                bodies: Seq::empty(),
                ..g
            }
        } else {
            let h = if has_pending(g) {
                flushed(g, pad)
            } else {
                g
            };
            Flow { bodies: Seq::empty(), after_doc: true, ..wrote(h, comment_rows(f.bodies), pad) }
        }
    } else if "* "@.is_prefix_of(t) && t.len() >= 2 {
        Flow { bodies: f.bodies.push(t.subrange(2, t.len() as int)), ..f }
    } else if t == "*"@ {
        Flow { bodies: f.bodies.push(Seq::empty()), ..f }
    } else {
        f
    }
}

/// The walk over a blank line: one blank line is kept between lines with
/// content, and none while comments wait for their statement.
pub open spec fn blank_step(f: Flow) -> Flow {
    if !f.prev_blank && !f.first_content {
        Flow {
            result: if has_pending(f) {
                f.result
            } else {
                f.result + "\n"@
            },
            prev_blank: true,
            ..f
        }
    } else {
        f
    }
}

/// The walk before a statement that ends the wait of the pending comments:
/// the deferred lines are written, and a blank line, and then the comments.
pub open spec fn released(f: Flow, pad: Seq<char>) -> Flow {
    let a = if f.deferred.len() > 0 {
        Flow { deferred: Seq::empty(), ..gap(wrote(f, f.deferred, pad)) }
    } else {
        f
    };
    Flow { after_doc: true, prev_blank: false, ..flushed(a, pad) }
}

/// The walk with the blank line that is owed before a statement: one
/// behind a run of imports or of `declare` lines, and behind a doc comment,
/// unless a blank line stands there.
pub open spec fn spaced(f: Flow, is_use: bool, is_declare: bool) -> Flow {
    if !f.prev_blank && ((f.after_use && !is_use) || (f.after_declare && !is_declare)
        || f.after_doc) {
        gap(f)
    } else {
        f
    }
}

/// The walk at a line with content: a header block begins with a blank line.
pub open spec fn entered(f: Flow, is_header: bool) -> Flow {
    Flow {
        first_content: false,
        ..if f.first_content && !f.prev_blank && is_header {
            gap(f)
        } else {
            f
        }
    }
}

/// Whether a trimmed line is an import.
pub open spec fn use_line(t: Seq<char>) -> bool {
    "use "@.is_prefix_of(t)
}

/// Whether a trimmed line is a `declare`.
pub open spec fn declare_line(t: Seq<char>) -> bool {
    "declare("@.is_prefix_of(t)
}

/// The walk with an import or a `declare` line put behind the comments that
/// wait.
pub open spec fn queued(f: Flow, t: Seq<char>) -> Flow {
    Flow {
        deferred: f.deferred.push(t),
        after_use: use_line(t),
        after_declare: declare_line(t),
        ..f
    }
}

/// The walk made ready for the statement `t`: the comments that wait are
/// written unless `t` is a comment itself, and the blank lines that are owed.
pub open spec fn readied(f: Flow, t: Seq<char>, pad: Seq<char>) -> Flow {
    let g = if has_pending(f) && extracted(t) is None && t != "/**"@ {
        released(f, pad)
    } else {
        f
    };
    Flow {
        prev_blank: false,
        after_doc: t == "*/"@,
        after_use: use_line(t),
        after_declare: declare_line(t),
        ..spaced(g, use_line(t), declare_line(t))
    }
}

/// The walk with the statement `t` taken in: a doc comment on one line waits
/// for the next statement; `/**` opens a doc comment; any other line is
/// spaced and written, and may open a heredoc or leave a literal open.
pub open spec fn settled(f: Flow, t: Seq<char>, pad: Seq<char>) -> Flow {
    if extracted(t) is Some {
        Flow {
            pending_vars: f.pending_vars.push(extracted(t).unwrap()),
            after_use: false,
            after_declare: false,
            ..f
        }
    } else if t == "/**"@ {
        Flow { in_docblock: true, bodies: Seq::empty(), ..f }
    } else {
        let g = wrote_line(f, tidy(t), pad);
        if heredoc_marker(t) is Some {
            Flow { heredoc: heredoc_marker(t), ..g }
        } else if open_quote(t) is Some {
            Flow { in_string: open_quote(t), ..g }
        } else {
            g
        }
    }
}

/// The walk over one trimmed line of code that is not blank.
pub open spec fn code_step(f: Flow, t: Seq<char>, pad: Seq<char>, is_header: bool) -> Flow {
    let g = entered(f, is_header);
    if has_pending(g) && (use_line(t) || declare_line(t)) {
        queued(g, t)
    } else {
        settled(readied(g, t, pad), t, pad)
    }
}

/// The walk over one line.
pub open spec fn step(f: Flow, line: Seq<char>, pad: Seq<char>, is_header: bool) -> Flow {
    if f.heredoc is Some {
        heredoc_step(f, line)
    } else if f.in_string is Some {
        string_step(f, line)
    } else if f.in_docblock {
        docblock_step(f, trim(line), pad, is_header)
    } else if trim(line).len() == 0 {
        blank_step(f)
    } else {
        code_step(f, trim(line), pad, is_header)
    }
}

/// The walk over the rows from index `k` on.
pub open spec fn walked(f: Flow, rows: Seq<Seq<char>>, k: int, pad: Seq<char>, is_header: bool) -> Flow
    decreases rows.len() - k,
{
    if k < 0 || k >= rows.len() {
        f
    } else {
        walked(step(f, rows[k], pad, is_header), rows, k + 1, pad, is_header)
    }
}

/// The walk behind the last line: the deferred lines and the comments that
/// still wait are written.
pub open spec fn closed(f: Flow, pad: Seq<char>) -> Flow {
    if has_pending(f) {
        if f.deferred.len() > 0 {
            flushed(gap(wrote(f, f.deferred, pad)), pad)
        } else {
            flushed(f, pad)
        }
    } else if f.deferred.len() > 0 {
        wrote(f, f.deferred, pad)
    } else {
        f
    }
}

impl Reindenter {
    /// The walk before the first line.
    pub fn new() -> (r: Reindenter)
        ensures
            r@ == start(),
    {
        proof {
            lemma_texts_empty();
        }
        Reindenter {
            result: String::new(),
            depth: 0,
            prev_blank: false,
            first_content: true,
            after_doc: false,
            after_use: false,
            after_declare: false,
            in_string: None,
            heredoc: None,
            pending_vars: Vec::new(),
            pending_descriptions: Vec::new(),
            deferred: Vec::new(),
            in_docblock: false,
            bodies: Vec::new(),
        }
    }
}

fn hold_sum(depth: i32, openers: usize, closers: usize) -> (r: i32)
    ensures
        r == held(depth + openers - closers),
{
    let sum: i128 = depth as i128 + openers as i128 - closers as i128;
    if sum < 0 {
        0
    } else if sum > 2147483647 {
        2147483647
    } else {
        sum as i32
    }
}

fn move_depth(st: Reindenter, after: &[char]) -> (r: Reindenter)
    ensures
        r@ == moved(st@, after@),
{
    let mut st = st;
    let (o, c) = brackets(after);
    st.depth = hold_sum(st.depth, o, c);
    st
}

fn write_gap(st: Reindenter) -> (r: Reindenter)
    ensures
        r@ == gap(st@),
{
    let mut st = st;
    st.result.append("\n");
    st
}

fn write_rows(st: Reindenter, rows: &[String], pad: &str) -> (r: Reindenter)
    ensures
        r@ == wrote(st@, texts(rows@), pad@),
{
    let mut st = st;
    let mut depth = st.depth;
    let mut result = st.result;
    emit_lines(rows, pad, &mut depth, &mut result);
    st.depth = depth;
    st.result = result;
    st
}

fn write_line(st: Reindenter, line: &str, pad: &str) -> (r: Reindenter)
    ensures
        r@ == wrote_line(st@, line@, pad@),
{
    let mut st = st;
    let mut depth = st.depth;
    let mut result = st.result;
    emit_reindented_line(line, pad, &mut depth, &mut result);
    st.depth = depth;
    st.result = result;
    st
}

fn flush(st: Reindenter, pad: &str) -> (r: Reindenter)
    ensures
        r@ == flushed(st@, pad@),
{
    let mut st = st;
    let all = merge_descriptions_and_vars(
        st.pending_descriptions.as_slice(),
        st.pending_vars.as_slice(),
    );
    let mut depth = st.depth;
    let mut result = st.result;
    flush_docblocks(all.as_slice(), pad, &mut depth, &mut result);
    st.depth = depth;
    st.result = result;
    st.pending_vars = Vec::new();
    st.pending_descriptions = Vec::new();
    proof {
        lemma_texts_empty();
    }
    st
}

fn heredoc_line(st: Reindenter, line: &str) -> (r: Reindenter)
    requires
        st@.heredoc is Some,
    ensures
        r@ == heredoc_step(st@, line@),
{
    let mut st = st;
    st.result.append(line);
    st.result.append("\n");
    let chars = chars_of(line);
    let t = trim_of(&chars);
    let closing = strip_trailing_of(t, ';');
    let marker = match &st.heredoc {
        Some(m) => chars_of(m.as_str()),
        None => Vec::new(),
    };
    if equals(closing, &marker) {
        st.heredoc = None;
        if starts_with(t, &marker) {
            let after = slice_subrange(t, marker.len(), t.len());
            move_depth(st, after)
        } else {
            let after: Vec<char> = Vec::new();
            move_depth(st, &after)
        }
    } else {
        st
    }
}

fn last_position(s: &[char], c: char) -> (r: Option<usize>)
    ensures
        r is Some == last_index(s@, c, s@.len() as int) is Some,
        r is Some ==> last_index(s@, c, s@.len() as int) == Some(r.unwrap() as int) && r.unwrap()
            < s@.len(),
{
    let mut n: usize = s.len();
    while n > 0
        invariant
            n <= s@.len(),
            last_index(s@, c, n as int) == last_index(s@, c, s@.len() as int),
        decreases n,
    {
        if s[n - 1] == c {
            return Some(n - 1);
        }
        n -= 1;
    }
    None
}

fn string_line(st: Reindenter, line: &str) -> (r: Reindenter)
    requires
        st@.in_string is Some,
    ensures
        r@ == string_step(st@, line@),
{
    let mut st = st;
    let q = match st.in_string {
        Some(q) => q,
        None => ' ',
    };
    st.result.append(line);
    st.result.append("\n");
    if count_unescaped_quotes(line, q) % 2 == 1 {
        st.in_string = None;
        let chars = chars_of(line);
        match last_position(&chars, q) {
            Some(pos) => {
                let after = slice_subrange(&chars, pos + 1, chars.len());
                move_depth(st, after)
            },
            None => st,
        }
    } else {
        st
    }
}

fn are_all_vars(bodies: &Vec<String>) -> (b: bool)
    ensures
        b == all_vars(texts(bodies@)),
{
    if bodies.len() == 0 {
        return false;
    }
    let mut k: usize = 0;
    while k < bodies.len()
        invariant
            k <= bodies@.len(),
            forall|j: int| 0 <= j < k ==> "@var "@.is_prefix_of(#[trigger] texts(bodies@)[j]),
        decreases bodies.len() - k,
    {
        let body = chars_of(bodies[k].as_str());
        assert(texts(bodies@)[k as int] == body@);
        if !starts_with_str(&body, "@var ") {
            return false;
        }
        k += 1;
    }
    true
}

fn comment_lines(bodies: &Vec<String>) -> (r: Vec<String>)
    ensures
        texts(r@) == comment_rows(texts(bodies@)),
{
    let mut rows: Vec<String> = Vec::new();
    rows.push(String::from_str("/**"));
    let mut k: usize = 0;
    while k < bodies.len()
        invariant
            k <= bodies@.len(),
            rows@.len() == k + 1,
            rows@[0]@ == "/**"@,
            forall|j: int| 0 <= j < k ==> (#[trigger] rows@[j + 1])@ == "* "@ + bodies@[j]@,
        decreases bodies.len() - k,
    {
        let mut row = String::from_str("* ");
        row.append(bodies[k].as_str());
        rows.push(row);
        k += 1;
    }
    rows.push(String::from_str("*/"));
    assert(texts(rows@) =~= comment_rows(texts(bodies@))) by {
        assert forall|j: int| 0 <= j < texts(rows@).len() implies texts(rows@)[j] == comment_rows(
            texts(bodies@),
        )[j] by {
            if 1 <= j <= bodies@.len() {
                assert(rows@[(j - 1) + 1]@ == "* "@ + bodies@[j - 1]@);
            }
        }
    }
    rows
}

fn append_all(to: &mut Vec<String>, from: &Vec<String>)
    ensures
        texts(final(to)@) == texts(old(to)@) + texts(from@),
{
    let mut k: usize = 0;
    assert(texts(to@) + texts(from@).take(0) =~= texts(to@));
    while k < from.len()
        invariant
            k <= from@.len(),
            texts(to@) == texts(old(to)@) + texts(from@).take(k as int),
        decreases from.len() - k,
    {
        let item = from[k].clone();
        proof {
            lemma_texts_push(to@, item);
        }
        to.push(item);
        assert(texts(to@) =~= texts(old(to)@) + texts(from@).take(k + 1));
        k += 1;
    }
    assert(texts(from@).take(k as int) =~= texts(from@));
}

fn docblock_line(st: Reindenter, trimmed: &[char], pad: &str, is_header: bool) -> (r: Reindenter)
    ensures
        r@ == docblock_step(st@, trimmed@, pad@, is_header),
{
    let mut st = st;
    proof {
        reveal_strlit("* ");
        lemma_texts_empty();
    }
    if equals_str(trimmed, "*/") {
        st.in_docblock = false;
        if are_all_vars(&st.bodies) {
            let bodies = st.bodies;
            let mut vars = st.pending_vars;
            append_all(&mut vars, &bodies);
            st.pending_vars = vars;
            st.bodies = Vec::new();
            st
        } else if is_header {
            let bodies = st.bodies;
            let mut descriptions = st.pending_descriptions;
            append_all(&mut descriptions, &bodies);
            st.pending_descriptions = descriptions;
            st.bodies = Vec::new();
            st
        } else {
            let rows = comment_lines(&st.bodies);
            if st.pending_vars.len() > 0 || st.pending_descriptions.len() > 0 {
                st = flush(st, pad);
            }
            st = write_rows(st, rows.as_slice(), pad);
            st.bodies = Vec::new();
            st.after_doc = true;
            st
        }
    } else if starts_with_str(trimmed, "* ") && trimmed.len() >= 2 {
        let body = string_of(slice_subrange(trimmed, 2, trimmed.len()));
        proof {
            lemma_texts_push(st.bodies@, body);
        }
        st.bodies.push(body);
        st
    } else if equals_str(trimmed, "*") {
        let body = String::new();
        proof {
            lemma_texts_push(st.bodies@, body);
        }
        st.bodies.push(body);
        st
    } else {
        st
    }
}

fn blank_line(st: Reindenter) -> (r: Reindenter)
    ensures
        r@ == blank_step(st@),
{
    let mut st = st;
    if !st.prev_blank && !st.first_content {
        if st.pending_vars.len() == 0 && st.pending_descriptions.len() == 0 {
            st.result.append("\n");
        }
        st.prev_blank = true;
    }
    st
}

fn release(st: Reindenter, pad: &str) -> (r: Reindenter)
    ensures
        r@ == released(st@, pad@),
{
    let mut st = st;
    if st.deferred.len() > 0 {
        let deferred = st.deferred;
        st.deferred = Vec::new();
        st = write_rows(st, deferred.as_slice(), pad);
        st = write_gap(st);
        proof {
            lemma_texts_empty();
        }
    }
    st = flush(st, pad);
    st.after_doc = true;
    st.prev_blank = false;
    st
}

fn space(st: Reindenter, is_use: bool, is_declare: bool) -> (r: Reindenter)
    ensures
        r@ == spaced(st@, is_use, is_declare),
{
    if !st.prev_blank && ((st.after_use && !is_use) || (st.after_declare && !is_declare)
        || st.after_doc) {
        write_gap(st)
    } else {
        st
    }
}

fn enter(st: Reindenter, is_header: bool) -> (r: Reindenter)
    ensures
        r@ == entered(st@, is_header),
{
    let mut st = st;
    if st.first_content && !st.prev_blank && is_header {
        st = write_gap(st);
    }
    st.first_content = false;
    st
}

fn queue(st: Reindenter, trimmed: &[char]) -> (r: Reindenter)
    ensures
        r@ == queued(st@, trimmed@),
{
    let mut st = st;
    let line = string_of(trimmed);
    proof {
        lemma_texts_push(st.deferred@, line);
    }
    st.deferred.push(line);
    st.after_use = starts_with_str(trimmed, "use ");
    st.after_declare = starts_with_str(trimmed, "declare(");
    st
}

fn ready(st: Reindenter, trimmed: &[char], pad: &str) -> (r: Reindenter)
    ensures
        r@ == readied(st@, trimmed@, pad@),
{
    let mut st = st;
    let line = string_of(trimmed);
    let is_use = starts_with_str(trimmed, "use ");
    let is_declare = starts_with_str(trimmed, "declare(");
    let pending = st.pending_vars.len() > 0 || st.pending_descriptions.len() > 0;
    if pending && extract_docblock_body(line.as_str()).is_none() && !equals_str(trimmed, "/**") {
        st = release(st, pad);
    }
    st = space(st, is_use, is_declare);
    st.prev_blank = false;
    st.after_doc = equals_str(trimmed, "*/");
    st.after_use = is_use;
    st.after_declare = is_declare;
    st
}

fn settle(st: Reindenter, trimmed: &[char], pad: &str) -> (r: Reindenter)
    ensures
        r@ == settled(st@, trimmed@, pad@),
{
    let mut st = st;
    let line = string_of(trimmed);
    if let Some(b) = extract_docblock_body(line.as_str()) {
        proof {
            lemma_texts_push(st.pending_vars@, b);
        }
        st.pending_vars.push(b);
        st.after_use = false;
        st.after_declare = false;
        return st;
    }
    if equals_str(trimmed, "/**") {
        st.in_docblock = true;
        st.bodies = Vec::new();
        proof {
            lemma_texts_empty();
        }
        return st;
    }
    let formatted = format_php_code(line.as_str());
    st = write_line(st, formatted.as_str(), pad);
    if let Some(marker) = detect_heredoc(line.as_str()) {
        st.heredoc = Some(marker);
    } else {
        let open = detect_open_quote(line.as_str());
        if open.is_some() {
            st.in_string = open;
        }
    }
    st
}

fn code_line(st: Reindenter, trimmed: &[char], pad: &str, is_header: bool) -> (r: Reindenter)
    ensures
        r@ == code_step(st@, trimmed@, pad@, is_header),
{
    let st = enter(st, is_header);
    let is_use = starts_with_str(trimmed, "use ");
    let is_declare = starts_with_str(trimmed, "declare(");
    let pending = st.pending_vars.len() > 0 || st.pending_descriptions.len() > 0;
    if pending && (is_use || is_declare) {
        return queue(st, trimmed);
    }
    let st = ready(st, trimmed, pad);
    settle(st, trimmed, pad)
}

/// Walks over one line.
pub fn walk_line(st: Reindenter, line: &str, pad: &str, is_header: bool) -> (r: Reindenter)
    ensures
        r@ == step(st@, line@, pad@, is_header),
{
    if st.heredoc.is_some() {
        return heredoc_line(st, line);
    }
    if st.in_string.is_some() {
        return string_line(st, line);
    }
    let chars = chars_of(line);
    let trimmed = trim_of(&chars);
    if st.in_docblock {
        return docblock_line(st, trimmed, pad, is_header);
    }
    if trimmed.len() == 0 {
        return blank_line(st);
    }
    code_line(st, trimmed, pad, is_header)
}

/// Walks over the rows of a block.
pub fn walk(rows: &[String], pad: &str, is_header: bool) -> (r: Reindenter)
    ensures
        r@ == walked(start(), texts(rows@), 0, pad@, is_header),
{
    let mut st = Reindenter::new();
    let mut k: usize = 0;
    while k < rows.len()
        invariant
            k <= rows@.len(),
            walked(st@, texts(rows@), k as int, pad@, is_header) == walked(
                start(),
                texts(rows@),
                0,
                pad@,
                is_header,
            ),
        decreases rows.len() - k,
    {
        st = walk_line(st, rows[k].as_str(), pad, is_header);
        k += 1;
    }
    st
}

/// Writes what still waits behind the last line.
pub fn close(st: Reindenter, pad: &str) -> (r: Reindenter)
    ensures
        r@ == closed(st@, pad@),
{
    let mut st = st;
    if st.pending_vars.len() > 0 || st.pending_descriptions.len() > 0 {
        if st.deferred.len() > 0 {
            let deferred = st.deferred.clone();
            st = write_rows(st, deferred.as_slice(), pad);
            st = write_gap(st);
        }
        flush(st, pad)
    } else if st.deferred.len() > 0 {
        let deferred = st.deferred.clone();
        write_rows(st, deferred.as_slice(), pad)
    } else {
        st
    }
}

proof fn lemma_rows_depth(rows: Seq<Seq<char>>, k: int, pad: Seq<char>, depth: int)
    requires
        depth >= 0,
    ensures
        emitted_all(rows, k, pad, depth).1 >= 0,
    decreases rows.len() - k,
{
    if 0 <= k < rows.len() {
        lemma_rows_depth(rows, k + 1, pad, next_depth(depth, rows[k]));
    }
}

/// Depth never below zero, line by line: the walk over one line of a block,
/// whatever the line holds, leaves the depth of nesting at zero or above.
pub proof fn law_depth_stays_above_zero(f: Flow, line: Seq<char>, pad: Seq<char>, is_header: bool)
    requires
        f.depth >= 0,
    ensures
        step(f, line, pad, is_header).depth >= 0,
{
    let t = trim(line);
    let pending = lines(flush_text(described(f.pending_descriptions, f.pending_vars)));
    lemma_rows_depth(pending, 0, pad, f.depth);
    lemma_rows_depth(comment_rows(f.bodies), 0, pad, f.depth);
    lemma_rows_depth(comment_rows(f.bodies), 0, pad, emitted_all(pending, 0, pad, f.depth).1);
    lemma_rows_depth(f.deferred, 0, pad, f.depth);
    lemma_rows_depth(pending, 0, pad, emitted_all(f.deferred, 0, pad, f.depth).1);
}

/// Depth never below zero, over a block: the walk over the rows of a block
/// leaves the depth of nesting at zero or above, whatever the rows hold.
pub proof fn law_walk_keeps_depth_above_zero(
    f: Flow,
    rows: Seq<Seq<char>>,
    k: int,
    pad: Seq<char>,
    is_header: bool,
)
    requires
        f.depth >= 0,
    ensures
        walked(f, rows, k, pad, is_header).depth >= 0,
    decreases rows.len() - k,
{
    if 0 <= k < rows.len() {
        law_depth_stays_above_zero(f, rows[k], pad, is_header);
        law_walk_keeps_depth_above_zero(step(f, rows[k], pad, is_header), rows, k + 1, pad, is_header);
    }
}

} // verus!
