//! The walk over the tree of a template: what is written for each node, and
//! the depth of indentation from node to node.

use crate::formatter::docblock::{
    docblock_island, docblock_only, emit_docblock_php, expand_single_line_docblock, expanded,
    is_docblock_only, solid_lines_of, solid_rows,
};
use crate::formatter::echo::{
    begin_form, echo_text, end_form, format_echo, is_echo_block_closer, is_echo_block_opener,
    is_single_echo_block, single_echo,
};
use crate::formatter::indent::{
    closer_form, count_semicolons_outside_parens, filled_lines_of, filled_rows, has_switch_case,
    header_block, header_part, INDENT, is_header_php_block, is_php_block_closer,
    is_php_block_opener, is_switch_case_peer, lowered, MAX_LINE_LENGTH, normalize_statements,
    occurs_outside, opener_form, opener_part, outside, peer_form, reindent_php_block,
    reindented_block, semicolons_from, split_header_and_opener, statements, switch_form,
};
use crate::formatter::php::{format_php_code, tidy};
use crate::formatter::split::{deeper, deeper_pad, ternary, ternary_positions};
use crate::parser::ast::{is_void_tag, Node, void_tag};
use crate::parser::lexer::{Attribute, is_raw_tag, raw_tag};
use crate::text::{
    blank, chars_of, contains_char, contains_str, count_char, count_of, ends_with_char, exceeds,
    has, is_blank, last_is, lines, lines_of, lowercase, repeat, repeated, starts_with_str,
    string_of, strip_leading, strip_leading_of, texts, trim, trim_end, trim_end_of, trim_of,
    trim_start, trim_start_of, white_space, width, width_of,
};
use vstd::prelude::*;
use vstd::slice::slice_subrange;
use vstd::string::*;

verus! {

/// The depth of indentation of the walk, and for each `switch` that is open
/// the depth at which it began.
pub struct FormatterState {
    pub depth: usize,
    pub switch_stack: Vec<usize>,
}

/// The depth of indentation of the walk, and for each `switch` that is open
/// the depth at which it began.
pub struct Level {
    pub depth: usize,
    pub stack: Seq<usize>,
}

impl View for FormatterState {
    type V = Level;

    open spec fn view(&self) -> Level {
        Level { depth: self.depth, stack: self.switch_stack@ }
    }
}

/// What one step of the walk writes, and the level behind it.
pub struct Step {
    pub text: Seq<char>,
    pub level: Level,
}

/// One level deeper, as far as the machine counts.
pub open spec fn up(d: usize) -> usize {
    if d < usize::MAX {
        (d + 1) as usize
    } else {
        d
    }
}

/// One level less deep, and never below zero.
pub open spec fn down(d: usize) -> usize {
    if d > 0 {
        (d - 1) as usize
    } else {
        d
    }
}

fn one_deeper(d: usize) -> (r: usize)
    ensures
        r == up(d),
{
    if d < usize::MAX {
        d + 1
    } else {
        d
    }
}

fn shallower(d: usize) -> (r: usize)
    ensures
        r == down(d),
{
    if d > 0 {
        d - 1
    } else {
        d
    }
}

/// The padding of a line at depth `d`.
pub open spec fn pad_of(d: usize) -> Seq<char> {
    repeated(INDENT@, d as nat)
}

fn padding(d: usize) -> (r: String)
    ensures
        r@ == pad_of(d),
{
    repeat(INDENT, d)
}

/// Whether a name is that of an element that has no content, whatever its
/// case.
pub fn is_void_element(name: &str) -> (b: bool)
    ensures
        b == void_tag(lowercase(name@)),
{
    let lower = name.to_lowercase();
    is_void_tag(lower.as_str())
}

/// Whether a name is that of an element whose content is kept as it is,
/// whatever its case.
pub fn is_raw_text_element(name: &str) -> (b: bool)
    ensures
        b == raw_tag(lowercase(name@)),
{
    let lower = name.to_lowercase();
    is_raw_tag(lower.as_str())
}

/// An attribute as it is written: its name, and its value in double quotes
/// behind `=` where it has one.
pub open spec fn attribute_text(a: Attribute) -> Seq<char> {
    match a.value {
        Some(v) => a.name@ + "=\""@ + v@ + "\""@,
        None => a.name@,
    }
}

/// Writes one attribute.
pub fn format_attribute(attr: &Attribute) -> (r: String)
    ensures
        r@ == attribute_text(*attr),
{
    match &attr.value {
        Some(v) => {
            let mut r = String::from_str(attr.name.as_str());
            r.append("=\"");
            r.append(v.as_str());
            r.append("\"");
            r
        },
        None => attr.name.clone(),
    }
}

/// The attributes from index `k` on, each behind one space.
pub open spec fn attributes_text(attrs: Seq<Attribute>, k: int) -> Seq<char>
    decreases attrs.len() - k,
{
    if k < 0 || k >= attrs.len() {
        Seq::empty()
    } else {
        " "@ + attribute_text(attrs[k]) + attributes_text(attrs, k + 1)
    }
}

/// Writes the attributes of a tag, each behind one space.
pub fn format_attributes(attrs: &[Attribute]) -> (r: String)
    ensures
        r@ == attributes_text(attrs@, 0),
{
    let mut r = String::new();
    let mut k: usize = 0;
    while k < attrs.len()
        invariant
            k <= attrs@.len(),
            r@ + attributes_text(attrs@, k as int) == attributes_text(attrs@, 0),
        decreases attrs.len() - k,
    {
        let ghost prev = r@;
        let mut part = String::from_str(" ");
        part.append(format_attribute(&attrs[k]).as_str());
        r.append(part.as_str());
        assert(r@ + attributes_text(attrs@, k + 1) =~= prev + attributes_text(attrs@, k as int));
        k += 1;
    }
    assert(r@ + attributes_text(attrs@, k as int) =~= r@);
    r
}

/// What a tag is written from.
pub struct TagParams<'a> {
    pub name: &'a str,
    pub attributes: &'a [Attribute],
    pub self_closing: bool,
}

/// How a tag ends.
pub open spec fn tag_tail(self_closing: bool) -> Seq<char> {
    if self_closing {
        " />"@
    } else {
        ">"@
    }
}

/// The attributes from index `k` on, each on a line of its own behind `pad`.
pub open spec fn attribute_rows(attrs: Seq<Attribute>, k: int, pad: Seq<char>) -> Seq<char>
    decreases attrs.len() - k,
{
    if k < 0 || k >= attrs.len() {
        Seq::empty()
    } else {
        pad + attribute_text(attrs[k]) + "\n"@ + attribute_rows(attrs, k + 1, pad)
    }
}

/// A tag on one line.
pub open spec fn tag_line(
    name: Seq<char>,
    attrs: Seq<Attribute>,
    self_closing: bool,
    pad: Seq<char>,
) -> Seq<char> {
    pad + "<"@ + name + attributes_text(attrs, 0) + tag_tail(self_closing)
}

/// An opening tag: on one line where it has no attributes or fits the line,
/// and else with each attribute on a line of its own, one level deeper.
pub open spec fn open_tag(
    name: Seq<char>,
    attrs: Seq<Attribute>,
    self_closing: bool,
    pad: Seq<char>,
) -> Seq<char> {
    if attrs.len() == 0 || width(tag_line(name, attrs, self_closing, pad)) <= MAX_LINE_LENGTH {
        tag_line(name, attrs, self_closing, pad) + "\n"@
    } else {
        pad + "<"@ + name + "\n"@ + attribute_rows(attrs, 0, deeper(pad)) + pad + tag_tail(
            self_closing,
        ) + "\n"@
    }
}

/// Appends an opening tag.
pub fn emit_open_tag(tag: &TagParams, pad: &str, output: &mut String)
    ensures
        final(output)@ == old(output)@ + open_tag(
            tag.name@,
            tag.attributes@,
            tag.self_closing,
            pad@,
        ),
{
    let attrs = format_attributes(tag.attributes);
    let tail = if tag.self_closing {
        " />"
    } else {
        ">"
    };
    let mut single = String::from_str(pad);
    single.append("<");
    single.append(tag.name);
    single.append(attrs.as_str());
    single.append(tail);
    if tag.attributes.len() == 0 || width_of(single.as_str()) <= MAX_LINE_LENGTH {
        single.append("\n");
        output.append(single.as_str());
        return;
    }
    let attr_pad = deeper_pad(pad);
    let mut rows = String::new();
    let mut k: usize = 0;
    while k < tag.attributes.len()
        invariant
            k <= tag.attributes@.len(),
            rows@ + attribute_rows(tag.attributes@, k as int, attr_pad@) == attribute_rows(
                tag.attributes@,
                0,
                attr_pad@,
            ),
        decreases tag.attributes.len() - k,
    {
        let ghost prev = rows@;
        let mut row = String::from_str(attr_pad.as_str());
        row.append(format_attribute(&tag.attributes[k]).as_str());
        row.append("\n");
        rows.append(row.as_str());
        assert(rows@ + attribute_rows(tag.attributes@, k + 1, attr_pad@) =~= prev
            + attribute_rows(tag.attributes@, k as int, attr_pad@));
        k += 1;
    }
    assert(rows@ + attribute_rows(tag.attributes@, k as int, attr_pad@) =~= rows@);
    let mut text = String::from_str(pad);
    text.append("<");
    text.append(tag.name);
    text.append("\n");
    text.append(rows.as_str());
    text.append(pad);
    text.append(tail);
    text.append("\n");
    output.append(text.as_str());
}

/// Whether a node can stand inside a line: text, an echo, or a block that is
/// one `echo` statement.
pub open spec fn inline_node(n: Node) -> bool {
    match n {
        Node::Text(_) => true,
        Node::PhpEcho(_) => true,
        Node::PhpBlock(code) => single_echo(code@),
        _ => false,
    }
}

/// Whether each child can stand inside a line.
pub open spec fn inline_content(children: Seq<Node>) -> bool {
    forall|k: int| 0 <= k < children.len() ==> inline_node(#[trigger] children[k])
}

/// Whether each child can stand inside a line.
pub fn is_inline_content(children: &[Node]) -> (b: bool)
    ensures
        b == inline_content(children@),
{
    let mut k: usize = 0;
    while k < children.len()
        invariant
            k <= children@.len(),
            forall|j: int| 0 <= j < k ==> inline_node(#[trigger] children@[j]),
        decreases children.len() - k,
    {
        let ok = match &children[k] {
            Node::Text(_) => true,
            Node::PhpEcho(_) => true,
            Node::PhpBlock(code) => is_single_echo_block(code.as_str()),
            _ => false,
        };
        if !ok {
            return false;
        }
        k += 1;
    }
    true
}

/// The expression of an `echo` statement: what follows `echo `, without one
/// `;` at its end, trimmed.
pub open spec fn echo_expression(s: Seq<char>) -> Seq<char> {
    let t = trim(s);
    let e = if "echo "@.is_prefix_of(t) && t.len() >= 5 {
        t.subrange(5, t.len() as int)
    } else {
        s
    };
    trim(
        if last_is(e, ';') {
            e.drop_last()
        } else {
            e
        },
    )
}

/// The expression of an `echo` statement.
pub fn echo_expression_of(code: &str) -> (r: String)
    ensures
        r@ == echo_expression(code@),
{
    let chars = chars_of(code);
    let t = trim_of(&chars);
    let e = if starts_with_str(t, "echo ") && t.len() >= 5 {
        slice_subrange(t, 5, t.len())
    } else {
        chars.as_slice()
    };
    if ends_with_char(e, ';') {
        assert(e@.drop_last() =~= e@.subrange(0, e@.len() - 1));
        string_of(trim_of(slice_subrange(e, 0, e.len() - 1)))
    } else {
        string_of(trim_of(e))
    }
}

/// A node as it stands inside a line.
pub open spec fn inline_text(n: Node) -> Seq<char> {
    match n {
        Node::Text(s) => trim(s@),
        Node::PhpEcho(s) => "<?= "@ + tidy(s@) + " ?>"@,
        Node::PhpBlock(s) => if single_echo(s@) {
            "<?= "@ + tidy(echo_expression(s@)) + " ?>"@
        } else {
            Seq::empty()
        },
        _ => Seq::empty(),
    }
}

/// The children from index `k` on as they stand inside a line.
pub open spec fn inline_children(children: Seq<Node>, k: int) -> Seq<char>
    decreases children.len() - k,
{
    if k < 0 || k >= children.len() {
        Seq::empty()
    } else {
        inline_text(children[k]) + inline_children(children, k + 1)
    }
}

/// An element on one line: its tag, its children and its closing tag.
pub open spec fn inline_element(name: Seq<char>, attrs: Seq<Attribute>, children: Seq<Node>) -> Seq<
    char,
> {
    "<"@ + name + attributes_text(attrs, 0) + ">"@ + inline_children(children, 0) + "</"@ + name
        + ">"@
}

fn echo_tag(expr: &str) -> (r: String)
    ensures
        r@ == "<?= "@ + tidy(expr@) + " ?>"@,
{
    let mut r = String::from_str("<?= ");
    r.append(format_php_code(expr).as_str());
    r.append(" ?>");
    r
}

/// Writes an element on one line.
pub fn format_inline(name: &str, attributes: &[Attribute], children: &[Node]) -> (r: String)
    ensures
        r@ == inline_element(name@, attributes@, children@),
{
    let attrs = format_attributes(attributes);
    let mut content = String::new();
    let mut k: usize = 0;
    while k < children.len()
        invariant
            k <= children@.len(),
            content@ + inline_children(children@, k as int) == inline_children(children@, 0),
        decreases children.len() - k,
    {
        let ghost prev = content@;
        let part = match &children[k] {
            Node::Text(s) => {
                let chars = chars_of(s.as_str());
                string_of(trim_of(&chars))
            },
            Node::PhpEcho(s) => echo_tag(s.as_str()),
            Node::PhpBlock(s) => {
                if is_single_echo_block(s.as_str()) {
                    echo_tag(echo_expression_of(s.as_str()).as_str())
                } else {
                    String::new()
                }
            },
            _ => String::new(),
        };
        content.append(part.as_str());
        assert(content@ + inline_children(children@, k + 1) =~= prev + inline_children(
            children@,
            k as int,
        ));
        k += 1;
    }
    assert(content@ + inline_children(children@, k as int) =~= content@);
    let mut r = String::from_str("<");
    r.append(name);
    r.append(attrs.as_str());
    r.append(">");
    r.append(content.as_str());
    r.append("</");
    r.append(name);
    r.append(">");
    r
}

/// A statement between tags on a line at depth `d`.
pub open spec fn island(formatted: Seq<char>, d: usize) -> Seq<char> {
    pad_of(d) + "<?php "@ + formatted + " ?>\n"@
}

fn island_of(formatted: &str, d: usize) -> (r: String)
    ensures
        r@ == island(formatted@, d),
{
    let mut r = padding(d);
    r.append("<?php ");
    r.append(formatted);
    r.append(" ?>\n");
    r
}

/// The depth at which the `switch` that is open began; where none is open,
/// one less than the depth of the walk.
pub open spec fn switch_level(l: Level) -> usize {
    if l.stack.len() > 0 {
        l.stack.last()
    } else {
        down(l.depth)
    }
}

/// The level behind the end of a `switch`.
pub open spec fn switch_closed(l: Level) -> Level {
    Level {
        depth: switch_level(l),
        stack: if l.stack.len() > 0 {
            l.stack.drop_last()
        } else {
            l.stack
        },
    }
}

/// Whether a statement opens a `switch`.
pub open spec fn switch_opener(s: Seq<char>, lower: Seq<char>) -> bool {
    "switch"@.is_prefix_of(lower) && opener_form(trim(s))
}

/// One statement of a block that speaks of a `switch`, between tags of its
/// own: the opener of a `switch` is written at the depth of the walk and
/// its body stands one deeper; a label stands one deeper than the `switch`
/// and what follows it one deeper again; the end of the `switch` stands at
/// the depth at which it began; `break;` keeps the depth; any other
/// statement is written at the depth of the walk and goes one deeper where
/// it opens a block.
pub open spec fn switch_stmt(s: Seq<char>, l: Level) -> Step {
    let lower = lowercase(s);
    if switch_opener(s, lower) {
        Step {
            text: island(tidy(s), l.depth),
            level: Level { depth: up(l.depth), stack: l.stack.push(l.depth) },
        }
    } else if peer_form(lowercase(trim(s))) {
        Step {
            text: island(tidy(s), up(switch_level(l))),
            level: Level { depth: up(up(switch_level(l))), ..l },
        }
    } else if "endswitch"@.is_prefix_of(lower) {
        Step { text: island(tidy(s), switch_level(l)), level: switch_closed(l) }
    } else if outside(lower, "break;"@) {
        Step { text: island(tidy(s), l.depth), level: l }
    } else {
        Step {
            text: island(tidy(s), l.depth),
            level: Level {
                depth: if opener_form(trim(s)) {
                    up(l.depth)
                } else {
                    l.depth
                },
                ..l
            },
        }
    }
}

fn top_switch(state: &FormatterState) -> (r: usize)
    ensures
        r == switch_level(state@),
{
    if state.switch_stack.len() > 0 {
        state.switch_stack[state.switch_stack.len() - 1]
    } else {
        shallower(state.depth)
    }
}

fn close_switch(state: &mut FormatterState) -> (r: usize)
    ensures
        r == switch_level(old(state)@),
        final(state)@ == switch_closed(old(state)@),
{
    let lvl = top_switch(state);
    if state.switch_stack.len() > 0 {
        let ghost before = state.switch_stack@;
        state.switch_stack.pop();
        assert(state.switch_stack@ =~= before.drop_last());
    }
    state.depth = lvl;
    lvl
}

fn has_break(lower: &str) -> (b: bool)
    ensures
        b == outside(lower@, "break;"@),
{
    let chars = chars_of(lower);
    let word = chars_of("break;");
    occurs_outside(&chars, &word)
}

fn starts_with_word(s: &str, word: &str) -> (b: bool)
    ensures
        b == word@.is_prefix_of(s@),
{
    let chars = chars_of(s);
    starts_with_str(&chars, word)
}

/// Appends one statement of a block that speaks of a `switch`.
pub fn emit_switch_stmt(trimmed: &str, state: &mut FormatterState, output: &mut String)
    ensures
        final(output)@ == old(output)@ + switch_stmt(trimmed@, old(state)@).text,
        final(state)@ == switch_stmt(trimmed@, old(state)@).level,
{
    let formatted = format_php_code(trimmed);
    let lower = trimmed.to_lowercase();
    if starts_with_word(lower.as_str(), "switch") && is_php_block_opener(trimmed) {
        output.append(island_of(formatted.as_str(), state.depth).as_str());
        let d = state.depth;
        state.switch_stack.push(d);
        state.depth = one_deeper(d);
    } else if is_switch_case_peer(trimmed) {
        let case_lvl = one_deeper(top_switch(state));
        output.append(island_of(formatted.as_str(), case_lvl).as_str());
        state.depth = one_deeper(case_lvl);
    } else if starts_with_word(lower.as_str(), "endswitch") {
        let lvl = close_switch(state);
        output.append(island_of(formatted.as_str(), lvl).as_str());
    } else if has_break(lower.as_str()) {
        output.append(island_of(formatted.as_str(), state.depth).as_str());
    } else {
        output.append(island_of(formatted.as_str(), state.depth).as_str());
        if is_php_block_opener(trimmed) {
            state.depth = one_deeper(state.depth);
        }
    }
}

/// The rows from index `k` up to the last but one, each with a line feed.
pub open spec fn middle_rows(rows: Seq<Seq<char>>, k: int) -> Seq<char>
    decreases rows.len() - k,
{
    if k < 0 || k >= rows.len() - 1 {
        Seq::empty()
    } else {
        rows[k] + "\n"@ + middle_rows(rows, k + 1)
    }
}

/// Reindented code of several lines between tags: the opening tag before the
/// first line and the closing tag behind the last.
pub open spec fn tagged_rows(rows: Seq<Seq<char>>, pad: Seq<char>) -> Seq<char> {
    pad + "<?php "@ + trim_start(rows[0]) + "\n"@ + middle_rows(rows, 1) + rows[rows.len() - 1]
        + " ?>\n"@
}

fn tagged_rows_of(rows: &Vec<String>, pad: &str) -> (r: String)
    requires
        rows@.len() > 1,
    ensures
        r@ == tagged_rows(texts(rows@), pad@),
{
    let mut middle = String::new();
    let mut k: usize = 1;
    while k < rows.len() - 1
        invariant
            1 <= k <= rows@.len() - 1,
            middle@ + middle_rows(texts(rows@), k as int) == middle_rows(texts(rows@), 1),
        decreases rows.len() - k,
    {
        let ghost prev = middle@;
        let mut row = String::from_str(rows[k].as_str());
        row.append("\n");
        middle.append(row.as_str());
        assert(middle@ + middle_rows(texts(rows@), k + 1) =~= prev + middle_rows(
            texts(rows@),
            k as int,
        ));
        k += 1;
    }
    assert(middle@ + middle_rows(texts(rows@), k as int) =~= middle@);
    let first = chars_of(rows[0].as_str());
    let mut r = String::from_str(pad);
    r.append("<?php ");
    r.append(string_of(trim_start_of(&first)).as_str());
    r.append("\n");
    r.append(middle.as_str());
    r.append(rows[rows.len() - 1].as_str());
    r.append(" ?>\n");
    r
}

/// A block of several statements between tags, reindented: nothing where
/// the reindented code is blank.
pub open spec fn multiline_inline(s: Seq<char>, pad: Seq<char>) -> Seq<char> {
    let rows = filled_rows(lines(reindented_block(s, pad)));
    if rows.len() > 1 {
        tagged_rows(rows, pad)
    } else if rows.len() == 1 {
        pad + "<?php "@ + trim_start(rows[0]) + " ?>\n"@
    } else {
        Seq::empty()
    }
}

/// Appends a block of several statements between tags.
pub fn emit_multiline_php_inline(code: &str, pad: &str, output: &mut String)
    ensures
        final(output)@ == old(output)@ + multiline_inline(code@, pad@),
{
    let reindented = reindent_php_block(code, pad);
    let chars = chars_of(reindented.as_str());
    let rows = filled_lines_of(&chars);
    if rows.len() > 1 {
        output.append(tagged_rows_of(&rows, pad).as_str());
    } else if rows.len() == 1 {
        let first = chars_of(rows[0].as_str());
        let mut r = String::from_str(pad);
        r.append("<?php ");
        r.append(string_of(trim_start_of(&first)).as_str());
        r.append(" ?>\n");
        output.append(r.as_str());
    } else {
        assert(output@ + Seq::<char>::empty() =~= output@);
    }
}

/// Reindented code on lines of its own between the two tags.
pub open spec fn php_island(s: Seq<char>, pad: Seq<char>) -> Seq<char> {
    pad + "<?php\n"@ + reindented_block(s, pad) + "\n"@ + pad + "?>\n"@
}

fn php_island_of(code: &str, pad: &str) -> (r: String)
    ensures
        r@ == php_island(code@, pad@),
{
    let mut r = String::from_str(pad);
    r.append("<?php\n");
    r.append(reindent_php_block(code, pad).as_str());
    r.append("\n");
    r.append(pad);
    r.append("?>\n");
    r
}

/// Whether a piece of code begins or ends a widget.
pub open spec fn widget_pair(s: Seq<char>) -> bool {
    has(s, "::begin("@) || has(s, "::end("@)
}

/// The depth behind a block of several statements.
pub open spec fn multiline_depth(s: Seq<char>, d: usize) -> usize {
    if header_block(s) && opener_part(s) is Some {
        up(d)
    } else if widget_pair(s) || !header_block(s) {
        if closer_form(lowercase(trim(s))) && widget_pair(s) {
            down(d)
        } else if (widget_pair(s) || !closer_form(lowercase(trim(s)))) && opener_form(trim(s)) {
            up(d)
        } else {
            d
        }
    } else {
        d
    }
}

/// A block of several statements: a header block stands on lines of its own
/// between the tags, and the opener of a control block at its end gets tags
/// of its own behind it; any other block is reindented between the tags.
pub open spec fn multiline_text(s: Seq<char>, pad: Seq<char>) -> Seq<char> {
    if header_block(s) {
        if opener_part(s) is Some {
            php_island(header_part(s, filled_rows(lines(statements(s)))), pad) + pad + "<?php "@
                + tidy(opener_part(s).unwrap()) + " ?>\n"@
        } else {
            php_island(s, pad)
        }
    } else {
        multiline_inline(s, pad)
    }
}

/// Appends a block of several statements and moves the depth.
pub fn emit_multiline_php(code: &str, pad: &str, depth: &mut usize, output: &mut String)
    ensures
        final(output)@ == old(output)@ + multiline_text(code@, pad@),
        *final(depth) == multiline_depth(code@, *old(depth)),
{
    let is_header = is_header_php_block(code);
    if is_header {
        if let Some((header_code, opener_line)) = split_header_and_opener(code) {
            let mut text = php_island_of(header_code.as_str(), pad);
            text.append(pad);
            text.append("<?php ");
            text.append(format_php_code(opener_line.as_str()).as_str());
            text.append(" ?>\n");
            output.append(text.as_str());
            *depth = one_deeper(*depth);
            return;
        }
        output.append(php_island_of(code, pad).as_str());
    } else {
        emit_multiline_php_inline(code, pad, output);
    }
    let chars = chars_of(code);
    let has_widget_pair = contains_str(&chars, "::begin(") || contains_str(&chars, "::end(");
    if has_widget_pair || !is_header {
        if is_php_block_closer(code) && has_widget_pair {
            *depth = shallower(*depth);
        } else if (has_widget_pair || !is_php_block_closer(code)) && is_php_block_opener(code) {
            *depth = one_deeper(*depth);
        }
    }
}

/// A statement between tags on one line behind `pad`.
pub open spec fn single_line(formatted: Seq<char>, pad: Seq<char>) -> Seq<char> {
    pad + "<?php "@ + formatted + " ?>"@
}

/// A conditional expression between tags on three lines.
pub open spec fn php_ternary(f: Seq<char>, pad: Seq<char>) -> Seq<char> {
    let q = ternary(f).unwrap().0;
    let c = ternary(f).unwrap().1;
    pad + "<?php "@ + trim_end(f.subrange(0, q)) + "\n"@ + deeper(pad) + "? "@ + trim(
        f.subrange(q + 1, c),
    ) + "\n"@ + deeper(pad) + ": "@ + trim(f.subrange(c + 1, f.len() as int)) + " ?>\n"@
}

/// Reindented code between tags, where the code is too wide for one line.
pub open spec fn long_rows(s: Seq<char>, pad: Seq<char>) -> Seq<char> {
    let rows = filled_rows(lines(reindented_block(s, pad)));
    if rows.len() > 1 {
        tagged_rows(rows, pad)
    } else {
        pad + "<?php\n"@ + reindented_block(s, pad) + pad + "?>\n"@
    }
}

/// Whether a single statement is written without a change of depth: a
/// header block and a doc comment of one line.
pub open spec fn keeps_depth(s: Seq<char>) -> bool {
    header_block(s) || expanded(s) is Some
}

/// One statement between tags: a header block on lines of its own; a doc
/// comment on three lines; any other statement on one line where it fits,
/// else as a conditional expression on three lines, else reindented.
pub open spec fn single_long_text(s: Seq<char>, pad: Seq<char>) -> Seq<char> {
    if header_block(s) {
        php_island(s, pad)
    } else if expanded(s) is Some {
        docblock_island(expanded(s).unwrap(), pad)
    } else if width(single_line(tidy(s), pad)) <= MAX_LINE_LENGTH {
        single_line(tidy(s), pad) + "\n"@
    } else if ternary(tidy(s)) is Some {
        php_ternary(tidy(s), pad)
    } else {
        long_rows(s, pad)
    }
}

/// The depth behind one statement.
pub open spec fn single_long_depth(s: Seq<char>, d: usize) -> usize {
    if !keeps_depth(s) && opener_form(trim(s)) {
        up(d)
    } else {
        d
    }
}

/// Appends one statement between tags and moves the depth.
pub fn emit_single_php_long(code: &str, pad: &str, depth: &mut usize, output: &mut String)
    ensures
        final(output)@ == old(output)@ + single_long_text(code@, pad@),
        *final(depth) == single_long_depth(code@, *old(depth)),
{
    let formatted = format_php_code(code);
    if is_header_php_block(code) {
        output.append(php_island_of(code, pad).as_str());
        return;
    }
    if let Some(docblock) = expand_single_line_docblock(code) {
        emit_docblock_php(docblock.as_str(), pad, output);
        return;
    }
    let mut single = String::from_str(pad);
    single.append("<?php ");
    single.append(formatted.as_str());
    single.append(" ?>");
    let chars = chars_of(formatted.as_str());
    if width_of(single.as_str()) <= MAX_LINE_LENGTH {
        single.append("\n");
        output.append(single.as_str());
    } else if let Some((q_pos, c_pos)) = ternary_positions(&chars) {
        let condition = string_of(trim_end_of(slice_subrange(&chars, 0, q_pos)));
        let true_val = string_of(trim_of(slice_subrange(&chars, q_pos + 1, c_pos)));
        let false_val = string_of(trim_of(slice_subrange(&chars, c_pos + 1, chars.len())));
        let inner_pad = deeper_pad(pad);
        let mut text = String::from_str(pad);
        text.append("<?php ");
        text.append(condition.as_str());
        text.append("\n");
        text.append(inner_pad.as_str());
        text.append("? ");
        text.append(true_val.as_str());
        text.append("\n");
        text.append(inner_pad.as_str());
        text.append(": ");
        text.append(false_val.as_str());
        text.append(" ?>\n");
        output.append(text.as_str());
    } else {
        let reindented = reindent_php_block(code, pad);
        let block = chars_of(reindented.as_str());
        let rows = filled_lines_of(&block);
        if rows.len() > 1 {
            output.append(tagged_rows_of(&rows, pad).as_str());
        } else {
            let mut text = String::from_str(pad);
            text.append("<?php\n");
            text.append(reindented.as_str());
            text.append(pad);
            text.append("?>\n");
            output.append(text.as_str());
        }
    }
    if is_php_block_opener(code) {
        *depth = one_deeper(*depth);
    }
}

/// One statement between tags, and the level behind it. While a `switch` is
/// open its labels, its end and `break;` are placed by the depth at which it
/// began; a statement that closes a block is written one level less deep.
pub open spec fn single_php(s: Seq<char>, pad: Seq<char>, l: Level) -> Step {
    let lower = lowercase(trim(s));
    let closes = closer_form(lower);
    let opens = opener_form(trim(s));
    if "switch"@.is_prefix_of(lower) && opens && !closes {
        Step {
            text: island(tidy(s), l.depth),
            level: Level { depth: up(l.depth), stack: l.stack.push(l.depth) },
        }
    } else if l.stack.len() > 0 && peer_form(lower) {
        Step {
            text: island(tidy(s), up(switch_level(l))),
            level: Level { depth: up(up(switch_level(l))), ..l },
        }
    } else if l.stack.len() > 0 && "endswitch"@.is_prefix_of(lower) {
        Step { text: island(tidy(s), switch_level(l)), level: switch_closed(l) }
    } else if l.stack.len() > 0 && outside(lower, "break;"@) {
        Step { text: island(tidy(s), l.depth), level: l }
    } else if closes {
        Step {
            text: island(tidy(s), down(l.depth)),
            level: Level {
                depth: if opens {
                    up(down(l.depth))
                } else {
                    down(l.depth)
                },
                ..l
            },
        }
    } else {
        Step {
            text: single_long_text(s, pad),
            level: Level { depth: single_long_depth(s, l.depth), ..l },
        }
    }
}

/// Appends one statement between tags.
pub fn emit_single_php(code: &str, pad: &str, state: &mut FormatterState, output: &mut String)
    ensures
        final(output)@ == old(output)@ + single_php(code@, pad@, old(state)@).text,
        final(state)@ == single_php(code@, pad@, old(state)@).level,
{
    let formatted = format_php_code(code);
    let lower = lowered(code);
    let closes = is_php_block_closer(code);
    let opens = is_php_block_opener(code);
    let chars = chars_of(lower.as_str());
    if starts_with_str(&chars, "switch") && opens && !closes {
        output.append(island_of(formatted.as_str(), state.depth).as_str());
        let d = state.depth;
        state.switch_stack.push(d);
        state.depth = one_deeper(d);
    } else if state.switch_stack.len() > 0 && is_switch_case_peer(code) {
        let case_lvl = one_deeper(top_switch(state));
        output.append(island_of(formatted.as_str(), case_lvl).as_str());
        state.depth = one_deeper(case_lvl);
    } else if state.switch_stack.len() > 0 && starts_with_str(&chars, "endswitch") {
        let lvl = close_switch(state);
        output.append(island_of(formatted.as_str(), lvl).as_str());
    } else if state.switch_stack.len() > 0 && has_break(lower.as_str()) {
        output.append(island_of(formatted.as_str(), state.depth).as_str());
    } else if closes {
        state.depth = shallower(state.depth);
        output.append(island_of(formatted.as_str(), state.depth).as_str());
        if opens {
            state.depth = one_deeper(state.depth);
        }
    } else {
        let mut depth = state.depth;
        emit_single_php_long(code, pad, &mut depth, output);
        state.depth = depth;
    }
}

/// An echo, and the level behind it: one that ends a widget is written one
/// level less deep; behind one that begins a widget the walk goes one deeper.
pub open spec fn php_echo(s: Seq<char>, pad: Seq<char>, l: Level) -> Step {
    if end_form(lowercase(trim(s))) {
        Step { text: echo_text(s, pad_of(down(l.depth))), level: Level { depth: down(l.depth), ..l } }
    } else {
        Step {
            text: echo_text(s, pad),
            level: Level {
                depth: if begin_form(lowercase(trim(s))) {
                    up(l.depth)
                } else {
                    l.depth
                },
                ..l
            },
        }
    }
}

/// Appends an echo.
pub fn emit_php_echo(code: &str, pad: &str, state: &mut FormatterState, output: &mut String)
    ensures
        final(output)@ == old(output)@ + php_echo(code@, pad@, old(state)@).text,
        final(state)@ == php_echo(code@, pad@, old(state)@).level,
{
    if is_echo_block_closer(code) {
        state.depth = shallower(state.depth);
        let pad = padding(state.depth);
        output.append(format_echo(code, pad.as_str()).as_str());
    } else {
        output.append(format_echo(code, pad).as_str());
        if is_echo_block_opener(code) {
            state.depth = one_deeper(state.depth);
        }
    }
}

/// Whether the statement at index `i` opens a `switch` and its first label
/// follows it.
pub open spec fn fused(stmts: Seq<Seq<char>>, i: int) -> bool {
    0 <= i && i + 1 < stmts.len() && switch_opener(stmts[i], lowercase(stmts[i])) && peer_form(
        lowercase(trim(stmts[i + 1])),
    )
}

/// The opener of a `switch` and its first label between one pair of tags.
pub open spec fn fused_text(stmts: Seq<Seq<char>>, i: int, d: usize) -> Seq<char> {
    pad_of(d) + "<?php "@ + tidy(stmts[i]) + "\n"@ + deeper(pad_of(d)) + tidy(stmts[i + 1])
        + " ?>\n"@
}

/// The statements of a block that speaks of a `switch` from index `i` on.
pub open spec fn switch_walk(stmts: Seq<Seq<char>>, i: int, l: Level) -> Step
    decreases stmts.len() - i,
{
    if i < 0 || i >= stmts.len() {
        Step { text: Seq::empty(), level: l }
    } else if fused(stmts, i) {
        let rest = switch_walk(
            stmts,
            i + 2,
            Level { depth: up(up(l.depth)), stack: l.stack.push(l.depth) },
        );
        Step { text: fused_text(stmts, i, l.depth) + rest.text, level: rest.level }
    } else {
        let here = switch_stmt(stmts[i], l);
        let rest = switch_walk(stmts, i + 1, here.level);
        Step { text: here.text + rest.text, level: rest.level }
    }
}

/// Whether a block holds several statements: a line feed, more than one `;`
/// outside quoted literals and round brackets, or talk of a `switch`.
pub open spec fn several(s: Seq<char>) -> bool {
    count_of(s, '\n') > 0 || semicolons_from(s, 0, 0) > 1 || switch_form(lowercase(s))
}

/// Whether a block is one `echo` statement that is written as an echo.
pub open spec fn echo_block(s: Seq<char>) -> bool {
    "echo "@.is_prefix_of(trim(s)) && trim(s).len() >= 5 && semicolons_from(s, 0, 0) <= 1
        && count_of(block_expression(s), '\n') == 0
}

/// The expression of a block that is an `echo` statement.
pub open spec fn block_expression(s: Seq<char>) -> Seq<char> {
    let e = trim(s).subrange(5, trim(s).len() as int);
    trim(
        if last_is(e, ';') {
            e.drop_last()
        } else {
            e
        },
    )
}

/// A block of code, and the level behind it: an `echo` statement is written
/// as an echo; a doc comment between tags of its own; a block that speaks of
/// a `switch` statement by statement; any other block of several statements
/// reindented; and one statement on its line.
pub open spec fn php_block(s: Seq<char>, pad: Seq<char>, l: Level) -> Step {
    if echo_block(s) {
        php_echo(block_expression(s), pad, l)
    } else if docblock_only(s) {
        Step { text: docblock_island(s, pad), level: l }
    } else if several(s) && switch_form(lowercase(s)) {
        switch_walk(solid_rows(lines(statements(s))), 0, l)
    } else if several(s) {
        Step { text: multiline_text(s, pad), level: Level { depth: multiline_depth(s, l.depth), ..l } }
    } else {
        single_php(s, pad, l)
    }
}

fn is_fused(stmts: &Vec<String>, i: usize) -> (b: bool)
    requires
        i < stmts@.len(),
    ensures
        b == fused(texts(stmts@), i as int),
{
    if stmts.len() - i <= 1 {
        return false;
    }
    let current = stmts[i].as_str();
    let lower = current.to_lowercase();
    starts_with_word(lower.as_str(), "switch") && is_php_block_opener(current)
        && is_switch_case_peer(stmts[i + 1].as_str())
}

fn emit_switch_block(stmts: &Vec<String>, state: &mut FormatterState, output: &mut String)
    ensures
        final(output)@ == old(output)@ + switch_walk(texts(stmts@), 0, old(state)@).text,
        final(state)@ == switch_walk(texts(stmts@), 0, old(state)@).level,
{
    let mut i: usize = 0;
    assert(output@ + switch_walk(texts(stmts@), 0, state@).text =~= old(output)@ + switch_walk(
        texts(stmts@),
        0,
        old(state)@,
    ).text);
    while i < stmts.len()
        invariant
            i <= stmts@.len(),
            output@ + switch_walk(texts(stmts@), i as int, state@).text == old(output)@
                + switch_walk(texts(stmts@), 0, old(state)@).text,
            switch_walk(texts(stmts@), i as int, state@).level == switch_walk(
                texts(stmts@),
                0,
                old(state)@,
            ).level,
        decreases stmts.len() - i,
    {
        let ghost prev = output@;
        let ghost before = state@;
        let ghost at = i as int;
        if is_fused(stmts, i) {
            let d = state.depth;
            let stmt_pad = padding(d);
            let mut text = String::from_str(stmt_pad.as_str());
            text.append("<?php ");
            text.append(format_php_code(stmts[i].as_str()).as_str());
            text.append("\n");
            text.append(deeper_pad(stmt_pad.as_str()).as_str());
            text.append(format_php_code(stmts[i + 1].as_str()).as_str());
            text.append(" ?>\n");
            output.append(text.as_str());
            state.switch_stack.push(d);
            state.depth = one_deeper(one_deeper(d));
            i += 2;
        } else {
            emit_switch_stmt(stmts[i].as_str(), state, output);
            i += 1;
        }
        assert(output@ + switch_walk(texts(stmts@), i as int, state@).text =~= prev + switch_walk(
            texts(stmts@),
            at,
            before,
        ).text);
    }
    assert(output@ + switch_walk(texts(stmts@), i as int, state@).text =~= output@);
}

/// Appends a block of code.
pub fn emit_php_block(code: &str, pad: &str, state: &mut FormatterState, output: &mut String)
    ensures
        final(output)@ == old(output)@ + php_block(code@, pad@, old(state)@).text,
        final(state)@ == php_block(code@, pad@, old(state)@).level,
{
    let chars = chars_of(code);
    let trimmed = trim_of(&chars);
    let semicolons = count_semicolons_outside_parens(code);
    if starts_with_str(trimmed, "echo ") && trimmed.len() >= 5 {
        let e = slice_subrange(trimmed, 5, trimmed.len());
        let cut = if ends_with_char(e, ';') {
            assert(e@.drop_last() =~= e@.subrange(0, e@.len() - 1));
            slice_subrange(e, 0, e.len() - 1)
        } else {
            e
        };
        let expr = trim_of(cut);
        if semicolons <= 1 && !contains_char(expr, '\n') {
            emit_php_echo(string_of(expr).as_str(), pad, state, output);
            return;
        }
    }
    if is_docblock_only(code) {
        emit_docblock_php(code, pad, output);
        return;
    }
    let switching = has_switch_case(code);
    let is_multiline = contains_char(&chars, '\n') || semicolons > 1 || switching;
    if is_multiline && switching {
        let normalized = normalize_statements(code);
        let normal = chars_of(normalized.as_str());
        let stmts = solid_lines_of(&normal);
        emit_switch_block(&stmts, state, output);
    } else if is_multiline {
        let mut depth = state.depth;
        emit_multiline_php(code, pad, &mut depth, output);
        state.depth = depth;
    } else {
        emit_single_php(code, pad, state, output);
    }
}

/// The rows of raw text from index `k` on: a row that begins with white
/// space is kept as it is, any other is written behind `pad`.
pub open spec fn raw_rows(rows: Seq<Seq<char>>, k: int, pad: Seq<char>) -> Seq<char>
    decreases rows.len() - k,
{
    if k < 0 || k >= rows.len() {
        Seq::empty()
    } else if rows[k].len() > 0 && white_space(rows[k][0]) {
        rows[k] + "\n"@ + raw_rows(rows, k + 1, pad)
    } else {
        pad + rows[k] + "\n"@ + raw_rows(rows, k + 1, pad)
    }
}

/// The text of a child of an element whose content is kept as it is: the
/// lines of a text node, without the line feeds before it and the white
/// space behind it; nothing for any other node.
pub open spec fn raw_child(n: Node, pad: Seq<char>) -> Seq<char> {
    match n {
        Node::Text(s) => raw_rows(lines(trim_end(strip_leading(s@, '\n'))), 0, pad),
        _ => Seq::empty(),
    }
}

/// The text of the children, from index `k` on, of an element whose content
/// is kept as it is.
pub open spec fn raw_children(children: Seq<Node>, k: int, pad: Seq<char>) -> Seq<char>
    decreases children.len() - k,
{
    if k < 0 || k >= children.len() {
        Seq::empty()
    } else {
        raw_child(children[k], pad) + raw_children(children, k + 1, pad)
    }
}

fn raw_text_of(s: &str, pad: &str) -> (r: String)
    ensures
        r@ == raw_rows(lines(trim_end(strip_leading(s@, '\n'))), 0, pad@),
{
    let chars = chars_of(s);
    let trimmed = trim_end_of(strip_leading_of(&chars, '\n'));
    let rows = lines_of(trimmed);
    let mut r = String::new();
    let mut k: usize = 0;
    while k < rows.len()
        invariant
            k <= rows@.len(),
            r@ + raw_rows(texts(rows@), k as int, pad@) == raw_rows(texts(rows@), 0, pad@),
        decreases rows.len() - k,
    {
        let ghost prev = r@;
        let row = chars_of(rows[k].as_str());
        assert(texts(rows@)[k as int] == row@);
        let mut line = String::new();
        if row.len() > 0 && crate::text::is_white_space(row[0]) {
            line = String::from_str(rows[k].as_str());
        } else {
            line = String::from_str(pad);
            line.append(rows[k].as_str());
        }
        line.append("\n");
        r.append(line.as_str());
        assert(r@ + raw_rows(texts(rows@), k + 1, pad@) =~= prev + raw_rows(
            texts(rows@),
            k as int,
            pad@,
        ));
        k += 1;
    }
    assert(r@ + raw_rows(texts(rows@), k as int, pad@) =~= r@);
    r
}

fn raw_children_of(children: &[Node], pad: &str) -> (r: String)
    ensures
        r@ == raw_children(children@, 0, pad@),
{
    let mut r = String::new();
    let mut k: usize = 0;
    while k < children.len()
        invariant
            k <= children@.len(),
            r@ + raw_children(children@, k as int, pad@) == raw_children(children@, 0, pad@),
        decreases children.len() - k,
    {
        let ghost prev = r@;
        let part = match &children[k] {
            Node::Text(s) => raw_text_of(s.as_str(), pad),
            _ => String::new(),
        };
        r.append(part.as_str());
        assert(r@ + raw_children(children@, k + 1, pad@) =~= prev + raw_children(
            children@,
            k as int,
            pad@,
        ));
        k += 1;
    }
    assert(r@ + raw_children(children@, k as int, pad@) =~= r@);
    r
}

/// A text node: its text, trimmed, on a line of its own; for blank text with
/// more than one line feed, at depth zero or one, one blank line; and else
/// nothing.
pub open spec fn text_node(s: Seq<char>, d: usize) -> Seq<char> {
    if trim(s).len() > 0 {
        pad_of(d) + trim(s) + "\n"@
    } else if d <= 1 && count_of(s, '\n') > 1 {
        "\n"@
    } else {
        Seq::empty()
    }
}

fn text_node_of(s: &str, d: usize) -> (r: String)
    ensures
        r@ == text_node(s@, d),
{
    let chars = chars_of(s);
    let trimmed = trim_of(&chars);
    if trimmed.len() > 0 {
        let mut r = padding(d);
        r.append(string_of(trimmed).as_str());
        r.append("\n");
        r
    } else if d <= 1 && count_char(&chars, '\n') > 1 {
        String::from_str("\n")
    } else {
        String::new()
    }
}

/// Whether a node is a block of code that is a header block or a doc comment.
pub open spec fn mergeable(n: Node) -> bool {
    match n {
        Node::PhpBlock(code) => header_block(code@) || docblock_only(code@),
        _ => false,
    }
}

/// Whether a node is blank text.
pub open spec fn blank_text(n: Node) -> bool {
    match n {
        Node::Text(s) => blank(s@),
        _ => false,
    }
}

/// The code of a block node, trimmed.
pub open spec fn block_code(n: Node) -> Seq<char> {
    match n {
        Node::PhpBlock(code) => trim(code@),
        _ => Seq::empty(),
    }
}

/// The index behind the run of header blocks, doc comments and blank text
/// that begins at index `j`.
pub open spec fn merge_end(nodes: Seq<Node>, j: int) -> int
    decreases nodes.len() - j,
{
    if 0 <= j < nodes.len() && (blank_text(nodes[j]) || mergeable(nodes[j])) {
        merge_end(nodes, j + 1)
    } else {
        j
    }
}

/// Whether a header block or a doc comment stands in the run that begins at
/// index `j`.
pub open spec fn merge_any(nodes: Seq<Node>, j: int) -> bool
    decreases nodes.len() - j,
{
    if 0 <= j < nodes.len() && blank_text(nodes[j]) {
        merge_any(nodes, j + 1)
    } else {
        0 <= j < nodes.len() && mergeable(nodes[j])
    }
}

/// `acc` with the code of a further block on a new line.
pub open spec fn merge_into(acc: Seq<char>, code: Seq<char>) -> Seq<char> {
    if acc.len() > 0 {
        acc + "\n"@ + code
    } else {
        acc + code
    }
}

/// `acc` with the code of the header blocks and doc comments of the run that
/// begins at index `j`, each on a new line.
pub open spec fn merge_text(nodes: Seq<Node>, j: int, acc: Seq<char>) -> Seq<char>
    decreases nodes.len() - j,
{
    if 0 <= j < nodes.len() && blank_text(nodes[j]) {
        merge_text(nodes, j + 1, acc)
    } else if 0 <= j < nodes.len() && mergeable(nodes[j]) {
        merge_text(nodes, j + 1, merge_into(acc, block_code(nodes[j])))
    } else {
        acc
    }
}

pub proof fn lemma_merge_end(nodes: Seq<Node>, j: int)
    requires
        0 <= j <= nodes.len(),
    ensures
        j <= merge_end(nodes, j) <= nodes.len(),
    decreases nodes.len() - j,
{
    if j < nodes.len() && (blank_text(nodes[j]) || mergeable(nodes[j])) {
        lemma_merge_end(nodes, j + 1);
    }
}

/// The level at the start of the children of an element at depth `d`.
pub open spec fn child_level(d: usize) -> Level {
    Level { depth: up(d), stack: Seq::empty() }
}

/// An element at depth `depth`. An element whose content is kept as it is
/// has its text copied between its tags; an element without content and
/// without children is one tag; an element whose children can all stand
/// inside a line is written on one line where that fits; and any other has
/// its children on lines of their own, one level deeper.
pub open spec fn element_text(
    name: Seq<char>,
    attrs: Seq<Attribute>,
    children: Seq<Node>,
    depth: usize,
) -> Seq<char>
    decreases children, children.len() + 1,
{
    let pad = pad_of(depth);
    let closing = pad + "</"@ + name + ">\n"@;
    if raw_tag(lowercase(name)) {
        open_tag(name, attrs, false, pad) + raw_children(children, 0, pad) + closing
    } else if children.len() == 0 && void_tag(lowercase(name)) {
        open_tag(name, attrs, true, pad)
    } else if inline_content(children) && width(pad) + width(
        inline_element(name, attrs, children),
    ) <= MAX_LINE_LENGTH {
        pad + inline_element(name, attrs, children) + "\n"@
    } else {
        open_tag(name, attrs, false, pad) + nodes_from(children, 0, child_level(depth)).text
            + closing
    }
}

/// Whether the block at index `i` is taken together with those that follow
/// it: at depth zero, a header block or a doc comment that another follows
/// with nothing but blank text between them.
pub open spec fn merges(nodes: Seq<Node>, i: int, l: Level) -> bool {
    l.depth == 0 && 0 <= i < nodes.len() && mergeable(nodes[i]) && merge_any(nodes, i + 1)
}

/// What is written for the block of code at index `i`, and the level
/// behind it.
pub open spec fn block_step(nodes: Seq<Node>, i: int, code: Seq<char>, l: Level) -> Step {
    if merges(nodes, i, l) {
        php_block(merge_text(nodes, i + 1, trim(code)), pad_of(l.depth), l)
    } else {
        php_block(code, pad_of(l.depth), l)
    }
}

/// The index behind the block of code at index `i` and those that are taken
/// together with it.
pub open spec fn block_next(nodes: Seq<Node>, i: int, l: Level) -> int {
    if merges(nodes, i, l) {
        merge_end(nodes, i + 1)
    } else {
        i + 1
    }
}

/// What is written for a node that is neither an element nor a block of
/// code, and the level behind it.
pub open spec fn leaf_step(n: Node, l: Level) -> Step {
    match n {
        Node::Text(s) => Step { text: text_node(s@, l.depth), level: l },
        Node::PhpEcho(code) => php_echo(code@, pad_of(l.depth), l),
        Node::Doctype(s) => Step { text: pad_of(l.depth) + "<!DOCTYPE "@ + s@ + ">\n"@, level: l },
        Node::Comment(s) => Step { text: pad_of(l.depth) + "<!-- "@ + s@ + " -->\n"@, level: l },
        _ => Step { text: Seq::empty(), level: l },
    }
}

/// The nodes from index `i` on, and the level behind them.
pub open spec fn nodes_from(nodes: Seq<Node>, i: int, l: Level) -> Step
    decreases nodes, nodes.len() - i,
{
    if i < 0 || i >= nodes.len() {
        Step { text: Seq::empty(), level: l }
    } else {
        match nodes[i] {
            Node::Element { name, attributes, children } => {
                let rest = nodes_from(nodes, i + 1, l);
                Step {
                    text: element_text(name@, attributes@, children@, l.depth) + rest.text,
                    level: rest.level,
                }
            },
            Node::PhpBlock(code) => {
                proof {
                    lemma_merge_end(nodes, i + 1);
                }
                let here = block_step(nodes, i, code@, l);
                let rest = nodes_from(nodes, block_next(nodes, i, l), here.level);
                Step { text: here.text + rest.text, level: rest.level }
            },
            _ => {
                let here = leaf_step(nodes[i], l);
                let rest = nodes_from(nodes, i + 1, here.level);
                Step { text: here.text + rest.text, level: rest.level }
            },
        }
    }
}

/// The text of a template: its nodes from depth zero on.
pub open spec fn formatted(nodes: Seq<Node>) -> Seq<char> {
    nodes_from(nodes, 0, Level { depth: 0, stack: Seq::empty() }).text
}

fn closing_tag(name: &str, pad: &str) -> (r: String)
    ensures
        r@ == pad@ + "</"@ + name@ + ">\n"@,
{
    let mut r = String::from_str(pad);
    r.append("</");
    r.append(name);
    r.append(">\n");
    r
}

/// Appends an element at depth `depth`.
pub fn emit_element(
    name: &str,
    attributes: &[Attribute],
    children: &[Node],
    depth: usize,
    output: &mut String,
)
    ensures
        final(output)@ == old(output)@ + element_text(name@, attributes@, children@, depth),
    decreases children@, children@.len() + 1,
{
    let pad = padding(depth);
    let mut text = String::new();
    if is_raw_text_element(name) {
        emit_open_tag(&TagParams { name, attributes, self_closing: false }, pad.as_str(), &mut text);
        text.append(raw_children_of(children, pad.as_str()).as_str());
        text.append(closing_tag(name, pad.as_str()).as_str());
    } else if children.len() == 0 && is_void_element(name) {
        emit_open_tag(&TagParams { name, attributes, self_closing: true }, pad.as_str(), &mut text);
    } else {
        let mut done = false;
        if is_inline_content(children) {
            let inline = format_inline(name, attributes, children);
            if !exceeds(width_of(pad.as_str()), width_of(inline.as_str()), 0, MAX_LINE_LENGTH) {
                text.append(pad.as_str());
                text.append(inline.as_str());
                text.append("\n");
                done = true;
            }
        }
        if !done {
            emit_open_tag(
                &TagParams { name, attributes, self_closing: false },
                pad.as_str(),
                &mut text,
            );
            format_nodes(children, one_deeper(depth), &mut text);
            text.append(closing_tag(name, pad.as_str()).as_str());
        }
    }
    output.append(text.as_str());
}

fn is_mergeable(node: &Node) -> (b: bool)
    ensures
        b == mergeable(*node),
{
    match node {
        Node::PhpBlock(code) => is_header_php_block(code.as_str()) || is_docblock_only(
            code.as_str(),
        ),
        _ => false,
    }
}

fn is_blank_text(node: &Node) -> (b: bool)
    ensures
        b == blank_text(*node),
{
    match node {
        Node::Text(s) => {
            let chars = chars_of(s.as_str());
            is_blank(&chars)
        },
        _ => false,
    }
}

fn trimmed_code(node: &Node) -> (r: String)
    ensures
        r@ == block_code(*node),
{
    match node {
        Node::PhpBlock(code) => {
            let chars = chars_of(code.as_str());
            string_of(trim_of(&chars))
        },
        _ => String::new(),
    }
}

fn merge_run(nodes: &[Node], from: usize, first: String) -> (r: (String, bool, usize))
    requires
        from <= nodes@.len(),
    ensures
        r.0@ == merge_text(nodes@, from as int, first@),
        r.1 == merge_any(nodes@, from as int),
        r.2 == merge_end(nodes@, from as int),
        from <= r.2 <= nodes@.len(),
{
    let mut merged = first;
    let mut j: usize = from;
    let mut merged_any = false;
    let mut stop = false;
    while j < nodes.len() && !stop
        invariant
            from <= j <= nodes@.len(),
            merge_text(nodes@, j as int, merged@) == merge_text(nodes@, from as int, first@),
            merge_end(nodes@, j as int) == merge_end(nodes@, from as int),
            merged_any || merge_any(nodes@, j as int) == merge_any(nodes@, from as int),
            merged_any ==> merge_any(nodes@, from as int),
            stop ==> !(blank_text(nodes@[j as int]) || mergeable(nodes@[j as int])),
        decreases nodes.len() - j + if stop {
            0int
        } else {
            1int
        },
    {
        if is_blank_text(&nodes[j]) {
            j += 1;
        } else if is_mergeable(&nodes[j]) {
            let code = trimmed_code(&nodes[j]);
            if chars_of(merged.as_str()).len() > 0 {
                merged.append("\n");
            }
            merged.append(code.as_str());
            merged_any = true;
            j += 1;
        } else {
            stop = true;
        }
    }
    (merged, merged_any, j)
}

fn emit_block(
    nodes: &[Node],
    i: usize,
    code: &str,
    state: &mut FormatterState,
    output: &mut String,
) -> (next: usize)
    requires
        i < nodes@.len(),
    ensures
        final(output)@ == old(output)@ + block_step(nodes@, i as int, code@, old(state)@).text,
        final(state)@ == block_step(nodes@, i as int, code@, old(state)@).level,
        next == block_next(nodes@, i as int, old(state)@),
        i < next <= nodes@.len(),
{
    let len = nodes.len();
    let pad = padding(state.depth);
    if state.depth == 0 && is_mergeable(&nodes[i]) {
        let chars = chars_of(code);
        let first = string_of(trim_of(&chars));
        let (merged, merged_any, j) = merge_run(nodes, i + 1, first);
        if merged_any {
            emit_php_block(merged.as_str(), pad.as_str(), state, output);
            return j;
        }
    }
    emit_php_block(code, pad.as_str(), state, output);
    i + 1
}

fn emit_leaf(node: &Node, state: &mut FormatterState, output: &mut String)
    ensures
        final(output)@ == old(output)@ + leaf_step(*node, old(state)@).text,
        final(state)@ == leaf_step(*node, old(state)@).level,
{
    let pad = padding(state.depth);
    match node {
        Node::Text(s) => {
            output.append(text_node_of(s.as_str(), state.depth).as_str());
        },
        Node::PhpEcho(code) => {
            emit_php_echo(code.as_str(), pad.as_str(), state, output);
        },
        Node::Doctype(s) => {
            let mut line = String::from_str(pad.as_str());
            line.append("<!DOCTYPE ");
            line.append(s.as_str());
            line.append(">\n");
            output.append(line.as_str());
        },
        Node::Comment(s) => {
            let mut line = String::from_str(pad.as_str());
            line.append("<!-- ");
            line.append(s.as_str());
            line.append(" -->\n");
            output.append(line.as_str());
        },
        _ => {
            assert(output@ + Seq::<char>::empty() =~= output@);
        },
    }
}

/// Appends the nodes of a template from depth `depth` on.
pub fn format_nodes(nodes: &[Node], depth: usize, output: &mut String)
    ensures
        final(output)@ == old(output)@ + nodes_from(
            nodes@,
            0,
            Level { depth: depth, stack: Seq::empty() },
        ).text,
    decreases nodes@, nodes@.len(),
{
    let mut state = FormatterState { depth, switch_stack: Vec::new() };
    let mut i: usize = 0;
    let ghost start = state@;
    assert(start =~= Level { depth: depth, stack: Seq::empty() });
    while i < nodes.len()
        invariant
            i <= nodes@.len(),
            output@ + nodes_from(nodes@, i as int, state@).text == old(output)@ + nodes_from(
                nodes@,
                0,
                start,
            ).text,
        decreases nodes.len() - i,
    {
        let ghost prev = output@;
        let ghost before = state@;
        let ghost at = i as int;
        match &nodes[i] {
            Node::Element { name, attributes, children } => {
                emit_element(
                    name.as_str(),
                    attributes.as_slice(),
                    children.as_slice(),
                    state.depth,
                    output,
                );
                i += 1;
            },
            Node::PhpBlock(code) => {
                i = emit_block(nodes, i, code.as_str(), &mut state, output);
            },
            _ => {
                emit_leaf(&nodes[i], &mut state, output);
                i += 1;
            },
        }
        assert(output@ + nodes_from(nodes@, i as int, state@).text =~= prev + nodes_from(
            nodes@,
            at,
            before,
        ).text);
    }
    assert(output@ + nodes_from(nodes@, i as int, state@).text =~= output@);
}

/// Formats a template: the text of its tree, with four spaces for each level
/// of indentation.
pub fn format(nodes: &[Node]) -> (r: String)
    ensures
        r@ == formatted(nodes@),
{
    let mut output = String::new();
    format_nodes(nodes, 0, &mut output);
    assert(Seq::<char>::empty() + formatted(nodes@) =~= formatted(nodes@));
    output
}

} // verus!
