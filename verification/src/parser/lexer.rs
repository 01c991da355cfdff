//! Tokens of a template.

use crate::formatter::scan::{is_quote, lemma_literal_end, literal_end, quote, skip_literal};
use crate::text::{
    chars_of, contains_char, count_of, equals_str, first_is, last_is, lowercase, starts_with_char,
    starts_with_str, string_of, trim, trim_end, trim_end_of, trim_of, trim_start, trim_start_of,
    uppercase, white_space, width, width_of,
};
use vstd::prelude::*;
use vstd::slice::slice_subrange;
use vstd::string::*;

verus! {

/// An attribute of a tag: its name, and its value where it has one.
#[derive(Debug, PartialEq)]
pub struct Attribute {
    pub name: String,
    pub value: Option<String>,
}

/// An attribute as text.
pub struct Attr {
    pub name: Seq<char>,
    pub value: Option<Seq<char>>,
}

impl View for Attribute {
    type V = Attr;

    open spec fn view(&self) -> Attr {
        Attr {
            name: self.name@,
            value: match self.value {
                Some(v) => Some(v@),
                None => None,
            },
        }
    }
}

/// The attributes as text.
pub open spec fn attrs(a: Seq<Attribute>) -> Seq<Attr> {
    Seq::new(a.len(), |k: int| a[k]@)
}

/// A token of a template.
#[derive(Debug, PartialEq)]
pub enum Token {
    Text(String),
    OpenTag { name: String, attributes: Vec<Attribute> },
    CloseTag(String),
    SelfClosing { name: String, attributes: Vec<Attribute> },
    PhpBlock(String),
    PhpEcho(String),
    Doctype(String),
    Comment(String),
}

/// A token as text.
pub enum Lexeme {
    Text(Seq<char>),
    OpenTag { name: Seq<char>, attributes: Seq<Attr> },
    CloseTag(Seq<char>),
    SelfClosing { name: Seq<char>, attributes: Seq<Attr> },
    PhpBlock(Seq<char>),
    PhpEcho(Seq<char>),
    Doctype(Seq<char>),
    Comment(Seq<char>),
}

impl View for Token {
    type V = Lexeme;

    open spec fn view(&self) -> Lexeme {
        match *self {
            Token::Text(s) => Lexeme::Text(s@),
            Token::OpenTag { name, attributes } => Lexeme::OpenTag {
                name: name@,
                attributes: attrs(attributes@),
            },
            Token::CloseTag(s) => Lexeme::CloseTag(s@),
            Token::SelfClosing { name, attributes } => Lexeme::SelfClosing {
                name: name@,
                attributes: attrs(attributes@),
            },
            Token::PhpBlock(s) => Lexeme::PhpBlock(s@),
            Token::PhpEcho(s) => Lexeme::PhpEcho(s@),
            Token::Doctype(s) => Lexeme::Doctype(s@),
            Token::Comment(s) => Lexeme::Comment(s@),
        }
    }
}

/// The tokens as text.
pub open spec fn lexemes(t: Seq<Token>) -> Seq<Lexeme> {
    Seq::new(t.len(), |k: int| t[k]@)
}

/// The number of characters of white space that stand at index `i`.
pub open spec fn spaces(s: Seq<char>, i: int) -> nat
    decreases s.len() - i,
{
    if 0 <= i < s.len() && white_space(s[i]) {
        1 + spaces(s, i + 1)
    } else {
        0
    }
}

/// The number of characters from index `i` up to the next white space.
pub open spec fn unspaced(s: Seq<char>, i: int) -> nat
    decreases s.len() - i,
{
    if 0 <= i < s.len() && !white_space(s[i]) {
        1 + unspaced(s, i + 1)
    } else {
        0
    }
}

/// The number of characters from index `i` up to the next `=` or white space.
pub open spec fn name_len(s: Seq<char>, i: int) -> nat
    decreases s.len() - i,
{
    if 0 <= i < s.len() && s[i] != '=' && !white_space(s[i]) {
        1 + name_len(s, i + 1)
    } else {
        0
    }
}

/// The number of characters from index `i` up to the next `c`.
pub open spec fn until(s: Seq<char>, i: int, c: char) -> nat
    decreases s.len() - i,
{
    if 0 <= i < s.len() && s[i] != c {
        1 + until(s, i + 1, c)
    } else {
        0
    }
}

/// The number of characters from index `k` up to and with the next `?>`, or
/// up to the end where there is none.
pub open spec fn php_span(s: Seq<char>, k: int) -> nat
    decreases s.len() - k,
{
    if k < 0 || k >= s.len() {
        0
    } else if s[k] == '?' && k + 1 < s.len() && s[k + 1] == '>' {
        2
    } else {
        1 + php_span(s, k + 1)
    }
}

pub proof fn lemma_spaces(s: Seq<char>, i: int)
    requires
        0 <= i <= s.len(),
    ensures
        i + spaces(s, i) <= s.len(),
    decreases s.len() - i,
{
    if i < s.len() && white_space(s[i]) {
        lemma_spaces(s, i + 1);
    }
}

pub proof fn lemma_unspaced(s: Seq<char>, i: int)
    requires
        0 <= i <= s.len(),
    ensures
        i + unspaced(s, i) <= s.len(),
    decreases s.len() - i,
{
    if i < s.len() && !white_space(s[i]) {
        lemma_unspaced(s, i + 1);
    }
}

pub proof fn lemma_name_len(s: Seq<char>, i: int)
    requires
        0 <= i <= s.len(),
    ensures
        i + name_len(s, i) <= s.len(),
    decreases s.len() - i,
{
    if i < s.len() && s[i] != '=' && !white_space(s[i]) {
        lemma_name_len(s, i + 1);
    }
}

pub proof fn lemma_until(s: Seq<char>, i: int, c: char)
    requires
        0 <= i <= s.len(),
    ensures
        i + until(s, i, c) <= s.len(),
    decreases s.len() - i,
{
    if i < s.len() && s[i] != c {
        lemma_until(s, i + 1, c);
    }
}

pub proof fn lemma_php_span(s: Seq<char>, k: int)
    requires
        0 <= k <= s.len(),
    ensures
        k + php_span(s, k) <= s.len(),
    decreases s.len() - k,
{
    if k < s.len() && !(s[k] == '?' && k + 1 < s.len() && s[k + 1] == '>') {
        lemma_php_span(s, k + 1);
    }
}

fn skip_whitespace(chars: &[char], pos: usize) -> (next: usize)
    requires
        pos <= chars@.len(),
    ensures
        next == pos + spaces(chars@, pos as int),
        pos <= next <= chars@.len(),
{
    let mut i: usize = pos;
    while i < chars.len() && crate::text::is_white_space(chars[i])
        invariant
            pos <= i <= chars@.len(),
            i + spaces(chars@, i as int) == pos + spaces(chars@, pos as int),
        decreases chars.len() - i,
    {
        i += 1;
    }
    i
}

fn skip_unspaced(chars: &[char], pos: usize) -> (next: usize)
    requires
        pos <= chars@.len(),
    ensures
        next == pos + unspaced(chars@, pos as int),
        pos <= next <= chars@.len(),
{
    let mut i: usize = pos;
    while i < chars.len() && !crate::text::is_white_space(chars[i])
        invariant
            pos <= i <= chars@.len(),
            i + unspaced(chars@, i as int) == pos + unspaced(chars@, pos as int),
        decreases chars.len() - i,
    {
        i += 1;
    }
    i
}

fn skip_until(chars: &[char], pos: usize, c: char) -> (next: usize)
    requires
        pos <= chars@.len(),
    ensures
        next == pos + until(chars@, pos as int, c),
        pos <= next <= chars@.len(),
{
    let mut i: usize = pos;
    while i < chars.len() && chars[i] != c
        invariant
            pos <= i <= chars@.len(),
            i + until(chars@, i as int, c) == pos + until(chars@, pos as int, c),
        decreases chars.len() - i,
    {
        i += 1;
    }
    i
}

fn skip_php(chars: &[char], pos: usize) -> (next: usize)
    requires
        pos <= chars@.len(),
    ensures
        next == pos + php_span(chars@, pos as int),
        pos <= next <= chars@.len(),
{
    let len = chars.len();
    let mut i: usize = pos;
    let mut done = false;
    while i < len && !done
        invariant
            pos <= i <= len == chars@.len(),
            !done ==> i + php_span(chars@, i as int) == pos + php_span(chars@, pos as int),
            done ==> i == pos + php_span(chars@, pos as int),
        decreases len - i + if done {
            0int
        } else {
            1int
        },
    {
        if chars[i] == '?' && len - i > 1 && chars[i + 1] == '>' {
            i += 2;
            done = true;
        } else {
            i += 1;
        }
    }
    i
}

fn consume_attr_name(chars: &[char], pos: usize) -> (r: (String, usize))
    requires
        pos <= chars@.len(),
    ensures
        r.1 == pos + name_len(chars@, pos as int),
        r.1 <= chars@.len(),
        r.0@ == chars@.subrange(pos as int, r.1 as int),
{
    let mut i: usize = pos;
    while i < chars.len() && chars[i] != '=' && !crate::text::is_white_space(chars[i])
        invariant
            pos <= i <= chars@.len(),
            i + name_len(chars@, i as int) == pos + name_len(chars@, pos as int),
        decreases chars.len() - i,
    {
        i += 1;
    }
    (string_of(slice_subrange(chars, pos, i)), i)
}

/// The value of an attribute that begins at index `i`: what stands between
/// quotes where it begins with one, and else what stands before the next
/// white space.
pub open spec fn value_text(s: Seq<char>, i: int) -> Seq<char> {
    if 0 <= i < s.len() && is_quote(s[i]) {
        s.subrange(i + 1, i + 1 + until(s, i + 1, s[i]))
    } else {
        s.subrange(i, i + unspaced(s, i))
    }
}

/// The index behind the value of an attribute that begins at index `i`.
pub open spec fn value_end(s: Seq<char>, i: int) -> int {
    if 0 <= i < s.len() && is_quote(s[i]) {
        if i + 1 + until(s, i + 1, s[i]) < s.len() {
            i + 2 + until(s, i + 1, s[i])
        } else {
            i + 1 + until(s, i + 1, s[i])
        }
    } else {
        i + unspaced(s, i)
    }
}

pub proof fn lemma_value_end(s: Seq<char>, i: int)
    requires
        0 <= i <= s.len(),
    ensures
        i <= value_end(s, i) <= s.len(),
{
    if i < s.len() && is_quote(s[i]) {
        lemma_until(s, i + 1, s[i]);
    } else {
        lemma_unspaced(s, i);
    }
}

fn consume_attr_value(chars: &[char], pos: usize) -> (r: (String, usize))
    requires
        pos <= chars@.len(),
    ensures
        r.0@ == value_text(chars@, pos as int),
        r.1 == value_end(chars@, pos as int),
        pos <= r.1 <= chars@.len(),
{
    let len = chars.len();
    if pos < len && quote(chars[pos]) {
        let e = skip_until(chars, pos + 1, chars[pos]);
        let value = string_of(slice_subrange(chars, pos + 1, e));
        if e < len {
            (value, e + 1)
        } else {
            (value, e)
        }
    } else {
        let e = skip_unspaced(chars, pos);
        (string_of(slice_subrange(chars, pos, e)), e)
    }
}

/// Whether a piece of code in tags begins at index `i`.
pub open spec fn php_at(s: Seq<char>, i: int) -> bool {
    0 <= i && i + 1 < s.len() && s[i] == '<' && s[i + 1] == '?'
}

/// The index behind the piece of code in tags that begins at index `i`.
pub open spec fn php_end(s: Seq<char>, i: int) -> int {
    i + 2 + php_span(s, i + 2)
}

fn try_consume_php_attr(chars: &[char], pos: usize) -> (r: Option<(Attribute, usize)>)
    requires
        pos <= chars@.len(),
    ensures
        r is Some == php_at(chars@, pos as int),
        r is Some ==> r.unwrap().1 == php_end(chars@, pos as int) && pos + 2 <= r.unwrap().1
            <= chars@.len() && r.unwrap().0@ == (Attr {
            name: chars@.subrange(pos as int, r.unwrap().1 as int),
            value: None,
        }),
{
    let len = chars.len();
    if !(pos < len && chars[pos] == '<' && len - pos > 1 && chars[pos + 1] == '?') {
        return None;
    }
    let e = skip_php(chars, pos + 2);
    Some((Attribute { name: string_of(slice_subrange(chars, pos, e)), value: None }, e))
}

/// The attributes that stand in `s` from index `i` on: a piece of code in
/// tags counts as an attribute without a value; a name ends at `=` or at
/// white space; where `=` follows the name, a value follows it.
pub open spec fn attributes_from(s: Seq<char>, i: int) -> Seq<Attr>
    decreases s.len() - i,
{
    if i < 0 || i > s.len() {
        Seq::empty()
    } else {
        let j = i + spaces(s, i);
        let k = j + name_len(s, j);
        let m = k + spaces(s, k);
        proof {
            lemma_spaces(s, i);
            lemma_php_span(s, if j + 2 <= s.len() {
                j + 2
            } else {
                0
            });
            lemma_name_len(s, j);
            lemma_spaces(s, k);
            if m < s.len() {
                lemma_spaces(s, m + 1);
                lemma_value_end(s, m + 1 + spaces(s, m + 1));
            }
        }
        if php_at(s, j) {
            seq![Attr { name: s.subrange(j, php_end(s, j)), value: None }] + attributes_from(
                s,
                php_end(s, j),
            )
        } else if k == j {
            Seq::empty()
        } else if m < s.len() && s[m] == '=' {
            seq![
                Attr {
                    name: s.subrange(j, k),
                    value: Some(value_text(s, m + 1 + spaces(s, m + 1))),
                },
            ] + attributes_from(s, value_end(s, m + 1 + spaces(s, m + 1)))
        } else {
            seq![Attr { name: s.subrange(j, k), value: None }] + attributes_from(s, m)
        }
    }
}

fn parse_attributes(raw: &[char]) -> (r: Vec<Attribute>)
    ensures
        attrs(r@) == attributes_from(raw@, 0),
{
    let len = raw.len();
    let mut list: Vec<Attribute> = Vec::new();
    let mut i: usize = 0;
    let mut done = false;
    assert(attrs(list@) =~= Seq::<Attr>::empty());
    assert(attrs(list@) + attributes_from(raw@, 0) =~= attributes_from(raw@, 0));
    while !done
        invariant
            i <= len == raw@.len(),
            !done ==> attrs(list@) + attributes_from(raw@, i as int) == attributes_from(raw@, 0),
            done ==> attrs(list@) == attributes_from(raw@, 0),
        decreases len - i + if done {
            0int
        } else {
            1int
        },
    {
        let ghost prev = attrs(list@);
        let ghost at = i as int;
        let j = skip_whitespace(raw, i);
        match try_consume_php_attr(raw, j) {
            Some((attr, next)) => {
                let ghost before = list@;
                list.push(attr);
                assert(attrs(list@) =~= prev.push(attr@));
                i = next;
                assert(attrs(list@) + attributes_from(raw@, i as int) =~= prev + attributes_from(
                    raw@,
                    at,
                ));
            },
            None => {
                let (name, k) = consume_attr_name(raw, j);
                if k == j {
                    done = true;
                    assert(attrs(list@) =~= prev + attributes_from(raw@, at));
                } else {
                    let m = skip_whitespace(raw, k);
                    if m < len && raw[m] == '=' {
                        let v = skip_whitespace(raw, m + 1);
                        let (value, next) = consume_attr_value(raw, v);
                        let attr = Attribute { name, value: Some(value) };
                        list.push(attr);
                        assert(attrs(list@) =~= prev.push(attr@));
                        i = next;
                    } else {
                        let attr = Attribute { name, value: None };
                        list.push(attr);
                        assert(attrs(list@) =~= prev.push(attr@));
                        i = m;
                    }
                    assert(attrs(list@) + attributes_from(raw@, i as int) =~= prev
                        + attributes_from(raw@, at));
                }
            },
        }
    }
    list
}

/// The token of a tag whose content, between `<` and `>`, is `content`: a
/// closing tag where it begins with `/`; a tag closed in itself where it
/// ends with `/`; and else an opening tag. The name ends at the first white
/// space, and the attributes follow it.
pub open spec fn tag_token(content: Seq<char>) -> Lexeme {
    let t = trim(content);
    if first_is(t, '/') {
        Lexeme::CloseTag(trim(t.drop_first()))
    } else {
        let body = if last_is(t, '/') {
            trim(t.drop_last())
        } else {
            t
        };
        let n = unspaced(body, 0);
        let rest = if n < body.len() {
            trim_start(body.subrange(n as int, body.len() as int))
        } else {
            Seq::empty()
        };
        if last_is(t, '/') {
            Lexeme::SelfClosing { name: body.subrange(0, n as int), attributes: attributes_from(rest, 0) }
        } else {
            Lexeme::OpenTag { name: body.subrange(0, n as int), attributes: attributes_from(rest, 0) }
        }
    }
}

fn parse_tag(tag_content: &[char]) -> (r: Token)
    ensures
        r@ == tag_token(tag_content@),
{
    let trimmed = trim_of(tag_content);
    if starts_with_char(trimmed, '/') {
        assert(trimmed@.drop_first() =~= trimmed@.subrange(1, trimmed@.len() as int));
        return Token::CloseTag(string_of(trim_of(slice_subrange(trimmed, 1, trimmed.len()))));
    }
    let is_self_closing = crate::text::ends_with_char(trimmed, '/');
    let body = if is_self_closing {
        assert(trimmed@.drop_last() =~= trimmed@.subrange(0, trimmed@.len() - 1));
        trim_of(slice_subrange(trimmed, 0, trimmed.len() - 1))
    } else {
        trimmed
    };
    let n = skip_unspaced(body, 0);
    let name = string_of(slice_subrange(body, 0, n));
    let attributes = if n < body.len() {
        parse_attributes(trim_start_of(slice_subrange(body, n, body.len())))
    } else {
        let none: Vec<char> = Vec::new();
        parse_attributes(&none)
    };
    if is_self_closing {
        Token::SelfClosing { name, attributes }
    } else {
        Token::OpenTag { name, attributes }
    }
}

/// The number of characters of a piece of code from index `k` up to the
/// `?>` that ends it, outside quoted literals, or up to the end.
pub open spec fn php_body(s: Seq<char>, k: int) -> nat
    decreases s.len() - k,
{
    if k < 0 || k >= s.len() {
        0
    } else if is_quote(s[k]) {
        proof {
            lemma_literal_end(s, k);
        }
        (literal_end(s, k) - k) as nat + php_body(s, literal_end(s, k))
    } else if s[k] == '?' && k + 1 < s.len() && s[k + 1] == '>' {
        0
    } else {
        1 + php_body(s, k + 1)
    }
}

pub proof fn lemma_php_body(s: Seq<char>, k: int)
    requires
        0 <= k <= s.len(),
    ensures
        k + php_body(s, k) <= s.len(),
        k + php_body(s, k) < s.len() ==> k + php_body(s, k) + 2 <= s.len(),
    decreases s.len() - k,
{
    if k < s.len() {
        if is_quote(s[k]) {
            lemma_literal_end(s, k);
            lemma_php_body(s, literal_end(s, k));
        } else if s[k] == '?' && k + 1 < s.len() && s[k + 1] == '>' {
        } else {
            lemma_php_body(s, k + 1);
        }
    }
}

/// A piece of code as a token holds it: without the white space at its end;
/// where it has several lines, without one line feed at its start, and else
/// without the white space at its start.
pub open spec fn cleaned(content: Seq<char>) -> Seq<char> {
    let t = trim_end(content);
    if count_of(t, '\n') > 0 {
        if first_is(t, '\n') {
            t.drop_first()
        } else {
            t
        }
    } else {
        trim(t)
    }
}

/// The code that begins at index `i`, as a token holds it.
pub open spec fn php_content(s: Seq<char>, i: int) -> Seq<char> {
    cleaned(s.subrange(i, i + php_body(s, i)))
}

/// The index behind the code that begins at index `i` and the `?>` that ends
/// it.
pub open spec fn php_next(s: Seq<char>, i: int) -> int {
    if i + php_body(s, i) < s.len() {
        i + php_body(s, i) + 2
    } else {
        i + php_body(s, i)
    }
}

fn consume_php_block(chars: &[char], pos: usize) -> (r: (String, usize))
    requires
        pos <= chars@.len(),
    ensures
        r.0@ == php_content(chars@, pos as int),
        r.1 == php_next(chars@, pos as int),
        pos <= r.1 <= chars@.len(),
{
    let len = chars.len();
    let mut i: usize = pos;
    let mut done = false;
    proof {
        lemma_php_body(chars@, pos as int);
    }
    while i < len && !done
        invariant
            pos <= i <= len == chars@.len(),
            !done ==> i + php_body(chars@, i as int) == pos + php_body(chars@, pos as int),
            done ==> i == pos + php_body(chars@, pos as int) && i < len,
        decreases len - i + if done {
            0int
        } else {
            1int
        },
    {
        if quote(chars[i]) {
            i = skip_literal(chars, i);
        } else if chars[i] == '?' && len - i > 1 && chars[i + 1] == '>' {
            done = true;
        } else {
            i += 1;
        }
    }
    let content = slice_subrange(chars, pos, i);
    let next = if i < len {
        i + 2
    } else {
        i
    };
    let trimmed = trim_end_of(content);
    if contains_char(trimmed, '\n') {
        if starts_with_char(trimmed, '\n') {
            assert(trimmed@.drop_first() =~= trimmed@.subrange(1, trimmed@.len() as int));
            (string_of(slice_subrange(trimmed, 1, trimmed.len())), next)
        } else {
            (string_of(trimmed), next)
        }
    } else {
        (string_of(trim_of(trimmed)), next)
    }
}

/// Whether the closing tag whose uppercase form is `close` begins at index
/// `k`, whatever its case.
pub open spec fn closes_at(s: Seq<char>, k: int, close: Seq<char>) -> bool {
    0 <= k < s.len() && close.is_prefix_of(uppercase(s.subrange(k, s.len() as int)))
}

/// The number of characters from index `k` up to the closing tag whose
/// uppercase form is `close`, or up to the end.
pub open spec fn raw_len(s: Seq<char>, k: int, close: Seq<char>) -> nat
    decreases s.len() - k,
{
    if k < 0 || k >= s.len() || closes_at(s, k, close) {
        0
    } else {
        1 + raw_len(s, k + 1, close)
    }
}

pub proof fn lemma_raw_len(s: Seq<char>, k: int, close: Seq<char>)
    requires
        0 <= k <= s.len(),
    ensures
        k + raw_len(s, k, close) <= s.len(),
    decreases s.len() - k,
{
    if k < s.len() && !closes_at(s, k, close) {
        lemma_raw_len(s, k + 1, close);
    }
}

/// The opening of the closing tag of the element `name`.
pub open spec fn close_pattern(name: Seq<char>) -> Seq<char> {
    "</"@ + name
}

/// The index behind the closing tag that begins at index `k`: behind the
/// next `>` that follows its name.
pub open spec fn close_end(s: Seq<char>, k: int, name: Seq<char>) -> int {
    let a = if k + width(close_pattern(name)) <= s.len() {
        k + width(close_pattern(name))
    } else {
        s.len() as int
    };
    if a + until(s, a, '>') < s.len() {
        a + until(s, a, '>') + 1
    } else {
        a + until(s, a, '>')
    }
}

fn raw_closes_at(chars: &[char], k: usize, close_upper: &[char]) -> (b: bool)
    requires
        k <= chars@.len(),
    ensures
        b == closes_at(chars@, k as int, close_upper@),
{
    if k >= chars.len() {
        return false;
    }
    let rest = string_of(slice_subrange(chars, k, chars.len()));
    let upper = chars_of(rest.as_str().to_uppercase().as_str());
    crate::text::starts_with(&upper, close_upper)
}

fn consume_raw_text(chars: &[char], pos: usize, tag_name: &str) -> (r: (String, bool, usize))
    requires
        pos <= chars@.len(),
    ensures
        r.0@ == chars@.subrange(
            pos as int,
            pos + raw_len(chars@, pos as int, uppercase(close_pattern(tag_name@))),
        ),
        r.1 == (pos + raw_len(chars@, pos as int, uppercase(close_pattern(tag_name@)))
            < chars@.len()),
        r.1 ==> r.2 == close_end(
            chars@,
            pos + raw_len(chars@, pos as int, uppercase(close_pattern(tag_name@))),
            tag_name@,
        ),
        !r.1 ==> r.2 == chars@.len(),
        pos <= r.2 <= chars@.len(),
{
    let len = chars.len();
    let mut pattern = String::from_str("</");
    pattern.append(tag_name);
    let close_upper = chars_of(pattern.as_str().to_uppercase().as_str());
    let mut i: usize = pos;
    let mut found = false;
    while i < len && !found
        invariant
            pos <= i <= len == chars@.len(),
            close_upper@ == uppercase(close_pattern(tag_name@)),
            !found ==> i + raw_len(chars@, i as int, close_upper@) == pos + raw_len(
                chars@,
                pos as int,
                close_upper@,
            ),
            found ==> i == pos + raw_len(chars@, pos as int, close_upper@) && i < len,
        decreases len - i + if found {
            0int
        } else {
            1int
        },
    {
        if raw_closes_at(chars, i, &close_upper) {
            found = true;
        } else {
            i += 1;
        }
    }
    let content = string_of(slice_subrange(chars, pos, i));
    if !found {
        return (content, false, len);
    }
    let skip = width_of(pattern.as_str());
    let a = if skip <= len - i {
        i + skip
    } else {
        len
    };
    let e = skip_until(chars, a, '>');
    if e < len {
        (content, true, e + 1)
    } else {
        (content, true, e)
    }
}

/// The token of the piece of code whose `?` stands at index `i`, behind a
/// `<`, and the index behind it: an echo where `=` follows the `?`; a block
/// where `php` follows it, whatever its case, or anything but a `p`. There is
/// none where no `?` stands at index `i`, where the text ends behind it, or
/// where a `p` follows it without `hp`.
pub open spec fn php_token(s: Seq<char>, i: int) -> Option<(Lexeme, int)> {
    if !(0 <= i && i + 1 < s.len() && s[i] == '?') {
        None
    } else if s[i + 1] == '=' {
        Some((Lexeme::PhpEcho(php_content(s, i + 2)), php_next(s, i + 2)))
    } else if s[i + 1] == 'p' || s[i + 1] == 'P' {
        if prefix_at(s, i + 2) {
            Some((Lexeme::PhpBlock(php_content(s, i + 4)), php_next(s, i + 4)))
        } else {
            None
        }
    } else {
        Some((Lexeme::PhpBlock(php_content(s, i + 1)), php_next(s, i + 1)))
    }
}

/// Whether `hp` stands at index `i`, whatever its case.
pub open spec fn prefix_at(s: Seq<char>, i: int) -> bool {
    0 <= i && i + 1 < s.len() && (s[i] == 'h' || s[i] == 'H') && (s[i + 1] == 'p' || s[i + 1]
        == 'P')
}

fn consume_php_tag_prefix(chars: &[char], pos: usize) -> (r: (bool, usize))
    requires
        pos <= chars@.len(),
    ensures
        r.0 == prefix_at(chars@, pos as int),
        r.0 ==> r.1 == pos + 2,
        pos <= r.1 <= chars@.len(),
{
    let len = chars.len();
    if !(pos < len && (chars[pos] == 'h' || chars[pos] == 'H')) {
        return (false, pos);
    }
    if !(len - pos > 1 && (chars[pos + 1] == 'p' || chars[pos + 1] == 'P')) {
        return (false, pos + 1);
    }
    (true, pos + 2)
}

fn try_consume_php(chars: &[char], pos: usize) -> (r: Option<(Token, usize)>)
    requires
        pos <= chars@.len(),
    ensures
        r is Some == php_token(chars@, pos as int) is Some,
        r is Some ==> php_token(chars@, pos as int) == Some(
            (r.unwrap().0@, r.unwrap().1 as int),
        ) && pos < r.unwrap().1 <= chars@.len(),
{
    let len = chars.len();
    if !(pos < len && len - pos > 1 && chars[pos] == '?') {
        return None;
    }
    let c = chars[pos + 1];
    if c == '=' {
        let (content, next) = consume_php_block(chars, pos + 2);
        Some((Token::PhpEcho(content), next))
    } else if c == 'p' || c == 'P' {
        let (found, start) = consume_php_tag_prefix(chars, pos + 2);
        if found {
            let (content, next) = consume_php_block(chars, start);
            Some((Token::PhpBlock(content), next))
        } else {
            None
        }
    } else {
        let (content, next) = consume_php_block(chars, pos + 1);
        Some((Token::PhpBlock(content), next))
    }
}

/// The text of a comment from index `k` on, behind what `acc` holds, up to
/// the `-->` that ends it.
pub open spec fn comment_text(s: Seq<char>, k: int, acc: Seq<char>) -> Seq<char>
    decreases s.len() - k,
{
    if k < 0 || k >= s.len() {
        acc
    } else if s[k] == '-' && k + 1 < s.len() && s[k + 1] == '-' {
        if k + 2 < s.len() && s[k + 2] == '>' {
            acc
        } else {
            comment_text(s, k + 2, acc.push('-').push('-'))
        }
    } else {
        comment_text(s, k + 1, acc.push(s[k]))
    }
}

/// The index behind the comment that goes on at index `k`.
pub open spec fn comment_end(s: Seq<char>, k: int) -> int
    decreases s.len() - k,
{
    if k < 0 || k >= s.len() {
        k
    } else if s[k] == '-' && k + 1 < s.len() && s[k + 1] == '-' {
        if k + 2 < s.len() && s[k + 2] == '>' {
            k + 3
        } else {
            comment_end(s, k + 2)
        }
    } else {
        comment_end(s, k + 1)
    }
}

pub proof fn lemma_comment_end(s: Seq<char>, k: int)
    requires
        0 <= k <= s.len(),
    ensures
        k <= comment_end(s, k) <= s.len(),
    decreases s.len() - k,
{
    if k < s.len() {
        if s[k] == '-' && k + 1 < s.len() && s[k + 1] == '-' {
            if !(k + 2 < s.len() && s[k + 2] == '>') {
                lemma_comment_end(s, k + 2);
            }
        } else {
            lemma_comment_end(s, k + 1);
        }
    }
}

/// Whether a comment begins with the `!` at index `i`.
pub open spec fn comment_at(s: Seq<char>, i: int) -> bool {
    0 <= i && i + 2 < s.len() && s[i + 1] == '-' && s[i + 2] == '-'
}

fn try_consume_comment(chars: &[char], pos: usize) -> (r: Option<(Token, usize)>)
    requires
        pos < chars@.len(),
    ensures
        r is Some == comment_at(chars@, pos as int),
        r is Some ==> r.unwrap().0@ == Lexeme::Comment(
            trim(comment_text(chars@, pos + 3, Seq::empty())),
        ) && r.unwrap().1 == comment_end(chars@, pos + 3) && pos < r.unwrap().1 <= chars@.len(),
{
    let len = chars.len();
    if !(len - pos > 2 && chars[pos + 1] == '-' && chars[pos + 2] == '-') {
        return None;
    }
    let mut comment: Vec<char> = Vec::new();
    let mut k: usize = pos + 3;
    let mut done = false;
    proof {
        lemma_comment_end(chars@, pos + 3);
    }
    while k < len && !done
        invariant
            pos + 3 <= k <= len == chars@.len(),
            !done ==> comment_text(chars@, k as int, comment@) == comment_text(
                chars@,
                pos + 3,
                Seq::empty(),
            ),
            !done ==> comment_end(chars@, k as int) == comment_end(chars@, pos + 3),
            done ==> comment@ == comment_text(chars@, pos + 3, Seq::empty()),
            done ==> k == comment_end(chars@, pos + 3),
        decreases len - k + if done {
            0int
        } else {
            1int
        },
    {
        if chars[k] == '-' && len - k > 1 && chars[k + 1] == '-' {
            if len - k > 2 && chars[k + 2] == '>' {
                k += 3;
                done = true;
            } else {
                comment.push('-');
                comment.push('-');
                k += 2;
            }
        } else {
            comment.push(chars[k]);
            k += 1;
        }
    }
    Some((Token::Comment(string_of(trim_of(&comment))), k))
}

/// Where the text of a doctype begins: behind the `!` at index `i` and the
/// seven characters that follow it.
pub open spec fn doctype_start(s: Seq<char>, i: int) -> int {
    if i + 8 <= s.len() {
        i + 8
    } else {
        s.len() as int
    }
}

/// Whether a doctype begins with the `!` at index `i`: the word `DOCTYPE`
/// follows it, whatever its case.
pub open spec fn doctype_at(s: Seq<char>, i: int) -> bool {
    0 <= i < s.len() && "DOCTYPE"@.is_prefix_of(uppercase(s.subrange(i + 1, doctype_start(s, i))))
}

/// The index behind the doctype that begins with the `!` at index `i`.
pub open spec fn doctype_end(s: Seq<char>, i: int) -> int {
    let k = doctype_start(s, i);
    if k + until(s, k, '>') < s.len() {
        k + until(s, k, '>') + 1
    } else {
        k + until(s, k, '>')
    }
}

fn try_consume_doctype(chars: &[char], pos: usize) -> (r: Option<(Token, usize)>)
    requires
        pos < chars@.len(),
    ensures
        r is Some == doctype_at(chars@, pos as int),
        r is Some ==> r.unwrap().0@ == Lexeme::Doctype(
            trim(
                chars@.subrange(
                    doctype_start(chars@, pos as int),
                    doctype_start(chars@, pos as int) + until(
                        chars@,
                        doctype_start(chars@, pos as int),
                        '>',
                    ),
                ),
            ),
        ) && r.unwrap().1 == doctype_end(chars@, pos as int) && pos < r.unwrap().1
            <= chars@.len(),
{
    let len = chars.len();
    let start = if len - pos >= 8 {
        pos + 8
    } else {
        len
    };
    let word = string_of(slice_subrange(chars, pos + 1, start));
    let upper = chars_of(word.as_str().to_uppercase().as_str());
    if !starts_with_str(&upper, "DOCTYPE") {
        return None;
    }
    let e = skip_until(chars, start, '>');
    let text = string_of(trim_of(slice_subrange(chars, start, e)));
    if e < len {
        Some((Token::Doctype(text), e + 1))
    } else {
        Some((Token::Doctype(text), e))
    }
}

fn consume_php_in_tag(chars: &[char], pos: usize) -> (next: usize)
    requires
        php_at(chars@, pos as int),
    ensures
        next == php_end(chars@, pos as int),
        pos + 2 <= next <= chars@.len(),
{
    let len = chars.len();
    skip_php(chars, pos + 2)
}

/// The number of characters of the content of a tag from index `k` up to the
/// `>` that ends it, or up to the end. A piece of code in tags is passed
/// over whole; inside quotes `>` does not end the tag. `open` is the quote
/// that is open at index `k`.
pub open spec fn tag_len(s: Seq<char>, k: int, open: Option<char>) -> nat
    decreases s.len() - k,
{
    if k < 0 || k >= s.len() {
        0
    } else if s[k] == '<' {
        if k + 1 < s.len() && s[k + 1] == '?' {
            proof {
                lemma_php_span(s, k + 2);
            }
            2 + php_span(s, k + 2) + tag_len(s, php_end(s, k), open)
        } else {
            1 + tag_len(s, k + 1, open)
        }
    } else if open is Some {
        1 + tag_len(
            s,
            k + 1,
            if s[k] == open.unwrap() {
                None
            } else {
                open
            },
        )
    } else if is_quote(s[k]) {
        1 + tag_len(s, k + 1, Some(s[k]))
    } else if s[k] == '>' {
        0
    } else {
        1 + tag_len(s, k + 1, open)
    }
}

pub proof fn lemma_tag_len(s: Seq<char>, k: int, open: Option<char>)
    requires
        0 <= k <= s.len(),
    ensures
        k + tag_len(s, k, open) <= s.len(),
    decreases s.len() - k,
{
    if k < s.len() {
        if s[k] == '<' {
            if k + 1 < s.len() && s[k + 1] == '?' {
                lemma_php_span(s, k + 2);
                lemma_tag_len(s, php_end(s, k), open);
            } else {
                lemma_tag_len(s, k + 1, open);
            }
        } else if open is Some {
            lemma_tag_len(
                s,
                k + 1,
                if s[k] == open.unwrap() {
                    None
                } else {
                    open
                },
            );
        } else if is_quote(s[k]) {
            lemma_tag_len(s, k + 1, Some(s[k]));
        } else if s[k] == '>' {
        } else {
            lemma_tag_len(s, k + 1, open);
        }
    }
}

/// The index behind the tag whose content begins at index `i`.
pub open spec fn tag_end(s: Seq<char>, i: int) -> int {
    if i + tag_len(s, i, None) < s.len() {
        i + tag_len(s, i, None) + 1
    } else {
        i + tag_len(s, i, None)
    }
}

fn consume_tag_body(chars: &[char], pos: usize) -> (r: (usize, usize))
    requires
        pos <= chars@.len(),
    ensures
        r.0 == pos + tag_len(chars@, pos as int, None),
        r.1 == tag_end(chars@, pos as int),
        pos <= r.0 <= r.1 <= chars@.len(),
{
    let len = chars.len();
    let mut k: usize = pos;
    let mut in_quote: Option<char> = None;
    let mut done = false;
    while k < len && !done
        invariant
            pos <= k <= len == chars@.len(),
            !done ==> k + tag_len(chars@, k as int, in_quote) == pos + tag_len(
                chars@,
                pos as int,
                None,
            ),
            done ==> k == pos + tag_len(chars@, pos as int, None) && k < len,
        decreases len - k + if done {
            0int
        } else {
            1int
        },
    {
        let c = chars[k];
        if c == '<' {
            if len - k > 1 && chars[k + 1] == '?' {
                k = consume_php_in_tag(chars, k);
            } else {
                k += 1;
            }
        } else if let Some(q) = in_quote {
            if c == q {
                in_quote = None;
            }
            k += 1;
        } else if quote(c) {
            in_quote = Some(c);
            k += 1;
        } else if c == '>' {
            done = true;
        } else {
            k += 1;
        }
    }
    if k < len {
        (k, k + 1)
    } else {
        (k, k)
    }
}

/// Whether a lowercase name is that of an element whose content is text as
/// it stands.
pub open spec fn raw_tag(lower: Seq<char>) -> bool {
    lower == "script"@ || lower == "style"@ || lower == "textarea"@
}

/// Whether a lowercase name is that of an element whose content is text as
/// it stands.
pub fn is_raw_tag(lower: &str) -> (b: bool)
    ensures
        b == raw_tag(lower@),
{
    let c = chars_of(lower);
    equals_str(&c, "script") || equals_str(&c, "style") || equals_str(&c, "textarea")
}

/// `tokens` with the text `text` as a token behind them, unless it is empty.
pub open spec fn with_text(tokens: Seq<Lexeme>, text: Seq<char>) -> Seq<Lexeme> {
    if text.len() > 0 {
        tokens.push(Lexeme::Text(text))
    } else {
        tokens
    }
}

/// Whether a token opens an element whose content is text as it stands.
pub open spec fn opens_raw(tag: Lexeme) -> bool {
    match tag {
        Lexeme::OpenTag { name, attributes } => raw_tag(lowercase(name)),
        _ => false,
    }
}

/// The name of a tag.
pub open spec fn tag_name(tag: Lexeme) -> Seq<char> {
    match tag {
        Lexeme::OpenTag { name, attributes } => name,
        _ => Seq::empty(),
    }
}

/// The tokens of the tag whose content ends before index `i`: the tag, and
/// for an element whose content is text as it stands that text, up to its
/// closing tag, and the closing tag where there is one.
pub open spec fn tag_tokens(s: Seq<char>, tag: Lexeme, i: int) -> Seq<Lexeme> {
    if opens_raw(tag) {
        let n = raw_len(s, i, uppercase(close_pattern(tag_name(tag))));
        let a = with_text(seq![tag], s.subrange(i, i + n));
        if i + n < s.len() {
            a.push(Lexeme::CloseTag(tag_name(tag)))
        } else {
            a
        }
    } else {
        seq![tag]
    }
}

/// The index behind the tokens of the tag whose content ends before index
/// `i`.
pub open spec fn tag_next(s: Seq<char>, tag: Lexeme, i: int) -> int {
    if opens_raw(tag) {
        let n = raw_len(s, i, uppercase(close_pattern(tag_name(tag))));
        if i + n < s.len() {
            close_end(s, i + n, tag_name(tag))
        } else {
            s.len() as int
        }
    } else {
        i
    }
}

pub proof fn lemma_tag_next(s: Seq<char>, tag: Lexeme, i: int)
    requires
        0 <= i <= s.len(),
    ensures
        i <= tag_next(s, tag, i) <= s.len(),
{
    if opens_raw(tag) {
        let n = raw_len(s, i, uppercase(close_pattern(tag_name(tag))));
        lemma_raw_len(s, i, uppercase(close_pattern(tag_name(tag))));
        if i + n < s.len() {
            let a = if i + n + width(close_pattern(tag_name(tag))) <= s.len() {
                i + n + width(close_pattern(tag_name(tag)))
            } else {
                s.len() as int
            };
            lemma_until(s, a, '>');
        }
    }
}

fn emit_tag_token(tag_buf: &[char], chars: &[char], pos: usize, tokens: &mut Vec<Token>) -> (next:
    usize)
    requires
        pos <= chars@.len(),
    ensures
        lexemes(final(tokens)@) == lexemes(old(tokens)@) + tag_tokens(
            chars@,
            tag_token(tag_buf@),
            pos as int,
        ),
        next == tag_next(chars@, tag_token(tag_buf@), pos as int),
        pos <= next <= chars@.len(),
{
    let tag = parse_tag(tag_buf);
    let ghost before = lexemes(tokens@);
    let ghost model = tag@;
    let mut raw: Option<String> = None;
    match &tag {
        Token::OpenTag { name, attributes } => {
            let lower = name.as_str().to_lowercase();
            if is_raw_tag(lower.as_str()) {
                raw = Some(name.clone());
            }
        },
        _ => {},
    }
    tokens.push(tag);
    assert(lexemes(tokens@) =~= before.push(model));
    match raw {
        Some(name) => {
            let (content, found_close, next) = consume_raw_text(chars, pos, name.as_str());
            if chars_of(content.as_str()).len() > 0 {
                let ghost prev = lexemes(tokens@);
                let text = Token::Text(content);
                tokens.push(text);
                assert(lexemes(tokens@) =~= prev.push(text@));
            }
            if found_close {
                let ghost prev = lexemes(tokens@);
                let close = Token::CloseTag(name);
                tokens.push(close);
                assert(lexemes(tokens@) =~= prev.push(close@));
            }
            assert(lexemes(tokens@) =~= before + tag_tokens(chars@, model, pos as int));
            next
        },
        None => {
            assert(lexemes(tokens@) =~= before + tag_tokens(chars@, model, pos as int));
            pos
        },
    }
}

/// The tokens of `s` from index `i` on, behind the text `text` that has
/// been read and not yet made a token.
pub open spec fn tokens_from(s: Seq<char>, i: int, text: Seq<char>) -> Seq<Lexeme>
    decreases s.len() - i,
{
    if i < 0 || i >= s.len() {
        with_text(Seq::empty(), text)
    } else if s[i] != '<' {
        tokens_from(s, i + 1, text.push(s[i]))
    } else if php_token(s, i + 1) is Some {
        proof {
            lemma_php_token(s, i + 1);
        }
        with_text(Seq::empty(), text).push(php_token(s, i + 1).unwrap().0) + tokens_from(
            s,
            php_token(s, i + 1).unwrap().1,
            Seq::empty(),
        )
    } else if i + 1 < s.len() && s[i + 1] == '!' && comment_at(s, i + 1) {
        proof {
            lemma_comment_end(s, i + 4);
        }
        with_text(Seq::empty(), text).push(
            Lexeme::Comment(trim(comment_text(s, i + 4, Seq::empty()))),
        ) + tokens_from(s, comment_end(s, i + 4), Seq::empty())
    } else if i + 1 < s.len() && s[i + 1] == '!' && doctype_at(s, i + 1) {
        proof {
            lemma_until(s, doctype_start(s, i + 1), '>');
        }
        with_text(Seq::empty(), text).push(
            Lexeme::Doctype(
                trim(
                    s.subrange(
                        doctype_start(s, i + 1),
                        doctype_start(s, i + 1) + until(s, doctype_start(s, i + 1), '>'),
                    ),
                ),
            ),
        ) + tokens_from(s, doctype_end(s, i + 1), Seq::empty())
    } else {
        let tag = tag_token(s.subrange(i + 1, i + 1 + tag_len(s, i + 1, None)));
        proof {
            lemma_tag_len(s, i + 1, None);
            lemma_tag_next(s, tag, tag_end(s, i + 1));
        }
        with_text(Seq::empty(), text) + tag_tokens(s, tag, tag_end(s, i + 1)) + tokens_from(
            s,
            tag_next(s, tag, tag_end(s, i + 1)),
            Seq::empty(),
        )
    }
}

pub proof fn lemma_php_token(s: Seq<char>, i: int)
    requires
        0 <= i <= s.len(),
    ensures
        php_token(s, i) is Some ==> i < php_token(s, i).unwrap().1 <= s.len(),
{
    if i + 1 < s.len() {
        lemma_php_body(s, i + 1);
        lemma_php_body(s, i + 2);
        if i + 4 <= s.len() {
            lemma_php_body(s, i + 4);
        }
    }
}

/// The tokens of a template.
pub open spec fn tokens_of(s: Seq<char>) -> Seq<Lexeme> {
    tokens_from(s, 0, Seq::empty())
}

fn flush_text(tokens: &mut Vec<Token>, text: &mut Vec<char>)
    ensures
        lexemes(final(tokens)@) == with_text(lexemes(old(tokens)@), old(text)@),
        final(text)@ == Seq::<char>::empty(),
{
    if text.len() > 0 {
        let ghost prev = lexemes(tokens@);
        let token = Token::Text(string_of(text));
        tokens.push(token);
        assert(lexemes(tokens@) =~= prev.push(token@));
        *text = Vec::new();
    }
}

/// Reads the tokens of a template.
pub fn tokenize(input: &str) -> (r: Vec<Token>)
    ensures
        lexemes(r@) == tokens_of(input@),
{
    let chars = chars_of(input);
    let len = chars.len();
    let mut tokens: Vec<Token> = Vec::new();
    let mut text_buf: Vec<char> = Vec::new();
    let mut i: usize = 0;
    assert(lexemes(tokens@) =~= Seq::<Lexeme>::empty());
    assert(lexemes(tokens@) + tokens_from(chars@, 0, text_buf@) =~= tokens_of(input@));
    while i < len
        invariant
            i <= len == chars@.len(),
            chars@ == input@,
            lexemes(tokens@) + tokens_from(chars@, i as int, text_buf@) == tokens_of(input@),
        decreases len - i,
    {
        let ghost prev = lexemes(tokens@);
        let ghost text = text_buf@;
        let ghost at = i as int;
        if chars[i] != '<' {
            text_buf.push(chars[i]);
            i += 1;
        } else {
            flush_text(&mut tokens, &mut text_buf);
            let ghost flushed = lexemes(tokens@);
            assert(flushed =~= prev + with_text(Seq::empty(), text));
            let mut taken = false;
            match try_consume_php(&chars, i + 1) {
                Some((token, next)) => {
                    tokens.push(token);
                    assert(lexemes(tokens@) =~= flushed.push(token@));
                    i = next;
                    taken = true;
                },
                None => {},
            }
            if !taken && len - i > 1 && chars[i + 1] == '!' {
                match try_consume_comment(&chars, i + 1) {
                    Some((token, next)) => {
                        tokens.push(token);
                        assert(lexemes(tokens@) =~= flushed.push(token@));
                        i = next;
                        taken = true;
                    },
                    None => {
                        match try_consume_doctype(&chars, i + 1) {
                            Some((token, next)) => {
                                tokens.push(token);
                                assert(lexemes(tokens@) =~= flushed.push(token@));
                                i = next;
                                taken = true;
                            },
                            None => {},
                        }
                    },
                }
            }
            if !taken {
                let (end, next) = consume_tag_body(&chars, i + 1);
                i = emit_tag_token(slice_subrange(&chars, i + 1, end), &chars, next, &mut tokens);
            }
        }
        assert(lexemes(tokens@) + tokens_from(chars@, i as int, text_buf@) =~= prev + tokens_from(
            chars@,
            at,
            text,
        ));
    }
    flush_text(&mut tokens, &mut text_buf);
    assert(lexemes(tokens@) =~= tokens_of(input@));
    tokens
}

} // verus!
