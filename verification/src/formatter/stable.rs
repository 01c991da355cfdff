//! Spacing a line twice: the second spacing changes nothing.

use crate::formatter::php::{
    is_keyword, lemma_space_run, lemma_word_len, space_run, tidy, tidy_from, with_arrow, with_comma,
    with_word, word_len,
};
use crate::formatter::scan::{
    is_quote, lemma_literal_end, lemma_literal_span, literal_end, literal_span,
};
use crate::text::{alphabetic, alphanumeric, last_is, strip_trailing};
use vstd::prelude::*;

verus! {

/// `out` without the spaces at its end: what no closing bracket can take
/// back.
pub open spec fn commits(out: Seq<char>) -> Seq<char> {
    strip_trailing(out, ' ')
}

/// `k` spaces.
pub open spec fn blanks(k: nat) -> Seq<char> {
    Seq::new(k, |j: int| ' ')
}

/// Whether a character can stand inside a word.
pub open spec fn word_char(c: char) -> bool {
    alphanumeric(c) || c == '_'
}

/// Whether a character is `)` or `]`.
pub open spec fn is_close(c: char) -> bool {
    c == ')' || c == ']'
}

/// Whether a character is `(` or `[`.
pub open spec fn is_open(c: char) -> bool {
    c == '(' || c == '['
}

proof fn lemma_commits(out: Seq<char>)
    ensures
        commits(out).len() <= out.len(),
        out == commits(out) + blanks((out.len() - commits(out).len()) as nat),
        !last_is(commits(out), ' '),
        commits(commits(out)) == commits(out),
    decreases out.len(),
{
    if out.len() > 0 && out.last() == ' ' {
        lemma_commits(out.drop_last());
        let c = commits(out.drop_last());
        let k = (out.drop_last().len() - c.len()) as nat;
        assert(out =~= out.drop_last().push(' '));
        assert(c + blanks(k + 1) =~= (c + blanks(k)).push(' '));
    } else {
        assert(out =~= out + blanks(0));
    }
}

proof fn lemma_commits_grow(out: Seq<char>, piece: Seq<char>)
    ensures
        commits(out).is_prefix_of(commits(out + piece)),
    decreases piece.len(),
{
    lemma_commits(out);
    if piece.len() == 0 {
        assert(out + piece =~= out);
    } else if piece.last() == ' ' {
        assert((out + piece).drop_last() =~= out + piece.drop_last());
        lemma_commits_grow(out, piece.drop_last());
    } else {
        assert((out + piece).last() == piece.last());
        assert(commits(out + piece) == out + piece);
        assert(commits(out) =~= (out + piece).subrange(0, commits(out).len() as int));
    }
}

proof fn lemma_prefix_trans(a: Seq<char>, b: Seq<char>, c: Seq<char>)
    requires
        a.is_prefix_of(b),
        b.is_prefix_of(c),
    ensures
        a.is_prefix_of(c),
{
    assert(a =~= c.subrange(0, a.len() as int)) by {
        assert forall|j: int| 0 <= j < a.len() implies a[j] == c.subrange(0, a.len() as int)[j] by {
            assert(a[j] == b.subrange(0, a.len() as int)[j]);
            assert(b[j] == c.subrange(0, b.len() as int)[j]);
        }
    }
}

/// What cannot be taken back of what is written stays at the start of the
/// spaced line.
proof fn lemma_prefix(s: Seq<char>, i: int, out: Seq<char>)
    requires
        0 <= i,
    ensures
        commits(out).is_prefix_of(tidy_from(s, i, out)),
    decreases s.len() - i,
{
    lemma_commits(out);
    if i >= s.len() {
        assert(commits(out) =~= out.subrange(0, commits(out).len() as int));
    } else {
        let r = tidy_from(s, i, out);
        if is_quote(s[i]) {
            lemma_literal_end(s, i);
            let next = out + s.subrange(i, literal_end(s, i));
            lemma_commits_grow(out, s.subrange(i, literal_end(s, i)));
            lemma_prefix(s, literal_end(s, i), next);
            lemma_prefix_trans(commits(out), commits(next), r);
        } else if s[i] == '=' && i + 1 < s.len() && s[i + 1] == '>' {
            lemma_space_run(s, i + 2);
            let next = with_arrow(out);
            let base = commits(out).push(' ').push('=').push('>');
            assert(next.drop_last() =~= base);
            assert(base.last() == '>');
            assert(commits(base) == base);
            assert(next.last() == ' ');
            assert(commits(next) == base);
            assert(commits(out) =~= base.subrange(0, commits(out).len() as int));
            lemma_prefix(s, i + 2 + space_run(s, i + 2), next);
            lemma_prefix_trans(commits(out), commits(next), r);
        } else if s[i] == ',' {
            lemma_space_run(s, i + 1);
            let next = with_comma(s, i, out);
            let j = i + 1 + space_run(s, i + 1);
            let z = if j < s.len() && s[j] != '\n' {
                seq![' ']
            } else {
                Seq::<char>::empty()
            };
            assert(next =~= out + (seq![','] + z));
            lemma_commits_grow(out, seq![','] + z);
            lemma_prefix(s, j, next);
            lemma_prefix_trans(commits(out), commits(next), r);
        } else if alphabetic(s[i]) {
            lemma_word_len(s, i);
            let e = i + word_len(s, i);
            let w = s.subrange(i, e);
            let next = with_word(s, i, out);
            let z = if is_keyword(w) && e < s.len() && s[e] == '(' {
                seq![' ']
            } else {
                Seq::<char>::empty()
            };
            assert(next =~= out + (w + z));
            lemma_commits_grow(out, w + z);
            lemma_prefix(s, e, next);
            lemma_prefix_trans(commits(out), commits(next), r);
        } else if s[i] == ')' || s[i] == ']' {
            let next = commits(out).push(s[i]);
            assert(commits(next) == next);
            assert(commits(out) =~= next.subrange(0, commits(out).len() as int));
            lemma_prefix(s, i + 1, next);
            lemma_prefix_trans(commits(out), commits(next), r);
        } else if s[i] == '(' || s[i] == '[' {
            lemma_space_run(s, i + 1);
            let next = out.push(s[i]);
            assert(next =~= out + seq![s[i]]);
            lemma_commits_grow(out, seq![s[i]]);
            lemma_prefix(s, i + 1 + space_run(s, i + 1), next);
            lemma_prefix_trans(commits(out), commits(next), r);
        } else {
            let next = out.push(s[i]);
            assert(next =~= out + seq![s[i]]);
            lemma_commits_grow(out, seq![s[i]]);
            lemma_prefix(s, i + 1, next);
            lemma_prefix_trans(commits(out), commits(next), r);
        }
    }
}

/// Spaces outside quoted literals are copied one by one.
proof fn lemma_spaces_kept(x: Seq<char>, j: int, k: nat, b: Seq<char>)
    requires
        !alphabetic(' '),
        0 <= j,
        j + k <= x.len(),
        forall|m: int| j <= m < j + k ==> x[m] == ' ',
    ensures
        tidy_from(x, j, b) == tidy_from(x, j + k, b + blanks(k)),
    decreases k,
{
    if k == 0 {
        assert(b + blanks(0) =~= b);
    } else {
        assert(x[j] == ' ');
        lemma_spaces_kept(x, j + 1, (k - 1) as nat, b.push(' '));
        assert(b.push(' ') + blanks((k - 1) as nat) =~= b + blanks(k));
    }
}

/// The length of a word whose characters are known.
proof fn lemma_word_exact(x: Seq<char>, p: int, e: int)
    requires
        0 <= p <= e <= x.len(),
        forall|j: int| p <= j < e ==> word_char(x[j]),
        e < x.len() ==> !word_char(x[e]),
    ensures
        word_len(x, p) == e - p,
    decreases e - p,
{
    if p < e {
        lemma_word_exact(x, p + 1, e);
    }
}

/// Whether the literal that goes on at index `j` is closed by a quote.
pub open spec fn literal_closed(s: Seq<char>, j: int, q: char) -> bool
    decreases s.len() - j,
{
    if j < 0 || j >= s.len() {
        false
    } else if s[j] == q {
        true
    } else if s[j] == '\\' && j + 1 < s.len() {
        literal_closed(s, j + 2, q)
    } else {
        literal_closed(s, j + 1, q)
    }
}

pub proof fn lemma_closed_before_end(s: Seq<char>, j: int, q: char)
    requires
        0 <= j <= s.len(),
        j + literal_span(s, j, q) < s.len(),
    ensures
        literal_closed(s, j, q),
    decreases s.len() - j,
{
    if j < s.len() && s[j] != q {
        if s[j] == '\\' && j + 1 < s.len() {
            lemma_literal_span(s, j + 2, q);
            lemma_closed_before_end(s, j + 2, q);
        } else {
            lemma_literal_span(s, j + 1, q);
            lemma_closed_before_end(s, j + 1, q);
        }
    }
}

/// A literal that is copied has the length that it had: where it is closed,
/// whatever follows it, and where it is open, at the end of the text.
pub proof fn lemma_span_copy(x: Seq<char>, jx: int, y: Seq<char>, jy: int, q: char)
    requires
        0 <= jx,
        0 <= jy <= y.len(),
        q != '\\',
        jx + literal_span(y, jy, q) <= x.len(),
        forall|m: int| jx <= m < jx + literal_span(y, jy, q) ==> x[m] == y[m - jx + jy],
        literal_closed(y, jy, q) || (jx + literal_span(y, jy, q) == x.len() && jy + literal_span(
            y,
            jy,
            q,
        ) == y.len()),
    ensures
        literal_span(x, jx, q) == literal_span(y, jy, q),
    decreases y.len() - jy,
{
    if jy < y.len() {
        assert(x[jx] == y[jx - jx + jy]);
        if y[jy] == q {
        } else if y[jy] == '\\' && jy + 1 < y.len() {
            lemma_literal_span(y, jy + 2, q);
            lemma_span_copy(x, jx + 2, y, jy + 2, q);
        } else {
            lemma_literal_span(y, jy + 1, q);
            lemma_span_copy(x, jx + 1, y, jy + 1, q);
        }
    }
}

/// Whether the space, the closing brackets and `=` are neither letters nor
/// digits.
pub open spec fn marks_are_plain() -> bool {
    !alphanumeric(' ') && !alphanumeric(')') && !alphanumeric(']') && !alphabetic('=')
}

proof fn lemma_marks_are_plain()
    ensures
        marks_are_plain(),
{
}

/// What the second spacing has before it when it has read what the first
/// one has written for good: nothing, or the last thing written, which it
/// can only take in when it sees what follows.
pub enum Kind {
    /// Nothing is left to take in.
    Aligned,
    /// A `=>`.
    Arrow,
    /// A comma.
    Comma,
    /// A word.
    Word,
    /// An opening bracket.
    Open,
    /// A `=` that begins no arrow.
    Equals,
}

/// Whether the second spacing, at index `p` with `b` written, stands before
/// the last thing of `c` as `kind` says.
pub open spec fn shape(c: Seq<char>, p: int, b: Seq<char>, kind: Kind) -> bool {
    0 <= p <= c.len() && match kind {
        Kind::Aligned => p == c.len() && b == c,
        Kind::Arrow => c.len() == p + 2 && c[p] == '=' && c[p + 1] == '>' && commits(b).push(' ')
            == c.subrange(0, p),
        Kind::Comma => c.len() == p + 1 && c[p] == ',' && b == c.subrange(0, p),
        Kind::Word => p < c.len() && !is_quote(c[p]) && c[p] != ',' && alphabetic(c[p]) && (forall|
            j: int,
        |
            p <= j < c.len() ==> word_char(c[j])) && b == c.subrange(0, p),
        Kind::Open => c.len() == p + 1 && is_open(c[p]) && !alphabetic(c[p]) && b == c.subrange(
            0,
            p,
        ),
        Kind::Equals => c.len() == p + 1 && c[p] == '=' && b == c.subrange(0, p),
    }
}

/// Whether the character `a` may follow the last thing of `c`, where that is
/// a word or a `=`.
pub open spec fn allowed(c: Seq<char>, p: int, kind: Kind, a: char) -> bool {
    match kind {
        Kind::Word => !word_char(a) && !(is_keyword(c.subrange(p, c.len() as int)) && a == '('),
        Kind::Equals => a != '>',
        _ => true,
    }
}

/// What the second spacing has written when it has taken in the last thing
/// of `c` and the `m` spaces behind it.
pub open spec fn landing(x: Seq<char>, c: Seq<char>, kind: Kind, m: nat) -> Seq<char> {
    match kind {
        Kind::Arrow => c.push(' '),
        Kind::Comma => if x.len() > c.len() + m && x[(c.len() + m) as int] != '\n' {
            c.push(' ')
        } else {
            c
        },
        Kind::Open => c,
        _ => c + blanks(m),
    }
}

proof fn lemma_run_exact(x: Seq<char>, j: int, m: nat)
    requires
        0 <= j,
        j + m <= x.len(),
        forall|d: int| j <= d < j + m ==> x[d] == ' ',
        x.len() > j + m ==> x[j + m] != ' ',
    ensures
        space_run(x, j) == m,
    decreases m,
{
    if m > 0 {
        lemma_run_exact(x, j + 1, (m - 1) as nat);
    }
}

proof fn lemma_reach(x: Seq<char>, c: Seq<char>, p: int, b: Seq<char>, kind: Kind, m: nat)
    requires
        marks_are_plain(),
        shape(c, p, b, kind),
        (c + blanks(m)).is_prefix_of(x),
        x.len() > c.len() + m ==> x[(c.len() + m) as int] != ' ',
        x.len() > c.len() ==> allowed(c, p, kind, x[c.len() as int]),
    ensures
        tidy_from(x, p, b) == tidy_from(x, (c.len() + m) as int, landing(x, c, kind, m)),
{
    let cm = c + blanks(m);
    lemma_prefix_chars(cm, x);
    assert forall|j: int| 0 <= j < c.len() implies x[j] == c[j] by {
        assert(cm[j] == c[j]);
    }
    assert forall|d: int| c.len() <= d < c.len() + m implies x[d] == ' ' by {
        assert(cm[d] == blanks(m)[d - c.len()]);
    }
    lemma_run_exact(x, c.len() as int, m);
    match kind {
        Kind::Aligned => {
            lemma_spaces_kept(x, c.len() as int, m, c);
        },
        Kind::Arrow => {
            assert(x[p] == '=' && x[p + 1] == '>');
            assert(with_arrow(b) =~= c.push(' '));
        },
        Kind::Comma => {
            assert(x[p] == ',');
            assert(b.push(',') =~= c);
        },
        Kind::Word => {
            assert(x[p] == c[p]);
            lemma_word_exact(x, p, c.len() as int);
            assert(x.subrange(p, c.len() as int) =~= c.subrange(p, c.len() as int));
            assert(b + x.subrange(p, c.len() as int) =~= c);
            lemma_spaces_kept(x, c.len() as int, m, c);
        },
        Kind::Open => {
            assert(x[p] == c[p]);
            assert(b.push(x[p]) =~= c);
        },
        Kind::Equals => {
            assert(x[p] == '=');
            assert(b.push('=') =~= c);
            lemma_spaces_kept(x, c.len() as int, m, c);
        },
    }
}

/// Whether the second spacing is in step with the first: the first has read
/// `s` up to index `i` and written `out`; the second has read what cannot be
/// taken back of `out` up to index `p` and written `b`.
pub open spec fn synced(s: Seq<char>, i: int, out: Seq<char>, p: int, b: Seq<char>, kind: Kind) -> bool {
    let c = commits(out);
    0 <= i <= s.len() && shape(c, p, b, kind) && match kind {
        Kind::Arrow => out == c.push(' ') && (i < s.len() ==> s[i] != ' '),
        Kind::Comma => (out == c.push(' ') && i < s.len() && s[i] != ' ' && s[i] != '\n') || (out
            == c && (i < s.len() ==> s[i] == '\n')),
        Kind::Open => out == c && (i < s.len() ==> s[i] != ' '),
        _ => out == c && i < s.len() ==> allowed(c, p, kind, s[i]),
    }
}

/// The second spacing catches up with all that the first has written, where
/// a character that is no space and no closing bracket comes next.
proof fn lemma_catch_up(
    s: Seq<char>,
    i: int,
    r: Seq<char>,
    out: Seq<char>,
    p: int,
    b: Seq<char>,
    kind: Kind,
)
    requires
        marks_are_plain(),
        synced(s, i, out, p, b, kind),
        i < s.len(),
        s[i] != ' ',
        !is_close(s[i]),
        out.is_prefix_of(r),
        r.len() > out.len(),
        r[out.len() as int] == s[i],
    ensures
        tidy_from(r, p, b) == tidy_from(r, out.len() as int, out),
{
    let c = commits(out);
    lemma_commits(out);
    let k = (out.len() - c.len()) as nat;
    lemma_prefix_chars(out, r);
    if k > 0 {
        assert(out[c.len() as int] == blanks(k)[0]);
        assert(r[c.len() as int] == ' ');
    } else {
        assert(out =~= c);
    }
    if kind is Arrow || (kind is Comma && out != c) {
        assert(c.push(' ').len() == c.len() + 1);
        assert(k == 1);
    }
    assert(c.push(' ') =~= c + blanks(1));
    lemma_reach(r, c, p, b, kind, k);
    assert(landing(r, c, kind, k) =~= out);
}

proof fn lemma_word_chars(s: Seq<char>, i: int)
    requires
        0 <= i <= s.len(),
    ensures
        forall|j: int| i <= j < i + word_len(s, i) ==> word_char(s[j]),
        i + word_len(s, i) < s.len() ==> !word_char(s[i + word_len(s, i)]),
        i + word_len(s, i) <= s.len(),
    decreases s.len() - i,
{
    if i < s.len() && (alphanumeric(s[i]) || s[i] == '_') {
        lemma_word_chars(s, i + 1);
    }
}

proof fn lemma_space_end(s: Seq<char>, i: int)
    requires
        0 <= i <= s.len(),
    ensures
        i + space_run(s, i) <= s.len(),
        i + space_run(s, i) < s.len() ==> s[i + space_run(s, i)] != ' ',
    decreases s.len() - i,
{
    if i < s.len() && s[i] == ' ' {
        lemma_space_end(s, i + 1);
    }
}

proof fn lemma_closed_ends_with_quote(s: Seq<char>, j: int, q: char)
    requires
        0 <= j <= s.len(),
        literal_closed(s, j, q),
    ensures
        literal_span(s, j, q) >= 1,
        j + literal_span(s, j, q) <= s.len(),
        s[j + literal_span(s, j, q) - 1] == q,
    decreases s.len() - j,
{
    if j < s.len() && s[j] != q {
        if s[j] == '\\' && j + 1 < s.len() {
            lemma_closed_ends_with_quote(s, j + 2, q);
        } else {
            lemma_closed_ends_with_quote(s, j + 1, q);
        }
    }
}

proof fn lemma_prefix_chars(a: Seq<char>, r: Seq<char>)
    requires
        a.is_prefix_of(r),
    ensures
        a.len() <= r.len(),
        forall|j: int| 0 <= j < a.len() ==> r[j] == a[j],
{
    assert(a =~= r.subrange(0, a.len() as int));
    assert forall|j: int| 0 <= j < a.len() implies r[j] == a[j] by {
        assert(r.subrange(0, a.len() as int)[j] == r[j]);
    }
}

proof fn lemma_prefix_of_prefix(a: Seq<char>, b: Seq<char>, r: Seq<char>)
    requires
        b.is_prefix_of(r),
        a.len() <= b.len(),
        a == b.subrange(0, a.len() as int),
    ensures
        a.is_prefix_of(r),
{
    lemma_prefix_chars(b, r);
    assert(a =~= r.subrange(0, a.len() as int));
}

proof fn lemma_sync_end(s: Seq<char>, i: int, out: Seq<char>, p: int, b: Seq<char>, kind: Kind)
    requires
        marks_are_plain(),
        synced(s, i, out, p, b, kind),
        i >= s.len(),
    ensures
        tidy_from(out, p, b) == out,
{
    let c = commits(out);
    lemma_commits(out);
    let k = (out.len() - c.len()) as nat;
    assert(out =~= out.subrange(0, out.len() as int));
    if k > 0 {
        assert(out[c.len() as int] == blanks(k)[0]);
    } else {
        assert(out =~= c);
    }
    if kind is Arrow {
        assert(c.push(' ').len() == c.len() + 1);
    }
    assert(c.push(' ') =~= c + blanks(1));
    lemma_reach(out, c, p, b, kind, k);
    assert(landing(out, c, kind, k) =~= out);
}

proof fn lemma_sync_literal(s: Seq<char>, i: int, out: Seq<char>, p: int, b: Seq<char>, kind: Kind)
    requires
        marks_are_plain(),
        synced(s, i, out, p, b, kind),
        i < s.len(),
        is_quote(s[i]),
    ensures
        tidy_from(tidy_from(s, i, out), p, b) == tidy_from(s, i, out),
    decreases s.len() - i, 0int,
{
    let q = s[i];
    let e = literal_end(s, i);
    lemma_literal_end(s, i);
    let lit = s.subrange(i, e);
    let next = out + lit;
    let r = tidy_from(s, e, next);
    assert(tidy_from(s, i, out) == r);
    if e < s.len() {
        lemma_closed_before_end(s, i + 1, q);
        lemma_closed_ends_with_quote(s, i + 1, q);
        assert(next.last() == q);
        assert(commits(next) == next);
        lemma_prefix(s, e, next);
    } else {
        assert(r == next);
        assert(next =~= r.subrange(0, next.len() as int));
    }
    lemma_prefix_chars(next, r);
    assert(out =~= next.subrange(0, out.len() as int));
    lemma_prefix_of_prefix(out, next, r);
    assert(r[out.len() as int] == q);
    lemma_catch_up(s, i, r, out, p, b, kind);
    assert forall|m: int|
        out.len() + 1 <= m < out.len() + 1 + literal_span(s, i + 1, q) implies r[m] == s[m - (
        out.len() + 1) + (i + 1)] by {
        assert(r[m] == next[m]);
        assert(next[m] == lit[m - out.len()]);
    }
    lemma_span_copy(r, (out.len() + 1) as int, s, i + 1, q);
    assert(literal_end(r, out.len() as int) == next.len());
    assert(r.subrange(out.len() as int, next.len() as int) =~= lit);
    assert(tidy_from(r, out.len() as int, out) == tidy_from(r, next.len() as int, next));
    if e < s.len() {
        lemma_sync(s, e, next, next.len() as int, next, Kind::Aligned);
    } else {
        assert(next.len() == r.len());
    }
}

proof fn lemma_sync_arrow(s: Seq<char>, i: int, out: Seq<char>, p: int, b: Seq<char>, kind: Kind)
    requires
        marks_are_plain(),
        synced(s, i, out, p, b, kind),
        i + 1 < s.len(),
        s[i] == '=',
        s[i + 1] == '>',
    ensures
        tidy_from(tidy_from(s, i, out), p, b) == tidy_from(s, i, out),
    decreases s.len() - i, 0int,
{
    let c = commits(out);
    lemma_commits(out);
    lemma_space_end(s, i + 2);
    let e = i + 2 + space_run(s, i + 2);
    let base = c.push(' ').push('=').push('>');
    let next = with_arrow(out);
    let r = tidy_from(s, e, next);
    assert(tidy_from(s, i, out) == r);
    assert(next.drop_last() =~= base);
    assert(commits(base) == base);
    assert(commits(next) == base);
    lemma_prefix(s, e, next);
    lemma_prefix_chars(base, r);
    assert(c + blanks(1) =~= base.subrange(0, (c.len() + 1) as int));
    lemma_prefix_of_prefix(c + blanks(1), base, r);
    assert(r[(c.len() + 1) as int] == '=');
    assert(r[c.len() as int] == ' ');
    lemma_reach(r, c, p, b, kind, 1);
    let l = landing(r, c, kind, 1);
    assert(c.push(' ').drop_last() =~= c);
    assert((c + blanks(1)).drop_last() =~= c);
    assert((c + blanks(1)).last() == ' ');
    assert(commits(l) == c);
    let pp = (c.len() + 1) as int;
    assert(base.subrange(0, pp) =~= c.push(' '));
    assert(shape(base, pp, l, Kind::Arrow));
    assert(next =~= base.push(' '));
    lemma_sync(s, e, next, pp, l, Kind::Arrow);
}

proof fn lemma_sync_comma(s: Seq<char>, i: int, out: Seq<char>, p: int, b: Seq<char>, kind: Kind)
    requires
        marks_are_plain(),
        synced(s, i, out, p, b, kind),
        i < s.len(),
        s[i] == ',',
    ensures
        tidy_from(tidy_from(s, i, out), p, b) == tidy_from(s, i, out),
    decreases s.len() - i, 0int,
{
    lemma_space_end(s, i + 1);
    let e = i + 1 + space_run(s, i + 1);
    let base = out.push(',');
    let next = with_comma(s, i, out);
    let r = tidy_from(s, e, next);
    assert(tidy_from(s, i, out) == r);
    assert(commits(base) == base);
    if e < s.len() && s[e] != '\n' {
        assert(next == base.push(' '));
        assert(next.drop_last() =~= base);
        assert(commits(next) == base);
    } else {
        assert(next == base);
    }
    lemma_prefix(s, e, next);
    lemma_prefix_chars(base, r);
    assert(out =~= base.subrange(0, out.len() as int));
    lemma_prefix_of_prefix(out, base, r);
    assert(r[out.len() as int] == ',');
    lemma_catch_up(s, i, r, out, p, b, kind);
    assert(shape(base, out.len() as int, out, Kind::Comma));
    lemma_sync(s, e, next, out.len() as int, out, Kind::Comma);
}

proof fn lemma_sync_word(s: Seq<char>, i: int, out: Seq<char>, p: int, b: Seq<char>, kind: Kind)
    requires
        marks_are_plain(),
        synced(s, i, out, p, b, kind),
        i < s.len(),
        !is_quote(s[i]),
        s[i] != '=',
        s[i] != ',',
        alphabetic(s[i]),
    ensures
        tidy_from(tidy_from(s, i, out), p, b) == tidy_from(s, i, out),
    decreases s.len() - i, 0int,
{
    lemma_word_chars(s, i);
    let e = i + word_len(s, i);
    assert(e > i);
    let w = s.subrange(i, e);
    let base = out + w;
    let next = with_word(s, i, out);
    let r = tidy_from(s, e, next);
    assert(tidy_from(s, i, out) == r);
    assert(base.last() == s[e - 1]);
    assert(word_char(s[e - 1]));
    assert(commits(base) == base);
    if is_keyword(w) && e < s.len() && s[e] == '(' {
        assert(next == base.push(' '));
        assert(next.drop_last() =~= base);
        assert(commits(next) == base);
    } else {
        assert(next == base);
    }
    lemma_prefix(s, e, next);
    lemma_prefix_chars(base, r);
    assert(out =~= base.subrange(0, out.len() as int));
    lemma_prefix_of_prefix(out, base, r);
    assert(r[out.len() as int] == s[i]);
    lemma_catch_up(s, i, r, out, p, b, kind);
    let pp = out.len() as int;
    assert(base.subrange(pp, base.len() as int) =~= w);
    assert forall|j: int| pp <= j < base.len() implies word_char(base[j]) by {
        assert(base[j] == s[i + (j - pp)]);
    }
    assert(shape(base, pp, out, Kind::Word));
    lemma_sync(s, e, next, pp, out, Kind::Word);
}

proof fn lemma_sync_close(s: Seq<char>, i: int, out: Seq<char>, p: int, b: Seq<char>, kind: Kind)
    requires
        marks_are_plain(),
        synced(s, i, out, p, b, kind),
        i < s.len(),
        is_close(s[i]),
    ensures
        tidy_from(tidy_from(s, i, out), p, b) == tidy_from(s, i, out),
    decreases s.len() - i, 0int,
{
    let c = commits(out);
    lemma_commits(out);
    let ch = s[i];
    let next = c.push(ch);
    let r = tidy_from(s, i + 1, next);
    assert(tidy_from(s, i, out) == r);
    assert(commits(next) == next);
    lemma_prefix(s, i + 1, next);
    lemma_prefix_chars(next, r);
    assert(c + blanks(0) =~= next.subrange(0, c.len() as int));
    lemma_prefix_of_prefix(c + blanks(0), next, r);
    assert(r[c.len() as int] == ch);
    lemma_reach(r, c, p, b, kind, 0);
    let t = landing(r, c, kind, 0);
    assert(c + blanks(0) =~= c);
    if t != c {
        assert(t == c.push(' '));
        assert(t.drop_last() =~= c);
    }
    assert(strip_trailing(t, ' ') == c);
    assert(tidy_from(r, c.len() as int, t) == tidy_from(r, (c.len() + 1) as int, next));
    lemma_sync(s, i + 1, next, next.len() as int, next, Kind::Aligned);
}

proof fn lemma_sync_open(s: Seq<char>, i: int, out: Seq<char>, p: int, b: Seq<char>, kind: Kind)
    requires
        marks_are_plain(),
        synced(s, i, out, p, b, kind),
        i < s.len(),
        is_open(s[i]),
        !alphabetic(s[i]),
    ensures
        tidy_from(tidy_from(s, i, out), p, b) == tidy_from(s, i, out),
    decreases s.len() - i, 0int,
{
    lemma_space_end(s, i + 1);
    let ch = s[i];
    let e = i + 1 + space_run(s, i + 1);
    let next = out.push(ch);
    let r = tidy_from(s, e, next);
    assert(tidy_from(s, i, out) == r);
    assert(commits(next) == next);
    lemma_prefix(s, e, next);
    lemma_prefix_chars(next, r);
    assert(out =~= next.subrange(0, out.len() as int));
    lemma_prefix_of_prefix(out, next, r);
    assert(r[out.len() as int] == ch);
    lemma_catch_up(s, i, r, out, p, b, kind);
    assert(shape(next, out.len() as int, out, Kind::Open));
    lemma_sync(s, e, next, out.len() as int, out, Kind::Open);
}

proof fn lemma_sync_other(s: Seq<char>, i: int, out: Seq<char>, p: int, b: Seq<char>, kind: Kind)
    requires
        marks_are_plain(),
        synced(s, i, out, p, b, kind),
        i < s.len(),
        !is_quote(s[i]),
        !(s[i] == '=' && i + 1 < s.len() && s[i + 1] == '>'),
        s[i] != ',',
        !alphabetic(s[i]),
        !is_close(s[i]),
        !is_open(s[i]),
    ensures
        tidy_from(tidy_from(s, i, out), p, b) == tidy_from(s, i, out),
    decreases s.len() - i, 0int,
{
    let ch = s[i];
    let next = out.push(ch);
    let r = tidy_from(s, i + 1, next);
    assert(tidy_from(s, i, out) == r);
    if ch == ' ' {
        assert(next.drop_last() =~= out);
        assert(commits(next) == commits(out));
        lemma_commits(out);
        assert(next.len() > commits(next).len());
        lemma_sync(s, i + 1, next, p, b, kind);
    } else {
        assert(commits(next) == next);
        lemma_prefix(s, i + 1, next);
        lemma_prefix_chars(next, r);
        assert(out =~= next.subrange(0, out.len() as int));
        lemma_prefix_of_prefix(out, next, r);
        assert(r[out.len() as int] == ch);
        lemma_catch_up(s, i, r, out, p, b, kind);
        if ch == '=' {
            assert(shape(next, out.len() as int, out, Kind::Equals));
            lemma_sync(s, i + 1, next, out.len() as int, out, Kind::Equals);
        } else {
            assert(tidy_from(r, out.len() as int, out) == tidy_from(r, (out.len() + 1) as int, next));
            lemma_sync(s, i + 1, next, next.len() as int, next, Kind::Aligned);
        }
    }
}

proof fn lemma_sync(s: Seq<char>, i: int, out: Seq<char>, p: int, b: Seq<char>, kind: Kind)
    requires
        marks_are_plain(),
        synced(s, i, out, p, b, kind),
    ensures
        tidy_from(tidy_from(s, i, out), p, b) == tidy_from(s, i, out),
    decreases s.len() - i, 1int,
{
    if i >= s.len() {
        lemma_sync_end(s, i, out, p, b, kind);
    } else if is_quote(s[i]) {
        lemma_sync_literal(s, i, out, p, b, kind);
    } else if s[i] == '=' && i + 1 < s.len() && s[i + 1] == '>' {
        lemma_sync_arrow(s, i, out, p, b, kind);
    } else if s[i] == ',' {
        lemma_sync_comma(s, i, out, p, b, kind);
    } else if alphabetic(s[i]) {
        lemma_sync_word(s, i, out, p, b, kind);
    } else if s[i] == ')' || s[i] == ']' {
        lemma_sync_close(s, i, out, p, b, kind);
    } else if s[i] == '(' || s[i] == '[' {
        lemma_sync_open(s, i, out, p, b, kind);
    } else {
        lemma_sync_other(s, i, out, p, b, kind);
    }
}

/// Spacing is stable: to space a line that has been spaced changes nothing.
pub proof fn law_spacing_is_stable(s: Seq<char>)
    ensures
        tidy(tidy(s)) == tidy(s),
{
    lemma_marks_are_plain();
    let none = Seq::<char>::empty();
    assert(commits(none) == none);
    assert(shape(none, 0, none, Kind::Aligned));
    lemma_sync(s, 0, none, 0, none, Kind::Aligned);
}

/// The characters of `s` that are no spaces.
pub open spec fn solid(s: Seq<char>) -> Seq<char>
    decreases s.len(),
{
    if s.len() == 0 {
        Seq::empty()
    } else if s.last() == ' ' {
        solid(s.drop_last())
    } else {
        solid(s.drop_last()).push(s.last())
    }
}

proof fn lemma_solid_add(a: Seq<char>, b: Seq<char>)
    ensures
        solid(a + b) == solid(a) + solid(b),
    decreases b.len(),
{
    if b.len() == 0 {
        assert(a + b =~= a);
        assert(solid(a) + solid(b) =~= solid(a));
    } else {
        assert((a + b).drop_last() =~= a + b.drop_last());
        assert((a + b).last() == b.last());
        lemma_solid_add(a, b.drop_last());
        if b.last() != ' ' {
            assert(solid(a + b) =~= solid(a) + solid(b));
        }
    }
}

proof fn lemma_solid_push(a: Seq<char>, c: char)
    ensures
        solid(a.push(c)) == if c == ' ' {
            solid(a)
        } else {
            solid(a).push(c)
        },
{
    assert(a.push(c).drop_last() =~= a);
}

proof fn lemma_solid_commits(out: Seq<char>)
    ensures
        solid(commits(out)) == solid(out),
    decreases out.len(),
{
    if out.len() > 0 && out.last() == ' ' {
        lemma_solid_commits(out.drop_last());
    }
}

proof fn lemma_solid_skip(s: Seq<char>, i: int)
    requires
        0 <= i <= s.len(),
    ensures
        solid(s.subrange(i, s.len() as int)) == solid(
            s.subrange(i + space_run(s, i), s.len() as int),
        ),
    decreases s.len() - i,
{
    if i < s.len() && s[i] == ' ' {
        lemma_solid_skip(s, i + 1);
        lemma_space_end(s, i + 1);
        assert(s.subrange(i, s.len() as int) =~= seq![' '] + s.subrange(i + 1, s.len() as int));
        lemma_solid_add(seq![' '], s.subrange(i + 1, s.len() as int));
        assert(seq![' '] =~= Seq::<char>::empty().push(' '));
        lemma_solid_push(Seq::<char>::empty(), ' ');
        assert(solid(seq![' ']) =~= Seq::<char>::empty());
        assert(Seq::<char>::empty() + solid(s.subrange(i + 1, s.len() as int)) =~= solid(
            s.subrange(i + 1, s.len() as int),
        ));
    }
}

proof fn lemma_solid_kept(s: Seq<char>, i: int, out: Seq<char>)
    requires
        0 <= i <= s.len(),
    ensures
        solid(tidy_from(s, i, out)) == solid(out) + solid(s.subrange(i, s.len() as int)),
    decreases s.len() - i,
{
    let rest = s.subrange(i, s.len() as int);
    if i >= s.len() {
        assert(rest =~= Seq::<char>::empty());
        assert(solid(out) + solid(rest) =~= solid(out));
    } else if is_quote(s[i]) {
        lemma_literal_end(s, i);
        let e = literal_end(s, i);
        lemma_solid_kept(s, e, out + s.subrange(i, e));
        lemma_solid_add(out, s.subrange(i, e));
        assert(rest =~= s.subrange(i, e) + s.subrange(e, s.len() as int));
        lemma_solid_add(s.subrange(i, e), s.subrange(e, s.len() as int));
        assert(solid(out) + solid(s.subrange(i, e)) + solid(s.subrange(e, s.len() as int))
            =~= solid(out) + (solid(s.subrange(i, e)) + solid(s.subrange(e, s.len() as int))));
    } else if s[i] == '=' && i + 1 < s.len() && s[i + 1] == '>' {
        lemma_space_end(s, i + 2);
        let e = i + 2 + space_run(s, i + 2);
        let next = with_arrow(out);
        lemma_solid_kept(s, e, next);
        let c = commits(out);
        lemma_solid_commits(out);
        lemma_solid_push(c, ' ');
        lemma_solid_push(c.push(' '), '=');
        lemma_solid_push(c.push(' ').push('='), '>');
        lemma_solid_push(c.push(' ').push('=').push('>'), ' ');
        assert(solid(next) == solid(out).push('=').push('>'));
        lemma_solid_one(s, i);
        lemma_solid_one(s, i + 1);
        lemma_solid_skip(s, i + 2);
        assert(solid(out).push('=').push('>') + solid(s.subrange(e, s.len() as int)) =~= solid(
            out,
        ) + (seq!['='] + (seq!['>'] + solid(s.subrange(i + 2, s.len() as int)))));
    } else if s[i] == ',' {
        lemma_space_end(s, i + 1);
        let e = i + 1 + space_run(s, i + 1);
        let next = with_comma(s, i, out);
        lemma_solid_kept(s, e, next);
        lemma_solid_push(out, ',');
        lemma_solid_push(out.push(','), ' ');
        assert(solid(next) == solid(out).push(','));
        lemma_solid_one(s, i);
        lemma_solid_skip(s, i + 1);
        assert(solid(out).push(',') + solid(s.subrange(e, s.len() as int)) =~= solid(out) + (
        seq![','] + solid(s.subrange(i + 1, s.len() as int))));
    } else if alphabetic(s[i]) {
        lemma_word_len(s, i);
        let e = i + word_len(s, i);
        let w = s.subrange(i, e);
        let next = with_word(s, i, out);
        lemma_solid_kept(s, e, next);
        lemma_solid_add(out, w);
        lemma_solid_push(out + w, ' ');
        assert(solid(next) == solid(out) + solid(w));
        assert(rest =~= w + s.subrange(e, s.len() as int));
        lemma_solid_add(w, s.subrange(e, s.len() as int));
        assert(solid(out) + solid(w) + solid(s.subrange(e, s.len() as int)) =~= solid(out) + (
        solid(w) + solid(s.subrange(e, s.len() as int))));
    } else if s[i] == ')' || s[i] == ']' {
        let next = strip_trailing(out, ' ').push(s[i]);
        lemma_solid_kept(s, i + 1, next);
        lemma_solid_commits(out);
        lemma_solid_push(strip_trailing(out, ' '), s[i]);
        lemma_solid_one(s, i);
        assert(solid(out).push(s[i]) + solid(s.subrange(i + 1, s.len() as int)) =~= solid(out) + (
        seq![s[i]] + solid(s.subrange(i + 1, s.len() as int))));
    } else if s[i] == '(' || s[i] == '[' {
        lemma_space_end(s, i + 1);
        let e = i + 1 + space_run(s, i + 1);
        let next = out.push(s[i]);
        lemma_solid_kept(s, e, next);
        lemma_solid_push(out, s[i]);
        lemma_solid_one(s, i);
        lemma_solid_skip(s, i + 1);
        assert(solid(out).push(s[i]) + solid(s.subrange(e, s.len() as int)) =~= solid(out) + (
        seq![s[i]] + solid(s.subrange(i + 1, s.len() as int))));
    } else {
        let next = out.push(s[i]);
        lemma_solid_kept(s, i + 1, next);
        lemma_solid_push(out, s[i]);
        lemma_solid_one(s, i);
        if s[i] == ' ' {
            assert(solid(out) + solid(s.subrange(i + 1, s.len() as int)) =~= solid(out) + (
            Seq::<char>::empty() + solid(s.subrange(i + 1, s.len() as int))));
        } else {
            assert(solid(out).push(s[i]) + solid(s.subrange(i + 1, s.len() as int)) =~= solid(out)
                + (seq![s[i]] + solid(s.subrange(i + 1, s.len() as int))));
        }
    }
}

proof fn lemma_solid_one(s: Seq<char>, i: int)
    requires
        0 <= i < s.len(),
    ensures
        solid(s.subrange(i, s.len() as int)) == (if s[i] == ' ' {
            Seq::<char>::empty()
        } else {
            seq![s[i]]
        }) + solid(s.subrange(i + 1, s.len() as int)),
{
    let rest = s.subrange(i, s.len() as int);
    assert(rest =~= seq![s[i]] + s.subrange(i + 1, s.len() as int));
    lemma_solid_add(seq![s[i]], s.subrange(i + 1, s.len() as int));
    assert(seq![s[i]] =~= Seq::<char>::empty().push(s[i]));
    lemma_solid_push(Seq::<char>::empty(), s[i]);
    assert(Seq::<char>::empty().push(s[i]) =~= seq![s[i]]);
}

/// Spacing loses nothing: the characters of a spaced line that are no spaces
/// are those of the line, in their order.
pub proof fn law_spacing_keeps_what_is_written(s: Seq<char>)
    ensures
        solid(tidy(s)) == solid(s),
{
    lemma_solid_kept(s, 0, Seq::empty());
    assert(s.subrange(0, s.len() as int) =~= s);
    assert(solid(Seq::<char>::empty()) + solid(s) =~= solid(s));
}

/// The quoted literals of `s` from index `i` on, in their order, and
/// whether the text ends outside them.
pub open spec fn scan_from(s: Seq<char>, i: int) -> (Seq<Seq<char>>, bool)
    decreases s.len() - i,
{
    if i < 0 || i >= s.len() {
        (Seq::empty(), true)
    } else if is_quote(s[i]) {
        proof {
            lemma_literal_end(s, i);
        }
        let rest = scan_from(s, literal_end(s, i));
        (
            seq![s.subrange(i, literal_end(s, i))] + rest.0,
            literal_closed(s, i + 1, s[i]) && rest.1,
        )
    } else {
        scan_from(s, i + 1)
    }
}

/// The quoted literals of `s`, in their order: each begins with a quote that
/// stands outside the literals before it, and ends with the next such quote
/// that no backslash takes along, or with the text.
pub open spec fn literals(s: Seq<char>) -> Seq<Seq<char>> {
    scan_from(s, 0).0
}

/// Whether the quotes are neither letters nor digits.
pub open spec fn quotes_are_plain() -> bool {
    !alphanumeric('\'') && !alphanumeric('"')
}

proof fn lemma_quotes_are_plain()
    ensures
        quotes_are_plain(),
{
}

proof fn lemma_open_reaches_end(s: Seq<char>, j: int, q: char)
    requires
        0 <= j <= s.len(),
        !literal_closed(s, j, q),
    ensures
        j + literal_span(s, j, q) == s.len(),
    decreases s.len() - j,
{
    if j < s.len() {
        if s[j] == '\\' && j + 1 < s.len() {
            lemma_open_reaches_end(s, j + 2, q);
        } else {
            lemma_open_reaches_end(s, j + 1, q);
        }
    }
}

proof fn lemma_closed_copy(x: Seq<char>, jx: int, y: Seq<char>, jy: int, q: char)
    requires
        0 <= jx,
        0 <= jy <= y.len(),
        q != '\\',
        jx + literal_span(y, jy, q) <= x.len(),
        forall|m: int| jx <= m < jx + literal_span(y, jy, q) ==> x[m] == y[m - jx + jy],
        literal_closed(y, jy, q) || (jx + literal_span(y, jy, q) == x.len() && jy + literal_span(
            y,
            jy,
            q,
        ) == y.len()),
    ensures
        literal_closed(x, jx, q) == literal_closed(y, jy, q),
    decreases y.len() - jy,
{
    if jy < y.len() {
        assert(x[jx] == y[jx - jx + jy]);
        if y[jy] == q {
        } else if y[jy] == '\\' && jy + 1 < y.len() {
            lemma_literal_span(y, jy + 2, q);
            lemma_closed_copy(x, jx + 2, y, jy + 2, q);
        } else {
            lemma_literal_span(y, jy + 1, q);
            lemma_closed_copy(x, jx + 1, y, jy + 1, q);
        }
    }
}

/// A literal that stands in two texts at the same characters, closed or at
/// the end of both, ends alike in both.
proof fn lemma_literal_copy(x: Seq<char>, px: int, y: Seq<char>, py: int)
    requires
        0 <= px < x.len(),
        0 <= py < y.len(),
        is_quote(y[py]),
        x[px] == y[py],
        px + (literal_end(y, py) - py) <= x.len(),
        forall|m: int| px <= m < px + (literal_end(y, py) - py) ==> x[m] == y[m - px + py],
        literal_closed(y, py + 1, y[py]) || (px + (literal_end(y, py) - py) == x.len()
            && literal_end(y, py) == y.len()),
    ensures
        literal_end(x, px) - px == literal_end(y, py) - py,
        literal_closed(x, px + 1, x[px]) == literal_closed(y, py + 1, y[py]),
        x.subrange(px, literal_end(x, px)) == y.subrange(py, literal_end(y, py)),
{
    let q = y[py];
    lemma_literal_end(y, py);
    assert forall|m: int| px + 1 <= m < px + 1 + literal_span(y, py + 1, q) implies x[m] == y[m - (
    px + 1) + (py + 1)] by {
        assert(x[m] == y[m - px + py]);
    }
    lemma_span_copy(x, px + 1, y, py + 1, q);
    lemma_closed_copy(x, px + 1, y, py + 1, q);
    assert(x.subrange(px, literal_end(x, px)) =~= y.subrange(py, literal_end(y, py)));
}

proof fn lemma_scan_shift(pre: Seq<char>, z: Seq<char>, j: int)
    requires
        0 <= j <= z.len(),
    ensures
        scan_from(pre + z, pre.len() + j) == scan_from(z, j),
    decreases z.len() - j,
{
    let x = pre + z;
    if j < z.len() {
        assert(x[pre.len() + j] == z[j]);
        if is_quote(z[j]) {
            lemma_literal_end(z, j);
            if !literal_closed(z, j + 1, z[j]) {
                lemma_open_reaches_end(z, j + 1, z[j]);
            }
            assert forall|m: int|
                pre.len() + j <= m < pre.len() + j + (literal_end(z, j) - j) implies x[m] == z[m
                - (pre.len() + j) + j] by {}
            lemma_literal_copy(x, pre.len() + j, z, j);
            lemma_scan_shift(pre, z, literal_end(z, j));
        } else {
            lemma_scan_shift(pre, z, j + 1);
        }
    }
}

proof fn lemma_scan_add(a: Seq<char>, z: Seq<char>, i: int)
    requires
        0 <= i <= a.len(),
        scan_from(a, i).1,
    ensures
        scan_from(a + z, i) == (scan_from(a, i).0 + scan_from(z, 0).0, scan_from(z, 0).1),
    decreases a.len() - i,
{
    let x = a + z;
    if i < a.len() {
        assert(x[i] == a[i]);
        if is_quote(a[i]) {
            lemma_literal_end(a, i);
            assert forall|m: int| i <= m < i + (literal_end(a, i) - i) implies x[m] == a[m - i
                + i] by {}
            lemma_literal_copy(x, i, a, i);
            lemma_scan_add(a, z, literal_end(a, i));
            let rest = scan_from(a, literal_end(a, i));
            assert(seq![a.subrange(i, literal_end(a, i))] + (rest.0 + scan_from(z, 0).0) =~= (seq![
                a.subrange(i, literal_end(a, i)),
            ] + rest.0) + scan_from(z, 0).0);
        } else {
            lemma_scan_add(a, z, i + 1);
        }
    } else {
        lemma_scan_shift(a, z, 0);
        assert(Seq::<Seq<char>>::empty() + scan_from(z, 0).0 =~= scan_from(z, 0).0);
    }
}

proof fn lemma_scan_drop(a: Seq<char>, i: int)
    requires
        0 <= i <= a.len(),
        a.len() > 0,
        !is_quote(a.last()),
        scan_from(a, i).1,
    ensures
        scan_from(a.drop_last(), i) == scan_from(a, i),
    decreases a.len() - i,
{
    let x = a.drop_last();
    if i < a.len() - 1 {
        assert(x[i] == a[i]);
        if is_quote(a[i]) {
            lemma_literal_end(a, i);
            lemma_closed_ends_with_quote(a, i + 1, a[i]);
            assert(literal_end(a, i) <= a.len() - 1);
            assert forall|m: int| i <= m < i + (literal_end(a, i) - i) implies x[m] == a[m - i
                + i] by {}
            lemma_literal_copy(x, i, a, i);
            lemma_scan_drop(a, literal_end(a, i));
            assert(scan_from(x, literal_end(x, i)) == scan_from(a, literal_end(a, i)));
        } else {
            lemma_scan_drop(a, i + 1);
        }
    } else if i == a.len() - 1 {
        assert(a[i] == a.last());
        assert(scan_from(a, i + 1) == (Seq::<Seq<char>>::empty(), true));
        assert(scan_from(a, i) == scan_from(a, i + 1));
        assert(scan_from(x, i) == (Seq::<Seq<char>>::empty(), true));
    }
}

proof fn lemma_scan_commits(out: Seq<char>)
    requires
        scan_from(out, 0).1,
    ensures
        scan_from(commits(out), 0) == scan_from(out, 0),
    decreases out.len(),
{
    if out.len() > 0 && out.last() == ' ' {
        lemma_scan_drop(out, 0);
        lemma_scan_commits(out.drop_last());
    }
}

proof fn lemma_scan_skip(s: Seq<char>, i: int, j: int)
    requires
        0 <= i <= j <= s.len(),
        forall|m: int| i <= m < j ==> !is_quote(s[m]),
    ensures
        scan_from(s, i) == scan_from(s, j),
    decreases j - i,
{
    if i < j {
        lemma_scan_skip(s, i + 1, j);
    }
}

/// A text without quotes, behind a text that ends outside quoted literals,
/// adds no literal.
proof fn lemma_scan_plain(a: Seq<char>, z: Seq<char>)
    requires
        scan_from(a, 0).1,
        forall|m: int| 0 <= m < z.len() ==> !is_quote(z[m]),
    ensures
        scan_from(a + z, 0) == scan_from(a, 0),
{
    lemma_scan_skip(z, 0, z.len() as int);
    lemma_scan_add(a, z, 0);
    assert(scan_from(a, 0).0 + Seq::<Seq<char>>::empty() =~= scan_from(a, 0).0);
}

proof fn lemma_spaces_plain(s: Seq<char>, i: int)
    requires
        0 <= i <= s.len(),
    ensures
        forall|m: int| i <= m < i + space_run(s, i) ==> !is_quote(s[m]),
        i + space_run(s, i) <= s.len(),
    decreases s.len() - i,
{
    if i < s.len() && s[i] == ' ' {
        lemma_spaces_plain(s, i + 1);
    }
}

proof fn lemma_literals_kept(s: Seq<char>, i: int, out: Seq<char>)
    requires
        quotes_are_plain(),
        0 <= i <= s.len(),
        scan_from(out, 0).1,
    ensures
        scan_from(tidy_from(s, i, out), 0).0 == scan_from(out, 0).0 + scan_from(s, i).0,
    decreases s.len() - i,
{
    let had = scan_from(out, 0).0;
    if i >= s.len() {
        assert(had + Seq::<Seq<char>>::empty() =~= had);
    } else if is_quote(s[i]) {
        lemma_literal_end(s, i);
        let e = literal_end(s, i);
        let lit = s.subrange(i, e);
        let next = out + lit;
        if !literal_closed(s, i + 1, s[i]) {
            lemma_open_reaches_end(s, i + 1, s[i]);
        }
        assert forall|m: int| 0 <= m < 0 + (literal_end(s, i) - i) implies lit[m] == s[m - 0
            + i] by {}
        lemma_literal_copy(lit, 0, s, i);
        assert(literal_end(lit, 0) == lit.len());
        assert(scan_from(lit, lit.len() as int) == (Seq::<Seq<char>>::empty(), true));
        assert(lit.subrange(0, lit.len() as int) =~= lit);
        assert(scan_from(lit, 0).0 =~= seq![lit]);
        lemma_scan_add(out, lit, 0);
        assert(scan_from(next, 0).0 == had + seq![lit]);
        assert(scan_from(s, i).0 == seq![lit] + scan_from(s, e).0);
        assert(tidy_from(s, i, out) == tidy_from(s, e, next));
        if e < s.len() {
            lemma_closed_before_end(s, i + 1, s[i]);
            lemma_literals_kept(s, e, next);
            assert(had + seq![lit] + scan_from(s, e).0 =~= had + (seq![lit] + scan_from(s, e).0));
        } else {
            assert(scan_from(s, e).0 =~= Seq::<Seq<char>>::empty());
            assert(seq![lit] + scan_from(s, e).0 =~= seq![lit]);
        }
    } else if s[i] == '=' && i + 1 < s.len() && s[i + 1] == '>' {
        lemma_spaces_plain(s, i + 2);
        let e = i + 2 + space_run(s, i + 2);
        let c = commits(out);
        lemma_scan_commits(out);
        let piece = seq![' ', '=', '>', ' '];
        assert(with_arrow(out) =~= c + piece);
        lemma_scan_plain(c, piece);
        lemma_scan_skip(s, i, e);
        lemma_literals_kept(s, e, with_arrow(out));
    } else if s[i] == ',' {
        lemma_spaces_plain(s, i + 1);
        let e = i + 1 + space_run(s, i + 1);
        let piece = if e < s.len() && s[e] != '\n' {
            seq![',', ' ']
        } else {
            seq![',']
        };
        assert(with_comma(s, i, out) =~= out + piece);
        lemma_scan_plain(out, piece);
        lemma_scan_skip(s, i, e);
        lemma_literals_kept(s, e, with_comma(s, i, out));
    } else if alphabetic(s[i]) {
        lemma_word_chars(s, i);
        let e = i + word_len(s, i);
        let w = s.subrange(i, e);
        let piece = if is_keyword(w) && e < s.len() && s[e] == '(' {
            w.push(' ')
        } else {
            w
        };
        assert(with_word(s, i, out) =~= out + piece);
        assert forall|m: int| 0 <= m < piece.len() implies !is_quote(piece[m]) by {
            if m < w.len() {
                assert(piece[m] == s[i + m]);
                assert(word_char(s[i + m]));
            }
        }
        lemma_scan_plain(out, piece);
        assert forall|m: int| i <= m < e implies !is_quote(s[m]) by {
            assert(word_char(s[m]));
        }
        lemma_scan_skip(s, i, e);
        lemma_literals_kept(s, e, with_word(s, i, out));
    } else if s[i] == ')' || s[i] == ']' {
        let c = commits(out);
        lemma_scan_commits(out);
        assert(c.push(s[i]) =~= c + seq![s[i]]);
        lemma_scan_plain(c, seq![s[i]]);
        lemma_literals_kept(s, i + 1, c.push(s[i]));
    } else if s[i] == '(' || s[i] == '[' {
        lemma_spaces_plain(s, i + 1);
        let e = i + 1 + space_run(s, i + 1);
        assert(out.push(s[i]) =~= out + seq![s[i]]);
        lemma_scan_plain(out, seq![s[i]]);
        lemma_scan_skip(s, i, e);
        lemma_literals_kept(s, e, out.push(s[i]));
    } else {
        assert(out.push(s[i]) =~= out + seq![s[i]]);
        lemma_scan_plain(out, seq![s[i]]);
        lemma_literals_kept(s, i + 1, out.push(s[i]));
    }
}

/// Spacing keeps the quoted literals: those of a spaced line are those of
/// the line, character for character and in their order.
pub proof fn law_spacing_keeps_literals(s: Seq<char>)
    ensures
        literals(tidy(s)) == literals(s),
{
    lemma_quotes_are_plain();
    lemma_literals_kept(s, 0, Seq::empty());
    assert(Seq::<Seq<char>>::empty() + scan_from(s, 0).0 =~= scan_from(s, 0).0);
}

} // verus!
