//! The tree of a template.

use crate::parser::lexer::{Attr, Attribute, attrs, Lexeme, lexemes, Token};
use crate::text::{chars_of, equals_str, lowercase};
use vstd::prelude::*;

verus! {

/// A node of the tree of a template.
#[derive(Debug, PartialEq)]
pub enum Node {
    Element { name: String, attributes: Vec<Attribute>, children: Vec<Node> },
    Text(String),
    PhpBlock(String),
    PhpEcho(String),
    Doctype(String),
    Comment(String),
}

/// A node as text.
pub enum Tree {
    Element { name: Seq<char>, attributes: Seq<Attr>, children: Seq<Tree> },
    Text(Seq<char>),
    PhpBlock(Seq<char>),
    PhpEcho(Seq<char>),
    Doctype(Seq<char>),
    Comment(Seq<char>),
}

/// The nodes from index `i` on as text.
pub open spec fn trees_from(nodes: Seq<Node>, i: int) -> Seq<Tree>
    decreases nodes, nodes.len() - i,
{
    if i < 0 || i >= nodes.len() {
        Seq::empty()
    } else {
        seq![tree(nodes[i])] + trees_from(nodes, i + 1)
    }
}

/// A node as text.
pub open spec fn tree(node: Node) -> Tree
    decreases node, 0int,
{
    match node {
        Node::Element { name, attributes, children } => Tree::Element {
            name: name@,
            attributes: attrs(attributes@),
            children: trees_from(children@, 0),
        },
        Node::Text(s) => Tree::Text(s@),
        Node::PhpBlock(s) => Tree::PhpBlock(s@),
        Node::PhpEcho(s) => Tree::PhpEcho(s@),
        Node::Doctype(s) => Tree::Doctype(s@),
        Node::Comment(s) => Tree::Comment(s@),
    }
}

/// The nodes as text.
pub open spec fn trees(nodes: Seq<Node>) -> Seq<Tree> {
    trees_from(nodes, 0)
}

pub proof fn lemma_trees_from(nodes: Seq<Node>, i: int)
    requires
        0 <= i <= nodes.len(),
    ensures
        trees_from(nodes, i).len() == nodes.len() - i,
        forall|k: int| 0 <= k < nodes.len() - i ==> trees_from(nodes, i)[k] == tree(nodes[i + k]),
    decreases nodes.len() - i,
{
    if i < nodes.len() {
        lemma_trees_from(nodes, i + 1);
        assert forall|k: int| 0 <= k < nodes.len() - i implies trees_from(nodes, i)[k] == tree(
            nodes[i + k],
        ) by {
            if k > 0 {
                assert(trees_from(nodes, i + 1)[k - 1] == tree(nodes[i + 1 + (k - 1)]));
            }
        }
    }
}

pub proof fn lemma_trees_push(nodes: Seq<Node>, node: Node)
    ensures
        trees(nodes.push(node)) == trees(nodes).push(tree(node)),
{
    lemma_trees_from(nodes, 0);
    lemma_trees_from(nodes.push(node), 0);
    assert(trees(nodes.push(node)) =~= trees(nodes).push(tree(node)));
}

/// An element that is open while the tree is built: its name, its
/// attributes, and the nodes that stand before it under its parent.
pub struct Frame {
    pub name: Seq<char>,
    pub attributes: Seq<Attr>,
    pub before: Seq<Tree>,
}

/// Whether a lowercase name is that of an element that has no content.
pub open spec fn void_tag(lower: Seq<char>) -> bool {
    lower == "area"@ || lower == "base"@ || lower == "br"@ || lower == "col"@ || lower == "embed"@
        || lower == "hr"@ || lower == "img"@ || lower == "input"@ || lower == "link"@ || lower
        == "meta"@ || lower == "param"@ || lower == "source"@ || lower == "track"@ || lower
        == "wbr"@
}

/// Whether a lowercase name is that of an element that has no content.
pub fn is_void_tag(lower: &str) -> (b: bool)
    ensures
        b == void_tag(lower@),
{
    let c = chars_of(lower);
    equals_str(&c, "area") || equals_str(&c, "base") || equals_str(&c, "br") || equals_str(
        &c,
        "col",
    ) || equals_str(&c, "embed") || equals_str(&c, "hr") || equals_str(&c, "img") || equals_str(
        &c,
        "input",
    ) || equals_str(&c, "link") || equals_str(&c, "meta") || equals_str(&c, "param")
        || equals_str(&c, "source") || equals_str(&c, "track") || equals_str(&c, "wbr")
}

fn is_void_element(name: &str) -> (b: bool)
    ensures
        b == void_tag(lowercase(name@)),
{
    let lower = name.to_lowercase();
    is_void_tag(lower.as_str())
}

/// The nodes that are left when every element that is still open is closed,
/// the innermost first.
pub open spec fn unwound(stack: Seq<Frame>, current: Seq<Tree>) -> Seq<Tree>
    decreases stack.len(),
{
    if stack.len() == 0 {
        current
    } else {
        unwound(stack.drop_last(), closed_under(stack.last(), current))
    }
}

/// The nodes of the parent after the element of `frame` is closed with
/// `children`.
pub open spec fn closed_under(frame: Frame, children: Seq<Tree>) -> Seq<Tree> {
    frame.before.push(
        Tree::Element { name: frame.name, attributes: frame.attributes, children: children },
    )
}

/// An element without children.
pub open spec fn leaf(name: Seq<char>, attributes: Seq<Attr>) -> Tree {
    Tree::Element { name: name, attributes: attributes, children: Seq::empty() }
}

/// The tree that the tokens from index `i` on build, with `stack` as the
/// elements that are open and `current` as the nodes of the innermost. An
/// opening tag opens an element, unless its name is that of an element
/// without content; a closing tag closes the innermost open element, whatever
/// its name, and is passed over where none is open; at the end every open
/// element is closed.
pub open spec fn built(tokens: Seq<Lexeme>, i: int, stack: Seq<Frame>, current: Seq<Tree>) -> Seq<
    Tree,
>
    decreases tokens.len() - i,
{
    if i < 0 || i >= tokens.len() {
        unwound(stack, current)
    } else {
        match tokens[i] {
            Lexeme::OpenTag { name, attributes } => if void_tag(lowercase(name)) {
                built(tokens, i + 1, stack, current.push(leaf(name, attributes)))
            } else {
                built(
                    tokens,
                    i + 1,
                    stack.push(Frame { name: name, attributes: attributes, before: current }),
                    Seq::empty(),
                )
            },
            Lexeme::CloseTag(_) => if stack.len() > 0 {
                built(tokens, i + 1, stack.drop_last(), closed_under(stack.last(), current))
            } else {
                built(tokens, i + 1, stack, current)
            },
            Lexeme::SelfClosing { name, attributes } => built(
                tokens,
                i + 1,
                stack,
                current.push(leaf(name, attributes)),
            ),
            Lexeme::Text(s) => built(tokens, i + 1, stack, current.push(Tree::Text(s))),
            Lexeme::PhpBlock(s) => built(tokens, i + 1, stack, current.push(Tree::PhpBlock(s))),
            Lexeme::PhpEcho(s) => built(tokens, i + 1, stack, current.push(Tree::PhpEcho(s))),
            Lexeme::Doctype(s) => built(tokens, i + 1, stack, current.push(Tree::Doctype(s))),
            Lexeme::Comment(s) => built(tokens, i + 1, stack, current.push(Tree::Comment(s))),
        }
    }
}

/// The tree that the tokens build.
pub open spec fn parsed(tokens: Seq<Lexeme>) -> Seq<Tree> {
    built(tokens, 0, Seq::empty(), Seq::empty())
}

/// An element that is open while the tree is built.
pub struct Open {
    pub name: String,
    pub attributes: Vec<Attribute>,
    pub before: Vec<Node>,
}

impl View for Open {
    type V = Frame;

    open spec fn view(&self) -> Frame {
        Frame { name: self.name@, attributes: attrs(self.attributes@), before: trees(self.before@) }
    }
}

/// The open elements as text.
pub open spec fn frames(stack: Seq<Open>) -> Seq<Frame> {
    Seq::new(stack.len(), |k: int| stack[k]@)
}

fn push_node(current: &mut Vec<Node>, node: Node)
    ensures
        trees(final(current)@) == trees(old(current)@).push(tree(node)),
{
    proof {
        lemma_trees_push(current@, node);
    }
    current.push(node);
}

fn close_innermost(stack: &mut Vec<Open>, current: Vec<Node>) -> (r: Vec<Node>)
    requires
        old(stack)@.len() > 0,
    ensures
        frames(final(stack)@) == frames(old(stack)@).drop_last(),
        trees(r@) == closed_under(frames(old(stack)@).last(), trees(current@)),
{
    let ghost before = stack@;
    let open = stack.pop().unwrap();
    assert(frames(stack@) =~= frames(before).drop_last());
    assert(frames(before).last() == open@);
    let Open { name, attributes, before: mut parent } = open;
    let node = Node::Element { name, attributes, children: current };
    push_node(&mut parent, node);
    parent
}

/// Builds the tree of a template from its tokens.
pub fn parse(tokens: Vec<Token>) -> (r: Vec<Node>)
    ensures
        trees(r@) == parsed(lexemes(tokens@)),
{
    let mut stack: Vec<Open> = Vec::new();
    let mut current: Vec<Node> = Vec::new();
    let ghost all = lexemes(tokens@);
    assert(frames(stack@) =~= Seq::<Frame>::empty());
    for token in it: tokens
        invariant
            it.seq() == tokens@,
            all == lexemes(tokens@),
            built(all, it.index() as int, frames(stack@), trees(current@)) == parsed(all),
    {
        assert(all[it.index() as int] == token@);
        match token {
            Token::OpenTag { name, attributes } => {
                if is_void_element(name.as_str()) {
                    push_node(&mut current, Node::Element { name, attributes, children: Vec::new() });
                } else {
                    let ghost before = frames(stack@);
                    let open = Open { name, attributes, before: current };
                    stack.push(open);
                    assert(frames(stack@) =~= before.push(open@));
                    current = Vec::new();
                }
            },
            Token::CloseTag(_) => {
                if stack.len() > 0 {
                    current = close_innermost(&mut stack, current);
                }
            },
            Token::SelfClosing { name, attributes } => {
                push_node(&mut current, Node::Element { name, attributes, children: Vec::new() });
            },
            Token::Text(s) => {
                push_node(&mut current, Node::Text(s));
            },
            Token::PhpBlock(s) => {
                push_node(&mut current, Node::PhpBlock(s));
            },
            Token::PhpEcho(s) => {
                push_node(&mut current, Node::PhpEcho(s));
            },
            Token::Doctype(s) => {
                push_node(&mut current, Node::Doctype(s));
            },
            Token::Comment(s) => {
                push_node(&mut current, Node::Comment(s));
            },
        }
    }
    while stack.len() > 0
        invariant
            unwound(frames(stack@), trees(current@)) == parsed(all),
        decreases stack@.len(),
    {
        current = close_innermost(&mut stack, current);
    }
    current
}

} // verus!
