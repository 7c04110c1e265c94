//! The markup grammar over a sequence of tokens, as spec functions.
//!
//! Every rule reads the tokens from a start index up to an end index and either
//! gives a value together with the index after what it consumed, or fails; a
//! failed rule consumes nothing.
use crate::node::{NameView, NodeType, NodeView};
use crate::token::{Delimiter, TokenView};
use vstd::prelude::*;

verus! {

/// Why a parse failed, with the index of the token where it did.
#[derive(PartialEq, Eq, Structural, Clone, Copy, Debug)]
pub enum ParseError {
    /// No name of any of the three forms starts here.
    InvalidNodeName(usize),
    /// A close tag that closes no open tag.
    CloseTagWithoutOpenTag(usize),
    /// The input ended inside an element.
    OpenTagWithoutCloseTag(usize),
    /// A token, or the end of the input, that the grammar does not allow here.
    UnexpectedToken(usize),
}

impl ParseError {
    /// A human-readable description of the error.
    pub fn message(&self) -> (r: &'static str)
        ensures
            *self is InvalidNodeName ==> r@ == "invalid node name"@,
            *self is CloseTagWithoutOpenTag ==> r@ == "close tag has no corresponding open tag"@,
            *self is OpenTagWithoutCloseTag ==> r@ == "open tag has no corresponding close tag"@,
            *self is UnexpectedToken ==> r@ == "unexpected token"@,
    {
        match self {
            ParseError::InvalidNodeName(_) => "invalid node name",
            ParseError::CloseTagWithoutOpenTag(_) => "close tag has no corresponding open tag",
            ParseError::OpenTagWithoutCloseTag(_) => "open tag has no corresponding close tag",
            ParseError::UnexpectedToken(_) => "unexpected token",
        }
    }

    /// The index of the token where the parse failed.
    pub fn position(&self) -> (r: usize)
        ensures
            match *self {
                ParseError::InvalidNodeName(p) => r == p,
                ParseError::CloseTagWithoutOpenTag(p) => r == p,
                ParseError::OpenTagWithoutCloseTag(p) => r == p,
                ParseError::UnexpectedToken(p) => r == p,
            },
    {
        match self {
            ParseError::InvalidNodeName(p) => *p,
            ParseError::CloseTagWithoutOpenTag(p) => *p,
            ParseError::OpenTagWithoutCloseTag(p) => *p,
            ParseError::UnexpectedToken(p) => *p,
        }
    }
}

/// What syn's parser says of a brace group given by its text: that it is a block expression.
pub uninterp spec fn block_parses(s: Seq<char>) -> bool;

/// What syn's parser says of a text: that it is a whole expression.
pub uninterp spec fn expr_parses(s: Seq<char>) -> bool;

pub open spec fn in_span(toks: Seq<TokenView>, i: int, end: int) -> bool {
    0 <= i < end && i < toks.len()
}

/// The token at `i` is the punctuation character `c`.
pub open spec fn punct_at(toks: Seq<TokenView>, i: int, end: int, c: char) -> bool {
    in_span(toks, i, end) && match toks[i] {
        TokenView::Punct(d, _) => d == c,
        _ => false,
    }
}

/// The tokens at `i` are `::`, the first joined to the second.
pub open spec fn colon2_at(toks: Seq<TokenView>, i: int, end: int) -> bool {
    &&& in_span(toks, i, end)
    &&& toks[i] == TokenView::Punct(':', true)
    &&& punct_at(toks, i + 1, end, ':')
}

/// The identifier at `i`, if there is one.
pub open spec fn ident_at(toks: Seq<TokenView>, i: int, end: int) -> Option<Seq<char>> {
    if in_span(toks, i, end) {
        match toks[i] {
            TokenView::Ident(s) => Some(s),
            _ => None,
        }
    } else {
        None
    }
}

/// Identifiers separated by `c`, as many as follow; a separator is taken only where an
/// identifier follows it, so the run ends after its last identifier.
pub open spec fn punctuated(toks: Seq<TokenView>, i: int, end: int, c: char) -> (Seq<Seq<char>>, int)
    decreases end - i,
{
    match ident_at(toks, i, end) {
        Some(s) => if punct_at(toks, i + 1, end, c) && ident_at(toks, i + 2, end) is Some {
            let (rest, k) = punctuated(toks, i + 2, end, c);
            (seq![s] + rest, k)
        } else {
            (seq![s], i + 1)
        },
        None => (Seq::empty(), i),
    }
}

/// A name of two or more identifiers joined by `c`.
pub open spec fn punct_name(toks: Seq<TokenView>, i: int, end: int, c: char) -> Option<(Seq<Seq<char>>, int)> {
    let (s, k) = punctuated(toks, i, end, c);
    if s.len() > 1 {
        Some((s, k))
    } else {
        None
    }
}

/// One or more identifiers joined by `::`, with none after a last `::`.
pub open spec fn path_segments(toks: Seq<TokenView>, i: int, end: int) -> Option<(Seq<Seq<char>>, int)>
    decreases end - i,
{
    match ident_at(toks, i, end) {
        Some(s) => if colon2_at(toks, i + 1, end) {
            match path_segments(toks, i + 3, end) {
                Some((rest, k)) => Some((seq![s] + rest, k)),
                None => None,
            }
        } else {
            Some((seq![s], i + 1))
        },
        None => None,
    }
}

/// A path name: an optional leading `::`, then its segments.
pub open spec fn path_name(toks: Seq<TokenView>, i: int, end: int) -> Option<(NameView, int)> {
    let lead = colon2_at(toks, i, end);
    match path_segments(toks, if lead { i + 2 } else { i }, end) {
        Some((s, k)) => Some((NameView::Path(lead, s), k)),
        None => None,
    }
}

/// A node name: the dash form, else the colon form, else the path form.
pub open spec fn node_name(toks: Seq<TokenView>, i: int, end: int) -> Result<(NameView, int), ParseError> {
    match punct_name(toks, i, end, '-') {
        Some((s, k)) => Ok((NameView::Dash(s), k)),
        None => match punct_name(toks, i, end, ':') {
            Some((s, k)) => Ok((NameView::Colon(s), k)),
            None => match path_name(toks, i, end) {
                Some(r) => Ok(r),
                None => Err(ParseError::InvalidNodeName(i as usize)),
            },
        },
    }
}

/// The end of an open tag, `>` or `/>`; gives whether the tag closes itself.
pub open spec fn tag_open_end(toks: Seq<TokenView>, i: int, end: int) -> Option<(bool, int)> {
    if punct_at(toks, i, end, '/') {
        if punct_at(toks, i + 1, end, '>') {
            Some((true, i + 2))
        } else {
            None
        }
    } else if punct_at(toks, i, end, '>') {
        Some((false, i + 1))
    } else {
        None
    }
}

/// The first index from `i` on where an open tag's end stands: that index, whether
/// the tag closes itself, and the index after the end.
pub open spec fn scan_tag_end(toks: Seq<TokenView>, i: int, end: int) -> Option<(int, bool, int)>
    decreases end - i,
{
    match tag_open_end(toks, i, end) {
        Some((sc, k)) => Some((i, sc, k)),
        None => if i < end {
            scan_tag_end(toks, i + 1, end)
        } else {
            None
        },
    }
}

/// The token at `i` is a brace group that holds a block.
pub open spec fn block_at(toks: Seq<TokenView>, i: int, end: int) -> bool {
    in_span(toks, i, end) && match toks[i] {
        TokenView::Group(Delimiter::Brace, s) => block_parses(s),
        _ => false,
    }
}

/// The text of a token.
pub open spec fn token_text(t: TokenView) -> Seq<char> {
    match t {
        TokenView::Ident(s) => s,
        TokenView::Punct(c, _) => seq![c],
        TokenView::Literal(s) => s,
        TokenView::Group(_, s) => s,
    }
}

/// A token as it is written out: its text, then a space unless it is punctuation
/// joined to what follows.
pub open spec fn token_piece(t: TokenView) -> Seq<char> {
    match t {
        TokenView::Punct(c, true) => seq![c],
        _ => token_text(t) + seq![' '],
    }
}

/// The tokens `[i, k)` written out.
pub open spec fn span_text(toks: Seq<TokenView>, i: int, k: int) -> Seq<char>
    decreases k - i,
{
    if k <= i {
        Seq::empty()
    } else {
        span_text(toks, i, k - 1) + token_piece(toks[k - 1])
    }
}

/// The largest `j` with `i < j <= k` for which the tokens `[i, j)` are an expression.
pub open spec fn longest_expr(toks: Seq<TokenView>, i: int, k: int) -> Option<int>
    decreases k - i,
{
    if k <= i {
        None
    } else if expr_parses(span_text(toks, i, k)) {
        Some(k)
    } else {
        longest_expr(toks, i, k - 1)
    }
}

/// Where an attribute value from `i` ends: after a brace group that holds a block, or
/// else after the longest run of tokens before `end` that is an expression.
pub open spec fn value_end(toks: Seq<TokenView>, i: int, end: int) -> Option<int> {
    if !in_span(toks, i, end) {
        None
    } else {
        match toks[i] {
            TokenView::Group(Delimiter::Brace, s) => if block_parses(s) {
                Some(i + 1)
            } else {
                None
            },
            _ => longest_expr(toks, i, end),
        }
    }
}

pub open spec fn attribute_node(name: NameView, value: Option<Seq<TokenView>>) -> NodeView {    NodeView {
        name: Some(name),
        value,
        node_type: NodeType::Attribute,
        attributes: Seq::empty(),
        children: Seq::empty(),
    }
}

/// One attribute: a name, then optionally `=` and a value.
pub open spec fn attribute(toks: Seq<TokenView>, i: int, end: int) -> Option<(NodeView, int)> {
    match node_name(toks, i, end) {
        Ok((n, p)) => if punct_at(toks, p, end, '=') {
            match value_end(toks, p + 1, end) {
                Some(k) => Some((attribute_node(n, Some(toks.subrange(p + 1, k))), k)),
                None => None,
            }
        } else {
            Some((attribute_node(n, None), p))
        },
        Err(_) => None,
    }
}

/// Attributes, as many as follow one another from `i`.
pub open spec fn attribute_run(toks: Seq<TokenView>, i: int, end: int) -> (Seq<NodeView>, int)
    decreases end - i,
{
    if i >= end {
        (Seq::empty(), i)
    } else {
        match attribute(toks, i, end) {
            Some((a, k)) => if i < k <= end {
                let (rest, q) = attribute_run(toks, k, end);
                (seq![a] + rest, q)
            } else {
                (seq![a], k)
            },
            None => (Seq::empty(), i),
        }
    }
}

/// The attribute list of an open tag, which must take up the whole span `[i, end)`.
pub open spec fn attributes(toks: Seq<TokenView>, i: int, end: int) -> Result<Seq<NodeView>, ParseError> {
    let (s, q) = attribute_run(toks, i, end);
    if q == end {
        Ok(s)
    } else {
        Err(ParseError::UnexpectedToken(q as usize))
    }
}

/// An open tag: its name, its attributes, whether it closes itself, and the index after it.
pub open spec fn tag_open(toks: Seq<TokenView>, i: int) -> Result<(NameView, Seq<NodeView>, bool, int), ParseError> {
    let len = toks.len() as int;
    if !punct_at(toks, i, len, '<') {
        Err(ParseError::UnexpectedToken(i as usize))
    } else {
        match node_name(toks, i + 1, len) {
            Err(e) => Err(e),
            Ok((n, p)) => match scan_tag_end(toks, p, len) {
                None => Err(ParseError::UnexpectedToken(len as usize)),
                Some((b, sc, k)) => match attributes(toks, p, b) {
                    Err(e) => Err(e),
                    Ok(attrs) => Ok((n, attrs, sc, k)),
                },
            },
        }
    }
}

/// A close tag `</name>`: its name and the index after it.
pub open spec fn tag_close(toks: Seq<TokenView>, i: int) -> Option<(NameView, int)> {
    let len = toks.len() as int;
    if punct_at(toks, i, len, '<') && punct_at(toks, i + 1, len, '/') {
        match node_name(toks, i + 2, len) {
            Ok((n, p)) => if punct_at(toks, p, len, '>') {
                Some((n, p + 1))
            } else {
                None
            },
            Err(_) => None,
        }
    } else {
        None
    }
}

/// The token at `i` is a literal: a literal token, or `true` or `false`.
pub open spec fn text_at(toks: Seq<TokenView>, i: int) -> bool {
    in_span(toks, i, toks.len() as int) && match toks[i] {
        TokenView::Literal(_) => true,
        TokenView::Ident(s) => s == seq!['t', 'r', 'u', 'e'] || s == seq!['f', 'a', 'l', 's', 'e'],
        _ => false,
    }
}

pub open spec fn leaf_node(kind: NodeType, value: TokenView) -> NodeView {
    NodeView {
        name: None,
        value: Some(seq![value]),
        node_type: kind,
        attributes: Seq::empty(),
        children: Seq::empty(),
    }
}

pub open spec fn element_node(name: NameView, attrs: Seq<NodeView>, children: Seq<NodeView>) -> NodeView {
    NodeView {
        name: Some(name),
        value: None,
        node_type: NodeType::Element,
        attributes: attrs,
        children,
    }
}

/// The node with its children taken out.
pub open spec fn without_children(n: NodeView) -> NodeView {
    NodeView { children: Seq::empty(), ..n }
}

/// One node at `i`: text, else a block, else an element. In flatten mode the node's
/// children follow it in the result instead of standing in it.
pub open spec fn node(toks: Seq<TokenView>, i: int, flatten: bool) -> Result<(Seq<NodeView>, int), ParseError>
    decreases toks.len() - i, 2int,
{
    let single = if text_at(toks, i) {
        Ok((leaf_node(NodeType::Text, toks[i]), i + 1))
    } else if block_at(toks, i, toks.len() as int) {
        Ok((leaf_node(NodeType::Block, toks[i]), i + 1))
    } else {
        element(toks, i, flatten)
    };
    match single {
        Ok((n, k)) => if flatten {
            Ok((seq![without_children(n)] + n.children, k))
        } else {
            Ok((seq![n], k))
        },
        Err(e) => Err(e),
    }
}

/// An element at `i`: a self-closing tag, or an open tag, children and the matching close tag.
pub open spec fn element(toks: Seq<TokenView>, i: int, flatten: bool) -> Result<(NodeView, int), ParseError>
    decreases toks.len() - i, 1int,
{
    if tag_close(toks, i) is Some {
        Err(ParseError::CloseTagWithoutOpenTag(i as usize))
    } else {
        match tag_open(toks, i) {
            Err(e) => Err(e),
            Ok((n, attrs, sc, p)) => if sc {
                Ok((element_node(n, attrs, Seq::empty()), p))
            } else if p <= i || p > toks.len() {
                Err(ParseError::UnexpectedToken(p as usize))
            } else {
                match children(toks, n, p, flatten) {
                    Ok((cs, q)) => Ok((element_node(n, attrs, cs), q)),
                    Err(e) => Err(e),
                }
            },
        }
    }
}

/// The children of an element named `name`, from `i` up to its close tag, and the index
/// after the close tag.
pub open spec fn children(toks: Seq<TokenView>, name: NameView, i: int, flatten: bool) -> Result<(Seq<NodeView>, int), ParseError>
    decreases toks.len() - i, 3int,
{
    if i >= toks.len() {
        Err(ParseError::OpenTagWithoutCloseTag(i as usize))
    } else {
        match tag_close(toks, i) {
            Some((n2, q)) => if n2 == name {
                Ok((Seq::empty(), q))
            } else {
                Err(ParseError::CloseTagWithoutOpenTag(i as usize))
            },
            None => match node(toks, i, flatten) {
                Err(e) => Err(e),
                Ok((ns, k)) => if k <= i || k > toks.len() {
                    Err(ParseError::UnexpectedToken(k as usize))
                } else {
                    match children(toks, name, k, flatten) {
                        Ok((cs, q)) => Ok((ns + cs, q)),
                        Err(e) => Err(e),
                    }
                },
            },
        }
    }
}

/// All nodes from `i` to the end of the input.
pub open spec fn nodes_from(toks: Seq<TokenView>, i: int, flatten: bool) -> Result<Seq<NodeView>, ParseError>
    decreases toks.len() - i,
{
    if i >= toks.len() {
        Ok(Seq::empty())
    } else {
        match node(toks, i, flatten) {
            Err(e) => Err(e),
            Ok((ns, k)) => if k <= i || k > toks.len() {
                Err(ParseError::UnexpectedToken(k as usize))
            } else {
                match nodes_from(toks, k, flatten) {
                    Ok(rest) => Ok(ns + rest),
                    Err(e) => Err(e),
                }
            },
        }
    }
}

/// The whole input as a list of nodes.
pub open spec fn document(toks: Seq<TokenView>, flatten: bool) -> Result<Seq<NodeView>, ParseError> {
    nodes_from(toks, 0, flatten)
}

} // verus!
