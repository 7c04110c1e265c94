//! Properties of the grammar, proved.
use crate::grammar::{
    attribute, attribute_node, children, colon2_at, document, element, element_node, ident_at,
    node, node_name, nodes_from, punct_at, scan_tag_end, tag_close, tag_open, tag_open_end,
    ParseError,
};
use crate::grammar::{
    expr_parses, longest_expr, punct_name, span_text, token_text, value_end,
    attribute_run, attributes, block_at, path_segments, punctuated, text_at, without_children,
};
use crate::node::{joined, name_text, NameView, NodeType, NodeView};
use crate::size::{
    lemma_preorder_concat, lemma_preorder_single, lemma_total_concat, lemma_total_empty,
    lemma_total_single, preorder, total_size, tree_preorder, tree_size,
};
use crate::token::TokenView;
use vstd::prelude::*;

verus! {

/// A single identifier, followed by neither `-` nor `:`, is a path name of one segment.
pub proof fn bare_identifier_is_path(toks: Seq<TokenView>, i: int, end: int, a: Seq<char>)
    requires
        ident_at(toks, i, end) == Some(a),
        !punct_at(toks, i + 1, end, '-'),
        !punct_at(toks, i + 1, end, ':'),
    ensures
        node_name(toks, i, end) == Ok::<(NameView, int), ParseError>((NameView::Path(false, seq![a]), i + 1)),
{
    reveal_with_fuel(crate::grammar::punctuated, 2);
    reveal_with_fuel(crate::grammar::path_segments, 2);
    assert(!colon2_at(toks, i, end));
}

/// Two identifiers joined by `-` are a dash name of two segments.
pub proof fn dashed_identifiers_are_dash(toks: Seq<TokenView>, i: int, end: int, a: Seq<char>, b: Seq<char>)
    requires
        ident_at(toks, i, end) == Some(a),
        punct_at(toks, i + 1, end, '-'),
        ident_at(toks, i + 2, end) == Some(b),
        !punct_at(toks, i + 3, end, '-'),
    ensures
        node_name(toks, i, end) == Ok::<(NameView, int), ParseError>((NameView::Dash(seq![a, b]), i + 3)),
{
    reveal_with_fuel(crate::grammar::punctuated, 3);
    assert(seq![a] + (seq![b] + Seq::<Seq<char>>::empty()) =~= seq![a, b]);
    assert(seq![a] + seq![b] =~= seq![a, b]);
}

/// Two identifiers joined by a single `:` are a colon name of two segments.
pub proof fn coloned_identifiers_are_colon(toks: Seq<TokenView>, i: int, end: int, a: Seq<char>, b: Seq<char>)
    requires
        ident_at(toks, i, end) == Some(a),
        punct_at(toks, i + 1, end, ':'),
        ident_at(toks, i + 2, end) == Some(b),
        !punct_at(toks, i + 3, end, ':'),
    ensures
        node_name(toks, i, end) == Ok::<(NameView, int), ParseError>((NameView::Colon(seq![a, b]), i + 3)),
{
    reveal_with_fuel(crate::grammar::punctuated, 3);
    assert(seq![a] + seq![b] =~= seq![a, b]);
}

/// Two identifiers joined by `::` are a path name of those two segments, in order.
pub proof fn path_identifiers_are_path(toks: Seq<TokenView>, i: int, end: int, a: Seq<char>, b: Seq<char>)
    requires
        ident_at(toks, i, end) == Some(a),
        colon2_at(toks, i + 1, end),
        ident_at(toks, i + 3, end) == Some(b),
        !colon2_at(toks, i + 4, end),
    ensures
        node_name(toks, i, end) == Ok::<(NameView, int), ParseError>((NameView::Path(false, seq![a, b]), i + 4)),
{
    reveal_with_fuel(crate::grammar::punctuated, 3);
    reveal_with_fuel(crate::grammar::path_segments, 3);
    assert(!colon2_at(toks, i, end));
    assert(seq![a] + seq![b] =~= seq![a, b]);
}

/// When the tokens `[i, j)` are an expression and no longer run before `k` is, the
/// longest expression run from `i` ends at `j`.
proof fn lemma_longest_expr_at(toks: Seq<TokenView>, i: int, j: int, k: int)
    requires
        i < j <= k,
        expr_parses(span_text(toks, i, j)),
        forall|m: int| j < m <= k ==> !expr_parses(#[trigger] span_text(toks, i, m)),
    ensures
        longest_expr(toks, i, k) == Some(j),
    decreases k - j,
{
    if k > j {
        lemma_longest_expr_at(toks, i, j, k - 1);
    }
}

/// An attribute `key="value"` has the key's name, in whichever of the three forms it
/// takes, and the literal as its value, where the literal is an expression and no longer
/// run of the tag's tokens is.
pub proof fn literal_attribute(toks: Seq<TokenView>, i: int, end: int, key: NameView, p: int, lit: Seq<char>)
    requires
        node_name(toks, i, end) == Ok::<(NameView, int), ParseError>((key, p)),
        punct_at(toks, p, end, '='),
        p + 1 < end <= toks.len(),
        toks[p + 1] == TokenView::Literal(lit),
        expr_parses(span_text(toks, p + 1, p + 2)),
        forall|m: int| p + 2 < m <= end ==> !expr_parses(#[trigger] span_text(toks, p + 1, m)),
    ensures
        attribute(toks, i, end) == Some((attribute_node(key, Some(seq![TokenView::Literal(lit)])), p + 2)),
{
    lemma_longest_expr_at(toks, p + 1, p + 2, end);
    assert(toks.subrange(p + 1, p + 2) =~= seq![TokenView::Literal(lit)]);
}

/// An attribute with a one-identifier key: its name is a path of that identifier.
pub proof fn literal_attribute_with_identifier_key(toks: Seq<TokenView>, i: int, end: int, key: Seq<char>, lit: Seq<char>)
    requires
        ident_at(toks, i, end) == Some(key),
        punct_at(toks, i + 1, end, '='),
        i + 2 < end <= toks.len(),
        toks[i + 2] == TokenView::Literal(lit),
        expr_parses(span_text(toks, i + 2, i + 3)),
        forall|m: int| i + 3 < m <= end ==> !expr_parses(#[trigger] span_text(toks, i + 2, m)),
    ensures
        attribute(toks, i, end) == Some((attribute_node(NameView::Path(false, seq![key]), Some(seq![TokenView::Literal(lit)])), i + 3)),
{
    bare_identifier_is_path(toks, i, end, key);
    literal_attribute(toks, i, end, NameView::Path(false, seq![key]), i + 1, lit);
}

/// Consecutive attributes: the `m`-th runs from `bounds[m]` to `bounds[m + 1]` and gives
/// `nodes[m]`, the last one ending at `end`.
pub open spec fn attribute_chain(t: Seq<TokenView>, bounds: Seq<int>, nodes: Seq<NodeView>, end: int) -> bool {
    &&& bounds.len() == nodes.len() + 1
    &&& bounds[nodes.len() as int] == end
    &&& forall|m: int| 0 <= m < nodes.len() ==> bounds[m] < bounds[m + 1] <= end
        && #[trigger] attribute(t, bounds[m], end) == Some((nodes[m], bounds[m + 1]))
}

proof fn lemma_attribute_chain_from(t: Seq<TokenView>, bounds: Seq<int>, nodes: Seq<NodeView>, end: int, m: int)
    requires
        attribute_chain(t, bounds, nodes, end),
        0 <= m <= nodes.len(),
    ensures
        attribute_run(t, bounds[m], end) == (nodes.subrange(m, nodes.len() as int), end),
    decreases nodes.len() - m,
{
    if m < nodes.len() {
        assert(attribute(t, bounds[m], end) == Some((nodes[m], bounds[m + 1])));
        lemma_attribute_chain_from(t, bounds, nodes, end, m + 1);
        assert(seq![nodes[m]] + nodes.subrange(m + 1, nodes.len() as int) =~= nodes.subrange(m, nodes.len() as int));
    } else {
        assert(nodes.subrange(m, nodes.len() as int) =~= Seq::<NodeView>::empty());
    }
}

/// A span made of consecutive attributes is that list of attribute nodes, in source
/// order; with `literal_attribute` for each, `k1="v1" ... kn="vn"` gives the `n`
/// attributes with their names and literal values.
pub proof fn attribute_list(t: Seq<TokenView>, bounds: Seq<int>, nodes: Seq<NodeView>, end: int)
    requires
        attribute_chain(t, bounds, nodes, end),
    ensures
        attributes(t, bounds[0], end) == Ok::<Seq<NodeView>, ParseError>(nodes),
{
    lemma_attribute_chain_from(t, bounds, nodes, end, 0);
    assert(nodes.subrange(0, nodes.len() as int) =~= nodes);
}

/// The texts of the tokens `[i, k)`, written together with nothing between them.
pub open spec fn tight_text(t: Seq<TokenView>, i: int, k: int) -> Seq<char>
    decreases k - i,
{
    if k <= i {
        Seq::empty()
    } else {
        tight_text(t, i, k - 1) + token_text(t[k - 1])
    }
}

proof fn lemma_tight_split(t: Seq<TokenView>, i: int, m: int, k: int)
    requires
        i <= m <= k,
    ensures
        tight_text(t, i, k) == tight_text(t, i, m) + tight_text(t, m, k),
    decreases k - m,
{
    if k == m {
        assert(tight_text(t, i, m) + Seq::<char>::empty() =~= tight_text(t, i, m));
    } else {
        lemma_tight_split(t, i, m, k - 1);
        assert(tight_text(t, i, m) + tight_text(t, m, k - 1) + token_text(t[k - 1])
            =~= tight_text(t, i, m) + (tight_text(t, m, k - 1) + token_text(t[k - 1])));
    }
}

proof fn lemma_joined_front(s: Seq<char>, rest: Seq<Seq<char>>, sep: Seq<char>)
    requires
        rest.len() > 0,
    ensures
        joined(seq![s] + rest, sep) == s + sep + joined(rest, sep),
    decreases rest.len(),
{
    let all = seq![s] + rest;
    assert(all.last() == rest.last());
    if rest.len() == 1 {
        assert(all.drop_last() =~= seq![s]);
        assert(joined(seq![s], sep) == s);
        assert(joined(rest, sep) == rest[0]);
    } else {
        lemma_joined_front(s, rest.drop_last(), sep);
        assert(all.drop_last() =~= seq![s] + rest.drop_last());
        assert(joined(rest, sep) == joined(rest.drop_last(), sep) + sep + rest.last());
        assert(s + sep + joined(rest.drop_last(), sep) + sep + rest.last()
            =~= s + sep + (joined(rest.drop_last(), sep) + sep + rest.last()));
    }
}

proof fn lemma_punctuated_after(t: Seq<TokenView>, i: int, end: int, c: char)
    ensures
        punctuated(t, i, end, c).1 >= i,
    decreases end - i,
{
    if ident_at(t, i, end) is Some && punct_at(t, i + 1, end, c) && ident_at(t, i + 2, end) is Some {
        lemma_punctuated_after(t, i + 2, end, c);
    }
}

proof fn lemma_path_segments_after(t: Seq<TokenView>, i: int, end: int)
    ensures
        path_segments(t, i, end) matches Some((_, k)) ==> k > i,
    decreases end - i,
{
    if ident_at(t, i, end) is Some && colon2_at(t, i + 1, end) {
        lemma_path_segments_after(t, i + 3, end);
    }
}

proof fn lemma_punctuated_text(t: Seq<TokenView>, i: int, end: int, c: char)
    requires
        punctuated(t, i, end, c).0.len() > 0,
    ensures
        joined(punctuated(t, i, end, c).0, seq![c]) == tight_text(t, i, punctuated(t, i, end, c).1),
    decreases end - i,
{
    let s = ident_at(t, i, end).unwrap();
    reveal_with_fuel(tight_text, 3);
    if punct_at(t, i + 1, end, c) && ident_at(t, i + 2, end) is Some {
        let (rest, k) = punctuated(t, i + 2, end, c);
        lemma_punctuated_text(t, i + 2, end, c);
        lemma_punctuated_after(t, i + 2, end, c);
        lemma_joined_front(s, rest, seq![c]);
        lemma_tight_split(t, i, i + 2, k);
        assert(tight_text(t, i, i + 2) =~= s + seq![c]);
    } else {
        assert(tight_text(t, i, i + 1) =~= s);
    }
}

proof fn lemma_path_segments_text(t: Seq<TokenView>, i: int, end: int)
    requires
        path_segments(t, i, end) is Some,
    ensures
        joined(path_segments(t, i, end).unwrap().0, seq![':', ':']) == tight_text(t, i, path_segments(t, i, end).unwrap().1),
    decreases end - i,
{
    let s = ident_at(t, i, end).unwrap();
    reveal_with_fuel(tight_text, 4);
    if colon2_at(t, i + 1, end) {
        let (rest, k) = path_segments(t, i + 3, end).unwrap();
        lemma_path_segments_text(t, i + 3, end);
        lemma_path_segments_after(t, i + 3, end);
        lemma_joined_front(s, rest, seq![':', ':']);
        lemma_tight_split(t, i, i + 3, k);
        assert(tight_text(t, i, i + 3) =~= s + seq![':', ':']);
    } else {
        assert(tight_text(t, i, i + 1) =~= s);
    }
}

proof fn lemma_punctuated_ends_with_ident(t: Seq<TokenView>, i: int, end: int, c: char)
    requires
        punctuated(t, i, end, c).0.len() > 0,
    ensures
        ident_at(t, punctuated(t, i, end, c).1 - 1, end) is Some,
    decreases end - i,
{
    if punct_at(t, i + 1, end, c) && ident_at(t, i + 2, end) is Some {
        lemma_punctuated_ends_with_ident(t, i + 2, end, c);
    }
}

proof fn lemma_path_segments_end_with_ident(t: Seq<TokenView>, i: int, end: int)
    requires
        path_segments(t, i, end) is Some,
    ensures
        ident_at(t, path_segments(t, i, end).unwrap().1 - 1, end) is Some,
    decreases end - i,
{
    if colon2_at(t, i + 1, end) {
        lemma_path_segments_end_with_ident(t, i + 3, end);
    }
}

/// A name read from the tokens ends with an identifier: every separator it takes in
/// stands between two identifiers, and none is taken after the last one.
pub proof fn name_ends_with_identifier(t: Seq<TokenView>, i: int, end: int)
    requires
        node_name(t, i, end) is Ok,
    ensures
        ident_at(t, node_name(t, i, end).unwrap().1 - 1, end) is Some,
{
    if punct_name(t, i, end, '-') is Some {
        lemma_punctuated_ends_with_ident(t, i, end, '-');
    } else if punct_name(t, i, end, ':') is Some {
        lemma_punctuated_ends_with_ident(t, i, end, ':');
    } else if colon2_at(t, i, end) {
        lemma_path_segments_end_with_ident(t, i + 2, end);
    } else {
        lemma_path_segments_end_with_ident(t, i, end);
    }
}

/// A name, written out, reproduces exactly the tokens it was read from:
/// `some :: path` gives `some::path`, `data - foo` gives `data-foo`.
pub proof fn name_text_reproduces_tokens(t: Seq<TokenView>, i: int, end: int)
    requires
        node_name(t, i, end) is Ok,
    ensures
        name_text(node_name(t, i, end).unwrap().0) == tight_text(t, i, node_name(t, i, end).unwrap().1),
{
    if punct_name(t, i, end, '-') is Some {
        lemma_punctuated_text(t, i, end, '-');
    } else if punct_name(t, i, end, ':') is Some {
        lemma_punctuated_text(t, i, end, ':');
    } else if colon2_at(t, i, end) {
        lemma_path_segments_text(t, i + 2, end);
        lemma_path_segments_after(t, i + 2, end);
        let k = node_name(t, i, end).unwrap().1;
        lemma_tight_split(t, i, i + 2, k);
        reveal_with_fuel(tight_text, 3);
        assert(tight_text(t, i, i + 2) =~= seq![':', ':']);
    } else {
        lemma_path_segments_text(t, i, end);
    }
}

/// The tokens of `<a></b>`, with the given spacing of the punctuation tokens.
pub open spec fn open_close_tokens(a: Seq<char>, b: Seq<char>, sp: Seq<bool>) -> Seq<TokenView> {
    seq![
        TokenView::Punct('<', sp[0]),
        TokenView::Ident(a),
        TokenView::Punct('>', sp[1]),
        TokenView::Punct('<', sp[2]),
        TokenView::Punct('/', sp[3]),
        TokenView::Ident(b),
        TokenView::Punct('>', sp[4]),
    ]
}

/// The tokens of `<a />`, with the given spacing of the punctuation tokens.
pub open spec fn self_closing_tokens(a: Seq<char>, sp: Seq<bool>) -> Seq<TokenView> {
    seq![
        TokenView::Punct('<', sp[0]),
        TokenView::Ident(a),
        TokenView::Punct('/', sp[1]),
        TokenView::Punct('>', sp[2]),
    ]
}

/// The tokens of `<a>`, with the given spacing of the punctuation tokens.
pub open spec fn open_tag_tokens(a: Seq<char>, sp: Seq<bool>) -> Seq<TokenView> {
    seq![TokenView::Punct('<', sp[0]), TokenView::Ident(a), TokenView::Punct('>', sp[1])]
}

/// The element `a` with no attributes and no children.
pub open spec fn empty_element(a: Seq<char>) -> NodeView {
    element_node(NameView::Path(false, seq![a]), Seq::empty(), Seq::empty())
}

/// `<a></a>` is one element named `a`, with no attributes and no children, in either mode.
pub proof fn empty_element_parses(a: Seq<char>, sp: Seq<bool>, flatten: bool)
    requires
        sp.len() == 5,
    ensures
        document(open_close_tokens(a, a, sp), flatten) == Ok::<Seq<NodeView>, ParseError>(seq![empty_element(a)]),
{
    let t = open_close_tokens(a, a, sp);
    reveal_with_fuel(crate::grammar::nodes_from, 2);
    reveal_with_fuel(crate::grammar::children, 2);
    reveal_with_fuel(crate::grammar::scan_tag_end, 2);
    bare_identifier_is_path(t, 1, 7, a);
    bare_identifier_is_path(t, 5, 7, a);
    assert(tag_close(t, 0) is None);
    assert(tag_close(t, 3) == Some((NameView::Path(false, seq![a]), 7int)));
    assert(scan_tag_end(t, 2, 7) == Some((2int, false, 3int)));
    assert(tag_open(t, 0) == Ok::<_, ParseError>((NameView::Path(false, seq![a]), Seq::<NodeView>::empty(), false, 3int)));
    assert(children(t, NameView::Path(false, seq![a]), 3, flatten) == Ok::<_, ParseError>((Seq::<NodeView>::empty(), 7int)));
    assert(element(t, 0, flatten) == Ok::<_, ParseError>((empty_element(a), 7int)));
    assert(crate::grammar::without_children(empty_element(a)) == empty_element(a));
    assert(seq![empty_element(a)] + empty_element(a).children =~= seq![empty_element(a)]);
    assert(node(t, 0, flatten) == Ok::<_, ParseError>((seq![empty_element(a)], 7int)));
    assert(seq![empty_element(a)] + Seq::<NodeView>::empty() =~= seq![empty_element(a)]);
}

/// `<a />` parses as `<a></a>` does.
pub proof fn self_closing_parses_as_open_close(a: Seq<char>, sp: Seq<bool>, sq: Seq<bool>, flatten: bool)
    requires
        sp.len() == 3,
        sq.len() == 5,
    ensures
        document(self_closing_tokens(a, sp), flatten) == document(open_close_tokens(a, a, sq), flatten),
{
    let t = self_closing_tokens(a, sp);
    empty_element_parses(a, sq, flatten);
    reveal_with_fuel(crate::grammar::nodes_from, 2);
    reveal_with_fuel(crate::grammar::scan_tag_end, 2);
    bare_identifier_is_path(t, 1, 4, a);
    assert(tag_close(t, 0) is None);
    assert(scan_tag_end(t, 2, 4) == Some((2int, true, 4int)));
    assert(tag_open(t, 0) == Ok::<_, ParseError>((NameView::Path(false, seq![a]), Seq::<NodeView>::empty(), true, 4int)));
    assert(element(t, 0, flatten) == Ok::<_, ParseError>((empty_element(a), 4int)));
    assert(crate::grammar::without_children(empty_element(a)) == empty_element(a));
    assert(seq![empty_element(a)] + empty_element(a).children =~= seq![empty_element(a)]);
    assert(node(t, 0, flatten) == Ok::<_, ParseError>((seq![empty_element(a)], 4int)));
    assert(seq![empty_element(a)] + Seq::<NodeView>::empty() =~= seq![empty_element(a)]);
}

/// `<a></b>`, with `a` and `b` different, fails on the close tag.
pub proof fn mismatched_close_tag_fails(a: Seq<char>, b: Seq<char>, sp: Seq<bool>, flatten: bool)
    requires
        sp.len() == 5,
        a != b,
    ensures
        document(open_close_tokens(a, b, sp), flatten) == Err::<Seq<NodeView>, ParseError>(ParseError::CloseTagWithoutOpenTag(3)),
{
    let t = open_close_tokens(a, b, sp);
    reveal_with_fuel(crate::grammar::nodes_from, 2);
    reveal_with_fuel(crate::grammar::children, 2);
    reveal_with_fuel(crate::grammar::scan_tag_end, 2);
    bare_identifier_is_path(t, 1, 7, a);
    bare_identifier_is_path(t, 5, 7, b);
    assert(seq![a] != seq![b]) by {
        assert(seq![a][0] != seq![b][0]);
    }
    assert(tag_close(t, 0) is None);
    assert(tag_close(t, 3) == Some((NameView::Path(false, seq![b]), 7int)));
    assert(scan_tag_end(t, 2, 7) == Some((2int, false, 3int)));
    assert(tag_open(t, 0) == Ok::<_, ParseError>((NameView::Path(false, seq![a]), Seq::<NodeView>::empty(), false, 3int)));
    assert(children(t, NameView::Path(false, seq![a]), 3, flatten) == Err::<(Seq<NodeView>, int), ParseError>(ParseError::CloseTagWithoutOpenTag(3)));
}

/// `<a>` with nothing after it fails for want of a close tag.
pub proof fn unclosed_element_fails(a: Seq<char>, sp: Seq<bool>, flatten: bool)
    requires
        sp.len() == 2,
    ensures
        document(open_tag_tokens(a, sp), flatten) == Err::<Seq<NodeView>, ParseError>(ParseError::OpenTagWithoutCloseTag(3)),
{
    let t = open_tag_tokens(a, sp);
    reveal_with_fuel(crate::grammar::nodes_from, 2);
    reveal_with_fuel(crate::grammar::scan_tag_end, 2);
    bare_identifier_is_path(t, 1, 3, a);
    assert(tag_close(t, 0) is None);
    assert(scan_tag_end(t, 2, 3) == Some((2int, false, 3int)));
    assert(tag_open(t, 0) == Ok::<_, ParseError>((NameView::Path(false, seq![a]), Seq::<NodeView>::empty(), false, 3int)));
    assert(children(t, NameView::Path(false, seq![a]), 3, flatten) == Err::<(Seq<NodeView>, int), ParseError>(ParseError::OpenTagWithoutCloseTag(3)));
}

/// Consecutive nodes: the `m`-th starts at `bounds[m]`, is no close tag, and parses as a
/// node that ends at `bounds[m + 1]`.
pub open spec fn node_chain(t: Seq<TokenView>, bounds: Seq<int>, flatten: bool) -> bool {
    &&& bounds.len() >= 1
    &&& forall|m: int| 0 <= m < bounds.len() - 1 ==> bounds[m] < bounds[m + 1] <= t.len()
        && tag_close(t, bounds[m]) is None
        && #[trigger] node(t, bounds[m], flatten) is Ok
        && node(t, bounds[m], flatten).unwrap().1 == bounds[m + 1]
}

proof fn lemma_children_chain(t: Seq<TokenView>, name: NameView, bounds: Seq<int>, flatten: bool, m: int)
    requires
        node_chain(t, bounds, flatten),
        0 <= m < bounds.len(),
        children(t, name, bounds.last(), flatten) is Err,
    ensures
        children(t, name, bounds[m], flatten) == children(t, name, bounds.last(), flatten),
    decreases bounds.len() - m,
{
    if m < bounds.len() - 1 {
        assert(node(t, bounds[m], flatten) is Ok);
        lemma_children_chain(t, name, bounds, flatten, m + 1);
    }
}

/// The tokens of `<a>`, then `content`.
pub open spec fn open_then(a: Seq<char>, content: Seq<TokenView>) -> Seq<TokenView> {
    seq![TokenView::Punct('<', false), TokenView::Ident(a), TokenView::Punct('>', false)] + content
}

/// The tokens of `</b>`.
pub open spec fn close_of(b: Seq<char>) -> Seq<TokenView> {
    seq![TokenView::Punct('<', false), TokenView::Punct('/', false), TokenView::Ident(b), TokenView::Punct('>', false)]
}

/// `<a>`, any well-formed nodes, then `</b>` with `b` not `a`: the parse fails on the close tag.
pub proof fn mismatched_close_tag_after_children_fails(a: Seq<char>, b: Seq<char>, content: Seq<TokenView>, bounds: Seq<int>, flatten: bool)
    requires
        a != b,
        node_chain(open_then(a, content) + close_of(b), bounds, flatten),
        bounds[0] == 3,
        bounds.last() == 3 + content.len(),
    ensures
        document(open_then(a, content) + close_of(b), flatten)
            == Err::<Seq<NodeView>, ParseError>(ParseError::CloseTagWithoutOpenTag((3 + content.len()) as usize)),
{
    let t = open_then(a, content) + close_of(b);
    let c = 3 + content.len() as int;
    let len = t.len() as int;
    assert(t[0] == TokenView::Punct('<', false) && t[1] == TokenView::Ident(a) && t[2] == TokenView::Punct('>', false));
    assert(t[c] == TokenView::Punct('<', false) && t[c + 1] == TokenView::Punct('/', false));
    assert(t[c + 2] == TokenView::Ident(b) && t[c + 3] == TokenView::Punct('>', false));
    reveal_with_fuel(crate::grammar::nodes_from, 2);
    reveal_with_fuel(crate::grammar::scan_tag_end, 2);
    bare_identifier_is_path(t, 1, len, a);
    bare_identifier_is_path(t, c + 2, len, b);
    assert(seq![a] != seq![b]) by {
        assert(seq![a][0] != seq![b][0]);
    }
    let na = NameView::Path(false, seq![a]);
    assert(tag_close(t, 0) is None);
    assert(tag_close(t, c) == Some((NameView::Path(false, seq![b]), c + 4)));
    assert(scan_tag_end(t, 2, len) == Some((2int, false, 3int)));
    assert(tag_open(t, 0) == Ok::<_, ParseError>((na, Seq::<NodeView>::empty(), false, 3int)));
    assert(children(t, na, c, flatten) == Err::<(Seq<NodeView>, int), ParseError>(ParseError::CloseTagWithoutOpenTag(c as usize)));
    lemma_children_chain(t, na, bounds, flatten, 0);
}

/// `<a>` followed by well-formed nodes up to the end of the input: the parse fails for want
/// of a close tag.
pub proof fn unclosed_element_after_children_fails(a: Seq<char>, content: Seq<TokenView>, bounds: Seq<int>, flatten: bool)
    requires
        node_chain(open_then(a, content), bounds, flatten),
        bounds[0] == 3,
        bounds.last() == 3 + content.len(),
    ensures
        document(open_then(a, content), flatten)
            == Err::<Seq<NodeView>, ParseError>(ParseError::OpenTagWithoutCloseTag((3 + content.len()) as usize)),
{
    let t = open_then(a, content);
    let len = t.len() as int;
    assert(t[0] == TokenView::Punct('<', false) && t[1] == TokenView::Ident(a) && t[2] == TokenView::Punct('>', false));
    reveal_with_fuel(crate::grammar::nodes_from, 2);
    reveal_with_fuel(crate::grammar::scan_tag_end, 2);
    bare_identifier_is_path(t, 1, len, a);
    let na = NameView::Path(false, seq![a]);
    assert(tag_close(t, 0) is None);
    assert(scan_tag_end(t, 2, len) == Some((2int, false, 3int)));
    assert(tag_open(t, 0) == Ok::<_, ParseError>((na, Seq::<NodeView>::empty(), false, 3int)));
    assert(children(t, na, len, flatten) == Err::<(Seq<NodeView>, int), ParseError>(ParseError::OpenTagWithoutCloseTag(len as usize)));
    lemma_children_chain(t, na, bounds, flatten, 0);
}

/// Every node of the sequence is without children.
pub open spec fn all_childless(s: Seq<NodeView>) -> bool {
    forall|k: int| 0 <= k < s.len() ==> (#[trigger] s[k]).children.len() == 0
}

proof fn lemma_childless_concat(a: Seq<NodeView>, b: Seq<NodeView>)
    requires
        all_childless(a),
        all_childless(b),
    ensures
        all_childless(a + b),
{
    assert forall|k: int| 0 <= k < (a + b).len() implies (#[trigger] (a + b)[k]).children.len() == 0 by {
        if k < a.len() {
            assert((a + b)[k] == a[k]);
        } else {
            assert((a + b)[k] == b[k - a.len()]);
        }
    }
}

/// No node of the sequence is an attribute node.
pub open spec fn no_attribute_nodes(s: Seq<NodeView>) -> bool {
    forall|k: int| 0 <= k < s.len() ==> (#[trigger] s[k]).node_type != NodeType::Attribute
}

proof fn lemma_no_attribute_concat(a: Seq<NodeView>, b: Seq<NodeView>)
    requires
        no_attribute_nodes(a),
        no_attribute_nodes(b),
    ensures
        no_attribute_nodes(a + b),
{
    assert forall|k: int| 0 <= k < (a + b).len() implies (#[trigger] (a + b)[k]).node_type != NodeType::Attribute by {
        if k < a.len() {
            assert((a + b)[k] == a[k]);
        } else {
            assert((a + b)[k] == b[k - a.len()]);
        }
    }
}

/// A node at `i` parses alike in both modes; flattened it is as many childless nodes
/// as its nested tree holds.
proof fn lemma_node_flat(t: Seq<TokenView>, i: int)
    ensures
        match (node(t, i, true), node(t, i, false)) {
            (Ok((f, k)), Ok((s, j))) => k == j && s.len() == 1 && f.len() == tree_size(s[0]) && all_childless(f)
                && f == tree_preorder(s[0]) && no_attribute_nodes(f),
            (Err(e), Err(g)) => e == g,
            _ => false,
        },
    decreases t.len() - i, 2int,
{
    lemma_total_empty();
    if text_at(t, i) || block_at(t, i, t.len() as int) {
        let f = node(t, i, true).unwrap().0;
        assert(f.len() == 1);
        assert(all_childless(f));
    } else {
        lemma_element_flat(t, i);
        match (element(t, i, true), element(t, i, false)) {
            (Ok((nf, k)), Ok((nn, j))) => {
                let f = seq![without_children(nf)] + nf.children;
                assert(node(t, i, true) == Ok::<_, ParseError>((f, k)));
                lemma_childless_concat(seq![without_children(nf)], nf.children);
                lemma_no_attribute_concat(seq![without_children(nf)], nf.children);
                assert(node(t, i, false) == Ok::<_, ParseError>((seq![nn], k)));
            },
            _ => {},
        }
    }
}

/// An element at `i` parses alike in both modes; flattened, its children are as many
/// childless nodes as its nested children's trees hold.
proof fn lemma_element_flat(t: Seq<TokenView>, i: int)
    ensures
        match (element(t, i, true), element(t, i, false)) {
            (Ok((nf, k)), Ok((nn, j))) => k == j && nf.children.len() == total_size(nn.children)
                && all_childless(nf.children) && without_children(nf) == without_children(nn)
                && nf.children == preorder(nn.children) && no_attribute_nodes(nf.children)
                && nf.node_type == NodeType::Element,
            (Err(e), Err(g)) => e == g,
            _ => false,
        },
    decreases t.len() - i, 1int,
{
    lemma_total_empty();
    if tag_close(t, i) is None {
        match tag_open(t, i) {
            Ok((n, attrs, sc, p)) => {
                if !sc && !(p <= i || p > t.len()) {
                    lemma_children_flat(t, n, p);
                }
            },
            Err(_) => {},
        }
    }
}

/// The children from `i` parse alike in both modes; flattened, they are as many
/// childless nodes as the nested children's trees hold.
proof fn lemma_children_flat(t: Seq<TokenView>, name: NameView, i: int)
    ensures
        match (children(t, name, i, true), children(t, name, i, false)) {
            (Ok((cf, q)), Ok((cn, r))) => q == r && cf.len() == total_size(cn) && all_childless(cf)
                && cf == preorder(cn) && no_attribute_nodes(cf),
            (Err(e), Err(g)) => e == g,
            _ => false,
        },
    decreases t.len() - i, 3int,
{
    lemma_total_empty();
    if i < t.len() && tag_close(t, i) is None {
        lemma_node_flat(t, i);
        match (node(t, i, true), node(t, i, false)) {
            (Ok((f, k)), Ok((s, j))) => {
                if !(k <= i || k > t.len()) {
                    lemma_children_flat(t, name, k);
                    match (children(t, name, k, true), children(t, name, k, false)) {
                        (Ok((cf, q)), Ok((cn, r))) => {
                            lemma_total_concat(s, cn);
                            assert(s == seq![s[0]]);
                            lemma_total_single(s[0]);
                            lemma_childless_concat(f, cf);
                            lemma_no_attribute_concat(f, cf);
                            lemma_preorder_concat(s, cn);
                            lemma_preorder_single(s[0]);
                        },
                        _ => {},
                    }
                }
            },
            _ => {},
        }
    }
}

/// The nodes from `i` parse alike in both modes; flattened, they are as many childless
/// nodes as the nested trees hold.
proof fn lemma_nodes_from_flat(t: Seq<TokenView>, i: int)
    ensures
        match (nodes_from(t, i, true), nodes_from(t, i, false)) {
            (Ok(f), Ok(s)) => f.len() == total_size(s) && all_childless(f) && f == preorder(s)
                && no_attribute_nodes(f),
            (Err(e), Err(g)) => e == g,
            _ => false,
        },
    decreases t.len() - i,
{
    lemma_total_empty();
    if i < t.len() {
        lemma_node_flat(t, i);
        match (node(t, i, true), node(t, i, false)) {
            (Ok((f, k)), Ok((s, j))) => {
                if !(k <= i || k > t.len()) {
                    lemma_nodes_from_flat(t, k);
                    match (nodes_from(t, k, true), nodes_from(t, k, false)) {
                        (Ok(rf), Ok(rn)) => {
                            lemma_total_concat(s, rn);
                            assert(s == seq![s[0]]);
                            lemma_total_single(s[0]);
                            lemma_childless_concat(f, rf);
                            lemma_no_attribute_concat(f, rf);
                            lemma_preorder_concat(s, rn);
                            lemma_preorder_single(s[0]);
                        },
                        _ => {},
                    }
                }
            },
            _ => {},
        }
    }
}

/// Flattening changes neither whether a document parses nor the error it gives; the flat
/// list is the nested trees in pre-order, each node without its children but with its
/// attributes, so it holds exactly as many nodes as the nested trees (counting children,
/// not attributes); none of them keeps children, and none is an attribute node.
pub proof fn flatten_keeps_node_count(t: Seq<TokenView>)
    ensures
        match (document(t, true), document(t, false)) {
            (Ok(f), Ok(s)) => f.len() == total_size(s) && all_childless(f) && f == preorder(s)
                && no_attribute_nodes(f),
            (Err(e), Err(g)) => e == g,
            _ => false,
        },
{
    lemma_nodes_from_flat(t, 0);
}

/// Two token sequences that agree before `end`.
pub open spec fn agree_before(t1: Seq<TokenView>, t2: Seq<TokenView>, end: int) -> bool {
    &&& end <= t1.len()
    &&& end <= t2.len()
    &&& forall|k: int| 0 <= k < end ==> #[trigger] t1[k] == t2[k]
}

proof fn lemma_punctuated_frame(t1: Seq<TokenView>, t2: Seq<TokenView>, i: int, end: int, c: char)
    requires
        agree_before(t1, t2, end),
    ensures
        punctuated(t1, i, end, c) == punctuated(t2, i, end, c),
    decreases end - i,
{
    if ident_at(t1, i, end) is Some && punct_at(t1, i + 1, end, c) && ident_at(t1, i + 2, end) is Some {
        lemma_punctuated_frame(t1, t2, i + 2, end, c);
    }
}

proof fn lemma_path_segments_frame(t1: Seq<TokenView>, t2: Seq<TokenView>, i: int, end: int)
    requires
        agree_before(t1, t2, end),
    ensures
        path_segments(t1, i, end) == path_segments(t2, i, end),
    decreases end - i,
{
    if ident_at(t1, i, end) is Some && colon2_at(t1, i + 1, end) {
        lemma_path_segments_frame(t1, t2, i + 3, end);
    }
}

proof fn lemma_node_name_frame(t1: Seq<TokenView>, t2: Seq<TokenView>, i: int, end: int)
    requires
        agree_before(t1, t2, end),
    ensures
        node_name(t1, i, end) == node_name(t2, i, end),
{
    lemma_punctuated_frame(t1, t2, i, end, '-');
    lemma_punctuated_frame(t1, t2, i, end, ':');
    lemma_path_segments_frame(t1, t2, i, end);
    lemma_path_segments_frame(t1, t2, i + 2, end);
}

proof fn lemma_span_text_frame(t1: Seq<TokenView>, t2: Seq<TokenView>, i: int, k: int, end: int)
    requires
        agree_before(t1, t2, end),
        0 <= i,
        k <= end,
    ensures
        span_text(t1, i, k) == span_text(t2, i, k),
    decreases k - i,
{
    if k > i {
        lemma_span_text_frame(t1, t2, i, k - 1, end);
    }
}

proof fn lemma_longest_expr_frame(t1: Seq<TokenView>, t2: Seq<TokenView>, i: int, k: int, end: int)
    requires
        agree_before(t1, t2, end),
        0 <= i,
        k <= end,
    ensures
        longest_expr(t1, i, k) == longest_expr(t2, i, k),
    decreases k - i,
{
    if k > i {
        lemma_span_text_frame(t1, t2, i, k, end);
        lemma_longest_expr_frame(t1, t2, i, k - 1, end);
    }
}

proof fn lemma_longest_expr_bounds(t: Seq<TokenView>, i: int, k: int)
    ensures
        longest_expr(t, i, k) matches Some(j) ==> i < j <= k,
    decreases k - i,
{
    if k > i {
        lemma_longest_expr_bounds(t, i, k - 1);
    }
}

proof fn lemma_attribute_frame(t1: Seq<TokenView>, t2: Seq<TokenView>, i: int, end: int)
    requires
        agree_before(t1, t2, end),
        0 <= i,
    ensures
        attribute(t1, i, end) == attribute(t2, i, end),
{
    lemma_node_name_frame(t1, t2, i, end);
    match node_name(t1, i, end) {
        Ok((n, p)) => {
            if p + 1 >= 0 {
                lemma_longest_expr_frame(t1, t2, p + 1, end, end);
                lemma_longest_expr_bounds(t1, p + 1, end);
            }
            if 0 <= p + 1 < end {
                assert(t1[p + 1] == t2[p + 1]);
            }
            assert(value_end(t1, p + 1, end) == value_end(t2, p + 1, end));
            match value_end(t1, p + 1, end) {
                Some(k) => {
                    if 0 <= p + 1 <= k <= end {
                        assert(t1.subrange(p + 1, k) =~= t2.subrange(p + 1, k));
                    }
                },
                None => {},
            }
        },
        Err(_) => {},
    }
}

proof fn lemma_attribute_run_frame(t1: Seq<TokenView>, t2: Seq<TokenView>, i: int, end: int)
    requires
        agree_before(t1, t2, end),
        0 <= i,
    ensures
        attribute_run(t1, i, end) == attribute_run(t2, i, end),
    decreases end - i,
{
    if i < end {
        lemma_attribute_frame(t1, t2, i, end);
        match attribute(t1, i, end) {
            Some((a, k)) => if i < k <= end {
                lemma_attribute_run_frame(t1, t2, k, end);
            },
            None => {},
        }
    }
}

/// The tokens of `<a` and then `attrs`.
pub open spec fn open_tag_start(a: Seq<char>, attrs: Seq<TokenView>) -> Seq<TokenView> {
    seq![TokenView::Punct('<', false), TokenView::Ident(a)] + attrs
}

/// No token of `attrs` is `/` or `>`, and it does not start with `-` or `:`.
pub open spec fn plain_attribute_span(attrs: Seq<TokenView>) -> bool {
    &&& forall|k: int| 0 <= k < attrs.len() ==> !(#[trigger] attrs[k] is Punct && (
        attrs[k]->Punct_0 == '/' || attrs[k]->Punct_0 == '>'))
    &&& attrs.len() > 0 ==> !(attrs[0] is Punct && (attrs[0]->Punct_0 == '-' || attrs[0]->Punct_0 == ':'))
}

/// `<a attrs />` parses as `<a attrs></a>` does, for any attribute tokens that hold no
/// `/` or `>` (where one does, the open tag would end there) and do not begin by
/// extending the name with `-` or `:`.
pub proof fn self_closing_with_attributes_parses_as_open_close(a: Seq<char>, attrs: Seq<TokenView>, flatten: bool)
    requires
        plain_attribute_span(attrs),
    ensures
        document(open_tag_start(a, attrs) + seq![TokenView::Punct('/', true), TokenView::Punct('>', false)], flatten)
            == document(open_tag_start(a, attrs) + seq![
                TokenView::Punct('>', true),
                TokenView::Punct('<', true),
                TokenView::Punct('/', false),
                TokenView::Ident(a),
                TokenView::Punct('>', false),
            ], flatten),
{
    let pre = open_tag_start(a, attrs);
    let n = attrs.len() as int;
    let t1 = pre + seq![TokenView::Punct('/', true), TokenView::Punct('>', false)];
    let t2 = pre + seq![
        TokenView::Punct('>', true),
        TokenView::Punct('<', true),
        TokenView::Punct('/', false),
        TokenView::Ident(a),
        TokenView::Punct('>', false),
    ];
    let name = NameView::Path(false, seq![a]);
    assert(agree_before(t1, t2, n + 2)) by {
        assert forall|k: int| 0 <= k < n + 2 implies #[trigger] t1[k] == t2[k] by {
            assert(t1[k] == pre[k]);
            assert(t2[k] == pre[k]);
        }
    }
    assert forall|k: int| 2 <= k < n + 2 implies tag_open_end(t1, k, t1.len() as int) is None
        && tag_open_end(t2, k, t2.len() as int) is None by {
        assert(t1[k] == attrs[k - 2]);
        assert(t2[k] == attrs[k - 2]);
        if k + 1 < n + 2 {
            assert(t1[k + 1] == attrs[k - 1]);
            assert(t2[k + 1] == attrs[k - 1]);
        }
    }
    lemma_scan_past(t1, 2, n + 2);
    lemma_scan_past(t2, 2, n + 2);
    assert(scan_tag_end(t1, n + 2, t1.len() as int) == Some((n + 2, true, n + 4)));
    assert(scan_tag_end(t2, n + 2, t2.len() as int) == Some((n + 2, false, n + 3)));
    bare_identifier_is_path(t1, 1, t1.len() as int, a);
    bare_identifier_is_path(t2, 1, t2.len() as int, a);
    lemma_attribute_run_frame(t1, t2, 2, n + 2);
    assert(attributes(t1, 2, n + 2) == attributes(t2, 2, n + 2));
    assert(tag_close(t1, 0) is None);
    assert(tag_close(t2, 0) is None);
    bare_identifier_is_path(t2, n + 5, t2.len() as int, a);
    assert(tag_close(t2, n + 3) == Some((name, n + 7)));
    reveal_with_fuel(crate::grammar::children, 2);
    reveal_with_fuel(crate::grammar::nodes_from, 2);
    match attributes(t1, 2, n + 2) {
        Ok(at) => {
            assert(tag_open(t1, 0) == Ok::<_, ParseError>((name, at, true, n + 4)));
            assert(tag_open(t2, 0) == Ok::<_, ParseError>((name, at, false, n + 3)));
            assert(children(t2, name, n + 3, flatten) == Ok::<_, ParseError>((Seq::<NodeView>::empty(), n + 7)));
            let el = element_node(name, at, Seq::empty());
            assert(element(t1, 0, flatten) == Ok::<_, ParseError>((el, n + 4)));
            assert(element(t2, 0, flatten) == Ok::<_, ParseError>((el, n + 7)));
            assert(without_children(el) == el);
            assert(seq![el] + el.children =~= seq![el]);
            assert(seq![el] + Seq::<NodeView>::empty() =~= seq![el]);
        },
        Err(e) => {
            assert(tag_open(t1, 0) == Err::<(NameView, Seq<NodeView>, bool, int), ParseError>(e));
            assert(tag_open(t2, 0) == Err::<(NameView, Seq<NodeView>, bool, int), ParseError>(e));
        },
    }
}

/// `<a attrs />` followed by any tokens gives the same element as `<a attrs></a>` followed
/// by the same tokens, or the same error, and each ends where its tag does; the attribute
/// tokens are as in `self_closing_with_attributes_parses_as_open_close`.
pub proof fn self_closing_element_is_open_close_element(a: Seq<char>, attrs: Seq<TokenView>, rest: Seq<TokenView>, flatten: bool)
    requires
        plain_attribute_span(attrs),
    ensures
        ({
            let t1 = open_tag_start(a, attrs) + seq![TokenView::Punct('/', true), TokenView::Punct('>', false)] + rest;
            let t2 = open_tag_start(a, attrs) + seq![
                TokenView::Punct('>', true),
                TokenView::Punct('<', true),
                TokenView::Punct('/', false),
                TokenView::Ident(a),
                TokenView::Punct('>', false),
            ] + rest;
            match (element(t1, 0, flatten), element(t2, 0, flatten)) {
                (Ok((e1, k1)), Ok((e2, k2))) => e1 == e2 && e1.children.len() == 0 && k1 == attrs.len() + 4
                    && k2 == attrs.len() + 7,
                (Err(x), Err(y)) => x == y,
                _ => false,
            }
        }),
{
    let pre = open_tag_start(a, attrs);
    let n = attrs.len() as int;
    let t1 = pre + seq![TokenView::Punct('/', true), TokenView::Punct('>', false)] + rest;
    let t2 = pre + seq![
        TokenView::Punct('>', true),
        TokenView::Punct('<', true),
        TokenView::Punct('/', false),
        TokenView::Ident(a),
        TokenView::Punct('>', false),
    ] + rest;
    let name = NameView::Path(false, seq![a]);
    assert(t1[n + 2] == TokenView::Punct('/', true));
    assert(t1[n + 3] == TokenView::Punct('>', false));
    assert(t2[n + 2] == TokenView::Punct('>', true));
    assert(t2[n + 3] == TokenView::Punct('<', true));
    assert(t2[n + 4] == TokenView::Punct('/', false));
    assert(t2[n + 5] == TokenView::Ident(a));
    assert(t2[n + 6] == TokenView::Punct('>', false));
    assert(t1[0] == TokenView::Punct('<', false) && t2[0] == TokenView::Punct('<', false));
    assert(t1[1] == TokenView::Ident(a) && t2[1] == TokenView::Ident(a));
    assert(agree_before(t1, t2, n + 2)) by {
        assert forall|k: int| 0 <= k < n + 2 implies #[trigger] t1[k] == t2[k] by {
            assert(t1[k] == pre[k]);
            assert(t2[k] == pre[k]);
        }
    }
    assert forall|k: int| 2 <= k < n + 2 implies tag_open_end(t1, k, t1.len() as int) is None
        && tag_open_end(t2, k, t2.len() as int) is None by {
        assert(t1[k] == attrs[k - 2]);
        assert(t2[k] == attrs[k - 2]);
        if k + 1 < n + 2 {
            assert(t1[k + 1] == attrs[k - 1]);
            assert(t2[k + 1] == attrs[k - 1]);
        }
    }
    lemma_scan_past(t1, 2, n + 2);
    lemma_scan_past(t2, 2, n + 2);
    assert(scan_tag_end(t1, n + 2, t1.len() as int) == Some((n + 2, true, n + 4)));
    assert(scan_tag_end(t2, n + 2, t2.len() as int) == Some((n + 2, false, n + 3)));
    if n > 0 {
        assert(t1[2] == attrs[0] && t2[2] == attrs[0]);
    }
    bare_identifier_is_path(t1, 1, t1.len() as int, a);
    bare_identifier_is_path(t2, 1, t2.len() as int, a);
    lemma_attribute_run_frame(t1, t2, 2, n + 2);
    assert(tag_close(t1, 0) is None);
    assert(tag_close(t2, 0) is None);
    bare_identifier_is_path(t2, n + 5, t2.len() as int, a);
    assert(tag_close(t2, n + 3) == Some((name, n + 7)));
    match attributes(t1, 2, n + 2) {
        Ok(at) => {
            assert(tag_open(t1, 0) == Ok::<_, ParseError>((name, at, true, n + 4)));
            assert(tag_open(t2, 0) == Ok::<_, ParseError>((name, at, false, n + 3)));
            assert(children(t2, name, n + 3, flatten) == Ok::<_, ParseError>((Seq::<NodeView>::empty(), n + 7)));
        },
        Err(e) => {
            assert(tag_open(t1, 0) == Err::<(NameView, Seq<NodeView>, bool, int), ParseError>(e));
            assert(tag_open(t2, 0) == Err::<(NameView, Seq<NodeView>, bool, int), ParseError>(e));
        },
    }
}

/// Scanning for an open tag's end passes over indices where none stands.
proof fn lemma_scan_past(t: Seq<TokenView>, i: int, j: int)
    requires
        i <= j < t.len(),
        forall|k: int| i <= k < j ==> tag_open_end(t, k, t.len() as int) is None,
    ensures
        scan_tag_end(t, i, t.len() as int) == scan_tag_end(t, j, t.len() as int),
    decreases j - i,
{
    if i < j {
        lemma_scan_past(t, i + 1, j);
    }
}

} // verus!
