//! The parser: each grammar rule as an executable function, proved equal to its spec.
use crate::grammar::{
    attribute, attribute_run, attributes, block_at, block_parses, children, colon2_at, document,
    element, expr_parses, ident_at, leaf_node, node, node_name, nodes_from, path_segments,
    punct_at, punct_name, punctuated, scan_tag_end, tag_close, tag_open, tag_open_end, text_at,
    longest_expr, span_text, token_piece, value_end, without_children, ParseError,
};
use crate::node::{strings_view, NameView, Node, NodeName, NodeType, NodeView, nodes_view};
use crate::token::{tokens_view, Delimiter, Token};
use vstd::prelude::*;

verus! {

/// Relies on `syn::parse_str::<syn::ExprBlock>`: whether the text lexes and parses,
/// with nothing left over, as a block expression.
#[verifier::external_body]
fn parses_as_block(s: &str) -> (r: bool)
    ensures
        r == block_parses(s@),
{
    syn::parse_str::<syn::ExprBlock>(s).is_ok()
}

/// Relies on `syn::parse_str::<syn::Expr>`: whether the text lexes and parses,
/// with nothing left over, as an expression.
#[verifier::external_body]
fn parses_as_expr(s: &str) -> (r: bool)
    ensures
        r == expr_parses(s@),
{
    syn::parse_str::<syn::Expr>(s).is_ok()
}

/// Whether the token at `i`, before `end`, is the punctuation character `c`.
fn is_punct(toks: &Vec<Token>, i: usize, end: usize, c: char) -> (r: bool)
    requires
        end <= toks@.len(),
    ensures
        r == punct_at(tokens_view(toks@), i as int, end as int, c),
{
    if i < end {
        match &toks[i] {
            Token::Punct(d, _) => *d == c,
            _ => false,
        }
    } else {
        false
    }
}

/// Whether the tokens at `i`, before `end`, are a joined `::`.
fn is_colon2(toks: &Vec<Token>, i: usize, end: usize) -> (r: bool)
    requires
        end <= toks@.len(),
    ensures
        r == colon2_at(tokens_view(toks@), i as int, end as int),
{
    if i < end && i < usize::MAX {
        match &toks[i] {
            Token::Punct(d, j) => *d == ':' && *j && is_punct(toks, i + 1, end, ':'),
            _ => false,
        }
    } else {
        false
    }
}

/// The identifier at `i`, before `end`, if there is one.
fn ident(toks: &Vec<Token>, i: usize, end: usize) -> (r: Option<String>)
    requires
        end <= toks@.len(),
    ensures
        match (r, ident_at(tokens_view(toks@), i as int, end as int)) {
            (Some(s), Some(t)) => s@ == t,
            (None, None) => true,
            _ => false,
        },
{
    if i < end {
        match &toks[i] {
            Token::Ident(s) => Some(s.clone()),
            _ => None,
        }
    } else {
        None
    }
}

/// `s` followed by the strings of `rest`.
fn prepend_string(s: String, rest: Vec<String>) -> (v: Vec<String>)
    ensures
        strings_view(v@) == seq![s@] + strings_view(rest@),
{
    let ghost old_rest = rest@;
    let mut v: Vec<String> = Vec::new();
    v.push(s);
    let mut rest = rest;
    v.append(&mut rest);
    assert(strings_view(v@) =~= seq![s@] + strings_view(old_rest));
    v
}

/// Identifiers separated by `c`, as many as follow `i`.
fn punctuated_idents(toks: &Vec<Token>, i: usize, end: usize, c: char) -> (r: (Vec<String>, usize))
    requires
        end <= toks@.len(),
    ensures
        strings_view(r.0@) == punctuated(tokens_view(toks@), i as int, end as int, c).0,
        r.1 == punctuated(tokens_view(toks@), i as int, end as int, c).1,
        r.0@.len() > 0 ==> i < r.1 <= end,
    decreases end - i,
{
    match ident(toks, i, end) {
        Some(s) => {
            if is_punct(toks, i + 1, end, c) && ident(toks, i + 2, end).is_some() {
                let (rest, k) = punctuated_idents(toks, i + 2, end, c);
                (prepend_string(s, rest), k)
            } else {
                let v = prepend_string(s, Vec::new());
                (v, i + 1)
            }
        },
        None => {
            let v: Vec<String> = Vec::new();
            assert(strings_view(v@) =~= Seq::<Seq<char>>::empty());
            (v, i)
        },
    }
}

/// A name of two or more identifiers joined by `c`.
fn punct_node_name(toks: &Vec<Token>, i: usize, end: usize, c: char) -> (r: Option<(Vec<String>, usize)>)
    requires
        end <= toks@.len(),
    ensures
        match (r, punct_name(tokens_view(toks@), i as int, end as int, c)) {
            (Some((v, k)), Some((s, j))) => strings_view(v@) == s && k == j && i < k <= end,
            (None, None) => true,
            _ => false,
        },
{
    let (v, k) = punctuated_idents(toks, i, end, c);
    if v.len() > 1 {
        Some((v, k))
    } else {
        None
    }
}

/// One or more identifiers joined by `::`.
fn path_segs(toks: &Vec<Token>, i: usize, end: usize) -> (r: Option<(Vec<String>, usize)>)
    requires
        end <= toks@.len(),
    ensures
        match (r, path_segments(tokens_view(toks@), i as int, end as int)) {
            (Some((v, k)), Some((s, j))) => strings_view(v@) == s && k == j && i < k <= end,
            (None, None) => true,
            _ => false,
        },
    decreases end - i,
{
    match ident(toks, i, end) {
        Some(s) => {
            if is_colon2(toks, i + 1, end) {
                match path_segs(toks, i + 3, end) {
                    Some((rest, k)) => Some((prepend_string(s, rest), k)),
                    None => None,
                }
            } else {
                Some((prepend_string(s, Vec::new()), i + 1))
            }
        },
        None => None,
    }
}

/// The exec name matches the spec name, and the index after it too.
pub open spec fn name_result(r: Result<(NodeName, usize), ParseError>, s: Result<(NameView, int), ParseError>) -> bool {
    match (r, s) {
        (Ok((n, k)), Ok((m, j))) => n@ == m && k == j,
        (Err(e), Err(f)) => e == f,
        _ => false,
    }
}

/// A node name at `i`: the dash form, else the colon form, else the path form.
fn parse_node_name(toks: &Vec<Token>, i: usize, end: usize) -> (r: Result<(NodeName, usize), ParseError>)
    requires
        end <= toks@.len(),
    ensures
        name_result(r, node_name(tokens_view(toks@), i as int, end as int)),
        r matches Ok((_, k)) ==> i < k <= end,
{
    if let Some((v, k)) = punct_node_name(toks, i, end, '-') {
        return Ok((NodeName::Dash(v), k));
    }
    if let Some((v, k)) = punct_node_name(toks, i, end, ':') {
        return Ok((NodeName::Colon(v), k));
    }
    let lead = is_colon2(toks, i, end);
    let start = if lead { i + 2 } else { i };
    match path_segs(toks, start, end) {
        Some((v, k)) => Ok((NodeName::Path(lead, v), k)),
        None => Err(ParseError::InvalidNodeName(i)),
    }
}

proof fn lemma_node_view(n: Node)
    ensures
        n.view().attributes == nodes_view(n.attributes@),
        n.view().children == nodes_view(n.children@),
{
    assert(n.view().attributes =~= nodes_view(n.attributes@));
    assert(n.view().children =~= nodes_view(n.children@));
}

proof fn lemma_nodes_view_empty(v: Vec<Node>)
    requires
        v@.len() == 0,
    ensures
        nodes_view(v@) == Seq::<NodeView>::empty(),
{
    assert(nodes_view(v@) =~= Seq::<NodeView>::empty());
}

/// `a` followed by the nodes of `rest`.
fn prepend_node(a: Node, rest: Vec<Node>) -> (v: Vec<Node>)
    ensures
        nodes_view(v@) == seq![a.view()] + nodes_view(rest@),
{
    let ghost old_rest = rest@;
    let mut v: Vec<Node> = Vec::new();
    v.push(a);
    let mut rest = rest;
    v.append(&mut rest);
    assert(nodes_view(v@) =~= seq![a.view()] + nodes_view(old_rest));
    v
}

/// The nodes of `a` followed by those of `b`.
fn concat_nodes(a: Vec<Node>, b: Vec<Node>) -> (v: Vec<Node>)
    ensures
        nodes_view(v@) == nodes_view(a@) + nodes_view(b@),
{
    let ghost (oa, ob) = (a@, b@);
    let mut a = a;
    let mut b = b;
    a.append(&mut b);
    assert(nodes_view(a@) =~= nodes_view(oa) + nodes_view(ob));
    a
}

/// The end of an open tag at `i`, `>` or `/>`: whether the tag closes itself.
fn parse_tag_open_end(toks: &Vec<Token>, i: usize, end: usize) -> (r: Option<(bool, usize)>)
    requires
        end <= toks@.len(),
    ensures
        match (r, tag_open_end(tokens_view(toks@), i as int, end as int)) {
            (Some((a, k)), Some((b, j))) => a == b && k == j && i < k <= end,
            (None, None) => true,
            _ => false,
        },
{
    if is_punct(toks, i, end, '/') {
        if is_punct(toks, i + 1, end, '>') {
            Some((true, i + 2))
        } else {
            None
        }
    } else if is_punct(toks, i, end, '>') {
        Some((false, i + 1))
    } else {
        None
    }
}

/// The first index from `i` on where an open tag's end stands.
fn scan_open_end(toks: &Vec<Token>, i: usize, end: usize) -> (r: Option<(usize, bool, usize)>)
    requires
        end <= toks@.len(),
        i <= end,
    ensures
        match (r, scan_tag_end(tokens_view(toks@), i as int, end as int)) {
            (Some((b, a, k)), Some((c, d, j))) => b == c && a == d && k == j && i <= b < k <= end,
            (None, None) => true,
            _ => false,
        },
    decreases end - i,
{
    match parse_tag_open_end(toks, i, end) {
        Some((sc, k)) => Some((i, sc, k)),
        None => if i < end {
            scan_open_end(toks, i + 1, end)
        } else {
            None
        },
    }
}

/// Relies on `char::to_string`: the one-character string.
#[verifier::external_body]
fn char_text(c: char) -> (r: String)
    ensures
        r@ == seq![c],
{
    c.to_string()
}

/// A token as it is written out: its text, then a space unless it is joined punctuation.
fn token_piece_of(t: &Token) -> (r: String)
    ensures
        r@ == token_piece(t@),
{
    let mut out = match t {
        Token::Ident(s) => s.clone(),
        Token::Punct(c, _) => char_text(*c),
        Token::Literal(s) => s.clone(),
        Token::Group(_, s) => s.clone(),
    };
    let joined = match t {
        Token::Punct(_, j) => *j,
        _ => false,
    };
    if !joined {
        out.append(" ");
        proof {
            reveal_strlit(" ");
        }
    }
    out
}

/// The tokens `[i, k)` written out.
fn span_text_of(toks: &Vec<Token>, i: usize, k: usize) -> (r: String)
    requires
        i <= k <= toks@.len(),
    ensures
        r@ == span_text(tokens_view(toks@), i as int, k as int),
{
    let ghost tv = tokens_view(toks@);
    let mut out = String::new();
    let mut j: usize = i;
    while j < k
        invariant
            i <= j <= k <= toks@.len(),
            tv == tokens_view(toks@),
            out@ == span_text(tv, i as int, j as int),
        decreases k - j,
    {
        let piece = token_piece_of(&toks[j]);
        out.append(piece.as_str());
        j = j + 1;
    }
    out
}

/// The largest `j` with `i < j <= k` for which the tokens `[i, j)` are an expression.
fn longest_expr_end(toks: &Vec<Token>, i: usize, k: usize) -> (r: Option<usize>)
    requires
        i <= k <= toks@.len(),
    ensures
        match r {
            Some(j) => longest_expr(tokens_view(toks@), i as int, k as int) == Some(j as int) && i < j <= k,
            None => longest_expr(tokens_view(toks@), i as int, k as int) is None,
        },
{
    let ghost tv = tokens_view(toks@);
    let mut j: usize = k;
    while j > i
        invariant
            i <= j <= k <= toks@.len(),
            tv == tokens_view(toks@),
            longest_expr(tv, i as int, k as int) == longest_expr(tv, i as int, j as int),
        decreases j,
    {
        let text = span_text_of(toks, i, j);
        if parses_as_expr(text.as_str()) {
            return Some(j);
        }
        j = j - 1;
    }
    None
}

/// Where an attribute value from `i` ends.
fn value_end_of(toks: &Vec<Token>, i: usize, end: usize) -> (r: Option<usize>)
    requires
        end <= toks@.len(),
    ensures
        match r {
            Some(j) => value_end(tokens_view(toks@), i as int, end as int) == Some(j as int) && i < j <= end,
            None => value_end(tokens_view(toks@), i as int, end as int) is None,
        },
{
    if i >= end {
        return None;
    }
    match &toks[i] {
        Token::Group(Delimiter::Brace, s) => if parses_as_block(s.as_str()) {
            Some(i + 1)
        } else {
            None
        },
        _ => longest_expr_end(toks, i, end),
    }
}

/// Copies of the tokens `[i, k)`.
fn copy_span(toks: &Vec<Token>, i: usize, k: usize) -> (r: Vec<Token>)
    requires
        i <= k <= toks@.len(),
    ensures
        tokens_view(r@) == tokens_view(toks@).subrange(i as int, k as int),
{
    let mut out: Vec<Token> = Vec::new();
    let mut j: usize = i;
    while j < k
        invariant
            i <= j <= k <= toks@.len(),
            tokens_view(out@) =~= tokens_view(toks@).subrange(i as int, j as int),
        decreases k - j,
    {
        let t = toks[j].copy();
        let ghost before = out@;
        out.push(t);
        proof {
            assert(out@ == before.push(t));
            assert(tokens_view(out@) =~= tokens_view(before).push(t@));
            assert(tokens_view(toks@).subrange(i as int, j as int + 1) =~= tokens_view(toks@).subrange(i as int, j as int).push(toks@[j as int]@));
        }
        j = j + 1;
    }
    out
}

/// One attribute at `i`: a name, then optionally `=` and a value.
fn parse_attribute(toks: &Vec<Token>, i: usize, end: usize) -> (r: Option<(Node, usize)>)
    requires
        end <= toks@.len(),
    ensures
        match (r, attribute(tokens_view(toks@), i as int, end as int)) {
            (Some((a, k)), Some((b, j))) => a.view() == b && k == j && i < k <= end,
            (None, None) => true,
            _ => false,
        },
{
    let (name, p) = match parse_node_name(toks, i, end) {
        Ok(r) => r,
        Err(_) => return None,
    };
    let (value, k) = if is_punct(toks, p, end, '=') {
        match value_end_of(toks, p + 1, end) {
            Some(k) => (Some(copy_span(toks, p + 1, k)), k),
            None => return None,
        }
    } else {
        (None, p)
    };
    let a = Node {
        name: Some(name),
        value,
        node_type: NodeType::Attribute,
        attributes: Vec::new(),
        children: Vec::new(),
    };
    proof {
        lemma_node_view(a);
        lemma_nodes_view_empty(a.attributes);
        lemma_nodes_view_empty(a.children);
    }
    Some((a, k))
}

/// Attributes, as many as follow one another from `i`.
fn parse_attribute_run(toks: &Vec<Token>, i: usize, end: usize) -> (r: (Vec<Node>, usize))
    requires
        end <= toks@.len(),
        i <= end,
    ensures
        nodes_view(r.0@) == attribute_run(tokens_view(toks@), i as int, end as int).0,
        r.1 == attribute_run(tokens_view(toks@), i as int, end as int).1,
    decreases end - i,
{
    if i >= end {
        let v: Vec<Node> = Vec::new();
        proof {
            lemma_nodes_view_empty(v);
        }
        return (v, i);
    }
    match parse_attribute(toks, i, end) {
        Some((a, k)) => {
            let (rest, q) = parse_attribute_run(toks, k, end);
            (prepend_node(a, rest), q)
        },
        None => {
            let v: Vec<Node> = Vec::new();
            proof {
                lemma_nodes_view_empty(v);
            }
            (v, i)
        },
    }
}

/// The attribute list of an open tag, which must take up the whole span `[i, end)`.
fn parse_attributes(toks: &Vec<Token>, i: usize, end: usize) -> (r: Result<Vec<Node>, ParseError>)
    requires
        end <= toks@.len(),
        i <= end,
    ensures
        match (r, attributes(tokens_view(toks@), i as int, end as int)) {
            (Ok(v), Ok(s)) => nodes_view(v@) == s,
            (Err(e), Err(f)) => e == f,
            _ => false,
        },
{
    let (v, q) = parse_attribute_run(toks, i, end);
    if q == end {
        Ok(v)
    } else {
        Err(ParseError::UnexpectedToken(q))
    }
}

/// Whether two lists of strings are equal.
fn same_strings(a: &Vec<String>, b: &Vec<String>) -> (r: bool)
    ensures
        r == (strings_view(a@) == strings_view(b@)),
{
    if a.len() != b.len() {
        assert(strings_view(a@).len() != strings_view(b@).len());
        return false;
    }
    let mut i: usize = 0;
    while i < a.len()
        invariant
            a@.len() == b@.len(),
            i <= a@.len(),
            forall|j: int| 0 <= j < i ==> a@[j]@ == b@[j]@,
        decreases a.len() - i,
    {
        if !a[i].eq(&b[i]) {
            assert(strings_view(a@)[i as int] != strings_view(b@)[i as int]);
            return false;
        }
        i = i + 1;
    }
    assert(strings_view(a@) =~= strings_view(b@));
    true
}

/// Whether two names are equal.
fn same_name(a: &NodeName, b: &NodeName) -> (r: bool)
    ensures
        r == (a@ == b@),
{
    match (a, b) {
        (NodeName::Path(la, sa), NodeName::Path(lb, sb)) => *la == *lb && same_strings(sa, sb),
        (NodeName::Dash(sa), NodeName::Dash(sb)) => same_strings(sa, sb),
        (NodeName::Colon(sa), NodeName::Colon(sb)) => same_strings(sa, sb),
        _ => false,
    }
}

/// An open tag at `i`: its name, its attributes, whether it closes itself, and the index after it.
fn parse_tag_open(toks: &Vec<Token>, i: usize) -> (r: Result<(NodeName, Vec<Node>, bool, usize), ParseError>)
    ensures
        match (r, tag_open(tokens_view(toks@), i as int)) {
            (Ok((n, a, sc, k)), Ok((m, b, sd, j))) => n@ == m && nodes_view(a@) == b && sc == sd && k == j
                && i < k <= toks@.len(),
            (Err(e), Err(f)) => e == f,
            _ => false,
        },
{
    let len = toks.len();
    if !is_punct(toks, i, len, '<') {
        return Err(ParseError::UnexpectedToken(i));
    }
    let (name, p) = match parse_node_name(toks, i + 1, len) {
        Ok(r) => r,
        Err(e) => return Err(e),
    };
    let (b, sc, k) = match scan_open_end(toks, p, len) {
        Some(r) => r,
        None => return Err(ParseError::UnexpectedToken(len)),
    };
    let attrs = match parse_attributes(toks, p, b) {
        Ok(a) => a,
        Err(e) => return Err(e),
    };
    Ok((name, attrs, sc, k))
}

/// A close tag `</name>` at `i`: its name and the index after it.
fn parse_tag_close(toks: &Vec<Token>, i: usize) -> (r: Option<(NodeName, usize)>)
    ensures
        match (r, tag_close(tokens_view(toks@), i as int)) {
            (Some((n, k)), Some((m, j))) => n@ == m && k == j && i < k <= toks@.len(),
            (None, None) => true,
            _ => false,
        },
{
    let len = toks.len();
    if is_punct(toks, i, len, '<') && is_punct(toks, i + 1, len, '/') {
        match parse_node_name(toks, i + 2, len) {
            Ok((n, p)) => if is_punct(toks, p, len, '>') {
                Some((n, p + 1))
            } else {
                None
            },
            Err(_) => None,
        }
    } else {
        None
    }
}

/// Whether the token at `i` is a literal: a literal token, `true` or `false`.
fn is_text(toks: &Vec<Token>, i: usize) -> (r: bool)
    ensures
        r == text_at(tokens_view(toks@), i as int),
{
    if i < toks.len() {
        match &toks[i] {
            Token::Literal(_) => true,
            Token::Ident(s) => {
                let t = <String as StringExecFns>::from_str("true");
                let f = <String as StringExecFns>::from_str("false");
                proof {
                    reveal_strlit("true");
                    reveal_strlit("false");
                    assert(t@ =~= seq!['t', 'r', 'u', 'e']);
                    assert(f@ =~= seq!['f', 'a', 'l', 's', 'e']);
                }
                s.eq(&t) || s.eq(&f)
            },
            _ => false,
        }
    } else {
        false
    }
}

/// Whether the token at `i` is a brace group that holds a block.
fn is_block(toks: &Vec<Token>, i: usize) -> (r: bool)
    ensures
        r == block_at(tokens_view(toks@), i as int, toks@.len() as int),
{
    if i < toks.len() {
        match &toks[i] {
            Token::Group(d, s) => *d == Delimiter::Brace && parses_as_block(s.as_str()),
            _ => false,
        }
    } else {
        false
    }
}

/// A node without name, attributes or children, holding `value`.
fn leaf(node_type: NodeType, value: Token) -> (r: Node)
    ensures
        r.view() == leaf_node(node_type, value@),
{
    let ghost v = value@;
    let mut values: Vec<Token> = Vec::new();
    values.push(value);
    let r = Node { name: None, value: Some(values), node_type, attributes: Vec::new(), children: Vec::new() };
    proof {
        assert(tokens_view(values@) =~= seq![v]);
        lemma_node_view(r);
        lemma_nodes_view_empty(r.attributes);
        lemma_nodes_view_empty(r.children);
    }
    r
}

/// The exec nodes match the spec nodes, and the index after them too.
pub open spec fn nodes_result(r: Result<(Vec<Node>, usize), ParseError>, s: Result<(Seq<NodeView>, int), ParseError>) -> bool {
    match (r, s) {
        (Ok((v, k)), Ok((w, j))) => nodes_view(v@) == w && k == j,
        (Err(e), Err(f)) => e == f,
        _ => false,
    }
}

/// The exec node list matches the spec node list.
pub open spec fn list_result(r: Result<Vec<Node>, ParseError>, s: Result<Seq<NodeView>, ParseError>) -> bool {
    match (r, s) {
        (Ok(v), Ok(w)) => nodes_view(v@) == w,
        (Err(e), Err(f)) => e == f,
        _ => false,
    }
}

/// `acc` put in front of a list that parsing gives.
pub open spec fn prefixed(acc: Seq<NodeView>, r: Result<Seq<NodeView>, ParseError>) -> Result<Seq<NodeView>, ParseError> {
    match r {
        Ok(s) => Ok(acc + s),
        Err(e) => Err(e),
    }
}

/// Configures the parser.
pub struct ParserConfig {
    /// Whether the returned node tree should be nested or flat. Defaults to `false`.
    pub flatten: bool,
}

impl Default for ParserConfig {
    fn default() -> (r: Self)
        ensures
            r.flatten == false,
    {
        ParserConfig { flatten: false }
    }
}

/// The parser, with its configuration.
pub struct Parser {
    config: ParserConfig,
}

impl Parser {
    /// Whether this parser flattens the tree.
    pub closed spec fn flattens(&self) -> bool {
        self.config.flatten
    }

    /// Create a new parser with the given config.
    pub fn new(config: ParserConfig) -> (r: Parser)
        ensures
            r.flattens() == config.flatten,
    {
        Parser { config }
    }

    /// Parse a whole token sequence into its top-level nodes.
    pub fn parse(&self, toks: &Vec<Token>) -> (r: Result<Vec<Node>, ParseError>)
        ensures
            list_result(r, document(tokens_view(toks@), self.flattens())),
    {
        let ghost tv = tokens_view(toks@);
        let ghost f = self.flattens();
        let mut out: Vec<Node> = Vec::new();
        let mut i: usize = 0;
        proof {
            lemma_nodes_view_empty(out);
            assert(prefixed(nodes_view(out@), nodes_from(tv, 0, f)) == nodes_from(tv, 0, f)) by {
                match nodes_from(tv, 0, f) {
                    Ok(s) => assert(Seq::<NodeView>::empty() + s =~= s),
                    Err(_) => {},
                }
            }
        }
        while i < toks.len()
            invariant
                i <= toks@.len(),
                tv == tokens_view(toks@),
                f == self.flattens(),
                nodes_from(tv, 0, f) == prefixed(nodes_view(out@), nodes_from(tv, i as int, f)),
            decreases toks.len() - i,
        {
            match self.node(toks, i) {
                Ok((ns, k)) => {
                    let ghost before = nodes_view(out@);
                    let ghost added = nodes_view(ns@);
                    out = concat_nodes(out, ns);
                    proof {
                        match nodes_from(tv, k as int, f) {
                            Ok(s) => assert(before + (added + s) =~= (before + added) + s),
                            Err(_) => {},
                        }
                    }
                    i = k;
                },
                Err(e) => return Err(e),
            }
        }
        proof {
            assert(nodes_view(out@) + Seq::<NodeView>::empty() =~= nodes_view(out@));
        }
        Ok(out)
    }

    /// One node at `i`: text, else a block, else an element.
    fn node(&self, toks: &Vec<Token>, i: usize) -> (r: Result<(Vec<Node>, usize), ParseError>)
        ensures
            nodes_result(r, node(tokens_view(toks@), i as int, self.flattens())),
            r matches Ok((_, k)) ==> i < k <= toks@.len(),
        decreases toks@.len() - i, 2int,
    {
        let len = toks.len();
        let ghost tv = tokens_view(toks@);
        assert(tv.len() == len);
        let single = if is_text(toks, i) {
            Ok((leaf(NodeType::Text, toks[i].copy()), i + 1))
        } else if is_block(toks, i) {
            Ok((leaf(NodeType::Block, toks[i].copy()), i + 1))
        } else {
            self.element(toks, i)
        };
        match single {
            Err(e) => Err(e),
            Ok((n, k)) => {
                if self.config.flatten {
                    proof {
                        lemma_node_view(n);
                    }
                    let Node { name, value, node_type, attributes, children } = n;
                    let head = Node { name, value, node_type, attributes, children: Vec::new() };
                    proof {
                        lemma_node_view(head);
                        lemma_nodes_view_empty(head.children);
                        assert(head.view() == without_children(n.view()));
                    }
                    Ok((prepend_node(head, children), k))
                } else {
                    let v = prepend_node(n, Vec::new());
                    proof {
                        assert(seq![n.view()] + nodes_view(Seq::<Node>::empty()) =~= seq![n.view()]);
                    }
                    Ok((v, k))
                }
            },
        }
    }

    /// An element at `i`.
    fn element(&self, toks: &Vec<Token>, i: usize) -> (r: Result<(Node, usize), ParseError>)
        ensures
            match (r, element(tokens_view(toks@), i as int, self.flattens())) {
                (Ok((n, k)), Ok((m, j))) => n.view() == m && k == j && i < k <= toks@.len(),
                (Err(e), Err(f)) => e == f,
                _ => false,
            },
        decreases toks@.len() - i, 1int,
    {
        if parse_tag_close(toks, i).is_some() {
            return Err(ParseError::CloseTagWithoutOpenTag(i));
        }
        let (name, attributes, selfclosing, p) = match parse_tag_open(toks, i) {
            Ok(t) => t,
            Err(e) => return Err(e),
        };
        let (children, q) = if selfclosing {
            (Vec::new(), p)
        } else {
            match self.element_children(toks, &name, p) {
                Ok(c) => c,
                Err(e) => return Err(e),
            }
        };
        let n = Node { name: Some(name), value: None, node_type: NodeType::Element, attributes, children };
        proof {
            lemma_node_view(n);
            if selfclosing {
                lemma_nodes_view_empty(n.children);
            }
        }
        Ok((n, q))
    }

    /// The children of an element named `name`, from `i` up to its close tag.
    fn element_children(&self, toks: &Vec<Token>, name: &NodeName, i: usize) -> (r: Result<(Vec<Node>, usize), ParseError>)
        ensures
            nodes_result(r, children(tokens_view(toks@), name@, i as int, self.flattens())),
            r matches Ok((_, k)) ==> i < k <= toks@.len(),
        decreases toks@.len() - i, 3int,
    {
        if i >= toks.len() {
            return Err(ParseError::OpenTagWithoutCloseTag(i));
        }
        match parse_tag_close(toks, i) {
            Some((closed, q)) => {
                if same_name(&closed, name) {
                    let v: Vec<Node> = Vec::new();
                    proof {
                        lemma_nodes_view_empty(v);
                    }
                    Ok((v, q))
                } else {
                    Err(ParseError::CloseTagWithoutOpenTag(i))
                }
            },
            None => {
                let (ns, k) = match self.node(toks, i) {
                    Ok(r) => r,
                    Err(e) => return Err(e),
                };
                let (cs, q) = match self.element_children(toks, name, k) {
                    Ok(r) => r,
                    Err(e) => return Err(e),
                };
                Ok((concat_nodes(ns, cs), q))
            },
        }
    }
}

} // verus!
