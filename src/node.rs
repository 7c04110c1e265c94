//! The tree that the parser builds.
use crate::token::{tokens_view, Token, TokenView};
use vstd::prelude::*;

verus! {

/// The name of an element or of an attribute.
#[derive(Debug)]
pub enum NodeName {
    /// Identifiers joined by `::`, with or without a leading `::`.
    Path(bool, Vec<String>),
    /// Two or more identifiers joined by `-`.
    Dash(Vec<String>),
    /// Two or more identifiers joined by `:`.
    Colon(Vec<String>),
}

/// What a name holds, as mathematical values.
pub enum NameView {
    Path(bool, Seq<Seq<char>>),
    Dash(Seq<Seq<char>>),
    Colon(Seq<Seq<char>>),
}

/// The views of a sequence of strings.
pub open spec fn strings_view(v: Seq<String>) -> Seq<Seq<char>> {
    Seq::new(v.len(), |i: int| v[i]@)
}

impl View for NodeName {
    type V = NameView;

    open spec fn view(&self) -> NameView {
        match self {
            NodeName::Path(lead, s) => NameView::Path(*lead, strings_view(s@)),
            NodeName::Dash(s) => NameView::Dash(strings_view(s@)),
            NodeName::Colon(s) => NameView::Colon(strings_view(s@)),
        }
    }
}

/// The kind of a node.
#[derive(PartialEq, Eq, Structural, Clone, Copy, Debug)]
pub enum NodeType {
    Element,
    Attribute,
    Text,
    Block,
}

/// A node of the tree.
#[derive(Debug)]
pub struct Node {
    pub name: Option<NodeName>,
    pub value: Option<Vec<Token>>,
    pub node_type: NodeType,
    pub attributes: Vec<Node>,
    pub children: Vec<Node>,
}

/// What a node holds, as mathematical values.
pub struct NodeView {
    pub name: Option<NameView>,
    pub value: Option<Seq<TokenView>>,
    pub node_type: NodeType,
    pub attributes: Seq<NodeView>,
    pub children: Seq<NodeView>,
}

impl Node {
    pub open spec fn view(&self) -> NodeView
        decreases self,
    {
        NodeView {
            name: match self.name {
                Some(n) => Some(n@),
                None => None,
            },
            value: match self.value {
                Some(t) => Some(tokens_view(t@)),
                None => None,
            },
            node_type: self.node_type,
            attributes: Seq::new(
                self.attributes@.len(),
                |i: int|
                    if 0 <= i < self.attributes@.len() {
                        self.attributes@[i].view()
                    } else {
                        leaf_view()
                    },
            ),
            children: Seq::new(
                self.children@.len(),
                |i: int|
                    if 0 <= i < self.children@.len() {
                        self.children@[i].view()
                    } else {
                        leaf_view()
                    },
            ),
        }
    }
}

/// A text node with no value, used only as a filler.
pub open spec fn leaf_view() -> NodeView {
    NodeView {
        name: None,
        value: None,
        node_type: NodeType::Text,
        attributes: Seq::empty(),
        children: Seq::empty(),
    }
}

/// The segments joined by `sep`.
pub open spec fn joined(segs: Seq<Seq<char>>, sep: Seq<char>) -> Seq<char>
    decreases segs.len(),
{
    if segs.len() == 0 {
        Seq::empty()
    } else if segs.len() == 1 {
        segs[0]
    } else {
        joined(segs.drop_last(), sep) + sep + segs.last()
    }
}

/// A name written out as in the source: segments joined by their separator.
pub open spec fn name_text(n: NameView) -> Seq<char> {
    match n {
        NameView::Path(lead, s) => if lead {
            seq![':', ':'] + joined(s, seq![':', ':'])
        } else {
            joined(s, seq![':', ':'])
        },
        NameView::Dash(s) => joined(s, seq!['-']),
        NameView::Colon(s) => joined(s, seq![':']),
    }
}

/// What syn's `LitStr` makes of a token's text: the string's value, or nothing where the
/// text is no string literal.
pub uninterp spec fn lit_str_value(s: Seq<char>) -> Option<Seq<char>>;

/// Relies on `syn::parse_str::<syn::LitStr>` and `LitStr::value`: the value of a string
/// literal given by its text.
#[verifier::external_body]
fn string_literal_value(s: &str) -> (r: Option<String>)
    ensures
        match r {
            Some(v) => lit_str_value(s@) == Some(v@),
            None => lit_str_value(s@) is None,
        },
{
    match syn::parse_str::<syn::LitStr>(s) {
        Ok(l) => Some(l.value()),
        Err(_) => None,
    }
}

/// The strings of `segs` joined by `sep`.
fn join_strings(segs: &Vec<String>, sep: &str) -> (r: String)
    ensures
        r@ == joined(strings_view(segs@), sep@),
{
    let ghost sv = strings_view(segs@);
    let mut out = String::new();
    let mut i: usize = 0;
    while i < segs.len()
        invariant
            i <= segs@.len(),
            sv == strings_view(segs@),
            out@ == joined(sv.subrange(0, i as int), sep@),
        decreases segs.len() - i,
    {
        let ghost before = out@;
        if i > 0 {
            out.append(sep);
        }
        out.append(segs[i].as_str());
        proof {
            let p = sv.subrange(0, i as int + 1);
            assert(p.drop_last() =~= sv.subrange(0, i as int));
            if i == 0 {
                assert(out@ =~= p[0]);
            }
        }
        i = i + 1;
    }
    assert(sv.subrange(0, segs@.len() as int) =~= sv);
    out
}

impl NodeName {
    /// The name as written in the source: `a::b`, `data-foo`, `on:click`.
    pub fn as_text(&self) -> (r: String)
        ensures
            r@ == name_text(self@),
    {
        match self {
            NodeName::Path(lead, s) => {
                let body = join_strings(s, "::");
                proof {
                    reveal_strlit("::");
                    assert("::"@ =~= seq![':', ':']);
                }
                if *lead {
                    let mut out = String::new();
                    out.append("::");
                    out.append(body.as_str());
                    out
                } else {
                    body
                }
            },
            NodeName::Dash(s) => {
                proof {
                    reveal_strlit("-");
                    assert("-"@ =~= seq!['-']);
                }
                join_strings(s, "-")
            },
            NodeName::Colon(s) => {
                proof {
                    reveal_strlit(":");
                    assert(":"@ =~= seq![':']);
                }
                join_strings(s, ":")
            },
        }
    }
}

impl Node {
    /// The node's name as written in the source, if it has one.
    pub fn name_as_string(&self) -> (r: Option<String>)
        ensures
            match (r, self.name) {
                (Some(s), Some(n)) => s@ == name_text(n@),
                (None, None) => true,
                _ => false,
            },
    {
        match &self.name {
            Some(n) => Some(n.as_text()),
            None => None,
        }
    }

    /// The node's value as a string, where the value is one string literal.
    pub fn value_as_string(&self) -> (r: Option<String>)
        ensures
            match self.value {
                Some(v) => if v@.len() == 1 && v@[0] is Literal {
                    match r {
                        Some(s) => lit_str_value(v@[0]->Literal_0@) == Some(s@),
                        None => lit_str_value(v@[0]->Literal_0@) is None,
                    }
                } else {
                    r is None
                },
                None => r is None,
            },
    {
        match &self.value {
            Some(v) => if v.len() == 1 {
                match &v[0] {
                    Token::Literal(t) => string_literal_value(t.as_str()),
                    _ => None,
                }
            } else {
                None
            },
            None => None,
        }
    }
}

/// The views of a sequence of nodes.
pub open spec fn nodes_view(v: Seq<Node>) -> Seq<NodeView> {
    Seq::new(v.len(), |i: int| v[i].view())
}

} // verus!
