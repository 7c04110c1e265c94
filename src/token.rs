//! Tokens of the input: plain values that the grammar reads.
use proc_macro2::{Delimiter as GroupDelimiter, TokenStream, TokenTree};
use vstd::prelude::*;

verus! {

/// The delimiter of a group token.
#[derive(PartialEq, Eq, Structural, Clone, Copy, Debug)]
pub enum Delimiter {
    Parenthesis,
    Brace,
    Bracket,
    Invisible,
}

/// One token tree of the input. A group is held as one token, with its source text.
#[derive(Debug)]
pub enum Token {
    /// An identifier, reserved keywords included.
    Ident(String),
    /// A punctuation character; the flag says whether the next token is joined to it.
    Punct(char, bool),
    /// A literal, with its source text.
    Literal(String),
    /// A delimited group, with its source text, delimiters included.
    Group(Delimiter, String),
}

/// What a token holds, as mathematical values.
pub enum TokenView {
    Ident(Seq<char>),
    Punct(char, bool),
    Literal(Seq<char>),
    Group(Delimiter, Seq<char>),
}

impl View for Token {
    type V = TokenView;

    open spec fn view(&self) -> TokenView {
        match self {
            Token::Ident(s) => TokenView::Ident(s@),
            Token::Punct(c, j) => TokenView::Punct(*c, *j),
            Token::Literal(s) => TokenView::Literal(s@),
            Token::Group(d, s) => TokenView::Group(*d, s@),
        }
    }
}

/// The views of a sequence of tokens.
pub open spec fn tokens_view(v: Seq<Token>) -> Seq<TokenView> {
    Seq::new(v.len(), |i: int| v[i]@)
}

impl Token {
    /// A copy of the token.
    pub fn copy(&self) -> (r: Token)
        ensures
            r@ == self@,
    {
        match self {
            Token::Ident(s) => Token::Ident(s.clone()),
            Token::Punct(c, j) => Token::Punct(*c, *j),
            Token::Literal(s) => Token::Literal(s.clone()),
            Token::Group(d, s) => Token::Group(*d, s.clone()),
        }
    }
}

#[verifier::external_type_specification]
#[verifier::external_body]
pub struct ExTokenStream(TokenStream);

#[verifier::external_type_specification]
#[verifier::external_body]
pub struct ExGroupDelimiter(GroupDelimiter);

/// What a token stream holds at its top level: one token per token tree, in order.
pub uninterp spec fn stream_tokens(s: TokenStream) -> Seq<TokenView>;

/// Relies on proc_macro2's `Delimiter` variants: one for one.
#[verifier::external_body]
fn delimiter_of(d: GroupDelimiter) -> (r: Delimiter) {
    match d {
        GroupDelimiter::Parenthesis => Delimiter::Parenthesis,
        GroupDelimiter::Brace => Delimiter::Brace,
        GroupDelimiter::Bracket => Delimiter::Bracket,
        GroupDelimiter::None => Delimiter::Invisible,
    }
}

/// Relies on proc_macro2's `IntoIterator for TokenStream` (the top-level trees, in order)
/// and the `TokenTree` accessors (`Ident`, `Literal` and `Group` as text, `Punct::as_char`,
/// `Punct::spacing`, `Group::delimiter`): converts each tree to one token.
#[verifier::external_body]
fn stream_to_tokens(tokens: TokenStream) -> (r: Vec<Token>)
    ensures
        tokens_view(r@) == stream_tokens(tokens),
{
    let mut out = Vec::new();
    for tree in tokens {
        out.push(match tree {
            TokenTree::Ident(i) => Token::Ident(i.to_string()),
            TokenTree::Punct(p) => Token::Punct(p.as_char(), p.spacing() == proc_macro2::Spacing::Joint),
            TokenTree::Literal(l) => Token::Literal(l.to_string()),
            TokenTree::Group(g) => Token::Group(delimiter_of(g.delimiter()), g.to_string()),
        });
    }
    out
}

/// The top-level tokens of a token stream, in order, one per token tree.
pub fn tokenize(tokens: TokenStream) -> (r: Vec<Token>)
    ensures
        tokens_view(r@) == stream_tokens(tokens),
{
    stream_to_tokens(tokens)
}

} // verus!
