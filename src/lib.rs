//! A parser for JSX-like markup given as Rust tokens. The result is a tree of
//! [`Node`]s, similar to the browser DOM, whose names are identifiers and whose
//! values are tokens of the host language, kept as they are.
//!
//! The grammar is stated as spec functions in [`grammar`]; the parser is proved
//! to compute exactly what they describe.
use proc_macro2::TokenStream;
use vstd::prelude::*;

pub mod grammar;
pub mod laws;
pub mod node;
pub mod parser;
pub mod size;
pub mod token;

pub use grammar::ParseError;
pub use node::{NameView, Node, NodeName, NodeType, NodeView};
pub use parser::{Parser, ParserConfig};
pub use token::{tokenize, Delimiter, Token, TokenView};

use grammar::document;
use node::nodes_view;
use parser::list_result;
use token::{stream_tokens, tokens_view};

verus! {

/// Whether the given configuration, or the default one, flattens the tree.
pub open spec fn flattens(config: Option<ParserConfig>) -> bool {
    match config {
        Some(c) => c.flatten,
        None => false,
    }
}

/// Parse a token sequence into its top-level nodes, with the given configuration or the default.
pub fn parse_tokens(toks: &Vec<Token>, config: Option<ParserConfig>) -> (r: Result<Vec<Node>, ParseError>)
    ensures
        list_result(r, document(tokens_view(toks@), flattens(config))),
{
    let config = match config {
        Some(c) => c,
        None => ParserConfig { flatten: false },
    };
    Parser::new(config).parse(toks)
}

/// Parse the given `proc_macro2::TokenStream` into a [`Node`] tree.
pub fn parse2(tokens: TokenStream, config: Option<ParserConfig>) -> (r: Result<Vec<Node>, ParseError>)
    ensures
        list_result(r, document(stream_tokens(tokens), flattens(config))),
{
    let toks = tokenize(tokens);
    parse_tokens(&toks, config)
}

} // verus!
