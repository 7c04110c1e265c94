use proc_macro2::TokenStream;
use syn_rsx::{parse2, parse_tokens, tokenize, NodeType, ParserConfig, Token};

fn tokens(src: &str) -> TokenStream {
    src.parse::<TokenStream>().unwrap()
}

const DOC: &str = r#"
    <div>
        <div>
            <div>{hello}</div>
            <div>"world"</div>
        </div>
    </div>
    <div />
"#;

fn tree_size(n: &syn_rsx::Node) -> usize {
    1 + n.children.iter().map(tree_size).sum::<usize>()
}

#[test]
fn flat_count_is_nested_node_count() {
    let nested = parse2(tokens(DOC), None).unwrap();
    let flat = parse2(tokens(DOC), Some(ParserConfig { flatten: true })).unwrap();
    assert_eq!(nested.len(), 2);
    assert_eq!(nested.iter().map(tree_size).sum::<usize>(), flat.len());
    assert!(flat.iter().all(|n| n.children.is_empty()));
}

#[test]
fn flat_order_is_document_order() {
    let flat = parse2(tokens(DOC), Some(ParserConfig { flatten: true })).unwrap();
    let kinds: Vec<NodeType> = flat.iter().map(|n| n.node_type).collect();
    assert_eq!(
        kinds,
        vec![
            NodeType::Element,
            NodeType::Element,
            NodeType::Element,
            NodeType::Block,
            NodeType::Element,
            NodeType::Text,
            NodeType::Element,
        ]
    );
    assert_eq!(flat[5].value_as_string().unwrap(), "world");
}

#[test]
fn nested_mode_keeps_children_inside() {
    let nested = parse2(tokens(DOC), None).unwrap();
    let inner = &nested[0].children[0];
    assert_eq!(inner.children.len(), 2);
    assert_eq!(inner.children[0].children[0].node_type, NodeType::Block);
    assert_eq!(inner.children[1].children[0].value_as_string().unwrap(), "world");
    assert_eq!(nested[1].children.len(), 0);
}

#[test]
fn self_closing_parses_as_open_and_close() {
    let a = parse2(tokens(r#"<tag x="1" />"#), None).unwrap();
    let b = parse2(tokens(r#"<tag x="1"></tag>"#), None).unwrap();
    assert_eq!(format!("{:?}", a), format!("{:?}", b));
}

#[test]
fn tokenize_keeps_groups_whole() {
    let toks = tokenize(tokens(r#"<a x={1 + 2}>"t"</a>"#));
    assert_eq!(toks.len(), 11);
    assert!(matches!(&toks[0], Token::Punct('<', false)));
    assert!(matches!(&toks[1], Token::Ident(s) if s == "a"));
    assert!(matches!(&toks[4], Token::Group(syn_rsx::Delimiter::Brace, _)));
    assert!(matches!(&toks[6], Token::Literal(s) if s == "\"t\""));
}

#[test]
fn parse_tokens_on_hand_made_tokens() {
    let toks = vec![
        Token::Punct('<', false),
        Token::Ident("a".to_string()),
        Token::Punct('>', true),
        Token::Literal("true".to_string()),
        Token::Ident("true".to_string()),
        Token::Punct('<', true),
        Token::Punct('/', false),
        Token::Ident("a".to_string()),
        Token::Punct('>', false),
    ];
    let nodes = parse_tokens(&toks, None).unwrap();
    assert_eq!(nodes[0].children.len(), 2);
    assert_eq!(nodes[0].children[1].node_type, NodeType::Text);
}

#[test]
fn text_and_block_at_top_level() {
    let nodes = parse2(tokens(r#""hi" {x} 42"#), None).unwrap();
    assert_eq!(nodes.len(), 3);
    assert_eq!(nodes[0].node_type, NodeType::Text);
    assert_eq!(nodes[1].node_type, NodeType::Block);
    assert_eq!(nodes[2].node_type, NodeType::Text);
    assert_eq!(nodes[2].value_as_string(), None);
}
