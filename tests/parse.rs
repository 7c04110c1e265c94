use proc_macro2::TokenStream;
use syn_rsx::{parse2, ParseError, ParserConfig};

fn tokens(src: &str) -> TokenStream {
    src.parse::<TokenStream>().unwrap()
}

#[test]
fn test_single_empty_element() {
    let tokens = tokens("<foo></foo>");
    let nodes = parse2(tokens, None).unwrap();
    assert_eq!(nodes[0].name_as_string().unwrap(), "foo");
}

#[test]
fn test_single_element_with_attributes() {
    let tokens = tokens(r#"<foo bar="moo" baz="42"></foo>"#);
    let nodes = parse2(tokens, None).unwrap();

    let attribute = &nodes[0].attributes[0];
    assert_eq!(attribute.name_as_string().unwrap(), "bar");
    assert_eq!(attribute.value_as_string().unwrap(), "moo");
}

#[test]
fn test_single_element_with_text() {
    let tokens = tokens(r#"<foo>"bar"</foo>"#);

    let nodes = parse2(tokens, None).unwrap();
    assert_eq!(nodes[0].children[0].value_as_string().unwrap(), "bar");
}

#[test]
fn test_reserved_keyword_attributes() {
    let tokens = tokens(r#"<input type="foo" />"#);
    let nodes = parse2(tokens, None).unwrap();

    assert_eq!(nodes[0].name_as_string().unwrap(), "input");
    assert_eq!(nodes[0].attributes[0].name_as_string().unwrap(), "type");
}

#[test]
fn test_block_node() {
    let tokens = tokens("<div>{hello}</div>");
    let nodes = parse2(tokens, None).unwrap();

    assert_eq!(nodes[0].children.len(), 1);
}

#[test]
fn test_flat_tree() {
    let config = ParserConfig { flatten: true };

    let tokens = tokens(
        r#"
        <div>
            <div>
                <div>{hello}</div>
                <div>"world"</div>
            </div>
        </div>
        <div />
        "#,
    );

    let nodes = parse2(tokens, Some(config)).unwrap();
    assert_eq!(nodes.len(), 7);
}

#[test]
fn test_path_as_tag_name() {
    let tokens = tokens("<some::path />");

    let nodes = parse2(tokens, None).unwrap();
    assert_eq!(nodes[0].name_as_string().unwrap(), "some::path");
}

#[test]
fn test_dashed_attribute_name() {
    let tokens = tokens(r#"<div data-foo="bar" />"#);

    let nodes = parse2(tokens, None).unwrap();
    assert_eq!(nodes[0].attributes[0].name_as_string().unwrap(), "data-foo");
}

#[test]
fn test_coloned_attribute_name() {
    let tokens = tokens("<div on:click={foo} />");

    let nodes = parse2(tokens, None).unwrap();
    assert_eq!(nodes[0].attributes[0].name_as_string().unwrap(), "on:click");
}

#[test]
fn mismatched_close_tag_is_an_error() {
    let r = parse2(tokens("<a></b>"), None);
    assert!(matches!(r, Err(ParseError::CloseTagWithoutOpenTag(3))));
}

#[test]
fn unclosed_element_is_an_error() {
    let r = parse2(tokens("<a>"), None);
    assert!(matches!(r, Err(ParseError::OpenTagWithoutCloseTag(3))));
}

#[test]
fn stray_close_tag_is_an_error() {
    let r = parse2(tokens("</a>"), None);
    assert!(matches!(r, Err(ParseError::CloseTagWithoutOpenTag(0))));
}

#[test]
fn close_tag_of_outer_element_inside_inner_is_an_error() {
    let r = parse2(tokens("<a><b></a></b>"), None);
    assert!(matches!(r, Err(ParseError::CloseTagWithoutOpenTag(6))));
}

#[test]
fn invalid_node_name_is_an_error() {
    let r = parse2(tokens(r#"<"x"></x>"#), None);
    assert!(matches!(r, Err(ParseError::InvalidNodeName(1))));
}

#[test]
fn unterminated_open_tag_is_an_error() {
    let r = parse2(tokens("<a b"), None);
    assert!(matches!(r, Err(ParseError::UnexpectedToken(3))));
}

#[test]
fn attribute_span_left_over_is_an_error() {
    let r = parse2(tokens("<a b = />"), None);
    assert!(matches!(r, Err(ParseError::UnexpectedToken(2))));
}

#[test]
fn empty_input_gives_no_nodes() {
    let nodes = parse2(tokens(""), None).unwrap();
    assert_eq!(nodes.len(), 0);
}

#[test]
fn empty_element_has_no_attributes_or_children() {
    let nodes = parse2(tokens("<tag></tag>"), None).unwrap();
    assert_eq!(nodes.len(), 1);
    assert_eq!(nodes[0].node_type, syn_rsx::NodeType::Element);
    assert!(nodes[0].value.is_none());
    assert_eq!(nodes[0].attributes.len(), 0);
    assert_eq!(nodes[0].children.len(), 0);
}

#[test]
fn error_messages_name_the_fault() {
    assert_eq!(ParseError::InvalidNodeName(1).message(), "invalid node name");
    assert_eq!(ParseError::CloseTagWithoutOpenTag(0).message(), "close tag has no corresponding open tag");
    assert_eq!(ParseError::OpenTagWithoutCloseTag(0).message(), "open tag has no corresponding close tag");
    assert_eq!(ParseError::UnexpectedToken(4).position(), 4);
}
