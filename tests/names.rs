use proc_macro2::TokenStream;
use syn_rsx::{parse2, NodeName, NodeType, Token};

fn tokens(src: &str) -> TokenStream {
    src.parse::<TokenStream>().unwrap()
}

fn segments(n: &NodeName) -> Vec<String> {
    match n {
        NodeName::Path(_, s) | NodeName::Dash(s) | NodeName::Colon(s) => s.clone(),
    }
}

#[test]
fn bare_identifier_is_a_one_segment_path() {
    let nodes = parse2(tokens("<div />"), None).unwrap();
    let name = nodes[0].name.as_ref().unwrap();
    assert!(matches!(name, NodeName::Path(false, _)));
    assert_eq!(segments(name), vec!["div".to_string()]);
}

#[test]
fn dashed_name_has_two_segments() {
    let nodes = parse2(tokens(r#"<div data-foo="bar" />"#), None).unwrap();
    let name = nodes[0].attributes[0].name.as_ref().unwrap();
    assert!(matches!(name, NodeName::Dash(_)));
    assert_eq!(segments(name), vec!["data".to_string(), "foo".to_string()]);
}

#[test]
fn coloned_name_has_two_segments() {
    let nodes = parse2(tokens("<div on:click={foo} />"), None).unwrap();
    let name = nodes[0].attributes[0].name.as_ref().unwrap();
    assert!(matches!(name, NodeName::Colon(_)));
    assert_eq!(segments(name), vec!["on".to_string(), "click".to_string()]);
}

#[test]
fn path_name_keeps_its_segments_in_order() {
    let nodes = parse2(tokens("<some::path />"), None).unwrap();
    let name = nodes[0].name.as_ref().unwrap();
    assert!(matches!(name, NodeName::Path(false, _)));
    assert_eq!(segments(name), vec!["some".to_string(), "path".to_string()]);
}

#[test]
fn leading_path_separator_is_kept() {
    let nodes = parse2(tokens("<::a::b></::a::b>"), None).unwrap();
    assert_eq!(nodes[0].name_as_string().unwrap(), "::a::b");
}

#[test]
fn trailing_path_separator_is_an_invalid_name() {
    let r = parse2(tokens("<a:: />"), None);
    assert!(matches!(r, Err(syn_rsx::ParseError::InvalidNodeName(1))));
}

#[test]
fn keyword_is_a_valid_element_and_attribute_name() {
    let nodes = parse2(tokens(r#"<type type="x"></type>"#), None).unwrap();
    assert_eq!(nodes[0].name_as_string().unwrap(), "type");
    assert_eq!(nodes[0].attributes[0].name_as_string().unwrap(), "type");
}

#[test]
fn attributes_keep_their_order_and_values() {
    let nodes = parse2(tokens(r#"<foo bar="moo" baz="42"></foo>"#), None).unwrap();
    let attrs = &nodes[0].attributes;
    assert_eq!(attrs.len(), 2);
    assert_eq!(attrs[0].node_type, NodeType::Attribute);
    assert_eq!(attrs[1].name_as_string().unwrap(), "baz");
    assert_eq!(attrs[1].value_as_string().unwrap(), "42");
}

#[test]
fn attribute_without_value_is_valueless() {
    let nodes = parse2(tokens("<input disabled />"), None).unwrap();
    assert_eq!(nodes[0].attributes.len(), 1);
    assert!(nodes[0].attributes[0].value.is_none());
}

#[test]
fn block_attribute_value_is_the_group() {
    let nodes = parse2(tokens("<div foo={bar} />"), None).unwrap();
    let v = nodes[0].attributes[0].value.as_ref().unwrap();
    assert_eq!(v.len(), 1);
    assert!(matches!(&v[0], Token::Group(syn_rsx::Delimiter::Brace, _)));
    assert_eq!(nodes[0].attributes[0].value_as_string(), None);
}

#[test]
fn parenthesised_expression_is_an_attribute_value() {
    let nodes = parse2(tokens("<div foo=(1 + 2) />"), None).unwrap();
    assert!(matches!(
        &nodes[0].attributes[0].value.as_ref().unwrap()[0],
        Token::Group(syn_rsx::Delimiter::Parenthesis, _)
    ));
}

#[test]
fn group_that_is_no_expression_is_no_attribute_value() {
    let r = parse2(tokens("<div foo=(+) />"), None);
    assert!(matches!(r, Err(syn_rsx::ParseError::UnexpectedToken(2))));
}

#[test]
fn brace_group_that_is_no_block_is_neither_block_nor_element() {
    let r = parse2(tokens("<div>{ let }</div>"), None);
    assert!(r.is_err());
}

fn value_len(src: &str) -> usize {
    let nodes = parse2(tokens(src), None).unwrap();
    nodes[0].attributes[0].value.as_ref().unwrap().len()
}

#[test]
fn division_is_one_attribute_value() {
    let nodes = parse2(tokens("<a x = 1 / 2></a>"), None).unwrap();
    assert_eq!(nodes[0].attributes.len(), 1);
    assert_eq!(nodes[0].attributes[0].value.as_ref().unwrap().len(), 3);
}

#[test]
fn negative_number_is_an_attribute_value() {
    assert_eq!(value_len("<a x=-1 />"), 2);
}

#[test]
fn path_method_call_and_field_are_attribute_values() {
    assert_eq!(value_len("<a on:click=Msg::Go />"), 4);
    assert_eq!(value_len("<a x=f(1) />"), 2);
    assert_eq!(value_len("<a x=a.b />"), 3);
}

#[test]
fn value_stops_before_the_next_attribute() {
    let nodes = parse2(tokens(r#"<a x=1 + 2 y="z" />"#), None).unwrap();
    assert_eq!(nodes[0].attributes.len(), 2);
    assert_eq!(nodes[0].attributes[0].value.as_ref().unwrap().len(), 3);
    assert_eq!(nodes[0].attributes[1].value_as_string().unwrap(), "z");
}

#[test]
fn c_string_literals_do_not_stop_the_parse() {
    let nodes = parse2(tokens(r#"<div x=c"y">{ c"x" }</div>"#), None).unwrap();
    assert_eq!(nodes[0].children[0].node_type, NodeType::Block);
    assert_eq!(nodes[0].attributes[0].value_as_string(), None);
}

#[test]
fn trailing_dash_is_not_part_of_the_name() {
    let r = parse2(tokens("<a-b->"), None);
    assert!(matches!(r, Err(syn_rsx::ParseError::UnexpectedToken(4))));
    let r = parse2(tokens("<a-b-></a-b>"), None);
    assert!(matches!(r, Err(syn_rsx::ParseError::UnexpectedToken(4))));
}
