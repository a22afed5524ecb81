//! Base API tests
//!

use libxml::parser::Parser;
use libxml::tree::Document;
use libxml::tree::Node;

const FILE01: &str = "<?xml version=\"1.0\" encoding=\"UTF-8\"?>\n<root>\n  <child attribute=\"value\">text</child>\n  <child attribute=\"value\">text</child>\n</root>\n";

#[test]
/// Build a hello world document
fn hello_builder() {
    let doc_result = Document::new();
    assert!(doc_result.is_ok());
    let mut doc = doc_result.unwrap();

    let doc_node = doc.get_root_element();
    assert_eq!(doc_node, None, "empty document has no root element");

    let hello_element_result = Node::new("hello", None, &mut doc);
    assert!(hello_element_result.is_ok());
    let hello_element = hello_element_result.unwrap();

    assert!(hello_element.set_content(&mut doc, "world!").is_ok());

    doc.set_root_element(&hello_element);

    assert!(hello_element.set_content(&mut doc, "world!").is_ok());

    let added = hello_element.new_child(&mut doc, None, "child");
    assert!(added.is_ok());
    let new_child = added.unwrap();

    assert!(new_child.set_content(&mut doc, "set content").is_ok());

    assert_eq!(new_child.get_content(&doc), "set content");
    assert_eq!(hello_element.get_content(&doc), "world!set content");

    let node_string = doc.node_to_string(&hello_element);
    assert!(node_string.len() > 1);

    assert!(hello_element.set_name(&mut doc, "world").is_ok());
    assert_eq!(hello_element.get_name(&doc), "world");

    let doc_string = doc.to_string();
    assert!(doc_string.len() > 1);
}

#[test]
fn create_pi() {
    let doc_result = Document::new();
    assert!(doc_result.is_ok());
    let mut doc = doc_result.unwrap();
    let node_ok: Result<Node, ()> = doc.create_processing_instruction("piname", "picontent");
    assert!(node_ok.is_ok());
    assert_eq!(node_ok.unwrap().get_content(&doc), "picontent");
    let doc_string = doc.to_string();
    assert!(doc_string.len() > 1);
}

#[test]
// Can parse a document from a string in memory
fn can_parse_xml_string() {
    let xml_string = FILE01.to_string();
    let parser = Parser::default();
    let doc = parser.parse_string(&xml_string).unwrap();
    let mut doc = doc;
    assert_eq!(doc.get_root_element().unwrap().get_name(&doc), "root");
}

#[test]
/// Test well-formedness of a string
fn well_formed_html() {
    let parser = Parser::default_html();

    let trivial_well_formed =
        parser.is_well_formed_html("<!DOCTYPE html>\n<html><head></head><body></body></html>");
    assert!(trivial_well_formed);

    let trivial_ill_formed = parser.is_well_formed_html("garbage");
    assert!(!trivial_ill_formed);

    let should_ill_formed = parser.is_well_formed_html("<broken <markup>> </boom>");
    assert!(!should_ill_formed);

    let should_well_formed = parser.is_well_formed_html("<!DOCTYPE html>\n<html><head><title>Test</title></head><body>\n<h1>Tiny</h1><math><mn>2</mn></math></body></html>");
    assert!(should_well_formed);
}

fn strip_whitespace(string: &str) -> String {
    string.replace("\n", "").replace(" ", "")
}

fn serialization_roundtrip(xml_file: &str) {
    let parser = Parser::default();
    let parse_result = parser.parse_string(xml_file);
    assert!(parse_result.is_ok());
    let doc = parse_result.unwrap();

    let doc_str = doc.to_string();

    assert_eq!(strip_whitespace(xml_file), strip_whitespace(&doc_str));
}

#[test]
fn simple_serialization_test01() {
    serialization_roundtrip(FILE01);
}

#[test]
fn simple_serialization_namespaces() {
    let simple_namespaces = "<?xml version=\"1.0\" encoding=\"UTF-8\"?>\n<r:root xmlns:r=\"http://example.com/ns/root\" xmlns:h=\"http://example.com/ns/hello\" xmlns:f=\"http://example.com/ns/farewell\">\n<h:table><h:tr><h:td>a</h:td><h:td>b</h:td></h:tr></h:table>\n<h:table><h:tr><h:td>c</h:td></h:tr></h:table>\n<f:footer><f:p>one</f:p></f:footer>\n<f:footer><f:p>two</f:p></f:footer>\n</r:root>\n";
    serialization_roundtrip(simple_namespaces);
}
