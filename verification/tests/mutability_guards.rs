//! Enforce ownership pragmatics for the shared tree positions

use libxml::parser::Parser;
use libxml::tree::set_node_rc_guard;

const FILE01: &str = "<?xml version=\"1.0\" encoding=\"UTF-8\"?>\n<root>\n  <child attribute=\"value\">text</child>\n  <child attribute=\"value\">text</child>\n</root>\n";

#[test]
fn ownership_guards() {
    let parser = Parser::default();
    let doc_result = parser.parse_string(FILE01);
    assert!(doc_result.is_ok());
    let mut doc = doc_result.unwrap();
    let root = doc.get_root_element().unwrap();

    let first_a = root.get_first_element_child(&mut doc).unwrap();
    let first_b = root.get_first_element_child(&mut doc).unwrap();

    assert_eq!(first_a.get_attribute(&doc, "attribute"), Some(String::from("value")));
    assert_eq!(first_b.get_attribute(&doc, "attribute"), Some(String::from("value")));

    // Setting an attribute will fail and return an error, as there are too
    // many live aliases of the same position
    assert!(first_a.set_attribute(&mut doc, "attribute", "newa").is_err());

    assert_eq!(first_a.get_attribute(&doc, "attribute"), Some(String::from("value")));
    assert_eq!(first_b.get_attribute(&doc, "attribute"), Some(String::from("value")));

    // Try again with the guard boosted, which allows the change
    set_node_rc_guard(&mut doc, 3);

    assert!(first_a.set_attribute(&mut doc, "attribute", "newa").is_ok());

    assert_eq!(first_a.get_attribute(&doc, "attribute"), Some(String::from("newa")));
    assert_eq!(first_b.get_attribute(&doc, "attribute"), Some(String::from("newa")));
}
