//! Tree module tests
//!

use libxml::parser::Parser;
use libxml::tree::set_node_rc_guard;
use libxml::tree::Document;
use libxml::tree::Namespace;
use libxml::tree::Node;
use libxml::tree::NodeType;

const FILE01: &str = "<?xml version=\"1.0\" encoding=\"UTF-8\"?>\n<root>\n  <child attribute=\"value\">text</child>\n  <child attribute=\"value\">text</child>\n</root>\n";

#[test]
/// Root node and first child of root node are different
fn child_of_root_has_different_hash() {
    let parser = Parser::default();
    let doc_result = parser.parse_string(FILE01);
    assert!(doc_result.is_ok());
    let mut doc = doc_result.unwrap();
    let root = doc.get_root_element().unwrap();
    assert!(!root.is_text_node(&doc));
    if let Some(child) = root.get_first_child(&mut doc) {
        assert!(root != child);
    } else {
        assert!(false);
    }
    if let Some(child) = root.get_last_child(&mut doc) {
        assert!(root != child);
    } else {
        assert!(false);
    }
}

#[test]
/// Siblings basic unit tests
fn node_sibling_accessors() {
    let mut doc = Document::new().unwrap();
    let hello_element_result = Node::new("hello", None, &mut doc);
    assert!(hello_element_result.is_ok());
    let hello_element = hello_element_result.unwrap();
    doc.set_root_element(&hello_element);

    let new_sibling = Node::new("sibling", None, &mut doc).unwrap();
    assert!(hello_element.add_prev_sibling(&mut doc, &new_sibling).is_ok());
}

#[test]
fn node_children_accessors() {
    let parser = Parser::default();
    let doc_result = parser.parse_string(FILE01);
    assert!(doc_result.is_ok());
    let mut doc = doc_result.unwrap();
    let root = doc.get_root_element().unwrap();

    let root_children = root.get_child_nodes(&mut doc);
    assert_eq!(root_children.len(), 5, "the document root has five child nodes");
    doc.release_nodes(root_children);
    let mut element_children = root.get_child_elements(&mut doc);
    assert_eq!(element_children.len(), 2, "the document root has two child elements");
    assert_eq!(element_children.pop().unwrap().get_name(&doc), "child");
    assert_eq!(element_children.pop().unwrap().get_name(&doc), "child");
    assert!(element_children.is_empty());
}

#[test]
fn node_attributes_accessor() {
    let parser = Parser::default();
    let doc_result = parser.parse_string(FILE01);
    assert!(doc_result.is_ok());
    let mut doc = doc_result.unwrap();
    let root = doc.get_root_element().unwrap();
    let mut root_elements = root.get_child_elements(&mut doc);
    let child_opt = root_elements.first_mut();
    assert!(child_opt.is_some());
    let child = child_opt.unwrap();

    // All attributes
    let attributes = child.get_attributes(&doc);
    assert_eq!(attributes.len(), 1);
    assert_eq!(attributes.get("attribute"), Some(&"value".to_string()));

    // Get
    assert_eq!(child.get_attribute(&doc, "attribute"), Some("value".to_string()));
    // Get as node
    let attr_node_opt = child.get_attribute_node(&mut doc, "attribute");
    assert!(attr_node_opt.is_some());
    let attr_node = attr_node_opt.unwrap();
    assert_eq!(attr_node.get_name(&doc), "attribute");
    assert_eq!(attr_node.get_type(&doc), Some(NodeType::AttributeNode));

    // Set
    assert!(child.set_attribute(&mut doc, "attribute", "setter_value").is_ok());
    assert_eq!(child.get_attribute(&doc, "attribute"), Some("setter_value".to_string()));
    // Remove
    assert!(child.remove_attribute(&mut doc, "attribute").is_ok());
    assert_eq!(child.get_attribute(&doc, "attribute"), None);
    // Recount
    let attributes = child.get_attributes(&doc);
    assert_eq!(attributes.len(), 0);
}

#[test]
fn node_can_unbind() {
    let mut doc = Document::new().unwrap();
    let element_result = Node::new("example", None, &mut doc);
    assert!(element_result.is_ok());

    let element = element_result.unwrap();
    doc.set_root_element(&element);

    let first_child = Node::new("first", None, &mut doc).unwrap();
    let second_child = Node::new("second", None, &mut doc).unwrap();
    let third_child = Node::new("third", None, &mut doc).unwrap();

    assert!(element.add_child(&mut doc, &first_child).is_ok());
    assert!(element.add_child(&mut doc, &second_child).is_ok());
    assert!(element.add_child(&mut doc, &third_child).is_ok());

    let kids = element.get_child_nodes(&mut doc);
    assert_eq!(kids.len(), 3);
    doc.release_nodes(kids);
    first_child.unbind_node(&mut doc);
    let kids = element.get_child_nodes(&mut doc);
    assert_eq!(kids.len(), 2);
    doc.release_nodes(kids);
    second_child.unlink_node(&mut doc);
    let kids = element.get_child_nodes(&mut doc);
    assert_eq!(kids.len(), 1);
    doc.release_nodes(kids);
    third_child.unlink(&mut doc);
    let kids = element.get_child_nodes(&mut doc);
    assert_eq!(kids.len(), 0);
    doc.release_nodes(kids);

    // Test reparenting via unlink
    let transfer = Node::new("transfer", None, &mut doc).unwrap();
    assert!(element.add_child(&mut doc, &transfer).is_ok());
    assert!(transfer.append_text(&mut doc, "test text").is_ok());
    let receiver = Node::new("receiver", None, &mut doc).unwrap();
    assert!(element.add_child(&mut doc, &receiver).is_ok());
    let kids = element.get_child_nodes(&mut doc);
    assert_eq!(kids.len(), 2);
    doc.release_nodes(kids);
    let kids = transfer.get_child_nodes(&mut doc);
    assert_eq!(kids.len(), 1);
    doc.release_nodes(kids);
    let kids = receiver.get_child_nodes(&mut doc);
    assert_eq!(kids.len(), 0);
    doc.release_nodes(kids);

    transfer.unlink(&mut doc);
    let kids = element.get_child_nodes(&mut doc);
    assert_eq!(kids.len(), 1);
    doc.release_nodes(kids);
    let kids = receiver.get_child_nodes(&mut doc);
    assert_eq!(kids.len(), 0);
    doc.release_nodes(kids);
    assert!(receiver.add_child(&mut doc, &transfer).is_ok());
    let kids = receiver.get_child_nodes(&mut doc);
    assert_eq!(kids.len(), 1);
    doc.release_nodes(kids);
    assert_eq!(transfer.get_content(&doc), "test text".to_owned());
    assert_eq!(transfer.get_parent(&mut doc), Some(receiver));
}

#[test]
/// Can mock a node object
fn can_mock_node() {
    let mut doc_mock = Document::new().unwrap();
    let node_mock = Node::mock(&mut doc_mock);
    assert!(!node_mock.is_text_node(&doc_mock));
}

#[test]
/// Can make a mock node hashable
fn can_hash_mock_node() {
    let mut doc_mock = Document::new().unwrap();
    let node_mock = Node::mock(&mut doc_mock);
    assert!(node_mock.to_hashable() > 0);
}

#[test]
/// Can make null nodes, to avoid memory allocations
fn can_null_node() {
    let null_node = Node::null();
    let second_null_node = Node::null();
    assert!(null_node.is_null());
    assert!(second_null_node.is_null());
    assert_eq!(null_node, second_null_node);
}

#[test]
/// Can set and get attributes
fn can_manage_attributes() {
    let mut doc = Document::new().unwrap();
    let hello_element_result = Node::new("hello", None, &mut doc);
    assert!(hello_element_result.is_ok());
    let hello_element = hello_element_result.unwrap();
    doc.set_root_element(&hello_element);

    let key = "examplekey";
    let value = "examplevalue";
    let pre_value = hello_element.get_attribute(&doc, key);
    assert_eq!(pre_value, None);
    let pre_prop_value = hello_element.get_property(&doc, key);
    assert_eq!(pre_prop_value, None);

    assert!(hello_element.set_attribute(&mut doc, key, value).is_ok());
    let new_value = hello_element.get_attribute(&doc, key);
    assert_eq!(new_value, Some(value.to_owned()));
}

#[test]
/// Can set and get text node content
fn can_set_get_text_node_content() {
    let mut doc = Document::new().unwrap();
    let hello_element_result = Node::new("hello", None, &mut doc);
    assert!(hello_element_result.is_ok());
    let hello_element = hello_element_result.unwrap();
    doc.set_root_element(&hello_element);

    assert!(hello_element.get_content(&doc).is_empty());
    assert!(hello_element.append_text(&mut doc, "hello ").is_ok());
    assert_eq!(hello_element.get_content(&doc), "hello ");
    assert!(hello_element.append_text(&mut doc, "world!").is_ok());
    assert_eq!(hello_element.get_content(&doc), "hello world!");
}

#[test]
fn attribute_namespace_accessors() {
    let mut doc = Document::new().unwrap();
    let element_result = Node::new("example", None, &mut doc);
    assert!(element_result.is_ok());

    let element = element_result.unwrap();
    doc.set_root_element(&element);

    let ns_result = Namespace::new(
        "myxml",
        "http://www.w3.org/XML/1998/namespace",
        &element,
        &mut doc,
    );
    assert!(ns_result.is_ok());
    let ns = ns_result.unwrap();
    assert!(element.set_attribute_ns(&mut doc, "id", "testing", &ns).is_ok());

    let id_attr = element.get_attribute_ns(&doc, "id", "http://www.w3.org/XML/1998/namespace");
    assert!(id_attr.is_some());
    assert_eq!(id_attr.unwrap(), "testing");

    let id_regular = element.get_attribute(&doc, "id");
    assert!(id_regular.is_some());
    assert_eq!(id_regular.unwrap(), "testing");

    let id_false_ns = element.get_attribute_ns(&doc, "id", "http://www.foobar.org");
    assert!(id_false_ns.is_none());
    let fb_ns_result = Namespace::new("fb", "http://www.foobar.org", &element, &mut doc);
    assert!(fb_ns_result.is_ok());
    let fb_ns = fb_ns_result.unwrap();
    assert!(element.set_attribute_ns(&mut doc, "fb", "fb", &fb_ns).is_ok());

    let ns_prefix = element.lookup_namespace_prefix(&doc, "http://www.w3.org/XML/1998/namespace");
    assert_eq!(ns_prefix, Some("xml".to_string())); // system ns has the global prefix when doing global lookup
    let fb_prefix = element.lookup_namespace_prefix(&doc, "http://www.foobar.org");
    assert_eq!(fb_prefix, Some("fb".to_string()));

    let ns_uri = element.lookup_namespace_uri(&doc, "myxml");
    assert_eq!(
        ns_uri,
        Some("http://www.w3.org/XML/1998/namespace".to_string())
    ); // system ns has the global uri when doing global lookup
    let fb_uri = element.lookup_namespace_uri(&doc, "fb");
    assert_eq!(fb_uri, Some("http://www.foobar.org".to_string()));
}

#[test]
fn can_work_with_namespaces() {
    let mut doc = Document::new().unwrap();
    let root_node = Node::new("root", None, &mut doc).unwrap();
    doc.set_root_element(&root_node);

    let initial_namespace_list = root_node.get_namespaces(&doc);
    assert_eq!(initial_namespace_list.len(), 0);

    let mock_ns_result = Namespace::new("mock", "http://example.com/ns/mock", &root_node, &mut doc);
    assert!(mock_ns_result.is_ok());
    let second_ns_result =
        Namespace::new("second", "http://example.com/ns/second", &root_node, &mut doc);
    assert!(second_ns_result.is_ok());

    // try to attach this namespace to a node
    assert!(root_node.get_namespace(&doc).is_none());
    assert!(root_node.set_namespace(&mut doc, &mock_ns_result.unwrap()).is_ok());
    let active_ns_opt = root_node.get_namespace(&doc);
    assert!(active_ns_opt.is_some());
    let active_ns = active_ns_opt.unwrap();
    assert_eq!(active_ns.get_prefix(), "mock");
    assert_eq!(active_ns.get_href(), "http://example.com/ns/mock");

    // now get all namespaces for the node and check we have ours
    let mut namespace_list = root_node.get_namespaces(&doc);
    assert_eq!(namespace_list.len(), 2);

    let second_ns = namespace_list.pop().unwrap();
    assert_eq!(second_ns.get_prefix(), "second");
    assert_eq!(second_ns.get_href(), "http://example.com/ns/second");

    let first_ns = namespace_list.pop().unwrap();
    assert_eq!(first_ns.get_prefix(), "mock");
    assert_eq!(first_ns.get_href(), "http://example.com/ns/mock");
}

#[test]
fn can_work_with_ns_declarations() {
    let mut doc = Document::new().unwrap();
    let root_node = Node::new("root", None, &mut doc).unwrap();
    doc.set_root_element(&root_node);

    let mock_ns_result = Namespace::new("mock1", "http://example.com/ns/mock1", &root_node, &mut doc);
    assert!(mock_ns_result.is_ok());
    let second_ns_result = Namespace::new("mock2", "http://example.com/ns/mock2", &root_node, &mut doc);
    assert!(second_ns_result.is_ok());

    let declarations = root_node.get_namespace_declarations(&doc);
    assert_eq!(declarations.len(), 2);
}

#[test]
/// Can view documents as nodes
fn can_cast_doc_to_node() {
    let parser = Parser::default();
    let doc_result = parser.parse_string(FILE01);
    assert!(doc_result.is_ok());

    let mut doc = doc_result.unwrap();
    let doc_node = doc.as_node();
    assert_eq!(doc_node.get_type(&doc), Some(NodeType::DocumentNode));
    let root_node_opt = doc_node.get_first_child(&mut doc);
    assert!(root_node_opt.is_some());
    let root_node = root_node_opt.unwrap();
    assert_eq!(root_node.get_name(&doc), "root");
}

#[test]
/// The node rc guard of `set_node_rc_guard` is adjustable at runtime
fn guard_is_tunable() {
    let mut doc = Document::new().unwrap();
    set_node_rc_guard(&mut doc, 5);
    let e = Node::new("tunable", None, &mut doc).unwrap();
    let _a = doc.wrap(e.node_ptr());
    let _b = doc.wrap(e.node_ptr());
    let _c = doc.wrap(e.node_ptr());
    // four live aliases, threshold five: mutation is still allowed
    assert!(e.set_content(&mut doc, "ok").is_ok());
}

#[test]
/// A detached node can move between documents; a linked one refuses
fn can_import_a_detached_node() {
    let mut source = Document::new().unwrap();
    let root = Node::new("root", None, &mut source).unwrap();
    source.set_root_element(&root);
    let detached = Node::new("movable", None, &mut source).unwrap();
    assert!(detached.set_content(&mut source, "payload").is_ok());

    let mut target = Document::new().unwrap();
    // the root is still linked in its own document
    assert!(target.import_node(&source, &root).is_err());

    let imported = target.import_node(&source, &detached).unwrap();
    assert_eq!(imported.get_name(&target), "movable");
    assert_eq!(imported.get_content(&target), "payload");
    // the source document still holds its own copy
    assert_eq!(detached.get_content(&source), "payload");
}

#[test]
/// A document can be duplicated, into a fresh instance or an empty one
fn can_duplicate_a_document() {
    let parser = Parser::default();
    let mut doc = parser.parse_string(FILE01).unwrap();

    let copy = doc.dup().unwrap();
    assert_eq!(copy.to_string(), doc.to_string());

    let mut empty = Document::new().unwrap();
    assert!(empty.dup_from(&doc).is_ok());
    assert_eq!(empty.to_string(), doc.to_string());

    // a document that already holds content refuses
    assert!(doc.dup_from(&copy).is_err());
}
