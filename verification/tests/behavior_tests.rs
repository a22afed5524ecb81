//! Scenario tests for the stated properties of the registry, the guard,
//! structural moves, parsing, queries and serialization.

use libxml::error::XmlError;
use libxml::error::XmlErrorLevel;
use libxml::parser::ParserOptions;
use libxml::parser::ParseFormat;
use libxml::parser::Parser;
use libxml::parser::XmlParseError;
use libxml::tree::set_node_rc_guard;
use libxml::tree::Document;
use libxml::tree::Node;
use libxml::tree::NodeType;
use libxml::tree::CanonicalizationOptions;
use libxml::tree::SaveOptions;

#[test]
/// Wrapping one position twice yields the same canonical handle, and no
/// second registry entry appears
fn wrap_is_canonical() {
    let mut doc = Document::new().unwrap();
    let e = Node::new("solo", None, &mut doc).unwrap();
    let arena_before = doc.nodes.len();
    let w1 = doc.wrap(e.node_ptr());
    let w2 = doc.wrap(e.node_ptr());
    assert_eq!(w1, w2);
    assert_eq!(doc.nodes.len(), arena_before);
    assert_eq!(w1, e);
}

#[test]
/// Unlinking removes a node from its former parent's child list while its
/// content stays readable
fn unlink_keeps_content_readable() {
    let mut doc = Document::new().unwrap();
    let root = Node::new("root", None, &mut doc).unwrap();
    doc.set_root_element(&root);
    let branch = root.add_text_child(&mut doc, None, "branch", "kept text").unwrap();
    let kids = root.get_child_nodes(&mut doc);
    assert_eq!(kids.len(), 1);
    doc.release_nodes(kids);

    branch.unlink(&mut doc);

    let kids = root.get_child_nodes(&mut doc);
    assert_eq!(kids.len(), 0);
    doc.release_nodes(kids);
    assert!(branch.is_unlinked(&doc));
    assert_eq!(branch.get_content(&doc), "kept text");
}

#[test]
/// Detach, attach elsewhere: content unchanged, and the node stands in the
/// new parent's child list exactly once
fn detach_attach_elsewhere() {
    let mut doc = Document::new().unwrap();
    let root = Node::new("root", None, &mut doc).unwrap();
    doc.set_root_element(&root);
    let old_home = root.new_child(&mut doc, None, "old").unwrap();
    let new_home = root.new_child(&mut doc, None, "new").unwrap();
    let moved = old_home.add_text_child(&mut doc, None, "moved", "payload").unwrap();

    moved.unlink(&mut doc);
    assert!(new_home.add_child(&mut doc, &moved).is_ok());

    assert_eq!(moved.get_content(&doc), "payload");
    let kids = new_home.get_child_nodes(&mut doc);
    let mut occurrences = 0;
    for k in &kids {
        if *k == moved {
            occurrences += 1;
        }
    }
    assert_eq!(occurrences, 1);
    doc.release_nodes(kids);
    let kids = old_home.get_child_nodes(&mut doc);
    assert_eq!(kids.len(), 0);
    doc.release_nodes(kids);
}

#[test]
/// The guard boundary: blocked when the live count reaches the threshold,
/// admitted once the threshold is raised past the count
fn guard_boundary() {
    let mut doc = Document::new().unwrap();
    let e = Node::new("watched", None, &mut doc).unwrap();
    // one live alias, threshold two: admitted (count below threshold)
    assert!(e.set_content(&mut doc, "one").is_ok());
    let _extra = doc.wrap(e.node_ptr());
    // two live aliases, threshold two: blocked, with the count named
    match e.set_content(&mut doc, "two") {
        Err(XmlError::AliasingError(live)) => assert_eq!(live, 2),
        _ => assert!(false, "the guard did not block"),
    }
    // threshold three: admitted again
    set_node_rc_guard(&mut doc, 3);
    assert!(e.set_content(&mut doc, "three").is_ok());
    assert_eq!(e.get_content(&doc), "three");
}

#[test]
/// Parse, query, unlink, re-query, re-serialize
fn parse_query_unlink_serialize() {
    let parser = Parser::default();
    let doc = parser.parse_string("<root><child attribute=\"value\">text</child></root>").unwrap();
    let mut doc = doc;
    let context = libxml::xpath::Context::new(&doc).unwrap();

    let found = context.evaluate(&doc, "//child").unwrap();
    assert_eq!(found.get_number_of_nodes(), 1);
    let handles = found.get_nodes_as_vec(&mut doc);
    assert_eq!(handles.len(), 1);
    assert_eq!(handles[0].get_attribute(&doc, "attribute"), Some("value".to_string()));

    for h in &handles {
        h.unlink(&mut doc);
    }
    let refound = context.evaluate(&doc, "//child").unwrap();
    assert_eq!(refound.get_number_of_nodes(), 0);

    let serialized = doc.to_string();
    assert!(!serialized.contains("<child"));
}

#[test]
/// A query matching nothing returns an empty handle list, not an error
fn empty_query_is_not_an_error() {
    let parser = Parser::default();
    let mut doc = parser.parse_string("<root/>").unwrap();
    let context = libxml::xpath::Context::new(&doc).unwrap();
    let r = context.evaluate(&doc, "//missing");
    assert!(r.is_ok());
    assert_eq!(r.unwrap().get_nodes_as_vec(&mut doc).len(), 0);
}

#[test]
/// An ill-formed expression fails evaluation with the query error, and the
/// standalone probe rejects it too
fn ill_formed_query_fails_both_ways() {
    let parser = Parser::default();
    let doc = parser.parse_string("<root/>").unwrap();
    let context = libxml::xpath::Context::new(&doc).unwrap();
    match context.evaluate(&doc, "//a[but invalid]") {
        Err(XmlError::CompileOrRuntimeQueryError) => {},
        _ => assert!(false, "expected the query error"),
    }
    assert!(!libxml::xpath::xml_xpath_compiles("//a[but invalid]"));
}

#[test]
/// Serialize and re-parse: names, content, attributes and namespace
/// bindings survive the round trip
fn serialize_reparse_round_trip() {
    let source = "<?xml version=\"1.0\" encoding=\"UTF-8\"?>\n<outer xmlns:pre=\"http://example.com/ns/pre\" note=\"n&amp;1\"><pre:inner depth=\"2\">some &lt;text&gt;</pre:inner><plain>tail</plain></outer>\n";
    let parser = Parser::default();
    let mut doc1 = parser.parse_string(source).unwrap();
    let out = doc1.to_string();
    let mut doc2 = parser.parse_string(&out).unwrap();

    let r1 = doc1.get_root_element().unwrap();
    let r2 = doc2.get_root_element().unwrap();
    assert_eq!(r1.get_name(&doc1), r2.get_name(&doc2));
    assert_eq!(r1.get_content(&doc1), r2.get_content(&doc2));
    assert_eq!(r1.get_attribute(&doc1, "note"), Some("n&1".to_string()));
    assert_eq!(r2.get_attribute(&doc2, "note"), Some("n&1".to_string()));

    let k1 = r1.get_child_elements(&mut doc1);
    let k2 = r2.get_child_elements(&mut doc2);
    assert_eq!(k1.len(), k2.len());
    assert_eq!(k1[0].get_name(&doc1), k2[0].get_name(&doc2));
    assert_eq!(k1[0].get_content(&doc1), "some <text>");
    assert_eq!(k2[0].get_content(&doc2), "some <text>");
    assert_eq!(k1[0].get_attribute(&doc1, "depth"), k2[0].get_attribute(&doc2, "depth"));
    let n1 = k1[0].get_namespace(&doc1).unwrap();
    let n2 = k2[0].get_namespace(&doc2).unwrap();
    assert_eq!(n1.get_prefix(), n2.get_prefix());
    assert_eq!(n1.get_href(), n2.get_href());
    assert_eq!(k1[1].get_content(&doc1), k2[1].get_content(&doc2));
}

#[test]
/// The replace-child operation swaps a child in place and hands the old
/// child back, detached but valid
fn replace_child_swaps_in_place() {
    let mut doc = Document::new().unwrap();
    let root = Node::new("root", None, &mut doc).unwrap();
    doc.set_root_element(&root);
    let old_child = root.add_text_child(&mut doc, None, "old", "old words").unwrap();
    let fresh = Node::new("fresh", None, &mut doc).unwrap();

    let handed_back = root.replace_child_node(&mut doc, fresh, old_child).unwrap();
    assert_eq!(handed_back.get_name(&doc), "old");
    assert_eq!(handed_back.get_content(&doc), "old words");
    assert!(handed_back.is_unlinked(&doc));

    let kids = root.get_child_elements(&mut doc);
    assert_eq!(kids.len(), 1);
    assert_eq!(kids[0].get_name(&doc), "fresh");
    doc.release_nodes(kids);
}

#[test]
/// Structural errors carry their own variants
fn structural_errors_are_typed() {
    let mut doc = Document::new().unwrap();
    let root = Node::new("root", None, &mut doc).unwrap();
    doc.set_root_element(&root);
    let linked = root.new_child(&mut doc, None, "linked").unwrap();
    // a linked node cannot be attached again
    assert_eq!(root.add_child(&mut doc, &linked), Err(XmlError::NotDetachedError));
    // a node cannot be moved below itself
    let deep = linked.new_child(&mut doc, None, "deep").unwrap();
    linked.unlink(&mut doc);
    assert_eq!(deep.add_child(&mut doc, &linked), Err(XmlError::NotAChildError));
    // replacing demands a real child
    let stray = Node::new("stray", None, &mut doc).unwrap();
    let second = Node::new("second", None, &mut doc).unwrap();
    assert_eq!(
        root.replace_child_node(&mut doc, second, stray),
        Err(XmlError::NotAChildError)
    );
}

#[test]
/// An empty prefix cannot be registered on a query context
fn invalid_namespace_registration() {
    let doc = Document::new().unwrap();
    let mut context = libxml::xpath::Context::new(&doc).unwrap();
    assert_eq!(
        context.register_namespace("", "http://example.com/none"),
        Err(XmlError::InvalidNamespaceError)
    );
    assert!(context.register_namespace("ok", "http://example.com/some").is_ok());
}

#[test]
/// Parse failures carry the parser error variants
fn parse_errors_are_typed() {
    let parser = Parser::default();
    assert!(matches!(parser.parse_string("<broken"), Err(XmlParseError::GotNullPointer)));
    assert!(matches!(parser.parse_string("<a></b>"), Err(XmlParseError::GotNullPointer)));
    assert!(matches!(parser.parse_string("no markup at all"), Err(XmlParseError::GotNullPointer)));
    assert!(matches!(parser.parse_string("<two/><roots/>"), Err(XmlParseError::GotNullPointer)));
    assert!(parser.parse_string("<a><b>nested</b></a>").is_ok());
    assert_eq!(parser.format, ParseFormat::XML);
    assert_eq!(Parser::default_html().format, ParseFormat::HTML);
}

#[test]
/// The error levels decode exactly
fn error_level_codes() {
    assert_eq!(XmlErrorLevel::from_raw(0), XmlErrorLevel::NoError);
    assert_eq!(XmlErrorLevel::from_raw(1), XmlErrorLevel::Warning);
    assert_eq!(XmlErrorLevel::from_raw(2), XmlErrorLevel::Error);
    assert_eq!(XmlErrorLevel::from_raw(3), XmlErrorLevel::Fatal);
}

#[test]
/// The option flag word combines the classic bit values
fn option_flags_exact() {
    let defaults = ParserOptions::default();
    // recover, no_error and no_warning are set by default
    assert_eq!(defaults.to_flags(&ParseFormat::XML), 1 + 32 + 64);
    let mut noisy = ParserOptions::default();
    noisy.no_blanks = true;
    noisy.huge = true;
    assert_eq!(noisy.to_flags(&ParseFormat::HTML), 1 + 32 + 64 + 256 + 524288);
}

#[test]
/// The node-type codes decode exactly
fn node_type_codes() {
    assert_eq!(NodeType::from_int(1), Some(NodeType::ElementNode));
    assert_eq!(NodeType::from_int(2), Some(NodeType::AttributeNode));
    assert_eq!(NodeType::from_int(3), Some(NodeType::TextNode));
    assert_eq!(NodeType::from_int(9), Some(NodeType::DocumentNode));
    assert_eq!(NodeType::from_int(21), Some(NodeType::DOCBDocumentNode));
    assert_eq!(NodeType::from_int(0), None);
    assert_eq!(NodeType::from_int(22), None);
}

#[test]
/// The serializer escapes text and attribute values
fn serializer_escapes() {
    let mut doc = Document::new().unwrap();
    let root = Node::new("root", None, &mut doc).unwrap();
    doc.set_root_element(&root);
    assert!(root.set_content(&mut doc, "a<b&c>d").is_ok());
    assert!(root.set_attribute(&mut doc, "q", "say \"hi\" & go").is_ok());
    let out = doc.to_string_with_options(SaveOptions {
        format: false,
        no_declaration: true,
        no_empty_tags: false,
        no_xhtml: false,
        xhtml: false,
        as_xml: false,
        as_html: false,
        non_significant_whitespace: false,
    });
    assert_eq!(
        out,
        "<root q=\"say &quot;hi&quot; &amp; go\">a&lt;b&amp;c&gt;d</root>\n"
    );
}

#[test]
/// Empty elements serialize as one tag by default and as a pair on demand
fn serializer_empty_tags() {
    let parser = Parser::default();
    let doc = parser.parse_string("<a><b/></a>").unwrap();
    let plain = doc.to_string_with_options(SaveOptions {
        format: false,
        no_declaration: true,
        no_empty_tags: false,
        no_xhtml: false,
        xhtml: false,
        as_xml: false,
        as_html: false,
        non_significant_whitespace: false,
    });
    assert_eq!(plain, "<a><b/></a>\n");
    let expanded = doc.to_string_with_options(SaveOptions {
        format: false,
        no_declaration: true,
        no_empty_tags: true,
        no_xhtml: false,
        xhtml: false,
        as_xml: false,
        as_html: false,
        non_significant_whitespace: false,
    });
    assert_eq!(expanded, "<a><b></b></a>\n");
}

#[test]
/// Canonical text has no declaration and expanded empty tags
fn canonical_form() {
    let parser = Parser::default();
    let doc = parser.parse_string("<?xml version=\"1.0\"?><a><b/></a>").unwrap();
    let canon = doc.canonicalize(CanonicalizationOptions::default()).unwrap();
    assert_eq!(canon, "<a><b></b></a>");
}

#[test]
/// Oversized inputs are refused with the size error
fn parser_size_gate() {
    assert!(libxml::parser::try_usize_to_i32(10).is_ok());
    assert_eq!(
        libxml::parser::try_usize_to_i32(usize::MAX),
        Err(XmlParseError::DocumentTooLarge)
    );
}

#[test]
/// The read-only handle walks the same tree without registry bookkeeping
fn readonly_walk() {
    let parser = Parser::default();
    let doc = parser.parse_string(
        "<root><child attribute=\"value\">text</child><child attribute=\"value\">more</child></root>",
    ).unwrap();
    let root = doc.get_root_readonly().unwrap();
    assert_eq!(root.get_name(&doc), "root");
    assert!(root.is_element_node(&doc));
    assert!(!root.is_null());
    assert!(!root.is_unlinked());
    let kids = root.get_child_nodes(&doc);
    assert_eq!(kids.len(), 2);
    let first = root.get_first_element_child(&doc).unwrap();
    assert_eq!(first.get_attribute(&doc, "attribute"), Some("value".to_string()));
    assert!(first.has_attribute(&doc, "attribute"));
    assert!(!first.has_attribute(&doc, "missing"));
    let second = first.get_next_element_sibling(&doc).unwrap();
    assert_eq!(second.get_content(&doc), "more");
    assert_eq!(second.get_prev_element_sibling(&doc), Some(first));
    assert_eq!(root.get_last_element_child(&doc), Some(second));
    assert_eq!(first.get_parent(&doc), Some(root));
    assert_eq!(kids[0].to_hashable(), first.to_hashable());
}
