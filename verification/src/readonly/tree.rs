use vstd::prelude::*;

use crate::tree::chars::chars_to_string;
use crate::tree::chars::str_to_chars;
use crate::tree::document::Document;
use crate::tree::namespace::Namespace;
use crate::tree::node::attr_find_from;
use crate::tree::node::attr_value_of;
use crate::tree::node::find_attr;
use crate::tree::node::next_elem_sibling_of;
use crate::tree::node::prev_elem_sibling_of;
use crate::tree::node::sibling_slot;
use crate::tree::node::AttrSel;
use crate::tree::nodetype::NodeType;
use crate::tree::shape::child_edge_ok;
use crate::tree::shape::first_child_of;
use crate::tree::shape::first_elem_from;
use crate::tree::shape::last_child_of;
use crate::tree::shape::last_elem_before;
use crate::tree::shape::next_sibling_of;
use crate::tree::shape::node_ok;
use crate::tree::shape::ns_view;
use crate::tree::shape::prev_sibling_of;
use crate::tree::shape::text_of;

verus! {

/// Lightweight handle for read-only work over a tree position: it carries
/// only the position identity, with no registry or guard bookkeeping, so it
/// can be copied freely.
#[derive(Debug, Copy, Clone, PartialEq, Eq, Structural)]
pub struct RoNode(pub usize);

/// Scans the children of `p` from slot `start` onward for the first element
/// node.
fn ro_scan_forward(doc: &Document, p: usize, start: usize) -> (r: Option<usize>)
    requires
        doc.wf(),
        p < doc.nodes@.len(),
        start <= doc.nodes@[p as int].children@.len(),
    ensures
        r == first_elem_from(doc.nodes@, doc.nodes@[p as int].children@, start as int),
        r matches Some(c) ==> c < doc.nodes@.len(),
{
    let ghost ks = doc.nodes@[p as int].children@;
    let n = doc.nodes[p].children.len();
    let mut k: usize = start;
    while k < n
        invariant
            doc.wf(),
            p < doc.nodes@.len(),
            start <= k <= n,
            n == ks.len(),
            ks == doc.nodes@[p as int].children@,
            first_elem_from(doc.nodes@, ks, start as int) == first_elem_from(
                doc.nodes@,
                ks,
                k as int,
            ),
        decreases n - k,
    {
        proof {
            assert(node_ok(doc.nodes@, p as int));
            assert(child_edge_ok(doc.nodes@, p as int, ks[k as int] as int));
        }
        let c = doc.nodes[p].children[k];
        if doc.nodes[c].ntype == NodeType::ElementNode {
            return Some(c);
        }
        k = k + 1;
    }
    None
}

/// Scans the children of `p` below slot `end` backward for the last element
/// node.
fn ro_scan_backward(doc: &Document, p: usize, end: usize) -> (r: Option<usize>)
    requires
        doc.wf(),
        p < doc.nodes@.len(),
        end <= doc.nodes@[p as int].children@.len(),
    ensures
        r == last_elem_before(doc.nodes@, doc.nodes@[p as int].children@, end as int),
        r matches Some(c) ==> c < doc.nodes@.len(),
{
    let ghost ks = doc.nodes@[p as int].children@;
    let mut k: usize = end;
    while k > 0
        invariant
            doc.wf(),
            p < doc.nodes@.len(),
            k <= end <= ks.len(),
            ks == doc.nodes@[p as int].children@,
            last_elem_before(doc.nodes@, ks, end as int) == last_elem_before(
                doc.nodes@,
                ks,
                k as int,
            ),
        decreases k,
    {
        proof {
            assert(node_ok(doc.nodes@, p as int));
            assert(child_edge_ok(doc.nodes@, p as int, ks[k - 1] as int));
        }
        let c = doc.nodes[p].children[k - 1];
        if doc.nodes[c].ntype == NodeType::ElementNode {
            return Some(c);
        }
        k = k - 1;
    }
    None
}

impl RoNode {
    /// The raw position identity behind this handle.
    pub fn node_ptr(&self) -> (r: usize)
        ensures
            r == self.0,
    {
        self.0
    }

    /// Returns the next sibling if it exists.
    pub fn get_next_sibling(self, doc: &Document) -> (r: Option<RoNode>)
        requires
            doc.wf(),
            self.0 < doc.nodes@.len(),
        ensures
            match next_sibling_of(doc.nodes@, self.0 as int) {
                Some(c) => r == Some(RoNode(c)),
                None => r is None,
            },
    {
        match sibling_slot(doc, self.0) {
            Some((p, k)) => {
                proof {
                    assert(node_ok(doc.nodes@, p as int));
                }
                let n = doc.nodes[p].children.len();
                if k < n - 1 {
                    Some(RoNode(doc.nodes[p].children[k + 1]))
                } else {
                    None
                }
            },
            None => None,
        }
    }

    /// Returns the previous sibling if it exists.
    pub fn get_prev_sibling(self, doc: &Document) -> (r: Option<RoNode>)
        requires
            doc.wf(),
            self.0 < doc.nodes@.len(),
        ensures
            match prev_sibling_of(doc.nodes@, self.0 as int) {
                Some(c) => r == Some(RoNode(c)),
                None => r is None,
            },
    {
        match sibling_slot(doc, self.0) {
            Some((p, k)) => {
                proof {
                    assert(node_ok(doc.nodes@, p as int));
                }
                if k > 0 {
                    Some(RoNode(doc.nodes[p].children[k - 1]))
                } else {
                    None
                }
            },
            None => None,
        }
    }

    /// Returns the first child if it exists.
    pub fn get_first_child(self, doc: &Document) -> (r: Option<RoNode>)
        requires
            doc.wf(),
            self.0 < doc.nodes@.len(),
        ensures
            match first_child_of(doc.nodes@, self.0 as int) {
                Some(c) => r == Some(RoNode(c)),
                None => r is None,
            },
    {
        if doc.nodes[self.0].children.len() > 0 {
            Some(RoNode(doc.nodes[self.0].children[0]))
        } else {
            None
        }
    }

    /// Returns the last child if it exists.
    pub fn get_last_child(self, doc: &Document) -> (r: Option<RoNode>)
        requires
            doc.wf(),
            self.0 < doc.nodes@.len(),
        ensures
            match last_child_of(doc.nodes@, self.0 as int) {
                Some(c) => r == Some(RoNode(c)),
                None => r is None,
            },
    {
        let n = doc.nodes[self.0].children.len();
        if n > 0 {
            Some(RoNode(doc.nodes[self.0].children[n - 1]))
        } else {
            None
        }
    }

    /// Returns the next element sibling if it exists.
    pub fn get_next_element_sibling(&self, doc: &Document) -> (r: Option<RoNode>)
        requires
            doc.wf(),
            self.0 < doc.nodes@.len(),
        ensures
            match next_elem_sibling_of(doc.nodes@, self.0 as int) {
                Some(c) => r == Some(RoNode(c)),
                None => r is None,
            },
    {
        match sibling_slot(doc, self.0) {
            Some((p, k)) => {
                let n = doc.nodes[p].children.len();
                proof {
                    assert(k < n);
                }
                match ro_scan_forward(doc, p, k + 1) {
                    Some(c) => Some(RoNode(c)),
                    None => None,
                }
            },
            None => None,
        }
    }

    /// Returns the previous element sibling if it exists.
    pub fn get_prev_element_sibling(&self, doc: &Document) -> (r: Option<RoNode>)
        requires
            doc.wf(),
            self.0 < doc.nodes@.len(),
        ensures
            match prev_elem_sibling_of(doc.nodes@, self.0 as int) {
                Some(c) => r == Some(RoNode(c)),
                None => r is None,
            },
    {
        match sibling_slot(doc, self.0) {
            Some((p, k)) => {
                match ro_scan_backward(doc, p, k) {
                    Some(c) => Some(RoNode(c)),
                    None => None,
                }
            },
            None => None,
        }
    }

    /// Returns the first element child if it exists.
    pub fn get_first_element_child(self, doc: &Document) -> (r: Option<RoNode>)
        requires
            doc.wf(),
            self.0 < doc.nodes@.len(),
        ensures
            match first_elem_from(doc.nodes@, doc.nodes@[self.0 as int].children@, 0) {
                Some(c) => r == Some(RoNode(c)),
                None => r is None,
            },
    {
        match ro_scan_forward(doc, self.0, 0) {
            Some(c) => Some(RoNode(c)),
            None => None,
        }
    }

    /// Returns the last element child if it exists.
    pub fn get_last_element_child(&self, doc: &Document) -> (r: Option<RoNode>)
        requires
            doc.wf(),
            self.0 < doc.nodes@.len(),
        ensures
            match last_elem_before(
                doc.nodes@,
                doc.nodes@[self.0 as int].children@,
                doc.nodes@[self.0 as int].children@.len() as int,
            ) {
                Some(c) => r == Some(RoNode(c)),
                None => r is None,
            },
    {
        let n = doc.nodes[self.0].children.len();
        match ro_scan_backward(doc, self.0, n) {
            Some(c) => Some(RoNode(c)),
            None => None,
        }
    }

    /// Returns all child nodes of the given node as a vector.
    pub fn get_child_nodes(self, doc: &Document) -> (r: Vec<RoNode>)
        requires
            doc.wf(),
            self.0 < doc.nodes@.len(),
        ensures
            r@.len() == doc.nodes@[self.0 as int].children@.len(),
            forall|k: int|
                0 <= k < r@.len() ==> (#[trigger] r@[k]).0 == doc.nodes@[
                    self.0 as int
                ].children@[k],
    {
        let n = doc.nodes[self.0].children.len();
        let mut out: Vec<RoNode> = Vec::new();
        let mut k: usize = 0;
        while k < n
            invariant
                doc.wf(),
                self.0 < doc.nodes@.len(),
                k <= n,
                n == doc.nodes@[self.0 as int].children@.len(),
                out@.len() == k,
                forall|j: int|
                    0 <= j < k ==> (#[trigger] out@[j]).0 == doc.nodes@[
                        self.0 as int
                    ].children@[j],
            decreases n - k,
        {
            out.push(RoNode(doc.nodes[self.0].children[k]));
            k = k + 1;
        }
        out
    }

    /// Returns all child elements of the given node as a vector.
    pub fn get_child_elements(self, doc: &Document) -> (r: Vec<RoNode>)
        requires
            doc.wf(),
            self.0 < doc.nodes@.len(),
        ensures
            r@.map_values(|n: RoNode| n.0) == crate::tree::node::elem_children(
                *doc,
                self.0 as int,
            ),
    {
        let ghost d0 = *doc;
        let ghost ids = doc.nodes@[self.0 as int].children@;
        let ghost pred = |c: usize| 0 <= c < d0.nodes@.len() && d0.nodes@[c as int].ntype
            == NodeType::ElementNode;
        proof {
            assert(node_ok(doc.nodes@, self.0 as int));
        }
        let n = doc.nodes[self.0].children.len();
        let mut out: Vec<RoNode> = Vec::new();
        let mut k: usize = 0;
        while k < n
            invariant
                doc.wf(),
                *doc == d0,
                self.0 < doc.nodes@.len(),
                k <= n,
                n == ids.len(),
                pred == (|c: usize| 0 <= c < d0.nodes@.len() && d0.nodes@[c as int].ntype
                    == NodeType::ElementNode),
                ids == doc.nodes@[self.0 as int].children@,
                forall|j: int| 0 <= j < ids.len() ==> 0 <= #[trigger] ids[j] < doc.nodes@.len(),
                out@.map_values(|nn: RoNode| nn.0) == ids.subrange(0, k as int).filter(pred),
            decreases n - k,
        {
            let ghost prefix = ids.subrange(0, k as int);
            let ghost prefix1 = ids.subrange(0, k + 1 as int);
            let ghost preout = out@;
            proof {
                assert(prefix1.drop_last() =~= prefix);
                assert(prefix1.last() == ids[k as int]);
                assert(prefix1.filter(pred) == if pred(ids[k as int]) {
                    prefix.filter(pred).push(ids[k as int])
                } else {
                    prefix.filter(pred)
                }) by {
                    reveal_with_fuel(Seq::filter, 2);
                    assert(prefix1.drop_last().filter(pred) == prefix.filter(pred));
                }
            }
            let c = doc.nodes[self.0].children[k];
            if doc.nodes[c].ntype == NodeType::ElementNode {
                out.push(RoNode(c));
                proof {
                    assert(out@.map_values(|nn: RoNode| nn.0) =~= preout.map_values(
                        |nn: RoNode| nn.0,
                    ).push(c));
                }
            }
            k = k + 1;
        }
        proof {
            assert(ids.subrange(0, n as int) =~= ids);
        }
        out
    }

    /// Returns the parent if it exists.
    pub fn get_parent(self, doc: &Document) -> (r: Option<RoNode>)
        requires
            doc.wf(),
            self.0 < doc.nodes@.len(),
        ensures
            match doc.nodes@[self.0 as int].parent {
                Some(p) => r == Some(RoNode(p)),
                None => r is None,
            },
    {
        proof {
            assert(node_ok(doc.nodes@, self.0 as int));
        }
        match doc.nodes[self.0].parent {
            Some(p) => Some(RoNode(p)),
            None => None,
        }
    }

    /// Get the node type.
    pub fn get_type(self, doc: &Document) -> (r: Option<NodeType>)
        requires
            doc.wf(),
            self.0 < doc.nodes@.len(),
        ensures
            r == Some(doc.nodes@[self.0 as int].ntype),
    {
        Some(doc.nodes[self.0].ntype)
    }

    /// Returns true if it is a text node.
    pub fn is_text_node(self, doc: &Document) -> (r: bool)
        requires
            doc.wf(),
            self.0 < doc.nodes@.len(),
        ensures
            r == (doc.nodes@[self.0 as int].ntype == NodeType::TextNode),
    {
        doc.nodes[self.0].ntype == NodeType::TextNode
    }

    /// Checks if the given node is an element.
    pub fn is_element_node(self, doc: &Document) -> (r: bool)
        requires
            doc.wf(),
            self.0 < doc.nodes@.len(),
        ensures
            r == (doc.nodes@[self.0 as int].ntype == NodeType::ElementNode),
    {
        doc.nodes[self.0].ntype == NodeType::ElementNode
    }

    /// Checks if this is the null handle.
    pub fn is_null(self) -> (r: bool)
        ensures
            r == (self.0 == usize::MAX),
    {
        self.0 == usize::MAX
    }

    /// Returns the name of the node (empty for text nodes).
    pub fn get_name(self, doc: &Document) -> (r: String)
        requires
            doc.wf(),
            self.0 < doc.nodes@.len(),
        ensures
            r@ == doc.nodes@[self.0 as int].name@,
    {
        chars_to_string(&doc.nodes[self.0].name)
    }

    /// Returns the text value of this node's subtree.
    pub fn get_content(self, doc: &Document) -> (r: String)
        requires
            doc.wf(),
            self.0 < doc.nodes@.len(),
        ensures
            r@ == text_of(doc.nodes@, self.0 as int),
    {
        let h = crate::tree::node::Node { id: self.0 };
        h.get_content(doc)
    }

    /// Returns the value of the property `name` (any namespace).
    pub fn get_property(self, doc: &Document, name: &str) -> (r: Option<String>)
        requires
            doc.wf(),
            self.0 < doc.nodes@.len(),
        ensures
            match attr_value_of(doc.nodes@, self.0 as int, name@, None) {
                Some(v) => r matches Some(s) && s@ == v,
                None => r is None,
            },
    {
        let h = crate::tree::node::Node { id: self.0 };
        h.get_property(doc, name)
    }

    /// Returns the value of the property `name` in the namespace with href
    /// `ns`.
    pub fn get_property_ns(self, doc: &Document, name: &str, ns: &str) -> (r: Option<String>)
        requires
            doc.wf(),
            self.0 < doc.nodes@.len(),
        ensures
            match attr_value_of(doc.nodes@, self.0 as int, name@, Some(Some(ns@))) {
                Some(v) => r matches Some(s) && s@ == v,
                None => r is None,
            },
    {
        let h = crate::tree::node::Node { id: self.0 };
        h.get_property_ns(doc, name, ns)
    }

    /// Returns the value of the property `name` with no namespace.
    pub fn get_property_no_ns(self, doc: &Document, name: &str) -> (r: Option<String>)
        requires
            doc.wf(),
            self.0 < doc.nodes@.len(),
        ensures
            match attr_value_of(doc.nodes@, self.0 as int, name@, Some(None)) {
                Some(v) => r matches Some(s) && s@ == v,
                None => r is None,
            },
    {
        let h = crate::tree::node::Node { id: self.0 };
        h.get_property_no_ns(doc, name)
    }

    /// Return the attribute `name` as a handle of the attribute kind.
    pub fn get_property_node(self, doc: &Document, name: &str) -> (r: Option<RoNode>)
        requires
            doc.wf(),
            self.0 < doc.nodes@.len(),
        ensures
            match attr_find_from(doc.nodes@, self.0 as int, name@, None, 0) {
                Some(a) => r == Some(RoNode(a)),
                None => r is None,
            },
    {
        let key = str_to_chars(name);
        match find_attr(doc, self.0, &key, &AttrSel::AnyNs) {
            Some(a) => Some(RoNode(a)),
            None => None,
        }
    }

    /// Return the attribute `name` in namespace href `ns` as a handle.
    pub fn get_property_node_ns(self, doc: &Document, name: &str, ns: &str) -> (r: Option<RoNode>)
        requires
            doc.wf(),
            self.0 < doc.nodes@.len(),
        ensures
            match attr_find_from(doc.nodes@, self.0 as int, name@, Some(Some(ns@)), 0) {
                Some(a) => r == Some(RoNode(a)),
                None => r is None,
            },
    {
        let key = str_to_chars(name);
        let sel = AttrSel::Href(str_to_chars(ns));
        match find_attr(doc, self.0, &key, &sel) {
            Some(a) => Some(RoNode(a)),
            None => None,
        }
    }

    /// Return the attribute `name` with no namespace as a handle.
    pub fn get_property_node_no_ns(self, doc: &Document, name: &str) -> (r: Option<RoNode>)
        requires
            doc.wf(),
            self.0 < doc.nodes@.len(),
        ensures
            match attr_find_from(doc.nodes@, self.0 as int, name@, Some(None), 0) {
                Some(a) => r == Some(RoNode(a)),
                None => r is None,
            },
    {
        let key = str_to_chars(name);
        match find_attr(doc, self.0, &key, &AttrSel::NoNs) {
            Some(a) => Some(RoNode(a)),
            None => None,
        }
    }

    /// Alias for `get_property`
    pub fn get_attribute(self, doc: &Document, name: &str) -> (r: Option<String>)
        requires
            doc.wf(),
            self.0 < doc.nodes@.len(),
        ensures
            match attr_value_of(doc.nodes@, self.0 as int, name@, None) {
                Some(v) => r matches Some(s) && s@ == v,
                None => r is None,
            },
    {
        self.get_property(doc, name)
    }

    /// Alias for `get_property_ns`
    pub fn get_attribute_ns(self, doc: &Document, name: &str, ns: &str) -> (r: Option<String>)
        requires
            doc.wf(),
            self.0 < doc.nodes@.len(),
        ensures
            match attr_value_of(doc.nodes@, self.0 as int, name@, Some(Some(ns@))) {
                Some(v) => r matches Some(s) && s@ == v,
                None => r is None,
            },
    {
        self.get_property_ns(doc, name, ns)
    }

    /// Alias for `get_property_no_ns`
    pub fn get_attribute_no_ns(self, doc: &Document, name: &str) -> (r: Option<String>)
        requires
            doc.wf(),
            self.0 < doc.nodes@.len(),
        ensures
            match attr_value_of(doc.nodes@, self.0 as int, name@, Some(None)) {
                Some(v) => r matches Some(s) && s@ == v,
                None => r is None,
            },
    {
        self.get_property_no_ns(doc, name)
    }

    /// Alias for `get_property_node`
    pub fn get_attribute_node(self, doc: &Document, name: &str) -> (r: Option<RoNode>)
        requires
            doc.wf(),
            self.0 < doc.nodes@.len(),
        ensures
            match attr_find_from(doc.nodes@, self.0 as int, name@, None, 0) {
                Some(a) => r == Some(RoNode(a)),
                None => r is None,
            },
    {
        self.get_property_node(doc, name)
    }

    /// Alias for `get_property_node_ns`
    pub fn get_attribute_node_ns(self, doc: &Document, name: &str, ns: &str) -> (r: Option<
        RoNode,
    >)
        requires
            doc.wf(),
            self.0 < doc.nodes@.len(),
        ensures
            match attr_find_from(doc.nodes@, self.0 as int, name@, Some(Some(ns@)), 0) {
                Some(a) => r == Some(RoNode(a)),
                None => r is None,
            },
    {
        self.get_property_node_ns(doc, name, ns)
    }

    /// Alias for `get_property_node_no_ns`
    pub fn get_attribute_node_no_ns(self, doc: &Document, name: &str) -> (r: Option<RoNode>)
        requires
            doc.wf(),
            self.0 < doc.nodes@.len(),
        ensures
            match attr_find_from(doc.nodes@, self.0 as int, name@, Some(None), 0) {
                Some(a) => r == Some(RoNode(a)),
                None => r is None,
            },
    {
        self.get_property_node_no_ns(doc, name)
    }

    /// Get a copy of the attributes of this node as a name-to-value map.
    pub fn get_properties(self, doc: &Document) -> (r: std::collections::HashMap<String, String>)
        requires
            doc.wf(),
            self.0 < doc.nodes@.len(),
    {
        let h = crate::tree::node::Node { id: self.0 };
        h.get_properties(doc)
    }

    /// Alias for `get_properties`
    pub fn get_attributes(self, doc: &Document) -> (r: std::collections::HashMap<String, String>)
        requires
            doc.wf(),
            self.0 < doc.nodes@.len(),
    {
        self.get_properties(doc)
    }

    /// Check if a property has been defined, without reading its value.
    pub fn has_property(self, doc: &Document, name: &str) -> (r: bool)
        requires
            doc.wf(),
            self.0 < doc.nodes@.len(),
        ensures
            r == (attr_find_from(doc.nodes@, self.0 as int, name@, None, 0) is Some),
    {
        let h = crate::tree::node::Node { id: self.0 };
        h.has_property(doc, name)
    }

    /// Check if property `name` in namespace href `ns` exists.
    pub fn has_property_ns(self, doc: &Document, name: &str, ns: &str) -> (r: bool)
        requires
            doc.wf(),
            self.0 < doc.nodes@.len(),
        ensures
            r == (attr_find_from(doc.nodes@, self.0 as int, name@, Some(Some(ns@)), 0) is Some),
    {
        let h = crate::tree::node::Node { id: self.0 };
        h.has_property_ns(doc, name, ns)
    }

    /// Check if property `name` with no namespace exists.
    pub fn has_property_no_ns(self, doc: &Document, name: &str) -> (r: bool)
        requires
            doc.wf(),
            self.0 < doc.nodes@.len(),
        ensures
            r == (attr_find_from(doc.nodes@, self.0 as int, name@, Some(None), 0) is Some),
    {
        let h = crate::tree::node::Node { id: self.0 };
        h.has_property_no_ns(doc, name)
    }

    /// Alias for `has_property`
    pub fn has_attribute(self, doc: &Document, name: &str) -> (r: bool)
        requires
            doc.wf(),
            self.0 < doc.nodes@.len(),
        ensures
            r == (attr_find_from(doc.nodes@, self.0 as int, name@, None, 0) is Some),
    {
        self.has_property(doc, name)
    }

    /// Alias for `has_property_ns`
    pub fn has_attribute_ns(self, doc: &Document, name: &str, ns: &str) -> (r: bool)
        requires
            doc.wf(),
            self.0 < doc.nodes@.len(),
        ensures
            r == (attr_find_from(doc.nodes@, self.0 as int, name@, Some(Some(ns@)), 0) is Some),
    {
        self.has_property_ns(doc, name, ns)
    }

    /// Alias for `has_property_no_ns`
    pub fn has_attribute_no_ns(self, doc: &Document, name: &str) -> (r: bool)
        requires
            doc.wf(),
            self.0 < doc.nodes@.len(),
        ensures
            r == (attr_find_from(doc.nodes@, self.0 as int, name@, Some(None), 0) is Some),
    {
        self.has_property_no_ns(doc, name)
    }

    /// Gets the active namespace of this node, if any.
    pub fn get_namespace(self, doc: &Document) -> (r: Option<Namespace>)
        requires
            doc.wf(),
            self.0 < doc.nodes@.len(),
        ensures
            ns_view(r) == ns_view(doc.nodes@[self.0 as int].ns),
    {
        let h = crate::tree::node::Node { id: self.0 };
        h.get_namespace(doc)
    }

    /// Get the list of namespaces declared on this node.
    pub fn get_namespace_declarations(self, doc: &Document) -> (r: Vec<Namespace>)
        requires
            doc.wf(),
            self.0 < doc.nodes@.len(),
        ensures
            r@.map_values(|d: Namespace| d@) == crate::tree::shape::decls_view(
                doc.nodes@[self.0 as int].ns_decls@,
            ),
    {
        let h = crate::tree::node::Node { id: self.0 };
        h.get_namespace_declarations(doc)
    }

    /// Looks up the uri bound to a namespace prefix, from this node up its
    /// ancestor chain (nearest declaration first).
    pub fn lookup_namespace_uri(self, doc: &Document, prefix: &str) -> (r: Option<String>)
        requires
            doc.wf(),
            self.0 < doc.nodes@.len(),
        ensures
            match crate::tree::node::lookup_uri_spec(doc.nodes@, self.0 as int, prefix@) {
                Some(h) => r matches Some(x) && x@ == h,
                None => r is None,
            },
    {
        let h = crate::tree::node::Node { id: self.0 };
        h.lookup_namespace_uri(doc, prefix)
    }

    /// Looks up the prefix of a namespace from its uri, from this node up
    /// its ancestor chain.
    pub fn lookup_namespace_prefix(self, doc: &Document, href: &str) -> (r: Option<String>)
        requires
            doc.wf(),
            self.0 < doc.nodes@.len(),
        ensures
            match crate::tree::node::lookup_prefix_spec(doc.nodes@, self.0 as int, href@) {
                Some(p) => r matches Some(x) && x@ == p,
                None => r is None,
            },
    {
        let h = crate::tree::node::Node { id: self.0 };
        h.lookup_namespace_prefix(doc, href)
    }

    /// Gets the namespaces in scope at this node, nearest declarations
    /// first, with shadowed prefixes dropped.
    pub fn get_namespaces(self, doc: &Document) -> (r: Vec<Namespace>)
        requires
            doc.wf(),
            self.0 < doc.nodes@.len(),
        ensures
            r@.map_values(|d: Namespace| d@) == crate::tree::node::visible_decls(
                crate::tree::node::anc_decls(doc.nodes@, self.0 as int, doc.nodes@.len() as nat),
            ),
    {
        let h = crate::tree::node::Node { id: self.0 };
        h.get_namespaces(doc)
    }

    /// Get a set of class names from this node's attributes.
    pub fn get_class_names(self, doc: &Document) -> (r: std::collections::HashSet<String>)
        requires
            doc.wf(),
            self.0 < doc.nodes@.len(),
    {
        let h = crate::tree::node::Node { id: self.0 };
        h.get_class_names(doc)
    }

    /// Read-only handles are always considered linked.
    pub fn is_unlinked(self) -> (r: bool)
        ensures
            r == false,
    {
        false
    }

    /// The position identity as a hashable value.
    pub fn to_hashable(self) -> (r: usize)
        ensures
            r == self.0,
    {
        self.0
    }

    /// Create a null handle, used for a placeholder argument.
    pub fn null() -> (r: RoNode)
        ensures
            r.0 == usize::MAX,
    {
        RoNode(usize::MAX)
    }
}

} // verus!
