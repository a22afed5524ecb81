use vstd::prelude::*;

use crate::error::XmlError;
use crate::tree::document::Document;
use crate::tree::node::Node;
use crate::tree::shape::decls_view;
use crate::tree::shape::rec_eq;
use crate::tree::shape::rec_eq_but_ns_decls;

verus! {

/// The deep, mathematical image of a namespace declaration.
pub ghost struct NamespaceView {
    /// The prefix the declaration binds
    pub prefix: Seq<char>,
    /// The href the prefix is bound to
    pub href: Seq<char>,
}

/// A namespace declaration: a prefix bound to an href.  A value-like
/// reference with no lifecycle of its own beyond the node that declares it.
#[derive(Debug, Clone)]
pub struct Namespace {
    /// The prefix the declaration binds (empty for a default declaration)
    pub prefix: Vec<char>,
    /// The href the prefix is bound to
    pub href: Vec<char>,
}

impl View for Namespace {
    type V = NamespaceView;

    open spec fn view(&self) -> NamespaceView {
        NamespaceView { prefix: self.prefix@, href: self.href@ }
    }
}

impl Namespace {
    /// Creates a new namespace declaration on `node`, which must be an
    /// element and pass the mutability guard, and returns it as a value.
    pub fn new(prefix: &str, href: &str, node: &Node, doc: &mut Document) -> (r: Result<
        Namespace,
        XmlError,
    >)
        requires
            old(doc).wf(),
            node.id < old(doc).nodes@.len(),
        ensures
            final(doc).wf(),
            r is Ok <==> old(doc).nodes@[node.id as int].alias_count < old(doc).guard && old(
                doc,
            ).nodes@[node.id as int].ntype == crate::tree::nodetype::NodeType::ElementNode,
            r is Err ==> *final(doc) == *old(doc),
            old(doc).nodes@[node.id as int].alias_count >= old(doc).guard ==> r == Err::<
                Namespace,
                XmlError,
            >(XmlError::AliasingError(old(doc).nodes@[node.id as int].alias_count)),
            (old(doc).nodes@[node.id as int].alias_count < old(doc).guard && old(doc).nodes@[
                node.id as int
            ].ntype != crate::tree::nodetype::NodeType::ElementNode) ==> r == Err::<
                Namespace,
                XmlError,
            >(XmlError::InvalidNamespaceError),
            r matches Ok(ns) ==> {
                &&& ns@.prefix == prefix@
                &&& ns@.href == href@
                &&& final(doc).nodes@.len() == old(doc).nodes@.len()
                &&& final(doc).guard == old(doc).guard
                &&& forall|j: int|
                    0 <= j < final(doc).nodes@.len() && j != node.id ==> rec_eq(
                        #[trigger] final(doc).nodes@[j],
                        old(doc).nodes@[j],
                    )
                &&& rec_eq_but_ns_decls(final(doc).nodes@[node.id as int], old(doc).nodes@[node.id as int])
                &&& decls_view(final(doc).nodes@[node.id as int].ns_decls@)
                    == decls_view(old(doc).nodes@[node.id as int].ns_decls@).push(
                    NamespaceView { prefix: prefix@, href: href@ },
                )
            },
    {
        let count = doc.nodes[node.id].alias_count;
        if count >= doc.guard {
            return Err(XmlError::AliasingError(count));
        }
        if doc.nodes[node.id].ntype != crate::tree::nodetype::NodeType::ElementNode {
            return Err(XmlError::InvalidNamespaceError);
        }
        let ns = Namespace { prefix: crate::tree::chars::str_to_chars(prefix), href: crate::tree::chars::str_to_chars(href) };
        let copy = Namespace { prefix: crate::tree::chars::str_to_chars(prefix), href: crate::tree::chars::str_to_chars(href) };
        doc.nodes[node.id].ns_decls.push(copy);
        proof {
            crate::tree::shape::lemma_shape_same(old(doc).nodes@, doc.nodes@);
        }
        Ok(ns)
    }

    /// The namespace prefix.
    pub fn get_prefix(&self) -> (r: String)
        ensures
            r@ == self@.prefix,
    {
        crate::tree::chars::chars_to_string(&self.prefix)
    }

    /// The namespace href.
    pub fn get_href(&self) -> (r: String)
        ensures
            r@ == self@.href,
    {
        crate::tree::chars::chars_to_string(&self.href)
    }

    /// The href as a character vector.
    pub(crate) fn href_chars(&self) -> (r: Vec<char>)
        ensures
            r@ == self@.href,
    {
        crate::tree::chars::copy_chars(&self.href)
    }

    /// A fresh copy of this namespace value.
    pub fn duplicate(&self) -> (r: Namespace)
        ensures
            r@ == self@,
    {
        Namespace {
            prefix: crate::tree::chars::copy_chars(&self.prefix),
            href: crate::tree::chars::copy_chars(&self.href),
        }
    }
}

} // verus!
