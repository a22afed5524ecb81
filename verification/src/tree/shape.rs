use vstd::prelude::*;

use crate::tree::namespace::Namespace;
use crate::tree::namespace::NamespaceView;
use crate::tree::nodetype::NodeType;

verus! {

/// One record of the node arena: a tree position.  Index 0 of the arena is
/// the document node itself; a record with `parent == None` other than index
/// 0 is a detached (unlinked) position.
pub struct NodeRec {
    /// What kind of node this position holds
    pub ntype: NodeType,
    /// Element, attribute or instruction-target name (empty for text nodes)
    pub name: Vec<char>,
    /// Text held directly by this node (text, cdata, comment, instruction
    /// and attribute nodes; empty for elements)
    pub content: Vec<char>,
    /// The position this node is linked under, if any
    pub parent: Option<usize>,
    /// Child positions, in tree order
    pub children: Vec<usize>,
    /// Attribute positions of an element, in declaration order
    pub attrs: Vec<usize>,
    /// Namespace declarations carried by this element
    pub ns_decls: Vec<Namespace>,
    /// The active namespace of this element or attribute, if any
    pub ns: Option<Namespace>,
    /// How many live handles alias this position, beyond the registry's own
    pub alias_count: u64,
    /// Strictly decreasing along every child edge; the termination witness
    /// for all downward traversals of the arena
    pub height: Ghost<nat>,
}

/// The active namespace, if any, of a record, as a mathematical value.
pub open spec fn ns_view(ns: Option<Namespace>) -> Option<NamespaceView> {
    match ns {
        Some(d) => Some(d@),
        None => None,
    }
}

/// The href, if any, of an optional namespace.
pub open spec fn ns_href_view(ns: Option<Namespace>) -> Option<Seq<char>> {
    match ns {
        Some(d) => Some(d.href@),
        None => None,
    }
}

/// The mathematical image of a declaration list.
pub open spec fn decls_view(decls: Seq<Namespace>) -> Seq<NamespaceView> {
    decls.map_values(|d: Namespace| d@)
}

/// A count incremented without overflowing.
pub open spec fn sat_inc(c: u64) -> u64 {
    if c < u64::MAX {
        (c + 1) as u64
    } else {
        c
    }
}

/// Full record equality, over the mathematical images of the fields.
pub open spec fn rec_eq(a: NodeRec, b: NodeRec) -> bool {
    &&& a.ntype == b.ntype
    &&& a.name@ == b.name@
    &&& a.content@ == b.content@
    &&& a.parent == b.parent
    &&& a.children@ == b.children@
    &&& a.attrs@ == b.attrs@
    &&& decls_view(a.ns_decls@) == decls_view(b.ns_decls@)
    &&& ns_view(a.ns) == ns_view(b.ns)
    &&& a.alias_count == b.alias_count
    &&& a.height@ == b.height@
}

/// Record equality up to the alias count.
pub open spec fn rec_eq_but_count(a: NodeRec, b: NodeRec) -> bool {
    &&& a.ntype == b.ntype
    &&& a.name@ == b.name@
    &&& a.content@ == b.content@
    &&& a.parent == b.parent
    &&& a.children@ == b.children@
    &&& a.attrs@ == b.attrs@
    &&& decls_view(a.ns_decls@) == decls_view(b.ns_decls@)
    &&& ns_view(a.ns) == ns_view(b.ns)
    &&& a.height@ == b.height@
}

/// Record equality up to the namespace declaration list.
pub open spec fn rec_eq_but_ns_decls(a: NodeRec, b: NodeRec) -> bool {
    &&& a.ntype == b.ntype
    &&& a.name@ == b.name@
    &&& a.content@ == b.content@
    &&& a.parent == b.parent
    &&& a.children@ == b.children@
    &&& a.attrs@ == b.attrs@
    &&& ns_view(a.ns) == ns_view(b.ns)
    &&& a.alias_count == b.alias_count
    &&& a.height@ == b.height@
}

/// Record equality up to the height witness.
pub open spec fn rec_eq_but_height(a: NodeRec, b: NodeRec) -> bool {
    &&& a.ntype == b.ntype
    &&& a.name@ == b.name@
    &&& a.content@ == b.content@
    &&& a.parent == b.parent
    &&& a.children@ == b.children@
    &&& a.attrs@ == b.attrs@
    &&& decls_view(a.ns_decls@) == decls_view(b.ns_decls@)
    &&& ns_view(a.ns) == ns_view(b.ns)
    &&& a.alias_count == b.alias_count
}

/// Record equality up to the parent link.
pub open spec fn rec_eq_but_parent(a: NodeRec, b: NodeRec) -> bool {
    &&& a.ntype == b.ntype
    &&& a.name@ == b.name@
    &&& a.content@ == b.content@
    &&& a.children@ == b.children@
    &&& a.attrs@ == b.attrs@
    &&& decls_view(a.ns_decls@) == decls_view(b.ns_decls@)
    &&& ns_view(a.ns) == ns_view(b.ns)
    &&& a.alias_count == b.alias_count
    &&& a.height@ == b.height@
}

/// Record equality up to the parent link and the height witness.
pub open spec fn rec_eq_but_parent_height(a: NodeRec, b: NodeRec) -> bool {
    &&& a.ntype == b.ntype
    &&& a.name@ == b.name@
    &&& a.content@ == b.content@
    &&& a.children@ == b.children@
    &&& a.attrs@ == b.attrs@
    &&& decls_view(a.ns_decls@) == decls_view(b.ns_decls@)
    &&& ns_view(a.ns) == ns_view(b.ns)
    &&& a.alias_count == b.alias_count
}

/// Record equality up to the child list.
pub open spec fn rec_eq_but_children(a: NodeRec, b: NodeRec) -> bool {
    &&& a.ntype == b.ntype
    &&& a.name@ == b.name@
    &&& a.content@ == b.content@
    &&& a.parent == b.parent
    &&& a.attrs@ == b.attrs@
    &&& decls_view(a.ns_decls@) == decls_view(b.ns_decls@)
    &&& ns_view(a.ns) == ns_view(b.ns)
    &&& a.alias_count == b.alias_count
    &&& a.height@ == b.height@
}

/// Record equality up to the child list and the height witness.
pub open spec fn rec_eq_but_children_height(a: NodeRec, b: NodeRec) -> bool {
    &&& a.ntype == b.ntype
    &&& a.name@ == b.name@
    &&& a.content@ == b.content@
    &&& a.parent == b.parent
    &&& a.attrs@ == b.attrs@
    &&& decls_view(a.ns_decls@) == decls_view(b.ns_decls@)
    &&& ns_view(a.ns) == ns_view(b.ns)
    &&& a.alias_count == b.alias_count
}

/// Record equality up to the stored content.
pub open spec fn rec_eq_but_content(a: NodeRec, b: NodeRec) -> bool {
    &&& a.ntype == b.ntype
    &&& a.name@ == b.name@
    &&& a.parent == b.parent
    &&& a.children@ == b.children@
    &&& a.attrs@ == b.attrs@
    &&& decls_view(a.ns_decls@) == decls_view(b.ns_decls@)
    &&& ns_view(a.ns) == ns_view(b.ns)
    &&& a.alias_count == b.alias_count
    &&& a.height@ == b.height@
}

/// Record equality up to the name.
pub open spec fn rec_eq_but_name(a: NodeRec, b: NodeRec) -> bool {
    &&& a.ntype == b.ntype
    &&& a.content@ == b.content@
    &&& a.parent == b.parent
    &&& a.children@ == b.children@
    &&& a.attrs@ == b.attrs@
    &&& decls_view(a.ns_decls@) == decls_view(b.ns_decls@)
    &&& ns_view(a.ns) == ns_view(b.ns)
    &&& a.alias_count == b.alias_count
    &&& a.height@ == b.height@
}

/// Record equality up to the attribute list.
pub open spec fn rec_eq_but_attrs(a: NodeRec, b: NodeRec) -> bool {
    &&& a.ntype == b.ntype
    &&& a.name@ == b.name@
    &&& a.content@ == b.content@
    &&& a.parent == b.parent
    &&& a.children@ == b.children@
    &&& decls_view(a.ns_decls@) == decls_view(b.ns_decls@)
    &&& ns_view(a.ns) == ns_view(b.ns)
    &&& a.alias_count == b.alias_count
    &&& a.height@ == b.height@
}

/// Record equality up to the active namespace.
pub open spec fn rec_eq_but_ns(a: NodeRec, b: NodeRec) -> bool {
    &&& a.ntype == b.ntype
    &&& a.name@ == b.name@
    &&& a.content@ == b.content@
    &&& a.parent == b.parent
    &&& a.children@ == b.children@
    &&& a.attrs@ == b.attrs@
    &&& decls_view(a.ns_decls@) == decls_view(b.ns_decls@)
    &&& a.alias_count == b.alias_count
    &&& a.height@ == b.height@
}

/// Record equality up to the active namespace and the declaration list.
pub open spec fn rec_eq_but_all_ns(a: NodeRec, b: NodeRec) -> bool {
    &&& a.ntype == b.ntype
    &&& a.name@ == b.name@
    &&& a.content@ == b.content@
    &&& a.parent == b.parent
    &&& a.children@ == b.children@
    &&& a.attrs@ == b.attrs@
    &&& a.alias_count == b.alias_count
    &&& a.height@ == b.height@
}

/// The fields that the structural well-formedness of the arena reads.
pub open spec fn same_shape_fields(a: NodeRec, b: NodeRec) -> bool {
    &&& a.ntype == b.ntype
    &&& a.parent == b.parent
    &&& a.children@ == b.children@
    &&& a.attrs@ == b.attrs@
    &&& a.height@ == b.height@
}

/// What a well-formed child edge from position `i` to position `c` requires:
/// the child is a real position, points back at `i`, sits strictly lower in
/// height, and is neither an attribute nor the document node.
pub open spec fn child_edge_ok(nodes: Seq<NodeRec>, i: int, c: int) -> bool {
    &&& 0 <= c < nodes.len()
    &&& nodes[c].parent == Some(i as usize)
    &&& nodes[c].height@ < nodes[i].height@
    &&& nodes[c].ntype != NodeType::AttributeNode
    &&& nodes[c].ntype != NodeType::DocumentNode
}

/// What a well-formed attribute edge from element `i` to position `a`
/// requires.
pub open spec fn attr_edge_ok(nodes: Seq<NodeRec>, i: int, a: int) -> bool {
    &&& 0 <= a < nodes.len()
    &&& nodes[a].parent == Some(i as usize)
    &&& nodes[a].ntype == NodeType::AttributeNode
}

/// Well-formedness of one arena record: every child and attribute edge is
/// coherent, children and attributes are listed at most once, attribute
/// nodes carry no structure of their own, and a linked node is listed by its
/// parent.
pub open spec fn node_ok(nodes: Seq<NodeRec>, i: int) -> bool {
    let n = nodes[i];
    &&& forall|k: int|
        0 <= k < n.children@.len() ==> child_edge_ok(nodes, i, #[trigger] n.children@[k] as int)
    &&& forall|k1: int, k2: int|
        0 <= k1 < k2 < n.children@.len() ==> n.children@[k1] != n.children@[k2]
    &&& forall|k: int|
        0 <= k < n.attrs@.len() ==> attr_edge_ok(nodes, i, #[trigger] n.attrs@[k] as int)
    &&& forall|k1: int, k2: int| 0 <= k1 < k2 < n.attrs@.len() ==> n.attrs@[k1] != n.attrs@[k2]
    &&& n.ntype == NodeType::AttributeNode ==> n.children@.len() == 0 && n.attrs@.len() == 0
    &&& match n.parent {
        Some(p) => 0 <= p < nodes.len() && (nodes[p as int].children@.contains(i as usize)
            || nodes[p as int].attrs@.contains(i as usize)),
        None => true,
    }
}

/// Well-formedness of the whole arena.
pub open spec fn shape_ok(nodes: Seq<NodeRec>) -> bool {
    forall|i: int| 0 <= i < nodes.len() ==> #[trigger] node_ok(nodes, i)
}

/// Two arenas that agree position for position on the structural fields are
/// equally well-formed.
pub proof fn lemma_shape_same(a: Seq<NodeRec>, b: Seq<NodeRec>)
    requires
        shape_ok(a),
        a.len() == b.len(),
        forall|j: int| 0 <= j < a.len() ==> same_shape_fields(#[trigger] a[j], b[j]),
    ensures
        shape_ok(b),
{
    assert forall|i: int| 0 <= i < b.len() implies #[trigger] node_ok(b, i) by {
        assert(node_ok(a, i));
        assert forall|k: int| 0 <= k < b[i].children@.len() implies child_edge_ok(
            b,
            i,
            #[trigger] b[i].children@[k] as int,
        ) by {
            assert(child_edge_ok(a, i, a[i].children@[k] as int));
        }
        assert forall|k: int| 0 <= k < b[i].attrs@.len() implies attr_edge_ok(
            b,
            i,
            #[trigger] b[i].attrs@[k] as int,
        ) by {
            assert(attr_edge_ok(a, i, a[i].attrs@[k] as int));
        }
    }
}

/// Whether position `t` lies in the subtree rooted at position `i`
/// (descendant-or-self, through child edges only).
pub open spec fn in_subtree(nodes: Seq<NodeRec>, i: int, t: int) -> bool
    decreases nodes[i].height@
        when shape_ok(nodes) && 0 <= i < nodes.len()
{
    if i == t {
        true
    } else {
        proof {
            assert(node_ok(nodes, i));
        }
        exists|k: int|
            0 <= k < nodes[i].children@.len() && in_subtree(
                nodes,
                #[trigger] nodes[i].children@[k] as int,
                t,
            )
    }
}

/// The text value of the subtree rooted at `i`: the content of a text-like
/// node, or the concatenation of the children's text values in order.
pub open spec fn text_of(nodes: Seq<NodeRec>, i: int) -> Seq<char>
    decreases nodes[i].height@, 1int, 0int
        when shape_ok(nodes) && 0 <= i < nodes.len()
{
    if holds_text(nodes[i].ntype) {
        nodes[i].content@
    } else {
        text_of_children_from(nodes, i, 0)
    }
}

/// The concatenated text values of the children of `i` from child slot `k`
/// onward.
pub open spec fn text_of_children_from(nodes: Seq<NodeRec>, i: int, k: int) -> Seq<char>
    decreases nodes[i].height@, 0int, nodes[i].children@.len() - k
        when shape_ok(nodes) && 0 <= i < nodes.len() && 0 <= k <= nodes[i].children@.len()
{
    if k >= nodes[i].children@.len() {
        Seq::empty()
    } else {
        proof {
            assert(node_ok(nodes, i));
            assert(child_edge_ok(nodes, i, nodes[i].children@[k] as int));
        }
        text_of(nodes, nodes[i].children@[k] as int) + text_of_children_from(nodes, i, k + 1)
    }
}

/// Which node kinds hold their text directly in their own content field.
pub open spec fn holds_text(t: NodeType) -> bool {
    ||| t == NodeType::TextNode
    ||| t == NodeType::CDataSectionNode
    ||| t == NodeType::CommentNode
    ||| t == NodeType::PiNode
    ||| t == NodeType::AttributeNode
}

/// The fields of a record that the subtree text value can depend on.
pub open spec fn same_text_fields(a: NodeRec, b: NodeRec) -> bool {
    &&& a.ntype == b.ntype
    &&& a.content@ == b.content@
    &&& a.children@ == b.children@
}

/// The text value of a subtree reads only node kinds, contents and child
/// lists, and only at the positions of that subtree: two well-formed arenas
/// that agree on those fields across the subtree give it the same text
/// value.
pub proof fn lemma_text_local(n1: Seq<NodeRec>, n2: Seq<NodeRec>, i: int)
    requires
        shape_ok(n1),
        shape_ok(n2),
        n1.len() <= n2.len(),
        0 <= i < n1.len(),
        forall|j: int|
            0 <= j < n1.len() && in_subtree(n1, i, j) ==> same_text_fields(
                #[trigger] n1[j],
                n2[j],
            ),
    ensures
        text_of(n1, i) == text_of(n2, i),
    decreases n1[i].height@, 1int, 0int,
{
    assert(node_ok(n1, i));
    assert(in_subtree(n1, i, i));
    if holds_text(n1[i].ntype) {
    } else {
        lemma_text_children_local(n1, n2, i, 0);
    }
}

/// Child-list form of the local text frame property.
pub proof fn lemma_text_children_local(n1: Seq<NodeRec>, n2: Seq<NodeRec>, i: int, k: int)
    requires
        shape_ok(n1),
        shape_ok(n2),
        n1.len() <= n2.len(),
        0 <= i < n1.len(),
        0 <= k <= n1[i].children@.len(),
        n1[i].children@ == n2[i].children@,
        forall|j: int|
            0 <= j < n1.len() && in_subtree(n1, i, j) ==> same_text_fields(
                #[trigger] n1[j],
                n2[j],
            ),
    ensures
        text_of_children_from(n1, i, k) == text_of_children_from(n2, i, k),
    decreases n1[i].height@, 0int, n1[i].children@.len() - k,
{
    assert(node_ok(n1, i));
    if k >= n1[i].children@.len() {
    } else {
        let c = n1[i].children@[k] as int;
        assert(child_edge_ok(n1, i, c));
        assert(in_subtree(n1, i, c)) by {
            lemma_in_subtree_step(n1, i, i, k);
        }
        assert forall|j: int| 0 <= j < n1.len() && in_subtree(n1, c, j) implies same_text_fields(
            #[trigger] n1[j],
            n2[j],
        ) by {
            lemma_in_subtree_trans(n1, i, c, j);
        }
        lemma_text_local(n1, n2, c);
        lemma_text_children_local(n1, n2, i, k + 1);
    }
}

/// Subtree membership is transitive.
pub proof fn lemma_in_subtree_trans(nodes: Seq<NodeRec>, a: int, b: int, c: int)
    requires
        shape_ok(nodes),
        0 <= a < nodes.len(),
        in_subtree(nodes, a, b),
        0 <= b < nodes.len(),
        in_subtree(nodes, b, c),
    ensures
        in_subtree(nodes, a, c),
    decreases nodes[a].height@,
{
    assert(node_ok(nodes, a));
    if a == b {
    } else {
        let k = choose|k: int|
            0 <= k < nodes[a].children@.len() && in_subtree(
                nodes,
                #[trigger] nodes[a].children@[k] as int,
                b,
            );
        assert(child_edge_ok(nodes, a, nodes[a].children@[k] as int));
        lemma_in_subtree_trans(nodes, nodes[a].children@[k] as int, b, c);
    }
}

/// Every member of a subtree is a real arena position, no higher than the
/// subtree root.
pub proof fn lemma_in_subtree_bounds(nodes: Seq<NodeRec>, i: int, t: int)
    requires
        shape_ok(nodes),
        0 <= i < nodes.len(),
        in_subtree(nodes, i, t),
    ensures
        0 <= t < nodes.len(),
        nodes[t].height@ <= nodes[i].height@,
    decreases nodes[i].height@,
{
    assert(node_ok(nodes, i));
    if i == t {
    } else {
        let k = choose|k: int|
            0 <= k < nodes[i].children@.len() && in_subtree(
                nodes,
                #[trigger] nodes[i].children@[k] as int,
                t,
            );
        assert(child_edge_ok(nodes, i, nodes[i].children@[k] as int));
        lemma_in_subtree_bounds(nodes, nodes[i].children@[k] as int, t);
    }
}

/// A child edge without its height constraint.
pub open spec fn child_edge_base(nodes: Seq<NodeRec>, i: int, c: int) -> bool {
    &&& 0 <= c < nodes.len()
    &&& nodes[c].parent == Some(i as usize)
    &&& nodes[c].ntype != NodeType::AttributeNode
    &&& nodes[c].ntype != NodeType::DocumentNode
}

/// Well-formedness of one record while the height of position `x` is being
/// re-established: for the children of `x` alone, a height bounded by
/// `bound` is accepted in place of one strictly below the parent's.
pub open spec fn node_ok_pending(nodes: Seq<NodeRec>, i: int, x: int, bound: nat) -> bool {
    let n = nodes[i];
    &&& forall|k: int|
        0 <= k < n.children@.len() ==> child_edge_base(nodes, i, #[trigger] n.children@[k] as int)
    &&& forall|k: int|
        0 <= k < n.children@.len() ==> (nodes[#[trigger] n.children@[k] as int].height@
            < nodes[i].height@ || (i == x && nodes[n.children@[k] as int].height@ <= bound))
    &&& forall|k1: int, k2: int|
        0 <= k1 < k2 < n.children@.len() ==> n.children@[k1] != n.children@[k2]
    &&& forall|k: int|
        0 <= k < n.attrs@.len() ==> attr_edge_ok(nodes, i, #[trigger] n.attrs@[k] as int)
    &&& forall|k1: int, k2: int| 0 <= k1 < k2 < n.attrs@.len() ==> n.attrs@[k1] != n.attrs@[k2]
    &&& n.ntype == NodeType::AttributeNode ==> n.children@.len() == 0 && n.attrs@.len() == 0
    &&& match n.parent {
        Some(p) => 0 <= p < nodes.len() && (nodes[p as int].children@.contains(i as usize)
            || nodes[p as int].attrs@.contains(i as usize)),
        None => true,
    }
}

/// Arena well-formedness while the height of position `x` is pending.
pub open spec fn shape_ok_pending(nodes: Seq<NodeRec>, x: int, bound: nat) -> bool {
    forall|i: int| 0 <= i < nodes.len() ==> #[trigger] node_ok_pending(nodes, i, x, bound)
}

/// A fully well-formed arena is also well-formed with any pending position.
pub proof fn lemma_shape_to_pending(nodes: Seq<NodeRec>, x: int, bound: nat)
    requires
        shape_ok(nodes),
    ensures
        shape_ok_pending(nodes, x, bound),
{
    assert forall|i: int| 0 <= i < nodes.len() implies #[trigger] node_ok_pending(
        nodes,
        i,
        x,
        bound,
    ) by {
        assert(node_ok(nodes, i));
        assert forall|k: int| 0 <= k < nodes[i].children@.len() implies child_edge_base(
            nodes,
            i,
            #[trigger] nodes[i].children@[k] as int,
        ) && nodes[nodes[i].children@[k] as int].height@ < nodes[i].height@ by {
            assert(child_edge_ok(nodes, i, nodes[i].children@[k] as int));
        }
    }
}

/// Once the pending position sits strictly above its bound, the arena is
/// fully well-formed again.
pub proof fn lemma_pending_to_shape(nodes: Seq<NodeRec>, x: int, bound: nat)
    requires
        shape_ok_pending(nodes, x, bound),
        0 <= x < nodes.len() ==> nodes[x].height@ > bound,
    ensures
        shape_ok(nodes),
{
    assert forall|i: int| 0 <= i < nodes.len() implies #[trigger] node_ok(nodes, i) by {
        assert(node_ok_pending(nodes, i, x, bound));
        assert forall|k: int| 0 <= k < nodes[i].children@.len() implies child_edge_ok(
            nodes,
            i,
            #[trigger] nodes[i].children@[k] as int,
        ) by {
            assert(child_edge_base(nodes, i, nodes[i].children@[k] as int));
            assert(nodes[nodes[i].children@[k] as int].height@ < nodes[i].height@ || (i == x
                && nodes[nodes[i].children@[k] as int].height@ <= bound));
        }
    }
}

/// In a well-formed arena, a strict subtree member's parent is a subtree
/// member as well.
pub proof fn lemma_subtree_parent(nodes: Seq<NodeRec>, i: int, t: int)
    requires
        shape_ok(nodes),
        nodes.len() <= usize::MAX as int,
        0 <= i < nodes.len(),
        in_subtree(nodes, i, t),
        t != i,
    ensures
        nodes[t].parent is Some,
        in_subtree(nodes, i, nodes[t].parent->0 as int),
    decreases nodes[i].height@,
{
    assert(node_ok(nodes, i));
    let k = choose|k: int|
        0 <= k < nodes[i].children@.len() && in_subtree(
            nodes,
            #[trigger] nodes[i].children@[k] as int,
            t,
        );
    let c = nodes[i].children@[k] as int;
    assert(child_edge_ok(nodes, i, c));
    if c == t {
        assert(nodes[t].parent == Some(i as usize));
        assert(i as usize as int == i);
        assert(in_subtree(nodes, i, i));
    } else {
        lemma_subtree_parent(nodes, c, t);
        lemma_in_subtree_bounds(nodes, c, t);
        assert(in_subtree(nodes, c, nodes[t].parent->0 as int));
        assert(in_subtree(nodes, i, c)) by {
            assert(in_subtree(nodes, c, c));
        }
        lemma_in_subtree_trans(nodes, i, c, nodes[t].parent->0 as int);
    }
}

/// Subtrees of two distinct children of one node are disjoint: the second
/// child does not lie inside the first child's subtree.
pub proof fn lemma_siblings_disjoint(nodes: Seq<NodeRec>, p: int, c1: int, c2: int)
    requires
        shape_ok(nodes),
        0 <= p < nodes.len(),
        nodes[p].children@.contains(c1 as usize),
        nodes[p].children@.contains(c2 as usize),
        0 <= c1 < nodes.len(),
        0 <= c2 < nodes.len(),
        c1 != c2,
        nodes.len() <= usize::MAX as int,
    ensures
        !in_subtree(nodes, c1, c2),
{
    lemma_member_edge(nodes, p, c1 as usize);
    lemma_member_edge(nodes, p, c2 as usize);
    if in_subtree(nodes, c1, c2) {
        lemma_subtree_parent(nodes, c1, c2);
        assert(nodes[c2].parent == Some(p as usize));
        assert(in_subtree(nodes, c1, p));
        lemma_in_subtree_bounds(nodes, c1, p);
        assert(nodes[p].height@ <= nodes[c1].height@);
        assert(nodes[c1].height@ < nodes[p].height@);
    }
}

/// A member of a filtered list is a member of the list and satisfies the
/// filter.
pub proof fn lemma_filter_member(s: Seq<usize>, pred: spec_fn(usize) -> bool, x: usize)
    requires
        s.filter(pred).contains(x),
    ensures
        s.contains(x),
        pred(x),
    decreases s.len(),
{
    reveal(Seq::filter);
    if s.len() == 0 {
    } else {
        let sub = s.drop_last().filter(pred);
        if pred(s.last()) && x == s.last() {
            assert(s[s.len() - 1] == x);
        } else {
            assert(sub.contains(x)) by {
                let m = choose|m: int|
                    0 <= m < s.filter(pred).len() && s.filter(pred)[m] == x;
                if pred(s.last()) {
                    assert(s.filter(pred) == sub.push(s.last()));
                    assert(m < sub.len());
                    assert(sub[m] == x);
                }
            }
            lemma_filter_member(s.drop_last(), pred, x);
            let j = choose|j: int| 0 <= j < s.drop_last().len() && s.drop_last()[j] == x;
            assert(s[j] == x);
        }
    }
}

/// In a list without repeated entries, the index of a listed value is the
/// slot where it stands.
pub proof fn lemma_index_of_distinct(s: Seq<usize>, x: usize, k: int)
    requires
        0 <= k < s.len(),
        s[k] == x,
        forall|k1: int, k2: int| 0 <= k1 < k2 < s.len() ==> s[k1] != s[k2],
    ensures
        s.index_of(x) == k,
{
    assert(s.contains(x));
    let m = s.index_of(x);
    assert(0 <= m < s.len() && s[m] == x);
    if m < k {
        assert(s[m] != s[k]);
    }
    if m > k {
        assert(s[k] != s[m]);
    }
}

/// The next sibling of a linked position, if any: the entry after it in its
/// parent's child list.
pub open spec fn next_sibling_of(nodes: Seq<NodeRec>, i: int) -> Option<usize> {
    match nodes[i].parent {
        Some(p) => {
            let ks = nodes[p as int].children@;
            if ks.contains(i as usize) {
                let k = ks.index_of(i as usize);
                if k + 1 < ks.len() {
                    Some(ks[k + 1])
                } else {
                    None
                }
            } else {
                None
            }
        },
        None => None,
    }
}

/// The previous sibling of a linked position, if any.
pub open spec fn prev_sibling_of(nodes: Seq<NodeRec>, i: int) -> Option<usize> {
    match nodes[i].parent {
        Some(p) => {
            let ks = nodes[p as int].children@;
            if ks.contains(i as usize) {
                let k = ks.index_of(i as usize);
                if k > 0 {
                    Some(ks[k - 1])
                } else {
                    None
                }
            } else {
                None
            }
        },
        None => None,
    }
}

/// The first child of a position, if any.
pub open spec fn first_child_of(nodes: Seq<NodeRec>, i: int) -> Option<usize> {
    if nodes[i].children@.len() > 0 {
        Some(nodes[i].children@[0])
    } else {
        None
    }
}

/// The last child of a position, if any.
pub open spec fn last_child_of(nodes: Seq<NodeRec>, i: int) -> Option<usize> {
    if nodes[i].children@.len() > 0 {
        Some(nodes[i].children@[nodes[i].children@.len() - 1])
    } else {
        None
    }
}

/// When every slice entry before `k` fails the element test and the entry
/// at `k` passes it, the first-element scan lands exactly on slot `k`.
pub proof fn lemma_first_elem_at(nodes: Seq<NodeRec>, s: Seq<usize>, k: int)
    requires
        0 <= k < s.len(),
        forall|j: int|
            0 <= j < k ==> !(0 <= (#[trigger] s[j]) < nodes.len() && nodes[s[j] as int].ntype
                == NodeType::ElementNode),
        0 <= s[k] < nodes.len(),
        nodes[s[k] as int].ntype == NodeType::ElementNode,
    ensures
        first_elem_from(nodes, s, 0) == Some(s[k]),
    decreases k,
{
    if k == 0 {
    } else {
        lemma_first_elem_shift(nodes, s, 0, k);
    }
}

/// The first-element scan passes over slots that fail the element test.
pub proof fn lemma_first_elem_shift(nodes: Seq<NodeRec>, s: Seq<usize>, lo: int, k: int)
    requires
        0 <= lo <= k < s.len(),
        forall|j: int|
            0 <= j < k ==> !(0 <= (#[trigger] s[j]) < nodes.len() && nodes[s[j] as int].ntype
                == NodeType::ElementNode),
        0 <= s[k] < nodes.len(),
        nodes[s[k] as int].ntype == NodeType::ElementNode,
    ensures
        first_elem_from(nodes, s, lo) == Some(s[k]),
    decreases k - lo,
{
    if lo < k {
        lemma_first_elem_shift(nodes, s, lo + 1, k);
    }
}

/// The first element node in slice `s` from slot `k` onward, if any.
pub open spec fn first_elem_from(nodes: Seq<NodeRec>, s: Seq<usize>, k: int) -> Option<usize>
    decreases s.len() - k
        when 0 <= k <= s.len()
{
    if k >= s.len() {
        None
    } else if 0 <= s[k] < nodes.len() && nodes[s[k] as int].ntype == NodeType::ElementNode {
        Some(s[k])
    } else {
        first_elem_from(nodes, s, k + 1)
    }
}

/// The last element node in slice `s` at a slot below `k`, if any.
pub open spec fn last_elem_before(nodes: Seq<NodeRec>, s: Seq<usize>, k: int) -> Option<usize>
    decreases k
        when 0 <= k <= s.len()
{
    if k <= 0 {
        None
    } else if 0 <= s[k - 1] < nodes.len() && nodes[s[k - 1] as int].ntype
        == NodeType::ElementNode {
        Some(s[k - 1])
    } else {
        last_elem_before(nodes, s, k - 1)
    }
}

/// Extending the content of the text-like last child of `i` extends the
/// concatenated text of `i`'s children by the same amount.
pub proof fn lemma_tocf_extend(n1: Seq<NodeRec>, n2: Seq<NodeRec>, i: int, k: int, x: int, s: Seq<char>)
    requires
        shape_ok(n1),
        shape_ok(n2),
        n1.len() == n2.len(),
        n1.len() <= usize::MAX as int,
        0 <= i < n1.len(),
        0 <= x < n1.len(),
        x != i,
        holds_text(n1[x].ntype),
        forall|j: int| 0 <= j < n1.len() && j != x ==> n2[j] == #[trigger] n1[j],
        rec_eq_but_content(n2[x], n1[x]),
        n2[x].content@ == n1[x].content@ + s,
        n1[i].children@.len() > 0,
        n1[i].children@.last() == x as usize,
        0 <= k < n1[i].children@.len(),
    ensures
        text_of_children_from(n2, i, k) == text_of_children_from(n1, i, k) + s,
    decreases n1[i].children@.len() - k,
{
    assert(node_ok(n1, i));
    let len = n1[i].children@.len() as int;
    let c = n1[i].children@[k] as int;
    assert(child_edge_ok(n1, i, c));
    assert(n2[i].children@ == n1[i].children@);
    if k == len - 1 {
        assert(c == x);
        assert(text_of(n2, x) == n2[x].content@);
        assert(text_of(n1, x) == n1[x].content@);
        assert(text_of_children_from(n2, i, k) == text_of(n2, x) + text_of_children_from(
            n2,
            i,
            k + 1,
        ));
        assert(text_of_children_from(n2, i, len) =~= Seq::<char>::empty());
        assert(text_of_children_from(n1, i, len) =~= Seq::<char>::empty());
        assert(text_of_children_from(n2, i, k) =~= (n1[x].content@ + s));
        assert(text_of_children_from(n1, i, k) =~= n1[x].content@);
    } else {
        assert(c != x) by {
            assert(n1[i].children@[k] != n1[i].children@[len - 1]);
        }
        assert(text_of(n2, c) == text_of(n1, c)) by {
            assert forall|j: int|
                0 <= j < n1.len() && in_subtree(n1, c, j) implies same_text_fields(
                #[trigger] n1[j],
                n2[j],
            ) by {
                if j == x {
                    lemma_siblings_disjoint(n1, i, c, x);
                }
            }
            lemma_text_local(n1, n2, c);
        }
        lemma_tocf_extend(n1, n2, i, k + 1, x, s);
        assert(text_of_children_from(n2, i, k) == text_of(n2, c) + text_of_children_from(
            n2,
            i,
            k + 1,
        ));
        assert((text_of(n1, c) + (text_of_children_from(n1, i, k + 1) + s)) =~= ((text_of(
            n1,
            c,
        ) + text_of_children_from(n1, i, k + 1)) + s));
    }
}

/// Appending a fresh text-holding child at the end of `i`'s child list
/// extends the concatenated text of `i`'s children by that child's text.
pub proof fn lemma_tocf_push(n1: Seq<NodeRec>, n2: Seq<NodeRec>, i: int, k: int, x: int)
    requires
        shape_ok(n1),
        shape_ok(n2),
        n1.len() <= n2.len(),
        n1.len() <= usize::MAX as int,
        n2.len() <= usize::MAX as int,
        0 <= i < n1.len(),
        n1.len() <= x < n2.len(),
        forall|j: int|
            0 <= j < n1.len() && j != i ==> same_text_fields(#[trigger] n1[j], n2[j]),
        n2[i].children@ == n1[i].children@.push(x as usize),
        0 <= k <= n1[i].children@.len(),
    ensures
        text_of_children_from(n2, i, k) == text_of_children_from(n1, i, k) + text_of(n2, x),
    decreases n1[i].children@.len() - k,
{
    assert(node_ok(n1, i));
    assert(node_ok(n2, i));
    let len = n1[i].children@.len() as int;
    if k == len {
        assert(text_of_children_from(n1, i, len) =~= Seq::<char>::empty());
        assert(n2[i].children@[len] == x as usize);
        assert(child_edge_ok(n2, i, x));
        assert(text_of_children_from(n2, i, len) == text_of(n2, x) + text_of_children_from(
            n2,
            i,
            len + 1,
        ));
        assert(text_of_children_from(n2, i, len + 1) =~= Seq::<char>::empty());
        assert(text_of_children_from(n2, i, len) =~= text_of(n2, x));
        assert(Seq::<char>::empty() + text_of(n2, x) =~= text_of(n2, x));
    } else {
        let c = n1[i].children@[k] as int;
        assert(child_edge_ok(n1, i, c));
        assert(n2[i].children@[k] == n1[i].children@[k]);
        assert(child_edge_ok(n2, i, c));
        assert(text_of(n2, c) == text_of(n1, c)) by {
            assert forall|j: int|
                0 <= j < n1.len() && in_subtree(n1, c, j) implies same_text_fields(
                #[trigger] n1[j],
                n2[j],
            ) by {
                if j == i {
                    lemma_in_subtree_bounds(n1, c, i);
                }
            }
            lemma_text_local(n1, n2, c);
        }
        lemma_tocf_push(n1, n2, i, k + 1, x);
        assert(text_of_children_from(n2, i, k) == text_of(n2, c) + text_of_children_from(
            n2,
            i,
            k + 1,
        ));
        assert(text_of_children_from(n1, i, k) == text_of(n1, c) + text_of_children_from(
            n1,
            i,
            k + 1,
        ));
        assert((text_of(n1, c) + (text_of_children_from(n1, i, k + 1) + text_of(n2, x))) =~= ((
        text_of(n1, c) + text_of_children_from(n1, i, k + 1)) + text_of(n2, x)));
    }
}

/// The positions of the subtree at `i`, in document order (the node, then
/// each child's subtree in turn).
pub open spec fn preorder(nodes: Seq<NodeRec>, i: int) -> Seq<int>
    decreases nodes[i].height@, 1int, 0int
        when shape_ok(nodes) && 0 <= i < nodes.len()
{
    seq![i] + preorder_kids(nodes, i, 0)
}

/// The positions of the subtrees of `i`'s children from slot `k` on, in
/// document order.
pub open spec fn preorder_kids(nodes: Seq<NodeRec>, i: int, k: int) -> Seq<int>
    decreases nodes[i].height@, 0int, nodes[i].children@.len() - k
        when shape_ok(nodes) && 0 <= i < nodes.len() && 0 <= k <= nodes[i].children@.len()
{
    if k >= nodes[i].children@.len() {
        Seq::empty()
    } else {
        proof {
            assert(node_ok(nodes, i));
            assert(child_edge_ok(nodes, i, nodes[i].children@[k] as int));
        }
        preorder(nodes, nodes[i].children@[k] as int) + preorder_kids(nodes, i, k + 1)
    }
}

/// Every entry of a preorder walk is a subtree member, and so a real
/// position.
pub proof fn lemma_preorder_members(nodes: Seq<NodeRec>, i: int, m: int)
    requires
        shape_ok(nodes),
        0 <= i < nodes.len(),
        0 <= m < preorder(nodes, i).len(),
    ensures
        in_subtree(nodes, i, preorder(nodes, i)[m]),
        0 <= preorder(nodes, i)[m] < nodes.len(),
    decreases nodes[i].height@, 1int, 0int,
{
    assert(node_ok(nodes, i));
    if m == 0 {
        assert(in_subtree(nodes, i, i));
    } else {
        lemma_preorder_kids_members(nodes, i, 0, m - 1);
    }
}

/// Kid-list form of the preorder membership property.
pub proof fn lemma_preorder_kids_members(nodes: Seq<NodeRec>, i: int, k: int, m: int)
    requires
        shape_ok(nodes),
        0 <= i < nodes.len(),
        0 <= k <= nodes[i].children@.len(),
        0 <= m < preorder_kids(nodes, i, k).len(),
    ensures
        in_subtree(nodes, i, preorder_kids(nodes, i, k)[m]),
        0 <= preorder_kids(nodes, i, k)[m] < nodes.len(),
    decreases nodes[i].height@, 0int, nodes[i].children@.len() - k,
{
    assert(node_ok(nodes, i));
    let c = nodes[i].children@[k] as int;
    assert(child_edge_ok(nodes, i, c));
    if m < preorder(nodes, c).len() {
        lemma_preorder_members(nodes, c, m);
        assert(in_subtree(nodes, c, preorder(nodes, c)[m]));
        assert(in_subtree(nodes, i, c)) by {
            assert(in_subtree(nodes, c, c));
        }
        lemma_in_subtree_trans(nodes, i, c, preorder(nodes, c)[m]);
    } else {
        lemma_preorder_kids_members(nodes, i, k + 1, m - preorder(nodes, c).len());
    }
}

/// Every subtree member appears in the preorder walk.
pub proof fn preorder_covers(nodes: Seq<NodeRec>, i: int, t: int)
    requires
        shape_ok(nodes),
        0 <= i < nodes.len(),
        in_subtree(nodes, i, t),
    ensures
        preorder(nodes, i).contains(t),
    decreases nodes[i].height@, 1int, 0int,
{
    assert(node_ok(nodes, i));
    if i == t {
        assert(preorder(nodes, i)[0] == t);
    } else {
        let k = choose|k: int|
            0 <= k < nodes[i].children@.len() && in_subtree(
                nodes,
                #[trigger] nodes[i].children@[k] as int,
                t,
            );
        assert(child_edge_ok(nodes, i, nodes[i].children@[k] as int));
        preorder_kids_covers(nodes, i, 0, k, t);
        let m = choose|m: int|
            0 <= m < preorder_kids(nodes, i, 0).len() && preorder_kids(nodes, i, 0)[m] == t;
        assert(preorder(nodes, i)[m + 1] == t);
    }
}

/// Kid-list form of preorder coverage.
pub proof fn preorder_kids_covers(nodes: Seq<NodeRec>, i: int, k: int, kk: int, t: int)
    requires
        shape_ok(nodes),
        0 <= i < nodes.len(),
        0 <= k <= kk < nodes[i].children@.len(),
        in_subtree(nodes, nodes[i].children@[kk] as int, t),
    ensures
        preorder_kids(nodes, i, k).contains(t),
    decreases nodes[i].height@, 0int, nodes[i].children@.len() - k,
{
    assert(node_ok(nodes, i));
    let c = nodes[i].children@[k] as int;
    assert(child_edge_ok(nodes, i, c));
    if k == kk {
        preorder_covers(nodes, c, t);
        let m = choose|m: int| 0 <= m < preorder(nodes, c).len() && preorder(nodes, c)[m] == t;
        assert(preorder_kids(nodes, i, k)[m] == t);
    } else {
        preorder_kids_covers(nodes, i, k + 1, kk, t);
        let m = choose|m: int|
            0 <= m < preorder_kids(nodes, i, k + 1).len() && #[trigger] preorder_kids(
                nodes,
                i,
                k + 1,
            )[m] == t;
        assert(preorder_kids(nodes, i, k)[preorder(nodes, c).len() + m] == t);
    }
}

/// Appending a fresh detached record without children keeps the arena
/// well-formed.
pub proof fn lemma_shape_push(n1: Seq<NodeRec>, r: NodeRec)
    requires
        shape_ok(n1),
        r.parent is None,
        r.children@.len() == 0,
        r.attrs@.len() == 0,
    ensures
        shape_ok(n1.push(r)),
{
    let n2 = n1.push(r);
    assert forall|i: int| 0 <= i < n2.len() implies #[trigger] node_ok(n2, i) by {
        if i < n1.len() {
            assert(node_ok(n1, i));
            assert forall|k: int| 0 <= k < n2[i].children@.len() implies child_edge_ok(
                n2,
                i,
                #[trigger] n2[i].children@[k] as int,
            ) by {
                assert(child_edge_ok(n1, i, n1[i].children@[k] as int));
            }
            assert forall|k: int| 0 <= k < n2[i].attrs@.len() implies attr_edge_ok(
                n2,
                i,
                #[trigger] n2[i].attrs@[k] as int,
            ) by {
                assert(attr_edge_ok(n1, i, n1[i].attrs@[k] as int));
            }
        }
    }
}

/// Subtree membership is preserved when the subtree's child lists are: the
/// forward direction.
pub proof fn lemma_in_subtree_mono_fwd(n1: Seq<NodeRec>, n2: Seq<NodeRec>, i: int, t: int)
    requires
        shape_ok(n1),
        shape_ok(n2),
        n1.len() <= n2.len(),
        0 <= i < n1.len(),
        forall|j: int|
            0 <= j < n1.len() && in_subtree(n1, i, j) ==> n2[j].children@ == #[trigger] n1[
                j
            ].children@,
        in_subtree(n1, i, t),
    ensures
        in_subtree(n2, i, t),
    decreases n1[i].height@,
{
    assert(node_ok(n1, i));
    assert(in_subtree(n1, i, i));
    if i == t {
    } else {
        let k = choose|k: int|
            0 <= k < n1[i].children@.len() && in_subtree(
                n1,
                #[trigger] n1[i].children@[k] as int,
                t,
            );
        let c = n1[i].children@[k] as int;
        assert(child_edge_ok(n1, i, c));
        assert(in_subtree(n1, i, c)) by {
            assert(in_subtree(n1, c, c));
        }
        assert forall|j: int|
            0 <= j < n1.len() && in_subtree(n1, c, j) implies n2[j].children@ == #[trigger] n1[
            j
        ].children@ by {
            lemma_in_subtree_trans(n1, i, c, j);
        }
        lemma_in_subtree_mono_fwd(n1, n2, c, t);
        assert(n2[i].children@[k] == n1[i].children@[k]);
    }
}

/// Subtree membership is preserved when the subtree's child lists are: the
/// backward direction.
pub proof fn lemma_in_subtree_mono_bwd(n1: Seq<NodeRec>, n2: Seq<NodeRec>, i: int, t: int)
    requires
        shape_ok(n1),
        shape_ok(n2),
        n1.len() <= n2.len(),
        0 <= i < n1.len(),
        forall|j: int|
            0 <= j < n1.len() && in_subtree(n1, i, j) ==> n2[j].children@ == #[trigger] n1[
                j
            ].children@,
        in_subtree(n2, i, t),
    ensures
        in_subtree(n1, i, t),
    decreases n2[i].height@,
{
    assert(node_ok(n1, i));
    assert(node_ok(n2, i));
    assert(in_subtree(n1, i, i));
    if i == t {
    } else {
        let k = choose|k: int|
            0 <= k < n2[i].children@.len() && in_subtree(
                n2,
                #[trigger] n2[i].children@[k] as int,
                t,
            );
        let c = n2[i].children@[k] as int;
        assert(n2[i].children@ == n1[i].children@);
        assert(child_edge_ok(n1, i, c));
        assert(child_edge_ok(n2, i, c));
        assert(in_subtree(n1, i, c)) by {
            assert(in_subtree(n1, c, c));
        }
        assert forall|j: int|
            0 <= j < n1.len() && in_subtree(n1, c, j) implies n2[j].children@ == #[trigger] n1[
            j
        ].children@ by {
            lemma_in_subtree_trans(n1, i, c, j);
        }
        lemma_in_subtree_mono_bwd(n1, n2, c, t);
        lemma_in_subtree_trans(n1, i, c, t);
    }
}

/// In an arena whose records below `bound` only list children below
/// `bound`, subtrees rooted below `bound` stay below it.
pub proof fn lemma_subtree_bound(nodes: Seq<NodeRec>, c: int, bound: int, t: int)
    requires
        shape_ok(nodes),
        0 <= c < nodes.len(),
        c < bound,
        in_subtree(nodes, c, t),
        forall|j: int, k: int|
            0 <= j < nodes.len() && j < bound && 0 <= k < nodes[j].children@.len()
                ==> (#[trigger] nodes[j].children@[k]) < bound,
    ensures
        t < bound,
    decreases nodes[c].height@,
{
    assert(node_ok(nodes, c));
    if c == t {
    } else {
        let k = choose|k: int|
            0 <= k < nodes[c].children@.len() && in_subtree(
                nodes,
                #[trigger] nodes[c].children@[k] as int,
                t,
            );
        assert(child_edge_ok(nodes, c, nodes[c].children@[k] as int));
        assert(nodes[c].children@[k] < bound);
        lemma_subtree_bound(nodes, nodes[c].children@[k] as int, bound, t);
    }
}

/// Appending a fresh attribute record and listing it on its element keeps
/// the arena well-formed.
pub proof fn lemma_shape_add_attr(n1: Seq<NodeRec>, n2: Seq<NodeRec>, p: int)
    requires
        shape_ok(n1),
        n1.len() <= usize::MAX as int,
        0 <= p < n1.len(),
        n1[p].ntype != NodeType::AttributeNode,
        n2.len() == n1.len() + 1,
        forall|j: int| 0 <= j < n1.len() && j != p ==> n2[j] == #[trigger] n1[j],
        rec_eq_but_attrs(n2[p], n1[p]),
        n2[p].attrs@ == n1[p].attrs@.push(n1.len() as usize),
        n2[n1.len() as int].parent == Some(p as usize),
        n2[n1.len() as int].ntype == NodeType::AttributeNode,
        n2[n1.len() as int].children@.len() == 0,
        n2[n1.len() as int].attrs@.len() == 0,
    ensures
        shape_ok(n2),
{
    let a = n1.len() as int;
    assert forall|i: int| 0 <= i < n2.len() implies #[trigger] node_ok(n2, i) by {
        if i < n1.len() {
            assert(node_ok(n1, i));
            assert forall|kk: int| 0 <= kk < n2[i].children@.len() implies child_edge_ok(
                n2,
                i,
                #[trigger] n2[i].children@[kk] as int,
            ) by {
                assert(child_edge_ok(n1, i, n1[i].children@[kk] as int));
            }
            assert forall|kk: int| 0 <= kk < n2[i].attrs@.len() implies attr_edge_ok(
                n2,
                i,
                #[trigger] n2[i].attrs@[kk] as int,
            ) by {
                if i == p && kk == n1[p].attrs@.len() {
                    assert(n2[i].attrs@[kk] == a as usize);
                } else {
                    assert(n2[i].attrs@[kk] == n1[i].attrs@[kk]);
                    assert(attr_edge_ok(n1, i, n1[i].attrs@[kk] as int));
                }
            }
            assert forall|k1: int, k2: int| 0 <= k1 < k2 < n2[i].attrs@.len() implies n2[
                i
            ].attrs@[k1] != n2[i].attrs@[k2] by {
                if i == p && k2 == n1[p].attrs@.len() {
                    assert(n2[p].attrs@[k1] == n1[p].attrs@[k1]);
                    assert(attr_edge_ok(n1, p, n1[p].attrs@[k1] as int));
                }
            }
            match n2[i].parent {
                Some(q) => {
                    assert(n1[i].parent == Some(q));
                    assert(0 <= q < n1.len());
                    assert(n1[q as int].children@.contains(i as usize) || n1[
                        q as int
                    ].attrs@.contains(i as usize));
                    if q as int == p && n1[p].attrs@.contains(i as usize) {
                        let m = choose|m: int|
                            0 <= m < n1[p].attrs@.len() && n1[p].attrs@[m] == i as usize;
                        assert(n2[p].attrs@[m] == i as usize);
                        assert(n2[p as int].attrs@.contains(i as usize));
                    }
                },
                None => {},
            }
        } else {
            assert(n2[p].attrs@[n1[p].attrs@.len() as int] == a as usize);
            assert(n2[p as int].attrs@.contains(i as usize));
        }
    }
}

/// A record with its height witness replaced.
pub open spec fn set_height(r: NodeRec, h: nat) -> NodeRec {
    NodeRec { height: Ghost(h), ..r }
}

/// A listed child stands in a well-formed child edge.
pub proof fn lemma_member_edge(nodes: Seq<NodeRec>, p: int, c: usize)
    requires
        shape_ok(nodes),
        0 <= p < nodes.len(),
        nodes[p].children@.contains(c),
    ensures
        child_edge_ok(nodes, p, c as int),
{
    assert(node_ok(nodes, p));
    let k = choose|k: int| 0 <= k < nodes[p].children@.len() && nodes[p].children@[k] == c;
    assert(child_edge_ok(nodes, p, nodes[p].children@[k] as int));
}

/// Raising the height of the pending position above its bound moves the
/// pending obligation to its parent, or discharges it at a root.
pub proof fn lemma_raise_step(n1: Seq<NodeRec>, n2: Seq<NodeRec>, x: int, bound: nat, h2: nat)
    requires
        shape_ok_pending(n1, x, bound),
        n1.len() <= usize::MAX as int,
        0 <= x < n1.len(),
        n2 == n1.update(x, set_height(n1[x], h2)),
        h2 >= n1[x].height@,
        h2 > bound,
    ensures
        match n1[x].parent {
            Some(p) => shape_ok_pending(n2, p as int, h2),
            None => shape_ok(n2),
        },
{
    let target: int = match n1[x].parent {
        Some(p) => p as int,
        None => -1,
    };
    assert forall|i: int| 0 <= i < n2.len() implies #[trigger] node_ok_pending(
        n2,
        i,
        target,
        h2,
    ) by {
        assert(node_ok_pending(n1, i, x, bound));
        assert forall|k: int| 0 <= k < n2[i].children@.len() implies child_edge_base(
            n2,
            i,
            #[trigger] n2[i].children@[k] as int,
        ) by {
            assert(child_edge_base(n1, i, n1[i].children@[k] as int));
        }
        assert forall|k: int| 0 <= k < n2[i].children@.len() implies (
        n2[#[trigger] n2[i].children@[k] as int].height@ < n2[i].height@ || (i == target
            && n2[n2[i].children@[k] as int].height@ <= h2)) by {
            let c = n1[i].children@[k] as int;
            assert(child_edge_base(n1, i, c));
            assert(n1[c].height@ < n1[i].height@ || (i == x && n1[c].height@ <= bound));
            if c == x {
                assert(n1[x].parent == Some(i as usize));
                assert(0 <= i <= usize::MAX as int);
                assert(i as usize as int == i);
                assert(i == target);
            }
        }
    }
    if n1[x].parent is None {
        lemma_pending_to_shape(n2, target, h2);
    }
}

/// Removing child slot `k` of `p` and clearing the parent link of the child
/// `x` that held it keeps the arena well-formed.
pub proof fn lemma_shape_detach(n1: Seq<NodeRec>, n2: Seq<NodeRec>, x: int, p: int, k: int)
    requires
        shape_ok(n1),
        n1.len() <= usize::MAX as int,
        0 <= x < n1.len(),
        0 <= p < n1.len(),
        n1[x].parent == Some(p as usize),
        0 <= k < n1[p].children@.len(),
        n1[p].children@[k] == x as usize,
        n2.len() == n1.len(),
        forall|j: int| 0 <= j < n1.len() && j != x && j != p ==> n2[j] == #[trigger] n1[j],
        rec_eq_but_parent(n2[x], n1[x]),
        n2[x].parent is None,
        rec_eq_but_children(n2[p], n1[p]),
        n2[p].children@ == n1[p].children@.remove(k),
    ensures
        shape_ok(n2),
{
    assert(node_ok(n1, p));
    assert(child_edge_ok(n1, p, x));
    assert(x != p);
    assert(x as usize as int == x);
    assert(p as usize as int == p);
    assert forall|i: int| 0 <= i < n2.len() implies #[trigger] node_ok(n2, i) by {
        assert(node_ok(n1, i));
        // every child listed by i in n2 was listed by i in n1
        assert forall|kk: int| 0 <= kk < n2[i].children@.len() implies child_edge_ok(
            n2,
            i,
            #[trigger] n2[i].children@[kk] as int,
        ) by {
            let c: int = n2[i].children@[kk] as int;
            if i == p {
                if kk < k {
                    assert(n1[p].children@[kk] == n2[p].children@[kk]);
                } else {
                    assert(n1[p].children@[kk + 1] == n2[p].children@[kk]);
                }
                assert(child_edge_ok(n1, p, c));
            } else {
                assert(child_edge_ok(n1, i, c));
            }
            // the moved node x is no longer anyone's child
            if c == x {
                assert(n1[x].parent == Some(i as usize));
                assert(i == p);
                let orig_kk: int = if kk < k {
                    kk
                } else {
                    kk + 1
                };
                assert(n1[p].children@[orig_kk] == x as usize);
                assert(n1[p].children@[k] == x as usize);
                assert(orig_kk != k);
                assert(false);
            }
        }
        assert forall|k1: int, k2: int| 0 <= k1 < k2 < n2[i].children@.len() implies n2[i].children@[k1]
            != n2[i].children@[k2] by {
            if i == p {
                let o1: int = if k1 < k {
                    k1
                } else {
                    k1 + 1
                };
                let o2: int = if k2 < k {
                    k2
                } else {
                    k2 + 1
                };
                assert(n2[p].children@[k1] == n1[p].children@[o1]);
                assert(n2[p].children@[k2] == n1[p].children@[o2]);
            }
        }
        assert forall|kk: int| 0 <= kk < n2[i].attrs@.len() implies attr_edge_ok(
            n2,
            i,
            #[trigger] n2[i].attrs@[kk] as int,
        ) by {
            assert(attr_edge_ok(n1, i, n1[i].attrs@[kk] as int));
            assert(n1[i].attrs@[kk] as int != x) by {
                assert(n1[n1[i].attrs@[kk] as int].ntype == NodeType::AttributeNode);
                assert(n1[x].ntype != NodeType::AttributeNode);
            }
        }
        // parent coherence
        match n2[i].parent {
            Some(q) => {
                assert(n1[i].parent == Some(q));
                assert(0 <= q < n1.len());
                if q as int == p && n1[p].children@.contains(i as usize) {
                    let m = choose|m: int|
                        0 <= m < n1[p].children@.len() && n1[p].children@[m] == i as usize;
                    assert(i != x);
                    assert(m != k);
                    if m < k {
                        assert(n2[p].children@[m] == i as usize);
                    } else {
                        assert(n2[p].children@[m - 1] == i as usize);
                    }
                    assert(n2[p as int].children@.contains(i as usize));
                } else {
                    assert(n1[q as int].children@.contains(i as usize) || n1[
                        q as int
                    ].attrs@.contains(i as usize));
                }
            },
            None => {},
        }
    }
}

/// Removing attribute slot `k` of `p` and clearing the parent link of the
/// attribute node `x` that held it keeps the arena well-formed.
pub proof fn lemma_shape_detach_attr(n1: Seq<NodeRec>, n2: Seq<NodeRec>, x: int, p: int, k: int)
    requires
        shape_ok(n1),
        n1.len() <= usize::MAX as int,
        0 <= x < n1.len(),
        0 <= p < n1.len(),
        x != p,
        n1[x].parent == Some(p as usize),
        n1[x].ntype == NodeType::AttributeNode,
        0 <= k < n1[p].attrs@.len(),
        n1[p].attrs@[k] == x as usize,
        n2.len() == n1.len(),
        forall|j: int| 0 <= j < n1.len() && j != x && j != p ==> n2[j] == #[trigger] n1[j],
        rec_eq_but_parent(n2[x], n1[x]),
        n2[x].parent is None,
        rec_eq_but_attrs(n2[p], n1[p]),
        n2[p].attrs@ == n1[p].attrs@.remove(k),
    ensures
        shape_ok(n2),
{
    assert(node_ok(n1, p));
    assert(x as usize as int == x);
    assert(p as usize as int == p);
    assert forall|i: int| 0 <= i < n2.len() implies #[trigger] node_ok(n2, i) by {
        assert(node_ok(n1, i));
        assert forall|kk: int| 0 <= kk < n2[i].children@.len() implies child_edge_ok(
            n2,
            i,
            #[trigger] n2[i].children@[kk] as int,
        ) by {
            let c: int = n2[i].children@[kk] as int;
            assert(child_edge_ok(n1, i, c));
            assert(c != x) by {
                assert(n1[c].ntype != NodeType::AttributeNode);
            }
        }
        assert forall|kk: int| 0 <= kk < n2[i].attrs@.len() implies attr_edge_ok(
            n2,
            i,
            #[trigger] n2[i].attrs@[kk] as int,
        ) by {
            let a: int = n2[i].attrs@[kk] as int;
            if i == p {
                if kk < k {
                    assert(n1[p].attrs@[kk] == n2[p].attrs@[kk]);
                } else {
                    assert(n1[p].attrs@[kk + 1] == n2[p].attrs@[kk]);
                }
            }
            assert(attr_edge_ok(n1, i, a));
            if a == x {
                assert(n1[x].parent == Some(i as usize));
                assert(i == p);
                let orig_kk: int = if kk < k {
                    kk
                } else {
                    kk + 1
                };
                assert(n1[p].attrs@[orig_kk] == x as usize);
                assert(orig_kk != k);
                assert(false);
            }
        }
        assert forall|k1: int, k2: int| 0 <= k1 < k2 < n2[i].attrs@.len() implies n2[i].attrs@[k1]
            != n2[i].attrs@[k2] by {
            if i == p {
                let o1: int = if k1 < k {
                    k1
                } else {
                    k1 + 1
                };
                let o2: int = if k2 < k {
                    k2
                } else {
                    k2 + 1
                };
                assert(n2[p].attrs@[k1] == n1[p].attrs@[o1]);
                assert(n2[p].attrs@[k2] == n1[p].attrs@[o2]);
            }
        }
        match n2[i].parent {
            Some(q) => {
                assert(n1[i].parent == Some(q));
                assert(0 <= q < n1.len());
                if q as int == p && n1[p].attrs@.contains(i as usize) && i != x {
                    let m = choose|m: int|
                        0 <= m < n1[p].attrs@.len() && n1[p].attrs@[m] == i as usize;
                    assert(m != k);
                    if m < k {
                        assert(n2[p].attrs@[m] == i as usize);
                    } else {
                        assert(n2[p].attrs@[m - 1] == i as usize);
                    }
                    assert(n2[p as int].attrs@.contains(i as usize));
                } else if i != x {
                    assert(n1[q as int].children@.contains(i as usize) || n1[
                        q as int
                    ].attrs@.contains(i as usize));
                }
            },
            None => {},
        }
    }
}

/// Inserting detached `c` into the child list of `p` at slot `slot` and
/// linking it there keeps the arena well-formed, provided `c` sits strictly
/// below `p` in height.
pub proof fn lemma_shape_attach(n1: Seq<NodeRec>, n2: Seq<NodeRec>, p: int, c: int, slot: int)
    requires
        shape_ok(n1),
        n1.len() <= usize::MAX as int,
        0 <= p < n1.len(),
        0 <= c < n1.len(),
        c != p,
        n1[c].parent is None,
        n1[c].ntype != NodeType::AttributeNode,
        n1[c].ntype != NodeType::DocumentNode,
        n1[p].ntype != NodeType::AttributeNode,
        n1[c].height@ < n1[p].height@,
        n2.len() == n1.len(),
        0 <= slot <= n1[p].children@.len(),
        forall|j: int| 0 <= j < n1.len() && j != p && j != c ==> n2[j] == #[trigger] n1[j],
        rec_eq_but_children(n2[p], n1[p]),
        n2[p].children@ == n1[p].children@.insert(slot, c as usize),
        rec_eq_but_parent(n2[c], n1[c]),
        n2[c].parent == Some(p as usize),
    ensures
        shape_ok(n2),
{
    // slot mapping between the old and new child lists
    assert forall|kk: int| 0 <= kk < n2[p].children@.len() implies #[trigger] n2[p].children@[kk]
        == (if kk < slot {
        n1[p].children@[kk]
    } else if kk == slot {
        c as usize
    } else {
        n1[p].children@[kk - 1]
    }) by {
        n1[p].children@.insert_ensures(slot, c as usize);
    }
    assert(node_ok(n1, p));
    assert(node_ok(n1, c));
    assert(c as usize as int == c);
    assert(p as usize as int == p);
    // c was nobody's child or attribute before
    assert forall|i: int, kk: int|
        0 <= i < n1.len() && 0 <= kk < n1[i].children@.len() implies n1[i].children@[kk]
        != c as usize by {
        assert(node_ok(n1, i));
        assert(child_edge_ok(n1, i, n1[i].children@[kk] as int));
    }
    assert forall|i: int, kk: int|
        0 <= i < n1.len() && 0 <= kk < n1[i].attrs@.len() implies n1[i].attrs@[kk]
        != c as usize by {
        assert(node_ok(n1, i));
        assert(attr_edge_ok(n1, i, n1[i].attrs@[kk] as int));
    }
    assert forall|i: int| 0 <= i < n2.len() implies #[trigger] node_ok(n2, i) by {
        assert(node_ok(n1, i));
        assert forall|kk: int| 0 <= kk < n2[i].children@.len() implies child_edge_ok(
            n2,
            i,
            #[trigger] n2[i].children@[kk] as int,
        ) by {
            let ch: int = n2[i].children@[kk] as int;
            if i == p && kk == slot {
                assert(ch == c);
            } else if i == p {
                let orig_kk: int = if kk < slot {
                    kk
                } else {
                    kk - 1
                };
                assert(n2[p].children@[kk] == n1[p].children@[orig_kk]);
                assert(child_edge_ok(n1, i, ch));
                assert(ch != c);
            } else {
                assert(n2[i].children@[kk] == n1[i].children@[kk]);
                assert(child_edge_ok(n1, i, ch));
                assert(ch != c);
            }
        }
        assert forall|k1: int, k2: int| 0 <= k1 < k2 < n2[i].children@.len() implies n2[i].children@[k1]
            != n2[i].children@[k2] by {
            if i == p {
                if k1 == slot {
                    let o2: int = k2 - 1;
                    assert(n2[p].children@[k2] == n1[p].children@[o2]);
                    assert(n1[p].children@[o2] != c as usize);
                } else if k2 == slot {
                    let o1: int = if k1 < slot {
                        k1
                    } else {
                        k1 - 1
                    };
                    assert(n2[p].children@[k1] == n1[p].children@[o1]);
                    assert(n1[p].children@[o1] != c as usize);
                } else {
                    let o1: int = if k1 < slot {
                        k1
                    } else {
                        k1 - 1
                    };
                    let o2: int = if k2 < slot {
                        k2
                    } else {
                        k2 - 1
                    };
                    assert(n2[p].children@[k1] == n1[p].children@[o1]);
                    assert(n2[p].children@[k2] == n1[p].children@[o2]);
                }
            }
        }
        assert forall|kk: int| 0 <= kk < n2[i].attrs@.len() implies attr_edge_ok(
            n2,
            i,
            #[trigger] n2[i].attrs@[kk] as int,
        ) by {
            assert(attr_edge_ok(n1, i, n1[i].attrs@[kk] as int));
        }
        match n2[i].parent {
            Some(q) => {
                if i == c {
                    assert(q as int == p);
                    assert(n2[p].children@[slot] == c as usize);
                    assert(n2[p as int].children@.contains(i as usize));
                } else {
                    assert(n1[i].parent == Some(q));
                    assert(0 <= q < n1.len());
                    assert(n1[q as int].children@.contains(i as usize) || n1[
                        q as int
                    ].attrs@.contains(i as usize));
                    if q as int == p {
                        if n1[p].children@.contains(i as usize) {
                            let m = choose|m: int|
                                0 <= m < n1[p].children@.len() && n1[p].children@[m]
                                    == i as usize;
                            let m2: int = if m < slot {
                                m
                            } else {
                                m + 1
                            };
                            assert(n2[p].children@[m2] == i as usize);
                            assert(n2[p as int].children@.contains(i as usize));
                        } else {
                            assert(n2[p as int].attrs@.contains(i as usize));
                        }
                    } else if q as int == c {
                        assert(n2[c].children@ == n1[c].children@);
                        assert(n2[c].attrs@ == n1[c].attrs@);
                        assert(n2[q as int].children@.contains(i as usize) || n2[
                            q as int
                        ].attrs@.contains(i as usize));
                    }
                }
            },
            None => {},
        }
    }
}

/// A child of a subtree member is itself a subtree member.
pub proof fn lemma_in_subtree_step(nodes: Seq<NodeRec>, i: int, t: int, k: int)
    requires
        shape_ok(nodes),
        0 <= i < nodes.len(),
        in_subtree(nodes, i, t),
        0 <= k < nodes[t].children@.len(),
    ensures
        in_subtree(nodes, i, nodes[t].children@[k] as int),
{
    lemma_in_subtree_bounds(nodes, i, t);
    assert(node_ok(nodes, t));
    assert(in_subtree(nodes, t, nodes[t].children@[k] as int)) by {
        assert(child_edge_ok(nodes, t, nodes[t].children@[k] as int));
        let c = nodes[t].children@[k] as int;
        assert(in_subtree(nodes, c, c));
    }
    lemma_in_subtree_trans(nodes, i, t, nodes[t].children@[k] as int);
}

} // verus!
