use vstd::prelude::*;

use crate::error::XmlError;
use crate::tree::chars::str_to_chars;
use crate::tree::document::Document;
use crate::tree::namespace::Namespace;
use crate::tree::nodetype::NodeType;
use crate::tree::shape::attr_edge_ok;
use crate::tree::shape::child_edge_ok;
use crate::tree::shape::in_subtree;
use crate::tree::shape::lemma_in_subtree_bounds;
use crate::tree::shape::lemma_in_subtree_trans;
use crate::tree::shape::lemma_shape_attach;
use crate::tree::shape::lemma_shape_detach;
use crate::tree::shape::lemma_shape_detach_attr;
use crate::tree::shape::lemma_shape_push;
use crate::tree::shape::preorder_covers;
use crate::tree::shape::first_child_of;
use crate::tree::shape::first_elem_from;
use crate::tree::shape::last_elem_before;
use crate::tree::shape::holds_text;
use crate::tree::shape::last_child_of;
use crate::tree::shape::lemma_filter_member;
use crate::tree::shape::lemma_shape_same;
use crate::tree::shape::rec_eq_but_attrs;
use crate::tree::shape::rec_eq_but_content;
use crate::tree::shape::rec_eq_but_name;
use crate::tree::shape::same_shape_fields;
use crate::tree::shape::same_text_fields;
use crate::tree::shape::lemma_index_of_distinct;
use crate::tree::shape::next_sibling_of;
use crate::tree::shape::node_ok;
use crate::tree::shape::prev_sibling_of;
use crate::tree::shape::text_of;
use crate::tree::shape::text_of_children_from;
use crate::tree::shape::ns_href_view;
use crate::tree::shape::ns_view;
use crate::tree::shape::rec_eq;
use crate::tree::shape::rec_eq_but_count;
use crate::tree::shape::rec_eq_but_children;
use crate::tree::shape::rec_eq_but_height;
use crate::tree::shape::rec_eq_but_parent;
use crate::tree::shape::sat_inc;
use crate::tree::shape::set_height;
use crate::tree::shape::NodeRec;

verus! {

/// A handle to one tree position.  Handles to the same position compare
/// equal; every live handle is counted by the owning document's registry,
/// and the count feeds the mutability guard.
#[derive(Debug, PartialEq, Eq, Structural)]
pub struct Node {
    /// The arena position this handle refers to; `usize::MAX` marks the
    /// null handle.
    pub id: usize,
}

/// The first index of `c` in `v`.
pub(crate) fn find_first(v: &Vec<usize>, c: usize) -> (k: usize)
    requires
        v@.contains(c),
    ensures
        k < v@.len(),
        v@[k as int] == c,
        forall|j: int| 0 <= j < k ==> v@[j] != c,
{
    let n = v.len();
    let mut k: usize = 0;
    loop
        invariant
            v@.contains(c),
            n == v@.len(),
            k <= n,
            forall|j: int| 0 <= j < k ==> v@[j] != c,
        decreases n - k,
    {
        proof {
            assert(k < v@.len()) by {
                if k >= v@.len() {
                    let m = choose|m: int| 0 <= m < v@.len() && v@[m] == c;
                    assert(v@[m] != c);
                }
            }
        }
        if v[k] == c {
            return k;
        }
        k = k + 1;
    }
}

/// The parent of `id` and the child slot where `id` stands, for a node that
/// is linked as an ordinary child; nothing for detached nodes and attribute
/// nodes.
pub(crate) fn sibling_slot(doc: &Document, id: usize) -> (r: Option<(usize, usize)>)
    requires
        doc.wf(),
        id < doc.nodes@.len(),
    ensures
        match r {
            Some(pk) => {
                &&& doc.nodes@[id as int].parent == Some(pk.0)
                &&& pk.0 < doc.nodes@.len()
                &&& (pk.1 as int) < doc.nodes@[pk.0 as int].children@.len()
                &&& doc.nodes@[pk.0 as int].children@[pk.1 as int] == id
                &&& doc.nodes@[pk.0 as int].children@.index_of(id) == pk.1 as int
                &&& doc.nodes@[pk.0 as int].children@.contains(id)
            },
            None => (doc.nodes@[id as int].parent is None || doc.nodes@[id as int].ntype
                == NodeType::AttributeNode) && next_sibling_of(doc.nodes@, id as int) is None
                && prev_sibling_of(doc.nodes@, id as int) is None && next_elem_sibling_of(
                doc.nodes@,
                id as int,
            ) is None && prev_elem_sibling_of(doc.nodes@, id as int) is None,
        },
{
    proof {
        assert(node_ok(doc.nodes@, id as int));
    }
    let p = match doc.nodes[id].parent {
        Some(p) => p,
        None => {
            return None;
        },
    };
    proof {
        assert(node_ok(doc.nodes@, p as int));
        if doc.nodes@[p as int].children@.contains(id) {
            let m = choose|m: int|
                0 <= m < doc.nodes@[p as int].children@.len() && doc.nodes@[p as int].children@[m]
                    == id;
            assert(child_edge_ok(doc.nodes@, p as int, doc.nodes@[p as int].children@[m] as int));
            assert(doc.nodes@[id as int].ntype != NodeType::AttributeNode);
        }
    }
    if doc.nodes[id].ntype == NodeType::AttributeNode {
        return None;
    }
    proof {
        assert(doc.nodes@[p as int].children@.contains(id)) by {
            if doc.nodes@[p as int].attrs@.contains(id) {
                let m = choose|m: int|
                    0 <= m < doc.nodes@[p as int].attrs@.len() && doc.nodes@[p as int].attrs@[m]
                        == id;
                assert(attr_edge_ok(doc.nodes@, p as int, doc.nodes@[p as int].attrs@[m] as int));
            }
        }
    }
    let k = find_first(&doc.nodes[p].children, id);
    proof {
        lemma_index_of_distinct(doc.nodes@[p as int].children@, id, k as int);
    }
    Some((p, k))
}

/// Appends the text value of the subtree at `i` to `out`.
fn collect_text(doc: &Document, i: usize, out: &mut Vec<char>)
    requires
        doc.wf(),
        i < doc.nodes@.len(),
    ensures
        final(out)@ == old(out)@ + text_of(doc.nodes@, i as int),
    decreases doc.nodes@[i as int].height@,
{
    let nt = doc.nodes[i].ntype;
    if nt == NodeType::TextNode || nt == NodeType::CDataSectionNode || nt == NodeType::CommentNode
        || nt == NodeType::PiNode || nt == NodeType::AttributeNode {
        proof {
            assert(holds_text(nt));
        }
        crate::tree::chars::extend_chars(out, &doc.nodes[i].content);
        return ;
    }
    proof {
        assert(!holds_text(nt));
    }
    let n = doc.nodes[i].children.len();
    let mut k: usize = 0;
    while k < n
        invariant
            doc.wf(),
            i < doc.nodes@.len(),
            doc.nodes@[i as int].ntype == nt,
            !holds_text(nt),
            k <= n,
            n == doc.nodes@[i as int].children@.len(),
            out@ + text_of_children_from(doc.nodes@, i as int, k as int) == old(out)@
                + text_of_children_from(doc.nodes@, i as int, 0),
        decreases n - k,
    {
        proof {
            assert(node_ok(doc.nodes@, i as int));
            assert(child_edge_ok(
                doc.nodes@,
                i as int,
                doc.nodes@[i as int].children@[k as int] as int,
            ));
        }
        let ghost pre = out@;
        let c = doc.nodes[i].children[k];
        collect_text(doc, c, out);
        proof {
            assert(text_of_children_from(doc.nodes@, i as int, k as int) == text_of(
                doc.nodes@,
                c as int,
            ) + text_of_children_from(doc.nodes@, i as int, k + 1));
            assert((pre + text_of(doc.nodes@, c as int)) + text_of_children_from(
                doc.nodes@,
                i as int,
                k + 1,
            ) =~= pre + (text_of(doc.nodes@, c as int) + text_of_children_from(
                doc.nodes@,
                i as int,
                k + 1,
            )));
        }
        k = k + 1;
    }
    proof {
        assert(text_of_children_from(doc.nodes@, i as int, n as int) =~= Seq::<char>::empty());
        assert(out@ + text_of_children_from(doc.nodes@, i as int, n as int) =~= out@);
        assert(text_of(doc.nodes@, i as int) == text_of_children_from(doc.nodes@, i as int, 0));
    }
}

/// The position identities behind a list of handles.
pub open spec fn ids_of(s: Seq<Node>) -> Seq<usize> {
    s.map_values(|n: Node| n.id)
}

/// The element children of position `i`, in order.
pub open spec fn elem_children(d: Document, i: int) -> Seq<usize> {
    d.nodes@[i].children@.filter(
        |c: usize| 0 <= c < d.nodes@.len() && d.nodes@[c as int].ntype == NodeType::ElementNode,
    )
}

/// The next element sibling of a linked position, if any.
pub open spec fn next_elem_sibling_of(nodes: Seq<NodeRec>, i: int) -> Option<usize> {
    match nodes[i].parent {
        Some(p) => {
            let ks = nodes[p as int].children@;
            if ks.contains(i as usize) {
                first_elem_from(nodes, ks, ks.index_of(i as usize) + 1)
            } else {
                None
            }
        },
        None => None,
    }
}

/// The previous element sibling of a linked position, if any.
pub open spec fn prev_elem_sibling_of(nodes: Seq<NodeRec>, i: int) -> Option<usize> {
    match nodes[i].parent {
        Some(p) => {
            let ks = nodes[p as int].children@;
            if ks.contains(i as usize) {
                last_elem_before(nodes, ks, ks.index_of(i as usize))
            } else {
                None
            }
        },
        None => None,
    }
}

/// Scans the children of `p` from slot `start` onward for the first element
/// node and wraps it.
pub(crate) fn scan_elem_forward(doc: &mut Document, p: usize, start: usize) -> (r: Option<Node>)
    requires
        old(doc).wf(),
        p < old(doc).nodes@.len(),
        start <= old(doc).nodes@[p as int].children@.len(),
    ensures
        final(doc).wf(),
        match first_elem_from(old(doc).nodes@, old(doc).nodes@[p as int].children@, start as int) {
            Some(c) => r matches Some(n) && n.id == c && Document::wrap_rel(
                *old(doc),
                *final(doc),
                c as int,
            ),
            None => r is None && *final(doc) == *old(doc),
        },
{
    let ghost ks = doc.nodes@[p as int].children@;
    let n = doc.nodes[p].children.len();
    let mut k: usize = start;
    while k < n
        invariant
            doc.wf(),
            *doc == *old(doc),
            p < doc.nodes@.len(),
            start <= k <= n,
            n == ks.len(),
            ks == doc.nodes@[p as int].children@,
            first_elem_from(doc.nodes@, ks, start as int) == first_elem_from(
                doc.nodes@,
                ks,
                k as int,
            ),
        decreases n - k,
    {
        proof {
            assert(node_ok(doc.nodes@, p as int));
            assert(child_edge_ok(doc.nodes@, p as int, ks[k as int] as int));
        }
        let c = doc.nodes[p].children[k];
        if doc.nodes[c].ntype == NodeType::ElementNode {
            return Some(doc.wrap(c));
        }
        k = k + 1;
    }
    None
}

/// Scans the children of `p` below slot `end` backward for the last element
/// node and wraps it.
fn scan_elem_backward(doc: &mut Document, p: usize, end: usize) -> (r: Option<Node>)
    requires
        old(doc).wf(),
        p < old(doc).nodes@.len(),
        end <= old(doc).nodes@[p as int].children@.len(),
    ensures
        final(doc).wf(),
        match last_elem_before(old(doc).nodes@, old(doc).nodes@[p as int].children@, end as int) {
            Some(c) => r matches Some(n) && n.id == c && Document::wrap_rel(
                *old(doc),
                *final(doc),
                c as int,
            ),
            None => r is None && *final(doc) == *old(doc),
        },
{
    let ghost ks = doc.nodes@[p as int].children@;
    let mut k: usize = end;
    while k > 0
        invariant
            doc.wf(),
            *doc == *old(doc),
            p < doc.nodes@.len(),
            k <= end <= ks.len(),
            ks == doc.nodes@[p as int].children@,
            last_elem_before(doc.nodes@, ks, end as int) == last_elem_before(
                doc.nodes@,
                ks,
                k as int,
            ),
        decreases k,
    {
        proof {
            assert(node_ok(doc.nodes@, p as int));
            assert(child_edge_ok(doc.nodes@, p as int, ks[k - 1] as int));
        }
        let c = doc.nodes[p].children[k - 1];
        if doc.nodes[c].ntype == NodeType::ElementNode {
            return Some(doc.wrap(c));
        }
        k = k - 1;
    }
    None
}

/// How detaching every child of `id` relates two document states: the
/// former children lose their parent links, and nothing else moves.
pub open spec fn detach_children_rel(d0: Document, d1: Document, id: int) -> bool {
    let kids = d0.nodes@[id].children@;
    &&& d1.nodes@.len() == d0.nodes@.len()
    &&& d1.guard == d0.guard
    &&& rec_eq_but_children(d1.nodes@[id], d0.nodes@[id])
    &&& d1.nodes@[id].children@.len() == 0
    &&& forall|j: int|
        0 <= j < d0.nodes@.len() && j != id && !kids.contains(j as usize)
            ==> #[trigger] d1.nodes@[j] == d0.nodes@[j]
    &&& forall|k: int|
        0 <= k < kids.len() ==> {
            let c = #[trigger] kids[k] as int;
            &&& rec_eq_but_parent(d1.nodes@[c], d0.nodes@[c])
            &&& d1.nodes@[c].parent is None
        }
}

/// Detaches every child of `id`, from the last to the first.
fn detach_children(doc: &mut Document, id: usize)
    requires
        old(doc).wf(),
        id < old(doc).nodes@.len(),
    ensures
        final(doc).wf(),
        detach_children_rel(*old(doc), *final(doc), id as int),
{
    let ghost d0 = *doc;
    let ghost kids0 = doc.nodes@[id as int].children@;
    proof {
        assert(node_ok(d0.nodes@, id as int));
    }
    while doc.nodes[id].children.len() > 0
        invariant
            doc.wf(),
            id < doc.nodes@.len(),
            doc.nodes@.len() == d0.nodes@.len(),
            doc.guard == d0.guard,
            d0.wf(),
            kids0 == d0.nodes@[id as int].children@,
            forall|k1: int, k2: int| 0 <= k1 < k2 < kids0.len() ==> kids0[k1] != kids0[k2],
            rec_eq_but_children(doc.nodes@[id as int], d0.nodes@[id as int]),
            doc.nodes@[id as int].children@.len() <= kids0.len(),
            doc.nodes@[id as int].children@ == kids0.subrange(
                0,
                doc.nodes@[id as int].children@.len() as int,
            ),
            forall|j: int|
                0 <= j < d0.nodes@.len() && j != id && !kids0.contains(j as usize)
                    ==> #[trigger] doc.nodes@[j] == d0.nodes@[j],
            forall|k: int|
                0 <= k < kids0.len() ==> {
                    let c = #[trigger] kids0[k] as int;
                    if k < doc.nodes@[id as int].children@.len() {
                        doc.nodes@[c] == d0.nodes@[c]
                    } else {
                        rec_eq_but_parent(doc.nodes@[c], d0.nodes@[c]) && doc.nodes@[c].parent
                            is None
                    }
                },
        decreases doc.nodes@[id as int].children@.len(),
    {
        let ghost pre = *doc;
        let m = doc.nodes[id].children.len();
        proof {
            assert(node_ok(doc.nodes@, id as int));
            assert(child_edge_ok(
                doc.nodes@,
                id as int,
                doc.nodes@[id as int].children@[m - 1] as int,
            ));
            assert(doc.nodes@[id as int].children@ == kids0.subrange(0, m as int));
            assert(kids0.subrange(0, m as int)[m - 1] == kids0[m - 1]);
            assert(kids0[m - 1] == doc.nodes@[id as int].children@[m - 1]);
        }
        let c = doc.nodes[id].children[m - 1];
        doc.nodes[id].children.pop();
        doc.nodes[c].parent = None;
        proof {
            assert(c != id);
            assert(doc.nodes@[id as int].children@ =~= pre.nodes@[id as int].children@.remove(
                m - 1,
            ));
            lemma_shape_detach(pre.nodes@, doc.nodes@, c as int, id as int, m - 1);
            assert(pre.nodes@[id as int].children@ == kids0.subrange(0, m as int));
            assert forall|j: int| 0 <= j < m - 1 implies doc.nodes@[id as int].children@[j]
                == kids0[j] by {
                assert(doc.nodes@[id as int].children@[j] == pre.nodes@[id as int].children@[j]);
                assert(pre.nodes@[id as int].children@[j] == kids0.subrange(0, m as int)[j]);
            }
            assert(doc.nodes@[id as int].children@ =~= kids0.subrange(0, m - 1));
            assert forall|k: int| 0 <= k < kids0.len() implies {
                let cc = #[trigger] kids0[k] as int;
                if k < doc.nodes@[id as int].children@.len() {
                    doc.nodes@[cc] == d0.nodes@[cc]
                } else {
                    rec_eq_but_parent(doc.nodes@[cc], d0.nodes@[cc]) && doc.nodes@[cc].parent
                        is None
                }
            } by {
                let cc = kids0[k] as int;
                assert(node_ok(d0.nodes@, id as int));
                assert(child_edge_ok(d0.nodes@, id as int, cc));
                assert(cc != id) by {
                    assert(d0.nodes@[cc].height@ < d0.nodes@[id as int].height@);
                }
                if k == m - 1 {
                    assert(cc == c);
                } else {
                    assert(kids0[k] != kids0[m - 1]);
                    assert(cc != c);
                    assert(doc.nodes@[cc] == pre.nodes@[cc]);
                }
            }
        }
    }
    proof {
        assert(doc.nodes@[id as int].children@ =~= kids0.subrange(0, 0));
    }
}

/// After detaching the children of `id` and possibly growing the arena,
/// positions outside the old family of `id` keep their records (up to
/// heights), and each former child is detached with its text value intact.
proof fn set_content_frame(d0: Document, d1: Document, d2: Document, id: int)
    requires
        d0.wf(),
        d1.wf(),
        d2.wf(),
        0 <= id < d0.nodes@.len(),
        detach_children_rel(d0, d1, id),
        d1.nodes@.len() <= d2.nodes@.len(),
        forall|j: int|
            0 <= j < d1.nodes@.len() && j != id ==> rec_eq_but_height(
                #[trigger] d2.nodes@[j],
                d1.nodes@[j],
            ),
    ensures
        forall|j: int|
            0 <= j < d0.nodes@.len() && j != id && !d0.nodes@[id].children@.contains(j as usize)
                ==> rec_eq_but_height(#[trigger] d2.nodes@[j], d0.nodes@[j]),
        forall|k: int|
            0 <= k < d0.nodes@[id].children@.len() ==> {
                let c = #[trigger] d0.nodes@[id].children@[k] as int;
                &&& d2.nodes@[c].parent is None
                &&& text_of(d2.nodes@, c) == text_of(d0.nodes@, c)
            },
{
    let kids0 = d0.nodes@[id].children@;
    assert(node_ok(d0.nodes@, id));
    assert forall|j: int|
        0 <= j < d0.nodes@.len() && j != id && !kids0.contains(j as usize) implies
        rec_eq_but_height(#[trigger] d2.nodes@[j], d0.nodes@[j]) by {
        assert(d1.nodes@[j] == d0.nodes@[j]);
    }
    assert forall|k: int| 0 <= k < kids0.len() implies {
        let c = #[trigger] kids0[k] as int;
        &&& d2.nodes@[c].parent is None
        &&& text_of(d2.nodes@, c) == text_of(d0.nodes@, c)
    } by {
        let c = kids0[k] as int;
        assert(child_edge_ok(d0.nodes@, id, c));
        assert(kids0.contains(kids0[k]));
        assert(rec_eq_but_parent(d1.nodes@[c], d0.nodes@[c]) && d1.nodes@[c].parent is None);
        assert(c != id);
        assert(rec_eq_but_height(d2.nodes@[c], d1.nodes@[c]));
        assert(d2.nodes@[c].parent is None);
        assert forall|j: int|
            0 <= j < d0.nodes@.len() && in_subtree(d0.nodes@, c, j) implies same_text_fields(
            #[trigger] d0.nodes@[j],
            d2.nodes@[j],
        ) by {
            if j == c {
            } else {
                assert(j != id) by {
                    if j == id {
                        lemma_in_subtree_bounds(d0.nodes@, c, id);
                        assert(d0.nodes@[id].height@ <= d0.nodes@[c].height@);
                    }
                }
                assert(!kids0.contains(j as usize)) by {
                    if kids0.contains(j as usize) {
                        let k2 = choose|k2: int| 0 <= k2 < kids0.len() && kids0[k2] == j as usize;
                        crate::tree::shape::lemma_siblings_disjoint(d0.nodes@, id, c, j);
                    }
                }
                assert(d1.nodes@[j] == d0.nodes@[j]);
                assert(rec_eq_but_height(d2.nodes@[j], d1.nodes@[j]));
            }
        }
        crate::tree::shape::lemma_text_local(d0.nodes@, d2.nodes@, c);
    }
}

/// An attribute selector: any namespace, no namespace, or one namespace
/// href.
pub(crate) enum AttrSel {
    AnyNs,
    NoNs,
    Href(Vec<char>),
}

/// The mathematical image of an attribute selector: nothing for any
/// namespace, or the required namespace href (nothing for none).
pub open spec fn sel_view_of(sel_any: bool, sel_href: Option<Seq<char>>) -> Option<
    Option<Seq<char>>,
> {
    if sel_any {
        None
    } else {
        Some(sel_href)
    }
}

impl AttrSel {
    pub(crate) open spec fn view_of(&self) -> Option<Option<Seq<char>>> {
        match self {
            AttrSel::AnyNs => None,
            AttrSel::NoNs => Some(None),
            AttrSel::Href(h) => Some(Some(h@)),
        }
    }
}

/// Whether attribute position `a` matches a name and namespace selector.
pub open spec fn attr_match(
    nodes: Seq<NodeRec>,
    a: int,
    name: Seq<char>,
    sel: Option<Option<Seq<char>>>,
) -> bool {
    &&& nodes[a].name@ == name
    &&& match sel {
        None => true,
        Some(h) => ns_href_view(nodes[a].ns) == h,
    }
}

/// The first attribute of `i` from slot `k` onward that matches the name
/// and selector, if any.
pub open spec fn attr_find_from(
    nodes: Seq<NodeRec>,
    i: int,
    name: Seq<char>,
    sel: Option<Option<Seq<char>>>,
    k: int,
) -> Option<usize>
    decreases nodes[i].attrs@.len() - k
        when 0 <= k <= nodes[i].attrs@.len()
{
    if k >= nodes[i].attrs@.len() {
        None
    } else if 0 <= nodes[i].attrs@[k] < nodes.len() && attr_match(
        nodes,
        nodes[i].attrs@[k] as int,
        name,
        sel,
    ) {
        Some(nodes[i].attrs@[k])
    } else {
        attr_find_from(nodes, i, name, sel, k + 1)
    }
}

/// The value of the first matching attribute of `i`, if any.
pub open spec fn attr_value_of(
    nodes: Seq<NodeRec>,
    i: int,
    name: Seq<char>,
    sel: Option<Option<Seq<char>>>,
) -> Option<Seq<char>> {
    match attr_find_from(nodes, i, name, sel, 0) {
        Some(a) => Some(nodes[a as int].content@),
        None => None,
    }
}

/// The attribute search reads only the attribute lists, names and
/// namespaces: it is unmoved by changes to any other field.
proof fn lemma_attr_find_frame(
    n1: Seq<NodeRec>,
    n2: Seq<NodeRec>,
    i: int,
    name: Seq<char>,
    sel: Option<Option<Seq<char>>>,
    k: int,
)
    requires
        0 <= i < n1.len(),
        n1.len() == n2.len(),
        n1[i].attrs@ == n2[i].attrs@,
        0 <= k <= n1[i].attrs@.len(),
        forall|m: int|
            0 <= m < n1[i].attrs@.len() ==> {
                let a = #[trigger] n1[i].attrs@[m] as int;
                0 <= a < n1.len() ==> n2[a].name@ == n1[a].name@ && ns_href_view(n2[a].ns)
                    == ns_href_view(n1[a].ns)
            },
    ensures
        attr_find_from(n2, i, name, sel, k) == attr_find_from(n1, i, name, sel, k),
    decreases n1[i].attrs@.len() - k,
{
    if k >= n1[i].attrs@.len() {
    } else {
        lemma_attr_find_frame(n1, n2, i, name, sel, k + 1);
    }
}

/// Appending a fresh matching attribute to a list in which nothing matched
/// makes the search return exactly that attribute.
proof fn lemma_attr_find_push(
    n1: Seq<NodeRec>,
    n2: Seq<NodeRec>,
    i: int,
    name: Seq<char>,
    sel: Option<Option<Seq<char>>>,
    k: int,
    anew: int,
)
    requires
        0 <= i < n1.len(),
        n2.len() == n1.len() + 1,
        n2.len() <= usize::MAX as int,
        anew == n1.len(),
        n2[i].attrs@ == n1[i].attrs@.push(anew as usize),
        0 <= k <= n1[i].attrs@.len(),
        attr_find_from(n1, i, name, sel, k) is None,
        attr_match(n2, anew, name, sel),
        forall|m: int|
            0 <= m < n1[i].attrs@.len() ==> {
                let a = #[trigger] n1[i].attrs@[m] as int;
                0 <= a < n1.len() ==> n2[a].name@ == n1[a].name@ && ns_href_view(n2[a].ns)
                    == ns_href_view(n1[a].ns)
            },
        forall|m: int|
            0 <= m < n1[i].attrs@.len() ==> 0 <= (#[trigger] n1[i].attrs@[m] as int) < n1.len(),
    ensures
        attr_find_from(n2, i, name, sel, k) == Some(anew as usize),
    decreases n1[i].attrs@.len() - k,
{
    if k == n1[i].attrs@.len() {
        assert(n2[i].attrs@[k] == anew as usize);
        assert(attr_find_from(n2, i, name, sel, k + 1) is None);
    } else {
        assert(n2[i].attrs@[k] == n1[i].attrs@[k]);
        lemma_attr_find_push(n1, n2, i, name, sel, k + 1, anew);
    }
}

/// Finds the first attribute of `i` matching the name and selector.
pub(crate) fn find_attr(doc: &Document, i: usize, name: &Vec<char>, sel: &AttrSel) -> (r: Option<usize>)
    requires
        doc.wf(),
        i < doc.nodes@.len(),
    ensures
        r == attr_find_from(doc.nodes@, i as int, name@, sel.view_of(), 0),
        r matches Some(a) ==> a < doc.nodes@.len() && doc.nodes@[a as int].ntype
            == NodeType::AttributeNode && doc.nodes@[a as int].parent == Some(i)
            && doc.nodes@[i as int].attrs@.contains(a),
{
    let ghost asq = doc.nodes@[i as int].attrs@;
    let n = doc.nodes[i].attrs.len();
    let mut k: usize = 0;
    while k < n
        invariant
            doc.wf(),
            i < doc.nodes@.len(),
            k <= n,
            n == asq.len(),
            asq == doc.nodes@[i as int].attrs@,
            attr_find_from(doc.nodes@, i as int, name@, sel.view_of(), 0) == attr_find_from(
                doc.nodes@,
                i as int,
                name@,
                sel.view_of(),
                k as int,
            ),
        decreases n - k,
    {
        proof {
            assert(node_ok(doc.nodes@, i as int));
            assert(attr_edge_ok(doc.nodes@, i as int, asq[k as int] as int));
        }
        let a = doc.nodes[i].attrs[k];
        let name_hit = crate::tree::chars::eq_chars(&doc.nodes[a].name, name);
        let ns_hit: bool = match sel {
            AttrSel::AnyNs => true,
            AttrSel::NoNs => doc.nodes[a].ns.is_none(),
            AttrSel::Href(h) => match &doc.nodes[a].ns {
                Some(d) => crate::tree::chars::eq_chars(&d.href, h),
                None => false,
            },
        };
        if name_hit && ns_hit {
            proof {
                assert(attr_match(doc.nodes@, a as int, name@, sel.view_of()));
                assert(asq.contains(asq[k as int]));
            }
            return Some(a);
        }
        proof {
            assert(!attr_match(doc.nodes@, a as int, name@, sel.view_of()));
        }
        k = k + 1;
    }
    None
}

/// Whether unlinking position `n` does nothing: the node is the document
/// node, a fragment node, or already detached.
pub open spec fn unlink_noop(d: Document, n: int) -> bool {
    ||| d.nodes@[n].parent is None
    ||| d.nodes@[n].ntype == NodeType::DocumentNode
    ||| d.nodes@[n].ntype == NodeType::DocumentFragNode
}

/// Which error, if any, an add-child call must report: a guard rejection on
/// either node, a child that is not detached, a pair that cannot stand in a
/// child edge, or a move that would create a cycle.
pub open spec fn add_child_err(d: Document, p: int, c: int) -> Option<XmlError> {
    if d.nodes@[p].alias_count >= d.guard {
        Some(XmlError::AliasingError(d.nodes@[p].alias_count))
    } else if d.nodes@[c].alias_count >= d.guard {
        Some(XmlError::AliasingError(d.nodes@[c].alias_count))
    } else if d.nodes@[c].parent is Some || c == 0 {
        Some(XmlError::NotDetachedError)
    } else if d.nodes@[c].ntype == NodeType::AttributeNode || d.nodes@[p].ntype
        == NodeType::AttributeNode {
        Some(XmlError::NotAChildError)
    } else if in_subtree(d.nodes@, c, p) {
        Some(XmlError::NotAChildError)
    } else {
        None
    }
}

/// Which error, if any, a sibling insertion must report, in the order the
/// checks run: a guard rejection on either node, a sibling that is not
/// detached, a pair that cannot stand in a child edge, a node with no
/// parent to insert beside, or a move that would create a cycle.
pub open spec fn sibling_err(d: Document, s: int, c: int) -> Option<XmlError> {
    if d.nodes@[s].alias_count >= d.guard {
        Some(XmlError::AliasingError(d.nodes@[s].alias_count))
    } else if d.nodes@[c].alias_count >= d.guard {
        Some(XmlError::AliasingError(d.nodes@[c].alias_count))
    } else if d.nodes@[c].parent is Some || c == 0 {
        Some(XmlError::NotDetachedError)
    } else if d.nodes@[c].ntype == NodeType::AttributeNode {
        Some(XmlError::NotAChildError)
    } else if d.nodes@[s].parent is None || d.nodes@[s].ntype == NodeType::AttributeNode {
        Some(XmlError::NotAChildError)
    } else if d.nodes@[d.nodes@[s].parent->0 as int].ntype == NodeType::AttributeNode {
        Some(XmlError::NotAChildError)
    } else if in_subtree(d.nodes@, c, d.nodes@[s].parent->0 as int) {
        Some(XmlError::NotAChildError)
    } else {
        None
    }
}

/// Which error, if any, a replace-child call must report once the no-op
/// cases are ruled out, in the order the checks run.
pub open spec fn replace_err(d: Document, s: int, n: int, o: int) -> Option<XmlError> {
    if d.nodes@[s].ntype != NodeType::ElementNode {
        Some(XmlError::NotAChildError)
    } else if d.nodes@[o].parent != Some(s as usize) {
        Some(XmlError::NotAChildError)
    } else if d.nodes@[o].alias_count >= d.guard {
        Some(XmlError::AliasingError(d.nodes@[o].alias_count))
    } else if d.nodes@[n].alias_count >= d.guard {
        Some(XmlError::AliasingError(d.nodes@[n].alias_count))
    } else if d.nodes@[o].ntype == NodeType::AttributeNode || d.nodes@[o].ntype
        == NodeType::DocumentNode || d.nodes@[o].ntype == NodeType::DocumentFragNode {
        Some(XmlError::NotAChildError)
    } else if d.nodes@[n].ntype == NodeType::AttributeNode || d.nodes@[n].ntype
        == NodeType::DocumentNode || d.nodes@[n].ntype == NodeType::DocumentFragNode || n == 0 {
        Some(XmlError::NotAChildError)
    } else if in_subtree(d.nodes@, n, s) {
        Some(XmlError::NotAChildError)
    } else {
        None
    }
}

/// The namespace declarations in scope at position `i`: its own, then its
/// ancestors', nearest first.  The fuel bounds the ancestor walk; with the
/// arena's length as fuel the cutoff is never reached in a well-formed
/// tree, whose parent chains cannot repeat a position.
pub open spec fn anc_decls(
    nodes: Seq<NodeRec>,
    i: int,
    fuel: nat,
) -> Seq<crate::tree::namespace::NamespaceView>
    decreases fuel
        when 0 <= i < nodes.len()
{
    crate::tree::shape::decls_view(nodes[i].ns_decls@) + (if fuel == 0 {
        Seq::empty()
    } else {
        match nodes[i].parent {
            Some(p) => if 0 <= p < nodes.len() {
                anc_decls(nodes, p as int, (fuel - 1) as nat)
            } else {
                Seq::empty()
            },
            None => Seq::empty(),
        }
    })
}

/// The first declaration of `prefix` in the list, if any.
pub open spec fn scan_prefix(
    ds: Seq<crate::tree::namespace::NamespaceView>,
    prefix: Seq<char>,
) -> Option<crate::tree::namespace::NamespaceView>
    decreases ds.len(),
{
    if ds.len() == 0 {
        None
    } else if ds[0].prefix == prefix {
        Some(ds[0])
    } else {
        scan_prefix(ds.subrange(1, ds.len() as int), prefix)
    }
}

/// The first declaration of `href` in the list, if any.
pub open spec fn scan_href(
    ds: Seq<crate::tree::namespace::NamespaceView>,
    href: Seq<char>,
) -> Option<crate::tree::namespace::NamespaceView>
    decreases ds.len(),
{
    if ds.len() == 0 {
        None
    } else if ds[0].href == href {
        Some(ds[0])
    } else {
        scan_href(ds.subrange(1, ds.len() as int), href)
    }
}

/// What looking a prefix up around a node returns: nothing for the empty
/// prefix, the built-in binding for `xml`, else the href of the nearest
/// in-scope declaration of the prefix when that href is not empty.
pub open spec fn lookup_uri_spec(nodes: Seq<NodeRec>, i: int, prefix: Seq<char>) -> Option<
    Seq<char>,
> {
    if prefix.len() == 0 {
        None
    } else if prefix == seq!['x', 'm', 'l'] {
        Some(crate::parser::xml_builtin_ns().href)
    } else {
        match scan_prefix(anc_decls(nodes, i, nodes.len() as nat), prefix) {
            Some(d) => if d.href.len() > 0 {
                Some(d.href)
            } else {
                None
            },
            None => None,
        }
    }
}

/// What looking an href up around a node returns: nothing for the empty
/// href, the `xml` prefix for the built-in namespace, else the prefix of
/// the nearest in-scope declaration of the href.
pub open spec fn lookup_prefix_spec(nodes: Seq<NodeRec>, i: int, href: Seq<char>) -> Option<
    Seq<char>,
> {
    if href.len() == 0 {
        None
    } else if href == crate::parser::xml_builtin_ns().href {
        Some(seq!['x', 'm', 'l'])
    } else {
        match scan_href(anc_decls(nodes, i, nodes.len() as nat), href) {
            Some(d) => Some(d.prefix),
            None => None,
        }
    }
}

/// The in-scope declarations with shadowed prefixes dropped: of several
/// declarations of one prefix, the nearest survives.
pub open spec fn visible_decls(ds: Seq<crate::tree::namespace::NamespaceView>) -> Seq<
    crate::tree::namespace::NamespaceView,
>
    decreases ds.len(),
{
    if ds.len() == 0 {
        Seq::empty()
    } else {
        visible_decls(ds.drop_last()) + (if has_prefix(ds.drop_last(), ds.last().prefix) {
            Seq::<crate::tree::namespace::NamespaceView>::empty()
        } else {
            seq![ds.last()]
        })
    }
}

/// Whether the list declares the prefix.
pub open spec fn has_prefix(ds: Seq<crate::tree::namespace::NamespaceView>, p: Seq<char>) -> bool {
    exists|m: int| 0 <= m < ds.len() && (#[trigger] ds[m]).prefix == p
}

/// Collects the declarations in scope at `i`, nearest first.
fn collect_scope_decls(doc: &Document, i: usize) -> (r: Vec<Namespace>)
    requires
        doc.wf(),
        i < doc.nodes@.len(),
    ensures
        r@.map_values(|d: Namespace| d@) == anc_decls(
            doc.nodes@,
            i as int,
            doc.nodes@.len() as nat,
        ),
{
    let mut out: Vec<Namespace> = Vec::new();
    let mut cur = i;
    let mut fuel = doc.nodes.len();
    loop
        invariant
            doc.wf(),
            cur < doc.nodes@.len(),
            out@.map_values(|d: Namespace| d@) + anc_decls(doc.nodes@, cur as int, fuel as nat)
                == anc_decls(doc.nodes@, i as int, doc.nodes@.len() as nat),
        decreases fuel,
    {
        let ghost pre = out@;
        let dn = doc.nodes[cur].ns_decls.len();
        let mut k: usize = 0;
        while k < dn
            invariant
                doc.wf(),
                cur < doc.nodes@.len(),
                k <= dn,
                dn == doc.nodes@[cur as int].ns_decls@.len(),
                out@.map_values(|d: Namespace| d@) =~= pre.map_values(|d: Namespace| d@)
                    + crate::tree::shape::decls_view(
                    doc.nodes@[cur as int].ns_decls@.subrange(0, k as int),
                ),
            decreases dn - k,
        {
            let ghost preo = out@;
            out.push(doc.nodes[cur].ns_decls[k].duplicate());
            proof {
                assert(out@.map_values(|d: Namespace| d@) =~= preo.map_values(
                    |d: Namespace| d@,
                ).push(doc.nodes@[cur as int].ns_decls@[k as int]@));
                assert(out@.map_values(|d: Namespace| d@) =~= pre.map_values(|d: Namespace| d@)
                    + crate::tree::shape::decls_view(
                    doc.nodes@[cur as int].ns_decls@.subrange(0, k + 1 as int),
                ));
            }
            k = k + 1;
        }
        proof {
            assert(doc.nodes@[cur as int].ns_decls@.subrange(
                0,
                doc.nodes@[cur as int].ns_decls@.len() as int,
            ) =~= doc.nodes@[cur as int].ns_decls@);
            assert(out@.map_values(|d: Namespace| d@) =~= pre.map_values(|d: Namespace| d@)
                + crate::tree::shape::decls_view(doc.nodes@[cur as int].ns_decls@));
        }
        if fuel == 0 {
            proof {
                assert(anc_decls(doc.nodes@, cur as int, 0nat)
                    =~= crate::tree::shape::decls_view(doc.nodes@[cur as int].ns_decls@)
                    + Seq::<crate::tree::namespace::NamespaceView>::empty());
                assert(out@.map_values(|d: Namespace| d@) + Seq::<
                    crate::tree::namespace::NamespaceView,
                >::empty() =~= out@.map_values(|d: Namespace| d@));
            }
            return out;
        }
        let next = match doc.nodes[cur].parent {
            Some(p) => p,
            None => {
                proof {
                    assert(anc_decls(doc.nodes@, cur as int, fuel as nat)
                        =~= crate::tree::shape::decls_view(doc.nodes@[cur as int].ns_decls@)
                        + Seq::<crate::tree::namespace::NamespaceView>::empty());
                    assert(out@.map_values(|d: Namespace| d@) + Seq::<
                        crate::tree::namespace::NamespaceView,
                    >::empty() =~= out@.map_values(|d: Namespace| d@));
                }
                return out;
            },
        };
        proof {
            assert(crate::tree::shape::node_ok(doc.nodes@, cur as int));
            assert(anc_decls(doc.nodes@, cur as int, fuel as nat)
                == crate::tree::shape::decls_view(doc.nodes@[cur as int].ns_decls@) + anc_decls(
                doc.nodes@,
                next as int,
                (fuel - 1) as nat,
            ));
            assert((pre.map_values(|d: Namespace| d@) + crate::tree::shape::decls_view(
                doc.nodes@[cur as int].ns_decls@,
            )) + anc_decls(doc.nodes@, next as int, (fuel - 1) as nat) =~= pre.map_values(
                |d: Namespace| d@,
            ) + (crate::tree::shape::decls_view(doc.nodes@[cur as int].ns_decls@) + anc_decls(
                doc.nodes@,
                next as int,
                (fuel - 1) as nat,
            )));
        }
        cur = next;
        fuel = fuel - 1;
    }
}

/// Keeping only the nearest declaration of each prefix keeps exactly the
/// declared prefixes.
proof fn lemma_visible_has(ds: Seq<crate::tree::namespace::NamespaceView>, p: Seq<char>)
    ensures
        has_prefix(visible_decls(ds), p) <==> has_prefix(ds, p),
    decreases ds.len(),
{
    if ds.len() == 0 {
    } else {
        lemma_visible_has(ds.drop_last(), p);
        assert(has_prefix(ds, p) <==> (has_prefix(ds.drop_last(), p) || ds.last().prefix
            == p)) by {
            if has_prefix(ds, p) {
                let m = choose|m: int| 0 <= m < ds.len() && (#[trigger] ds[m]).prefix == p;
                if m < ds.len() - 1 {
                    assert(ds.drop_last()[m].prefix == p);
                }
            }
            if has_prefix(ds.drop_last(), p) {
                let m = choose|m: int|
                    0 <= m < ds.drop_last().len() && (#[trigger] ds.drop_last()[m]).prefix == p;
                assert(ds[m].prefix == p);
            }
            assert(ds[ds.len() - 1] == ds.last());
        }
        let vd = visible_decls(ds);
        let vdl = visible_decls(ds.drop_last());
        if has_prefix(vd, p) {
            let m = choose|m: int| 0 <= m < vd.len() && (#[trigger] vd[m]).prefix == p;
            if m < vdl.len() {
                assert(vdl[m].prefix == p);
            }
        }
        if has_prefix(ds, p) {
            if has_prefix(ds.drop_last(), p) {
                let m = choose|m: int| 0 <= m < vdl.len() && (#[trigger] vdl[m]).prefix == p;
                assert(vd[m].prefix == p);
            } else {
                assert(ds.last().prefix == p ==> vd[vd.len() - 1].prefix == p);
            }
        }
    }
}

/// Finds the first declaration with the given prefix in a collected scope.
fn scan_vec_prefix(ds: &Vec<Namespace>, p: &Vec<char>) -> (r: Option<Namespace>)
    ensures
        match scan_prefix(ds@.map_values(|d: Namespace| d@), p@) {
            Some(d) => r matches Some(x) && x@ == d,
            None => r is None,
        },
{
    let ghost dv = ds@.map_values(|d: Namespace| d@);
    let n = ds.len();
    let mut k: usize = 0;
    proof {
        assert(dv.subrange(0, n as int) =~= dv);
    }
    while k < n
        invariant
            k <= n,
            n == ds@.len(),
            dv == ds@.map_values(|d: Namespace| d@),
            scan_prefix(dv, p@) == scan_prefix(dv.subrange(k as int, n as int), p@),
        decreases n - k,
    {
        let ghost suffix = dv.subrange(k as int, n as int);
        proof {
            assert(suffix[0] == dv[k as int]);
            assert(suffix.subrange(1, suffix.len() as int) =~= dv.subrange(k + 1, n as int));
        }
        if crate::tree::chars::eq_chars(&ds[k].prefix, p) {
            return Some(ds[k].duplicate());
        }
        k = k + 1;
    }
    proof {
        assert(dv.subrange(n as int, n as int) =~= Seq::<
            crate::tree::namespace::NamespaceView,
        >::empty());
    }
    None
}

/// Finds the first declaration with the given href in a collected scope.
fn scan_vec_href(ds: &Vec<Namespace>, h: &Vec<char>) -> (r: Option<Namespace>)
    ensures
        match scan_href(ds@.map_values(|d: Namespace| d@), h@) {
            Some(d) => r matches Some(x) && x@ == d,
            None => r is None,
        },
{
    let ghost dv = ds@.map_values(|d: Namespace| d@);
    let n = ds.len();
    let mut k: usize = 0;
    proof {
        assert(dv.subrange(0, n as int) =~= dv);
    }
    while k < n
        invariant
            k <= n,
            n == ds@.len(),
            dv == ds@.map_values(|d: Namespace| d@),
            scan_href(dv, h@) == scan_href(dv.subrange(k as int, n as int), h@),
        decreases n - k,
    {
        let ghost suffix = dv.subrange(k as int, n as int);
        proof {
            assert(suffix[0] == dv[k as int]);
            assert(suffix.subrange(1, suffix.len() as int) =~= dv.subrange(k + 1, n as int));
        }
        if crate::tree::chars::eq_chars(&ds[k].href, h) {
            return Some(ds[k].duplicate());
        }
        k = k + 1;
    }
    proof {
        assert(dv.subrange(n as int, n as int) =~= Seq::<
            crate::tree::namespace::NamespaceView,
        >::empty());
    }
    None
}

/// What a freshly created, detached node looks like, beyond its kind, name
/// and content: no parent, no children, no attributes, no declarations, and
/// one live handle (the one returned to the caller).
pub open spec fn fresh_rec(r: NodeRec) -> bool {
    &&& r.parent is None
    &&& r.children@.len() == 0
    &&& r.attrs@.len() == 0
    &&& r.ns_decls@.len() == 0
    &&& r.alias_count == 1
}

/// How creating one fresh node relates two document states: one record is
/// appended and nothing else moves.
pub open spec fn create_rel(d0: Document, d1: Document, id: int) -> bool {
    &&& id == d0.nodes@.len()
    &&& d1.nodes@.len() == d0.nodes@.len() + 1
    &&& d1.guard == d0.guard
    &&& forall|j: int|
        0 <= j < d0.nodes@.len() ==> rec_eq(#[trigger] d1.nodes@[j], d0.nodes@[j])
    &&& fresh_rec(d1.nodes@[id])
}

impl Node {
    /// Create a null handle, used as a placeholder argument.
    pub fn null() -> (r: Node)
        ensures
            r.id == usize::MAX,
    {
        Node { id: usize::MAX }
    }

    /// Checks if this is the null handle.
    pub fn is_null(&self) -> (r: bool)
        ensures
            r == (self.id == usize::MAX),
    {
        self.id == usize::MAX
    }

    /// The raw position identity behind this handle.
    pub fn node_ptr(&self) -> (r: usize)
        ensures
            r == self.id,
    {
        self.id
    }

    /// The position identity as a hashable value.
    pub fn to_hashable(&self) -> (r: usize)
        ensures
            r == self.id,
    {
        self.id
    }

    /// Create a new element node, detached but owned by the given document.
    /// Fails only when the document cannot allocate another position.
    pub fn new(name: &str, ns: Option<Namespace>, doc: &mut Document) -> (r: Result<Node, ()>)
        requires
            old(doc).wf(),
        ensures
            final(doc).wf(),
            r is Ok <==> old(doc).nodes@.len() < usize::MAX - 1,
            r is Err ==> *final(doc) == *old(doc),
            r matches Ok(n) ==> {
                &&& create_rel(*old(doc), *final(doc), n.id as int)
                &&& n.id < final(doc).nodes@.len()
                &&& final(doc).nodes@[n.id as int].ntype == NodeType::ElementNode
                &&& final(doc).nodes@[n.id as int].name@ == name@
                &&& final(doc).nodes@[n.id as int].content@.len() == 0
                &&& ns_view(final(doc).nodes@[n.id as int].ns) == ns_view(ns)
            },
    {
        if doc.nodes.len() >= usize::MAX - 1 {
            return Err(());
        }
        let rec = NodeRec {
            ntype: NodeType::ElementNode,
            name: str_to_chars(name),
            content: Vec::new(),
            parent: None,
            children: Vec::new(),
            attrs: Vec::new(),
            ns_decls: Vec::new(),
            ns,
            alias_count: 1,
            height: Ghost(0),
        };
        let id = doc.nodes.len();
        proof {
            lemma_shape_push(doc.nodes@, rec);
        }
        doc.nodes.push(rec);
        Ok(Node { id })
    }

    /// Create a new text node, detached but owned by the given document.
    pub fn new_text(content: &str, doc: &mut Document) -> (r: Result<Node, ()>)
        requires
            old(doc).wf(),
        ensures
            final(doc).wf(),
            r is Ok <==> old(doc).nodes@.len() < usize::MAX - 1,
            r is Err ==> *final(doc) == *old(doc),
            r matches Ok(n) ==> {
                &&& create_rel(*old(doc), *final(doc), n.id as int)
                &&& n.id < final(doc).nodes@.len()
                &&& final(doc).nodes@[n.id as int].ntype == NodeType::TextNode
                &&& final(doc).nodes@[n.id as int].name@.len() == 0
                &&& final(doc).nodes@[n.id as int].content@ == content@
                &&& final(doc).nodes@[n.id as int].ns is None
            },
    {
        if doc.nodes.len() >= usize::MAX - 1 {
            return Err(());
        }
        let rec = NodeRec {
            ntype: NodeType::TextNode,
            name: Vec::new(),
            content: str_to_chars(content),
            parent: None,
            children: Vec::new(),
            attrs: Vec::new(),
            ns_decls: Vec::new(),
            ns: None,
            alias_count: 1,
            height: Ghost(0),
        };
        let id = doc.nodes.len();
        proof {
            lemma_shape_push(doc.nodes@, rec);
        }
        doc.nodes.push(rec);
        Ok(Node { id })
    }

    /// Unbinds the node from its siblings and parent, but not from the
    /// document that owns it: the subtree stays valid, addressable storage,
    /// pending re-attachment or teardown of the whole document.  Document
    /// nodes and already detached nodes are left alone.
    pub fn unlink_node(&self, doc: &mut Document)
        requires
            old(doc).wf(),
            self.id < old(doc).nodes@.len(),
        ensures
            final(doc).wf(),
            unlink_noop(*old(doc), self.id as int) ==> *final(doc) == *old(doc),
            !unlink_noop(*old(doc), self.id as int) ==> Document::detach_rel(
                *old(doc),
                *final(doc),
                self.id as int,
            ),
    {
        let id = self.id;
        let nt = doc.nodes[id].ntype;
        if nt == NodeType::DocumentNode || nt == NodeType::DocumentFragNode {
            return ;
        }
        let p = match doc.nodes[id].parent {
            Some(p) => p,
            None => {
                return ;
            },
        };
        proof {
            assert(node_ok(doc.nodes@, id as int));
            assert(node_ok(doc.nodes@, p as int));
            if doc.nodes@[p as int].attrs@.contains(id as usize) {
                let m = choose|m: int|
                    0 <= m < doc.nodes@[p as int].attrs@.len() && doc.nodes@[p as int].attrs@[m]
                        == id as usize;
                assert(attr_edge_ok(doc.nodes@, p as int, doc.nodes@[p as int].attrs@[m] as int));
                assert(doc.nodes@[id as int].ntype == NodeType::AttributeNode);
            }
            if doc.nodes@[p as int].children@.contains(id as usize) {
                let m = choose|m: int|
                    0 <= m < doc.nodes@[p as int].children@.len()
                        && doc.nodes@[p as int].children@[m] == id as usize;
                assert(child_edge_ok(
                    doc.nodes@,
                    p as int,
                    doc.nodes@[p as int].children@[m] as int,
                ));
                assert(doc.nodes@[id as int].ntype != NodeType::AttributeNode);
                assert(doc.nodes@[id as int].height@ < doc.nodes@[p as int].height@);
            }
            assert(id != p);
        }
        if doc.nodes[id].ntype == NodeType::AttributeNode {
            let ghost pre = *doc;
            proof {
                assert(doc.nodes@[p as int].attrs@.contains(id as usize));
            }
            let k = find_first(&doc.nodes[p].attrs, id);
            doc.nodes[p].attrs.remove(k);
            doc.nodes[id].parent = None;
            proof {
                lemma_shape_detach_attr(
                    pre.nodes@,
                    doc.nodes@,
                    id as int,
                    p as int,
                    k as int,
                );
                assert(pre.nodes@[p as int].attrs@.index_of(id as usize) == k as int) by {
                    let m = pre.nodes@[p as int].attrs@.index_of(id as usize);
                    assert(pre.nodes@[p as int].attrs@.contains(id as usize));
                    assert(node_ok(pre.nodes@, p as int));
                    if m < k as int {
                        assert(pre.nodes@[p as int].attrs@[m] != id as usize);
                    }
                    if m > k as int {
                        assert(pre.nodes@[p as int].attrs@[k as int] != pre.nodes@[
                            p as int
                        ].attrs@[m]);
                    }
                }
            }
        } else {
            let ghost pre = *doc;
            proof {
                assert(doc.nodes@[p as int].children@.contains(id as usize));
            }
            let k = find_first(&doc.nodes[p].children, id);
            doc.nodes[p].children.remove(k);
            doc.nodes[id].parent = None;
            proof {
                lemma_shape_detach(pre.nodes@, doc.nodes@, id as int, p as int, k as int);
                assert(pre.nodes@[p as int].children@.index_of(id as usize) == k as int) by {
                    let m = pre.nodes@[p as int].children@.index_of(id as usize);
                    assert(pre.nodes@[p as int].children@.contains(id as usize));
                    assert(node_ok(pre.nodes@, p as int));
                    if m < k as int {
                        assert(pre.nodes@[p as int].children@[m] != id as usize);
                    }
                    if m > k as int {
                        assert(pre.nodes@[p as int].children@[k as int] != pre.nodes@[
                            p as int
                        ].children@[m]);
                    }
                }
            }
        }
    }

    /// Alias for `unlink_node`
    pub fn unlink(&self, doc: &mut Document)
        requires
            old(doc).wf(),
            self.id < old(doc).nodes@.len(),
        ensures
            final(doc).wf(),
            unlink_noop(*old(doc), self.id as int) ==> *final(doc) == *old(doc),
            !unlink_noop(*old(doc), self.id as int) ==> Document::detach_rel(
                *old(doc),
                *final(doc),
                self.id as int,
            ),
    {
        self.unlink_node(doc)
    }

    /// Alias for `unlink_node`
    pub fn unbind_node(&self, doc: &mut Document)
        requires
            old(doc).wf(),
            self.id < old(doc).nodes@.len(),
        ensures
            final(doc).wf(),
            unlink_noop(*old(doc), self.id as int) ==> *final(doc) == *old(doc),
            !unlink_noop(*old(doc), self.id as int) ==> Document::detach_rel(
                *old(doc),
                *final(doc),
                self.id as int,
            ),
    {
        self.unlink_node(doc)
    }

    /// Alias for `unlink_node`
    pub fn unbind(&self, doc: &mut Document)
        requires
            old(doc).wf(),
            self.id < old(doc).nodes@.len(),
        ensures
            final(doc).wf(),
            unlink_noop(*old(doc), self.id as int) ==> *final(doc) == *old(doc),
            !unlink_noop(*old(doc), self.id as int) ==> Document::detach_rel(
                *old(doc),
                *final(doc),
                self.id as int,
            ),
    {
        self.unlink_node(doc)
    }

    /// Checks if the node is currently detached from the tree.
    pub fn is_unlinked(&self, doc: &Document) -> (r: bool)
        requires
            doc.wf(),
            self.id < doc.nodes@.len(),
        ensures
            r == (doc.nodes@[self.id as int].parent is None && self.id != 0),
    {
        self.id != 0 && doc.nodes[self.id].parent.is_none()
    }

    /// Makes `child`, which must be detached, the last child of this node.
    /// Both nodes must pass the mutability guard; the move must not create a
    /// cycle.
    pub fn add_child(&self, doc: &mut Document, child: &Node) -> (r: Result<(), XmlError>)
        requires
            old(doc).wf(),
            self.id < old(doc).nodes@.len(),
            child.id < old(doc).nodes@.len(),
        ensures
            final(doc).wf(),
            r matches Err(e) ==> *final(doc) == *old(doc) && e == add_child_err(
                *old(doc),
                self.id as int,
                child.id as int,
            )->Some_0,
            r is Err <==> add_child_err(*old(doc), self.id as int, child.id as int) is Some,
            r is Ok ==> Document::attach_rel(*old(doc), *final(doc), self.id as int, child.id as int),
    {
        let p = self.id;
        let c = child.id;
        let cnt_p = doc.nodes[p].alias_count;
        if cnt_p >= doc.guard {
            return Err(XmlError::AliasingError(cnt_p));
        }
        let cnt_c = doc.nodes[c].alias_count;
        if cnt_c >= doc.guard {
            return Err(XmlError::AliasingError(cnt_c));
        }
        if doc.nodes[c].parent.is_some() || c == 0 {
            return Err(XmlError::NotDetachedError);
        }
        let ct = doc.nodes[c].ntype;
        let pt = doc.nodes[p].ntype;
        if ct == NodeType::AttributeNode || pt == NodeType::AttributeNode {
            return Err(XmlError::NotAChildError);
        }
        if doc.contains_pos(c, p) {
            return Err(XmlError::NotAChildError);
        }
        let ghost pre = *doc;
        let slot = doc.nodes[p].children.len();
        doc.attach_new(p, c, slot);
        proof {
            assert(doc.nodes@[p as int].children@ =~= pre.nodes@[p as int].children@.push(c));
        }
        Ok(())
    }

    /// Get the node type.
    pub fn get_type(&self, doc: &Document) -> (r: Option<NodeType>)
        requires
            doc.wf(),
            self.id < doc.nodes@.len(),
        ensures
            r == Some(doc.nodes@[self.id as int].ntype),
    {
        Some(doc.nodes[self.id].ntype)
    }

    /// Returns true if this is a text node.
    pub fn is_text_node(&self, doc: &Document) -> (r: bool)
        requires
            doc.wf(),
            self.id < doc.nodes@.len(),
        ensures
            r == (doc.nodes@[self.id as int].ntype == NodeType::TextNode),
    {
        doc.nodes[self.id].ntype == NodeType::TextNode
    }

    /// Checks if this node is an element.
    pub fn is_element_node(&self, doc: &Document) -> (r: bool)
        requires
            doc.wf(),
            self.id < doc.nodes@.len(),
        ensures
            r == (doc.nodes@[self.id as int].ntype == NodeType::ElementNode),
    {
        doc.nodes[self.id].ntype == NodeType::ElementNode
    }

    /// Returns the name of the node (empty for text nodes).
    pub fn get_name(&self, doc: &Document) -> (r: String)
        requires
            doc.wf(),
            self.id < doc.nodes@.len(),
        ensures
            r@ == doc.nodes@[self.id as int].name@,
    {
        crate::tree::chars::chars_to_string(&doc.nodes[self.id].name)
    }

    /// Returns the text value of this node's subtree.
    pub fn get_content(&self, doc: &Document) -> (r: String)
        requires
            doc.wf(),
            self.id < doc.nodes@.len(),
        ensures
            r@ == text_of(doc.nodes@, self.id as int),
    {
        let mut out: Vec<char> = Vec::new();
        collect_text(doc, self.id, &mut out);
        crate::tree::chars::chars_to_string(&out)
    }

    /// Returns the parent if the node has one (the document node stands as
    /// the parent of root-level nodes).
    pub fn get_parent(&self, doc: &mut Document) -> (r: Option<Node>)
        requires
            old(doc).wf(),
            self.id < old(doc).nodes@.len(),
        ensures
            final(doc).wf(),
            match old(doc).nodes@[self.id as int].parent {
                Some(p) => r matches Some(n) && n.id == p && Document::wrap_rel(
                    *old(doc),
                    *final(doc),
                    p as int,
                ),
                None => r is None && *final(doc) == *old(doc),
            },
    {
        proof {
            assert(node_ok(doc.nodes@, self.id as int));
        }
        match doc.nodes[self.id].parent {
            Some(p) => Some(doc.wrap(p)),
            None => None,
        }
    }

    /// Returns the first child if it exists.
    pub fn get_first_child(&self, doc: &mut Document) -> (r: Option<Node>)
        requires
            old(doc).wf(),
            self.id < old(doc).nodes@.len(),
        ensures
            final(doc).wf(),
            match first_child_of(old(doc).nodes@, self.id as int) {
                Some(c) => r matches Some(n) && n.id == c && Document::wrap_rel(
                    *old(doc),
                    *final(doc),
                    c as int,
                ),
                None => r is None && *final(doc) == *old(doc),
            },
    {
        proof {
            assert(node_ok(doc.nodes@, self.id as int));
            if doc.nodes@[self.id as int].children@.len() > 0 {
                assert(child_edge_ok(
                    doc.nodes@,
                    self.id as int,
                    doc.nodes@[self.id as int].children@[0] as int,
                ));
            }
        }
        if doc.nodes[self.id].children.len() > 0 {
            let c = doc.nodes[self.id].children[0];
            Some(doc.wrap(c))
        } else {
            None
        }
    }

    /// Returns the last child if it exists.
    pub fn get_last_child(&self, doc: &mut Document) -> (r: Option<Node>)
        requires
            old(doc).wf(),
            self.id < old(doc).nodes@.len(),
        ensures
            final(doc).wf(),
            match last_child_of(old(doc).nodes@, self.id as int) {
                Some(c) => r matches Some(n) && n.id == c && Document::wrap_rel(
                    *old(doc),
                    *final(doc),
                    c as int,
                ),
                None => r is None && *final(doc) == *old(doc),
            },
    {
        let len = doc.nodes[self.id].children.len();
        proof {
            assert(node_ok(doc.nodes@, self.id as int));
            if len > 0 {
                assert(child_edge_ok(
                    doc.nodes@,
                    self.id as int,
                    doc.nodes@[self.id as int].children@[len - 1] as int,
                ));
            }
        }
        if len > 0 {
            let c = doc.nodes[self.id].children[len - 1];
            Some(doc.wrap(c))
        } else {
            None
        }
    }

    /// Returns the next sibling if it exists.
    pub fn get_next_sibling(&self, doc: &mut Document) -> (r: Option<Node>)
        requires
            old(doc).wf(),
            self.id < old(doc).nodes@.len(),
        ensures
            final(doc).wf(),
            match next_sibling_of(old(doc).nodes@, self.id as int) {
                Some(c) => r matches Some(n) && n.id == c && Document::wrap_rel(
                    *old(doc),
                    *final(doc),
                    c as int,
                ),
                None => r is None && *final(doc) == *old(doc),
            },
    {
        match sibling_slot(doc, self.id) {
            Some((p, k)) => {
                proof {
                    assert(node_ok(doc.nodes@, p as int));
                }
                if k < doc.nodes[p].children.len() - 1 {
                    proof {
                        assert(child_edge_ok(
                            doc.nodes@,
                            p as int,
                            doc.nodes@[p as int].children@[k + 1] as int,
                        ));
                    }
                    let c = doc.nodes[p].children[k + 1];
                    Some(doc.wrap(c))
                } else {
                    None
                }
            },
            None => None,
        }
    }

    /// Returns the previous sibling if it exists.
    pub fn get_prev_sibling(&self, doc: &mut Document) -> (r: Option<Node>)
        requires
            old(doc).wf(),
            self.id < old(doc).nodes@.len(),
        ensures
            final(doc).wf(),
            match prev_sibling_of(old(doc).nodes@, self.id as int) {
                Some(c) => r matches Some(n) && n.id == c && Document::wrap_rel(
                    *old(doc),
                    *final(doc),
                    c as int,
                ),
                None => r is None && *final(doc) == *old(doc),
            },
    {
        match sibling_slot(doc, self.id) {
            Some((p, k)) => {
                proof {
                    assert(node_ok(doc.nodes@, p as int));
                }
                if k > 0 {
                    proof {
                        assert(child_edge_ok(
                            doc.nodes@,
                            p as int,
                            doc.nodes@[p as int].children@[k - 1] as int,
                        ));
                    }
                    let c = doc.nodes[p].children[k - 1];
                    Some(doc.wrap(c))
                } else {
                    None
                }
            },
            None => None,
        }
    }

    /// Returns the first element child if it exists.
    pub fn get_first_element_child(&self, doc: &mut Document) -> (r: Option<Node>)
        requires
            old(doc).wf(),
            self.id < old(doc).nodes@.len(),
        ensures
            final(doc).wf(),
            match first_elem_from(
                old(doc).nodes@,
                old(doc).nodes@[self.id as int].children@,
                0,
            ) {
                Some(c) => r matches Some(n) && n.id == c && Document::wrap_rel(
                    *old(doc),
                    *final(doc),
                    c as int,
                ),
                None => r is None && *final(doc) == *old(doc),
            },
    {
        scan_elem_forward(doc, self.id, 0)
    }

    /// Returns the last element child if it exists.
    pub fn get_last_element_child(&self, doc: &mut Document) -> (r: Option<Node>)
        requires
            old(doc).wf(),
            self.id < old(doc).nodes@.len(),
        ensures
            final(doc).wf(),
            match last_elem_before(
                old(doc).nodes@,
                old(doc).nodes@[self.id as int].children@,
                old(doc).nodes@[self.id as int].children@.len() as int,
            ) {
                Some(c) => r matches Some(n) && n.id == c && Document::wrap_rel(
                    *old(doc),
                    *final(doc),
                    c as int,
                ),
                None => r is None && *final(doc) == *old(doc),
            },
    {
        let n = doc.nodes[self.id].children.len();
        scan_elem_backward(doc, self.id, n)
    }

    /// Returns the next element sibling if it exists.
    pub fn get_next_element_sibling(&self, doc: &mut Document) -> (r: Option<Node>)
        requires
            old(doc).wf(),
            self.id < old(doc).nodes@.len(),
        ensures
            final(doc).wf(),
            match next_elem_sibling_of(old(doc).nodes@, self.id as int) {
                Some(c) => r matches Some(n) && n.id == c && Document::wrap_rel(
                    *old(doc),
                    *final(doc),
                    c as int,
                ),
                None => r is None && *final(doc) == *old(doc),
            },
    {
        match sibling_slot(doc, self.id) {
            Some((p, k)) => {
                let n = doc.nodes[p].children.len();
                proof {
                    assert(k < n);
                }
                scan_elem_forward(doc, p, k + 1)
            },
            None => None,
        }
    }

    /// Returns the previous element sibling if it exists.
    pub fn get_prev_element_sibling(&self, doc: &mut Document) -> (r: Option<Node>)
        requires
            old(doc).wf(),
            self.id < old(doc).nodes@.len(),
        ensures
            final(doc).wf(),
            match prev_elem_sibling_of(old(doc).nodes@, self.id as int) {
                Some(c) => r matches Some(n) && n.id == c && Document::wrap_rel(
                    *old(doc),
                    *final(doc),
                    c as int,
                ),
                None => r is None && *final(doc) == *old(doc),
            },
    {
        match sibling_slot(doc, self.id) {
            Some((p, k)) => scan_elem_backward(doc, p, k),
            None => None,
        }
    }

    /// Returns all child nodes of the given node as a vector.  Every child
    /// is wrapped: each gains one live alias.
    pub fn get_child_nodes(&self, doc: &mut Document) -> (r: Vec<Node>)
        requires
            old(doc).wf(),
            self.id < old(doc).nodes@.len(),
        ensures
            final(doc).wf(),
            r@.len() == old(doc).nodes@[self.id as int].children@.len(),
            forall|k: int|
                0 <= k < r@.len() ==> (#[trigger] r@[k]).id == old(doc).nodes@[
                    self.id as int
                ].children@[k],
            Document::wrap_many_rel(
                *old(doc),
                *final(doc),
                old(doc).nodes@[self.id as int].children@,
            ),
    {
        let ghost ids = doc.nodes@[self.id as int].children@;
        proof {
            assert(node_ok(doc.nodes@, self.id as int));
        }
        let n = doc.nodes[self.id].children.len();
        let mut out: Vec<Node> = Vec::new();
        let mut k: usize = 0;
        while k < n
            invariant
                doc.wf(),
                self.id < doc.nodes@.len(),
                k <= n,
                n == ids.len(),
                ids == doc.nodes@[self.id as int].children@,
                forall|k1: int, k2: int| 0 <= k1 < k2 < ids.len() ==> ids[k1] != ids[k2],
                forall|j: int| 0 <= j < ids.len() ==> 0 <= #[trigger] ids[j] < doc.nodes@.len(),
                out@.len() == k,
                forall|j: int| 0 <= j < k ==> (#[trigger] out@[j]).id == ids[j],
                Document::wrap_many_rel(*old(doc), *doc, ids.subrange(0, k as int)),
            decreases n - k,
        {
            proof {
                assert(ids.subrange(0, k as int).push(ids[k as int]) =~= ids.subrange(
                    0,
                    k + 1 as int,
                ));
                assert(!ids.subrange(0, k as int).contains(ids[k as int])) by {
                    if ids.subrange(0, k as int).contains(ids[k as int]) {
                        let m = choose|m: int|
                            0 <= m < k && ids.subrange(0, k as int)[m] == ids[k as int];
                        assert(ids[m] == ids[k as int]);
                    }
                }
            }
            let ghost pre = *doc;
            let c = doc.nodes[self.id].children[k];
            let h = doc.wrap(c);
            out.push(h);
            proof {
                assert(ids.subrange(0, k + 1 as int)[k as int] == ids[k as int]);
                assert(ids.subrange(0, k + 1 as int).contains(ids[k as int]));
                assert forall|j: int|
                    0 <= j < doc.nodes@.len() && !ids.subrange(0, k + 1 as int).contains(
                        j as usize,
                    ) implies doc.nodes@[j].alias_count == old(doc).nodes@[j].alias_count by {
                    assert(!ids.subrange(0, k as int).contains(j as usize)) by {
                        if ids.subrange(0, k as int).contains(j as usize) {
                            let m = choose|m: int|
                                0 <= m < k && ids.subrange(0, k as int)[m] == j as usize;
                            assert(ids.subrange(0, k + 1 as int)[m] == j as usize);
                        }
                    }
                    assert(j != c as int);
                }
                assert forall|j: int|
                    0 <= j < doc.nodes@.len() && ids.subrange(0, k + 1 as int).contains(
                        j as usize,
                    ) implies doc.nodes@[j].alias_count == sat_inc(
                    old(doc).nodes@[j].alias_count,
                ) by {
                    if j == c as int {
                        assert(pre.nodes@[j].alias_count == old(doc).nodes@[j].alias_count);
                    } else {
                        assert(ids.subrange(0, k as int).contains(j as usize));
                    }
                }
            }
            k = k + 1;
        }
        proof {
            assert(ids.subrange(0, n as int) =~= ids);
        }
        out
    }

    /// Returns all child elements of the given node as a vector.  Only the
    /// elements are wrapped; other children gain no alias.
    pub fn get_child_elements(&self, doc: &mut Document) -> (r: Vec<Node>)
        requires
            old(doc).wf(),
            self.id < old(doc).nodes@.len(),
        ensures
            final(doc).wf(),
            ids_of(r@) == elem_children(*old(doc), self.id as int),
            Document::wrap_many_rel(
                *old(doc),
                *final(doc),
                elem_children(*old(doc), self.id as int),
            ),
    {
        let ghost d0 = *old(doc);
        let ghost ids = doc.nodes@[self.id as int].children@;
        let ghost pred = |c: usize| 0 <= c < d0.nodes@.len() && d0.nodes@[c as int].ntype
            == NodeType::ElementNode;
        proof {
            assert(node_ok(doc.nodes@, self.id as int));
        }
        let n = doc.nodes[self.id].children.len();
        let mut out: Vec<Node> = Vec::new();
        let mut k: usize = 0;
        while k < n
            invariant
                doc.wf(),
                self.id < doc.nodes@.len(),
                k <= n,
                n == ids.len(),
                d0 == *old(doc),
                pred == (|c: usize| 0 <= c < d0.nodes@.len() && d0.nodes@[c as int].ntype
                    == NodeType::ElementNode),
                ids == doc.nodes@[self.id as int].children@,
                ids == d0.nodes@[self.id as int].children@,
                forall|k1: int, k2: int| 0 <= k1 < k2 < ids.len() ==> ids[k1] != ids[k2],
                forall|j: int| 0 <= j < ids.len() ==> 0 <= #[trigger] ids[j] < doc.nodes@.len(),
                ids_of(out@) == ids.subrange(0, k as int).filter(pred),
                Document::wrap_many_rel(
                    *old(doc),
                    *doc,
                    ids.subrange(0, k as int).filter(pred),
                ),
            decreases n - k,
        {
            let ghost prefix = ids.subrange(0, k as int);
            let ghost prefix1 = ids.subrange(0, k + 1 as int);
            proof {
                assert(prefix1.drop_last() =~= prefix);
                assert(prefix1.last() == ids[k as int]);
                assert(prefix1.len() > 0);
                assert(prefix1.filter(pred) == if pred(ids[k as int]) {
                    prefix.filter(pred).push(ids[k as int])
                } else {
                    prefix.filter(pred)
                }) by {
                    reveal_with_fuel(Seq::filter, 2);
                    assert(prefix1.drop_last().filter(pred) == prefix.filter(pred));
                }
                broadcast use vstd::seq_lib::group_filter_ensures;
                assert(!prefix.filter(pred).contains(ids[k as int])) by {
                    if prefix.filter(pred).contains(ids[k as int]) {
                        lemma_filter_member(prefix, pred, ids[k as int]);
                        let m2 = choose|m2: int| 0 <= m2 < k && prefix[m2] == ids[k as int];
                        assert(ids[m2] == ids[k as int]);
                    }
                }
            }
            let ghost pre = *doc;
            let ghost preout = out@;
            let c = doc.nodes[self.id].children[k];
            if doc.nodes[c].ntype == NodeType::ElementNode {
                proof {
                    assert(rec_eq_but_count(doc.nodes@[c as int], d0.nodes@[c as int]));
                    assert(pred(ids[k as int]));
                }
                let h = doc.wrap(c);
                out.push(h);
                proof {
                    assert(ids_of(out@) =~= ids_of(preout).push(c));
                    assert(prefix1.filter(pred) == prefix.filter(pred).push(ids[k as int]));
                    assert(ids_of(out@) =~= prefix1.filter(pred));
                    assert forall|j: int|
                        0 <= j < doc.nodes@.len() && !prefix1.filter(pred).contains(j as usize)
                            implies doc.nodes@[j].alias_count == old(doc).nodes@[
                        j
                    ].alias_count by {
                        assert(!prefix.filter(pred).contains(j as usize)) by {
                            if prefix.filter(pred).contains(j as usize) {
                                let m = choose|m: int|
                                    0 <= m < prefix.filter(pred).len() && prefix.filter(pred)[m]
                                        == j as usize;
                                assert(prefix1.filter(pred)[m] == j as usize);
                            }
                        }
                        assert(prefix1.filter(pred).last() == c);
                        assert(prefix1.filter(pred).contains(c));
                        assert(j != c as int);
                    }
                    assert forall|j: int|
                        0 <= j < doc.nodes@.len() && prefix1.filter(pred).contains(j as usize)
                            implies doc.nodes@[j].alias_count == sat_inc(
                        old(doc).nodes@[j].alias_count,
                    ) by {
                        if j == c as int {
                            assert(pre.nodes@[j].alias_count == old(doc).nodes@[j].alias_count);
                        } else {
                            assert(prefix.filter(pred).contains(j as usize));
                        }
                    }
                }
            } else {
                proof {
                    assert(rec_eq_but_count(doc.nodes@[c as int], d0.nodes@[c as int]));
                    assert(!pred(ids[k as int]));
                    assert(prefix1.filter(pred) == prefix.filter(pred));
                }
            }
            k = k + 1;
        }
        proof {
            assert(ids.subrange(0, n as int) =~= ids);
        }
        out
    }

    /// Sets the name of this node.  Must pass the mutability guard.
    pub fn set_name(&self, doc: &mut Document, name: &str) -> (r: Result<(), XmlError>)
        requires
            old(doc).wf(),
            self.id < old(doc).nodes@.len(),
        ensures
            final(doc).wf(),
            r is Ok <==> old(doc).guard_pass(self.id as int),
            r matches Err(e) ==> e == XmlError::AliasingError(
                old(doc).nodes@[self.id as int].alias_count,
            ) && *final(doc) == *old(doc),
            r is Ok ==> {
                &&& final(doc).nodes@.len() == old(doc).nodes@.len()
                &&& final(doc).guard == old(doc).guard
                &&& forall|j: int|
                    0 <= j < old(doc).nodes@.len() && j != self.id ==> final(doc).nodes@[j]
                        == #[trigger] old(doc).nodes@[j]
                &&& rec_eq_but_name(
                    final(doc).nodes@[self.id as int],
                    old(doc).nodes@[self.id as int],
                )
                &&& final(doc).nodes@[self.id as int].name@ == name@
            },
    {
        let id = self.id;
        let cnt = doc.nodes[id].alias_count;
        if cnt >= doc.guard {
            return Err(XmlError::AliasingError(cnt));
        }
        doc.nodes[id].name = str_to_chars(name);
        proof {
            assert forall|j: int| 0 <= j < doc.nodes@.len() implies same_shape_fields(
                #[trigger] old(doc).nodes@[j],
                doc.nodes@[j],
            ) by {}
            lemma_shape_same(old(doc).nodes@, doc.nodes@);
        }
        Ok(())
    }

    /// Sets the text content of this node.  On a node that carries text
    /// directly the stored content is replaced; on an element (or the
    /// document node) the children are detached and replaced by one fresh
    /// text node holding the content (none when the content is empty).
    /// Must pass the mutability guard.
    pub fn set_content(&self, doc: &mut Document, content: &str) -> (r: Result<(), XmlError>)
        requires
            old(doc).wf(),
            self.id < old(doc).nodes@.len(),
            old(doc).nodes@.len() < usize::MAX - 1,
        ensures
            final(doc).wf(),
            r is Ok <==> old(doc).guard_pass(self.id as int),
            r matches Err(e) ==> e == XmlError::AliasingError(
                old(doc).nodes@[self.id as int].alias_count,
            ) && *final(doc) == *old(doc),
            r is Ok ==> {
                &&& text_of(final(doc).nodes@, self.id as int) == content@
                &&& final(doc).guard == old(doc).guard
                &&& old(doc).nodes@.len() <= final(doc).nodes@.len()
                    <= old(doc).nodes@.len() + 1
                &&& (!holds_text(old(doc).nodes@[self.id as int].ntype)
                    ==> crate::tree::shape::rec_eq_but_children_height(
                    final(doc).nodes@[self.id as int],
                    old(doc).nodes@[self.id as int],
                ))
                &&& forall|j: int|
                    0 <= j < old(doc).nodes@.len() && j != self.id && !old(doc).nodes@[
                        self.id as int
                    ].children@.contains(j as usize) ==> rec_eq_but_height(
                        #[trigger] final(doc).nodes@[j],
                        old(doc).nodes@[j],
                    )
                &&& holds_text(old(doc).nodes@[self.id as int].ntype) ==> {
                    &&& final(doc).nodes@.len() == old(doc).nodes@.len()
                    &&& rec_eq_but_content(
                        final(doc).nodes@[self.id as int],
                        old(doc).nodes@[self.id as int],
                    )
                }
                &&& !holds_text(old(doc).nodes@[self.id as int].ntype) ==> forall|k: int|
                    0 <= k < old(doc).nodes@[self.id as int].children@.len() ==> {
                        let c = #[trigger] old(doc).nodes@[
                            self.id as int
                        ].children@[k] as int;
                        &&& final(doc).nodes@[c].parent is None
                        &&& text_of(final(doc).nodes@, c) == text_of(old(doc).nodes@, c)
                    }
            },
    {
        let id = self.id;
        let cnt = doc.nodes[id].alias_count;
        if cnt >= doc.guard {
            return Err(XmlError::AliasingError(cnt));
        }
        let nt = doc.nodes[id].ntype;
        if nt == NodeType::TextNode || nt == NodeType::CDataSectionNode || nt
            == NodeType::CommentNode || nt == NodeType::PiNode || nt == NodeType::AttributeNode {
            doc.nodes[id].content = str_to_chars(content);
            proof {
                assert forall|j: int| 0 <= j < doc.nodes@.len() implies same_shape_fields(
                    #[trigger] old(doc).nodes@[j],
                    doc.nodes@[j],
                ) by {}
                lemma_shape_same(old(doc).nodes@, doc.nodes@);
                assert(holds_text(doc.nodes@[id as int].ntype));
            }
            return Ok(());
        }
        let ghost d0 = *doc;
        let ghost kids0 = doc.nodes@[id as int].children@;
        detach_children(doc, id);
        let ghost d1 = *doc;
        if !content.is_empty() {
            let rec = NodeRec {
                ntype: NodeType::TextNode,
                name: Vec::new(),
                content: str_to_chars(content),
                parent: None,
                children: Vec::new(),
                attrs: Vec::new(),
                ns_decls: Vec::new(),
                ns: None,
                alias_count: 0,
                height: Ghost(0),
            };
            let tn = doc.nodes.len();
            proof {
                lemma_shape_push(doc.nodes@, rec);
            }
            doc.nodes.push(rec);
            let ghost d2 = *doc;
            proof {
                assert(!in_subtree(doc.nodes@, tn as int, id as int));
            }
            doc.attach_new(id, tn, 0);
            proof {
                assert(doc.nodes@[id as int].children@ =~= Seq::<usize>::empty().insert(
                    0,
                    tn,
                ));
                assert(doc.nodes@[id as int].children@.len() == 1);
                assert(doc.nodes@[id as int].children@[0] == tn);
                assert(node_ok(doc.nodes@, id as int));
                assert(child_edge_ok(doc.nodes@, id as int, tn as int));
                assert(text_of(doc.nodes@, tn as int) == content@);
                assert(text_of_children_from(doc.nodes@, id as int, 1) =~= Seq::<
                    char,
                >::empty());
                assert(text_of_children_from(doc.nodes@, id as int, 0) == text_of(
                    doc.nodes@,
                    tn as int,
                ) + text_of_children_from(doc.nodes@, id as int, 1));
                assert(content@ + Seq::<char>::empty() =~= content@);
                assert(text_of(doc.nodes@, id as int) == content@);
                assert forall|j: int|
                    0 <= j < d1.nodes@.len() && j != id implies rec_eq_but_height(
                    #[trigger] doc.nodes@[j],
                    d1.nodes@[j],
                ) by {
                    assert(d2.nodes@[j] == d1.nodes@[j]);
                    if j != tn {
                        assert(rec_eq_but_height(doc.nodes@[j], d2.nodes@[j]));
                    }
                }
                set_content_frame(d0, d1, *doc, id as int);
            }
        } else {
            proof {
                assert(text_of_children_from(doc.nodes@, id as int, 0) =~= Seq::<
                    char,
                >::empty());
                assert(text_of(doc.nodes@, id as int) =~= content@);
                set_content_frame(d0, d1, *doc, id as int);
            }
        }
        Ok(())
    }

    /// Appends text to this node: directly for a text-like node, by
    /// extending or adding a final text child for an element.  Appending
    /// nothing is a no-op; otherwise the node must pass the mutability
    /// guard.
    pub fn append_text(&self, doc: &mut Document, content: &str) -> (r: Result<(), XmlError>)
        requires
            old(doc).wf(),
            self.id < old(doc).nodes@.len(),
            old(doc).nodes@.len() < usize::MAX - 1,
        ensures
            final(doc).wf(),
            content@.len() == 0 ==> r is Ok && *final(doc) == *old(doc),
            content@.len() > 0 ==> {
                &&& r is Ok <==> old(doc).guard_pass(self.id as int)
                &&& (r matches Err(e) ==> e == XmlError::AliasingError(
                    old(doc).nodes@[self.id as int].alias_count,
                ) && *final(doc) == *old(doc))
            },
            r is Ok ==> {
                &&& text_of(final(doc).nodes@, self.id as int) == text_of(
                    old(doc).nodes@,
                    self.id as int,
                ) + content@
                &&& final(doc).guard == old(doc).guard
                &&& old(doc).nodes@.len() <= final(doc).nodes@.len()
                    <= old(doc).nodes@.len() + 1
                &&& (!holds_text(old(doc).nodes@[self.id as int].ntype)
                    ==> crate::tree::shape::rec_eq_but_children_height(
                    final(doc).nodes@[self.id as int],
                    old(doc).nodes@[self.id as int],
                ))
                &&& forall|j: int|
                    0 <= j < old(doc).nodes@.len() && j != self.id && !old(doc).nodes@[
                        self.id as int
                    ].children@.contains(j as usize) ==> rec_eq_but_height(
                        #[trigger] final(doc).nodes@[j],
                        old(doc).nodes@[j],
                    )
            },
    {
        let ghost d0 = *doc;
        let id = self.id;
        if content.is_empty() {
            proof {
                assert(text_of(doc.nodes@, id as int) + content@ =~= text_of(
                    doc.nodes@,
                    id as int,
                ));
            }
            return Ok(());
        }
        let cnt = doc.nodes[id].alias_count;
        if cnt >= doc.guard {
            return Err(XmlError::AliasingError(cnt));
        }
        let nt = doc.nodes[id].ntype;
        if nt == NodeType::TextNode || nt == NodeType::CDataSectionNode || nt
            == NodeType::CommentNode || nt == NodeType::PiNode || nt == NodeType::AttributeNode {
            let add = str_to_chars(content);
            crate::tree::chars::extend_chars(&mut doc.nodes[id].content, &add);
            proof {
                assert forall|j: int| 0 <= j < doc.nodes@.len() implies same_shape_fields(
                    #[trigger] d0.nodes@[j],
                    doc.nodes@[j],
                ) by {}
                lemma_shape_same(d0.nodes@, doc.nodes@);
                assert(holds_text(doc.nodes@[id as int].ntype));
                assert(text_of(doc.nodes@, id as int) == doc.nodes@[id as int].content@);
                assert(text_of(d0.nodes@, id as int) == d0.nodes@[id as int].content@);
            }
            return Ok(());
        }
        let m = doc.nodes[id].children.len();
        let mut merged = false;
        if m > 0 {
            proof {
                assert(node_ok(doc.nodes@, id as int));
                assert(child_edge_ok(
                    doc.nodes@,
                    id as int,
                    doc.nodes@[id as int].children@[m - 1] as int,
                ));
            }
            let last = doc.nodes[id].children[m - 1];
            if doc.nodes[last].ntype == NodeType::TextNode {
                let add = str_to_chars(content);
                crate::tree::chars::extend_chars(&mut doc.nodes[last].content, &add);
                merged = true;
                proof {
                    assert forall|j: int| 0 <= j < doc.nodes@.len() implies same_shape_fields(
                        #[trigger] d0.nodes@[j],
                        doc.nodes@[j],
                    ) by {}
                    lemma_shape_same(d0.nodes@, doc.nodes@);
                    assert(last as int != id as int) by {
                        assert(d0.nodes@[last as int].height@ < d0.nodes@[id as int].height@);
                    }
                    crate::tree::shape::lemma_tocf_extend(
                        d0.nodes@,
                        doc.nodes@,
                        id as int,
                        0,
                        last as int,
                        add@,
                    );
                    assert(!holds_text(doc.nodes@[id as int].ntype));
                    assert(text_of(doc.nodes@, id as int) == text_of_children_from(
                        doc.nodes@,
                        id as int,
                        0,
                    ));
                    assert(text_of(d0.nodes@, id as int) == text_of_children_from(
                        d0.nodes@,
                        id as int,
                        0,
                    ));
                }
            }
        }
        if !merged {
            let rec = NodeRec {
                ntype: NodeType::TextNode,
                name: Vec::new(),
                content: str_to_chars(content),
                parent: None,
                children: Vec::new(),
                attrs: Vec::new(),
                ns_decls: Vec::new(),
                ns: None,
                alias_count: 0,
                height: Ghost(0),
            };
            let tn = doc.nodes.len();
            proof {
                lemma_shape_push(doc.nodes@, rec);
            }
            doc.nodes.push(rec);
            let ghost d1 = *doc;
            proof {
                assert(!in_subtree(doc.nodes@, tn as int, id as int));
            }
            let slot = doc.nodes[id].children.len();
            doc.attach_new(id, tn, slot);
            proof {
                assert(doc.nodes@[id as int].children@ =~= d0.nodes@[
                    id as int
                ].children@.push(tn));
                assert(text_of(doc.nodes@, tn as int) == content@) by {
                    assert(holds_text(doc.nodes@[tn as int].ntype));
                }
                assert forall|j: int|
                    0 <= j < d0.nodes@.len() && j != id implies same_text_fields(
                    #[trigger] d0.nodes@[j],
                    doc.nodes@[j],
                ) by {
                    assert(d1.nodes@[j] == d0.nodes@[j]);
                    if j != tn {
                        assert(rec_eq_but_height(doc.nodes@[j], d1.nodes@[j]));
                    }
                }
                crate::tree::shape::lemma_tocf_push(
                    d0.nodes@,
                    doc.nodes@,
                    id as int,
                    0,
                    tn as int,
                );
                assert(!holds_text(doc.nodes@[id as int].ntype));
                assert(text_of(doc.nodes@, id as int) == text_of_children_from(
                    doc.nodes@,
                    id as int,
                    0,
                ));
                assert(text_of(d0.nodes@, id as int) == text_of_children_from(
                    d0.nodes@,
                    id as int,
                    0,
                ));
            }
        }
        Ok(())
    }

    /// Creates a new element child at the end of this node's children.
    /// This node must pass the mutability guard.
    pub fn new_child(&self, doc: &mut Document, ns: Option<Namespace>, name: &str) -> (r: Result<
        Node,
        XmlError,
    >)
        requires
            old(doc).wf(),
            self.id < old(doc).nodes@.len(),
            old(doc).nodes@.len() < usize::MAX - 1,
            old(doc).nodes@[self.id as int].ntype != NodeType::AttributeNode,
        ensures
            final(doc).wf(),
            r is Ok <==> old(doc).guard_pass(self.id as int),
            r matches Err(e) ==> e == XmlError::AliasingError(
                old(doc).nodes@[self.id as int].alias_count,
            ) && *final(doc) == *old(doc),
            r matches Ok(n) ==> {
                &&& n.id == old(doc).nodes@.len()
                &&& final(doc).nodes@.len() == old(doc).nodes@.len() + 1
                &&& final(doc).guard == old(doc).guard
                &&& final(doc).nodes@[n.id as int].ntype == NodeType::ElementNode
                &&& final(doc).nodes@[n.id as int].name@ == name@
                &&& final(doc).nodes@[n.id as int].parent == Some(self.id)
                &&& final(doc).nodes@[n.id as int].children@.len() == 0
                &&& final(doc).nodes@[n.id as int].attrs@.len() == 0
                &&& final(doc).nodes@[n.id as int].alias_count == 1
                &&& ns_view(final(doc).nodes@[n.id as int].ns) == ns_view(ns)
                &&& final(doc).nodes@[self.id as int].children@ == old(doc).nodes@[
                    self.id as int
                ].children@.push(n.id)
                &&& forall|j: int|
                    0 <= j < old(doc).nodes@.len() && j != self.id ==> rec_eq_but_height(
                        #[trigger] final(doc).nodes@[j],
                        old(doc).nodes@[j],
                    )
            },
    {
        let id = self.id;
        let cnt = doc.nodes[id].alias_count;
        if cnt >= doc.guard {
            return Err(XmlError::AliasingError(cnt));
        }
        let ghost d0 = *doc;
        let rec = NodeRec {
            ntype: NodeType::ElementNode,
            name: str_to_chars(name),
            content: Vec::new(),
            parent: None,
            children: Vec::new(),
            attrs: Vec::new(),
            ns_decls: Vec::new(),
            ns,
            alias_count: 1,
            height: Ghost(0),
        };
        let e = doc.nodes.len();
        proof {
            lemma_shape_push(doc.nodes@, rec);
        }
        doc.nodes.push(rec);
        let ghost d1 = *doc;
        proof {
            assert(!in_subtree(doc.nodes@, e as int, id as int));
        }
        let slot = doc.nodes[id].children.len();
        doc.attach_new(id, e, slot);
        proof {
            assert(doc.nodes@[id as int].children@ =~= d0.nodes@[id as int].children@.push(e));
            assert forall|j: int|
                0 <= j < d0.nodes@.len() && j != id implies rec_eq_but_height(
                #[trigger] doc.nodes@[j],
                d0.nodes@[j],
            ) by {
                assert(d1.nodes@[j] == d0.nodes@[j]);
                if j != e {
                    assert(rec_eq_but_height(doc.nodes@[j], d1.nodes@[j]));
                }
            }
        }
        Ok(Node { id: e })
    }

    /// Adds a new element child holding the given text, at the end of this
    /// node's children.  This node must pass the mutability guard.
    pub fn add_text_child(
        &self,
        doc: &mut Document,
        ns: Option<Namespace>,
        name: &str,
        content: &str,
    ) -> (r: Result<Node, XmlError>)
        requires
            old(doc).wf(),
            self.id < old(doc).nodes@.len(),
            old(doc).nodes@.len() < usize::MAX - 2,
            old(doc).nodes@[self.id as int].ntype != NodeType::AttributeNode,
        ensures
            final(doc).wf(),
            r is Ok <==> old(doc).guard_pass(self.id as int),
            r matches Err(e) ==> e == XmlError::AliasingError(
                old(doc).nodes@[self.id as int].alias_count,
            ) && *final(doc) == *old(doc),
            r matches Ok(n) ==> {
                &&& n.id < final(doc).nodes@.len()
                &&& final(doc).guard == old(doc).guard
                &&& final(doc).nodes@[n.id as int].ntype == NodeType::ElementNode
                &&& final(doc).nodes@[n.id as int].name@ == name@
                &&& final(doc).nodes@[n.id as int].parent == Some(self.id)
                &&& text_of(final(doc).nodes@, n.id as int) == content@
                &&& ns_view(final(doc).nodes@[n.id as int].ns) == ns_view(ns)
                &&& final(doc).nodes@[self.id as int].children@ == old(doc).nodes@[
                    self.id as int
                ].children@.push(n.id)
                &&& forall|j: int|
                    0 <= j < old(doc).nodes@.len() && j != self.id ==> rec_eq_but_height(
                        #[trigger] final(doc).nodes@[j],
                        old(doc).nodes@[j],
                    )
            },
    {
        let id = self.id;
        let cnt = doc.nodes[id].alias_count;
        if cnt >= doc.guard {
            return Err(XmlError::AliasingError(cnt));
        }
        let ghost d0 = *doc;
        let erec = NodeRec {
            ntype: NodeType::ElementNode,
            name: str_to_chars(name),
            content: Vec::new(),
            parent: None,
            children: Vec::new(),
            attrs: Vec::new(),
            ns_decls: Vec::new(),
            ns,
            alias_count: 1,
            height: Ghost(0),
        };
        let e = doc.nodes.len();
        proof {
            lemma_shape_push(doc.nodes@, erec);
        }
        doc.nodes.push(erec);
        let trec = NodeRec {
            ntype: NodeType::TextNode,
            name: Vec::new(),
            content: str_to_chars(content),
            parent: None,
            children: Vec::new(),
            attrs: Vec::new(),
            ns_decls: Vec::new(),
            ns: None,
            alias_count: 0,
            height: Ghost(0),
        };
        let tn = doc.nodes.len();
        proof {
            lemma_shape_push(doc.nodes@, trec);
        }
        doc.nodes.push(trec);
        let ghost d1 = *doc;
        proof {
            assert(!in_subtree(doc.nodes@, tn as int, e as int));
        }
        doc.attach_new(e, tn, 0);
        let ghost d2 = *doc;
        proof {
            assert(doc.nodes@[e as int].parent is None);
            assert(doc.nodes@[e as int].children@.len() == 1);
            assert(doc.nodes@[e as int].children@[0] == tn);
            assert(doc.nodes@[tn as int].children@.len() == 0);
            assert(!in_subtree(doc.nodes@, e as int, id as int)) by {
                if in_subtree(doc.nodes@, e as int, id as int) {
                    assert(id as int != e as int);
                    let k = choose|k: int|
                        0 <= k < doc.nodes@[e as int].children@.len() && in_subtree(
                            doc.nodes@,
                            #[trigger] doc.nodes@[e as int].children@[k] as int,
                            id as int,
                        );
                    assert(doc.nodes@[e as int].children@[k] == tn);
                    assert(in_subtree(doc.nodes@, tn as int, id as int));
                    assert(id as int != tn as int);
                    let k2 = choose|k2: int|
                        0 <= k2 < doc.nodes@[tn as int].children@.len() && in_subtree(
                            doc.nodes@,
                            #[trigger] doc.nodes@[tn as int].children@[k2] as int,
                            id as int,
                        );
                    assert(false);
                }
            }
        }
        let slot = doc.nodes[id].children.len();
        doc.attach_new(id, e, slot);
        proof {
            // the new element holds exactly the one text child
            assert(doc.nodes@[e as int].children@.len() == 1);
            assert(doc.nodes@[e as int].children@[0] == tn);
            assert(node_ok(doc.nodes@, e as int));
            assert(child_edge_ok(doc.nodes@, e as int, tn as int));
            assert(holds_text(doc.nodes@[tn as int].ntype));
            assert(text_of(doc.nodes@, tn as int) == content@);
            assert(text_of_children_from(doc.nodes@, e as int, 1) =~= Seq::<char>::empty());
            assert(text_of_children_from(doc.nodes@, e as int, 0) == text_of(
                doc.nodes@,
                tn as int,
            ) + text_of_children_from(doc.nodes@, e as int, 1));
            assert(content@ + Seq::<char>::empty() =~= content@);
            assert(text_of(doc.nodes@, e as int) == content@);
            assert(doc.nodes@[id as int].children@ =~= d0.nodes@[id as int].children@.push(e));
            assert forall|j: int|
                0 <= j < d0.nodes@.len() && j != id implies rec_eq_but_height(
                #[trigger] doc.nodes@[j],
                d0.nodes@[j],
            ) by {
                assert(d1.nodes@[j] == d0.nodes@[j]);
                if j != e && j != tn {
                    assert(rec_eq_but_height(d2.nodes@[j], d1.nodes@[j]));
                    assert(rec_eq_but_height(doc.nodes@[j], d2.nodes@[j]));
                }
            }
        }
        Ok(Node { id: e })
    }

    /// Returns the value of the property `name` (any namespace).
    pub fn get_property(&self, doc: &Document, name: &str) -> (r: Option<String>)
        requires
            doc.wf(),
            self.id < doc.nodes@.len(),
        ensures
            match attr_value_of(doc.nodes@, self.id as int, name@, None) {
                Some(v) => r matches Some(s) && s@ == v,
                None => r is None,
            },
    {
        let key = str_to_chars(name);
        match find_attr(doc, self.id, &key, &AttrSel::AnyNs) {
            Some(a) => Some(crate::tree::chars::chars_to_string(&doc.nodes[a].content)),
            None => None,
        }
    }

    /// Returns the value of the property `name` in the namespace with href
    /// `ns`.
    pub fn get_property_ns(&self, doc: &Document, name: &str, ns: &str) -> (r: Option<String>)
        requires
            doc.wf(),
            self.id < doc.nodes@.len(),
        ensures
            match attr_value_of(doc.nodes@, self.id as int, name@, Some(Some(ns@))) {
                Some(v) => r matches Some(s) && s@ == v,
                None => r is None,
            },
    {
        let key = str_to_chars(name);
        let sel = AttrSel::Href(str_to_chars(ns));
        match find_attr(doc, self.id, &key, &sel) {
            Some(a) => Some(crate::tree::chars::chars_to_string(&doc.nodes[a].content)),
            None => None,
        }
    }

    /// Returns the value of the property `name` that carries no namespace.
    pub fn get_property_no_ns(&self, doc: &Document, name: &str) -> (r: Option<String>)
        requires
            doc.wf(),
            self.id < doc.nodes@.len(),
        ensures
            match attr_value_of(doc.nodes@, self.id as int, name@, Some(None)) {
                Some(v) => r matches Some(s) && s@ == v,
                None => r is None,
            },
    {
        let key = str_to_chars(name);
        match find_attr(doc, self.id, &key, &AttrSel::NoNs) {
            Some(a) => Some(crate::tree::chars::chars_to_string(&doc.nodes[a].content)),
            None => None,
        }
    }

    /// Returns the attribute `name` as a node of the attribute kind.
    pub fn get_property_node(&self, doc: &mut Document, name: &str) -> (r: Option<Node>)
        requires
            old(doc).wf(),
            self.id < old(doc).nodes@.len(),
        ensures
            final(doc).wf(),
            match attr_find_from(old(doc).nodes@, self.id as int, name@, None, 0) {
                Some(a) => r matches Some(n) && n.id == a && Document::wrap_rel(
                    *old(doc),
                    *final(doc),
                    a as int,
                ),
                None => r is None && *final(doc) == *old(doc),
            },
    {
        let key = str_to_chars(name);
        match find_attr(doc, self.id, &key, &AttrSel::AnyNs) {
            Some(a) => Some(doc.wrap(a)),
            None => None,
        }
    }

    /// Check if a property is defined, without reading its value.
    pub fn has_property(&self, doc: &Document, name: &str) -> (r: bool)
        requires
            doc.wf(),
            self.id < doc.nodes@.len(),
        ensures
            r == (attr_find_from(doc.nodes@, self.id as int, name@, None, 0) is Some),
    {
        let key = str_to_chars(name);
        find_attr(doc, self.id, &key, &AttrSel::AnyNs).is_some()
    }

    /// Check if the property `name` exists in the namespace with href `ns`.
    pub fn has_property_ns(&self, doc: &Document, name: &str, ns: &str) -> (r: bool)
        requires
            doc.wf(),
            self.id < doc.nodes@.len(),
        ensures
            r == (attr_find_from(doc.nodes@, self.id as int, name@, Some(Some(ns@)), 0)
                is Some),
    {
        let key = str_to_chars(name);
        let sel = AttrSel::Href(str_to_chars(ns));
        find_attr(doc, self.id, &key, &sel).is_some()
    }

    /// Check if the property `name` with no namespace exists.
    pub fn has_property_no_ns(&self, doc: &Document, name: &str) -> (r: bool)
        requires
            doc.wf(),
            self.id < doc.nodes@.len(),
        ensures
            r == (attr_find_from(doc.nodes@, self.id as int, name@, Some(None), 0) is Some),
    {
        let key = str_to_chars(name);
        find_attr(doc, self.id, &key, &AttrSel::NoNs).is_some()
    }

    /// Sets the value of the property `name` to `value`, updating the first
    /// matching attribute or creating a fresh one.  The node must be an
    /// element and pass the mutability guard.
    pub fn set_property(&self, doc: &mut Document, name: &str, value: &str) -> (r: Result<
        (),
        XmlError,
    >)
        requires
            old(doc).wf(),
            self.id < old(doc).nodes@.len(),
            old(doc).nodes@.len() < usize::MAX - 1,
        ensures
            final(doc).wf(),
            !old(doc).guard_pass(self.id as int) ==> r == Err::<(), XmlError>(
                XmlError::AliasingError(old(doc).nodes@[self.id as int].alias_count),
            ) && *final(doc) == *old(doc),
            old(doc).guard_pass(self.id as int) && old(doc).nodes@[self.id as int].ntype
                != NodeType::ElementNode ==> r == Err::<(), XmlError>(XmlError::NotAChildError)
                && *final(doc) == *old(doc),
            old(doc).guard_pass(self.id as int) && old(doc).nodes@[self.id as int].ntype
                == NodeType::ElementNode ==> {
                &&& r is Ok
                &&& attr_value_of(final(doc).nodes@, self.id as int, name@, None) == Some(
                    value@,
                )
                &&& final(doc).guard == old(doc).guard
                &&& rec_eq_but_attrs(
                    final(doc).nodes@[self.id as int],
                    old(doc).nodes@[self.id as int],
                )
                &&& match attr_find_from(old(doc).nodes@, self.id as int, name@, None, 0) {
                    Some(a) => {
                        &&& final(doc).nodes@.len() == old(doc).nodes@.len()
                        &&& (forall|j: int|
                            0 <= j < old(doc).nodes@.len() && j != a ==> final(doc).nodes@[j]
                                == #[trigger] old(doc).nodes@[j])
                        &&& rec_eq_but_content(
                            final(doc).nodes@[a as int],
                            old(doc).nodes@[a as int],
                        )
                        &&& final(doc).nodes@[a as int].content@ == value@
                    },
                    None => {
                        &&& final(doc).nodes@.len() == old(doc).nodes@.len() + 1
                        &&& (forall|j: int|
                            0 <= j < old(doc).nodes@.len() && j != self.id
                                ==> final(doc).nodes@[j] == #[trigger] old(doc).nodes@[j])
                        &&& final(doc).nodes@[self.id as int].attrs@ == old(doc).nodes@[
                            self.id as int
                        ].attrs@.push(old(doc).nodes@.len() as usize)
                        &&& final(doc).nodes@[old(doc).nodes@.len() as int].ntype
                            == NodeType::AttributeNode
                        &&& final(doc).nodes@[old(doc).nodes@.len() as int].name@ == name@
                        &&& final(doc).nodes@[old(doc).nodes@.len() as int].content@ == value@
                        &&& ns_view(final(doc).nodes@[old(doc).nodes@.len() as int].ns)
                            == None::<crate::tree::namespace::NamespaceView>
                        &&& final(doc).nodes@[old(doc).nodes@.len() as int].parent == Some(
                            self.id,
                        )
                        &&& final(doc).nodes@[old(doc).nodes@.len() as int].alias_count == 0
                    },
                }
            },
    {
        self.set_property_sel(doc, name, value, AttrSel::AnyNs, None)
    }

    /// Sets a namespaced attribute.
    pub fn set_property_ns(&self, doc: &mut Document, name: &str, value: &str, ns: &Namespace)
        -> (r: Result<(), XmlError>)
        requires
            old(doc).wf(),
            self.id < old(doc).nodes@.len(),
            old(doc).nodes@.len() < usize::MAX - 1,
        ensures
            final(doc).wf(),
            !old(doc).guard_pass(self.id as int) ==> r == Err::<(), XmlError>(
                XmlError::AliasingError(old(doc).nodes@[self.id as int].alias_count),
            ) && *final(doc) == *old(doc),
            old(doc).guard_pass(self.id as int) && old(doc).nodes@[self.id as int].ntype
                != NodeType::ElementNode ==> r == Err::<(), XmlError>(XmlError::NotAChildError)
                && *final(doc) == *old(doc),
            old(doc).guard_pass(self.id as int) && old(doc).nodes@[self.id as int].ntype
                == NodeType::ElementNode ==> {
                &&& r is Ok
                &&& attr_value_of(final(doc).nodes@, self.id as int, name@, Some(Some(ns@.href)))
                    == Some(value@)
                &&& final(doc).guard == old(doc).guard
                &&& rec_eq_but_attrs(
                    final(doc).nodes@[self.id as int],
                    old(doc).nodes@[self.id as int],
                )
                &&& match attr_find_from(old(doc).nodes@, self.id as int, name@, Some(Some(ns@.href)), 0) {
                    Some(a) => {
                        &&& final(doc).nodes@.len() == old(doc).nodes@.len()
                        &&& (forall|j: int|
                            0 <= j < old(doc).nodes@.len() && j != a ==> final(doc).nodes@[j]
                                == #[trigger] old(doc).nodes@[j])
                        &&& rec_eq_but_content(
                            final(doc).nodes@[a as int],
                            old(doc).nodes@[a as int],
                        )
                        &&& final(doc).nodes@[a as int].content@ == value@
                    },
                    None => {
                        &&& final(doc).nodes@.len() == old(doc).nodes@.len() + 1
                        &&& (forall|j: int|
                            0 <= j < old(doc).nodes@.len() && j != self.id
                                ==> final(doc).nodes@[j] == #[trigger] old(doc).nodes@[j])
                        &&& final(doc).nodes@[self.id as int].attrs@ == old(doc).nodes@[
                            self.id as int
                        ].attrs@.push(old(doc).nodes@.len() as usize)
                        &&& final(doc).nodes@[old(doc).nodes@.len() as int].ntype
                            == NodeType::AttributeNode
                        &&& final(doc).nodes@[old(doc).nodes@.len() as int].name@ == name@
                        &&& final(doc).nodes@[old(doc).nodes@.len() as int].content@ == value@
                        &&& ns_view(final(doc).nodes@[old(doc).nodes@.len() as int].ns)
                            == Some(ns@)
                        &&& final(doc).nodes@[old(doc).nodes@.len() as int].parent == Some(
                            self.id,
                        )
                        &&& final(doc).nodes@[old(doc).nodes@.len() as int].alias_count == 0
                    },
                }
            },
    {
        self.set_property_sel(doc, name, value, AttrSel::Href(ns.href_chars()), Some(ns.duplicate()))
    }

    /// The shared worker behind the property setters.
    fn set_property_sel(
        &self,
        doc: &mut Document,
        name: &str,
        value: &str,
        sel: AttrSel,
        ns: Option<Namespace>,
    ) -> (r: Result<(), XmlError>)
        requires
            old(doc).wf(),
            self.id < old(doc).nodes@.len(),
            old(doc).nodes@.len() < usize::MAX - 1,
            match sel {
                AttrSel::AnyNs => ns is None,
                AttrSel::NoNs => ns is None,
                AttrSel::Href(h) => ns matches Some(d) && d.href@ == h@,
            },
        ensures
            final(doc).wf(),
            !old(doc).guard_pass(self.id as int) ==> r == Err::<(), XmlError>(
                XmlError::AliasingError(old(doc).nodes@[self.id as int].alias_count),
            ) && *final(doc) == *old(doc),
            old(doc).guard_pass(self.id as int) && old(doc).nodes@[self.id as int].ntype
                != NodeType::ElementNode ==> r == Err::<(), XmlError>(XmlError::NotAChildError)
                && *final(doc) == *old(doc),
            old(doc).guard_pass(self.id as int) && old(doc).nodes@[self.id as int].ntype
                == NodeType::ElementNode ==> {
                &&& r is Ok
                &&& attr_value_of(final(doc).nodes@, self.id as int, name@, sel.view_of())
                    == Some(value@)
                &&& final(doc).guard == old(doc).guard
                &&& rec_eq_but_attrs(
                    final(doc).nodes@[self.id as int],
                    old(doc).nodes@[self.id as int],
                )
                &&& match attr_find_from(old(doc).nodes@, self.id as int, name@, sel.view_of(), 0) {
                    Some(a) => {
                        &&& final(doc).nodes@.len() == old(doc).nodes@.len()
                        &&& (forall|j: int|
                            0 <= j < old(doc).nodes@.len() && j != a ==> final(doc).nodes@[j]
                                == #[trigger] old(doc).nodes@[j])
                        &&& rec_eq_but_content(
                            final(doc).nodes@[a as int],
                            old(doc).nodes@[a as int],
                        )
                        &&& final(doc).nodes@[a as int].content@ == value@
                    },
                    None => {
                        &&& final(doc).nodes@.len() == old(doc).nodes@.len() + 1
                        &&& (forall|j: int|
                            0 <= j < old(doc).nodes@.len() && j != self.id
                                ==> final(doc).nodes@[j] == #[trigger] old(doc).nodes@[j])
                        &&& final(doc).nodes@[self.id as int].attrs@ == old(doc).nodes@[
                            self.id as int
                        ].attrs@.push(old(doc).nodes@.len() as usize)
                        &&& final(doc).nodes@[old(doc).nodes@.len() as int].ntype
                            == NodeType::AttributeNode
                        &&& final(doc).nodes@[old(doc).nodes@.len() as int].name@ == name@
                        &&& final(doc).nodes@[old(doc).nodes@.len() as int].content@ == value@
                        &&& ns_view(final(doc).nodes@[old(doc).nodes@.len() as int].ns)
                            == ns_view(ns)
                        &&& final(doc).nodes@[old(doc).nodes@.len() as int].parent == Some(
                            self.id,
                        )
                        &&& final(doc).nodes@[old(doc).nodes@.len() as int].alias_count == 0
                    },
                }
            },
    {
        let id = self.id;
        let cnt = doc.nodes[id].alias_count;
        if cnt >= doc.guard {
            return Err(XmlError::AliasingError(cnt));
        }
        if doc.nodes[id].ntype != NodeType::ElementNode {
            return Err(XmlError::NotAChildError);
        }
        let ghost d0 = *doc;
        let key = str_to_chars(name);
        match find_attr(doc, id, &key, &sel) {
            Some(a) => {
                doc.nodes[a].content = str_to_chars(value);
                proof {
                    assert forall|j: int| 0 <= j < doc.nodes@.len() implies same_shape_fields(
                        #[trigger] d0.nodes@[j],
                        doc.nodes@[j],
                    ) by {}
                    lemma_shape_same(d0.nodes@, doc.nodes@);
                    lemma_attr_find_frame(
                        d0.nodes@,
                        doc.nodes@,
                        id as int,
                        key@,
                        sel.view_of(),
                        0,
                    );
                }
                Ok(())
            },
            None => {
                let rec = NodeRec {
                    ntype: NodeType::AttributeNode,
                    name: str_to_chars(name),
                    content: str_to_chars(value),
                    parent: Some(id),
                    children: Vec::new(),
                    attrs: Vec::new(),
                    ns_decls: Vec::new(),
                    ns,
                    alias_count: 0,
                    height: Ghost(0),
                };
                let a = doc.nodes.len();
                doc.nodes.push(rec);
                doc.nodes[id].attrs.push(a);
                proof {
                    assert(doc.nodes@[id as int].attrs@ =~= d0.nodes@[id as int].attrs@.push(
                        a,
                    ));
                    crate::tree::shape::lemma_shape_add_attr(d0.nodes@, doc.nodes@, id as int);
                    assert(attr_match(doc.nodes@, a as int, key@, sel.view_of()));
                    assert forall|m: int| 0 <= m < d0.nodes@[id as int].attrs@.len() implies 0 <= (
                    #[trigger] d0.nodes@[id as int].attrs@[m] as int) < d0.nodes@.len() by {
                        assert(node_ok(d0.nodes@, id as int));
                        assert(attr_edge_ok(
                            d0.nodes@,
                            id as int,
                            d0.nodes@[id as int].attrs@[m] as int,
                        ));
                    }
                    lemma_attr_find_push(
                        d0.nodes@,
                        doc.nodes@,
                        id as int,
                        key@,
                        sel.view_of(),
                        0,
                        a as int,
                    );
                }
                Ok(())
            },
        }
    }

    /// Removes the first property of the given `name` (any namespace); a
    /// silent no-op when no such property exists.
    pub fn remove_property(&self, doc: &mut Document, name: &str) -> (r: Result<(), XmlError>)
        requires
            old(doc).wf(),
            self.id < old(doc).nodes@.len(),
        ensures
            final(doc).wf(),
            r is Ok <==> old(doc).guard_pass(self.id as int),
            r matches Err(e) ==> e == XmlError::AliasingError(
                old(doc).nodes@[self.id as int].alias_count,
            ) && *final(doc) == *old(doc),
            r is Ok ==> match attr_find_from(old(doc).nodes@, self.id as int, name@, None, 0) {
                Some(a) => Document::detach_rel(*old(doc), *final(doc), a as int),
                None => *final(doc) == *old(doc),
            },
    {
        self.remove_property_sel(doc, name, AttrSel::AnyNs)
    }

    /// Removes the first property of the given `name` in the namespace with
    /// href `ns`; a silent no-op when no such property exists.
    pub fn remove_property_ns(&self, doc: &mut Document, name: &str, ns: &str) -> (r: Result<
        (),
        XmlError,
    >)
        requires
            old(doc).wf(),
            self.id < old(doc).nodes@.len(),
        ensures
            final(doc).wf(),
            r is Ok <==> old(doc).guard_pass(self.id as int),
            r matches Err(e) ==> e == XmlError::AliasingError(
                old(doc).nodes@[self.id as int].alias_count,
            ) && *final(doc) == *old(doc),
            r is Ok ==> match attr_find_from(
                old(doc).nodes@,
                self.id as int,
                name@,
                Some(Some(ns@)),
                0,
            ) {
                Some(a) => Document::detach_rel(*old(doc), *final(doc), a as int),
                None => *final(doc) == *old(doc),
            },
    {
        let sel = AttrSel::Href(str_to_chars(ns));
        self.remove_property_sel(doc, name, sel)
    }

    /// The shared worker behind the property removers.
    fn remove_property_sel(&self, doc: &mut Document, name: &str, sel: AttrSel) -> (r: Result<
        (),
        XmlError,
    >)
        requires
            old(doc).wf(),
            self.id < old(doc).nodes@.len(),
        ensures
            final(doc).wf(),
            r is Ok <==> old(doc).guard_pass(self.id as int),
            r matches Err(e) ==> e == XmlError::AliasingError(
                old(doc).nodes@[self.id as int].alias_count,
            ) && *final(doc) == *old(doc),
            r is Ok ==> match attr_find_from(
                old(doc).nodes@,
                self.id as int,
                name@,
                sel.view_of(),
                0,
            ) {
                Some(a) => Document::detach_rel(*old(doc), *final(doc), a as int),
                None => *final(doc) == *old(doc),
            },
    {
        let id = self.id;
        let cnt = doc.nodes[id].alias_count;
        if cnt >= doc.guard {
            return Err(XmlError::AliasingError(cnt));
        }
        let ghost d0 = *doc;
        let key = str_to_chars(name);
        match find_attr(doc, id, &key, &sel) {
            Some(a) => {
                proof {
                    assert(node_ok(doc.nodes@, a as int));
                    assert(a as int != id as int) by {
                        if a as int == id as int {
                            assert(doc.nodes@[id as int].attrs@.len() == 0);
                        }
                    }
                }
                let k = find_first(&doc.nodes[id].attrs, a);
                doc.nodes[id].attrs.remove(k);
                doc.nodes[a].parent = None;
                proof {
                    lemma_shape_detach_attr(d0.nodes@, doc.nodes@, a as int, id as int, k as int);
                    assert(d0.nodes@[id as int].attrs@.index_of(a) == k as int) by {
                        assert(node_ok(d0.nodes@, id as int));
                        crate::tree::shape::lemma_index_of_distinct(
                            d0.nodes@[id as int].attrs@,
                            a,
                            k as int,
                        );
                    }
                }
                Ok(())
            },
            None => Ok(()),
        }
    }

    /// Alias for `get_property`
    pub fn get_attribute(&self, doc: &Document, name: &str) -> (r: Option<String>)
        requires
            doc.wf(),
            self.id < doc.nodes@.len(),
        ensures
            match attr_value_of(doc.nodes@, self.id as int, name@, None) {
                Some(v) => r matches Some(s) && s@ == v,
                None => r is None,
            },
    {
        self.get_property(doc, name)
    }

    /// Alias for `get_property_ns`
    pub fn get_attribute_ns(&self, doc: &Document, name: &str, ns: &str) -> (r: Option<String>)
        requires
            doc.wf(),
            self.id < doc.nodes@.len(),
        ensures
            match attr_value_of(doc.nodes@, self.id as int, name@, Some(Some(ns@))) {
                Some(v) => r matches Some(s) && s@ == v,
                None => r is None,
            },
    {
        self.get_property_ns(doc, name, ns)
    }

    /// Alias for `get_property_node`
    pub fn get_attribute_node(&self, doc: &mut Document, name: &str) -> (r: Option<Node>)
        requires
            old(doc).wf(),
            self.id < old(doc).nodes@.len(),
        ensures
            final(doc).wf(),
            match attr_find_from(old(doc).nodes@, self.id as int, name@, None, 0) {
                Some(a) => r matches Some(n) && n.id == a && Document::wrap_rel(
                    *old(doc),
                    *final(doc),
                    a as int,
                ),
                None => r is None && *final(doc) == *old(doc),
            },
    {
        self.get_property_node(doc, name)
    }

    /// Alias for `set_property`
    pub fn set_attribute(&self, doc: &mut Document, name: &str, value: &str) -> (r: Result<
        (),
        XmlError,
    >)
        requires
            old(doc).wf(),
            self.id < old(doc).nodes@.len(),
            old(doc).nodes@.len() < usize::MAX - 1,
        ensures
            final(doc).wf(),
            !old(doc).guard_pass(self.id as int) ==> r == Err::<(), XmlError>(
                XmlError::AliasingError(old(doc).nodes@[self.id as int].alias_count),
            ) && *final(doc) == *old(doc),
            old(doc).guard_pass(self.id as int) && old(doc).nodes@[self.id as int].ntype
                == NodeType::ElementNode ==> r is Ok && attr_value_of(
                final(doc).nodes@,
                self.id as int,
                name@,
                None,
            ) == Some(value@),
            old(doc).guard_pass(self.id as int) && old(doc).nodes@[self.id as int].ntype
                == NodeType::ElementNode ==> match attr_find_from(
                old(doc).nodes@,
                self.id as int,
                name@,
                None,
                0,
            ) {
                Some(a) => {
                    &&& final(doc).nodes@.len() == old(doc).nodes@.len()
                    &&& (forall|j: int|
                        0 <= j < old(doc).nodes@.len() && j != a ==> final(doc).nodes@[j]
                            == #[trigger] old(doc).nodes@[j])
                    &&& rec_eq_but_content(
                        final(doc).nodes@[a as int],
                        old(doc).nodes@[a as int],
                    )
                    &&& final(doc).nodes@[a as int].content@ == value@
                },
                None => {
                    &&& final(doc).nodes@.len() == old(doc).nodes@.len() + 1
                    &&& (forall|j: int|
                        0 <= j < old(doc).nodes@.len() && j != self.id
                            ==> final(doc).nodes@[j] == #[trigger] old(doc).nodes@[j])
                    &&& final(doc).nodes@[self.id as int].attrs@ == old(doc).nodes@[
                        self.id as int
                    ].attrs@.push(old(doc).nodes@.len() as usize)
                    &&& final(doc).nodes@[old(doc).nodes@.len() as int].name@ == name@
                    &&& final(doc).nodes@[old(doc).nodes@.len() as int].content@ == value@
                    &&& ns_view(final(doc).nodes@[old(doc).nodes@.len() as int].ns) == None::<crate::tree::namespace::NamespaceView>
                },
            },
    {
        self.set_property(doc, name, value)
    }

    /// Alias for `set_property_ns`
    pub fn set_attribute_ns(
        &self,
        doc: &mut Document,
        name: &str,
        value: &str,
        ns: &Namespace,
    ) -> (r: Result<(), XmlError>)
        requires
            old(doc).wf(),
            self.id < old(doc).nodes@.len(),
            old(doc).nodes@.len() < usize::MAX - 1,
        ensures
            final(doc).wf(),
            !old(doc).guard_pass(self.id as int) ==> r == Err::<(), XmlError>(
                XmlError::AliasingError(old(doc).nodes@[self.id as int].alias_count),
            ) && *final(doc) == *old(doc),
            old(doc).guard_pass(self.id as int) && old(doc).nodes@[self.id as int].ntype
                == NodeType::ElementNode ==> r is Ok && attr_value_of(
                final(doc).nodes@,
                self.id as int,
                name@,
                Some(Some(ns@.href)),
            ) == Some(value@),
            old(doc).guard_pass(self.id as int) && old(doc).nodes@[self.id as int].ntype
                == NodeType::ElementNode ==> match attr_find_from(
                old(doc).nodes@,
                self.id as int,
                name@,
                Some(Some(ns@.href)),
                0,
            ) {
                Some(a) => {
                    &&& final(doc).nodes@.len() == old(doc).nodes@.len()
                    &&& (forall|j: int|
                        0 <= j < old(doc).nodes@.len() && j != a ==> final(doc).nodes@[j]
                            == #[trigger] old(doc).nodes@[j])
                    &&& rec_eq_but_content(
                        final(doc).nodes@[a as int],
                        old(doc).nodes@[a as int],
                    )
                    &&& final(doc).nodes@[a as int].content@ == value@
                },
                None => {
                    &&& final(doc).nodes@.len() == old(doc).nodes@.len() + 1
                    &&& (forall|j: int|
                        0 <= j < old(doc).nodes@.len() && j != self.id
                            ==> final(doc).nodes@[j] == #[trigger] old(doc).nodes@[j])
                    &&& final(doc).nodes@[self.id as int].attrs@ == old(doc).nodes@[
                        self.id as int
                    ].attrs@.push(old(doc).nodes@.len() as usize)
                    &&& final(doc).nodes@[old(doc).nodes@.len() as int].name@ == name@
                    &&& final(doc).nodes@[old(doc).nodes@.len() as int].content@ == value@
                    &&& ns_view(final(doc).nodes@[old(doc).nodes@.len() as int].ns) == Some(ns@)
                },
            },
    {
        self.set_property_ns(doc, name, value, ns)
    }

    /// Alias for `remove_property`
    pub fn remove_attribute(&self, doc: &mut Document, name: &str) -> (r: Result<(), XmlError>)
        requires
            old(doc).wf(),
            self.id < old(doc).nodes@.len(),
        ensures
            final(doc).wf(),
            r is Ok <==> old(doc).guard_pass(self.id as int),
            r is Ok ==> match attr_find_from(old(doc).nodes@, self.id as int, name@, None, 0) {
                Some(a) => Document::detach_rel(*old(doc), *final(doc), a as int),
                None => *final(doc) == *old(doc),
            },
    {
        self.remove_property(doc, name)
    }

    /// Alias for `remove_property_ns`
    pub fn remove_attribute_ns(&self, doc: &mut Document, name: &str, ns: &str) -> (r: Result<
        (),
        XmlError,
    >)
        requires
            old(doc).wf(),
            self.id < old(doc).nodes@.len(),
        ensures
            final(doc).wf(),
            r is Ok <==> old(doc).guard_pass(self.id as int),
            r is Ok ==> match attr_find_from(
                old(doc).nodes@,
                self.id as int,
                name@,
                Some(Some(ns@)),
                0,
            ) {
                Some(a) => Document::detach_rel(*old(doc), *final(doc), a as int),
                None => *final(doc) == *old(doc),
            },
    {
        self.remove_property_ns(doc, name, ns)
    }

    /// Alias for `has_property`
    pub fn has_attribute(&self, doc: &Document, name: &str) -> (r: bool)
        requires
            doc.wf(),
            self.id < doc.nodes@.len(),
        ensures
            r == (attr_find_from(doc.nodes@, self.id as int, name@, None, 0) is Some),
    {
        self.has_property(doc, name)
    }

    /// Get a copy of the attributes of this node as a name-to-value map.
    /// The map itself is unmodeled; its entries are read through the
    /// specified property lookups.
    pub fn get_properties(&self, doc: &Document) -> (r: std::collections::HashMap<String, String>)
        requires
            doc.wf(),
            self.id < doc.nodes@.len(),
    {
        let mut map: std::collections::HashMap<String, String> = std::collections::HashMap::new();
        let n = doc.nodes[self.id].attrs.len();
        let mut k: usize = 0;
        while k < n
            invariant
                doc.wf(),
                self.id < doc.nodes@.len(),
                k <= n,
                n == doc.nodes@[self.id as int].attrs@.len(),
            decreases n - k,
        {
            proof {
                assert(node_ok(doc.nodes@, self.id as int));
                assert(attr_edge_ok(
                    doc.nodes@,
                    self.id as int,
                    doc.nodes@[self.id as int].attrs@[k as int] as int,
                ));
            }
            let a = doc.nodes[self.id].attrs[k];
            let name = crate::tree::chars::chars_to_string(&doc.nodes[a].name);
            let value = crate::tree::chars::chars_to_string(&doc.nodes[a].content);
            map.insert(name, value);
            k = k + 1;
        }
        map
    }

    /// Alias for `get_properties`
    pub fn get_attributes(&self, doc: &Document) -> (r: std::collections::HashMap<String, String>)
        requires
            doc.wf(),
            self.id < doc.nodes@.len(),
    {
        self.get_properties(doc)
    }

    /// Gets the active namespace of this node, if any.
    pub fn get_namespace(&self, doc: &Document) -> (r: Option<Namespace>)
        requires
            doc.wf(),
            self.id < doc.nodes@.len(),
        ensures
            ns_view(r) == ns_view(doc.nodes@[self.id as int].ns),
    {
        match &doc.nodes[self.id].ns {
            Some(d) => Some(d.duplicate()),
            None => None,
        }
    }

    /// Sets the active namespace of this node.  Must pass the mutability
    /// guard.
    pub fn set_namespace(&self, doc: &mut Document, namespace: &Namespace) -> (r: Result<
        (),
        XmlError,
    >)
        requires
            old(doc).wf(),
            self.id < old(doc).nodes@.len(),
        ensures
            final(doc).wf(),
            r is Ok <==> old(doc).guard_pass(self.id as int),
            r matches Err(e) ==> e == XmlError::AliasingError(
                old(doc).nodes@[self.id as int].alias_count,
            ) && *final(doc) == *old(doc),
            r is Ok ==> {
                &&& forall|j: int|
                    0 <= j < old(doc).nodes@.len() && j != self.id ==> final(doc).nodes@[j]
                        == #[trigger] old(doc).nodes@[j]
                &&& crate::tree::shape::rec_eq_but_ns(
                    final(doc).nodes@[self.id as int],
                    old(doc).nodes@[self.id as int],
                )
                &&& ns_view(final(doc).nodes@[self.id as int].ns) == Some(namespace@)
                &&& final(doc).nodes@.len() == old(doc).nodes@.len()
                &&& final(doc).guard == old(doc).guard
            },
    {
        let id = self.id;
        let cnt = doc.nodes[id].alias_count;
        if cnt >= doc.guard {
            return Err(XmlError::AliasingError(cnt));
        }
        doc.nodes[id].ns = Some(namespace.duplicate());
        proof {
            assert forall|j: int| 0 <= j < doc.nodes@.len() implies same_shape_fields(
                #[trigger] old(doc).nodes@[j],
                doc.nodes@[j],
            ) by {}
            lemma_shape_same(old(doc).nodes@, doc.nodes@);
        }
        Ok(())
    }

    /// Get the list of namespaces declared on this node.
    pub fn get_namespace_declarations(&self, doc: &Document) -> (r: Vec<Namespace>)
        requires
            doc.wf(),
            self.id < doc.nodes@.len(),
        ensures
            r@.map_values(|d: Namespace| d@) == crate::tree::shape::decls_view(
                doc.nodes@[self.id as int].ns_decls@,
            ),
    {
        let n = doc.nodes[self.id].ns_decls.len();
        let mut out: Vec<Namespace> = Vec::new();
        let mut k: usize = 0;
        while k < n
            invariant
                doc.wf(),
                self.id < doc.nodes@.len(),
                k <= n,
                n == doc.nodes@[self.id as int].ns_decls@.len(),
                out@.len() == k,
                forall|j: int|
                    0 <= j < k ==> (#[trigger] out@[j])@ == doc.nodes@[
                        self.id as int
                    ].ns_decls@[j]@,
            decreases n - k,
        {
            let d = doc.nodes[self.id].ns_decls[k].duplicate();
            out.push(d);
            k = k + 1;
        }
        proof {
            assert(out@.map_values(|d: Namespace| d@) =~= crate::tree::shape::decls_view(
                doc.nodes@[self.id as int].ns_decls@,
            ));
        }
        out
    }

    /// Inserts `new_sibling`, which must be detached, directly before this
    /// node among its parent's children.  Both nodes must pass the
    /// mutability guard.
    pub fn add_prev_sibling(&self, doc: &mut Document, new_sibling: &Node) -> (r: Result<
        (),
        XmlError,
    >)
        requires
            old(doc).wf(),
            self.id < old(doc).nodes@.len(),
            new_sibling.id < old(doc).nodes@.len(),
        ensures
            final(doc).wf(),
            r is Err <==> sibling_err(*old(doc), self.id as int, new_sibling.id as int)
                is Some,
            r matches Err(e) ==> *final(doc) == *old(doc) && Some(e) == sibling_err(
                *old(doc),
                self.id as int,
                new_sibling.id as int,
            ),
            r is Ok ==> next_sibling_of(final(doc).nodes@, new_sibling.id as int) == Some(
                self.id,
            ),
            r is Ok ==> Document::attach_at_rel(
                *old(doc),
                *final(doc),
                old(doc).nodes@[self.id as int].parent->0 as int,
                new_sibling.id as int,
                old(doc).nodes@[old(doc).nodes@[self.id as int].parent->0 as int].children@.index_of(
                    self.id,
                ),
            ),
    {
        self.add_sibling_at(doc, new_sibling, false)
    }

    /// Inserts `new_sibling`, which must be detached, directly after this
    /// node among its parent's children.  Both nodes must pass the
    /// mutability guard.
    pub fn add_next_sibling(&self, doc: &mut Document, new_sibling: &Node) -> (r: Result<
        (),
        XmlError,
    >)
        requires
            old(doc).wf(),
            self.id < old(doc).nodes@.len(),
            new_sibling.id < old(doc).nodes@.len(),
        ensures
            final(doc).wf(),
            r is Err <==> sibling_err(*old(doc), self.id as int, new_sibling.id as int)
                is Some,
            r matches Err(e) ==> *final(doc) == *old(doc) && Some(e) == sibling_err(
                *old(doc),
                self.id as int,
                new_sibling.id as int,
            ),
            r is Ok ==> prev_sibling_of(final(doc).nodes@, new_sibling.id as int) == Some(
                self.id,
            ),
            r is Ok ==> Document::attach_at_rel(
                *old(doc),
                *final(doc),
                old(doc).nodes@[self.id as int].parent->0 as int,
                new_sibling.id as int,
                old(doc).nodes@[old(doc).nodes@[self.id as int].parent->0 as int].children@.index_of(
                    self.id,
                ) + 1,
            ),
    {
        self.add_sibling_at(doc, new_sibling, true)
    }

    /// The shared worker behind the sibling inserters.
    fn add_sibling_at(&self, doc: &mut Document, new_sibling: &Node, after: bool) -> (r: Result<
        (),
        XmlError,
    >)
        requires
            old(doc).wf(),
            self.id < old(doc).nodes@.len(),
            new_sibling.id < old(doc).nodes@.len(),
        ensures
            final(doc).wf(),
            r is Err <==> sibling_err(*old(doc), self.id as int, new_sibling.id as int)
                is Some,
            r matches Err(e) ==> *final(doc) == *old(doc) && Some(e) == sibling_err(
                *old(doc),
                self.id as int,
                new_sibling.id as int,
            ),
            r is Ok ==> {
                let p = old(doc).nodes@[self.id as int].parent->0 as int;
                let k = old(doc).nodes@[p].children@.index_of(self.id);
                &&& Document::attach_at_rel(
                    *old(doc),
                    *final(doc),
                    p,
                    new_sibling.id as int,
                    if after {
                        k + 1
                    } else {
                        k
                    },
                )
                &&& (after ==> prev_sibling_of(final(doc).nodes@, new_sibling.id as int) == Some(
                    self.id,
                ))
                &&& (!after ==> next_sibling_of(final(doc).nodes@, new_sibling.id as int) == Some(
                    self.id,
                ))
            },
    {
        let id = self.id;
        let c = new_sibling.id;
        let cnt_s = doc.nodes[id].alias_count;
        if cnt_s >= doc.guard {
            return Err(XmlError::AliasingError(cnt_s));
        }
        let cnt_c = doc.nodes[c].alias_count;
        if cnt_c >= doc.guard {
            return Err(XmlError::AliasingError(cnt_c));
        }
        if doc.nodes[c].parent.is_some() || c == 0 {
            return Err(XmlError::NotDetachedError);
        }
        let ct = doc.nodes[c].ntype;
        if ct == NodeType::AttributeNode {
            return Err(XmlError::NotAChildError);
        }
        let (p, k) = match sibling_slot(doc, id) {
            Some(pk) => pk,
            None => {
                return Err(XmlError::NotAChildError);
            },
        };
        proof {
            assert(node_ok(doc.nodes@, p as int));
        }
        if doc.nodes[p].ntype == NodeType::AttributeNode {
            return Err(XmlError::NotAChildError);
        }
        if doc.contains_pos(c, p) {
            return Err(XmlError::NotAChildError);
        }
        let ghost d0 = *doc;
        let nlen = doc.nodes[p].children.len();
        proof {
            assert(k < nlen);
        }
        let slot: usize = if after {
            k + 1
        } else {
            k
        };
        doc.attach_new(p, c, slot);
        proof {
            let ks1 = doc.nodes@[p as int].children@;
            let ks0 = d0.nodes@[p as int].children@;
            ks0.insert_ensures(slot as int, c);
            assert(ks1[slot as int] == c);
            assert(node_ok(doc.nodes@, c as int));
            assert(doc.nodes@[c as int].parent == Some(p));
            assert(ks1.contains(c)) by {
                assert(ks1[slot as int] == c);
            }
            assert(ks1.index_of(c) == slot as int) by {
                assert(node_ok(doc.nodes@, p as int));
                lemma_index_of_distinct(ks1, c, slot as int);
            }
            if after {
                assert(ks1[k as int] == ks0[k as int]);
                assert(ks1[k as int] == id);
            } else {
                assert(ks1[slot + 1] == ks0[k as int]);
                assert(ks1[slot + 1] == id);
            }
        }
        Ok(())
    }

    /// Replace a child `old_node` of this element with `new_node` in the
    /// same position, detaching `old_node` and returning it, still valid.
    /// If the two handles coincide, or the replacement is this node itself,
    /// nothing happens and `old_node` comes back unchanged.
    pub fn replace_child_node(&self, doc: &mut Document, new_node: Node, old_node: Node) -> (r:
        Result<Node, XmlError>)
        requires
            old(doc).wf(),
            self.id < old(doc).nodes@.len(),
            new_node.id < old(doc).nodes@.len(),
            old_node.id < old(doc).nodes@.len(),
        ensures
            final(doc).wf(),
            r matches Ok(n) ==> n.id == old_node.id,
            (new_node == old_node || new_node.id == self.id) ==> (r is Ok && *final(doc)
                == *old(doc)),
            r is Err ==> *final(doc) == *old(doc),
            (new_node != old_node && new_node.id != self.id) ==> match replace_err(
                *old(doc),
                self.id as int,
                new_node.id as int,
                old_node.id as int,
            ) {
                Some(e) => r == Err::<Node, XmlError>(e),
                None => r matches Ok(n) && n == old_node,
            },
            (r is Ok && new_node != old_node && new_node.id != self.id) ==> {
                &&& final(doc).nodes@[old_node.id as int].parent is None
                &&& final(doc).nodes@[new_node.id as int].parent == Some(self.id)
                &&& final(doc).nodes@[self.id as int].children@.contains(new_node.id)
                &&& !final(doc).nodes@[self.id as int].children@.contains(old_node.id)
                &&& (!in_subtree(old(doc).nodes@, old_node.id as int, new_node.id as int)
                    ==> text_of(final(doc).nodes@, old_node.id as int) == text_of(
                    old(doc).nodes@,
                    old_node.id as int,
                ))
            },
    {
        if new_node.id == old_node.id || new_node.id == self.id {
            return Ok(old_node);
        }
        if doc.nodes[self.id].ntype != NodeType::ElementNode {
            return Err(XmlError::NotAChildError);
        }
        let op = match doc.nodes[old_node.id].parent {
            Some(p) => p,
            None => {
                return Err(XmlError::NotAChildError);
            },
        };
        if op != self.id {
            return Err(XmlError::NotAChildError);
        }
        // guard both moved nodes before touching anything
        let cnt_old = doc.nodes[old_node.id].alias_count;
        if cnt_old >= doc.guard {
            return Err(XmlError::AliasingError(cnt_old));
        }
        let cnt_new = doc.nodes[new_node.id].alias_count;
        if cnt_new >= doc.guard {
            return Err(XmlError::AliasingError(cnt_new));
        }
        let ot = doc.nodes[old_node.id].ntype;
        if ot == NodeType::AttributeNode || ot == NodeType::DocumentNode || ot
            == NodeType::DocumentFragNode {
            return Err(XmlError::NotAChildError);
        }
        let nt = doc.nodes[new_node.id].ntype;
        if nt == NodeType::AttributeNode || nt == NodeType::DocumentNode || nt
            == NodeType::DocumentFragNode || new_node.id == 0 {
            return Err(XmlError::NotAChildError);
        }
        if doc.contains_pos(new_node.id, self.id) {
            return Err(XmlError::NotAChildError);
        }
        let ghost d0 = *doc;
        // make the replacement available for insertion
        new_node.unlink_node(doc);
        let ghost d1 = *doc;
        proof {
            // detaching the replacement does not move its own subtree
            assert forall|j: int|
                0 <= j < d0.nodes@.len() && in_subtree(d0.nodes@, new_node.id as int, j) implies
                d1.nodes@[j].children@ == #[trigger] d0.nodes@[j].children@ by {
                match d0.nodes@[new_node.id as int].parent {
                    Some(q) => {
                        if j == q as int {
                            crate::tree::shape::lemma_in_subtree_bounds(
                                d0.nodes@,
                                new_node.id as int,
                                j,
                            );
                            assert(node_ok(d0.nodes@, new_node.id as int));
                            if d0.nodes@[j].children@.contains(new_node.id) {
                                crate::tree::shape::lemma_member_edge(d0.nodes@, j, new_node.id);
                                assert(d0.nodes@[new_node.id as int].height@ < d0.nodes@[
                                    j
                                ].height@);
                            }
                            crate::tree::shape::lemma_subtree_parent(
                                d0.nodes@,
                                new_node.id as int,
                                j,
                            ) ;
                            assert(false);
                        }
                    },
                    None => {},
                }
            }
            assert(!in_subtree(d1.nodes@, new_node.id as int, self.id as int)) by {
                if in_subtree(d1.nodes@, new_node.id as int, self.id as int) {
                    crate::tree::shape::lemma_in_subtree_mono_bwd(
                        d0.nodes@,
                        d1.nodes@,
                        new_node.id as int,
                        self.id as int,
                    );
                }
            }
            assert(doc.nodes@[new_node.id as int].parent is None);
        }
        proof {
            // the old child's link survives the detach of the replacement
            assert(doc.nodes@[old_node.id as int].parent == Some(self.id)) by {
                if !unlink_noop(d0, new_node.id as int) {
                    let q = d0.nodes@[new_node.id as int].parent->0 as int;
                    if old_node.id as int == q {
                        assert(rec_eq_but_children(
                            d1.nodes@[old_node.id as int],
                            d0.nodes@[old_node.id as int],
                        ));
                    } else {
                        assert(rec_eq(
                            d1.nodes@[old_node.id as int],
                            d0.nodes@[old_node.id as int],
                        ));
                    }
                }
            }
            assert(doc.nodes@[old_node.id as int].ntype != NodeType::AttributeNode) by {
                if !unlink_noop(d0, new_node.id as int) {
                    let q = d0.nodes@[new_node.id as int].parent->0 as int;
                    if old_node.id as int == q {
                        assert(rec_eq_but_children(
                            d1.nodes@[old_node.id as int],
                            d0.nodes@[old_node.id as int],
                        ));
                    } else {
                        assert(rec_eq(
                            d1.nodes@[old_node.id as int],
                            d0.nodes@[old_node.id as int],
                        ));
                    }
                }
            }
        }
        // insert the replacement right after the old child
        let (p, k) = match sibling_slot(doc, old_node.id) {
            Some(pk) => pk,
            None => {
                proof {
                    assert(false);
                }
                return Err(XmlError::NotAChildError);
            },
        };
        let nlen = doc.nodes[p].children.len();
        proof {
            assert(k < nlen);
            assert(p == self.id);
        }
        doc.attach_new(p, new_node.id, k + 1);
        let ghost d2 = *doc;
        // then detach the old child
        proof {
            assert(d2.nodes@[old_node.id as int].ntype == d0.nodes@[old_node.id as int].ntype);
            assert(d2.nodes@[old_node.id as int].parent == Some(self.id)) by {
                assert(node_ok(d2.nodes@, old_node.id as int));
            }
            assert(!unlink_noop(d2, old_node.id as int));
        }
        old_node.unlink_node(doc);
        proof {
            assert(doc.nodes@[old_node.id as int].parent is None);
            assert(doc.nodes@[new_node.id as int].parent == Some(self.id)) by {
                assert(rec_eq(doc.nodes@[new_node.id as int], d2.nodes@[new_node.id as int]));
            }
            assert(doc.nodes@[self.id as int].children@.contains(new_node.id)) by {
                let ks2 = d2.nodes@[self.id as int].children@;
                assert(ks2[k + 1] == new_node.id) by {
                    d1.nodes@[self.id as int].children@.insert_ensures(k + 1, new_node.id);
                }
                assert(ks2.contains(new_node.id));
                let idx = ks2.index_of(old_node.id);
                assert(doc.nodes@[self.id as int].children@ == ks2.remove(idx));
                assert(0 <= idx < ks2.len() && ks2[idx] == old_node.id) by {
                    assert(ks2.contains(old_node.id)) by {
                        assert(node_ok(d2.nodes@, old_node.id as int));
                    }
                }
                assert(k + 1 != idx);
                if k + 1 < idx {
                    assert(ks2.remove(idx)[k + 1] == new_node.id);
                } else {
                    assert(ks2.remove(idx)[k as int] == new_node.id);
                }
            }
            assert(!doc.nodes@[self.id as int].children@.contains(old_node.id)) by {
                if doc.nodes@[self.id as int].children@.contains(old_node.id) {
                    crate::tree::shape::lemma_member_edge(
                        doc.nodes@,
                        self.id as int,
                        old_node.id,
                    );
                }
            }
            if !in_subtree(d0.nodes@, old_node.id as int, new_node.id as int) {
                assert forall|j: int|
                    0 <= j < d0.nodes@.len() && in_subtree(d0.nodes@, old_node.id as int, j)
                        implies same_text_fields(#[trigger] d0.nodes@[j], doc.nodes@[j]) by {
                    // members of the old child's subtree are none of the touched nodes
                    assert(j != self.id) by {
                        if j == self.id {
                            crate::tree::shape::lemma_in_subtree_bounds(
                                d0.nodes@,
                                old_node.id as int,
                                j,
                            );
                            assert(node_ok(d0.nodes@, old_node.id as int));
                            crate::tree::shape::lemma_member_edge(
                                d0.nodes@,
                                self.id as int,
                                old_node.id,
                            );
                        }
                    }
                    assert(j != new_node.id);
                    match d0.nodes@[new_node.id as int].parent {
                        Some(q) => {
                            if j == q as int {
                                crate::tree::shape::lemma_in_subtree_bounds(
                                    d0.nodes@,
                                    old_node.id as int,
                                    j,
                                );
                                assert(node_ok(d0.nodes@, new_node.id as int));
                                assert(in_subtree(d0.nodes@, j, new_node.id as int)) by {
                                    assert(node_ok(d0.nodes@, j));
                                    assert(d0.nodes@[j].children@.contains(new_node.id) || d0.nodes@[
                                        j
                                    ].attrs@.contains(new_node.id));
                                    crate::tree::shape::lemma_member_edge(
                                        d0.nodes@,
                                        j,
                                        new_node.id,
                                    );
                                    assert(child_edge_ok(d0.nodes@, j, new_node.id as int));
                                    assert(in_subtree(
                                        d0.nodes@,
                                        new_node.id as int,
                                        new_node.id as int,
                                    ));
                                }
                                lemma_in_subtree_trans(
                                    d0.nodes@,
                                    old_node.id as int,
                                    j,
                                    new_node.id as int,
                                );
                                assert(false);
                            }
                        },
                        None => {},
                    }
                    // frame through the three steps
                    assert(rec_eq_but_height(d2.nodes@[j], d1.nodes@[j]));
                }
                crate::tree::shape::lemma_text_local(d0.nodes@, doc.nodes@, old_node.id as int);
            }
        }
        let ghost d3 = *doc;
        doc.release_node(new_node);
        proof {
            assert(Document::release_rel(d3, *doc, new_node.id as int));
            assert(rec_eq_but_count(
                doc.nodes@[old_node.id as int],
                d3.nodes@[old_node.id as int],
            ));
            assert(rec_eq_but_count(
                doc.nodes@[new_node.id as int],
                d3.nodes@[new_node.id as int],
            ));
            assert(rec_eq_but_count(doc.nodes@[self.id as int], d3.nodes@[self.id as int]));
            if !in_subtree(d0.nodes@, old_node.id as int, new_node.id as int) {
                assert forall|j: int|
                    0 <= j < d3.nodes@.len() && in_subtree(d3.nodes@, old_node.id as int, j)
                        implies same_text_fields(#[trigger] d3.nodes@[j], doc.nodes@[j]) by {
                    assert(rec_eq_but_count(doc.nodes@[j], d3.nodes@[j]));
                }
                crate::tree::shape::lemma_text_local(d3.nodes@, doc.nodes@, old_node.id as int);
            }
        }
        Ok(old_node)
    }

    /// Get a set of class names from this node's `class` attribute: its
    /// space-separated pieces.  The set itself is unmodeled.
    pub fn get_class_names(&self, doc: &Document) -> (r: std::collections::HashSet<String>)
        requires
            doc.wf(),
            self.id < doc.nodes@.len(),
    {
        let mut set: std::collections::HashSet<String> = std::collections::HashSet::new();
        let key = str_to_chars("class");
        match find_attr(doc, self.id, &key, &AttrSel::AnyNs) {
            Some(a) => {
                let words = crate::tree::chars::split_spaces(&doc.nodes[a].content);
                let n = words.len();
                let mut k: usize = 0;
                while k < n
                    invariant
                        k <= n,
                        n == words@.len(),
                    decreases n - k,
                {
                    set.insert(crate::tree::chars::chars_to_string(&words[k]));
                    k = k + 1;
                }
            },
            None => {},
        }
        set
    }

    /// Removes the active namespace and namespace declarations of this node
    /// and of every node of its subtree.  Must pass the mutability guard.
    pub fn recursively_remove_namespaces(&self, doc: &mut Document) -> (r: Result<(), XmlError>)
        requires
            old(doc).wf(),
            self.id < old(doc).nodes@.len(),
        ensures
            final(doc).wf(),
            r is Ok <==> old(doc).guard_pass(self.id as int),
            r matches Err(e) ==> e == XmlError::AliasingError(
                old(doc).nodes@[self.id as int].alias_count,
            ) && *final(doc) == *old(doc),
            r is Ok ==> {
                &&& final(doc).nodes@.len() == old(doc).nodes@.len()
                &&& final(doc).guard == old(doc).guard
                &&& forall|j: int|
                    0 <= j < old(doc).nodes@.len() && !in_subtree(
                        old(doc).nodes@,
                        self.id as int,
                        j,
                    ) ==> final(doc).nodes@[j] == #[trigger] old(doc).nodes@[j]
                &&& forall|j: int|
                    0 <= j < old(doc).nodes@.len() && in_subtree(
                        old(doc).nodes@,
                        self.id as int,
                        j,
                    ) ==> crate::tree::shape::rec_eq_but_all_ns(
                        #[trigger] final(doc).nodes@[j],
                        old(doc).nodes@[j],
                    ) && final(doc).nodes@[j].ns is None && final(doc).nodes@[
                        j
                    ].ns_decls@.len() == 0
            },
    {
        let id = self.id;
        let cnt = doc.nodes[id].alias_count;
        if cnt >= doc.guard {
            return Err(XmlError::AliasingError(cnt));
        }
        let ghost d0 = *doc;
        let mut walk: Vec<usize> = Vec::new();
        crate::xpath::collect_preorder(doc, id, &mut walk);
        let ghost pw = crate::tree::shape::preorder(doc.nodes@, id as int);
        proof {
            assert(walk@.map_values(|u: usize| u as int) =~= pw);
        }
        let n = walk.len();
        let mut k: usize = 0;
        while k < n
            invariant
                doc.wf(),
                k <= n,
                id < doc.nodes@.len(),
                n == walk@.len(),
                walk@.map_values(|u: usize| u as int) == pw,
                doc.nodes@.len() == d0.nodes@.len(),
                doc.guard == d0.guard,
                d0.wf(),
                pw == crate::tree::shape::preorder(d0.nodes@, id as int),
                forall|j: int|
                    0 <= j < d0.nodes@.len() && !pw.contains(j) ==> doc.nodes@[j]
                        == #[trigger] d0.nodes@[j],
                forall|j: int|
                    0 <= j < d0.nodes@.len() && pw.contains(j)
                        ==> crate::tree::shape::rec_eq_but_all_ns(
                        #[trigger] doc.nodes@[j],
                        d0.nodes@[j],
                    ),
                forall|m: int|
                    0 <= m < k ==> (#[trigger] doc.nodes@[walk@[m] as int].ns) is None
                        && doc.nodes@[walk@[m] as int].ns_decls@.len() == 0,
            decreases n - k,
        {
            proof {
                crate::tree::shape::lemma_preorder_members(d0.nodes@, id as int, k as int);
                assert(pw[k as int] == walk@[k as int] as int);
                assert(pw.contains(pw[k as int]));
            }
            let ghost pre = *doc;
            let w = walk[k];
            doc.nodes[w].ns = None;
            doc.nodes[w].ns_decls = Vec::new();
            proof {
                assert forall|j: int| 0 <= j < doc.nodes@.len() implies same_shape_fields(
                    #[trigger] pre.nodes@[j],
                    doc.nodes@[j],
                ) by {}
                lemma_shape_same(pre.nodes@, doc.nodes@);
                assert forall|m: int|
                    0 <= m < k + 1 implies (#[trigger] doc.nodes@[walk@[m] as int].ns) is None
                    && doc.nodes@[walk@[m] as int].ns_decls@.len() == 0 by {
                    crate::tree::shape::lemma_preorder_members(d0.nodes@, id as int, m);
                    assert(pw[m] == walk@[m] as int);
                    if walk@[m] == w {
                        assert(doc.nodes@[w as int].ns is None);
                    } else if m < k {
                        assert(pre.nodes@[walk@[m] as int].ns is None);
                        assert(doc.nodes@[walk@[m] as int] == pre.nodes@[walk@[m] as int]);
                    } else {
                        assert(m == k && walk@[m] == w);
                    }
                }
            }
            k = k + 1;
        }
        proof {
            assert(*old(doc) == d0);
            assert forall|j: int|
                0 <= j < old(doc).nodes@.len() && !in_subtree(
                    old(doc).nodes@,
                    self.id as int,
                    j,
                ) implies doc.nodes@[j] == #[trigger] old(doc).nodes@[j] by {
                if pw.contains(j) {
                    let m = choose|m: int| 0 <= m < pw.len() && #[trigger] pw[m] == j;
                    crate::tree::shape::lemma_preorder_members(d0.nodes@, id as int, m);
                }
                assert(doc.nodes@[j] == d0.nodes@[j]);
            }
            assert forall|j: int|
                0 <= j < old(doc).nodes@.len() && in_subtree(
                    old(doc).nodes@,
                    self.id as int,
                    j,
                ) implies crate::tree::shape::rec_eq_but_all_ns(
                #[trigger] doc.nodes@[j],
                old(doc).nodes@[j],
            ) && doc.nodes@[j].ns is None && doc.nodes@[j].ns_decls@.len() == 0 by {
                preorder_covers(d0.nodes@, id as int, j);
                let m = choose|m: int| 0 <= m < pw.len() && #[trigger] pw[m] == j;
                assert(walk@[m] as int == j);
                assert(doc.nodes@[walk@[m] as int].ns is None);
                assert(crate::tree::shape::rec_eq_but_all_ns(doc.nodes@[j], d0.nodes@[j]));
            }
        }
        Ok(())
    }

    /// Find node handles by a query rooted at this node.
    pub fn findnodes(&self, doc: &mut Document, xpath: &str) -> (r: Result<
        Vec<Node>,
        XmlError,
    >)
        requires
            old(doc).wf(),
            self.id < old(doc).nodes@.len(),
        ensures
            final(doc).wf(),
            r is Ok <==> crate::xpath::xp_evals(xpath@, Seq::empty()),
            r matches Err(e) ==> e == XmlError::CompileOrRuntimeQueryError,
            r matches Ok(ns) ==> {
                let t = crate::xpath::sp_xp_expr(xpath@)->Some_0;
                ns@.map_values(|n: Node| n.id as int) == (if t.0 {
                    Seq::<int>::empty()
                } else {
                    crate::xpath::eval_result(
                        old(doc).nodes@,
                        t.1,
                        t.2,
                        self.id as int,
                        Seq::empty(),
                    )
                })
            },
    {
        let ctx = match crate::xpath::Context::from_node(self) {
            Ok(c) => c,
            Err(()) => {
                proof {
                    assert(false);
                }
                return Err(XmlError::CompileOrRuntimeQueryError);
            },
        };
        proof {
            assert(crate::parser::scope_view(ctx.registered@) =~= Seq::<
                crate::tree::namespace::NamespaceView,
            >::empty());
        }
        ctx.findnodes(doc, xpath, Some(self))
    }

    /// Looks up the uri bound to a namespace prefix, from this node up its
    /// ancestor chain (nearest declaration first); the `xml` prefix always
    /// carries its built-in binding.
    pub fn lookup_namespace_uri(&self, doc: &Document, prefix: &str) -> (r: Option<String>)
        requires
            doc.wf(),
            self.id < doc.nodes@.len(),
        ensures
            match lookup_uri_spec(doc.nodes@, self.id as int, prefix@) {
                Some(h) => r matches Some(x) && x@ == h,
                None => r is None,
            },
    {
        if prefix.is_empty() {
            return None;
        }
        let pv = str_to_chars(prefix);
        let xml = str_to_chars("xml");
        proof {
            reveal_strlit("xml");
            assert("xml"@ =~= seq!['x', 'm', 'l']);
        }
        if crate::tree::chars::eq_chars(&pv, &xml) {
            proof {
                reveal_strlit("http://www.w3.org/XML/1998/namespace");
                assert("http://www.w3.org/XML/1998/namespace"@ =~= crate::parser::xml_builtin_ns().href);
            }
            let h = str_to_chars("http://www.w3.org/XML/1998/namespace");
            return Some(crate::tree::chars::chars_to_string(&h));
        }
        let scope = collect_scope_decls(doc, self.id);
        match scan_vec_prefix(&scope, &pv) {
            Some(d) => {
                if d.href.len() > 0 {
                    Some(d.get_href())
                } else {
                    None
                }
            },
            None => None,
        }
    }

    /// Looks up the prefix of a namespace from its uri, from this node up
    /// its ancestor chain; the built-in namespace always answers with
    /// `xml`.
    pub fn lookup_namespace_prefix(&self, doc: &Document, href: &str) -> (r: Option<String>)
        requires
            doc.wf(),
            self.id < doc.nodes@.len(),
        ensures
            match lookup_prefix_spec(doc.nodes@, self.id as int, href@) {
                Some(p) => r matches Some(x) && x@ == p,
                None => r is None,
            },
    {
        if href.is_empty() {
            return None;
        }
        let hv = str_to_chars(href);
        let xmlh = str_to_chars("http://www.w3.org/XML/1998/namespace");
        proof {
            reveal_strlit("http://www.w3.org/XML/1998/namespace");
            assert("http://www.w3.org/XML/1998/namespace"@ =~= crate::parser::xml_builtin_ns().href);
        }
        if crate::tree::chars::eq_chars(&hv, &xmlh) {
            proof {
                reveal_strlit("xml");
                assert("xml"@ =~= seq!['x', 'm', 'l']);
            }
            let xmlp = str_to_chars("xml");
            return Some(crate::tree::chars::chars_to_string(&xmlp));
        }
        let scope = collect_scope_decls(doc, self.id);
        match scan_vec_href(&scope, &hv) {
            Some(d) => Some(d.get_prefix()),
            None => None,
        }
    }

    /// Gets the namespaces in scope at this node, nearest declarations
    /// first, with shadowed prefixes dropped.
    pub fn get_namespaces(&self, doc: &Document) -> (r: Vec<Namespace>)
        requires
            doc.wf(),
            self.id < doc.nodes@.len(),
        ensures
            r@.map_values(|d: Namespace| d@) == visible_decls(
                anc_decls(doc.nodes@, self.id as int, doc.nodes@.len() as nat),
            ),
    {
        let scope = collect_scope_decls(doc, self.id);
        let ghost dv = scope@.map_values(|d: Namespace| d@);
        let n = scope.len();
        let mut out: Vec<Namespace> = Vec::new();
        let mut k: usize = 0;
        proof {
            assert(dv.subrange(0, 0) =~= Seq::<crate::tree::namespace::NamespaceView>::empty());
            assert(out@.map_values(|d: Namespace| d@) =~= visible_decls(dv.subrange(0, 0)));
        }
        while k < n
            invariant
                k <= n,
                n == scope@.len(),
                dv == scope@.map_values(|d: Namespace| d@),
                out@.map_values(|d: Namespace| d@) == visible_decls(dv.subrange(0, k as int)),
            decreases n - k,
        {
            let ghost preo = out@.map_values(|d: Namespace| d@);
            let ghost prefix = dv.subrange(0, k as int);
            let ghost prefix1 = dv.subrange(0, k + 1 as int);
            // is this prefix already taken by a nearer declaration?
            let mut taken = false;
            let on = out.len();
            let mut m: usize = 0;
            while m < on
                invariant
                    m <= on,
                    on == out@.len(),
                    k < n,
                    n == scope@.len(),
                    dv == scope@.map_values(|d: Namespace| d@),
                    preo == out@.map_values(|d: Namespace| d@),
                    taken == exists|w: int|
                        0 <= w < m && (#[trigger] out@[w])@.prefix == dv[k as int].prefix,
                decreases on - m,
            {
                if crate::tree::chars::eq_chars(&out[m].prefix, &scope[k].prefix) {
                    taken = true;
                    proof {
                        assert(out@.map_values(|d: Namespace| d@)[m as int].prefix == dv[
                            k as int
                        ].prefix);
                    }
                }
                m = m + 1;
            }
            proof {
                assert(taken == has_prefix(preo, dv[k as int].prefix)) by {
                    if taken {
                        let w = choose|w: int|
                            0 <= w < out@.len() && (#[trigger] out@[w])@.prefix == dv[
                                k as int
                            ].prefix;
                        assert(preo[w].prefix == dv[k as int].prefix);
                    }
                    if has_prefix(preo, dv[k as int].prefix) {
                        let w = choose|w: int|
                            0 <= w < preo.len() && (#[trigger] preo[w]).prefix == dv[
                                k as int
                            ].prefix;
                        assert(out@[w]@.prefix == dv[k as int].prefix);
                    }
                }
                lemma_visible_has(prefix, dv[k as int].prefix);
                assert(prefix1.drop_last() =~= prefix);
                assert(prefix1.last() == dv[k as int]);
            }
            if !taken {
                out.push(scope[k].duplicate());
                proof {
                    assert(out@.map_values(|d: Namespace| d@) =~= preo.push(dv[k as int]));
                    assert(out@.map_values(|d: Namespace| d@) =~= visible_decls(prefix1));
                }
            } else {
                proof {
                    assert(visible_decls(prefix1) =~= visible_decls(prefix));
                }
            }
            k = k + 1;
        }
        proof {
            assert(dv.subrange(0, n as int) =~= dv);
        }
        out
    }

    /// Create a mock element node, used for a placeholder argument.
    pub fn mock(doc: &mut Document) -> (r: Node)
        requires
            old(doc).wf(),
            old(doc).nodes@.len() < usize::MAX - 1,
        ensures
            final(doc).wf(),
            create_rel(*old(doc), *final(doc), r.id as int),
            final(doc).nodes@[r.id as int].ntype == NodeType::ElementNode,
    {
        match Node::new("mock", None, doc) {
            Ok(n) => n,
            Err(()) => Node { id: usize::MAX },  // never taken: the arena has room
        }
    }
}

} // verus!
