use vstd::prelude::*;

use crate::tree::node::Node;
use crate::tree::nodetype::NodeType;
use crate::tree::shape::attr_edge_ok;
use crate::tree::shape::child_edge_ok;
use crate::tree::shape::in_subtree;
use crate::tree::shape::lemma_in_subtree_bounds;
use crate::tree::shape::lemma_in_subtree_trans;
use crate::tree::shape::lemma_member_edge;
use crate::tree::shape::lemma_pending_to_shape;
use crate::tree::shape::lemma_raise_step;
use crate::tree::shape::lemma_shape_same;
use crate::tree::shape::lemma_shape_to_pending;
use crate::tree::shape::rec_eq_but_attrs;
use crate::tree::shape::rec_eq_but_children;
use crate::tree::shape::rec_eq_but_children_height;
use crate::tree::shape::rec_eq_but_height;
use crate::tree::shape::rec_eq_but_parent;
use crate::tree::shape::shape_ok_pending;
use crate::tree::shape::node_ok;
use crate::tree::shape::rec_eq;
use crate::tree::shape::rec_eq_but_count;
use crate::tree::shape::same_shape_fields;
use crate::tree::shape::sat_inc;
use crate::tree::shape::set_height;
use crate::tree::shape::shape_ok;
use crate::tree::shape::NodeRec;

verus! {

/// A document: the owner of one tree of nodes, held in an arena, together
/// with the registry bookkeeping (per-position alias counts) and the
/// mutability-guard threshold.  Position 0 is the document node itself;
/// teardown of the document frees the whole arena at once, so no individual
/// position is ever freed early.
pub struct Document {
    /// The node arena; indices are position identities
    pub nodes: Vec<NodeRec>,
    /// The guard threshold: a mutation of a position is allowed while its
    /// live alias count stays below this value
    pub guard: u64,
}

impl Document {
    /// Well-formedness: the arena is structurally coherent, position 0 is
    /// the document node, and no other position is a document node.
    pub open spec fn wf(&self) -> bool {
        &&& shape_ok(self.nodes@)
        &&& 1 <= self.nodes@.len() < usize::MAX
        &&& self.nodes@[0].ntype == NodeType::DocumentNode
        &&& self.nodes@[0].parent is None
        &&& forall|i: int|
            1 <= i < self.nodes@.len() ==> (#[trigger] self.nodes@[i].ntype)
                != NodeType::DocumentNode
    }

    /// Creates a new empty document.
    pub fn new() -> (r: Result<Document, ()>)
        ensures
            r is Ok,
            r matches Ok(d) ==> {
                &&& d.wf()
                &&& d.nodes@.len() == 1
                &&& d.guard == 2
                &&& d.nodes@[0].children@.len() == 0
                &&& d.nodes@[0].attrs@.len() == 0
                &&& d.nodes@[0].alias_count == 0
            },
    {
        let doc_node = NodeRec {
            ntype: NodeType::DocumentNode,
            name: Vec::new(),
            content: Vec::new(),
            parent: None,
            children: Vec::new(),
            attrs: Vec::new(),
            ns_decls: Vec::new(),
            ns: None,
            alias_count: 0,
            height: Ghost(0),
        };
        let mut nodes: Vec<NodeRec> = Vec::new();
        nodes.push(doc_node);
        let doc = Document { nodes, guard: 2 };
        proof {
            assert(node_ok(doc.nodes@, 0));
        }
        Ok(doc)
    }

    /// How one wrap call relates the registry states: the alias count of the
    /// wrapped position goes up by one (saturating), and nothing else moves.
    pub open spec fn wrap_rel(d0: Document, d1: Document, pos: int) -> bool {
        &&& d1.nodes@.len() == d0.nodes@.len()
        &&& d1.guard == d0.guard
        &&& forall|j: int|
            0 <= j < d0.nodes@.len() && j != pos ==> rec_eq(#[trigger] d1.nodes@[j], d0.nodes@[j])
        &&& rec_eq_but_count(d1.nodes@[pos], d0.nodes@[pos])
        &&& d1.nodes@[pos].alias_count == sat_inc(d0.nodes@[pos].alias_count)
    }

    /// Returns the canonical handle for an existing position: the same
    /// position always yields an equal handle, no new registry entry is
    /// created, and the live alias count of the position goes up by one.
    pub fn wrap(&mut self, pos: usize) -> (r: Node)
        requires
            old(self).wf(),
            pos < old(self).nodes@.len(),
        ensures
            final(self).wf(),
            r.id == pos,
            Document::wrap_rel(*old(self), *final(self), pos as int),
    {
        let c = self.nodes[pos].alias_count;
        if c < u64::MAX {
            self.nodes[pos].alias_count = c + 1;
        }
        proof {
            assert forall|j: int| 0 <= j < self.nodes@.len() implies same_shape_fields(
                #[trigger] old(self).nodes@[j],
                self.nodes@[j],
            ) by {}
            lemma_shape_same(old(self).nodes@, self.nodes@);
        }
        Node { id: pos }
    }

    /// How releasing one handle relates the registry states.
    pub open spec fn release_rel(d0: Document, d1: Document, pos: int) -> bool {
        &&& d1.nodes@.len() == d0.nodes@.len()
        &&& d1.guard == d0.guard
        &&& forall|j: int|
            0 <= j < d0.nodes@.len() && j != pos ==> rec_eq(#[trigger] d1.nodes@[j], d0.nodes@[j])
        &&& rec_eq_but_count(d1.nodes@[pos], d0.nodes@[pos])
        &&& d1.nodes@[pos].alias_count == (if d0.nodes@[pos].alias_count > 0 {
            (d0.nodes@[pos].alias_count - 1) as u64
        } else {
            0u64
        })
    }

    /// Gives a handle back to the registry: the live alias count of its
    /// position goes down by one.  The handle is consumed.
    pub fn release_node(&mut self, n: Node) -> (r: ())
        requires
            old(self).wf(),
        ensures
            final(self).wf(),
            n.id < old(self).nodes@.len() ==> Document::release_rel(
                *old(self),
                *final(self),
                n.id as int,
            ),
            n.id >= old(self).nodes@.len() ==> *final(self) == *old(self),
    {
        if n.id < self.nodes.len() {
            let c = self.nodes[n.id].alias_count;
            if c > 0 {
                self.nodes[n.id].alias_count = c - 1;
            }
            proof {
                assert forall|j: int| 0 <= j < self.nodes@.len() implies same_shape_fields(
                    #[trigger] old(self).nodes@[j],
                    self.nodes@[j],
                ) by {}
                lemma_shape_same(old(self).nodes@, self.nodes@);
            }
        }
    }

    /// Gives a whole list of handles back to the registry.
    pub fn release_nodes(&mut self, v: Vec<Node>)
        requires
            old(self).wf(),
        ensures
            final(self).wf(),
            final(self).nodes@.len() == old(self).nodes@.len(),
            final(self).guard == old(self).guard,
            forall|j: int|
                0 <= j < final(self).nodes@.len() ==> rec_eq_but_count(
                    #[trigger] final(self).nodes@[j],
                    old(self).nodes@[j],
                ),
            forall|j: int|
                0 <= j < final(self).nodes@.len() ==> (#[trigger] final(self).nodes@[j].alias_count)
                    <= old(self).nodes@[j].alias_count,
    {
        let mut v = v;
        let mut k: usize = 0;
        let n = v.len();
        while k < n
            invariant
                self.wf(),
                k <= n,
                n == v.len(),
                self.nodes@.len() == old(self).nodes@.len(),
                self.guard == old(self).guard,
                forall|j: int|
                    0 <= j < self.nodes@.len() ==> rec_eq_but_count(
                        #[trigger] self.nodes@[j],
                        old(self).nodes@[j],
                    ),
                forall|j: int|
                    0 <= j < self.nodes@.len() ==> (#[trigger] self.nodes@[j].alias_count)
                        <= old(self).nodes@[j].alias_count,
            decreases n - k,
        {
            let ghost pre = *self;
            let id = v[k].id;
            self.release_node(Node { id });
            proof {
                assert forall|j: int| 0 <= j < self.nodes@.len() implies rec_eq_but_count(
                    #[trigger] self.nodes@[j],
                    old(self).nodes@[j],
                ) by {
                    assert(rec_eq_but_count(pre.nodes@[j], old(self).nodes@[j]));
                }
            }
            k = k + 1;
        }
    }
}

impl Document {
    /// Raise the height witness of position `a` strictly above `floor`,
    /// re-establishing the height ordering along the ancestor chain of `a`.
    /// Only height witnesses move, only at `a` and the positions above it.
    pub(crate) fn raise_height(&mut self, a: usize, floor: Ghost<nat>)
        requires
            old(self).wf(),
            a < old(self).nodes@.len(),
            old(self).nodes@[a as int].ntype != NodeType::AttributeNode,
        ensures
            final(self).wf(),
            final(self).guard == old(self).guard,
            final(self).nodes@.len() == old(self).nodes@.len(),
            final(self).nodes@[a as int].height@ > floor@,
            forall|j: int|
                0 <= j < old(self).nodes@.len() ==> rec_eq_but_height(
                    #[trigger] final(self).nodes@[j],
                    old(self).nodes@[j],
                ),
            forall|j: int|
                0 <= j < old(self).nodes@.len() ==> old(self).nodes@[j].height@
                    <= final(self).nodes@[j].height@,
            forall|j: int|
                0 <= j < old(self).nodes@.len() && final(self).nodes@[j].height@
                    != old(self).nodes@[j].height@ ==> in_subtree(old(self).nodes@, j, a as int),
            forall|j: int|
                0 <= j < old(self).nodes@.len() ==> #[trigger] final(self).nodes@[j] == set_height(
                    old(self).nodes@[j],
                    final(self).nodes@[j].height@,
                ),
    {
        let ghost orig = self.nodes@;
        let mut cur: usize = a;
        let ghost mut visited: Set<int> = Set::<int>::empty();
        // raise `a` itself first
        let ghost h0 = self.nodes@[a as int].height@;
        let ghost newh0: nat = if h0 > floor@ { h0 } else { floor@ + 1 };
        proof {
            lemma_shape_to_pending(orig, a as int, (newh0 - 1) as nat);
        }
        self.nodes[cur].height = Ghost(newh0);
        proof {
            lemma_raise_step(orig, self.nodes@, a as int, (newh0 - 1) as nat, newh0);
            assert(in_subtree(orig, a as int, a as int));
            assert(node_ok(orig, a as int));
            assert forall|j: int| 0 <= j < orig.len() implies #[trigger] self.nodes@[j]
                == set_height(orig[j], self.nodes@[j].height@) by {
                if j != a as int {
                    assert(self.nodes@[j] == orig[j]);
                    assert(set_height(orig[j], orig[j].height@) == orig[j]);
                }
            }
            assert(self.nodes@[a as int].height@ == newh0);
            assert(self.nodes@[a as int].parent == orig[a as int].parent);
            assert(rec_eq_but_height(self.nodes@[a as int], orig[a as int]));
        }
        while self.nodes[cur].parent.is_some()
            invariant
                self.guard == old(self).guard,
                self.nodes@.len() == orig.len(),
                orig == old(self).nodes@,
                shape_ok(orig),
                orig.len() < usize::MAX as int,
                a < orig.len(),
                cur < orig.len(),
                self.nodes@[cur as int].ntype != NodeType::AttributeNode,
                self.nodes@[a as int].height@ > floor@,
                match self.nodes@[cur as int].parent {
                    Some(p) => p < orig.len() && shape_ok_pending(
                        self.nodes@,
                        p as int,
                        self.nodes@[cur as int].height@,
                    ),
                    None => shape_ok(self.nodes@),
                },
                forall|j: int|
                    0 <= j < orig.len() ==> rec_eq_but_height(
                        #[trigger] self.nodes@[j],
                        orig[j],
                    ),
                forall|j: int|
                    0 <= j < orig.len() ==> #[trigger] self.nodes@[j] == set_height(
                        orig[j],
                        self.nodes@[j].height@,
                    ),
                forall|j: int| 0 <= j < orig.len() ==> orig[j].height@ <= self.nodes@[j].height@,
                forall|j: int|
                    0 <= j < orig.len() && self.nodes@[j].height@ != orig[j].height@
                        ==> in_subtree(orig, j, a as int),
                in_subtree(orig, cur as int, a as int),
                visited.finite(),
                visited.subset_of(vstd::set_lib::set_int_range(0, orig.len() as int)),
                !visited.contains(cur as int),
                forall|j: int|
                    visited.contains(j) ==> orig[j].height@ < orig[cur as int].height@,
            decreases orig.len() - visited.len(),
        {
            let ghost pre = self.nodes@;
            let p: usize = match self.nodes[cur].parent {
                Some(p) => p,
                None => cur,  // never taken: the loop condition holds
            };
            proof {
                // the edge cur -> p exists in the starting arena as well
                assert(rec_eq_but_height(self.nodes@[cur as int], orig[cur as int]));
                assert(node_ok(orig, cur as int));
                assert(orig[cur as int].parent == Some(p));
                assert(node_ok(orig, p as int));
                if orig[p as int].attrs@.contains(cur) {
                    let k = choose|k: int|
                        0 <= k < orig[p as int].attrs@.len() && orig[p as int].attrs@[k] == cur;
                    assert(attr_edge_ok(orig, p as int, orig[p as int].attrs@[k] as int));
                    assert(self.nodes@[cur as int].ntype == orig[cur as int].ntype);
                    assert(false);
                }
                lemma_member_edge(orig, p as int, cur);
                assert(orig[cur as int].height@ < orig[p as int].height@);
                // p is not an attribute node: it has a child
                assert(node_ok(orig, p as int));
                if orig[p as int].ntype == NodeType::AttributeNode {
                    assert(orig[p as int].children@.len() == 0);
                    assert(false);
                }
                // the subtree chain grows upward
                assert(in_subtree(orig, p as int, cur as int)) by {
                    assert(child_edge_ok(orig, p as int, cur as int));
                    assert(in_subtree(orig, cur as int, cur as int));
                }
                lemma_in_subtree_trans(orig, p as int, cur as int, a as int);
                // pigeonhole bookkeeping
                visited = visited.insert(cur as int);
                vstd::set_lib::lemma_int_range(0, orig.len() as int);
                vstd::set_lib::lemma_len_subset(
                    visited,
                    vstd::set_lib::set_int_range(0, orig.len() as int),
                );
            }
            let ghost hc = self.nodes@[cur as int].height@;
            let ghost hp = self.nodes@[p as int].height@;
            let ghost newh: nat = if hp > hc { hp } else { hc + 1 };
            self.nodes[p].height = Ghost(newh);
            proof {
                lemma_raise_step(pre, self.nodes@, p as int, hc, newh);
                assert(self.nodes@[p as int].height@ == newh);
                assert forall|j: int| 0 <= j < orig.len() implies #[trigger] self.nodes@[j]
                    == set_height(orig[j], self.nodes@[j].height@) by {
                    if j != p as int {
                        assert(self.nodes@[j] == pre[j]);
                    }
                    assert(pre[j] == set_height(orig[j], pre[j].height@));
                }
                assert(newh >= pre[a as int].height@ || self.nodes@[a as int].height@ == pre[a as int].height@);
                assert(self.nodes@[a as int].height@ >= pre[a as int].height@);
                assert(rec_eq_but_height(self.nodes@[p as int], orig[p as int]));
            }
            cur = p;
        }
        proof {
            assert(shape_ok(self.nodes@));
            assert forall|j: int| 1 <= j < self.nodes@.len() implies (
            #[trigger] self.nodes@[j].ntype) != NodeType::DocumentNode by {
                assert(rec_eq_but_height(self.nodes@[j], orig[j]));
            }
        }
    }
}

impl Document {
    /// The mutability guard: a mutation through a handle of `pos` is allowed
    /// while the live alias count of `pos` is below the guard threshold.
    pub open spec fn guard_pass(self, pos: int) -> bool {
        self.nodes@[pos].alias_count < self.guard
    }

    /// How wrapping each position of a duplicate-free list relates two
    /// document states: listed positions gain one live alias, the rest move
    /// not at all.
    pub open spec fn wrap_many_rel(d0: Document, d1: Document, ids: Seq<usize>) -> bool {
        &&& d1.nodes@.len() == d0.nodes@.len()
        &&& d1.guard == d0.guard
        &&& forall|j: int|
            0 <= j < d0.nodes@.len() ==> rec_eq_but_count(
                #[trigger] d1.nodes@[j],
                d0.nodes@[j],
            )
        &&& forall|j: int|
            0 <= j < d0.nodes@.len() && !ids.contains(j as usize)
                ==> (#[trigger] d1.nodes@[j]).alias_count == d0.nodes@[j].alias_count
        &&& forall|j: int|
            0 <= j < d0.nodes@.len() && ids.contains(j as usize)
                ==> (#[trigger] d1.nodes@[j]).alias_count == sat_inc(d0.nodes@[j].alias_count)
    }

    /// How detaching position `n` from its parent `p` relates two document
    /// states: `n` leaves `p`'s child list (or, for an attribute node, its
    /// attribute list) and loses its parent link, and nothing else moves.
    pub open spec fn detach_rel(d0: Document, d1: Document, n: int) -> bool {
        let p = d0.nodes@[n].parent->0 as int;
        &&& d0.nodes@[n].parent is Some
        &&& d1.nodes@.len() == d0.nodes@.len()
        &&& d1.guard == d0.guard
        &&& forall|j: int|
            0 <= j < d0.nodes@.len() && j != n && j != p ==> rec_eq(
                #[trigger] d1.nodes@[j],
                d0.nodes@[j],
            )
        &&& rec_eq_but_parent(d1.nodes@[n], d0.nodes@[n])
        &&& d1.nodes@[n].parent is None
        &&& if d0.nodes@[n].ntype == NodeType::AttributeNode {
            &&& rec_eq_but_attrs(d1.nodes@[p], d0.nodes@[p])
            &&& d1.nodes@[p].attrs@ == d0.nodes@[p].attrs@.remove(
                d0.nodes@[p].attrs@.index_of(n as usize),
            )
            &&& d0.nodes@[p].attrs@.contains(n as usize)
        } else {
            &&& rec_eq_but_children(d1.nodes@[p], d0.nodes@[p])
            &&& d1.nodes@[p].children@ == d0.nodes@[p].children@.remove(
                d0.nodes@[p].children@.index_of(n as usize),
            )
            &&& d0.nodes@[p].children@.contains(n as usize)
        }
    }

    /// How attaching detached position `c` under `p` relates two document
    /// states: `c` is appended to `p`'s child list and linked to it; the
    /// moved subtree is untouched, and elsewhere only height witnesses may
    /// move (upward).
    pub open spec fn attach_rel(d0: Document, d1: Document, p: int, c: int) -> bool {
        &&& d1.nodes@.len() == d0.nodes@.len()
        &&& d1.guard == d0.guard
        &&& forall|j: int|
            0 <= j < d0.nodes@.len() && j != p && j != c ==> rec_eq_but_height(
                #[trigger] d1.nodes@[j],
                d0.nodes@[j],
            )
        &&& rec_eq_but_children_height(d1.nodes@[p], d0.nodes@[p])
        &&& d1.nodes@[p].children@ == d0.nodes@[p].children@.push(c as usize)
        &&& rec_eq_but_parent(d1.nodes@[c], d0.nodes@[c])
        &&& d1.nodes@[c].parent == Some(p as usize)
        &&& forall|j: int|
            0 <= j < d0.nodes@.len() && j != c && in_subtree(d0.nodes@, c, j)
                ==> #[trigger] d1.nodes@[j] == d0.nodes@[j]
    }

    /// How attaching detached position `c` under `p` at child slot `slot`
    /// relates two document states: `c` enters `p`'s child list at that slot
    /// and is linked to it; the moved subtree is untouched, and elsewhere
    /// only height witnesses may move (upward).
    pub open spec fn attach_at_rel(d0: Document, d1: Document, p: int, c: int, slot: int) -> bool {
        &&& d1.nodes@.len() == d0.nodes@.len()
        &&& d1.guard == d0.guard
        &&& forall|j: int|
            0 <= j < d0.nodes@.len() && j != p && j != c ==> rec_eq_but_height(
                #[trigger] d1.nodes@[j],
                d0.nodes@[j],
            )
        &&& rec_eq_but_children_height(d1.nodes@[p], d0.nodes@[p])
        &&& d1.nodes@[p].children@ == d0.nodes@[p].children@.insert(slot, c as usize)
        &&& rec_eq_but_parent(d1.nodes@[c], d0.nodes@[c])
        &&& d1.nodes@[c].parent == Some(p as usize)
        &&& forall|j: int|
            0 <= j < d0.nodes@.len() && j != c && in_subtree(d0.nodes@, c, j)
                ==> #[trigger] d1.nodes@[j] == d0.nodes@[j]
    }

    /// Links the detached position `c` under `p` at child slot `slot`.
    pub(crate) fn attach_new(&mut self, p: usize, c: usize, slot: usize)
        requires
            old(self).wf(),
            p < old(self).nodes@.len(),
            c < old(self).nodes@.len(),
            old(self).nodes@[c as int].parent is None,
            old(self).nodes@[c as int].ntype != NodeType::AttributeNode,
            old(self).nodes@[c as int].ntype != NodeType::DocumentNode,
            old(self).nodes@[p as int].ntype != NodeType::AttributeNode,
            slot <= old(self).nodes@[p as int].children@.len(),
            !in_subtree(old(self).nodes@, c as int, p as int),
        ensures
            final(self).wf(),
            Document::attach_at_rel(*old(self), *final(self), p as int, c as int, slot as int),
            old(self).nodes@[p as int].parent is None ==> forall|j: int|
                0 <= j < old(self).nodes@.len() && j != p && j != c ==> final(self).nodes@[j]
                    == #[trigger] old(self).nodes@[j],
    {
        let ghost pre = *self;
        self.raise_height(p, Ghost(self.nodes@[c as int].height@));
        let ghost mid = *self;
        proof {
            assert(self.nodes@[c as int].height@ == pre.nodes@[c as int].height@) by {
                if self.nodes@[c as int].height@ != pre.nodes@[c as int].height@ {
                    assert(in_subtree(pre.nodes@, c as int, p as int));
                }
            }
            assert(self.nodes@[c as int].height@ < self.nodes@[p as int].height@);
            assert(slot <= self.nodes@[p as int].children@.len());
        }
        self.nodes[p].children.insert(slot, c);
        self.nodes[c].parent = Some(p);
        proof {
            assert(c != p) by {
                assert(in_subtree(pre.nodes@, c as int, c as int));
            }
            assert(rec_eq_but_children(self.nodes@[p as int], mid.nodes@[p as int]));
            assert(rec_eq_but_parent(self.nodes@[c as int], mid.nodes@[c as int]));
            crate::tree::shape::lemma_shape_attach(
                mid.nodes@,
                self.nodes@,
                p as int,
                c as int,
                slot as int,
            );
            assert forall|j: int|
                0 <= j < pre.nodes@.len() && j != c && in_subtree(pre.nodes@, c as int, j) implies
                #[trigger] self.nodes@[j] == pre.nodes@[j] by {
                lemma_in_subtree_bounds(pre.nodes@, c as int, j);
                assert(j != p) by {
                    if j == p {
                        lemma_in_subtree_trans(pre.nodes@, c as int, j, p as int);
                    }
                }
                if mid.nodes@[j].height@ != pre.nodes@[j].height@ {
                    assert(in_subtree(pre.nodes@, j, p as int));
                    lemma_in_subtree_trans(pre.nodes@, c as int, j, p as int);
                    assert(false);
                }
                assert(mid.nodes@[j] == set_height(pre.nodes@[j], mid.nodes@[j].height@));
                assert(set_height(pre.nodes@[j], pre.nodes@[j].height@) == pre.nodes@[j]);
                assert(mid.nodes@[j] == pre.nodes@[j]);
                assert(self.nodes@[j] == mid.nodes@[j]);
            }
            assert forall|j: int|
                0 <= j < pre.nodes@.len() && j != p && j != c implies rec_eq_but_height(
                    #[trigger] self.nodes@[j],
                    pre.nodes@[j],
                ) by {
                assert(self.nodes@[j] == mid.nodes@[j]);
                assert(mid.nodes@[j] == set_height(pre.nodes@[j], mid.nodes@[j].height@));
            }
            assert forall|j: int| 1 <= j < self.nodes@.len() implies (
            #[trigger] self.nodes@[j].ntype) != NodeType::DocumentNode by {
                assert(rec_eq_but_height(mid.nodes@[j], pre.nodes@[j]));
            }
            if pre.nodes@[p as int].parent is None {
                assert forall|j: int|
                    0 <= j < pre.nodes@.len() && j != p && j != c implies self.nodes@[j]
                        == #[trigger] pre.nodes@[j] by {
                    assert(self.nodes@[j] == mid.nodes@[j]);
                    if mid.nodes@[j].height@ != pre.nodes@[j].height@ {
                        assert(in_subtree(pre.nodes@, j, p as int));
                        crate::tree::shape::lemma_subtree_parent(pre.nodes@, j, p as int);
                        assert(false);
                    }
                    assert(mid.nodes@[j] == set_height(pre.nodes@[j], pre.nodes@[j].height@));
                    assert(set_height(pre.nodes@[j], pre.nodes@[j].height@) == pre.nodes@[j]);
                }
            }
        }
    }

    /// Whether position `t` lies in the subtree rooted at `rt`.
    pub(crate) fn contains_pos(&self, rt: usize, t: usize) -> (r: bool)
        requires
            self.wf(),
            rt < self.nodes@.len(),
        ensures
            r == in_subtree(self.nodes@, rt as int, t as int),
        decreases self.nodes@[rt as int].height@,
    {
        if rt == t {
            return true;
        }
        proof {
            assert(node_ok(self.nodes@, rt as int));
        }
        let n = self.nodes[rt].children.len();
        let mut k: usize = 0;
        while k < n
            invariant
                self.wf(),
                rt < self.nodes@.len(),
                rt != t,
                k <= n,
                n == self.nodes@[rt as int].children@.len(),
                forall|j: int|
                    0 <= j < k ==> !in_subtree(
                        self.nodes@,
                        #[trigger] self.nodes@[rt as int].children@[j] as int,
                        t as int,
                    ),
            decreases n - k,
        {
            proof {
                assert(node_ok(self.nodes@, rt as int));
                assert(child_edge_ok(
                    self.nodes@,
                    rt as int,
                    self.nodes@[rt as int].children@[k as int] as int,
                ));
            }
            let ch = self.nodes[rt].children[k];
            if self.contains_pos(ch, t) {
                return true;
            }
            k = k + 1;
        }
        false
    }
}

/// Whether setting this position as root does nothing: the document node
/// itself, an attribute node, or a fragment node was handed in.
pub open spec fn set_root_noop(d: Document, n: int) -> bool {
    ||| n == 0
    ||| d.nodes@[n].ntype == NodeType::AttributeNode
    ||| d.nodes@[n].ntype == NodeType::DocumentFragNode
}

/// The first element child of `p`, if any, without wrapping it.
pub(crate) fn find_first_elem_child(doc: &Document, p: usize) -> (r: Option<usize>)
    requires
        doc.wf(),
        p < doc.nodes@.len(),
    ensures
        r == crate::tree::shape::first_elem_from(doc.nodes@, doc.nodes@[p as int].children@, 0),
        r matches Some(c) ==> c < doc.nodes@.len() && doc.nodes@[c as int].ntype
            == NodeType::ElementNode,
{
    let ghost ks = doc.nodes@[p as int].children@;
    let n = doc.nodes[p].children.len();
    let mut k: usize = 0;
    while k < n
        invariant
            doc.wf(),
            p < doc.nodes@.len(),
            k <= n,
            n == ks.len(),
            ks == doc.nodes@[p as int].children@,
            crate::tree::shape::first_elem_from(doc.nodes@, ks, 0)
                == crate::tree::shape::first_elem_from(doc.nodes@, ks, k as int),
        decreases n - k,
    {
        proof {
            assert(node_ok(doc.nodes@, p as int));
            assert(child_edge_ok(doc.nodes@, p as int, ks[k as int] as int));
        }
        let c = doc.nodes[p].children[k];
        if doc.nodes[c].ntype == NodeType::ElementNode {
            return Some(c);
        }
        k = k + 1;
    }
    None
}

/// The first element child of `p` and its child slot, if any, without
/// wrapping it.
pub(crate) fn find_first_elem_slot(doc: &Document, p: usize) -> (r: Option<(usize, usize)>)
    requires
        doc.wf(),
        p < doc.nodes@.len(),
    ensures
        match r {
            Some(ck) => {
                &&& (ck.1 as int) < doc.nodes@[p as int].children@.len()
                &&& doc.nodes@[p as int].children@[ck.1 as int] == ck.0
                &&& ck.0 < doc.nodes@.len()
                &&& doc.nodes@[ck.0 as int].ntype == NodeType::ElementNode
                &&& forall|j: int|
                    0 <= j < ck.1 ==> !(0 <= (#[trigger] doc.nodes@[p as int].children@[j])
                        < doc.nodes@.len() && doc.nodes@[doc.nodes@[
                        p as int
                    ].children@[j] as int].ntype == NodeType::ElementNode)
                &&& crate::tree::shape::first_elem_from(
                    doc.nodes@,
                    doc.nodes@[p as int].children@,
                    0,
                ) == Some(ck.0)
            },
            None => crate::tree::shape::first_elem_from(
                doc.nodes@,
                doc.nodes@[p as int].children@,
                0,
            ) is None && forall|j: int|
                0 <= j < doc.nodes@[p as int].children@.len() ==> !(0 <= (
                #[trigger] doc.nodes@[p as int].children@[j]) < doc.nodes@.len() && doc.nodes@[
                    doc.nodes@[p as int].children@[j] as int
                ].ntype == NodeType::ElementNode),
        },
{
    let ghost ks = doc.nodes@[p as int].children@;
    let n = doc.nodes[p].children.len();
    let mut k: usize = 0;
    while k < n
        invariant
            doc.wf(),
            p < doc.nodes@.len(),
            k <= n,
            n == ks.len(),
            ks == doc.nodes@[p as int].children@,
            crate::tree::shape::first_elem_from(doc.nodes@, ks, 0)
                == crate::tree::shape::first_elem_from(doc.nodes@, ks, k as int),
            forall|j: int|
                0 <= j < k ==> !(0 <= (#[trigger] ks[j]) < doc.nodes@.len() && doc.nodes@[
                    ks[j] as int
                ].ntype == NodeType::ElementNode),
        decreases n - k,
    {
        proof {
            assert(node_ok(doc.nodes@, p as int));
            assert(child_edge_ok(doc.nodes@, p as int, ks[k as int] as int));
        }
        let c = doc.nodes[p].children[k];
        if doc.nodes[c].ntype == NodeType::ElementNode {
            return Some((c, k));
        }
        k = k + 1;
    }
    None
}

impl Document {
    /// Get the root element of the document: the first element child of the
    /// document node.
    pub fn get_root_element(&mut self) -> (r: Option<Node>)
        requires
            old(self).wf(),
        ensures
            final(self).wf(),
            match crate::tree::shape::first_elem_from(
                old(self).nodes@,
                old(self).nodes@[0].children@,
                0,
            ) {
                Some(c) => r matches Some(n) && n.id == c && Document::wrap_rel(
                    *old(self),
                    *final(self),
                    c as int,
                ),
                None => r is None && *final(self) == *old(self),
            },
    {
        crate::tree::node::scan_elem_forward(self, 0, 0)
    }

    /// Get the root element of the document as a read-only handle.
    pub fn get_root_readonly(&self) -> (r: Option<crate::readonly::RoNode>)
        requires
            self.wf(),
        ensures
            match crate::tree::shape::first_elem_from(self.nodes@, self.nodes@[0].children@, 0) {
                Some(c) => r == Some(crate::readonly::RoNode(c)),
                None => r is None,
            },
    {
        match find_first_elem_child(self, 0) {
            Some(c) => Some(crate::readonly::RoNode(c)),
            None => None,
        }
    }

    /// Cast the document as a node handle: the canonical handle of the
    /// document node itself.
    pub fn as_node(&mut self) -> (r: Node)
        requires
            old(self).wf(),
        ensures
            final(self).wf(),
            r.id == 0,
            Document::wrap_rel(*old(self), *final(self), 0),
    {
        self.wrap(0)
    }

    /// Sets the root element of the document: the current root element, if
    /// any, is detached and the new root takes its place among the document
    /// node's children (it is appended when there was none); the new root
    /// is detached from wherever it stood first.  Handing the document node
    /// itself, an attribute or a fragment is a no-op.
    #[verifier::rlimit(100)]
    pub fn set_root_element(&mut self, root: &Node)
        requires
            old(self).wf(),
            root.id < old(self).nodes@.len(),
        ensures
            final(self).wf(),
            final(self).guard == old(self).guard,
            final(self).nodes@.len() == old(self).nodes@.len(),
            set_root_noop(*old(self), root.id as int) ==> *final(self) == *old(self),
            !set_root_noop(*old(self), root.id as int) ==> {
                &&& final(self).nodes@[root.id as int].parent == Some(0usize)
                &&& final(self).nodes@[0].children@.contains(root.id)
                &&& (old(self).nodes@[root.id as int].ntype == NodeType::ElementNode
                    ==> crate::tree::shape::first_elem_from(
                    final(self).nodes@,
                    final(self).nodes@[0].children@,
                    0,
                ) == Some(root.id))
                &&& match crate::tree::shape::first_elem_from(
                    old(self).nodes@,
                    old(self).nodes@[0].children@,
                    0,
                ) {
                    Some(r0) => r0 != root.id ==> final(self).nodes@[r0 as int].parent is None,
                    None => true,
                }
            },
            (!set_root_noop(*old(self), root.id as int) && old(self).nodes@[
                root.id as int
            ].parent is None && crate::tree::shape::first_elem_from(
                old(self).nodes@,
                old(self).nodes@[0].children@,
                0,
            ) is None) ==> {
                &&& final(self).nodes@[0].children@ == old(self).nodes@[0].children@.push(root.id)
                &&& forall|j: int|
                    0 <= j < old(self).nodes@.len() && j != 0 && j != root.id
                        ==> rec_eq_but_height(#[trigger] final(self).nodes@[j], old(self).nodes@[j])
            },
    {
        if root.id == 0 {
            return ;
        }
        let nt = self.nodes[root.id].ntype;
        if nt == NodeType::AttributeNode || nt == NodeType::DocumentFragNode {
            return ;
        }
        let ghost d0 = *self;
        let ghost ks0 = self.nodes@[0].children@;
        // detach the current root element, if any, remembering its slot
        let old_root = find_first_elem_slot(self, 0);
        match old_root {
            Some((r0, _k)) => {
                let h = Node { id: r0 };
                h.unlink_node(self);
            },
            None => {},
        }
        let ghost d1 = *self;
        let mut slot: usize = match old_root {
            Some((_r0, k)) => k,
            None => self.nodes[0].children.len(),
        };
        proof {
            match old_root {
                Some((r0, k)) => {
                    assert(node_ok(d0.nodes@, 0));
                    assert(d0.nodes@[0].children@.index_of(r0) == k as int) by {
                        crate::tree::shape::lemma_index_of_distinct(ks0, r0, k as int);
                    }
                    assert(d1.nodes@[0].children@ == ks0.remove(k as int));
                    assert(slot <= d1.nodes@[0].children@.len());
                },
                None => {
                    assert(d1 == d0);
                },
            }
        }
        // detach the new root from wherever it stands, keeping the insert
        // slot aligned when it leaves the document node's own child list
        let ghost mm: int = -1;
        if self.nodes[root.id].parent.is_some() {
            let is_doc_child = match self.nodes[root.id].parent {
                Some(q) => q == 0,
                None => false,
            };
            if is_doc_child {
                proof {
                    assert(node_ok(self.nodes@, root.id as int));
                    assert(node_ok(self.nodes@, 0));
                    if self.nodes@[0].attrs@.contains(root.id) {
                        let w = choose|w: int|
                            0 <= w < self.nodes@[0].attrs@.len() && self.nodes@[0].attrs@[w]
                                == root.id;
                        assert(attr_edge_ok(self.nodes@, 0, self.nodes@[0].attrs@[w] as int));
                        assert(false);
                    }
                    assert(self.nodes@[0].children@.contains(root.id));
                }
                let m = crate::tree::node::find_first(&self.nodes[0].children, root.id);
                proof {
                    assert(node_ok(self.nodes@, 0));
                    crate::tree::shape::lemma_index_of_distinct(
                        self.nodes@[0].children@,
                        root.id,
                        m as int,
                    );
                    mm = m as int;
                }
                if m < slot {
                    slot = slot - 1;
                }
            }
            let h = Node { id: root.id };
            h.unlink_node(self);
        }
        let ghost d2 = *self;
        proof {
            assert(self.nodes@[root.id as int].parent is None);
            assert(!in_subtree(self.nodes@, root.id as int, 0)) by {
                if in_subtree(self.nodes@, root.id as int, 0) {
                    if root.id as int != 0 {
                        crate::tree::shape::lemma_subtree_parent(
                            self.nodes@,
                            root.id as int,
                            0,
                        );
                    }
                }
            }
            assert(self.nodes@[root.id as int].ntype != NodeType::DocumentNode);
            assert(self.nodes@[root.id as int].ntype != NodeType::AttributeNode);
            // the surviving prefix before the insert slot came from the
            // prefix before the old root's slot, so it holds no element
            if mm >= 0 {
                assert(d2.nodes@[0].children@ == d1.nodes@[0].children@.remove(mm));
            } else {
                assert(d2.nodes@[0].children@ == d1.nodes@[0].children@);
            }
            assert(slot <= d2.nodes@[0].children@.len());
            assert forall|j: int| 0 <= j < slot implies exists|i: int|
                0 <= i < (match old_root {
                    Some(ck) => ck.1 as int,
                    None => ks0.len() as int,
                }) && #[trigger] d2.nodes@[0].children@[j] == ks0[i] by {
                let bound: int = match old_root {
                    Some(ck) => ck.1 as int,
                    None => ks0.len() as int,
                };
                let j1: int = if mm >= 0 && j >= mm {
                    j + 1
                } else {
                    j
                };
                assert(d2.nodes@[0].children@[j] == d1.nodes@[0].children@[j1]);
                let j2: int = match old_root {
                    Some(ck) => if j1 >= ck.1 as int {
                        j1 + 1
                    } else {
                        j1
                    },
                    None => j1,
                };
                assert(d1.nodes@[0].children@[j1] == ks0[j2]);
                assert(j2 < bound || d2.nodes@[0].children@[j] == ks0[j2]) by {}
                if j2 < bound {
                    assert(d2.nodes@[0].children@[j] == ks0[j2] && 0 <= j2 < bound);
                } else {
                    // past the old slot only the moved root itself could
                    // stand, and it was removed
                    assert(false) by {
                        match old_root {
                            Some(ck) => {
                                assert(j1 >= ck.1 as int);
                                assert(mm >= 0 && j < mm);
                                assert(j1 == j);
                                assert(j < slot && slot <= ck.1 as int);
                            },
                            None => {},
                        }
                    }
                }
            }
        }
        self.attach_new(0, root.id, slot);
        proof {
            assert(self.nodes@[0].children@ =~= d2.nodes@[0].children@.insert(
                slot as int,
                root.id,
            ));
            d2.nodes@[0].children@.insert_ensures(slot as int, root.id);
            assert(self.nodes@[0].children@[slot as int] == root.id);
            assert(self.nodes@[0].children@.contains(root.id));
            // only the document node and the moved root changed in the
            // final step
            assert forall|j: int|
                0 <= j < d2.nodes@.len() && j != 0 && j != root.id implies self.nodes@[j]
                == #[trigger] d2.nodes@[j] by {}
            // node kinds survive all three steps
            assert forall|e: int|
                0 <= e < d0.nodes@.len() && e != 0 && e != root.id implies self.nodes@[e].ntype
                == #[trigger] d0.nodes@[e].ntype by {
                assert(d1.nodes@[e].ntype == d0.nodes@[e].ntype);
                assert(d2.nodes@[e].ntype == d1.nodes@[e].ntype);
            }
            // the new root becomes the first element child
            if d0.nodes@[root.id as int].ntype == NodeType::ElementNode {
                assert forall|j: int| 0 <= j < slot implies !(0 <= (#[trigger] self.nodes@[
                    0
                ].children@[j]) < self.nodes@.len() && self.nodes@[self.nodes@[
                    0
                ].children@[j] as int].ntype == NodeType::ElementNode) by {
                    assert(self.nodes@[0].children@[j] == d2.nodes@[0].children@[j]);
                    let bound: int = match old_root {
                        Some(ck) => ck.1 as int,
                        None => ks0.len() as int,
                    };
                    let i = choose|i: int|
                        0 <= i < bound && #[trigger] d2.nodes@[0].children@[j] == ks0[i];
                    assert(!(0 <= ks0[i] < d0.nodes@.len() && d0.nodes@[ks0[i] as int].ntype
                        == NodeType::ElementNode));
                    let e = ks0[i] as int;
                    assert(0 <= e < d0.nodes@.len()) by {
                        assert(node_ok(d0.nodes@, 0));
                        assert(child_edge_ok(d0.nodes@, 0, e));
                    }
                    assert(e != 0) by {
                        assert(node_ok(d0.nodes@, 0));
                        assert(child_edge_ok(d0.nodes@, 0, e));
                        assert(d0.nodes@[e].ntype != NodeType::DocumentNode);
                        assert(d0.nodes@[0].ntype == NodeType::DocumentNode);
                    }
                    if e != root.id {
                        assert(self.nodes@[e].ntype == d0.nodes@[e].ntype);
                    }
                }
                crate::tree::shape::lemma_first_elem_at(
                    self.nodes@,
                    self.nodes@[0].children@,
                    slot as int,
                );
            }
            // the old root, when distinct from the new one, is left detached
            match crate::tree::shape::first_elem_from(d0.nodes@, ks0, 0) {
                Some(r0) => {
                    if r0 != root.id {
                        assert(d1.nodes@[r0 as int].parent is None);
                        assert(d2.nodes@[r0 as int].parent is None);
                        assert(self.nodes@[r0 as int].parent is None);
                    }
                },
                None => {},
            }
            if d0.nodes@[root.id as int].parent is None && crate::tree::shape::first_elem_from(
                d0.nodes@,
                ks0,
                0,
            ) is None {
                assert(d2 == d0);
                assert(self.nodes@[0].children@ =~= d0.nodes@[0].children@.push(root.id));
                assert forall|j: int|
                    0 <= j < d0.nodes@.len() && j != 0 && j != root.id implies rec_eq_but_height(
                    #[trigger] self.nodes@[j],
                    d0.nodes@[j],
                ) by {}
            }
        }
    }

    /// Creates a detached node for a processing instruction.
    pub fn create_processing_instruction(&mut self, name: &str, content: &str) -> (r: Result<
        Node,
        (),
    >)
        requires
            old(self).wf(),
        ensures
            final(self).wf(),
            r is Ok <==> old(self).nodes@.len() < usize::MAX - 1,
            r is Err ==> *final(self) == *old(self),
            r matches Ok(n) ==> {
                &&& crate::tree::node::create_rel(*old(self), *final(self), n.id as int)
                &&& final(self).nodes@[n.id as int].ntype == NodeType::PiNode
                &&& final(self).nodes@[n.id as int].name@ == name@
                &&& final(self).nodes@[n.id as int].content@ == content@
            },
    {
        if self.nodes.len() >= usize::MAX - 1 {
            return Err(());
        }
        let rec = NodeRec {
            ntype: NodeType::PiNode,
            name: crate::tree::chars::str_to_chars(name),
            content: crate::tree::chars::str_to_chars(content),
            parent: None,
            children: Vec::new(),
            attrs: Vec::new(),
            ns_decls: Vec::new(),
            ns: None,
            alias_count: 1,
            height: Ghost(0),
        };
        let id = self.nodes.len();
        proof {
            crate::tree::shape::lemma_shape_push(self.nodes@, rec);
        }
        self.nodes.push(rec);
        Ok(Node { id })
    }
}

impl Document {
    /// Appends a fresh attribute record to the arena and lists it on
    /// element `e`.
    pub(crate) fn raw_add_attr(
        &mut self,
        e: usize,
        name: Vec<char>,
        value: Vec<char>,
        ns: Option<crate::tree::namespace::Namespace>,
    ) -> (a: usize)
        requires
            old(self).wf(),
            e < old(self).nodes@.len(),
            old(self).nodes@[e as int].ntype != NodeType::AttributeNode,
            old(self).nodes@.len() < usize::MAX - 1,
        ensures
            final(self).wf(),
            a == old(self).nodes@.len(),
            final(self).nodes@.len() == old(self).nodes@.len() + 1,
            final(self).guard == old(self).guard,
            forall|j: int|
                0 <= j < old(self).nodes@.len() && j != e ==> final(self).nodes@[j]
                    == #[trigger] old(self).nodes@[j],
            rec_eq_but_attrs(final(self).nodes@[e as int], old(self).nodes@[e as int]),
            final(self).nodes@[e as int].attrs@ == old(self).nodes@[e as int].attrs@.push(a),
            final(self).nodes@[a as int].ntype == NodeType::AttributeNode,
            final(self).nodes@[a as int].name@ == name@,
            final(self).nodes@[a as int].content@ == value@,
            crate::tree::shape::ns_view(final(self).nodes@[a as int].ns)
                == crate::tree::shape::ns_view(ns),
            final(self).nodes@[a as int].parent == Some(e),
            final(self).nodes@[a as int].children@.len() == 0,
            final(self).nodes@[a as int].attrs@.len() == 0,
            final(self).nodes@[a as int].alias_count == 0,
    {
        let ghost d0 = *self;
        let rec = NodeRec {
            ntype: NodeType::AttributeNode,
            name,
            content: value,
            parent: Some(e),
            children: Vec::new(),
            attrs: Vec::new(),
            ns_decls: Vec::new(),
            ns,
            alias_count: 0,
            height: Ghost(0),
        };
        let a = self.nodes.len();
        self.nodes.push(rec);
        self.nodes[e].attrs.push(a);
        proof {
            assert(self.nodes@[e as int].attrs@ =~= d0.nodes@[e as int].attrs@.push(a));
            crate::tree::shape::lemma_shape_add_attr(d0.nodes@, self.nodes@, e as int);
        }
        a
    }

    /// Imports a detached node from another document into this one: the
    /// node's records are copied into this arena at a fixed offset, the
    /// copy of the requested node comes back as a live handle, and a node
    /// still linked in its own document refuses.
    #[verifier::rlimit(100)]
    pub fn import_node(&mut self, other: &Document, node: &Node) -> (r: Result<
        Node,
        crate::error::XmlError,
    >)
        requires
            old(self).wf(),
            other.wf(),
            node.id < other.nodes@.len(),
        ensures
            final(self).guard == old(self).guard,
            final(self).wf(),
            (r is Err <==> (node.id == 0 || other.nodes@[node.id as int].parent is Some
                || old(self).nodes@.len() + other.nodes@.len() - 1 >= usize::MAX)),
            (node.id == 0 || other.nodes@[node.id as int].parent is Some) ==> r == Err::<
                Node,
                crate::error::XmlError,
            >(crate::error::XmlError::NotDetachedError),
            (!(node.id == 0 || other.nodes@[node.id as int].parent is Some) && old(
                self,
            ).nodes@.len() + other.nodes@.len() - 1 >= usize::MAX) ==> r == Err::<
                Node,
                crate::error::XmlError,
            >(crate::error::XmlError::AllocationFailure),
            r is Err ==> *final(self) == *old(self),
            r matches Ok(n) ==> {
                let off = old(self).nodes@.len() - 1;
                &&& n.id == node.id + off
                &&& final(self).nodes@.len() == old(self).nodes@.len() + other.nodes@.len() - 1
                &&& forall|j: int|
                    0 <= j < old(self).nodes@.len() ==> final(self).nodes@[j] == old(
                        self,
                    ).nodes@[j]
                &&& forall|i: int|
                    1 <= i < other.nodes@.len() ==> import_rel(
                        other.nodes@[i],
                        #[trigger] final(self).nodes@[i + off],
                        off,
                        if i == node.id {
                            1u64
                        } else {
                            0u64
                        },
                    )
            },
    {
        if node.id == 0 {
            return Err(crate::error::XmlError::NotDetachedError);
        }
        let linked = match other.nodes[node.id].parent {
            Some(_) => true,
            None => false,
        };
        if linked {
            return Err(crate::error::XmlError::NotDetachedError);
        }
        let olen = other.nodes.len();
        let base = self.nodes.len();
        if olen - 1 >= usize::MAX - base {
            return Err(crate::error::XmlError::AllocationFailure);
        }
        let off = base - 1;
        let ghost offi = off as int;
        let mut k: usize = 1;
        while k < olen
            invariant
                1 <= k <= olen,
                olen == other.nodes@.len(),
                base == old(self).nodes@.len(),
                off == base - 1,
                base >= 1,
                base + olen - 1 < usize::MAX,
                offi == off as int,
                other.wf(),
                old(self).wf(),
                node.id < olen,
                node.id != 0,
                self.guard == old(self).guard,
                self.nodes@.len() == base + k - 1,
                forall|j: int| 0 <= j < base ==> self.nodes@[j] == old(self).nodes@[j],
                forall|i: int|
                    1 <= i < k ==> import_rel(
                        other.nodes@[i],
                        #[trigger] self.nodes@[i + offi],
                        offi,
                        if i == node.id {
                            1u64
                        } else {
                            0u64
                        },
                    ),
            decreases olen - k,
        {
            proof {
                assert(node_ok(other.nodes@, k as int));
                assert forall|t: int|
                    0 <= t < other.nodes@[k as int].children@.len() implies #[trigger] other.nodes@[
                    k as int
                ].children@[t] + off <= usize::MAX by {
                    assert(child_edge_ok(
                        other.nodes@,
                        k as int,
                        other.nodes@[k as int].children@[t] as int,
                    ));
                }
                assert forall|t: int|
                    0 <= t < other.nodes@[k as int].attrs@.len() implies #[trigger] other.nodes@[
                    k as int
                ].attrs@[t] + off <= usize::MAX by {
                    assert(attr_edge_ok(
                        other.nodes@,
                        k as int,
                        other.nodes@[k as int].attrs@[t] as int,
                    ));
                }
            }
            let kids = shift_idx(&other.nodes[k].children, off);
            let ats = shift_idx(&other.nodes[k].attrs, off);
            let par: Option<usize> = match other.nodes[k].parent {
                Some(p) => if p == 0 {
                    None
                } else {
                    proof {
                        assert(node_ok(other.nodes@, k as int));
                        assert(p < olen);
                    }
                    Some(p + off)
                },
                None => None,
            };
            let al: u64 = if k == node.id {
                1
            } else {
                0
            };
            let rec = NodeRec {
                ntype: other.nodes[k].ntype,
                name: crate::tree::chars::copy_chars(&other.nodes[k].name),
                content: crate::tree::chars::copy_chars(&other.nodes[k].content),
                parent: par,
                children: kids,
                attrs: ats,
                ns_decls: copy_decls(&other.nodes[k].ns_decls),
                ns: (match &other.nodes[k].ns {
                    Some(d) => Some(d.duplicate()),
                    None => None,
                }),
                alias_count: al,
                height: Ghost(other.nodes@[k as int].height@),
            };
            self.nodes.push(rec);
            proof {
                assert(import_rel(other.nodes@[k as int], self.nodes@[k + offi], offi, al));
            }
            k = k + 1;
        }
        proof {
            let nn = self.nodes@;
            let on = other.nodes@;
            let basei = base as int;
            assert forall|d: int|
                basei <= d < nn.len() implies import_rel(
                on[d - basei + 1],
                #[trigger] nn[d],
                basei - 1,
                nn[d].alias_count,
            ) by {
                let i = d - offi;
                assert(import_rel(
                    on[i],
                    nn[i + offi],
                    offi,
                    if i == node.id as int {
                        1u64
                    } else {
                        0u64
                    },
                ));
            }
            assert forall|j: int| 0 <= j < nn.len() implies #[trigger] node_ok(nn, j) by {
                if j < basei {
                    lemma_import_node_ok_low(old(self).nodes@, nn, j);
                } else {
                    lemma_import_node_ok_high(on, nn, basei, j);
                }
            }
            assert(nn[0] == old(self).nodes@[0]);
            assert forall|i: int|
                1 <= i < nn.len() implies (#[trigger] nn[i].ntype) != NodeType::DocumentNode by {
                if i >= basei {
                    assert(import_rel(on[i - basei + 1], nn[i], basei - 1, nn[i].alias_count));
                }
            }
            assert forall|i: int|
                1 <= i < on.len() implies import_rel(
                on[i],
                #[trigger] nn[i + (old(self).nodes@.len() - 1)],
                old(self).nodes@.len() - 1,
                if i == node.id {
                    1u64
                } else {
                    0u64
                },
            ) by {
                assert(import_rel(
                    on[i],
                    nn[i + offi],
                    offi,
                    if i == node.id as int {
                        1u64
                    } else {
                        0u64
                    },
                ));
            }
        }
        Ok(Node { id: node.id + off })
    }

    /// Duplicates this document into a new instance: the copy holds the same
    /// tree record for record, with no live handle on any position.
    pub fn dup(&self) -> (r: Result<Document, ()>)
        requires
            self.wf(),
        ensures
            r matches Ok(d) && {
                &&& d.wf()
                &&& d.guard == self.guard
                &&& d.nodes@.len() == self.nodes@.len()
                &&& forall|i: int|
                    0 <= i < self.nodes@.len() ==> rec_eq_but_count(
                        #[trigger] d.nodes@[i],
                        self.nodes@[i],
                    ) && d.nodes@[i].alias_count == 0
            },
    {
        let mut out: Vec<NodeRec> = Vec::new();
        let n = self.nodes.len();
        let mut k: usize = 0;
        while k < n
            invariant
                k <= n,
                n == self.nodes@.len(),
                self.wf(),
                out@.len() == k,
                forall|i: int|
                    0 <= i < k ==> rec_eq_but_count(#[trigger] out@[i], self.nodes@[i])
                        && out@[i].alias_count == 0,
            decreases n - k,
        {
            out.push(copy_rec(&self.nodes[k]));
            k = k + 1;
        }
        let d = Document { nodes: out, guard: self.guard };
        proof {
            assert forall|j: int| 0 <= j < d.nodes@.len() implies same_shape_fields(
                #[trigger] self.nodes@[j],
                d.nodes@[j],
            ) by {}
            lemma_shape_same(self.nodes@, d.nodes@);
        }
        Ok(d)
    }

    /// Duplicates a source document into this one, which must still be
    /// empty; a document that already holds content refuses and is left
    /// unchanged.
    pub fn dup_from(&mut self, source: &Document) -> (r: Result<(), ()>)
        requires
            old(self).wf(),
            source.wf(),
        ensures
            r is Ok <==> old(self).nodes@.len() == 1,
            r is Err ==> *final(self) == *old(self),
            r is Ok ==> {
                &&& final(self).wf()
                &&& final(self).guard == old(self).guard
                &&& final(self).nodes@.len() == source.nodes@.len()
                &&& forall|i: int|
                    0 <= i < source.nodes@.len() ==> rec_eq_but_count(
                        #[trigger] final(self).nodes@[i],
                        source.nodes@[i],
                    ) && final(self).nodes@[i].alias_count == 0
            },
    {
        if self.nodes.len() != 1 {
            return Err(());
        }
        match source.dup() {
            Ok(d) => {
                self.nodes = d.nodes;
                proof {
                    assert forall|j: int| 0 <= j < self.nodes@.len() implies same_shape_fields(
                        #[trigger] source.nodes@[j],
                        self.nodes@[j],
                    ) by {}
                    lemma_shape_same(source.nodes@, self.nodes@);
                }
                Ok(())
            },
            Err(_) => Err(()),
        }
    }
}

/// A fresh copy of an index vector with every entry raised by `off`.
fn shift_idx(v: &Vec<usize>, off: usize) -> (r: Vec<usize>)
    requires
        forall|t: int| 0 <= t < v@.len() ==> #[trigger] v@[t] + off <= usize::MAX,
    ensures
        r@ == v@.map_values(|c: usize| (c + off) as usize),
{
    let mut out: Vec<usize> = Vec::new();
    let mut k: usize = 0;
    proof {
        assert(out@ =~= v@.subrange(0, 0).map_values(|c: usize| (c + off) as usize));
    }
    while k < v.len()
        invariant
            k <= v@.len(),
            forall|t: int| 0 <= t < v@.len() ==> #[trigger] v@[t] + off <= usize::MAX,
            out@ == v@.subrange(0, k as int).map_values(|c: usize| (c + off) as usize),
        decreases v@.len() - k,
    {
        out.push(v[k] + off);
        proof {
            assert(v@.subrange(0, k + 1 as int) =~= v@.subrange(0, k as int).push(v@[k as int]));
            assert(out@ =~= v@.subrange(0, k + 1 as int).map_values(
                |c: usize| (c + off) as usize,
            ));
        }
        k = k + 1;
    }
    proof {
        assert(v@.subrange(0, v@.len() as int) =~= v@);
    }
    out
}

/// A fresh copy of a namespace declaration list.
fn copy_decls(v: &Vec<crate::tree::namespace::Namespace>) -> (r: Vec<
    crate::tree::namespace::Namespace,
>)
    ensures
        crate::tree::shape::decls_view(r@) == crate::tree::shape::decls_view(v@),
{
    let mut out: Vec<crate::tree::namespace::Namespace> = Vec::new();
    let mut k: usize = 0;
    proof {
        assert(crate::tree::shape::decls_view(out@) =~= crate::tree::shape::decls_view(
            v@.subrange(0, 0),
        ));
    }
    while k < v.len()
        invariant
            k <= v@.len(),
            out@.len() == k,
            crate::tree::shape::decls_view(out@) == crate::tree::shape::decls_view(
                v@.subrange(0, k as int),
            ),
        decreases v@.len() - k,
    {
        let ghost pre = out@;
        let d = v[k].duplicate();
        let ghost dv = d@;
        out.push(d);
        proof {
            let s0 = v@.subrange(0, k as int);
            let s1 = v@.subrange(0, k + 1 as int);
            assert(s1 =~= s0.push(v@[k as int]));
            assert(out@ == pre.push(v@[k as int]).update(k as int, out@[k as int])) by {
                assert(out@ =~= pre.push(out@[k as int]));
                assert(pre.push(v@[k as int]).update(k as int, out@[k as int]) =~= pre.push(
                    out@[k as int],
                ));
            }
            assert forall|t: int|
                0 <= t < out@.len() implies #[trigger] crate::tree::shape::decls_view(out@)[t]
                == crate::tree::shape::decls_view(s1)[t] by {
                if t < k as int {
                    assert(out@[t] == pre[t]);
                    assert(crate::tree::shape::decls_view(pre)[t] == crate::tree::shape::decls_view(
                        s0,
                    )[t]);
                } else {
                    assert(out@[t]@ == dv);
                    assert(dv == v@[k as int]@);
                }
            }
            assert(crate::tree::shape::decls_view(out@) =~= crate::tree::shape::decls_view(s1));
        }
        k = k + 1;
    }
    proof {
        assert(v@.subrange(0, v@.len() as int) =~= v@);
    }
    out
}

/// A fresh copy of one arena record, equal to the original in every field
/// that is not the live alias count, which starts at zero.
fn copy_rec(r: &NodeRec) -> (out: NodeRec)
    ensures
        rec_eq_but_count(out, *r),
        out.alias_count == 0,
{
    let kids = shift_idx(&r.children, 0);
    let ats = shift_idx(&r.attrs, 0);
    proof {
        assert(r.children@.map_values(|c: usize| (c + 0usize) as usize) =~= r.children@);
        assert(r.attrs@.map_values(|c: usize| (c + 0usize) as usize) =~= r.attrs@);
    }
    NodeRec {
        ntype: r.ntype,
        name: crate::tree::chars::copy_chars(&r.name),
        content: crate::tree::chars::copy_chars(&r.content),
        parent: r.parent,
        children: kids,
        attrs: ats,
        ns_decls: copy_decls(&r.ns_decls),
        ns: (match &r.ns {
            Some(d) => Some(d.duplicate()),
            None => None,
        }),
        alias_count: 0,
        height: Ghost(r.height@),
    }
}

/// How the copy of a record imported at offset `off` relates to its source:
/// every field carries over, each tree edge is raised by the offset, a link
/// under the source's document root becomes a detached root, and the copy
/// starts with the given alias count.
pub open spec fn import_rel(src: NodeRec, dst: NodeRec, off: int, alias: u64) -> bool {
    &&& dst.ntype == src.ntype
    &&& dst.name@ == src.name@
    &&& dst.content@ == src.content@
    &&& dst.children@ == src.children@.map_values(|c: usize| (c + off) as usize)
    &&& dst.attrs@ == src.attrs@.map_values(|c: usize| (c + off) as usize)
    &&& dst.parent == (match src.parent {
        Some(p) => if p == 0 {
            None::<usize>
        } else {
            Some((p + off) as usize)
        },
        None => None::<usize>,
    })
    &&& crate::tree::shape::decls_view(dst.ns_decls@) == crate::tree::shape::decls_view(
        src.ns_decls@,
    )
    &&& crate::tree::shape::ns_view(dst.ns) == crate::tree::shape::ns_view(src.ns)
    &&& dst.alias_count == alias
    &&& dst.height@ == src.height@
}

/// An arena that begins with an unchanged well-formed prefix keeps every
/// record of that prefix well formed, whatever was appended after it.
proof fn lemma_import_node_ok_low(olds: Seq<NodeRec>, nn: Seq<NodeRec>, j: int)
    requires
        shape_ok(olds),
        0 <= j < olds.len(),
        nn.len() >= olds.len(),
        forall|t: int| 0 <= t < olds.len() ==> nn[t] == #[trigger] olds[t],
    ensures
        node_ok(nn, j),
{
    assert(node_ok(olds, j));
    assert forall|t: int|
        0 <= t < nn[j].children@.len() implies child_edge_ok(
        nn,
        j,
        #[trigger] nn[j].children@[t] as int,
    ) by {
        assert(child_edge_ok(olds, j, olds[j].children@[t] as int));
    }
    assert forall|t: int|
        0 <= t < nn[j].attrs@.len() implies attr_edge_ok(
        nn,
        j,
        #[trigger] nn[j].attrs@[t] as int,
    ) by {
        assert(attr_edge_ok(olds, j, olds[j].attrs@[t] as int));
    }
}

/// A record appended by an import at offset `base - 1` is well formed in
/// the combined arena: every one of its tree edges lands on another
/// imported copy, with the offset applied on both ends.
proof fn lemma_import_node_ok_high(on: Seq<NodeRec>, nn: Seq<NodeRec>, base: int, j: int)
    requires
        shape_ok(on),
        on.len() >= 1,
        on[0].ntype == NodeType::DocumentNode,
        base >= 1,
        nn.len() == base + on.len() - 1,
        nn.len() <= usize::MAX,
        base <= j < nn.len(),
        forall|d: int|
            base <= d < nn.len() ==> import_rel(
                on[d - base + 1],
                #[trigger] nn[d],
                base - 1,
                nn[d].alias_count,
            ),
    ensures
        node_ok(nn, j),
{
    let off = base - 1;
    let i = j - off;
    assert(1 <= i < on.len());
    assert(node_ok(on, i));
    assert(import_rel(on[i], nn[j], off, nn[j].alias_count));
    let src = on[i];
    let dst = nn[j];
    assert forall|t: int|
        0 <= t < dst.children@.len() implies child_edge_ok(
        nn,
        j,
        #[trigger] dst.children@[t] as int,
    ) by {
        let c = src.children@[t] as int;
        assert(dst.children@[t] == ((src.children@[t] + off) as usize));
        assert(child_edge_ok(on, i, c));
        assert(on[c].ntype != NodeType::DocumentNode);
        assert(c != 0);
        assert(import_rel(on[c], nn[c + off], off, nn[c + off].alias_count));
        assert(nn[c + off].parent == Some((i + off) as usize));
        assert(dst.children@[t] as int == c + off);
    }
    assert forall|k1: int, k2: int|
        0 <= k1 < k2 < dst.children@.len() implies dst.children@[k1] != dst.children@[k2] by {
        assert(dst.children@[k1] == ((src.children@[k1] + off) as usize));
        assert(dst.children@[k2] == ((src.children@[k2] + off) as usize));
        assert(child_edge_ok(on, i, src.children@[k1] as int));
        assert(child_edge_ok(on, i, src.children@[k2] as int));
        assert(src.children@[k1] != src.children@[k2]);
    }
    assert forall|t: int|
        0 <= t < dst.attrs@.len() implies attr_edge_ok(nn, j, #[trigger] dst.attrs@[t] as int) by {
        let a = src.attrs@[t] as int;
        assert(dst.attrs@[t] == ((src.attrs@[t] + off) as usize));
        assert(attr_edge_ok(on, i, a));
        assert(on[a].ntype == NodeType::AttributeNode);
        assert(a != 0);
        assert(import_rel(on[a], nn[a + off], off, nn[a + off].alias_count));
        assert(nn[a + off].parent == Some((i + off) as usize));
        assert(dst.attrs@[t] as int == a + off);
    }
    assert forall|k1: int, k2: int|
        0 <= k1 < k2 < dst.attrs@.len() implies dst.attrs@[k1] != dst.attrs@[k2] by {
        assert(dst.attrs@[k1] == ((src.attrs@[k1] + off) as usize));
        assert(dst.attrs@[k2] == ((src.attrs@[k2] + off) as usize));
        assert(attr_edge_ok(on, i, src.attrs@[k1] as int));
        assert(attr_edge_ok(on, i, src.attrs@[k2] as int));
        assert(src.attrs@[k1] != src.attrs@[k2]);
    }
    if dst.ntype == NodeType::AttributeNode {
        assert(src.children@.len() == 0 && src.attrs@.len() == 0);
        assert(dst.children@.len() == 0 && dst.attrs@.len() == 0);
    }
    if dst.parent is Some {
        assert(src.parent is Some);
        let p = src.parent->Some_0 as int;
        assert(p != 0);
        assert(0 <= p < on.len());
        assert(dst.parent == Some((p + off) as usize));
        assert(on[p].children@.contains(i as usize) || on[p].attrs@.contains(i as usize));
        assert(import_rel(on[p], nn[p + off], off, nn[p + off].alias_count));
        if on[p].children@.contains(i as usize) {
            let w = choose|w: int|
                0 <= w < on[p].children@.len() && on[p].children@[w] == i as usize;
            assert(nn[p + off].children@[w] == ((on[p].children@[w] + off) as usize));
            assert(nn[p + off].children@[w] == j as usize);
            assert(nn[p + off].children@.contains(j as usize));
        } else {
            let w = choose|w: int| 0 <= w < on[p].attrs@.len() && on[p].attrs@[w] == i as usize;
            assert(nn[p + off].attrs@[w] == ((on[p].attrs@[w] + off) as usize));
            assert(nn[p + off].attrs@[w] == j as usize);
            assert(nn[p + off].attrs@.contains(j as usize));
        }
    }
}

/// Set the guard threshold of a document: the largest live alias count that
/// still allows mutation is one less than this value.
pub fn set_node_rc_guard(doc: &mut Document, value: u64)
    requires
        old(doc).wf(),
    ensures
        final(doc).wf(),
        final(doc).guard == value,
        final(doc).nodes@ == old(doc).nodes@,
{
    doc.guard = value;
}

} // verus!
