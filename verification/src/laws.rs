use vstd::prelude::*;

use crate::tree::document::Document;
use crate::tree::node::Node;
use crate::tree::nodetype::NodeType;
use crate::tree::shape::child_edge_ok;
use crate::tree::shape::in_subtree;
use crate::tree::shape::lemma_in_subtree_bounds;
use crate::tree::shape::lemma_member_edge;
use crate::tree::shape::lemma_text_local;
use crate::tree::shape::node_ok;
use crate::tree::shape::rec_eq;
use crate::tree::shape::same_text_fields;
use crate::tree::shape::text_of;

verus! {

/// Wrapping one position twice hands out one and the same canonical handle,
/// and neither wrap creates a registry entry: the arena is as long as it
/// was.
pub proof fn lemma_wrap_canonical(
    d0: Document,
    d1: Document,
    d2: Document,
    p: int,
    n1: Node,
    n2: Node,
)
    requires
        Document::wrap_rel(d0, d1, p),
        n1.id == p,
        Document::wrap_rel(d1, d2, p),
        n2.id == p,
    ensures
        n1 == n2,
        d2.nodes@.len() == d0.nodes@.len(),
{
}

/// The mutability guard is exactly a threshold on the live alias count:
/// a mutation through a handle of `pos` is admitted when the count is
/// strictly below the guard value, and refused from the threshold upward.
/// Every mutating operation's contract ties its success to this predicate.
pub proof fn lemma_guard_gate(d: Document, pos: int)
    requires
        0 <= pos < d.nodes@.len(),
    ensures
        d.guard_pass(pos) <==> d.nodes@[pos].alias_count < d.guard,
        d.nodes@[pos].alias_count >= d.guard ==> !d.guard_pass(pos),
{
}

/// Raising the guard threshold strictly above a position's live alias count
/// admits the mutation that the lower threshold refused, without moving any
/// node.
pub proof fn lemma_guard_threshold_raise(d0: Document, d1: Document, pos: int)
    requires
        0 <= pos < d0.nodes@.len(),
        d0.nodes@[pos].alias_count >= d0.guard,
        d1.nodes@ == d0.nodes@,
        d1.guard > d0.nodes@[pos].alias_count,
    ensures
        !d0.guard_pass(pos),
        d1.guard_pass(pos),
{
}

/// Unlinking a node removes it from its former parent's child list, while
/// the text value of its whole subtree stays readable, unchanged.
pub proof fn lemma_unlink_keeps_content(d0: Document, d1: Document, n: int)
    requires
        d0.wf(),
        d1.wf(),
        0 <= n < d0.nodes@.len(),
        d0.nodes@[n].ntype != NodeType::AttributeNode,
        Document::detach_rel(d0, d1, n),
    ensures
        !d1.nodes@[d0.nodes@[n].parent->0 as int].children@.contains(n as usize),
        text_of(d1.nodes@, n) == text_of(d0.nodes@, n),
{
    let p = d0.nodes@[n].parent->0 as int;
    assert(node_ok(d0.nodes@, n));
    assert(0 <= p < d0.nodes@.len());
    lemma_member_edge(d0.nodes@, p, n as usize);
    // the node leaves the child list entirely: children lists hold no
    // duplicates, so removing its slot removes every occurrence
    let ks0 = d0.nodes@[p].children@;
    let idx = ks0.index_of(n as usize);
    assert(0 <= idx < ks0.len() && ks0[idx] == n as usize) by {
        assert(ks0.contains(n as usize));
    }
    assert(node_ok(d0.nodes@, p));
    assert(!d1.nodes@[p].children@.contains(n as usize)) by {
        if d1.nodes@[p].children@.contains(n as usize) {
            let m = choose|m: int|
                0 <= m < d1.nodes@[p].children@.len() && d1.nodes@[p].children@[m] == n as usize;
            if m < idx {
                assert(ks0[m] == n as usize);
            } else {
                assert(ks0[m + 1] == n as usize);
            }
        }
    }
    // the subtree text is untouched
    assert forall|j: int|
        0 <= j < d0.nodes@.len() && in_subtree(d0.nodes@, n, j) implies same_text_fields(
        #[trigger] d0.nodes@[j],
        d1.nodes@[j],
    ) by {
        if j == n {
        } else {
            assert(j != p) by {
                if j == p {
                    lemma_in_subtree_bounds(d0.nodes@, n, p);
                    assert(child_edge_ok(d0.nodes@, p, n));
                }
            }
            assert(rec_eq(d1.nodes@[j], d0.nodes@[j]));
        }
    }
    lemma_text_local(d0.nodes@, d1.nodes@, n);
}

/// Detaching a subtree and attaching it under another parent leaves its
/// text value unchanged, and the moved node stands in the new parent's
/// child list exactly once.
pub proof fn lemma_move_keeps_content(
    d0: Document,
    d1: Document,
    d2: Document,
    n: int,
    p2: int,
    slot: int,
)
    requires
        d0.wf(),
        d1.wf(),
        d2.wf(),
        0 <= n < d0.nodes@.len(),
        0 <= p2 < d1.nodes@.len(),
        d0.nodes@[n].ntype != NodeType::AttributeNode,
        Document::detach_rel(d0, d1, n),
        Document::attach_at_rel(d1, d2, p2, n, slot),
        0 <= slot <= d1.nodes@[p2].children@.len(),
    ensures
        text_of(d2.nodes@, n) == text_of(d0.nodes@, n),
        d2.nodes@[p2].children@.contains(n as usize),
        forall|k1: int, k2: int|
            0 <= k1 < k2 < d2.nodes@[p2].children@.len() ==> d2.nodes@[p2].children@[k1]
                != d2.nodes@[p2].children@[k2],
        d2.nodes@[n].parent == Some(p2 as usize),
{
    lemma_unlink_keeps_content(d0, d1, n);
    // the new parent cannot lie inside the moved subtree: its child list
    // grew, while subtree members other than the root are untouched
    assert(p2 != n || d2.nodes@[p2].children@.len() == d1.nodes@[p2].children@.len());
    d1.nodes@[p2].children@.insert_ensures(slot, n as usize);
    assert(d2.nodes@[p2].children@.len() == d1.nodes@[p2].children@.len() + 1);
    assert(p2 != n);
    assert forall|j: int|
        0 <= j < d1.nodes@.len() && in_subtree(d1.nodes@, n, j) implies same_text_fields(
        #[trigger] d1.nodes@[j],
        d2.nodes@[j],
    ) by {
        if j == n {
        } else {
            assert(j != p2) by {
                if j == p2 {
                    assert(d2.nodes@[j] == d1.nodes@[j]);
                }
            }
            assert(d2.nodes@[j] == d1.nodes@[j]);
        }
    }
    lemma_text_local(d1.nodes@, d2.nodes@, n);
    assert(d2.nodes@[p2].children@[slot] == n as usize);
    assert(d2.nodes@[p2].children@.contains(n as usize));
    assert(node_ok(d2.nodes@, p2));
}

/// Whether a query evaluation succeeds is settled by the expression and
/// the registered prefixes alone, never by what the query matches: the
/// evaluation entry points promise a result exactly when `xp_evals` holds,
/// so a query matching nothing still yields an empty handle list.
pub proof fn lemma_empty_match_is_no_error(s: Seq<char>, reg: Seq<
    crate::tree::namespace::NamespaceView,
>)
    ensures
        crate::xpath::xp_evals(s, reg) == (crate::xpath::xp_parses(s)
            && crate::xpath::steps_prefix_ok(crate::xpath::sp_xp_expr(s)->Some_0.2, reg)),
{
}

/// An expression the standalone compile probe rejects cannot evaluate
/// either: the probe and the evaluation entry points share one acceptance
/// predicate.
pub proof fn lemma_compile_gate(s: Seq<char>, reg: Seq<crate::tree::namespace::NamespaceView>)
    ensures
        !crate::xpath::xp_parses(s) ==> !crate::xpath::xp_evals(s, reg),
{
}

} // verus!
