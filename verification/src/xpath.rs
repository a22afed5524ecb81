//! The query functionality: compiled path expressions evaluated over a
//! document, yielding de-duplicated handles or literal strings.

use vstd::prelude::*;

use crate::error::XmlError;
use crate::parser::sp_name_end;
use crate::tree::chars::chars_to_string;
use crate::tree::chars::str_to_chars;
use crate::tree::document::Document;
use crate::tree::namespace::Namespace;
use crate::tree::namespace::NamespaceView;
use crate::tree::node::Node;
use crate::tree::nodetype::NodeType;
use crate::tree::shape::child_edge_ok;
use crate::tree::shape::node_ok;
use crate::tree::shape::ns_href_view;
use crate::tree::shape::preorder;
use crate::tree::shape::preorder_kids;
use crate::tree::shape::text_of;
use crate::tree::shape::NodeRec;

verus! {

/// The image of one parsed step: axis, node test and optional positional
/// predicate.
pub ghost struct StepV {
    /// Whether the step walks the descendant axis (else the child axis)
    pub desc: bool,
    /// Whether the step selects an attribute of the context node
    pub is_attr: bool,
    /// Whether the name test accepts any local name
    pub any: bool,
    /// The required namespace prefix (empty for none)
    pub prefix: Seq<char>,
    /// The required local name (ignored under `any`)
    pub name: Seq<char>,
    /// The positional predicate, if one is written
    pub pred: Option<int>,
}

/// A parsed positional predicate at `p`: its value and the position after
/// the closing bracket, if one is written there (at most six digits).
pub open spec fn sp_xp_pred(s: Seq<char>, p: int) -> Option<(Option<int>, int)> {
    if p < s.len() && s[p] == '[' {
        let d = sp_digits_end(s, p + 1);
        if d > p + 1 && d - (p + 1) <= 6 && d < s.len() && s[d] == ']' {
            Some((Some(digits_val(s, p + 1, d)), d + 1))
        } else {
            None
        }
    } else {
        Some((None, p))
    }
}

/// The end of the digit run starting at `p`.
pub open spec fn sp_digits_end(s: Seq<char>, p: int) -> int
    decreases s.len() - p
        when 0 <= p <= s.len()
{
    if p < s.len() && '0' <= s[p] && s[p] <= '9' {
        sp_digits_end(s, p + 1)
    } else {
        p
    }
}

/// The value of the digit run in `[lo, hi)`.
pub open spec fn digits_val(s: Seq<char>, lo: int, hi: int) -> int
    decreases hi - lo
        when lo <= hi
{
    if lo >= hi {
        0
    } else {
        digits_val(s, lo, hi - 1) * 10 + (s[hi - 1] as int - '0' as int)
    }
}

/// Ten to the given power.
pub open spec fn ten_pow(m: int) -> int
    decreases m
        when m >= 0
{
    if m <= 0 {
        1
    } else {
        10 * ten_pow(m - 1)
    }
}

/// Powers of ten grow.
proof fn lemma_ten_pow_mono(a: int, b: int)
    requires
        0 <= a <= b,
    ensures
        ten_pow(a) <= ten_pow(b),
        ten_pow(a) >= 1,
    decreases b,
{
    if b > 0 {
        if a == b {
            lemma_ten_pow_mono(a - 1, b - 1);
        } else {
            lemma_ten_pow_mono(a, b - 1);
        }
    }
}

/// The value of a digit run is bounded by ten to its width.
proof fn lemma_digits_val_bound(s: Seq<char>, lo: int, hi: int)
    requires
        lo <= hi,
        forall|m: int| lo <= m < hi ==> '0' <= (#[trigger] s[m]) <= '9',
    ensures
        0 <= digits_val(s, lo, hi) < ten_pow(hi - lo),
    decreases hi - lo,
{
    if lo < hi {
        lemma_digits_val_bound(s, lo, hi - 1);
    }
}

/// A parsed step at `p`, with the position after it.
pub open spec fn sp_xp_step(s: Seq<char>, p: int, desc: bool) -> Option<(StepV, int)> {
    if p < s.len() && s[p] == '@' {
        let n1 = sp_name_end(s, p + 1);
        if n1 > p + 1 {
            Some(
                (
                    StepV {
                        desc,
                        is_attr: true,
                        any: false,
                        prefix: Seq::empty(),
                        name: s.subrange(p + 1, n1),
                        pred: None,
                    },
                    n1,
                ),
            )
        } else {
            None
        }
    } else if p < s.len() && s[p] == '*' {
        match sp_xp_pred(s, p + 1) {
            Some((pr, p2)) => Some(
                (
                    StepV {
                        desc,
                        is_attr: false,
                        any: true,
                        prefix: Seq::empty(),
                        name: Seq::empty(),
                        pred: pr,
                    },
                    p2,
                ),
            ),
            None => None,
        }
    } else {
        let n1 = sp_name_end(s, p);
        if n1 == p {
            None
        } else if n1 < s.len() && s[n1] == ':' {
            if n1 + 1 < s.len() && s[n1 + 1] == '*' {
                match sp_xp_pred(s, n1 + 2) {
                    Some((pr, p2)) => Some(
                        (
                            StepV {
                                desc,
                                is_attr: false,
                                any: true,
                                prefix: s.subrange(p, n1),
                                name: Seq::empty(),
                                pred: pr,
                            },
                            p2,
                        ),
                    ),
                    None => None,
                }
            } else {
                let n2 = sp_name_end(s, n1 + 1);
                if n2 == n1 + 1 {
                    None
                } else {
                    match sp_xp_pred(s, n2) {
                        Some((pr, p2)) => Some(
                            (
                                StepV {
                                    desc,
                                    is_attr: false,
                                    any: false,
                                    prefix: s.subrange(p, n1),
                                    name: s.subrange(n1 + 1, n2),
                                    pred: pr,
                                },
                                p2,
                            ),
                        ),
                        None => None,
                    }
                }
            }
        } else {
            match sp_xp_pred(s, n1) {
                Some((pr, p2)) => Some(
                    (
                        StepV {
                            desc,
                            is_attr: false,
                            any: false,
                            prefix: Seq::empty(),
                            name: s.subrange(p, n1),
                            pred: pr,
                        },
                        p2,
                    ),
                ),
                None => None,
            }
        }
    }
}

/// The parsed steps from `p` on, each introduced by `/` or `//` (the first
/// one's separator is given), with the position after them.
pub open spec fn sp_xp_steps(s: Seq<char>, p: int, first_desc: bool) -> Option<(Seq<StepV>, int)>
    decreases s.len() - p
        when 0 <= p <= s.len()
{
    match sp_xp_step(s, p, first_desc) {
        Some((st, p2)) => if p < p2 <= s.len() {
            if p2 + 1 < s.len() && s[p2] == '/' && s[p2 + 1] == '/' {
                match sp_xp_steps(s, p2 + 2, true) {
                    Some((rest, p3)) => Some((seq![st] + rest, p3)),
                    None => None,
                }
            } else if p2 < s.len() && s[p2] == '/' {
                if p2 + 1 <= s.len() {
                    match sp_xp_steps(s, p2 + 1, false) {
                        Some((rest, p3)) => Some((seq![st] + rest, p3)),
                        None => None,
                    }
                } else {
                    None
                }
            } else {
                Some((seq![st], p2))
            }
        } else {
            None
        },
        None => None,
    }
}

/// A parsed path at `p`: whether it is absolute, its steps, and the
/// position after them.
pub open spec fn sp_xp_path(s: Seq<char>, p: int) -> Option<(bool, Seq<StepV>, int)> {
    if p + 1 < s.len() && s[p] == '/' && s[p + 1] == '/' {
        match sp_xp_steps(s, p + 2, true) {
            Some((sts, p2)) => Some((true, sts, p2)),
            None => None,
        }
    } else if p < s.len() && s[p] == '/' {
        match sp_xp_steps(s, p + 1, false) {
            Some((sts, p2)) => Some((true, sts, p2)),
            None => None,
        }
    } else {
        match sp_xp_steps(s, p, false) {
            Some((sts, p2)) => Some((false, sts, p2)),
            None => None,
        }
    }
}

/// A parsed expression: an optional string() wrapper around a path, taking
/// the whole input.
pub open spec fn sp_xp_expr(s: Seq<char>) -> Option<(bool, bool, Seq<StepV>)> {
    if s.len() >= 7 && s.subrange(0, 7) == seq!['s', 't', 'r', 'i', 'n', 'g', '('] {
        match sp_xp_path(s, 7) {
            Some((abs, sts, p2)) => if p2 + 1 == s.len() && s[p2] == ')' {
                Some((true, abs, sts))
            } else {
                None
            },
            None => None,
        }
    } else {
        match sp_xp_path(s, 0) {
            Some((abs, sts, p2)) => if p2 == s.len() {
                Some((false, abs, sts))
            } else {
                None
            },
            None => None,
        }
    }
}

/// Whether a query expression compiles under this engine's grammar.
pub open spec fn xp_parses(s: Seq<char>) -> bool {
    sp_xp_expr(s) is Some
}

/// The href registered for a prefix, if any; the last registration wins.
pub open spec fn xp_lookup(reg: Seq<NamespaceView>, prefix: Seq<char>) -> Option<Seq<char>>
    decreases reg.len(),
{
    if reg.len() == 0 {
        None
    } else if reg.last().prefix == prefix {
        Some(reg.last().href)
    } else {
        xp_lookup(reg.drop_last(), prefix)
    }
}

/// Whether every prefixed step of the list is registered.
pub open spec fn steps_prefix_ok(sts: Seq<StepV>, reg: Seq<NamespaceView>) -> bool {
    forall|k: int|
        0 <= k < sts.len() ==> ((#[trigger] sts[k]).prefix.len() > 0 ==> xp_lookup(
            reg,
            sts[k].prefix,
        ) is Some)
}

/// Whether position `t` passes the node test of a non-attribute step.
pub open spec fn test_match(
    nodes: Seq<NodeRec>,
    t: int,
    st: StepV,
    reg: Seq<NamespaceView>,
) -> bool {
    &&& nodes[t].ntype == NodeType::ElementNode
    &&& (st.any || nodes[t].name@ == st.name)
    &&& (if st.prefix.len() == 0 {
        st.any || nodes[t].ns is None
    } else {
        ns_href_view(nodes[t].ns) == xp_lookup(reg, st.prefix)
    })
}

/// Whether candidate `c` is selected by the step.
pub open spec fn sel_ok(
    nodes: Seq<NodeRec>,
    c: int,
    st: StepV,
    reg: Seq<NamespaceView>,
) -> bool {
    &&& 0 <= c < nodes.len()
    &&& if st.is_attr {
        nodes[c].name@ == st.name
    } else {
        test_match(nodes, c, st, reg)
    }
}

/// The candidate positions a step examines from context `s`: its
/// attributes, its strict descendants in document order, or its children.
pub open spec fn cand_of(nodes: Seq<NodeRec>, st: StepV, s: int) -> Seq<int> {
    if st.is_attr {
        nodes[s].attrs@.map_values(|u: usize| u as int)
    } else if st.desc {
        preorder(nodes, s).subrange(1, preorder(nodes, s).len() as int)
    } else {
        nodes[s].children@.map_values(|u: usize| u as int)
    }
}

/// The selected candidates from slot `k` on.
pub open spec fn filt_from(
    nodes: Seq<NodeRec>,
    cand: Seq<int>,
    k: int,
    st: StepV,
    reg: Seq<NamespaceView>,
) -> Seq<int>
    decreases cand.len() - k
        when 0 <= k <= cand.len()
{
    if k >= cand.len() {
        Seq::empty()
    } else {
        (if sel_ok(nodes, cand[k], st, reg) {
            seq![cand[k]]
        } else {
            Seq::empty()
        }) + filt_from(nodes, cand, k + 1, st, reg)
    }
}

/// The targets one step yields from one context position, its positional
/// predicate applied.
pub open spec fn step_targets(
    nodes: Seq<NodeRec>,
    st: StepV,
    s: int,
    reg: Seq<NamespaceView>,
) -> Seq<int> {
    let m = filt_from(nodes, cand_of(nodes, st, s), 0, st, reg);
    match st.pred {
        Some(n) => if 1 <= n <= m.len() {
            seq![m[n - 1]]
        } else {
            Seq::empty()
        },
        None => m,
    }
}

/// The targets one step yields from a list of context positions, in order.
pub open spec fn stage_eval(
    nodes: Seq<NodeRec>,
    st: StepV,
    ss: Seq<int>,
    reg: Seq<NamespaceView>,
) -> Seq<int>
    decreases ss.len(),
{
    if ss.len() == 0 {
        Seq::empty()
    } else {
        step_targets(nodes, st, ss[0], reg) + stage_eval(
            nodes,
            st,
            ss.subrange(1, ss.len() as int),
            reg,
        )
    }
}

/// The positions a step list yields from a starting context list.
pub open spec fn path_eval(
    nodes: Seq<NodeRec>,
    sts: Seq<StepV>,
    k: int,
    ss: Seq<int>,
    reg: Seq<NamespaceView>,
) -> Seq<int>
    decreases sts.len() - k
        when 0 <= k <= sts.len()
{
    if k >= sts.len() {
        ss
    } else {
        path_eval(nodes, sts, k + 1, stage_eval(nodes, sts[k], ss, reg), reg)
    }
}

/// The list with later repetitions of a value dropped.
pub open spec fn dedup_ints(s: Seq<int>) -> Seq<int>
    decreases s.len(),
{
    if s.len() == 0 {
        Seq::empty()
    } else {
        dedup_ints(s.drop_last()) + (if s.drop_last().contains(s.last()) {
            Seq::<int>::empty()
        } else {
            seq![s.last()]
        })
    }
}

/// De-duplication keeps exactly the members.
pub proof fn lemma_dedup_contains(s: Seq<int>, x: int)
    ensures
        dedup_ints(s).contains(x) <==> s.contains(x),
    decreases s.len(),
{
    if s.len() == 0 {
    } else {
        lemma_dedup_contains(s.drop_last(), x);
        assert(s.contains(x) <==> (s.drop_last().contains(x) || s.last() == x)) by {
            if s.contains(x) {
                let m = choose|m: int| 0 <= m < s.len() && s[m] == x;
                if m < s.len() - 1 {
                    assert(s.drop_last()[m] == x);
                }
            }
            if s.drop_last().contains(x) {
                let m = choose|m: int| 0 <= m < s.drop_last().len() && s.drop_last()[m] == x;
                assert(s[m] == x);
            }
            assert(s[s.len() - 1] == s.last());
        }
        if dedup_ints(s).contains(x) {
            let m = choose|m: int| 0 <= m < dedup_ints(s).len() && dedup_ints(s)[m] == x;
            if m < dedup_ints(s.drop_last()).len() {
                assert(dedup_ints(s.drop_last())[m] == x);
            }
        }
        if s.contains(x) {
            if s.drop_last().contains(x) {
                let m = choose|m: int|
                    0 <= m < dedup_ints(s.drop_last()).len() && dedup_ints(s.drop_last())[m]
                        == x;
                assert(dedup_ints(s)[m] == x);
            } else if s.last() == x {
                assert(dedup_ints(s)[dedup_ints(s).len() - 1] == x);
            }
        }
    }
}

/// The de-duplicated positions a parsed query yields: the whole evaluation.
pub open spec fn eval_result(
    nodes: Seq<NodeRec>,
    abs: bool,
    sts: Seq<StepV>,
    ctx: int,
    reg: Seq<NamespaceView>,
) -> Seq<int> {
    dedup_ints(
        path_eval(
            nodes,
            sts,
            0,
            seq![
                if abs {
                    0int
                } else {
                    ctx
                },
            ],
            reg,
        ),
    )
}

/// A compiled step.
struct XStep {
    desc: bool,
    is_attr: bool,
    any: bool,
    prefix: Vec<char>,
    name: Vec<char>,
    pred: Option<usize>,
}

impl XStep {
    /// The mathematical image of this step.
    spec fn view_of(&self) -> StepV {
        StepV {
            desc: self.desc,
            is_attr: self.is_attr,
            any: self.any,
            prefix: self.prefix@,
            name: self.name@,
            pred: match self.pred {
                Some(n) => Some(n as int),
                None => None,
            },
        }
    }
}

/// The images of a compiled step list.
spec fn xsteps_view(s: Seq<XStep>) -> Seq<StepV> {
    s.map_values(|x: XStep| x.view_of())
}

/// Scans to the end of a digit run.
fn e_digits_end(v: &Vec<char>, p: usize) -> (r: usize)
    requires
        p <= v@.len(),
    ensures
        r as int == sp_digits_end(v@, p as int),
        p <= r <= v@.len(),
{
    let n = v.len();
    let mut k = p;
    while k < n && '0' <= *vstd::std_specs::vec::vec_index(v, k) && *vstd::std_specs::vec::vec_index(v, k) <= '9'
        invariant
            p <= k <= n,
            n == v@.len(),
            sp_digits_end(v@, p as int) == sp_digits_end(v@, k as int),
        decreases n - k,
    {
        k = k + 1;
    }
    k
}

/// Reads a positional predicate at `p`, if one is written there.
fn e_xp_pred(v: &Vec<char>, p: usize) -> (r: Option<(Option<usize>, usize)>)
    requires
        p <= v@.len(),
    ensures
        match sp_xp_pred(v@, p as int) {
            Some(t) => r matches Some(x) && (match x.0 {
                Some(nn) => t.0 == Some(nn as int),
                None => t.0 is None,
            }) && x.1 as int == t.1 && p <= x.1 <= v@.len(),
            None => r is None,
        },
{
    let n = v.len();
    if p < n && v[p] == '[' {
        let d = e_digits_end(v, p + 1);
        if d > p + 1 && d - (p + 1) <= 6 && d < n && v[d] == ']' {
            proof {
                assert forall|m: int| p + 1 <= m < d implies '0' <= (#[trigger] v@[m])
                    <= '9' by {
                    lemma_digit_run(v@, p + 1, d as int, m);
                }
            }
            let mut val: usize = 0;
            let mut k = p + 1;
            while k < d
                invariant
                    p + 1 <= k <= d,
                    d <= v@.len(),
                    d - (p + 1) <= 6,
                    val == digits_val(v@, p + 1, k as int),
                    forall|m: int| p + 1 <= m < d ==> '0' <= (#[trigger] v@[m]) <= '9',
                decreases d - k,
            {
                proof {
                    lemma_digits_val_bound(v@, p + 1, k as int);
                    lemma_ten_pow_mono(k - (p + 1), 5);
                    assert(ten_pow(5) == 100000) by {
                        reveal_with_fuel(ten_pow, 7);
                    }
                    assert(val <= 100000);
                }
                val = val * 10 + (v[k] as usize - '0' as usize);
                k = k + 1;
            }
            Some((Some(val), d + 1))
        } else {
            None
        }
    } else {
        proof {
            assert(sp_xp_pred(v@, p as int) == Some((None::<int>, p as int)));
        }
        Some((None, p))
    }
}

/// Inside a digit run, every position holds a digit.
proof fn lemma_digit_run(s: Seq<char>, lo: int, hi: int, m: int)
    requires
        0 <= lo <= s.len(),
        hi == sp_digits_end(s, lo),
        lo <= m < hi,
    ensures
        '0' <= s[m] <= '9',
    decreases m - lo,
{
    if lo < s.len() && '0' <= s[lo] && s[lo] <= '9' {
        if m > lo {
            lemma_digit_run(s, lo + 1, hi, m);
        }
    }
}

/// Reads one step at `p`.
#[verifier::rlimit(60)]
fn e_xp_step(v: &Vec<char>, p: usize, desc: bool) -> (r: Option<(XStep, usize)>)
    requires
        p <= v@.len(),
    ensures
        match sp_xp_step(v@, p as int, desc) {
            Some(t) => r matches Some(x) && x.0.view_of() == t.0 && x.1 as int == t.1 && p < x.1
                <= v@.len(),
            None => r is None,
        },
{
    let n = v.len();
    if p < n && v[p] == '@' {
        let n1 = crate::parser::e_name_end(v, p + 1);
        if n1 > p + 1 {
            let name = crate::parser::copy_range(v, p + 1, n1);
            Some(
                (
                    XStep {
                        desc,
                        is_attr: true,
                        any: false,
                        prefix: Vec::new(),
                        name,
                        pred: None,
                    },
                    n1,
                ),
            )
        } else {
            None
        }
    } else if p < n && v[p] == '*' {
        match e_xp_pred(v, p + 1) {
            Some((pr, p2)) => Some(
                (
                    XStep {
                        desc,
                        is_attr: false,
                        any: true,
                        prefix: Vec::new(),
                        name: Vec::new(),
                        pred: pr,
                    },
                    p2,
                ),
            ),
            None => None,
        }
    } else {
        let n1 = crate::parser::e_name_end(v, p);
        if n1 == p {
            return None;
        }
        if n1 < n && v[n1] == ':' {
            if n1 + 1 < n && v[n1 + 1] == '*' {
                match e_xp_pred(v, n1 + 2) {
                    Some((pr, p2)) => {
                        let prefix = crate::parser::copy_range(v, p, n1);
                        Some(
                            (
                                XStep {
                                    desc,
                                    is_attr: false,
                                    any: true,
                                    prefix,
                                    name: Vec::new(),
                                    pred: pr,
                                },
                                p2,
                            ),
                        )
                    },
                    None => None,
                }
            } else {
                let n2 = crate::parser::e_name_end(v, n1 + 1);
                if n2 == n1 + 1 {
                    return None;
                }
                match e_xp_pred(v, n2) {
                    Some((pr, p2)) => {
                        let prefix = crate::parser::copy_range(v, p, n1);
                        let name = crate::parser::copy_range(v, n1 + 1, n2);
                        Some(
                            (
                                XStep {
                                    desc,
                                    is_attr: false,
                                    any: false,
                                    prefix,
                                    name,
                                    pred: pr,
                                },
                                p2,
                            ),
                        )
                    },
                    None => None,
                }
            }
        } else {
            match e_xp_pred(v, n1) {
                Some((pr, p2)) => {
                    let name = crate::parser::copy_range(v, p, n1);
                    Some(
                        (
                            XStep {
                                desc,
                                is_attr: false,
                                any: false,
                                prefix: Vec::new(),
                                name,
                                pred: pr,
                            },
                            p2,
                        ),
                    )
                },
                None => None,
            }
        }
    }
}

/// Reads the steps from `p` on.
fn e_xp_steps(v: &Vec<char>, p: usize, first_desc: bool) -> (r: Option<(Vec<XStep>, usize)>)
    requires
        p <= v@.len(),
    ensures
        match sp_xp_steps(v@, p as int, first_desc) {
            Some(t) => r matches Some(x) && xsteps_view(x.0@) == t.0 && x.1 as int == t.1 && x.1
                <= v@.len(),
            None => r is None,
        },
    decreases v@.len() - p,
{
    let n = v.len();
    let (st, p2) = match e_xp_step(v, p, first_desc) {
        Some(t) => t,
        None => {
            return None;
        },
    };
    if n - p2 >= 2 && v[p2] == '/' && v[p2 + 1] == '/' {
        let (mut rest, p3) = match e_xp_steps(v, p2 + 2, true) {
            Some(t) => t,
            None => {
                return None;
            },
        };
        let ghost rv = rest@;
        rest.insert(0, st);
        proof {
            assert(xsteps_view(rest@) =~= seq![rest@[0].view_of()] + xsteps_view(rv));
        }
        Some((rest, p3))
    } else if p2 < n && v[p2] == '/' {
        let (mut rest, p3) = match e_xp_steps(v, p2 + 1, false) {
            Some(t) => t,
            None => {
                return None;
            },
        };
        let ghost rv = rest@;
        rest.insert(0, st);
        proof {
            assert(xsteps_view(rest@) =~= seq![rest@[0].view_of()] + xsteps_view(rv));
        }
        Some((rest, p3))
    } else {
        let mut one: Vec<XStep> = Vec::new();
        one.push(st);
        proof {
            assert(xsteps_view(one@) =~= seq![one@[0].view_of()]);
        }
        Some((one, p2))
    }
}

/// Reads a whole expression.
fn e_xp_expr(v: &Vec<char>) -> (r: Option<(bool, bool, Vec<XStep>)>)
    ensures
        match sp_xp_expr(v@) {
            Some(t) => r matches Some(x) && x.0 == t.0 && x.1 == t.1 && xsteps_view(x.2@)
                == t.2,
            None => r is None,
        },
{
    let n = v.len();
    proof {
        reveal_strlit("string(");
        assert("string("@ =~= seq!['s', 't', 'r', 'i', 'n', 'g', '(']);
    }
    if crate::parser::lit_at(v, 0, "string(") {
        let pr = e_xp_path(v, 7);
        match pr {
            Some((abs, sts, p2)) => {
                if p2 < n && n - p2 == 1 && v[p2] == ')' {
                    Some((true, abs, sts))
                } else {
                    None
                }
            },
            None => None,
        }
    } else {
        let pr = e_xp_path(v, 0);
        match pr {
            Some((abs, sts, p2)) => {
                if p2 == n {
                    Some((false, abs, sts))
                } else {
                    None
                }
            },
            None => None,
        }
    }
}

/// Reads a path at `p`.
fn e_xp_path(v: &Vec<char>, p: usize) -> (r: Option<(bool, Vec<XStep>, usize)>)
    requires
        p <= v@.len(),
    ensures
        match sp_xp_path(v@, p as int) {
            Some(t) => r matches Some(x) && x.0 == t.0 && xsteps_view(x.1@) == t.1 && x.2 as int
                == t.2 && x.2 <= v@.len(),
            None => r is None,
        },
{
    let n = v.len();
    if n - p >= 2 && v[p] == '/' && v[p + 1] == '/' {
        match e_xp_steps(v, p + 2, true) {
            Some((sts, p2)) => Some((true, sts, p2)),
            None => None,
        }
    } else if p < n && v[p] == '/' {
        match e_xp_steps(v, p + 1, false) {
            Some((sts, p2)) => Some((true, sts, p2)),
            None => None,
        }
    } else {
        match e_xp_steps(v, p, false) {
            Some((sts, p2)) => Some((false, sts, p2)),
            None => None,
        }
    }
}

/// Collects the positions of the subtree at `i` in document order.
pub(crate) fn collect_preorder(doc: &Document, i: usize, out: &mut Vec<usize>)
    requires
        doc.wf(),
        i < doc.nodes@.len(),
    ensures
        final(out)@.map_values(|u: usize| u as int) == old(out)@.map_values(|u: usize| u as int)
            + preorder(doc.nodes@, i as int),
    decreases doc.nodes@[i as int].height@,
{
    out.push(i);
    let ghost mid = out@;
    let n = doc.nodes[i].children.len();
    let mut k: usize = 0;
    proof {
        assert(preorder_kids(doc.nodes@, i as int, n as int) =~= Seq::<int>::empty());
        assert(mid.map_values(|u: usize| u as int) =~= old(out)@.map_values(|u: usize| u as int)
            + seq![i as int]);
    }
    while k < n
        invariant
            doc.wf(),
            i < doc.nodes@.len(),
            k <= n,
            n == doc.nodes@[i as int].children@.len(),
            out@.map_values(|u: usize| u as int) + preorder_kids(doc.nodes@, i as int, k as int)
                == old(out)@.map_values(|u: usize| u as int) + preorder(doc.nodes@, i as int),
        decreases n - k,
    {
        proof {
            assert(node_ok(doc.nodes@, i as int));
            assert(child_edge_ok(
                doc.nodes@,
                i as int,
                doc.nodes@[i as int].children@[k as int] as int,
            ));
        }
        let ghost pre = out@;
        let c = doc.nodes[i].children[k];
        collect_preorder(doc, c, out);
        proof {
            assert(preorder_kids(doc.nodes@, i as int, k as int) == preorder(
                doc.nodes@,
                c as int,
            ) + preorder_kids(doc.nodes@, i as int, k + 1));
            assert((pre.map_values(|u: usize| u as int) + preorder(doc.nodes@, c as int))
                + preorder_kids(doc.nodes@, i as int, k + 1) =~= pre.map_values(
                |u: usize| u as int,
            ) + (preorder(doc.nodes@, c as int) + preorder_kids(doc.nodes@, i as int, k + 1)));
        }
        k = k + 1;
    }
    proof {
        assert(out@.map_values(|u: usize| u as int) + preorder_kids(
            doc.nodes@,
            i as int,
            n as int,
        ) =~= out@.map_values(|u: usize| u as int));
    }
}

/// Whether a list holds a value.
fn vec_has(v: &Vec<usize>, x: usize) -> (r: bool)
    ensures
        r == v@.contains(x),
{
    let n = v.len();
    let mut k: usize = 0;
    while k < n
        invariant
            k <= n,
            n == v@.len(),
            forall|j: int| 0 <= j < k ==> v@[j] != x,
        decreases n - k,
    {
        if v[k] == x {
            return true;
        }
        k = k + 1;
    }
    false
}

/// Whether candidate `c` is selected by the compiled step.
fn e_sel_ok(doc: &Document, c: usize, st: &XStep, reg: &Vec<Namespace>) -> (r: bool)
    requires
        doc.wf(),
    ensures
        r == sel_ok(doc.nodes@, c as int, st.view_of(), crate::parser::scope_view(reg@)),
{
    if c >= doc.nodes.len() {
        return false;
    }
    if st.is_attr {
        return crate::tree::chars::eq_chars(&doc.nodes[c].name, &st.name);
    }
    if doc.nodes[c].ntype != NodeType::ElementNode {
        return false;
    }
    if !st.any && !crate::tree::chars::eq_chars(&doc.nodes[c].name, &st.name) {
        return false;
    }
    if st.prefix.len() == 0 {
        st.any || doc.nodes[c].ns.is_none()
    } else {
        match e_xp_lookup(reg, &st.prefix) {
            Some(href) => match &doc.nodes[c].ns {
                Some(d) => crate::tree::chars::eq_chars(&d.href, &href),
                None => false,
            },
            None => doc.nodes[c].ns.is_none(),
        }
    }
}

/// Looks a prefix up in the registered pairs; the last registration wins.
fn e_xp_lookup(reg: &Vec<Namespace>, prefix: &Vec<char>) -> (r: Option<Vec<char>>)
    ensures
        match xp_lookup(crate::parser::scope_view(reg@), prefix@) {
            Some(h) => r matches Some(x) && x@ == h,
            None => r is None,
        },
{
    let n = reg.len();
    proof {
        assert(crate::parser::scope_view(reg@).subrange(0, n as int) =~= crate::parser::scope_view(
            reg@,
        ));
    }
    let mut k = n;
    while k > 0
        invariant
            k <= n,
            n == reg@.len(),
            xp_lookup(crate::parser::scope_view(reg@), prefix@) == xp_lookup(
                crate::parser::scope_view(reg@).subrange(0, k as int),
                prefix@,
            ),
        decreases k,
    {
        proof {
            let sv = crate::parser::scope_view(reg@).subrange(0, k as int);
            assert(sv.len() == k);
            assert(sv.last() == reg@[k - 1]@);
            assert(sv.drop_last() =~= crate::parser::scope_view(reg@).subrange(0, k - 1));
        }
        if crate::tree::chars::eq_chars(&reg[k - 1].prefix, prefix) {
            return Some(reg[k - 1].href_chars());
        }
        k = k - 1;
    }
    proof {
        assert(crate::parser::scope_view(reg@).subrange(0, 0) =~= Seq::<NamespaceView>::empty());
    }
    None
}

/// The targets one compiled step yields from one context position.
fn e_step_targets(doc: &Document, st: &XStep, s: usize, reg: &Vec<Namespace>) -> (r: Vec<usize>)
    requires
        doc.wf(),
        s < doc.nodes@.len(),
    ensures
        r@.map_values(|u: usize| u as int) == step_targets(
            doc.nodes@,
            st.view_of(),
            s as int,
            crate::parser::scope_view(reg@),
        ),
{
    let ghost regv = crate::parser::scope_view(reg@);
    let ghost stv = st.view_of();
    let mut cand: Vec<usize> = Vec::new();
    if st.is_attr {
        crate::tree::chars::extend_chars_usize(&mut cand, &doc.nodes[s].attrs);
        proof {
            assert(cand@.map_values(|u: usize| u as int) =~= cand_of(doc.nodes@, stv, s as int));
        }
    } else if st.desc {
        let mut walk: Vec<usize> = Vec::new();
        collect_preorder(doc, s, &mut walk);
        let wn = walk.len();
        let mut k: usize = 1;
        proof {
            assert(walk@.map_values(|u: usize| u as int) =~= preorder(doc.nodes@, s as int));
            assert(preorder(doc.nodes@, s as int)[0] == s as int);
            assert(walk@.map_values(|u: usize| u as int).len() == walk@.len());
        }
        while k < wn
            invariant
                k >= 1,
                k <= wn || wn == 0,
                wn == walk@.len(),
                walk@.map_values(|u: usize| u as int) == preorder(doc.nodes@, s as int),
                cand@.map_values(|u: usize| u as int) =~= preorder(doc.nodes@, s as int).subrange(
                    1,
                    k as int,
                ),
            decreases wn - k,
        {
            let ghost prec = cand@;
            cand.push(walk[k]);
            proof {
                assert(walk@.map_values(|u: usize| u as int)[k as int] == walk@[k as int] as int);
                assert(cand@.map_values(|u: usize| u as int) =~= prec.map_values(
                    |u: usize| u as int,
                ).push(walk@[k as int] as int));
                assert(cand@.map_values(|u: usize| u as int) =~= preorder(
                    doc.nodes@,
                    s as int,
                ).subrange(1, k + 1 as int));
            }
            k = k + 1;
        }
        proof {
            if wn == 0 {
                assert(preorder(doc.nodes@, s as int).len() == 0);
                assert(false);
            }
            assert(cand@.map_values(|u: usize| u as int) =~= cand_of(doc.nodes@, stv, s as int));
        }
    } else {
        crate::tree::chars::extend_chars_usize(&mut cand, &doc.nodes[s].children);
        proof {
            assert(cand@.map_values(|u: usize| u as int) =~= cand_of(doc.nodes@, stv, s as int));
        }
    }
    // filter by the node test
    let ghost cs = cand@.map_values(|u: usize| u as int);
    let cn = cand.len();
    let mut m: Vec<usize> = Vec::new();
    let mut k: usize = 0;
    proof {
        assert(filt_from(doc.nodes@, cs, cn as int, stv, regv) =~= Seq::<int>::empty());
    }
    while k < cn
        invariant
            doc.wf(),
            k <= cn,
            cn == cand@.len(),
            cs == cand@.map_values(|u: usize| u as int),
            m@.map_values(|u: usize| u as int) + filt_from(doc.nodes@, cs, k as int, stv, regv)
                == filt_from(doc.nodes@, cs, 0, stv, regv),
            stv == st.view_of(),
            regv == crate::parser::scope_view(reg@),
        decreases cn - k,
    {
        let ghost prem = m@;
        let c = cand[k];
        if e_sel_ok(doc, c, st, reg) {
            m.push(c);
        }
        proof {
            assert(cs[k as int] == c as int);
            assert(filt_from(doc.nodes@, cs, k as int, stv, regv) == (if sel_ok(
                doc.nodes@,
                c as int,
                stv,
                regv,
            ) {
                seq![c as int]
            } else {
                Seq::<int>::empty()
            }) + filt_from(doc.nodes@, cs, k + 1, stv, regv));
            assert(m@.map_values(|u: usize| u as int) + filt_from(
                doc.nodes@,
                cs,
                k + 1,
                stv,
                regv,
            ) =~= prem.map_values(|u: usize| u as int) + ((if sel_ok(
                doc.nodes@,
                c as int,
                stv,
                regv,
            ) {
                seq![c as int]
            } else {
                Seq::<int>::empty()
            }) + filt_from(doc.nodes@, cs, k + 1, stv, regv)));
        }
        k = k + 1;
    }
    proof {
        assert(m@.map_values(|u: usize| u as int) =~= filt_from(doc.nodes@, cs, 0, stv, regv));
    }
    // apply the positional predicate
    match st.pred {
        Some(nn) => {
            if 1 <= nn && nn <= m.len() {
                let mut one: Vec<usize> = Vec::new();
                one.push(m[nn - 1]);
                proof {
                    assert(one@.map_values(|u: usize| u as int) =~= seq![
                        m@.map_values(|u: usize| u as int)[nn - 1],
                    ]);
                }
                one
            } else {
                let empty: Vec<usize> = Vec::new();
                proof {
                    assert(empty@.map_values(|u: usize| u as int) =~= Seq::<int>::empty());
                }
                empty
            }
        },
        None => m,
    }
}

/// The result of evaluating a query: a de-duplicated list of positions in
/// document order, together with the string value of its first node (or
/// the computed string for a string() expression).
pub struct Object {
    /// Whether the expression computed a string rather than a node set
    pub is_string: bool,
    /// The selected positions, in document order, each at most once
    pub nodes: Vec<usize>,
    /// The string value of the result
    pub sval: Vec<char>,
}

impl Object {
    /// The number of nodes in the result set (none for a string result).
    pub fn get_number_of_nodes(&self) -> (r: usize)
        ensures
            r == (if self.is_string {
                0int
            } else {
                self.nodes@.len() as int
            }),
    {
        if self.is_string {
            0
        } else {
            self.nodes.len()
        }
    }

    /// The string form of the result: the computed string, or the string
    /// value of the first node of the set.
    pub fn to_string(&self) -> (r: String)
        ensures
            r@ == self.sval@,
    {
        chars_to_string(&self.sval)
    }

    /// The result set as a vector of handles; every one is wrapped and so
    /// gains one live alias.
    pub fn get_nodes_as_vec(&self, doc: &mut Document) -> (r: Vec<Node>)
        requires
            old(doc).wf(),
            forall|k: int| 0 <= k < self.nodes@.len() ==> (#[trigger] self.nodes@[k])
                < old(doc).nodes@.len(),
        ensures
            final(doc).wf(),
            r@.len() == self.nodes@.len(),
            forall|k: int| 0 <= k < r@.len() ==> (#[trigger] r@[k]).id == self.nodes@[k],
    {
        let n = self.nodes.len();
        let mut out: Vec<Node> = Vec::new();
        let mut k: usize = 0;
        while k < n
            invariant
                doc.wf(),
                k <= n,
                n == self.nodes@.len(),
                forall|m: int| 0 <= m < n ==> (#[trigger] self.nodes@[m]) < doc.nodes@.len(),
                out@.len() == k,
                forall|m: int| 0 <= m < k ==> (#[trigger] out@[m]).id == self.nodes@[m],
            decreases n - k,
        {
            let ghost pre = *doc;
            let h = doc.wrap(self.nodes[k]);
            out.push(h);
            proof {
                assert forall|m: int| 0 <= m < n implies (#[trigger] self.nodes@[m])
                    < doc.nodes@.len() by {}
            }
            k = k + 1;
        }
        out
    }

    /// The result set as a vector of read-only handles.
    pub fn get_readonly_nodes_as_vec(&self) -> (r: Vec<crate::readonly::RoNode>)
        ensures
            r@.len() == self.nodes@.len(),
            forall|k: int| 0 <= k < r@.len() ==> (#[trigger] r@[k]).0 == self.nodes@[k],
    {
        let n = self.nodes.len();
        let mut out: Vec<crate::readonly::RoNode> = Vec::new();
        let mut k: usize = 0;
        while k < n
            invariant
                k <= n,
                n == self.nodes@.len(),
                out@.len() == k,
                forall|m: int| 0 <= m < k ==> (#[trigger] out@[m]).0 == self.nodes@[m],
            decreases n - k,
        {
            out.push(crate::readonly::RoNode(self.nodes[k]));
            k = k + 1;
        }
        out
    }

    /// The string values of the result set's nodes.
    pub fn get_nodes_as_str(&self, doc: &Document) -> (r: Vec<String>)
        requires
            doc.wf(),
            forall|k: int| 0 <= k < self.nodes@.len() ==> (#[trigger] self.nodes@[k])
                < doc.nodes@.len(),
        ensures
            r@.len() == self.nodes@.len(),
            forall|k: int| 0 <= k < r@.len() ==> (#[trigger] r@[k])@ == text_of(
                doc.nodes@,
                self.nodes@[k] as int,
            ),
    {
        let n = self.nodes.len();
        let mut out: Vec<String> = Vec::new();
        let mut k: usize = 0;
        while k < n
            invariant
                doc.wf(),
                k <= n,
                n == self.nodes@.len(),
                forall|m: int| 0 <= m < n ==> (#[trigger] self.nodes@[m]) < doc.nodes@.len(),
                out@.len() == k,
                forall|m: int| 0 <= m < k ==> (#[trigger] out@[m])@ == text_of(
                    doc.nodes@,
                    self.nodes@[m] as int,
                ),
            decreases n - k,
        {
            let h = Node { id: self.nodes[k] };
            out.push(h.get_content(doc));
            k = k + 1;
        }
        out
    }
}

/// A query context: the registered prefix bindings and an optional context
/// node for relative paths.
#[derive(Clone)]
pub struct Context {
    /// The registered prefix bindings, in registration order
    pub registered: Vec<Namespace>,
    /// The context position for relative paths (the document node when not
    /// set)
    pub context_node: Option<usize>,
}

/// Whether an expression evaluates under the given registry: it must
/// compile and every prefix in it must be registered.
pub open spec fn xp_evals(s: Seq<char>, reg: Seq<NamespaceView>) -> bool {
    &&& xp_parses(s)
    &&& steps_prefix_ok(sp_xp_expr(s)->Some_0.2, reg)
}

impl Context {
    /// Create a query context for a document.
    pub fn new(_doc: &Document) -> (r: Result<Context, ()>)
        ensures
            r matches Ok(c) && c.registered@.len() == 0 && c.context_node is None,
    {
        Ok(Context { registered: Vec::new(), context_node: None })
    }

    /// Create a query context scoped to the document owning the given node;
    /// the context starts at the root level.
    pub fn from_node(_node: &Node) -> (r: Result<Context, ()>)
        ensures
            r matches Ok(c) && c.registered@.len() == 0 && c.context_node is None,
    {
        Ok(Context { registered: Vec::new(), context_node: None })
    }

    /// Register a prefix-href pair on the context.  An empty prefix is
    /// rejected.
    pub fn register_namespace(&mut self, prefix: &str, href: &str) -> (r: Result<(), XmlError>)
        ensures
            r is Ok <==> prefix@.len() > 0,
            r matches Err(e) ==> e == XmlError::InvalidNamespaceError && *final(self) == *old(
                self,
            ),
            r is Ok ==> {
                &&& final(self).context_node == old(self).context_node
                &&& crate::parser::scope_view(final(self).registered@) == crate::parser::scope_view(
                    old(self).registered@,
                ).push(NamespaceView { prefix: prefix@, href: href@ })
            },
    {
        if prefix.is_empty() {
            return Err(XmlError::InvalidNamespaceError);
        }
        let ghost pre = self.registered@;
        self.registered.push(
            Namespace { prefix: str_to_chars(prefix), href: str_to_chars(href) },
        );
        proof {
            assert(crate::parser::scope_view(self.registered@) =~= crate::parser::scope_view(
                pre,
            ).push(NamespaceView { prefix: prefix@, href: href@ }));
        }
        Ok(())
    }

    /// Localize the context to a specific node.
    pub fn set_context_node(&mut self, node: &Node) -> (r: Result<(), XmlError>)
        ensures
            r is Ok,
            final(self).registered@ == old(self).registered@,
            final(self).context_node == Some(node.id),
    {
        self.context_node = Some(node.id);
        Ok(())
    }

    /// Evaluate a query expression against a document, from the context
    /// node if one is set.
    pub fn evaluate(&self, doc: &Document, xpath: &str) -> (r: Result<Object, XmlError>)
        requires
            doc.wf(),
            match self.context_node {
                Some(c) => c < doc.nodes@.len(),
                None => true,
            },
        ensures
            r is Ok <==> xp_evals(xpath@, crate::parser::scope_view(self.registered@)),
            r matches Err(e) ==> e == XmlError::CompileOrRuntimeQueryError,
            r matches Ok(o) ==> {
                let t = sp_xp_expr(xpath@)->Some_0;
                let ctx = match self.context_node {
                    Some(c) => c as int,
                    None => 0int,
                };
                let er = eval_result(
                    doc.nodes@,
                    t.1,
                    t.2,
                    ctx,
                    crate::parser::scope_view(self.registered@),
                );
                &&& o.is_string == t.0
                &&& o.nodes@.map_values(|u: usize| u as int) == (if t.0 {
                    Seq::<int>::empty()
                } else {
                    er
                })
                &&& o.sval@ == (if er.len() > 0 {
                    text_of(doc.nodes@, er[0])
                } else {
                    Seq::<char>::empty()
                })
                &&& forall|k: int|
                    0 <= k < o.nodes@.len() ==> (#[trigger] o.nodes@[k]) < doc.nodes@.len()
            },
    {
        let ctx: usize = match self.context_node {
            Some(c) => c,
            None => 0,
        };
        eval_expr(doc, xpath, &self.registered, ctx)
    }

    /// Evaluate a query expression from a given context node.
    pub fn node_evaluate(&self, doc: &Document, xpath: &str, node: &Node) -> (r: Result<
        Object,
        XmlError,
    >)
        requires
            doc.wf(),
            node.id < doc.nodes@.len(),
        ensures
            r is Ok <==> xp_evals(xpath@, crate::parser::scope_view(self.registered@)),
            r matches Err(e) ==> e == XmlError::CompileOrRuntimeQueryError,
            r matches Ok(o) ==> {
                let t = sp_xp_expr(xpath@)->Some_0;
                let er = eval_result(
                    doc.nodes@,
                    t.1,
                    t.2,
                    node.id as int,
                    crate::parser::scope_view(self.registered@),
                );
                &&& o.is_string == t.0
                &&& o.nodes@.map_values(|u: usize| u as int) == (if t.0 {
                    Seq::<int>::empty()
                } else {
                    er
                })
                &&& o.sval@ == (if er.len() > 0 {
                    text_of(doc.nodes@, er[0])
                } else {
                    Seq::<char>::empty()
                })
                &&& forall|k: int|
                    0 <= k < o.nodes@.len() ==> (#[trigger] o.nodes@[k]) < doc.nodes@.len()
            },
    {
        eval_expr(doc, xpath, &self.registered, node.id)
    }

    /// Evaluate a query expression from a given read-only context node.
    pub fn node_evaluate_readonly(&self, doc: &Document, xpath: &str, node: crate::readonly::RoNode)
        -> (r: Result<Object, XmlError>)
        requires
            doc.wf(),
            node.0 < doc.nodes@.len(),
        ensures
            r is Ok <==> xp_evals(xpath@, crate::parser::scope_view(self.registered@)),
            r matches Err(e) ==> e == XmlError::CompileOrRuntimeQueryError,
            r matches Ok(o) ==> {
                let t = sp_xp_expr(xpath@)->Some_0;
                let er = eval_result(
                    doc.nodes@,
                    t.1,
                    t.2,
                    node.0 as int,
                    crate::parser::scope_view(self.registered@),
                );
                &&& o.is_string == t.0
                &&& o.nodes@.map_values(|u: usize| u as int) == (if t.0 {
                    Seq::<int>::empty()
                } else {
                    er
                })
                &&& o.sval@ == (if er.len() > 0 {
                    text_of(doc.nodes@, er[0])
                } else {
                    Seq::<char>::empty()
                })
            },
    {
        eval_expr(doc, xpath, &self.registered, node.0)
    }

    /// Find node handles by a query, from a specified node or the document
    /// root.
    pub fn findnodes(&self, doc: &mut Document, xpath: &str, node_opt: Option<&Node>) -> (r:
        Result<Vec<Node>, XmlError>)
        requires
            old(doc).wf(),
            match node_opt {
                Some(n) => n.id < old(doc).nodes@.len(),
                None => match self.context_node {
                    Some(c) => c < old(doc).nodes@.len(),
                    None => true,
                },
            },
        ensures
            final(doc).wf(),
            r is Ok <==> xp_evals(xpath@, crate::parser::scope_view(self.registered@)),
            r matches Err(e) ==> e == XmlError::CompileOrRuntimeQueryError,
            r matches Ok(ns) ==> {
                let t = sp_xp_expr(xpath@)->Some_0;
                let ctx = match node_opt {
                    Some(n) => n.id as int,
                    None => match self.context_node {
                        Some(c) => c as int,
                        None => 0int,
                    },
                };
                ns@.map_values(|n: Node| n.id as int) == (if t.0 {
                    Seq::<int>::empty()
                } else {
                    eval_result(
                        old(doc).nodes@,
                        t.1,
                        t.2,
                        ctx,
                        crate::parser::scope_view(self.registered@),
                    )
                })
            },
    {
        let o = match (match node_opt {
            Some(n) => self.node_evaluate(doc, xpath, n),
            None => self.evaluate(doc, xpath),
        }) {
            Ok(o) => o,
            Err(e) => {
                return Err(e);
            },
        };
        let out = o.get_nodes_as_vec(doc);
        proof {
            assert(out@.map_values(|n: Node| n.id as int) =~= o.nodes@.map_values(
                |u: usize| u as int,
            ));
        }
        Ok(out)
    }

    /// Find literal values by a query, from a specified node or the
    /// document root.
    pub fn findvalues(&self, doc: &Document, xpath: &str, node_opt: Option<&Node>) -> (r:
        Result<Vec<String>, XmlError>)
        requires
            doc.wf(),
            match node_opt {
                Some(n) => n.id < doc.nodes@.len(),
                None => match self.context_node {
                    Some(c) => c < doc.nodes@.len(),
                    None => true,
                },
            },
        ensures
            r is Ok <==> xp_evals(xpath@, crate::parser::scope_view(self.registered@)),
            r matches Err(e) ==> e == XmlError::CompileOrRuntimeQueryError,
            r matches Ok(vs) ==> {
                let t = sp_xp_expr(xpath@)->Some_0;
                let ctx = match node_opt {
                    Some(n) => n.id as int,
                    None => match self.context_node {
                        Some(c) => c as int,
                        None => 0int,
                    },
                };
                let er = eval_result(
                    doc.nodes@,
                    t.1,
                    t.2,
                    ctx,
                    crate::parser::scope_view(self.registered@),
                );
                let list = if t.0 {
                    Seq::<int>::empty()
                } else {
                    er
                };
                &&& vs@.len() == list.len()
                &&& forall|k: int|
                    0 <= k < vs@.len() ==> (#[trigger] vs@[k])@ == text_of(doc.nodes@, list[k])
            },
    {
        let o = match (match node_opt {
            Some(n) => self.node_evaluate(doc, xpath, n),
            None => self.evaluate(doc, xpath),
        }) {
            Ok(o) => o,
            Err(e) => {
                return Err(e);
            },
        };
        Ok(o.get_nodes_as_str(doc))
    }

    /// Find one literal value by a query, from a specified node or the
    /// document root.
    pub fn findvalue(&self, doc: &Document, xpath: &str, node_opt: Option<&Node>) -> (r:
        Result<String, XmlError>)
        requires
            doc.wf(),
            match node_opt {
                Some(n) => n.id < doc.nodes@.len(),
                None => match self.context_node {
                    Some(c) => c < doc.nodes@.len(),
                    None => true,
                },
            },
        ensures
            r is Ok <==> xp_evals(xpath@, crate::parser::scope_view(self.registered@)),
            r matches Err(e) ==> e == XmlError::CompileOrRuntimeQueryError,
            r matches Ok(sv) ==> {
                let t = sp_xp_expr(xpath@)->Some_0;
                let ctx = match node_opt {
                    Some(n) => n.id as int,
                    None => match self.context_node {
                        Some(c) => c as int,
                        None => 0int,
                    },
                };
                let er = eval_result(
                    doc.nodes@,
                    t.1,
                    t.2,
                    ctx,
                    crate::parser::scope_view(self.registered@),
                );
                sv@ == (if er.len() > 0 {
                    text_of(doc.nodes@, er[0])
                } else {
                    Seq::<char>::empty()
                })
            },
    {
        let o = match (match node_opt {
            Some(n) => self.node_evaluate(doc, xpath, n),
            None => self.evaluate(doc, xpath),
        }) {
            Ok(o) => o,
            Err(e) => {
                return Err(e);
            },
        };
        Ok(o.to_string())
    }
}

/// The shared evaluation behind the query entry points.
#[verifier::rlimit(100)]
fn eval_expr(doc: &Document, xpath: &str, reg: &Vec<Namespace>, ctx: usize) -> (r: Result<
    Object,
    XmlError,
>)
    requires
        doc.wf(),
        ctx < doc.nodes@.len(),
    ensures
        r is Ok <==> xp_evals(xpath@, crate::parser::scope_view(reg@)),
        r matches Err(e) ==> e == XmlError::CompileOrRuntimeQueryError,
        r matches Ok(o) ==> {
            let t = sp_xp_expr(xpath@)->Some_0;
            let er = eval_result(doc.nodes@, t.1, t.2, ctx as int, crate::parser::scope_view(reg@));
            &&& o.is_string == t.0
            &&& o.nodes@.map_values(|u: usize| u as int) == (if t.0 {
                Seq::<int>::empty()
            } else {
                er
            })
            &&& o.sval@ == (if er.len() > 0 {
                text_of(doc.nodes@, er[0])
            } else {
                Seq::<char>::empty()
            })
            &&& forall|k: int|
                0 <= k < o.nodes@.len() ==> (#[trigger] o.nodes@[k]) < doc.nodes@.len()
        },
{
    let ghost regv = crate::parser::scope_view(reg@);
    let v = str_to_chars(xpath);
    let (is_string, _abs, steps) = match e_xp_expr(&v) {
        Some(t) => t,
        None => {
            return Err(XmlError::CompileOrRuntimeQueryError);
        },
    };
    let ghost stsv = xsteps_view(steps@);
    // every prefix must be registered
    let sn = steps.len();
    let mut k: usize = 0;
    while k < sn
        invariant
            k <= sn,
            sn == steps@.len(),
            stsv == xsteps_view(steps@),
            regv == crate::parser::scope_view(reg@),
            sp_xp_expr(xpath@) is Some,
            stsv == sp_xp_expr(xpath@)->Some_0.2,
            forall|m: int|
                0 <= m < k ==> ((#[trigger] stsv[m]).prefix.len() > 0 ==> xp_lookup(
                    regv,
                    stsv[m].prefix,
                ) is Some),
        decreases sn - k,
    {
        if steps[k].prefix.len() > 0 {
            match e_xp_lookup(reg, &steps[k].prefix) {
                Some(_) => {},
                None => {
                    proof {
                        assert(stsv[k as int].prefix == steps@[k as int].prefix@);
                    }
                    return Err(XmlError::CompileOrRuntimeQueryError);
                },
            }
        } else {
            proof {
                assert(stsv[k as int].prefix == steps@[k as int].prefix@);
            }
        }
        k = k + 1;
    }
    let abs = _abs;
    // run the stages
    let mut cur: Vec<usize> = Vec::new();
    if abs {
        cur.push(0);
    } else {
        cur.push(ctx);
    }
    let ghost init = cur@.map_values(|u: usize| u as int);
    proof {
        assert(init =~= seq![
            if abs {
                0int
            } else {
                ctx as int
            },
        ]);
    }
    let mut si: usize = 0;
    while si < sn
        invariant
            doc.wf(),
            si <= sn,
            sn == steps@.len(),
            stsv == xsteps_view(steps@),
            regv == crate::parser::scope_view(reg@),
            forall|m: int| 0 <= m < cur@.len() ==> (#[trigger] cur@[m]) < doc.nodes@.len(),
            path_eval(doc.nodes@, stsv, 0, init, regv) == path_eval(
                doc.nodes@,
                stsv,
                si as int,
                cur@.map_values(|u: usize| u as int),
                regv,
            ),
        decreases sn - si,
    {
        let ghost prev = cur@.map_values(|u: usize| u as int);
        let mut next: Vec<usize> = Vec::new();
        let cn = cur.len();
        let mut m: usize = 0;
        proof {
            assert(prev.subrange(cn as int, cn as int) =~= Seq::<int>::empty());
            assert(stage_eval(doc.nodes@, stsv[si as int], Seq::<int>::empty(), regv)
                =~= Seq::<int>::empty());
            assert(prev.subrange(0, cn as int) =~= prev);
        }
        while m < cn
            invariant
                doc.wf(),
                m <= cn,
                cn == cur@.len(),
                si < sn,
                sn == steps@.len(),
                stsv == xsteps_view(steps@),
                regv == crate::parser::scope_view(reg@),
                prev == cur@.map_values(|u: usize| u as int),
                forall|j: int| 0 <= j < cur@.len() ==> (#[trigger] cur@[j]) < doc.nodes@.len(),
                forall|j: int| 0 <= j < next@.len() ==> (#[trigger] next@[j]) < doc.nodes@.len(),
                next@.map_values(|u: usize| u as int) + stage_eval(
                    doc.nodes@,
                    stsv[si as int],
                    prev.subrange(m as int, cn as int),
                    regv,
                ) == stage_eval(doc.nodes@, stsv[si as int], prev, regv),
            decreases cn - m,
        {
            let ghost pren = next@.map_values(|u: usize| u as int);
            let s = cur[m];
            let tg = e_step_targets(doc, &steps[si], s, reg);
            proof {
                assert(stsv[si as int] == steps@[si as int].view_of());
            }
            crate::tree::chars::extend_chars_usize(&mut next, &tg);
            proof {
                let suffix = prev.subrange(m as int, cn as int);
                assert(suffix[0] == s as int);
                assert(suffix.subrange(1, suffix.len() as int) =~= prev.subrange(
                    m + 1,
                    cn as int,
                ));
                assert(stage_eval(doc.nodes@, stsv[si as int], suffix, regv) == step_targets(
                    doc.nodes@,
                    stsv[si as int],
                    s as int,
                    regv,
                ) + stage_eval(
                    doc.nodes@,
                    stsv[si as int],
                    prev.subrange(m + 1, cn as int),
                    regv,
                ));
                assert(next@.map_values(|u: usize| u as int) =~= pren + tg@.map_values(
                    |u: usize| u as int,
                ));
                assert((pren + step_targets(doc.nodes@, stsv[si as int], s as int, regv))
                    + stage_eval(doc.nodes@, stsv[si as int], prev.subrange(m + 1, cn as int), regv)
                    =~= pren + (step_targets(doc.nodes@, stsv[si as int], s as int, regv)
                    + stage_eval(
                    doc.nodes@,
                    stsv[si as int],
                    prev.subrange(m + 1, cn as int),
                    regv,
                )));
                assert forall|j: int| 0 <= j < next@.len() implies (#[trigger] next@[j])
                    < doc.nodes@.len() by {
                    if j >= pren.len() {
                        step_targets_bounds(doc.nodes@, stsv[si as int], s as int, regv, j - pren.len());
                        assert(next@[j] as int == tg@.map_values(|u: usize| u as int)[j
                            - pren.len()]);
                    }
                }
            }
            m = m + 1;
        }
        proof {
            assert(prev.subrange(0, cn as int) =~= prev);
            assert(next@.map_values(|u: usize| u as int) =~= stage_eval(
                doc.nodes@,
                stsv[si as int],
                prev,
                regv,
            ));
        }
        cur = next;
        si = si + 1;
    }
    // de-duplicate, keeping first occurrences
    let ghost flat = cur@.map_values(|u: usize| u as int);
    let fn_ = cur.len();
    let mut ded: Vec<usize> = Vec::new();
    let mut k2: usize = 0;
    proof {
        assert(dedup_ints(flat.subrange(0, 0)) =~= Seq::<int>::empty());
        assert(ded@.map_values(|u: usize| u as int) =~= dedup_ints(flat.subrange(0, 0)));
    }
    while k2 < fn_
        invariant
            k2 <= fn_,
            fn_ == cur@.len(),
            flat == cur@.map_values(|u: usize| u as int),
            forall|j: int| 0 <= j < cur@.len() ==> (#[trigger] cur@[j]) < doc.nodes@.len(),
            forall|j: int| 0 <= j < ded@.len() ==> (#[trigger] ded@[j]) < doc.nodes@.len(),
            doc.wf(),
            ded@.map_values(|u: usize| u as int) == dedup_ints(flat.subrange(0, k2 as int)),
        decreases fn_ - k2,
    {
        let ghost pred = ded@.map_values(|u: usize| u as int);
        let x = cur[k2];
        let already = vec_has(&ded, x);
        proof {
            let prefix = flat.subrange(0, k2 as int);
            let prefix1 = flat.subrange(0, k2 + 1 as int);
            assert(prefix1.drop_last() =~= prefix);
            assert(prefix1.last() == x as int);
            assert(already == prefix.contains(x as int)) by {
                lemma_dedup_contains(prefix, x as int);
                assert(ded@.contains(x) <==> pred.contains(x as int)) by {
                    if ded@.contains(x) {
                        let w = choose|w: int| 0 <= w < ded@.len() && ded@[w] == x;
                        assert(pred[w] == x as int);
                    }
                    if pred.contains(x as int) {
                        let w = choose|w: int| 0 <= w < pred.len() && pred[w] == x as int;
                        assert(ded@[w] == x);
                    }
                }
            }
        }
        if !already {
            ded.push(x);
            proof {
                assert(ded@.map_values(|u: usize| u as int) =~= pred.push(x as int));
                assert(ded@.map_values(|u: usize| u as int) =~= dedup_ints(
                    flat.subrange(0, k2 + 1 as int),
                ));
            }
        } else {
            proof {
                assert(dedup_ints(flat.subrange(0, k2 + 1 as int)) =~= dedup_ints(
                    flat.subrange(0, k2 as int),
                ));
            }
        }
        k2 = k2 + 1;
    }
    proof {
        assert(flat.subrange(0, fn_ as int) =~= flat);
        assert(ded@.map_values(|u: usize| u as int) =~= eval_result(
            doc.nodes@,
            _abs,
            stsv,
            ctx as int,
            regv,
        ));
    }
    // the string value of the result
    let sval: Vec<char> = if ded.len() > 0 {
        proof {
            assert(ded@.map_values(|u: usize| u as int)[0] == ded@[0] as int);
            assert(flat.contains(ded@[0] as int)) by {
                lemma_dedup_contains(flat, ded@[0] as int);
                assert(dedup_ints(flat)[0] == ded@[0] as int);
            }
            assert(ded@[0] < doc.nodes@.len()) by {
                let w = choose|w: int| 0 <= w < flat.len() && flat[w] == ded@[0] as int;
                assert(cur@[w] as int == flat[w]);
            }
        }
        let h = Node { id: ded[0] };
        let svs = h.get_content(doc);
        str_to_chars(svs.as_str())
    } else {
        Vec::new()
    };
    if is_string {
        // a string result carries no node set
        let none: Vec<usize> = Vec::new();
        proof {
            assert(none@.map_values(|u: usize| u as int) =~= Seq::<int>::empty());
        }
        return Ok(Object { is_string, nodes: none, sval });
    }
    Ok(Object { is_string, nodes: ded, sval })
}

/// Every target a step yields is a real position.
proof fn step_targets_bounds(
    nodes: Seq<NodeRec>,
    st: StepV,
    s: int,
    reg: Seq<NamespaceView>,
    j: int,
)
    requires
        0 <= j < step_targets(nodes, st, s, reg).len(),
    ensures
        0 <= step_targets(nodes, st, s, reg)[j] < nodes.len(),
{
    let m = filt_from(nodes, cand_of(nodes, st, s), 0, st, reg);
    filt_from_bounds(nodes, cand_of(nodes, st, s), 0, st, reg);
    match st.pred {
        Some(n) => {
            if 1 <= n <= m.len() {
                assert(m.contains(m[n - 1]));
            }
        },
        None => {
            assert(m.contains(m[j]));
        },
    }
}

/// Every filtered candidate is a real position.
proof fn filt_from_bounds(
    nodes: Seq<NodeRec>,
    cand: Seq<int>,
    k: int,
    st: StepV,
    reg: Seq<NamespaceView>,
)
    requires
        0 <= k <= cand.len(),
    ensures
        forall|x: int|
            filt_from(nodes, cand, k, st, reg).contains(x) ==> 0 <= x < nodes.len(),
    decreases cand.len() - k,
{
    if k < cand.len() {
        filt_from_bounds(nodes, cand, k + 1, st, reg);
        assert forall|x: int| filt_from(nodes, cand, k, st, reg).contains(x) implies 0 <= x
            < nodes.len() by {
            let f = filt_from(nodes, cand, k, st, reg);
            let w = choose|w: int| 0 <= w < f.len() && f[w] == x;
            let hd = if sel_ok(nodes, cand[k], st, reg) {
                seq![cand[k]]
            } else {
                Seq::<int>::empty()
            };
            if w < hd.len() {
                assert(x == cand[k]);
            } else {
                assert(filt_from(nodes, cand, k + 1, st, reg)[w - hd.len()] == x);
                assert(filt_from(nodes, cand, k + 1, st, reg).contains(x));
            }
        }
    }
}

/// Whether a query expression compiles, independent of any document.
pub fn xml_xpath_compiles(xpath: &str) -> (r: bool)
    ensures
        r == xp_parses(xpath@),
{
    let v = str_to_chars(xpath);
    e_xp_expr(&v).is_some()
}

/// Alias for the standalone compile probe.
pub fn is_well_formed_xpath(xpath: &str) -> (r: bool)
    ensures
        r == xp_parses(xpath@),
{
    xml_xpath_compiles(xpath)
}

} // verus!
