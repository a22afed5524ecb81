//! The parser functionality: text to document trees.

use vstd::prelude::*;

use crate::error::XmlError;
use crate::tree::chars::str_to_chars;
use crate::tree::document::Document;
use crate::tree::namespace::Namespace;
use crate::tree::namespace::NamespaceView;
use crate::tree::nodetype::NodeType;

verus! {

/// Whether a character is markup whitespace.
pub open spec fn is_ws(c: char) -> bool {
    c == ' ' || c == '\t' || c == '\n' || c == '\r'
}

/// Whether a character can stand in a name (a local name or a prefix).
pub open spec fn is_name_char(c: char) -> bool {
    &&& !is_ws(c)
    &&& c != '<'
    &&& c != '>'
    &&& c != '/'
    &&& c != '='
    &&& c != '"'
    &&& c != '\''
    &&& c != '?'
    &&& c != '!'
    &&& c != ':'
    &&& c != '&'
    &&& c != ';'
    &&& c != '['
    &&& c != ']'
    &&& c != '('
    &&& c != ')'
    &&& c != '@'
    &&& c != '*'
}

/// The first position at or after `p` that does not hold whitespace.
pub open spec fn sp_ws(s: Seq<char>, p: int) -> int
    decreases s.len() - p
        when 0 <= p <= s.len()
{
    if p < s.len() && is_ws(s[p]) {
        sp_ws(s, p + 1)
    } else {
        p
    }
}

/// Skipping whitespace moves forward and stays inside the input.
pub proof fn lemma_sp_ws_bounds(s: Seq<char>, p: int)
    requires
        0 <= p <= s.len(),
    ensures
        p <= sp_ws(s, p) <= s.len(),
    decreases s.len() - p,
{
    if p < s.len() && is_ws(s[p]) {
        lemma_sp_ws_bounds(s, p + 1);
    }
}

/// The end of the name run starting at `p`.
pub open spec fn sp_name_end(s: Seq<char>, p: int) -> int
    decreases s.len() - p
        when 0 <= p <= s.len()
{
    if p < s.len() && is_name_char(s[p]) {
        sp_name_end(s, p + 1)
    } else {
        p
    }
}

/// Scanning a name moves forward and stays inside the input.
pub proof fn lemma_sp_name_bounds(s: Seq<char>, p: int)
    requires
        0 <= p <= s.len(),
    ensures
        p <= sp_name_end(s, p) <= s.len(),
    decreases s.len() - p,
{
    if p < s.len() && is_name_char(s[p]) {
        lemma_sp_name_bounds(s, p + 1);
    }
}

/// The entity reference starting at `p` (which holds `&`), if it is one of
/// the five named references, with the position after it.
pub open spec fn sp_entity(s: Seq<char>, p: int) -> Option<(char, int)> {
    if p + 5 <= s.len() && s.subrange(p, p + 5) == seq!['&', 'a', 'm', 'p', ';'] {
        Some(('&', p + 5))
    } else if p + 4 <= s.len() && s.subrange(p, p + 4) == seq!['&', 'l', 't', ';'] {
        Some(('<', p + 4))
    } else if p + 4 <= s.len() && s.subrange(p, p + 4) == seq!['&', 'g', 't', ';'] {
        Some(('>', p + 4))
    } else if p + 6 <= s.len() && s.subrange(p, p + 6) == seq!['&', 'q', 'u', 'o', 't', ';'] {
        Some(('"', p + 6))
    } else if p + 6 <= s.len() && s.subrange(p, p + 6) == seq!['&', 'a', 'p', 'o', 's', ';'] {
        Some(('\'', p + 6))
    } else {
        None
    }
}

/// The decoded text run from `p` up to the next `<` or the end of input,
/// with the position after it; nothing on a malformed entity reference.
pub open spec fn sp_text(s: Seq<char>, p: int) -> Option<(Seq<char>, int)>
    decreases s.len() - p
        when 0 <= p <= s.len()
{
    if p >= s.len() || s[p] == '<' {
        Some((Seq::empty(), p))
    } else if s[p] == '&' {
        match sp_entity(s, p) {
            Some((c, p2)) => if p < p2 <= s.len() {
                match sp_text(s, p2) {
                    Some((t, p3)) => Some((seq![c] + t, p3)),
                    None => None,
                }
            } else {
                None
            },
            None => None,
        }
    } else {
        match sp_text(s, p + 1) {
            Some((t, p3)) => Some((seq![s[p]] + t, p3)),
            None => None,
        }
    }
}

/// The decoded quoted value starting at `p` (which holds the quote), with
/// the position after the closing quote.
pub open spec fn sp_quoted(s: Seq<char>, p: int) -> Option<(Seq<char>, int)> {
    if p < s.len() && (s[p] == '"' || s[p] == '\'') {
        sp_qchars(s, p + 1, s[p])
    } else {
        None
    }
}

/// The decoded characters up to the closing quote `q`, with the position
/// after it.
pub open spec fn sp_qchars(s: Seq<char>, p: int, q: char) -> Option<(Seq<char>, int)>
    decreases s.len() - p
        when 0 <= p <= s.len()
{
    if p >= s.len() {
        None
    } else if s[p] == q {
        Some((Seq::empty(), p + 1))
    } else if s[p] == '<' {
        None
    } else if s[p] == '&' {
        match sp_entity(s, p) {
            Some((c, p2)) => if p < p2 <= s.len() {
                match sp_qchars(s, p2, q) {
                    Some((t, p3)) => Some((seq![c] + t, p3)),
                    None => None,
                }
            } else {
                None
            },
            None => None,
        }
    } else {
        match sp_qchars(s, p + 1, q) {
            Some((t, p3)) => Some((seq![s[p]] + t, p3)),
            None => None,
        }
    }
}

/// The position just after the first occurrence of `pat` at or after `p`,
/// if the pattern occurs.
pub open spec fn sp_find_after(s: Seq<char>, p: int, pat: Seq<char>) -> Option<int>
    decreases s.len() - p
        when 0 <= p <= s.len() && pat.len() > 0
{
    if p + pat.len() > s.len() {
        None
    } else if s.subrange(p, p + pat.len()) == pat {
        Some(p + pat.len())
    } else {
        sp_find_after(s, p + 1, pat)
    }
}

/// The mathematical image of one parsed attribute: a prefix (empty for
/// none), a local name and a decoded value.
pub ghost struct GAttr {
    /// The attribute's namespace prefix, empty for none
    pub prefix: Seq<char>,
    /// The attribute's local name
    pub name: Seq<char>,
    /// The attribute's decoded value
    pub value: Seq<char>,
}

/// The mathematical image of one parsed node.
pub ghost struct GNode {
    /// What kind of node this is
    pub ntype: NodeType,
    /// The element's namespace prefix, empty for none
    pub prefix: Seq<char>,
    /// The local name (elements), or the target (instructions)
    pub name: Seq<char>,
    /// The decoded text (text nodes, comments, instructions)
    pub content: Seq<char>,
    /// The element's ordinary attributes, in order
    pub attrs: Seq<GAttr>,
    /// The element's namespace declarations, in order
    pub decls: Seq<NamespaceView>,
    /// The element's children, in order
    pub children: Seq<GNode>,
}

/// A parsed qualified name at `p`: prefix (empty for none), local name and
/// the position after, if a name starts there.
pub open spec fn sp_qname(s: Seq<char>, p: int) -> Option<(Seq<char>, Seq<char>, int)> {
    let n1 = sp_name_end(s, p);
    if n1 == p {
        None
    } else if n1 < s.len() && s[n1] == ':' {
        let n2 = sp_name_end(s, n1 + 1);
        if n2 == n1 + 1 {
            None
        } else {
            Some((s.subrange(p, n1), s.subrange(n1 + 1, n2), n2))
        }
    } else {
        Some((Seq::empty(), s.subrange(p, n1), n1))
    }
}

/// The parsed attribute list starting at `p`: ordinary attributes,
/// namespace declarations, and the position of the first character after
/// the list (whitespace already skipped).
pub open spec fn sp_attrs(s: Seq<char>, p: int) -> Option<(Seq<GAttr>, Seq<NamespaceView>, int)>
    decreases s.len() - p
        when 0 <= p <= s.len()
{
    let p1 = sp_ws(s, p);
    if p1 < s.len() && is_name_char(s[p1]) {
        match sp_qname(s, p1) {
            Some((pref, local, n2)) => {
                let p2 = sp_ws(s, n2);
                if p2 < s.len() && s[p2] == '=' {
                    let p3 = sp_ws(s, p2 + 1);
                    match sp_quoted(s, p3) {
                        Some((value, p4)) => if p < p4 <= s.len() {
                            match sp_attrs(s, p4) {
                                Some((ats, dcs, p5)) => if pref.len() == 0 && local == seq![
                                    'x',
                                    'm',
                                    'l',
                                    'n',
                                    's',
                                ] {
                                    Some(
                                        (
                                            ats,
                                            seq![
                                                NamespaceView {
                                                    prefix: Seq::empty(),
                                                    href: value,
                                                },
                                            ] + dcs,
                                            p5,
                                        ),
                                    )
                                } else if pref == seq!['x', 'm', 'l', 'n', 's'] {
                                    Some(
                                        (
                                            ats,
                                            seq![NamespaceView { prefix: local, href: value }]
                                                + dcs,
                                            p5,
                                        ),
                                    )
                                } else {
                                    Some(
                                        (
                                            seq![
                                                GAttr { prefix: pref, name: local, value: value },
                                            ] + ats,
                                            dcs,
                                            p5,
                                        ),
                                    )
                                },
                                None => None,
                            }
                        } else {
                            None
                        },
                        None => None,
                    }
                } else {
                    None
                }
            },
            None => None,
        }
    } else {
        Some((Seq::empty(), Seq::empty(), p1))
    }
}

/// The parsed element starting at `p` (which holds `<` followed by a name),
/// with the position after its closing tag.
pub open spec fn sp_element(s: Seq<char>, p: int) -> Option<(GNode, int)>
    decreases s.len() - p, 0int
        when 0 <= p <= s.len()
{
    if p + 1 < s.len() && s[p] == '<' && is_name_char(s[p + 1]) {
        match sp_qname(s, p + 1) {
            Some((pref, local, n1)) => {
                match sp_attrs(s, n1) {
                    Some((ats, dcs, p2)) => if p < p2 <= s.len() {
                        if p2 + 1 < s.len() && s[p2] == '/' && s[p2 + 1] == '>' {
                            Some(
                                (
                                    GNode {
                                        ntype: NodeType::ElementNode,
                                        prefix: pref,
                                        name: local,
                                        content: Seq::empty(),
                                        attrs: ats,
                                        decls: dcs,
                                        children: Seq::empty(),
                                    },
                                    p2 + 2,
                                ),
                            )
                        } else if p2 < s.len() && s[p2] == '>' {
                            match sp_content(s, p2 + 1) {
                                Some((kids, p3)) => if p2 < p3 <= s.len() {
                                    // the closing tag must repeat the name
                                    if p3 + 1 < s.len() && s[p3] == '<' && s[p3 + 1] == '/' {
                                        match sp_qname(s, p3 + 2) {
                                            Some((cpref, clocal, p4)) => if cpref == pref
                                                && clocal == local {
                                                let p5 = sp_ws(s, p4);
                                                if p5 < s.len() && s[p5] == '>' {
                                                    Some(
                                                        (
                                                            GNode {
                                                                ntype: NodeType::ElementNode,
                                                                prefix: pref,
                                                                name: local,
                                                                content: Seq::empty(),
                                                                attrs: ats,
                                                                decls: dcs,
                                                                children: kids,
                                                            },
                                                            p5 + 1,
                                                        ),
                                                    )
                                                } else {
                                                    None
                                                }
                                            } else {
                                                None
                                            },
                                            None => None,
                                        }
                                    } else {
                                        None
                                    }
                                } else {
                                    None
                                },
                                None => None,
                            }
                        } else {
                            None
                        }
                    } else {
                        None
                    },
                    None => None,
                }
            },
            None => None,
        }
    } else {
        None
    }
}

/// The parsed comment starting at `p`, with the position after it.
pub open spec fn sp_comment(s: Seq<char>, p: int) -> Option<(Seq<char>, int)> {
    if p + 4 <= s.len() && s.subrange(p, p + 4) == seq!['<', '!', '-', '-'] {
        match sp_find_after(s, p + 4, seq!['-', '-', '>']) {
            Some(p2) => Some((s.subrange(p + 4, p2 - 3), p2)),
            None => None,
        }
    } else {
        None
    }
}

/// The parsed processing instruction starting at `p`, with the position
/// after it.
pub open spec fn sp_pi(s: Seq<char>, p: int) -> Option<(Seq<char>, Seq<char>, int)> {
    if p + 2 <= s.len() && s[p] == '<' && s[p + 1] == '?' && p + 2 < s.len() && is_name_char(
        s[p + 2],
    ) {
        let n1 = sp_name_end(s, p + 2);
        let c1 = sp_ws(s, n1);
        match sp_find_after(s, n1, seq!['?', '>']) {
            Some(p2) => if c1 <= p2 - 2 {
                Some((s.subrange(p + 2, n1), s.subrange(c1, p2 - 2), p2))
            } else {
                None
            },
            None => None,
        }
    } else {
        None
    }
}

/// The parsed content of an element starting at `p`: child nodes up to a
/// closing tag or the end of input.
pub open spec fn sp_content(s: Seq<char>, p: int) -> Option<(Seq<GNode>, int)>
    decreases s.len() - p, 1int
        when 0 <= p <= s.len()
{
    if p >= s.len() {
        Some((Seq::empty(), p))
    } else if s[p] == '<' {
        if p + 1 < s.len() && s[p + 1] == '/' {
            Some((Seq::empty(), p))
        } else if p + 1 < s.len() && s[p + 1] == '!' {
            match sp_comment(s, p) {
                Some((txt, p2)) => if p < p2 <= s.len() {
                    match sp_content(s, p2) {
                        Some((rest, p3)) => Some((seq![g_comment(txt)] + rest, p3)),
                        None => None,
                    }
                } else {
                    None
                },
                None => None,
            }
        } else if p + 1 < s.len() && s[p + 1] == '?' {
            match sp_pi(s, p) {
                Some((tgt, txt, p2)) => if p < p2 <= s.len() {
                    match sp_content(s, p2) {
                        Some((rest, p3)) => Some((seq![g_pi(tgt, txt)] + rest, p3)),
                        None => None,
                    }
                } else {
                    None
                },
                None => None,
            }
        } else {
            match sp_element(s, p) {
                Some((node, p2)) => if p < p2 <= s.len() {
                    match sp_content(s, p2) {
                        Some((rest, p3)) => Some((seq![node] + rest, p3)),
                        None => None,
                    }
                } else {
                    None
                },
                None => None,
            }
        }
    } else {
        match sp_text(s, p) {
            Some((txt, p2)) => if p < p2 <= s.len() {
                match sp_content(s, p2) {
                    Some((rest, p3)) => Some((seq![g_text(txt)] + rest, p3)),
                    None => None,
                }
            } else {
                None
            },
            None => None,
        }
    }
}

/// A text node image.
pub open spec fn g_text(txt: Seq<char>) -> GNode {
    GNode {
        ntype: NodeType::TextNode,
        prefix: Seq::empty(),
        name: Seq::empty(),
        content: txt,
        attrs: Seq::empty(),
        decls: Seq::empty(),
        children: Seq::empty(),
    }
}

/// A comment node image.
pub open spec fn g_comment(txt: Seq<char>) -> GNode {
    GNode {
        ntype: NodeType::CommentNode,
        prefix: Seq::empty(),
        name: Seq::empty(),
        content: txt,
        attrs: Seq::empty(),
        decls: Seq::empty(),
        children: Seq::empty(),
    }
}

/// An instruction node image.
pub open spec fn g_pi(tgt: Seq<char>, txt: Seq<char>) -> GNode {
    GNode {
        ntype: NodeType::PiNode,
        prefix: Seq::empty(),
        name: tgt,
        content: txt,
        attrs: Seq::empty(),
        decls: Seq::empty(),
        children: Seq::empty(),
    }
}

/// The parsed top level of a document from `p` on: elements, comments and
/// instructions separated by whitespace, until the end of input.
pub open spec fn sp_doc_items(s: Seq<char>, p: int) -> Option<Seq<GNode>>
    decreases s.len() - p
        when 0 <= p <= s.len()
{
    let p1 = sp_ws(s, p);
    proof {
        lemma_sp_ws_bounds(s, p);
    }
    if p1 >= s.len() {
        Some(Seq::empty())
    } else if s[p1] == '<' {
        if p1 + 1 < s.len() && s[p1 + 1] == '!' {
            if p1 + 4 <= s.len() && s.subrange(p1, p1 + 4) == seq!['<', '!', '-', '-'] {
                match sp_comment(s, p1) {
                    Some((txt, p2)) => if p1 < p2 <= s.len() {
                        match sp_doc_items(s, p2) {
                            Some(rest) => Some(seq![g_comment(txt)] + rest),
                            None => None,
                        }
                    } else {
                        None
                    },
                    None => None,
                }
            } else {
                // a document type declaration: skipped up to its closing angle
                match sp_find_after(s, p1, seq!['>']) {
                    Some(p2) => if p1 < p2 <= s.len() {
                        sp_doc_items(s, p2)
                    } else {
                        None
                    },
                    None => None,
                }
            }
        } else if p1 + 1 < s.len() && s[p1 + 1] == '?' {
            match sp_pi(s, p1) {
                Some((tgt, txt, p2)) => if p1 < p2 <= s.len() {
                    match sp_doc_items(s, p2) {
                        Some(rest) => Some(seq![g_pi(tgt, txt)] + rest),
                        None => None,
                    }
                } else {
                    None
                },
                None => None,
            }
        } else {
            match sp_element(s, p1) {
                Some((node, p2)) => if p1 < p2 <= s.len() {
                    match sp_doc_items(s, p2) {
                        Some(rest) => Some(seq![node] + rest),
                        None => None,
                    }
                } else {
                    None
                },
                None => None,
            }
        }
    } else {
        None
    }
}

/// The number of element nodes among the images.
pub open spec fn g_elem_count(items: Seq<GNode>) -> int
    decreases items.len(),
{
    if items.len() == 0 {
        0
    } else {
        (if items[0].ntype == NodeType::ElementNode {
            1int
        } else {
            0int
        }) + g_elem_count(items.subrange(1, items.len() as int))
    }
}

/// The parsed document: the declaration line is skipped if present, then
/// the top-level items are parsed; exactly one element must stand among
/// them.
pub open spec fn sp_document(s: Seq<char>) -> Option<Seq<GNode>> {
    let start: int = if s.len() >= 5 && s.subrange(0, 5) == seq!['<', '?', 'x', 'm', 'l'] {
        match sp_find_after(s, 0, seq!['?', '>']) {
            Some(p) => p,
            None => -1,
        }
    } else {
        0
    };
    if start < 0 {
        None
    } else {
        match sp_doc_items(s, start) {
            Some(items) => if g_elem_count(items) == 1 {
                Some(items)
            } else {
                None
            },
            None => None,
        }
    }
}

/// The built-in namespace bound to the `xml` prefix.
pub open spec fn xml_builtin_ns() -> NamespaceView {
    NamespaceView {
        prefix: seq!['x', 'm', 'l'],
        href: seq![
            'h', 't', 't', 'p', ':', '/', '/', 'w', 'w', 'w', '.', 'w', '3', '.', 'o', 'r', 'g',
            '/', 'X', 'M', 'L', '/', '1', '9', '9', '8', '/', 'n', 'a', 'm', 'e', 's', 'p', 'a',
            'c', 'e',
        ],
    }
}

/// The innermost declaration of `prefix` in scope, if any; the `xml`
/// prefix is always bound to its built-in namespace.
pub open spec fn resolve_prefix(scope: Seq<NamespaceView>, prefix: Seq<char>) -> Option<
    NamespaceView,
>
    decreases scope.len(),
{
    if scope.len() == 0 {
        if prefix == seq!['x', 'm', 'l'] {
            Some(xml_builtin_ns())
        } else {
            None
        }
    } else if scope.last().prefix == prefix {
        Some(scope.last())
    } else {
        resolve_prefix(scope.drop_last(), prefix)
    }
}

/// The namespace of an element with the given prefix in the given scope:
/// an unprefixed element takes the default declaration when one with a
/// nonempty href is in scope, and no namespace otherwise.
pub open spec fn elem_ns_of(prefix: Seq<char>, scope: Seq<NamespaceView>) -> Option<NamespaceView> {
    if prefix.len() == 0 {
        match resolve_prefix(scope, Seq::empty()) {
            Some(d) => if d.href.len() > 0 {
                Some(d)
            } else {
                None
            },
            None => None,
        }
    } else {
        resolve_prefix(scope, prefix)
    }
}

/// The namespace of an attribute with the given prefix: unprefixed
/// attributes never take the default declaration.
pub open spec fn attr_ns_of(prefix: Seq<char>, scope: Seq<NamespaceView>) -> Option<NamespaceView> {
    if prefix.len() == 0 {
        None
    } else {
        resolve_prefix(scope, prefix)
    }
}

/// Whether every nonempty prefix in the image resolves in its scope.
pub open spec fn resolves_ok(g: GNode, scope: Seq<NamespaceView>) -> bool
    decreases g,
{
    g.ntype == NodeType::ElementNode ==> {
        let scope2 = scope + g.decls;
        &&& (g.prefix.len() > 0 ==> resolve_prefix(scope2, g.prefix) is Some)
        &&& forall|k: int|
            0 <= k < g.attrs.len() ==> ((#[trigger] g.attrs[k]).prefix.len() > 0 ==> resolve_prefix(
                scope2,
                g.attrs[k].prefix,
            ) is Some)
        &&& forall|k: int| 0 <= k < g.children.len() ==> resolves_ok(#[trigger] g.children[k], scope2)
    }
}

/// The fields of a record that the model relation reads.
pub open spec fn model_fields_same(a: crate::tree::shape::NodeRec, b: crate::tree::shape::NodeRec) -> bool {
    &&& a.ntype == b.ntype
    &&& a.name@ == b.name@
    &&& a.content@ == b.content@
    &&& a.children@ == b.children@
    &&& a.attrs@ == b.attrs@
    &&& crate::tree::shape::decls_view(a.ns_decls@) == crate::tree::shape::decls_view(b.ns_decls@)
    &&& crate::tree::shape::ns_view(a.ns) == crate::tree::shape::ns_view(b.ns)
}

/// Whether arena position `i` holds exactly the parsed image `g`, with
/// every namespace prefix resolved against `scope`.
pub open spec fn node_models(
    nodes: Seq<crate::tree::shape::NodeRec>,
    i: int,
    g: GNode,
    scope: Seq<NamespaceView>,
) -> bool
    decreases g,
{
    &&& 0 <= i < nodes.len()
    &&& nodes[i].ntype == g.ntype
    &&& (g.ntype == NodeType::ElementNode ==> {
        let scope2 = scope + g.decls;
        &&& nodes[i].name@ == g.name
        &&& crate::tree::shape::decls_view(nodes[i].ns_decls@) == g.decls
        &&& crate::tree::shape::ns_view(nodes[i].ns) == elem_ns_of(g.prefix, scope2)
        &&& nodes[i].attrs@.len() == g.attrs.len()
        &&& forall|k: int|
            0 <= k < g.attrs.len() ==> {
                let a = #[trigger] nodes[i].attrs@[k] as int;
                &&& 0 <= a < nodes.len()
                &&& nodes[a].name@ == g.attrs[k].name
                &&& nodes[a].content@ == g.attrs[k].value
                &&& crate::tree::shape::ns_view(nodes[a].ns) == attr_ns_of(
                    g.attrs[k].prefix,
                    scope2,
                )
            }
        &&& nodes[i].children@.len() == g.children.len()
        &&& forall|k: int|
            0 <= k < g.children.len() ==> node_models(
                nodes,
                #[trigger] nodes[i].children@[k] as int,
                g.children[k],
                scope2,
            )
    })
    &&& (g.ntype == NodeType::TextNode || g.ntype == NodeType::CommentNode ==> nodes[i].content@
        == g.content)
    &&& (g.ntype == NodeType::PiNode ==> nodes[i].name@ == g.name && nodes[i].content@
        == g.content)
}

/// The model relation survives any change that keeps the model fields of
/// the existing records.
pub proof fn lemma_models_frame(
    n1: Seq<crate::tree::shape::NodeRec>,
    n2: Seq<crate::tree::shape::NodeRec>,
    i: int,
    g: GNode,
    scope: Seq<NamespaceView>,
)
    requires
        node_models(n1, i, g, scope),
        n1.len() <= n2.len(),
        forall|j: int| 0 <= j < n1.len() ==> model_fields_same(#[trigger] n1[j], n2[j]),
    ensures
        node_models(n2, i, g, scope),
    decreases g,
{
    if g.ntype == NodeType::ElementNode {
        let scope2 = scope + g.decls;
        assert forall|k: int| 0 <= k < g.children.len() implies node_models(
            n2,
            #[trigger] n2[i].children@[k] as int,
            g.children[k],
            scope2,
        ) by {
            assert(node_models(n1, n1[i].children@[k] as int, g.children[k], scope2));
            lemma_models_frame(n1, n2, n1[i].children@[k] as int, g.children[k], scope2);
            assert(n2[i].children@[k] == n1[i].children@[k]);
        }
        assert forall|k: int| 0 <= k < g.attrs.len() implies {
            let a = #[trigger] n2[i].attrs@[k] as int;
            &&& 0 <= a < n2.len()
            &&& n2[a].name@ == g.attrs[k].name
            &&& n2[a].content@ == g.attrs[k].value
            &&& crate::tree::shape::ns_view(n2[a].ns) == attr_ns_of(g.attrs[k].prefix, scope2)
        } by {
            assert(n2[i].attrs@[k] == n1[i].attrs@[k]);
            let a = n1[i].attrs@[k] as int;
            assert(model_fields_same(n1[a], n2[a]));
        }
    }
}

/// The deep image of a namespace scope.
pub open spec fn scope_view(s: Seq<Namespace>) -> Seq<NamespaceView> {
    crate::tree::shape::decls_view(s)
}

/// Whether a character is markup whitespace.
fn e_is_ws(c: char) -> (r: bool)
    ensures
        r == is_ws(c),
{
    c == ' ' || c == '\t' || c == '\n' || c == '\r'
}

/// Whether a character can stand in a name.
fn e_is_name_char(c: char) -> (r: bool)
    ensures
        r == is_name_char(c),
{
    !(c == ' ' || c == '\t' || c == '\n' || c == '\r' || c == '<' || c == '>' || c == '/' || c
        == '=' || c == '"' || c == '\'' || c == '?' || c == '!' || c == ':' || c == '&' || c
        == ';' || c == '[' || c == ']' || c == '(' || c == ')' || c == '@' || c == '*')
}

/// Skips whitespace.
fn e_ws(v: &Vec<char>, p: usize) -> (r: usize)
    requires
        p <= v@.len(),
    ensures
        r as int == sp_ws(v@, p as int),
        p <= r <= v@.len(),
{
    let n = v.len();
    let mut k = p;
    while k < n && e_is_ws(*vstd::std_specs::vec::vec_index(v, k))
        invariant
            p <= k <= n,
            n == v@.len(),
            sp_ws(v@, p as int) == sp_ws(v@, k as int),
        decreases n - k,
    {
        k = k + 1;
    }
    k
}

/// Scans to the end of a name run.
pub(crate) fn e_name_end(v: &Vec<char>, p: usize) -> (r: usize)
    requires
        p <= v@.len(),
    ensures
        r as int == sp_name_end(v@, p as int),
        p <= r <= v@.len(),
{
    let n = v.len();
    let mut k = p;
    while k < n && e_is_name_char(*vstd::std_specs::vec::vec_index(v, k))
        invariant
            p <= k <= n,
            n == v@.len(),
            sp_name_end(v@, p as int) == sp_name_end(v@, k as int),
        decreases n - k,
    {
        k = k + 1;
    }
    k
}

/// Whether the characters of `pat` stand at `p`.
pub(crate) fn lit_at(v: &Vec<char>, p: usize, pat: &str) -> (r: bool)
    requires
        p <= v@.len(),
    ensures
        r == (p + pat@.len() <= v@.len() && v@.subrange(p as int, p as int + pat@.len() as int)
            == pat@),
{
    let w = str_to_chars(pat);
    let m = w.len();
    let n = v.len();
    if n - p < m {
        proof {
            if p + pat@.len() <= v@.len() {
                assert(false);
            }
        }
        return false;
    }
    let mut k: usize = 0;
    while k < m
        invariant
            k <= m,
            m == pat@.len(),
            w@ == pat@,
            n == v@.len(),
            p + m <= n,
            forall|j: int| 0 <= j < k ==> v@[p + j] == pat@[j],
        decreases m - k,
    {
        if v[p + k] != w[k] {
            proof {
                if v@.subrange(p as int, p as int + pat@.len() as int) == pat@ {
                    assert(v@.subrange(p as int, p as int + pat@.len() as int)[k as int]
                        == pat@[k as int]);
                }
            }
            return false;
        }
        k = k + 1;
    }
    proof {
        assert(v@.subrange(p as int, p as int + pat@.len() as int) =~= pat@);
    }
    true
}

/// Reads the entity reference at `p`, if any.
fn e_entity(v: &Vec<char>, p: usize) -> (r: Option<(char, usize)>)
    requires
        p <= v@.len(),
    ensures
        match sp_entity(v@, p as int) {
            Some(cp) => r matches Some(x) && x.0 == cp.0 && x.1 as int == cp.1,
            None => r is None,
        },
{
    proof {
        reveal_strlit("&amp;");
        reveal_strlit("&lt;");
        reveal_strlit("&gt;");
        reveal_strlit("&quot;");
        reveal_strlit("&apos;");
        assert("&amp;"@ =~= seq!['&', 'a', 'm', 'p', ';']);
        assert("&lt;"@ =~= seq!['&', 'l', 't', ';']);
        assert("&gt;"@ =~= seq!['&', 'g', 't', ';']);
        assert("&quot;"@ =~= seq!['&', 'q', 'u', 'o', 't', ';']);
        assert("&apos;"@ =~= seq!['&', 'a', 'p', 'o', 's', ';']);
    }
    let n = v.len();
    if lit_at(v, p, "&amp;") {
        proof {
            assert(p + 5 <= n);
        }
        Some(('&', p + 5))
    } else if lit_at(v, p, "&lt;") {
        proof {
            assert(p + 4 <= n);
        }
        Some(('<', p + 4))
    } else if lit_at(v, p, "&gt;") {
        proof {
            assert(p + 4 <= n);
        }
        Some(('>', p + 4))
    } else if lit_at(v, p, "&quot;") {
        proof {
            assert(p + 6 <= n);
        }
        Some(('"', p + 6))
    } else if lit_at(v, p, "&apos;") {
        proof {
            assert(p + 6 <= n);
        }
        Some(('\'', p + 6))
    } else {
        None
    }
}

/// Reads the decoded text run at `p`.
fn e_text(v: &Vec<char>, p: usize) -> (r: Option<(Vec<char>, usize)>)
    requires
        p <= v@.len(),
    ensures
        match sp_text(v@, p as int) {
            Some(tp) => r matches Some(x) && x.0@ == tp.0 && x.1 as int == tp.1 && p <= x.1
                <= v@.len(),
            None => r is None,
        },
{
    let n = v.len();
    let mut out: Vec<char> = Vec::new();
    let mut k = p;
    loop
        invariant
            p <= k <= n,
            n == v@.len(),
            match sp_text(v@, k as int) {
                Some(tp) => sp_text(v@, p as int) matches Some(w) && w.0 == out@ + tp.0 && w.1
                    == tp.1,
                None => sp_text(v@, p as int) is None,
            },
        decreases n - k,
    {
        if k >= n || v[k] == '<' {
            proof {
                assert(out@ + Seq::<char>::empty() =~= out@);
            }
            return Some((out, k));
        }
        let ghost pre = out@;
        if v[k] == '&' {
            match e_entity(v, k) {
                Some((c, k2)) => {
                    if k2 <= k || k2 > n {
                        proof {
                            assert(false);
                        }
                        return None;
                    }
                    out.push(c);
                    proof {
                        match sp_text(v@, k2 as int) {
                            Some(tp) => {
                                assert((pre + seq![c]) + tp.0 =~= pre + (seq![c] + tp.0));
                            },
                            None => {},
                        }
                    }
                    k = k2;
                },
                None => {
                    return None;
                },
            }
        } else {
            let c = v[k];
            out.push(c);
            proof {
                match sp_text(v@, k + 1) {
                    Some(tp) => {
                        assert((pre + seq![c]) + tp.0 =~= pre + (seq![c] + tp.0));
                    },
                    None => {},
                }
            }
            k = k + 1;
        }
    }
}

/// Reads the decoded characters of a quoted value after its opening quote.
fn e_qchars(v: &Vec<char>, p: usize, q: char) -> (r: Option<(Vec<char>, usize)>)
    requires
        p <= v@.len(),
    ensures
        match sp_qchars(v@, p as int, q) {
            Some(tp) => r matches Some(x) && x.0@ == tp.0 && x.1 as int == tp.1 && p < x.1
                <= v@.len(),
            None => r is None,
        },
{
    let n = v.len();
    let mut out: Vec<char> = Vec::new();
    let mut k = p;
    loop
        invariant
            p <= k <= n,
            n == v@.len(),
            match sp_qchars(v@, k as int, q) {
                Some(tp) => sp_qchars(v@, p as int, q) matches Some(w) && w.0 == out@ + tp.0
                    && w.1 == tp.1,
                None => sp_qchars(v@, p as int, q) is None,
            },
        decreases n - k,
    {
        if k >= n {
            return None;
        }
        if v[k] == q {
            proof {
                assert(out@ + Seq::<char>::empty() =~= out@);
            }
            return Some((out, k + 1));
        }
        if v[k] == '<' {
            return None;
        }
        let ghost pre = out@;
        if v[k] == '&' {
            match e_entity(v, k) {
                Some((c, k2)) => {
                    if k2 <= k || k2 > n {
                        proof {
                            assert(false);
                        }
                        return None;
                    }
                    out.push(c);
                    proof {
                        match sp_qchars(v@, k2 as int, q) {
                            Some(tp) => {
                                assert((pre + seq![c]) + tp.0 =~= pre + (seq![c] + tp.0));
                            },
                            None => {},
                        }
                    }
                    k = k2;
                },
                None => {
                    return None;
                },
            }
        } else {
            let c = v[k];
            out.push(c);
            proof {
                match sp_qchars(v@, k + 1, q) {
                    Some(tp) => {
                        assert((pre + seq![c]) + tp.0 =~= pre + (seq![c] + tp.0));
                    },
                    None => {},
                }
            }
            k = k + 1;
        }
    }
}

/// Reads a quoted value at `p`.
fn e_quoted(v: &Vec<char>, p: usize) -> (r: Option<(Vec<char>, usize)>)
    requires
        p <= v@.len(),
    ensures
        match sp_quoted(v@, p as int) {
            Some(tp) => r matches Some(x) && x.0@ == tp.0 && x.1 as int == tp.1 && p < x.1
                <= v@.len(),
            None => r is None,
        },
{
    if p < v.len() && (v[p] == '"' || v[p] == '\'') {
        e_qchars(v, p + 1, v[p])
    } else {
        None
    }
}

/// Reads a qualified name at `p`: prefix (empty for none), local name, and
/// the position after.
fn e_qname(v: &Vec<char>, p: usize) -> (r: Option<(Vec<char>, Vec<char>, usize)>)
    requires
        p <= v@.len(),
    ensures
        match sp_qname(v@, p as int) {
            Some(t) => r matches Some(x) && x.0@ == t.0 && x.1@ == t.1 && x.2 as int == t.2 && p
                < x.2 <= v@.len(),
            None => r is None,
        },
{
    let n1 = e_name_end(v, p);
    if n1 == p {
        return None;
    }
    if n1 < v.len() && v[n1] == ':' {
        let n2 = e_name_end(v, n1 + 1);
        if n2 == n1 + 1 {
            return None;
        }
        let pref = copy_range(v, p, n1);
        let local = copy_range(v, n1 + 1, n2);
        Some((pref, local, n2))
    } else {
        let local = copy_range(v, p, n1);
        Some((Vec::new(), local, n1))
    }
}

/// A fresh copy of the characters in `[lo, hi)`.
pub(crate) fn copy_range(v: &Vec<char>, lo: usize, hi: usize) -> (r: Vec<char>)
    requires
        lo <= hi <= v@.len(),
    ensures
        r@ == v@.subrange(lo as int, hi as int),
{
    let mut out: Vec<char> = Vec::new();
    let mut k = lo;
    while k < hi
        invariant
            lo <= k <= hi <= v@.len(),
            out@ == v@.subrange(lo as int, k as int),
        decreases hi - k,
    {
        out.push(v[k]);
        proof {
            assert(out@ =~= v@.subrange(lo as int, k + 1 as int));
        }
        k = k + 1;
    }
    out
}

/// An attribute parsed from text, before namespace resolution.
struct PAttr {
    /// The prefix (empty for none)
    prefix: Vec<char>,
    /// The local name
    name: Vec<char>,
    /// The decoded value
    value: Vec<char>,
}

impl PAttr {
    /// The mathematical image of this attribute.
    spec fn view_of(&self) -> GAttr {
        GAttr { prefix: self.prefix@, name: self.name@, value: self.value@ }
    }
}

/// The images of a list of parsed attributes.
spec fn pattrs_view(s: Seq<PAttr>) -> Seq<GAttr> {
    s.map_values(|a: PAttr| a.view_of())
}

/// Reads the attribute list at `p`.
fn e_attrs(v: &Vec<char>, p: usize) -> (r: Option<(Vec<PAttr>, Vec<Namespace>, usize)>)
    requires
        p <= v@.len(),
    ensures
        match sp_attrs(v@, p as int) {
            Some(t) => r matches Some(x) && pattrs_view(x.0@) == t.0 && scope_view(x.1@) == t.1
                && x.2 as int == t.2 && p <= x.2 <= v@.len() && x.0@.len() + x.1@.len() <= x.2
                - p,
            None => r is None,
        },
    decreases v@.len() - p,
{
    proof {
        reveal_strlit("xmlns");
        assert("xmlns"@ =~= seq!['x', 'm', 'l', 'n', 's']);
    }
    let p1 = e_ws(v, p);
    if p1 < v.len() && e_is_name_char(v[p1]) {
        let (pref, local, n2) = match e_qname(v, p1) {
            Some(t) => t,
            None => {
                return None;
            },
        };
        let p2 = e_ws(v, n2);
        if p2 < v.len() && v[p2] == '=' {
            let p3 = e_ws(v, p2 + 1);
            let (value, p4) = match e_quoted(v, p3) {
                Some(t) => t,
                None => {
                    return None;
                },
            };
            if !(p < p4) {
                proof {
                    assert(false);
                }
                return None;
            }
            let (mut ats, mut dcs, p5) = match e_attrs(v, p4) {
                Some(t) => t,
                None => {
                    return None;
                },
            };
            let xmlns = str_to_chars("xmlns");
            if pref.len() == 0 && crate::tree::chars::eq_chars(&local, &xmlns) {
                dcs.insert(0, Namespace { prefix: Vec::new(), href: value });
                proof {
                    assert(scope_view(dcs@) =~= seq![
                        NamespaceView {
                            prefix: Seq::<char>::empty(),
                            href: dcs@[0].href@,
                        },
                    ] + scope_view(dcs@.subrange(1, dcs@.len() as int)));
                }
                Some((ats, dcs, p5))
            } else if crate::tree::chars::eq_chars(&pref, &xmlns) {
                dcs.insert(0, Namespace { prefix: local, href: value });
                proof {
                    assert(scope_view(dcs@) =~= seq![
                        NamespaceView { prefix: dcs@[0].prefix@, href: dcs@[0].href@ },
                    ] + scope_view(dcs@.subrange(1, dcs@.len() as int)));
                }
                Some((ats, dcs, p5))
            } else {
                ats.insert(0, PAttr { prefix: pref, name: local, value });
                proof {
                    assert(pattrs_view(ats@) =~= seq![ats@[0].view_of()] + pattrs_view(
                        ats@.subrange(1, ats@.len() as int),
                    ));
                }
                Some((ats, dcs, p5))
            }
        } else {
            None
        }
    } else {
        Some((Vec::new(), Vec::new(), p1))
    }
}

/// Resolves a prefix against the innermost declarations of the scope.
fn e_resolve(scope: &Vec<Namespace>, prefix: &Vec<char>) -> (r: Option<Namespace>)
    ensures
        match resolve_prefix(scope_view(scope@), prefix@) {
            Some(d) => r matches Some(x) && x@ == d,
            None => r is None,
        },
{
    let n = scope.len();
    proof {
        assert(scope_view(scope@).subrange(0, n as int) =~= scope_view(scope@));
    }
    let mut k = n;
    while k > 0
        invariant
            k <= n,
            n == scope@.len(),
            resolve_prefix(scope_view(scope@), prefix@) == resolve_prefix(
                scope_view(scope@).subrange(0, k as int),
                prefix@,
            ),
        decreases k,
    {
        proof {
            let sv = scope_view(scope@).subrange(0, k as int);
            assert(sv.len() == k);
            assert(sv.last() == scope@[k - 1]@);
            assert(sv.drop_last() =~= scope_view(scope@).subrange(0, k - 1));
        }
        if crate::tree::chars::eq_chars(&scope[k - 1].prefix, prefix) {
            return Some(scope[k - 1].duplicate());
        }
        k = k - 1;
    }
    proof {
        assert(scope_view(scope@).subrange(0, 0) =~= Seq::<NamespaceView>::empty());
    }
    let xml = str_to_chars("xml");
    if crate::tree::chars::eq_chars(prefix, &xml) {
        let b = Namespace {
            prefix: str_to_chars("xml"),
            href: str_to_chars("http://www.w3.org/XML/1998/namespace"),
        };
        proof {
            reveal_strlit("xml");
            reveal_strlit("http://www.w3.org/XML/1998/namespace");
            assert("xml"@ =~= seq!['x', 'm', 'l']);
            assert("http://www.w3.org/XML/1998/namespace"@ =~= xml_builtin_ns().href);
            assert(b@ == xml_builtin_ns());
        }
        Some(b)
    } else {
        proof {
            reveal_strlit("xml");
            assert("xml"@ =~= seq!['x', 'm', 'l']);
        }
        None
    }
}

/// The namespace for an element with the given prefix, if it resolves.
fn e_elem_ns(scope: &Vec<Namespace>, prefix: &Vec<char>) -> (r: Result<Option<Namespace>, ()>)
    ensures
        prefix@.len() > 0 && resolve_prefix(scope_view(scope@), prefix@) is None <==> r is Err,
        r matches Ok(x) ==> crate::tree::shape::ns_view(x) == elem_ns_of(
            prefix@,
            scope_view(scope@),
        ),
{
    match e_resolve(scope, prefix) {
        Some(d) => {
            proof {
                assert(resolve_prefix(scope_view(scope@), prefix@) == Some(d@));
            }
            if prefix.len() == 0 && d.href.len() == 0 {
                proof {
                    assert(d@.href.len() == 0);
                    assert(prefix@ =~= Seq::<char>::empty());
                    assert(elem_ns_of(prefix@, scope_view(scope@)) is None);
                }
                Ok(None)
            } else {
                proof {
                    if prefix@.len() == 0 {
                        assert(d@.href.len() > 0);
                        assert(prefix@ =~= Seq::<char>::empty());
                        assert(elem_ns_of(prefix@, scope_view(scope@)) == Some(d@));
                    } else {
                        assert(elem_ns_of(prefix@, scope_view(scope@)) == Some(d@));
                    }
                }
                Ok(Some(d))
            }
        },
        None => {
            if prefix.len() == 0 {
                proof {
                    assert(prefix@ =~= Seq::<char>::empty());
                    assert(elem_ns_of(prefix@, scope_view(scope@)) is None);
                }
                Ok(None)
            } else {
                Err(())
            }
        },
    }
}

/// Finds the position just after the first occurrence of `pat`.
fn e_find_after(v: &Vec<char>, p: usize, pat: &str) -> (r: Option<usize>)
    requires
        p <= v@.len(),
        pat@.len() > 0,
    ensures
        match sp_find_after(v@, p as int, pat@) {
            Some(q) => r matches Some(x) && x as int == q && p + pat@.len() <= x <= v@.len(),
            None => r is None,
        },
{
    let n = v.len();
    let mut k = p;
    loop
        invariant
            p <= k <= n,
            n == v@.len(),
            pat@.len() > 0,
            sp_find_after(v@, p as int, pat@) == sp_find_after(v@, k as int, pat@),
        decreases n - k,
    {
        if n - k < str_len_of(pat) {
            proof {
                assert(sp_find_after(v@, k as int, pat@) is None);
            }
            return None;
        }
        if lit_at(v, k, pat) {
            let w = str_to_chars(pat);
            proof {
                assert(k + pat@.len() <= n);
            }
            return Some(k + w.len());
        }
        k = k + 1;
    }
}

/// The byte-free length of a pattern, as characters.
fn str_len_of(s: &str) -> (r: usize)
    ensures
        r == s@.len(),
{
    let w = str_to_chars(s);
    w.len()
}

/// Creates a fresh detached record of a text-like kind.
fn push_leaf(
    doc: &mut Document,
    nt: NodeType,
    name: Vec<char>,
    content: Vec<char>,
) -> (r: usize)
    requires
        old(doc).wf(),
        old(doc).nodes@.len() < usize::MAX - 1,
        nt != NodeType::DocumentNode,
    ensures
        final(doc).wf(),
        r == old(doc).nodes@.len(),
        final(doc).nodes@.len() == old(doc).nodes@.len() + 1,
        final(doc).guard == old(doc).guard,
        forall|j: int|
            0 <= j < old(doc).nodes@.len() ==> final(doc).nodes@[j] == #[trigger] old(
                doc,
            ).nodes@[j],
        final(doc).nodes@[r as int].ntype == nt,
        final(doc).nodes@[r as int].name@ == name@,
        final(doc).nodes@[r as int].content@ == content@,
        final(doc).nodes@[r as int].parent is None,
        final(doc).nodes@[r as int].children@.len() == 0,
        final(doc).nodes@[r as int].attrs@.len() == 0,
        final(doc).nodes@[r as int].ns_decls@.len() == 0,
        final(doc).nodes@[r as int].ns is None,
        final(doc).nodes@[r as int].alias_count == 0,
{
    let rec = crate::tree::shape::NodeRec {
        ntype: nt,
        name,
        content,
        parent: None,
        children: Vec::new(),
        attrs: Vec::new(),
        ns_decls: Vec::new(),
        ns: None,
        alias_count: 0,
        height: Ghost(0),
    };
    let id = doc.nodes.len();
    proof {
        crate::tree::shape::lemma_shape_push(doc.nodes@, rec);
    }
    doc.nodes.push(rec);
    id
}

/// Pushes the record of a parsed element, with its attributes, into the
/// arena, detached.
fn build_elem_rec(
    doc: &mut Document,
    local: Vec<char>,
    own_ns: Option<Namespace>,
    dcs: Vec<Namespace>,
    ats: &Vec<PAttr>,
    ans: &Vec<Option<Namespace>>,
) -> (e: usize)
    requires
        old(doc).wf(),
        old(doc).nodes@.len() + 1 + ats@.len() < usize::MAX - 1,
        ans@.len() == ats@.len(),
    ensures
        final(doc).wf(),
        final(doc).guard == old(doc).guard,
        e == old(doc).nodes@.len(),
        final(doc).nodes@.len() == old(doc).nodes@.len() + 1 + ats@.len(),
        forall|j: int|
            0 <= j < old(doc).nodes@.len() ==> final(doc).nodes@[j] == #[trigger] old(
                doc,
            ).nodes@[j],
        final(doc).nodes@[e as int].ntype == NodeType::ElementNode,
        final(doc).nodes@[e as int].name@ == local@,
        crate::tree::shape::ns_view(final(doc).nodes@[e as int].ns)
            == crate::tree::shape::ns_view(own_ns),
        crate::tree::shape::decls_view(final(doc).nodes@[e as int].ns_decls@) == scope_view(dcs@),
        final(doc).nodes@[e as int].parent is None,
        final(doc).nodes@[e as int].children@.len() == 0,
        final(doc).nodes@[e as int].alias_count == 0,
        final(doc).nodes@[e as int].attrs@.len() == ats@.len(),
        forall|k: int|
            0 <= k < ats@.len() ==> {
                let a = #[trigger] final(doc).nodes@[e as int].attrs@[k] as int;
                &&& old(doc).nodes@.len() < a < final(doc).nodes@.len()
                &&& final(doc).nodes@[a].name@ == ats@[k].view_of().name
                &&& final(doc).nodes@[a].content@ == ats@[k].view_of().value
                &&& crate::tree::shape::ns_view(final(doc).nodes@[a].ns)
                    == crate::tree::shape::ns_view(ans@[k])
            },
{
    let rec = crate::tree::shape::NodeRec {
        ntype: NodeType::ElementNode,
        name: local,
        content: Vec::new(),
        parent: None,
        children: Vec::new(),
        attrs: Vec::new(),
        ns_decls: dcs,
        ns: own_ns,
        alias_count: 0,
        height: Ghost(0),
    };
    let e = doc.nodes.len();
    proof {
        crate::tree::shape::lemma_shape_push(doc.nodes@, rec);
    }
    doc.nodes.push(rec);
    let ghost d1 = *doc;
    let mut k: usize = 0;
    while k < ats.len()
        invariant
            doc.wf(),
            doc.guard == d1.guard,
            k <= ats@.len(),
            ans@.len() == ats@.len(),
            e == d1.nodes@.len() - 1,
            e < doc.nodes@.len(),
            doc.nodes@.len() == d1.nodes@.len() + k,
            d1.nodes@.len() + ats@.len() < usize::MAX - 1,
            d1.nodes@[e as int].ntype == NodeType::ElementNode,
            forall|j: int|
                0 <= j < d1.nodes@.len() && j != e ==> doc.nodes@[j] == #[trigger] d1.nodes@[j],
            crate::tree::shape::rec_eq_but_attrs(doc.nodes@[e as int], d1.nodes@[e as int]),
            doc.nodes@[e as int].attrs@.len() == k,
            forall|m: int|
                0 <= m < k ==> {
                    let a = #[trigger] doc.nodes@[e as int].attrs@[m] as int;
                    &&& e < a < doc.nodes@.len()
                    &&& doc.nodes@[a].name@ == ats@[m].view_of().name
                    &&& doc.nodes@[a].content@ == ats@[m].view_of().value
                    &&& crate::tree::shape::ns_view(doc.nodes@[a].ns)
                        == crate::tree::shape::ns_view(ans@[m])
                },
        decreases ats@.len() - k,
    {
        let ghost pre = *doc;
        let name = crate::tree::chars::copy_chars(&ats[k].name);
        let value = crate::tree::chars::copy_chars(&ats[k].value);
        let ns = match &ans[k] {
            Some(d) => Some(d.duplicate()),
            None => None,
        };
        let a = doc.raw_add_attr(e, name, value, ns);
        proof {
            assert(doc.nodes@[e as int].attrs@ =~= pre.nodes@[e as int].attrs@.push(a));
        }
        k = k + 1;
    }
    proof {
        assert forall|j: int| 0 <= j < old(doc).nodes@.len() implies doc.nodes@[j] == #[trigger] old(
            doc,
        ).nodes@[j] by {
            assert(j != e);
            assert(doc.nodes@[j] == d1.nodes@[j]);
        }
    }
    e
}

/// Resolves the namespaces of a parsed attribute list against a scope.
fn resolve_attr_nss(scope: &Vec<Namespace>, ats: &Vec<PAttr>) -> (r: Result<
    Vec<Option<Namespace>>,
    (),
>)
    ensures
        (r is Ok <==> (forall|k: int|
            0 <= k < ats@.len() ==> ((#[trigger] ats@[k].view_of()).prefix.len() > 0
                ==> resolve_prefix(scope_view(scope@), ats@[k].view_of().prefix) is Some))),
        r matches Ok(x) ==> x@.len() == ats@.len() && (forall|k: int|
            0 <= k < ats@.len() ==> crate::tree::shape::ns_view(#[trigger] x@[k]) == attr_ns_of(
                ats@[k].view_of().prefix,
                scope_view(scope@),
            )),
{
    let mut out: Vec<Option<Namespace>> = Vec::new();
    let mut k: usize = 0;
    while k < ats.len()
        invariant
            k <= ats@.len(),
            out@.len() == k,
            forall|m: int|
                0 <= m < k ==> ((#[trigger] ats@[m].view_of()).prefix.len() > 0
                    ==> resolve_prefix(scope_view(scope@), ats@[m].view_of().prefix) is Some),
            forall|m: int|
                0 <= m < k ==> crate::tree::shape::ns_view(#[trigger] out@[m]) == attr_ns_of(
                    ats@[m].view_of().prefix,
                    scope_view(scope@),
                ),
        decreases ats@.len() - k,
    {
        let pa = &ats[k];
        if pa.prefix.len() > 0 {
            match e_resolve(scope, &pa.prefix) {
                Some(d) => {
                    out.push(Some(d));
                },
                None => {
                    proof {
                        assert(ats@[k as int].view_of().prefix == pa.prefix@);
                        assert(ats@[k as int].view_of().prefix.len() > 0 && resolve_prefix(
                            scope_view(scope@),
                            ats@[k as int].view_of().prefix,
                        ) is None);
                    }
                    return Err(());
                },
            }
        } else {
            out.push(None);
            proof {
                assert(ats@[k as int].view_of().prefix =~= Seq::<char>::empty());
            }
        }
        k = k + 1;
    }
    Ok(out)
}

/// Restores a namespace scope to its earlier length.
fn scope_pop_to(scope: &mut Vec<Namespace>, orig: usize)
    requires
        orig <= old(scope)@.len(),
    ensures
        final(scope)@ == old(scope)@.subrange(0, orig as int),
{
    scope.truncate(orig);
}

/// Extends a namespace scope with parsed declarations.
fn scope_push_all(scope: &mut Vec<Namespace>, dcs: &Vec<Namespace>)
    ensures
        final(scope)@.len() == old(scope)@.len() + dcs@.len(),
        final(scope)@.subrange(0, old(scope)@.len() as int) == old(scope)@,
        scope_view(final(scope)@) == scope_view(old(scope)@) + scope_view(dcs@),
{
    let mut di: usize = 0;
    while di < dcs.len()
        invariant
            di <= dcs@.len(),
            scope@.len() == old(scope)@.len() + di,
            scope@.subrange(0, old(scope)@.len() as int) =~= old(scope)@,
            scope_view(scope@) =~= scope_view(old(scope)@) + scope_view(
                dcs@.subrange(0, di as int),
            ),
        decreases dcs@.len() - di,
    {
        let ghost pre = scope@;
        scope.push(dcs[di].duplicate());
        proof {
            assert(scope@.subrange(0, old(scope)@.len() as int) =~= pre.subrange(
                0,
                old(scope)@.len() as int,
            ));
            assert(scope_view(scope@) =~= scope_view(pre) + seq![dcs@[di as int]@]);
            assert(scope_view(dcs@.subrange(0, di + 1 as int)) =~= scope_view(
                dcs@.subrange(0, di as int),
            ) + seq![dcs@[di as int]@]);
            assert(scope_view(scope@) =~= scope_view(old(scope)@) + scope_view(
                dcs@.subrange(0, di + 1 as int),
            ));
        }
        di = di + 1;
    }
    proof {
        assert(dcs@.subrange(0, dcs@.len() as int) =~= dcs@);
        assert(scope_view(scope@) =~= scope_view(old(scope)@) + scope_view(dcs@));
    }
}

/// Builds the element starting at `p` into the arena, detached, with its
/// namespaces resolved against `scope`.
#[verifier::rlimit(100)]
fn e_element(doc: &mut Document, v: &Vec<char>, p: usize, scope: &mut Vec<Namespace>) -> (r:
    Result<(usize, usize), ()>)
    requires
        old(doc).wf(),
        p <= v@.len(),
        old(doc).nodes@.len() + (v@.len() - p) < usize::MAX - 1,
    ensures
        final(doc).wf(),
        final(doc).guard == old(doc).guard,
        final(scope)@ == old(scope)@,
        old(doc).nodes@.len() <= final(doc).nodes@.len(),
        forall|j: int|
            0 <= j < old(doc).nodes@.len() ==> final(doc).nodes@[j] == #[trigger] old(
                doc,
            ).nodes@[j],
        match sp_element(v@, p as int) {
            Some(t) => {
                &&& (r is Ok <==> resolves_ok(t.0, scope_view(old(scope)@)))
                &&& (r matches Ok(x) ==> {
                    &&& x.1 as int == t.1
                    &&& p < x.1 <= v@.len()
                    &&& old(doc).nodes@.len() <= x.0 < final(doc).nodes@.len()
                    &&& node_models(
                        final(doc).nodes@,
                        x.0 as int,
                        t.0,
                        scope_view(old(scope)@),
                    )
                    &&& final(doc).nodes@[x.0 as int].parent is None
                    &&& final(doc).nodes@[x.0 as int].alias_count == 0
                    &&& final(doc).nodes@[x.0 as int].ntype == NodeType::ElementNode
                    &&& final(doc).nodes@.len() - old(doc).nodes@.len() <= x.1 - p
                })
            },
            None => r is Err,
        },
    decreases v@.len() - p, 0int,
{
    let n = v.len();
    if p >= n || n - p < 2 {
        return Err(());
    }
    if !(v[p] == '<' && e_is_name_char(v[p + 1])) {
        return Err(());
    }
    let (pref, local, n1) = match e_qname(v, p + 1) {
        Some(t) => t,
        None => {
            return Err(());
        },
    };
    let (ats, dcs, p2) = match e_attrs(v, n1) {
        Some(t) => t,
        None => {
            return Err(());
        },
    };
    proof {
        assert(p < n1);
        assert(p < p2);
    }
    let ghost scope0 = scope_view(scope@);
    // open the element's namespace scope
    let orig_scope_len = scope.len();
    scope_push_all(scope, &dcs);
    let ghost scope2 = scope_view(scope@);
    // resolve the element's own namespace and the attribute namespaces
    let own_ns_r = e_elem_ns(scope, &pref);
    let ans_r = resolve_attr_nss(scope, &ats);
    let resolved = own_ns_r.is_ok() && ans_r.is_ok();
    proof {
        // if the whole element parses, a resolution failure here refutes it
        if sp_element(v@, p as int) is Some {
            let t = sp_element(v@, p as int)->Some_0;
            assert(t.0.prefix == pref@ && t.0.attrs == pattrs_view(ats@) && t.0.decls
                == scope_view(dcs@));
            if !resolved {
                assert(!resolves_ok(t.0, scope0)) by {
                    if own_ns_r is Err {
                        assert(pref@.len() > 0 && resolve_prefix(scope2, pref@) is None);
                    } else {
                        let k = choose|k: int|
                            0 <= k < ats@.len() && ((#[trigger] ats@[k].view_of()).prefix.len()
                                > 0 && resolve_prefix(scope2, ats@[k].view_of().prefix)
                                is None);
                        assert(t.0.attrs[k] == ats@[k].view_of());
                    }
                }
            }
        }
    }
    if !resolved {
        scope_pop_to(scope, orig_scope_len);
        proof {
            assert(scope@ =~= old(scope)@);
        }
        return Err(());
    }
    let own_ns = match own_ns_r {
        Ok(x) => x,
        Err(()) => {
            proof {
                assert(false);
            }
            return Err(());
        },
    };
    let ans = match ans_r {
        Ok(x) => x,
        Err(()) => {
            proof {
                assert(false);
            }
            return Err(());
        },
    };
    // the tag is either self-closing or carries content and a closing tag
    if n - p2 >= 2 && v[p2] == '/' && v[p2 + 1] == '>' {
        proof {
            assert(ats@.len() <= p2 - p);
        }
        let e = build_elem_rec(doc, local, own_ns, dcs, &ats, &ans);
        scope_pop_to(scope, orig_scope_len);
        proof {
            assert(scope@ =~= old(scope)@);
            let t = sp_element(v@, p as int)->Some_0;
            assert(t.0.ntype == NodeType::ElementNode && t.0.name == doc.nodes@[
                e as int
            ].name@ && t.0.children.len() == 0);
            assert(scope0 + t.0.decls =~= scope2);
            assert(node_models(doc.nodes@, e as int, t.0, scope0));
            assert(resolves_ok(t.0, scope0));
        }
        Ok((e, p2 + 2))
    } else if p2 < n && v[p2] == '>' {
        let ghost dmid = *doc;
        let cr = e_content(doc, v, p2 + 1, scope);
        proof {
            if sp_element(v@, p as int) is Some {
                let t = sp_element(v@, p as int)->Some_0;
                if cr is Err {
                    if sp_content(v@, p2 + 1) is Some {
                        let ct = sp_content(v@, p2 + 1)->Some_0;
                        let k = choose|k: int|
                            0 <= k < ct.0.len() && !resolves_ok(#[trigger] ct.0[k], scope2);
                        assert(t.0.children == ct.0);
                        assert(!resolves_ok(t.0, scope0)) by {
                            assert(scope0 + t.0.decls =~= scope2);
                            assert(!resolves_ok(t.0.children[k], scope0 + t.0.decls));
                        }
                    }
                }
            }
        }
        let (kids, p3) = match cr {
            Ok(t) => t,
            Err(()) => {
                scope_pop_to(scope, orig_scope_len);
                proof {
                    assert(scope@ =~= old(scope)@);
                }
                return Err(());
            },
        };
        // the closing tag must repeat the name
        if p3 >= n || n - p3 < 2 || !(v[p3] == '<' && v[p3 + 1] == '/') {
            scope_pop_to(scope, orig_scope_len);
            proof {
                assert(scope@ =~= old(scope)@);
            }
            return Err(());
        }
        let cq = e_qname(v, p3 + 2);
        let name_ok: bool = match &cq {
            Some(t) => crate::tree::chars::eq_chars(&t.0, &pref) && crate::tree::chars::eq_chars(
                &t.1,
                &local,
            ),
            None => false,
        };
        if !name_ok {
            scope_pop_to(scope, orig_scope_len);
            proof {
                assert(scope@ =~= old(scope)@);
            }
            return Err(());
        }
        let p4 = match cq {
            Some(t) => t.2,
            None => {
                proof {
                    assert(false);
                }
                return Err(());
            },
        };
        let p5 = e_ws(v, p4);
        if !(p5 < n && v[p5] == '>') {
            scope_pop_to(scope, orig_scope_len);
            proof {
                assert(scope@ =~= old(scope)@);
            }
            return Err(());
        }
        let ghost dkids = *doc;
        proof {
            assert(ats@.len() <= p2 - p);
            assert(dkids.nodes@.len() - dmid.nodes@.len() <= p3 - (p2 + 1));
        }
        let e = build_elem_rec(doc, local, own_ns, dcs, &ats, &ans);
        let ghost dattrs = *doc;
        // link the children under the element, in order
        let ghost gkids = sp_content(v@, p2 + 1)->Some_0.0;
        proof {
            assert forall|j: int, k: int|
                0 <= j < doc.nodes@.len() && j < e && 0 <= k < doc.nodes@[j].children@.len()
                    implies (#[trigger] doc.nodes@[j].children@[k]) < e by {
                assert(doc.nodes@[j] == dkids.nodes@[j]);
                assert(crate::tree::shape::node_ok(dkids.nodes@, j));
                assert(crate::tree::shape::child_edge_ok(
                    dkids.nodes@,
                    j,
                    dkids.nodes@[j].children@[k] as int,
                ));
            }
        }
        let mut ci: usize = 0;
        while ci < kids.len()
            invariant
                doc.wf(),
                doc.guard == dattrs.guard,
                doc.nodes@.len() == dattrs.nodes@.len(),
                e < dattrs.nodes@.len(),
                e == dkids.nodes@.len(),
                dkids.nodes@.len() <= dattrs.nodes@.len(),
                forall|j: int|
                    0 <= j < dkids.nodes@.len() ==> #[trigger] dattrs.nodes@[j]
                        == dkids.nodes@[j],
                dattrs.nodes@[e as int].parent is None,
                ci <= kids@.len(),
                dattrs.nodes@[e as int].ntype == NodeType::ElementNode,
                doc.nodes@[e as int].children@.len() == ci,
                forall|m: int|
                    0 <= m < kids@.len() ==> dmid.nodes@.len() <= #[trigger] kids@[m]
                        < dkids.nodes@.len(),
                forall|m1: int, m2: int|
                    0 <= m1 < m2 < kids@.len() ==> kids@[m1] != kids@[m2],
                forall|m: int|
                    0 <= m < kids@.len() ==> (#[trigger] dkids.nodes@[kids@[m] as int].ntype)
                        != NodeType::AttributeNode && dkids.nodes@[kids@[m] as int].ntype
                        != NodeType::DocumentNode,
                forall|m: int| 0 <= m < ci ==> doc.nodes@[e as int].children@[m] == kids@[m],
                forall|m: int|
                    ci <= m < kids@.len() ==> (#[trigger] doc.nodes@[kids@[m] as int].parent)
                        is None,
                forall|j: int|
                    0 <= j < dattrs.nodes@.len() && j != e ==> model_fields_same(
                        #[trigger] dattrs.nodes@[j],
                        doc.nodes@[j],
                    ),
                forall|j: int|
                    0 <= j < dmid.nodes@.len() ==> #[trigger] doc.nodes@[j] == dmid.nodes@[j],
                crate::tree::shape::rec_eq_but_children_height(
                    doc.nodes@[e as int],
                    dattrs.nodes@[e as int],
                ),
                forall|j: int, k: int|
                    0 <= j < doc.nodes@.len() && j < e && 0 <= k < doc.nodes@[j].children@.len()
                        ==> (#[trigger] doc.nodes@[j].children@[k]) < e,
            decreases kids@.len() - ci,
        {
            let c = kids[ci];
            let ghost pre = *doc;
            proof {
                assert(model_fields_same(dattrs.nodes@[c as int], doc.nodes@[c as int]));
                assert(dattrs.nodes@[c as int] == dkids.nodes@[c as int]);
                assert(doc.nodes@[c as int].ntype == dkids.nodes@[c as int].ntype);
                assert(!crate::tree::shape::in_subtree(doc.nodes@, c as int, e as int)) by {
                    if crate::tree::shape::in_subtree(doc.nodes@, c as int, e as int) {
                        crate::tree::shape::lemma_subtree_bound(
                            doc.nodes@,
                            c as int,
                            e as int,
                            e as int,
                        );
                    }
                }
                assert(doc.nodes@[e as int].parent is None);
            }
            let slot = doc.nodes[e].children.len();
            doc.attach_new(e, c, slot);
            proof {
                assert(doc.nodes@[e as int].children@ =~= pre.nodes@[
                    e as int
                ].children@.push(c));
                assert forall|m: int|
                    ci + 1 <= m < kids@.len() implies (#[trigger] doc.nodes@[
                    kids@[m] as int
                ].parent) is None by {
                    assert(kids@[m] != c);
                    assert(crate::tree::shape::rec_eq_but_height(
                        doc.nodes@[kids@[m] as int],
                        pre.nodes@[kids@[m] as int],
                    ));
                }
                assert forall|j: int|
                    0 <= j < dattrs.nodes@.len() && j != e implies model_fields_same(
                    #[trigger] dattrs.nodes@[j],
                    doc.nodes@[j],
                ) by {
                    if j != c {
                        assert(crate::tree::shape::rec_eq_but_height(
                            doc.nodes@[j],
                            pre.nodes@[j],
                        ));
                    } else {
                        assert(crate::tree::shape::rec_eq_but_parent(
                            doc.nodes@[c as int],
                            pre.nodes@[c as int],
                        ));
                    }
                }
                assert forall|j: int|
                    0 <= j < dmid.nodes@.len() implies #[trigger] doc.nodes@[j]
                    == dmid.nodes@[j] by {
                    assert(j != c);
                    assert(j != e);
                    assert(doc.nodes@[j] == pre.nodes@[j]);
                }
                assert forall|j: int, k: int|
                    0 <= j < doc.nodes@.len() && j < e && 0 <= k < doc.nodes@[
                        j
                    ].children@.len() implies (#[trigger] doc.nodes@[j].children@[k])
                    < e by {
                    assert(doc.nodes@[j].children@ == pre.nodes@[j].children@) by {
                        if j == c {
                            assert(crate::tree::shape::rec_eq_but_parent(
                                doc.nodes@[j],
                                pre.nodes@[j],
                            ));
                        } else {
                            assert(crate::tree::shape::rec_eq_but_height(
                                doc.nodes@[j],
                                pre.nodes@[j],
                            ));
                        }
                    }
                }
            }
            ci = ci + 1;
        }
        scope_pop_to(scope, orig_scope_len);
        proof {
            assert(scope@ =~= old(scope)@);
            let t = sp_element(v@, p as int)->Some_0;
            assert(t.0.decls =~= scope_view(dcs@));
            assert(scope0 + t.0.decls =~= scope2);
            assert(t.0.children =~= gkids);
            assert(node_models(doc.nodes@, e as int, t.0, scope0)) by {
                assert forall|m: int| 0 <= m < gkids.len() implies node_models(
                    doc.nodes@,
                    #[trigger] doc.nodes@[e as int].children@[m] as int,
                    gkids[m],
                    scope2,
                ) by {
                    assert(doc.nodes@[e as int].children@[m] == kids@[m]);
                    assert(node_models(dkids.nodes@, kids@[m] as int, gkids[m], scope2));
                    assert forall|j: int|
                        0 <= j < dkids.nodes@.len() implies model_fields_same(
                        #[trigger] dkids.nodes@[j],
                        doc.nodes@[j],
                    ) by {
                        assert(dattrs.nodes@[j] == dkids.nodes@[j]);
                        assert(j != e);
                        assert(model_fields_same(dattrs.nodes@[j], doc.nodes@[j]));
                    }
                    lemma_models_frame(
                        dkids.nodes@,
                        doc.nodes@,
                        kids@[m] as int,
                        gkids[m],
                        scope2,
                    );
                }
                assert forall|k: int| 0 <= k < t.0.attrs.len() implies {
                    let a = #[trigger] doc.nodes@[e as int].attrs@[k] as int;
                    &&& 0 <= a < doc.nodes@.len()
                    &&& doc.nodes@[a].name@ == t.0.attrs[k].name
                    &&& doc.nodes@[a].content@ == t.0.attrs[k].value
                    &&& crate::tree::shape::ns_view(doc.nodes@[a].ns) == attr_ns_of(
                        t.0.attrs[k].prefix,
                        scope2,
                    )
                } by {
                    assert(doc.nodes@[e as int].attrs@ == dattrs.nodes@[e as int].attrs@);
                    let a = dattrs.nodes@[e as int].attrs@[k] as int;
                    assert(a != e);
                    assert(model_fields_same(dattrs.nodes@[a], doc.nodes@[a]));
                    assert(t.0.attrs[k] == ats@[k].view_of());
                }
            }
            assert(resolves_ok(t.0, scope0)) by {
                assert forall|k: int| 0 <= k < t.0.children.len() implies resolves_ok(
                    #[trigger] t.0.children[k],
                    scope0 + t.0.decls,
                ) by {
                    assert(resolves_ok(gkids[k], scope2));
                }
            }
        }
        Ok((e, p5 + 1))
    } else {
        scope_pop_to(scope, orig_scope_len);
        proof {
            assert(scope@ =~= old(scope)@);
        }
        Err(())
    }
}

/// Builds the content items starting at `p` into the arena, each detached,
/// until a closing tag or the end of input.
#[verifier::rlimit(100)]
fn e_content(doc: &mut Document, v: &Vec<char>, p: usize, scope: &mut Vec<Namespace>) -> (r:
    Result<(Vec<usize>, usize), ()>)
    requires
        old(doc).wf(),
        p <= v@.len(),
        old(doc).nodes@.len() + (v@.len() - p) < usize::MAX - 1,
    ensures
        final(doc).wf(),
        final(doc).guard == old(doc).guard,
        final(scope)@ == old(scope)@,
        old(doc).nodes@.len() <= final(doc).nodes@.len(),
        forall|j: int|
            0 <= j < old(doc).nodes@.len() ==> final(doc).nodes@[j] == #[trigger] old(
                doc,
            ).nodes@[j],
        match sp_content(v@, p as int) {
            Some(t) => {
                &&& (r is Ok <==> (forall|k: int|
                    0 <= k < t.0.len() ==> resolves_ok(
                        #[trigger] t.0[k],
                        scope_view(old(scope)@),
                    )))
                &&& (r matches Ok(x) ==> {
                    &&& x.1 as int == t.1
                    &&& p <= x.1 <= v@.len()
                    &&& final(doc).nodes@.len() - old(doc).nodes@.len() <= x.1 - p
                    &&& x.0@.len() == t.0.len()
                    &&& (forall|k: int|
                        0 <= k < x.0@.len() ==> old(doc).nodes@.len() <= (#[trigger] x.0@[k])
                            < final(doc).nodes@.len())
                    &&& (forall|k1: int, k2: int|
                        0 <= k1 < k2 < x.0@.len() ==> x.0@[k1] != x.0@[k2])
                    &&& (forall|k: int|
                        0 <= k < x.0@.len() ==> node_models(
                            final(doc).nodes@,
                            #[trigger] x.0@[k] as int,
                            t.0[k],
                            scope_view(old(scope)@),
                        ) && final(doc).nodes@[x.0@[k] as int].parent is None
                            && final(doc).nodes@[x.0@[k] as int].ntype
                            != NodeType::AttributeNode
                            && final(doc).nodes@[x.0@[k] as int].ntype
                            != NodeType::DocumentNode)
                })
            },
            None => r is Err,
        },
    decreases v@.len() - p, 1int,
{
    let ghost scope0 = scope_view(scope@);
    let n = v.len();
    if p >= n {
        return Ok((Vec::new(), p));
    }
    if v[p] == '<' {
        if p + 1 < n && v[p + 1] == '/' {
            return Ok((Vec::new(), p));
        }
        if p + 1 < n && v[p + 1] == '!' {
            proof {
                reveal_strlit("<!--");
                assert("<!--"@ =~= seq!['<', '!', '-', '-']);
                reveal_strlit("-->");
                assert("-->"@ =~= seq!['-', '-', '>']);
            }
            if !lit_at(v, p, "<!--") {
                return Err(());
            }
            let p2 = match e_find_after(v, p + 4, "-->") {
                Some(q) => q,
                None => {
                    return Err(());
                },
            };
            let txt = copy_range(v, p + 4, p2 - 3);
            let id = push_leaf(doc, NodeType::CommentNode, Vec::new(), txt);
            let ghost d1 = *doc;
            let ghost g0 = g_comment(sp_comment(v@, p as int)->Some_0.0);
            proof {
                assert(node_models(d1.nodes@, id as int, g0, scope0));
                assert(sp_content(v@, p as int) == (match sp_content(v@, p2 as int) {
                    Some(rt) => Some((seq![g0] + rt.0, rt.1)),
                    None => None::<(Seq<GNode>, int)>,
                }));
                decomp_facts(v@, p as int, p2 as int, g0);
            }
            let rr = e_content(doc, v, p2, scope);
            proof {
                rest_err_facts(v@, p as int, p2 as int, g0, scope0, rr is Err);
            }
            let (rest, pos) = match rr {
                Ok(t) => t,
                Err(()) => {
                    return Err(());
                },
            };
            let ghost rv = rest@;
            let mut ids = rest;
            ids.insert(0, id);
            proof {
                cons_list_facts(d1, *doc, v@, p as int, p2 as int, id as int, g0, rv, ids@, scope0);
            }
            return Ok((ids, pos));
        }
        if p + 1 < n && v[p + 1] == '?' {
            if !(p + 2 < n && e_is_name_char(v[p + 2])) {
                return Err(());
            }
            let n1 = e_name_end(v, p + 2);
            let c1 = e_ws(v, n1);
            proof {
                reveal_strlit("?>");
                assert("?>"@ =~= seq!['?', '>']);
            }
            let p2 = match e_find_after(v, n1, "?>") {
                Some(q) => q,
                None => {
                    return Err(());
                },
            };
            if c1 > p2 - 2 {
                return Err(());
            }
            let tgt = copy_range(v, p + 2, n1);
            let txt = copy_range(v, c1, p2 - 2);
            let id = push_leaf(doc, NodeType::PiNode, tgt, txt);
            let ghost d1 = *doc;
            let ghost g0 = g_pi(
                sp_pi(v@, p as int)->Some_0.0,
                sp_pi(v@, p as int)->Some_0.1,
            );
            proof {
                assert(node_models(d1.nodes@, id as int, g0, scope0));
                assert(sp_content(v@, p as int) == (match sp_content(v@, p2 as int) {
                    Some(rt) => Some((seq![g0] + rt.0, rt.1)),
                    None => None::<(Seq<GNode>, int)>,
                }));
                decomp_facts(v@, p as int, p2 as int, g0);
            }
            let rr = e_content(doc, v, p2, scope);
            proof {
                rest_err_facts(v@, p as int, p2 as int, g0, scope0, rr is Err);
            }
            let (rest, pos) = match rr {
                Ok(t) => t,
                Err(()) => {
                    return Err(());
                },
            };
            let ghost rv = rest@;
            let mut ids = rest;
            ids.insert(0, id);
            proof {
                cons_list_facts(d1, *doc, v@, p as int, p2 as int, id as int, g0, rv, ids@, scope0);
            }
            return Ok((ids, pos));
        }
        // an element child
        let er = e_element(doc, v, p, scope);
        proof {
            if sp_content(v@, p as int) is Some && er is Err {
                let t = sp_content(v@, p as int)->Some_0;
                assert(sp_element(v@, p as int) is Some);
                let g0 = sp_element(v@, p as int)->Some_0.0;
                assert(!resolves_ok(g0, scope0));
                assert(t.0[0] == g0);
            }
        }
        let (id, p2) = match er {
            Ok(t) => t,
            Err(()) => {
                return Err(());
            },
        };
        let ghost d1 = *doc;
        let ghost g0 = sp_element(v@, p as int)->Some_0.0;
        proof {
            assert(sp_content(v@, p as int) == (match sp_content(v@, p2 as int) {
                Some(rt) => Some((seq![g0] + rt.0, rt.1)),
                None => None::<(Seq<GNode>, int)>,
            }));
            decomp_facts(v@, p as int, p2 as int, g0);
        }
        let rr = e_content(doc, v, p2, scope);
        proof {
            rest_err_facts(v@, p as int, p2 as int, g0, scope0, rr is Err);
        }
        let (rest, pos) = match rr {
            Ok(t) => t,
            Err(()) => {
                return Err(());
            },
        };
        let ghost rv = rest@;
        let mut ids = rest;
        ids.insert(0, id);
        proof {
            cons_list_facts(d1, *doc, v@, p as int, p2 as int, id as int, g0, rv, ids@, scope0);
        }
        return Ok((ids, pos));
    }
    // a text run
    let (txt, p2) = match e_text(v, p) {
        Some(t) => t,
        None => {
            return Err(());
        },
    };
    if p2 <= p {
        return Err(());
    }
    let ghost gtxt = sp_text(v@, p as int)->Some_0.0;
    let id = push_leaf(doc, NodeType::TextNode, Vec::new(), txt);
    let ghost d1 = *doc;
    proof {
        assert(node_models(d1.nodes@, id as int, g_text(gtxt), scope0));
        assert(sp_content(v@, p as int) == (match sp_content(v@, p2 as int) {
            Some(rt) => Some((seq![g_text(gtxt)] + rt.0, rt.1)),
            None => None::<(Seq<GNode>, int)>,
        }));
        decomp_facts(v@, p as int, p2 as int, g_text(gtxt));
    }
    let rr = e_content(doc, v, p2, scope);
    proof {
        rest_err_facts(v@, p as int, p2 as int, g_text(gtxt), scope0, rr is Err);
    }
    let (rest, pos) = match rr {
        Ok(t) => t,
        Err(()) => {
            return Err(());
        },
    };
    let ghost rv = rest@;
    let mut ids = rest;
    ids.insert(0, id);
    proof {
        cons_list_facts(d1, *doc, v@, p as int, p2 as int, id as int, g_text(gtxt), rv, ids@, scope0);
    }
    Ok((ids, pos))
}

/// The shape of a content parse that took one item at its head.
proof fn decomp_facts(s: Seq<char>, p: int, p2: int, g0: GNode)
    requires
        0 <= p <= s.len(),
        0 <= p2 <= s.len(),
        sp_content(s, p) == (match sp_content(s, p2) {
            Some(rt) => Some((seq![g0] + rt.0, rt.1)),
            None => None::<(Seq<GNode>, int)>,
        }),
    ensures
        sp_content(s, p) matches Some(t) ==> t.0.len() > 0 && t.0[0] == g0 && t.0.subrange(
            1,
            t.0.len() as int,
        ) == (match sp_content(s, p2) {
            Some(rt) => rt.0,
            None => Seq::<GNode>::empty(),
        }) && sp_content(s, p2) is Some,
        sp_content(s, p) matches Some(t) ==> t.1 == sp_content(s, p2)->Some_0.1,
{
    if sp_content(s, p2) is Some {
        let rt = sp_content(s, p2)->Some_0;
        assert((seq![g0] + rt.0).subrange(1, (seq![g0] + rt.0).len() as int) =~= rt.0);
        assert((seq![g0] + rt.0)[0] == g0);
    }
}

/// When the rest of the content fails only for want of a namespace, the
/// whole content does too.
proof fn rest_err_facts(
    s: Seq<char>,
    p: int,
    p2: int,
    g0: GNode,
    scope0: Seq<NamespaceView>,
    rest_err: bool,
)
    requires
        0 <= p <= s.len(),
        0 <= p2 <= s.len(),
        sp_content(s, p) matches Some(t) ==> t.0.len() > 0 && t.0[0] == g0 && t.0.subrange(
            1,
            t.0.len() as int,
        ) == (match sp_content(s, p2) {
            Some(rt) => rt.0,
            None => Seq::<GNode>::empty(),
        }) && sp_content(s, p2) is Some,
        rest_err ==> (sp_content(s, p2) matches Some(rt) ==> exists|k: int|
            0 <= k < rt.0.len() && !resolves_ok(#[trigger] rt.0[k], scope0)),
    ensures
        (rest_err && sp_content(s, p) is Some) ==> !(forall|k: int|
            0 <= k < sp_content(s, p)->Some_0.0.len() ==> resolves_ok(
                #[trigger] sp_content(s, p)->Some_0.0[k],
                scope0,
            )),
{
    if rest_err && sp_content(s, p) is Some {
        let t = sp_content(s, p)->Some_0;
        let rt = sp_content(s, p2)->Some_0;
        let k = choose|k: int| 0 <= k < rt.0.len() && !resolves_ok(#[trigger] rt.0[k], scope0);
        assert(t.0.subrange(1, t.0.len() as int)[k] == rt.0[k]);
        assert(t.0[k + 1] == rt.0[k]);
    }
}

/// The bookkeeping shared by the content-item branches: with the head item
/// built and the rest behind it, the whole list is modeled, in order.
proof fn cons_list_facts(
    d1: Document,
    d2: Document,
    s: Seq<char>,
    p: int,
    p2: int,
    id: int,
    g0: GNode,
    rv: Seq<usize>,
    ids: Seq<usize>,
    scope0: Seq<NamespaceView>,
)
    requires
        d1.wf(),
        d2.wf(),
        d1.nodes@.len() <= d2.nodes@.len(),
        0 <= id < d1.nodes@.len(),
        node_models(d1.nodes@, id, g0, scope0),
        d1.nodes@[id].parent is None,
        d1.nodes@[id].ntype != NodeType::AttributeNode,
        d1.nodes@[id].ntype != NodeType::DocumentNode,
        forall|j: int| 0 <= j < d1.nodes@.len() ==> d2.nodes@[j] == #[trigger] d1.nodes@[j],
        sp_content(s, p) matches Some(t) ==> t.0.len() > 0 && t.0[0] == g0 && t.0.subrange(
            1,
            t.0.len() as int,
        ) == (match sp_content(s, p2) {
            Some(rt) => rt.0,
            None => Seq::<GNode>::empty(),
        }) && sp_content(s, p2) is Some,
        sp_content(s, p2) matches Some(rt) ==> {
            &&& (forall|k: int| 0 <= k < rt.0.len() ==> resolves_ok(#[trigger] rt.0[k], scope0))
            &&& rv.len() == rt.0.len()
            &&& (forall|k: int|
                0 <= k < rv.len() ==> d1.nodes@.len() <= (#[trigger] rv[k])
                    < d2.nodes@.len())
            &&& (forall|k1: int, k2: int| 0 <= k1 < k2 < rv.len() ==> rv[k1] != rv[k2])
            &&& (forall|k: int|
                0 <= k < rv.len() ==> node_models(
                    d2.nodes@,
                    #[trigger] rv[k] as int,
                    rt.0[k],
                    scope0,
                ) && d2.nodes@[rv[k] as int].parent is None && d2.nodes@[rv[k] as int].ntype
                    != NodeType::AttributeNode && d2.nodes@[rv[k] as int].ntype
                    != NodeType::DocumentNode)
        },
        ids == rv.insert(0, id as usize),
        sp_content(s, p) is Some,
        resolves_ok(g0, scope0),
    ensures
        ids.len() == sp_content(s, p)->Some_0.0.len(),
        forall|k: int|
            0 <= k < ids.len() ==> node_models(
                d2.nodes@,
                #[trigger] ids[k] as int,
                sp_content(s, p)->Some_0.0[k],
                scope0,
            ) && d2.nodes@[ids[k] as int].parent is None && d2.nodes@[ids[k] as int].ntype
                != NodeType::AttributeNode && d2.nodes@[ids[k] as int].ntype
                != NodeType::DocumentNode,
        forall|k1: int, k2: int| 0 <= k1 < k2 < ids.len() ==> ids[k1] != ids[k2],
        forall|k: int| 0 <= k < ids.len() ==> 0 <= (#[trigger] ids[k]) < d2.nodes@.len(),
        forall|k: int|
            0 <= k < sp_content(s, p)->Some_0.0.len() ==> resolves_ok(
                #[trigger] sp_content(s, p)->Some_0.0[k],
                scope0,
            ),
{
    let t = sp_content(s, p)->Some_0;
    let rt = sp_content(s, p2)->Some_0;
    assert(ids =~= seq![id as usize] + rv);
    assert(node_models(d2.nodes@, id, g0, scope0)) by {
        assert forall|j: int| 0 <= j < d1.nodes@.len() implies model_fields_same(
            #[trigger] d1.nodes@[j],
            d2.nodes@[j],
        ) by {}
        lemma_models_frame(d1.nodes@, d2.nodes@, id, g0, scope0);
    }
    assert(d2.nodes@[id].parent is None);
    assert forall|k: int| 0 <= k < ids.len() implies node_models(
        d2.nodes@,
        #[trigger] ids[k] as int,
        t.0[k],
        scope0,
    ) && d2.nodes@[ids[k] as int].parent is None && d2.nodes@[ids[k] as int].ntype
        != NodeType::AttributeNode && d2.nodes@[ids[k] as int].ntype
        != NodeType::DocumentNode by {
        if k == 0 {
        } else {
            assert(ids[k] == rv[k - 1]);
            assert(t.0.subrange(1, t.0.len() as int)[k - 1] == rt.0[k - 1]);
            assert(t.0[k] == rt.0[k - 1]);
        }
    }
    assert forall|k: int| 0 <= k < t.0.len() implies resolves_ok(
        #[trigger] t.0[k],
        scope0,
    ) by {
        if k == 0 {
        } else {
            assert(t.0.subrange(1, t.0.len() as int)[k - 1] == rt.0[k - 1]);
            assert(t.0[k] == rt.0[k - 1]);
            assert(resolves_ok(rt.0[k - 1], scope0));
        }
    }
    assert forall|k1: int, k2: int| 0 <= k1 < k2 < ids.len() implies ids[k1] != ids[k2] by {
        if k1 == 0 {
            assert(ids[k2] == rv[k2 - 1]);
        } else {
            assert(ids[k1] == rv[k1 - 1] && ids[k2] == rv[k2 - 1]);
        }
    }
}

/// Whether an arena holds exactly the parsed top-level items as the
/// children of its document node, resolved in the empty scope.
pub open spec fn doc_models(nodes: Seq<crate::tree::shape::NodeRec>, items: Seq<GNode>) -> bool {
    &&& nodes[0].children@.len() == items.len()
    &&& forall|k: int|
        0 <= k < items.len() ==> node_models(
            nodes,
            #[trigger] nodes[0].children@[k] as int,
            items[k],
            Seq::empty(),
        )
}

/// Builds the top-level items from `p` on into the arena, detached.
#[verifier::rlimit(100)]
fn e_doc_items(doc: &mut Document, v: &Vec<char>, p: usize, scope: &mut Vec<Namespace>) -> (r:
    Result<Vec<usize>, ()>)
    requires
        old(doc).wf(),
        p <= v@.len(),
        old(doc).nodes@.len() + (v@.len() - p) < usize::MAX - 1,
        old(scope)@.len() == 0,
    ensures
        final(doc).wf(),
        final(doc).guard == old(doc).guard,
        final(scope)@ == old(scope)@,
        old(doc).nodes@.len() <= final(doc).nodes@.len(),
        forall|j: int|
            0 <= j < old(doc).nodes@.len() ==> final(doc).nodes@[j] == #[trigger] old(
                doc,
            ).nodes@[j],
        match sp_doc_items(v@, p as int) {
            Some(items) => {
                &&& (r is Ok <==> (forall|k: int|
                    0 <= k < items.len() ==> resolves_ok(#[trigger] items[k], Seq::empty())))
                &&& (r matches Ok(x) ==> {
                    &&& x@.len() == items.len()
                    &&& (forall|k: int|
                        0 <= k < x@.len() ==> old(doc).nodes@.len() <= (#[trigger] x@[k])
                            < final(doc).nodes@.len())
                    &&& (forall|k1: int, k2: int|
                        0 <= k1 < k2 < x@.len() ==> x@[k1] != x@[k2])
                    &&& (forall|k: int|
                        0 <= k < x@.len() ==> node_models(
                            final(doc).nodes@,
                            #[trigger] x@[k] as int,
                            items[k],
                            Seq::empty(),
                        ) && final(doc).nodes@[x@[k] as int].parent is None
                            && final(doc).nodes@[x@[k] as int].ntype
                            != NodeType::AttributeNode
                            && final(doc).nodes@[x@[k] as int].ntype
                            != NodeType::DocumentNode)
                })
            },
            None => r is Err,
        },
    decreases v@.len() - p,
{
    let ghost scope0 = scope_view(scope@);
    proof {
        assert(scope0 =~= Seq::<NamespaceView>::empty());
    }
    let n = v.len();
    let p1 = e_ws(v, p);
    if p1 >= n {
        return Ok(Vec::new());
    }
    if v[p1] != '<' {
        return Err(());
    }
    if p1 + 1 < n && v[p1 + 1] == '!' {
        proof {
            reveal_strlit("<!--");
            assert("<!--"@ =~= seq!['<', '!', '-', '-']);
            reveal_strlit("-->");
            assert("-->"@ =~= seq!['-', '-', '>']);
            reveal_strlit(">");
            assert(">"@ =~= seq!['>']);
        }
        if lit_at(v, p1, "<!--") {
            let p2 = match e_find_after(v, p1 + 4, "-->") {
                Some(q) => q,
                None => {
                    return Err(());
                },
            };
            let txt = copy_range(v, p1 + 4, p2 - 3);
            let id = push_leaf(doc, NodeType::CommentNode, Vec::new(), txt);
            let ghost d1 = *doc;
            let ghost g0 = g_comment(sp_comment(v@, p1 as int)->Some_0.0);
            proof {
                assert(node_models(d1.nodes@, id as int, g0, Seq::empty()));
                assert(sp_doc_items(v@, p as int) == (match sp_doc_items(v@, p2 as int) {
                    Some(rest) => Some(seq![g0] + rest),
                    None => None::<Seq<GNode>>,
                }));
            }
            let rr = e_doc_items(doc, v, p2, scope);
            proof {
                items_err_facts(v@, p as int, p2 as int, g0, rr is Err);
            }
            let rest = match rr {
                Ok(t) => t,
                Err(()) => {
                    return Err(());
                },
            };
            let ghost rv = rest@;
            let mut ids = rest;
            ids.insert(0, id);
            proof {
                items_cons_facts(d1, *doc, v@, p as int, p2 as int, id as int, g0, rv, ids@);
            }
            return Ok(ids);
        }
        // a document type declaration: skipped up to its closing angle
        let p2 = match e_find_after(v, p1, ">") {
            Some(q) => q,
            None => {
                return Err(());
            },
        };
        return e_doc_items(doc, v, p2, scope);
    }
    if p1 + 1 < n && v[p1 + 1] == '?' {
        if !(p1 + 2 < n && e_is_name_char(v[p1 + 2])) {
            return Err(());
        }
        let n1 = e_name_end(v, p1 + 2);
        let c1 = e_ws(v, n1);
        proof {
            reveal_strlit("?>");
            assert("?>"@ =~= seq!['?', '>']);
        }
        let p2 = match e_find_after(v, n1, "?>") {
            Some(q) => q,
            None => {
                return Err(());
            },
        };
        if c1 > p2 - 2 {
            return Err(());
        }
        let tgt = copy_range(v, p1 + 2, n1);
        let txt = copy_range(v, c1, p2 - 2);
        let id = push_leaf(doc, NodeType::PiNode, tgt, txt);
        let ghost d1 = *doc;
        let ghost g0 = g_pi(
            sp_pi(v@, p1 as int)->Some_0.0,
            sp_pi(v@, p1 as int)->Some_0.1,
        );
        proof {
            assert(node_models(d1.nodes@, id as int, g0, Seq::empty()));
            assert(sp_doc_items(v@, p as int) == (match sp_doc_items(v@, p2 as int) {
                Some(rest) => Some(seq![g0] + rest),
                None => None::<Seq<GNode>>,
            }));
        }
        let rr = e_doc_items(doc, v, p2, scope);
        proof {
            items_err_facts(v@, p as int, p2 as int, g0, rr is Err);
        }
        let rest = match rr {
            Ok(t) => t,
            Err(()) => {
                return Err(());
            },
        };
        let ghost rv = rest@;
        let mut ids = rest;
        ids.insert(0, id);
        proof {
            items_cons_facts(d1, *doc, v@, p as int, p2 as int, id as int, g0, rv, ids@);
        }
        return Ok(ids);
    }
    // the root element
    let er = e_element(doc, v, p1, scope);
    proof {
        if sp_doc_items(v@, p as int) is Some && er is Err {
            assert(sp_element(v@, p1 as int) is Some);
            let g0 = sp_element(v@, p1 as int)->Some_0.0;
            assert(!resolves_ok(g0, scope0));
            assert(sp_doc_items(v@, p as int)->Some_0[0] == g0);
        }
    }
    let (id, p2) = match er {
        Ok(t) => t,
        Err(()) => {
            return Err(());
        },
    };
    let ghost d1 = *doc;
    let ghost g0 = sp_element(v@, p1 as int)->Some_0.0;
    proof {
        assert(sp_doc_items(v@, p as int) == (match sp_doc_items(v@, p2 as int) {
            Some(rest) => Some(seq![g0] + rest),
            None => None::<Seq<GNode>>,
        }));
    }
    let rr = e_doc_items(doc, v, p2, scope);
    proof {
        items_err_facts(v@, p as int, p2 as int, g0, rr is Err);
    }
    let rest = match rr {
        Ok(t) => t,
        Err(()) => {
            return Err(());
        },
    };
    let ghost rv = rest@;
    let mut ids = rest;
    ids.insert(0, id);
    proof {
        items_cons_facts(d1, *doc, v@, p as int, p2 as int, id as int, g0, rv, ids@);
    }
    Ok(ids)
}

/// When the rest of the top-level items fails only for want of a
/// namespace, the whole list does too.
proof fn items_err_facts(s: Seq<char>, p: int, p2: int, g0: GNode, rest_err: bool)
    requires
        0 <= p <= s.len(),
        0 <= p2 <= s.len(),
        sp_doc_items(s, p) == (match sp_doc_items(s, p2) {
            Some(rest) => Some(seq![g0] + rest),
            None => None::<Seq<GNode>>,
        }),
        rest_err ==> (sp_doc_items(s, p2) matches Some(rest) ==> exists|k: int|
            0 <= k < rest.len() && !resolves_ok(#[trigger] rest[k], Seq::empty())),
    ensures
        (rest_err && sp_doc_items(s, p) is Some) ==> !(forall|k: int|
            0 <= k < sp_doc_items(s, p)->Some_0.len() ==> resolves_ok(
                #[trigger] sp_doc_items(s, p)->Some_0[k],
                Seq::empty(),
            )),
{
    if rest_err && sp_doc_items(s, p) is Some {
        let t = sp_doc_items(s, p)->Some_0;
        let rest = sp_doc_items(s, p2)->Some_0;
        let k = choose|k: int| 0 <= k < rest.len() && !resolves_ok(#[trigger] rest[k], Seq::empty());
        assert(t[k + 1] == rest[k]);
    }
}

/// With the head item built and the rest behind it, the whole top-level
/// list is modeled, in order.
proof fn items_cons_facts(
    d1: Document,
    d2: Document,
    s: Seq<char>,
    p: int,
    p2: int,
    id: int,
    g0: GNode,
    rv: Seq<usize>,
    ids: Seq<usize>,
)
    requires
        d1.wf(),
        d2.wf(),
        d1.nodes@.len() <= d2.nodes@.len(),
        0 <= id < d1.nodes@.len(),
        node_models(d1.nodes@, id, g0, Seq::empty()),
        d1.nodes@[id].parent is None,
        d1.nodes@[id].ntype != NodeType::AttributeNode,
        d1.nodes@[id].ntype != NodeType::DocumentNode,
        forall|j: int| 0 <= j < d1.nodes@.len() ==> d2.nodes@[j] == #[trigger] d1.nodes@[j],
        sp_doc_items(s, p) == (match sp_doc_items(s, p2) {
            Some(rest) => Some(seq![g0] + rest),
            None => None::<Seq<GNode>>,
        }),
        sp_doc_items(s, p2) matches Some(rest) ==> {
            &&& (forall|k: int|
                0 <= k < rest.len() ==> resolves_ok(#[trigger] rest[k], Seq::empty()))
            &&& rv.len() == rest.len()
            &&& (forall|k: int|
                0 <= k < rv.len() ==> d1.nodes@.len() <= (#[trigger] rv[k]) < d2.nodes@.len())
            &&& (forall|k1: int, k2: int| 0 <= k1 < k2 < rv.len() ==> rv[k1] != rv[k2])
            &&& (forall|k: int|
                0 <= k < rv.len() ==> node_models(
                    d2.nodes@,
                    #[trigger] rv[k] as int,
                    rest[k],
                    Seq::empty(),
                ) && d2.nodes@[rv[k] as int].parent is None && d2.nodes@[rv[k] as int].ntype
                    != NodeType::AttributeNode && d2.nodes@[rv[k] as int].ntype
                    != NodeType::DocumentNode)
        },
        ids == rv.insert(0, id as usize),
        sp_doc_items(s, p) is Some,
        resolves_ok(g0, Seq::empty()),
    ensures
        ids.len() == sp_doc_items(s, p)->Some_0.len(),
        forall|k: int|
            0 <= k < ids.len() ==> node_models(
                d2.nodes@,
                #[trigger] ids[k] as int,
                sp_doc_items(s, p)->Some_0[k],
                Seq::empty(),
            ) && d2.nodes@[ids[k] as int].parent is None && d2.nodes@[ids[k] as int].ntype
                != NodeType::AttributeNode && d2.nodes@[ids[k] as int].ntype
                != NodeType::DocumentNode,
        forall|k1: int, k2: int| 0 <= k1 < k2 < ids.len() ==> ids[k1] != ids[k2],
        forall|k: int| 0 <= k < ids.len() ==> 0 <= (#[trigger] ids[k]) < d2.nodes@.len(),
        forall|k: int|
            0 <= k < sp_doc_items(s, p)->Some_0.len() ==> resolves_ok(
                #[trigger] sp_doc_items(s, p)->Some_0[k],
                Seq::empty(),
            ),
{
    let t = sp_doc_items(s, p)->Some_0;
    let rest = sp_doc_items(s, p2)->Some_0;
    assert(ids =~= seq![id as usize] + rv);
    assert(t =~= seq![g0] + rest);
    assert(node_models(d2.nodes@, id, g0, Seq::empty())) by {
        assert forall|j: int| 0 <= j < d1.nodes@.len() implies model_fields_same(
            #[trigger] d1.nodes@[j],
            d2.nodes@[j],
        ) by {}
        lemma_models_frame(d1.nodes@, d2.nodes@, id, g0, Seq::empty());
    }
    assert forall|k: int| 0 <= k < ids.len() implies node_models(
        d2.nodes@,
        #[trigger] ids[k] as int,
        t[k],
        Seq::empty(),
    ) && d2.nodes@[ids[k] as int].parent is None && d2.nodes@[ids[k] as int].ntype
        != NodeType::AttributeNode && d2.nodes@[ids[k] as int].ntype
        != NodeType::DocumentNode by {
        if k == 0 {
        } else {
            assert(ids[k] == rv[k - 1]);
            assert(t[k] == rest[k - 1]);
        }
    }
    assert forall|k: int| 0 <= k < t.len() implies resolves_ok(
        #[trigger] t[k],
        Seq::empty(),
    ) by {
        if k == 0 {
        } else {
            assert(t[k] == rest[k - 1]);
        }
    }
    assert forall|k1: int, k2: int| 0 <= k1 < k2 < ids.len() implies ids[k1] != ids[k2] by {
        if k1 == 0 {
            assert(ids[k2] == rv[k2 - 1]);
        } else {
            assert(ids[k1] == rv[k1 - 1] && ids[k2] == rv[k2 - 1]);
        }
    }
}

/// The model relation survives any change that keeps the model fields of
/// the existing records other than the document node, which no model ever
/// reaches in a well-formed arena.
proof fn lemma_models_frame_wf(
    n1: Seq<crate::tree::shape::NodeRec>,
    n2: Seq<crate::tree::shape::NodeRec>,
    i: int,
    g: GNode,
    scope: Seq<NamespaceView>,
)
    requires
        crate::tree::shape::shape_ok(n1),
        n1.len() > 0,
        n1[0].ntype == NodeType::DocumentNode,
        node_models(n1, i, g, scope),
        i != 0,
        n1.len() <= n2.len(),
        forall|j: int| 1 <= j < n1.len() ==> model_fields_same(#[trigger] n1[j], n2[j]),
    ensures
        node_models(n2, i, g, scope),
    decreases g,
{
    assert(crate::tree::shape::node_ok(n1, i));
    if g.ntype == NodeType::ElementNode {
        let scope2 = scope + g.decls;
        assert forall|k: int| 0 <= k < g.children.len() implies node_models(
            n2,
            #[trigger] n2[i].children@[k] as int,
            g.children[k],
            scope2,
        ) by {
            let c = n1[i].children@[k] as int;
            assert(crate::tree::shape::child_edge_ok(n1, i, c));
            assert(c != 0) by {
                assert(n1[c].ntype != NodeType::DocumentNode);
            }
            assert(node_models(n1, c, g.children[k], scope2));
            lemma_models_frame_wf(n1, n2, c, g.children[k], scope2);
            assert(n2[i].children@[k] == n1[i].children@[k]);
        }
        assert forall|k: int| 0 <= k < g.attrs.len() implies {
            let a = #[trigger] n2[i].attrs@[k] as int;
            &&& 0 <= a < n2.len()
            &&& n2[a].name@ == g.attrs[k].name
            &&& n2[a].content@ == g.attrs[k].value
            &&& crate::tree::shape::ns_view(n2[a].ns) == attr_ns_of(g.attrs[k].prefix, scope2)
        } by {
            assert(n2[i].attrs@[k] == n1[i].attrs@[k]);
            let a = n1[i].attrs@[k] as int;
            assert(crate::tree::shape::attr_edge_ok(n1, i, a));
            assert(a != 0) by {
                assert(n1[a].ntype == NodeType::AttributeNode);
            }
            assert(model_fields_same(n1[a], n2[a]));
        }
    }
}

/// Parser options.  This engine reads UTF-8 text that is already decoded
/// when it arrives, so the option fields are accepted for compatibility
/// and do not change what is parsed.
pub struct ParserOptions<'a> {
    /// Relaxed parsing (accepted, no effect here)
    pub recover: bool,
    /// do not default a doctype if not found (accepted, no effect here)
    pub no_def_dtd: bool,
    /// suppress error reports (accepted, no effect here)
    pub no_error: bool,
    /// suppress warning reports (accepted, no effect here)
    pub no_warning: bool,
    /// pedantic error reporting (accepted, no effect here)
    pub pedantic: bool,
    /// remove blank nodes (accepted, no effect here: blanks are kept)
    pub no_blanks: bool,
    /// forbid network access (accepted; this engine never reaches out)
    pub no_net: bool,
    /// do not add implied structural elements (accepted, no effect here)
    pub no_implied: bool,
    /// relax hardcoded parser limits (accepted, no effect here)
    pub huge: bool,
    /// compact small text nodes (accepted, no effect here)
    pub compact: bool,
    /// ignore the internal encoding hint (accepted, no effect here)
    pub ignore_enc: bool,
    /// manually-specified encoding (accepted, no effect: the input text is
    /// already decoded)
    pub encoding: Option<&'a str>,
}

impl Default for ParserOptions<'_> {
    /// The default parse style.
    fn default() -> (r: Self)
        ensures
            r.recover && !r.no_def_dtd && r.no_error && r.no_warning && !r.pedantic
                && !r.no_blanks && !r.no_net && !r.no_implied && !r.huge && !r.compact
                && !r.ignore_enc && r.encoding is None,
    {
        ParserOptions {
            recover: true,
            no_def_dtd: false,
            no_error: true,
            no_warning: true,
            pedantic: false,
            no_blanks: false,
            no_net: false,
            no_implied: false,
            huge: false,
            compact: false,
            ignore_enc: false,
            encoding: None,
        }
    }
}

/// The option flag word, in the classic bit assignment.
pub open spec fn flags_of(
    recover: bool,
    no_def_dtd: bool,
    no_error: bool,
    no_warning: bool,
    pedantic: bool,
    no_blanks: bool,
    no_net: bool,
    no_implied: bool,
    huge: bool,
    compact: bool,
    ignore_enc: bool,
) -> int {
    (if recover {
        1int
    } else {
        0int
    }) + (if no_def_dtd {
        4int
    } else {
        0int
    }) + (if no_error {
        32int
    } else {
        0int
    }) + (if no_warning {
        64int
    } else {
        0int
    }) + (if pedantic {
        128int
    } else {
        0int
    }) + (if no_blanks {
        256int
    } else {
        0int
    }) + (if no_net {
        2048int
    } else {
        0int
    }) + (if no_implied {
        8192int
    } else {
        0int
    }) + (if huge {
        524288int
    } else {
        0int
    }) + (if compact {
        65536int
    } else {
        0int
    }) + (if ignore_enc {
        2097152int
    } else {
        0int
    })
}

impl ParserOptions<'_> {
    /// The combined option flag word of these options.
    #[verifier::rlimit(100)]
    pub fn to_flags(&self, format: &ParseFormat) -> (r: i32)
        ensures
            r as int == flags_of(
                self.recover,
                self.no_def_dtd,
                self.no_error,
                self.no_warning,
                self.pedantic,
                self.no_blanks,
                self.no_net,
                self.no_implied,
                self.huge,
                self.compact,
                self.ignore_enc,
            ),
    {
        let a1: i32 = if self.recover {
            1
        } else {
            0
        };
        let a2: i32 = if self.no_def_dtd {
            4
        } else {
            0
        };
        let a3: i32 = if self.no_error {
            32
        } else {
            0
        };
        let a4: i32 = if self.no_warning {
            64
        } else {
            0
        };
        let a5: i32 = if self.pedantic {
            128
        } else {
            0
        };
        let a6: i32 = if self.no_blanks {
            256
        } else {
            0
        };
        let a7: i32 = if self.no_net {
            2048
        } else {
            0
        };
        let a8: i32 = if self.no_implied {
            8192
        } else {
            0
        };
        let a9: i32 = if self.huge {
            524288
        } else {
            0
        };
        let a10: i32 = if self.compact {
            65536
        } else {
            0
        };
        let a11: i32 = if self.ignore_enc {
            2097152
        } else {
            0
        };
        a1 + a2 + a3 + a4 + a5 + a6 + a7 + a8 + a9 + a10 + a11
    }
}

/// Parser errors.
#[derive(Debug, PartialEq, Eq, Structural)]
pub enum XmlParseError {
    /// Parsing did not yield a document
    GotNullPointer,
    /// Could not open the file
    FileOpenError,
    /// Document too large for a signed word of offsets
    DocumentTooLarge,
}

/// The parse formats supported.
#[derive(Debug, PartialEq, Eq, Structural)]
pub enum ParseFormat {
    /// Strict parsing for XML
    XML,
    /// Relaxed parsing for HTML (this engine reads it with the one grammar)
    HTML,
}

/// Whether the given text is accepted as a document: it parses and every
/// namespace prefix in it resolves.
pub open spec fn accepts_document(s: Seq<char>) -> bool {
    &&& sp_document(s) is Some
    &&& forall|k: int|
        0 <= k < sp_document(s)->Some_0.len() ==> resolves_ok(
            #[trigger] sp_document(s)->Some_0[k],
            Seq::empty(),
        )
}

/// The parsing API.
pub struct Parser {
    /// The format this parser reads
    pub format: ParseFormat,
}

impl Default for Parser {
    /// Create a parser for XML documents.
    fn default() -> (r: Self)
        ensures
            r.format == ParseFormat::XML,
    {
        Parser { format: ParseFormat::XML }
    }
}

impl Parser {
    /// Create a parser for relaxed HTML documents.
    pub fn default_html() -> (r: Self)
        ensures
            r.format == ParseFormat::HTML,
    {
        Parser { format: ParseFormat::HTML }
    }

    /// Parses the text `input` to generate a new document.
    pub fn parse_string(&self, input: &str) -> (r: Result<Document, XmlParseError>)
        ensures
            input@.len() >= 0x7fff_ffff ==> r == Err::<Document, XmlParseError>(
                XmlParseError::DocumentTooLarge,
            ),
            input@.len() < 0x7fff_ffff ==> {
                &&& (r is Ok <==> accepts_document(input@))
                &&& (r matches Err(e) ==> e == XmlParseError::GotNullPointer)
                &&& (r matches Ok(d) ==> {
                    &&& d.wf()
                    &&& d.guard == 2
                    &&& doc_models(d.nodes@, sp_document(input@)->Some_0)
                })
            },
    {
        self.parse_string_with_options(input, ParserOptions::default())
    }

    /// Parses the text `input` with manually-specified options to generate
    /// a new document.
    #[verifier::rlimit(100)]
    pub fn parse_string_with_options(&self, input: &str, parser_options: ParserOptions) -> (r:
        Result<Document, XmlParseError>)
        ensures
            input@.len() >= 0x7fff_ffff ==> r == Err::<Document, XmlParseError>(
                XmlParseError::DocumentTooLarge,
            ),
            input@.len() < 0x7fff_ffff ==> {
                &&& (r is Ok <==> accepts_document(input@))
                &&& (r matches Err(e) ==> e == XmlParseError::GotNullPointer)
                &&& (r matches Ok(d) ==> {
                    &&& d.wf()
                    &&& d.guard == 2
                    &&& doc_models(d.nodes@, sp_document(input@)->Some_0)
                })
            },
    {
        let v = str_to_chars(input);
        if v.len() >= 0x7fff_ffffusize {
            return Err(XmlParseError::DocumentTooLarge);
        }
        let mut doc = match Document::new() {
            Ok(d) => d,
            Err(()) => {
                proof {
                    assert(false);
                }
                return Err(XmlParseError::GotNullPointer);
            },
        };
        // skip the declaration line if present
        proof {
            reveal_strlit("<?xml");
            assert("<?xml"@ =~= seq!['<', '?', 'x', 'm', 'l']);
            reveal_strlit("?>");
            assert("?>"@ =~= seq!['?', '>']);
        }
        let start: usize = if lit_at(&v, 0, "<?xml") {
            match e_find_after(&v, 0, "?>") {
                Some(q) => q,
                None => {
                    return Err(XmlParseError::GotNullPointer);
                },
            }
        } else {
            0
        };
        let mut scope: Vec<Namespace> = Vec::new();
        let ir = e_doc_items(&mut doc, &v, start, &mut scope);
        let items = match ir {
            Ok(t) => t,
            Err(()) => {
                return Err(XmlParseError::GotNullPointer);
            },
        };
        let ghost gitems = sp_doc_items(v@, start as int)->Some_0;
        // exactly one element must stand among the items
        let n = items.len();
        proof {
            assert(gitems.subrange(0, n as int) =~= gitems);
        }
        let mut count: usize = 0;
        let mut k: usize = 0;
        while k < n
            invariant
                doc.wf(),
                k <= n,
                count <= k,
                n == items@.len(),
                n == gitems.len(),
                forall|m: int|
                    0 <= m < items@.len() ==> 0 <= (#[trigger] items@[m]) < doc.nodes@.len(),
                forall|m: int|
                    0 <= m < items@.len() ==> node_models(
                        doc.nodes@,
                        #[trigger] items@[m] as int,
                        gitems[m],
                        Seq::empty(),
                    ),
                g_elem_count(gitems) == count + g_elem_count(
                    gitems.subrange(k as int, n as int),
                ),
            decreases n - k,
        {
            let ghost suffix = gitems.subrange(k as int, n as int);
            proof {
                assert(suffix[0] == gitems[k as int]);
                assert(suffix.subrange(1, suffix.len() as int) =~= gitems.subrange(
                    k + 1,
                    n as int,
                ));
                assert(node_models(doc.nodes@, items@[k as int] as int, gitems[k as int], Seq::empty()));
            }
            let id = items[k];
            if doc.nodes[id].ntype == NodeType::ElementNode {
                count = count + 1;
            }
            k = k + 1;
        }
        proof {
            assert(gitems.subrange(n as int, n as int) =~= Seq::<GNode>::empty());
        }
        if count != 1 {
            return Err(XmlParseError::GotNullPointer);
        }
        // link the items under the document node, in order
        let ghost d0 = doc;
        let mut ci: usize = 0;
        while ci < items.len()
            invariant
                doc.wf(),
                doc.guard == d0.guard,
                doc.nodes@.len() == d0.nodes@.len(),
                ci <= items@.len(),
                items@.len() == gitems.len(),
                doc.nodes@[0].children@.len() == ci,
                d0.nodes@[0].children@.len() == 0,
                forall|m: int|
                    0 <= m < items@.len() ==> 1 <= (#[trigger] items@[m]) < d0.nodes@.len(),
                forall|m1: int, m2: int|
                    0 <= m1 < m2 < items@.len() ==> items@[m1] != items@[m2],
                forall|m: int|
                    0 <= m < items@.len() ==> (#[trigger] d0.nodes@[items@[m] as int].ntype)
                        != NodeType::AttributeNode && d0.nodes@[items@[m] as int].ntype
                        != NodeType::DocumentNode,
                forall|m: int|
                    0 <= m < items@.len() ==> node_models(
                        d0.nodes@,
                        #[trigger] items@[m] as int,
                        gitems[m],
                        Seq::empty(),
                    ),
                forall|m: int| 0 <= m < ci ==> doc.nodes@[0].children@[m] == items@[m],
                forall|m: int|
                    ci <= m < items@.len() ==> (#[trigger] doc.nodes@[
                        items@[m] as int
                    ].parent) is None,
                forall|j: int|
                    1 <= j < d0.nodes@.len() ==> model_fields_same(
                        #[trigger] d0.nodes@[j],
                        doc.nodes@[j],
                    ),
                doc.nodes@[0].parent is None,
            decreases items@.len() - ci,
        {
            let c = items[ci];
            let ghost pre = doc;
            proof {
                assert(model_fields_same(d0.nodes@[c as int], doc.nodes@[c as int]));
                assert(!crate::tree::shape::in_subtree(doc.nodes@, c as int, 0)) by {
                    if crate::tree::shape::in_subtree(doc.nodes@, c as int, 0) {
                        if c as int != 0 {
                            crate::tree::shape::lemma_subtree_parent(doc.nodes@, c as int, 0);
                        }
                    }
                }
            }
            let slot = doc.nodes[0].children.len();
            doc.attach_new(0, c, slot);
            proof {
                assert(doc.nodes@[0].children@ =~= pre.nodes@[0].children@.push(c));
                assert forall|m: int|
                    ci + 1 <= m < items@.len() implies (#[trigger] doc.nodes@[
                    items@[m] as int
                ].parent) is None by {
                    assert(items@[m] != c);
                    assert(doc.nodes@[items@[m] as int] == pre.nodes@[items@[m] as int]);
                }
                assert forall|j: int|
                    1 <= j < d0.nodes@.len() implies model_fields_same(
                    #[trigger] d0.nodes@[j],
                    doc.nodes@[j],
                ) by {
                    if j != c {
                        assert(doc.nodes@[j] == pre.nodes@[j]);
                    } else {
                        assert(crate::tree::shape::rec_eq_but_parent(
                            doc.nodes@[c as int],
                            pre.nodes@[c as int],
                        ));
                    }
                }
            }
            ci = ci + 1;
        }
        proof {
            assert(doc_models(doc.nodes@, sp_document(input@)->Some_0)) by {
                assert(sp_document(input@)->Some_0 == gitems);
                assert forall|m: int| 0 <= m < gitems.len() implies node_models(
                    doc.nodes@,
                    #[trigger] doc.nodes@[0].children@[m] as int,
                    gitems[m],
                    Seq::empty(),
                ) by {
                    assert(doc.nodes@[0].children@[m] == items@[m]);
                    lemma_models_frame_wf(
                        d0.nodes@,
                        doc.nodes@,
                        items@[m] as int,
                        gitems[m],
                        Seq::empty(),
                    );
                }
            }
        }
        Ok(doc)
    }
}

/// The first element among the parsed top-level items, if any.
pub open spec fn g_first_elem(items: Seq<GNode>) -> Option<GNode>
    decreases items.len(),
{
    if items.len() == 0 {
        None
    } else if items[0].ntype == NodeType::ElementNode {
        Some(items[0])
    } else {
        g_first_elem(items.subrange(1, items.len() as int))
    }
}

impl Parser {
    /// Checks text for well-formedness as a relaxed document whose root
    /// element is named `html`: the parser must be in the relaxed format,
    /// and the text must parse under this engine's one grammar with every
    /// namespace prefix resolved.  A strict-format parser always reports
    /// false.
    pub fn is_well_formed_html(&self, input: &str) -> (r: bool)
        ensures
            r == (self.format == ParseFormat::HTML && input@.len() < 0x7fff_ffff
                && accepts_document(input@) && match g_first_elem(
                sp_document(input@)->Some_0,
            ) {
                Some(g) => g.name == "html"@,
                None => false,
            }),
    {
        self.is_well_formed_html_with_encoding(input, None)
    }

    /// Checks text for well-formedness with a manually-specified encoding
    /// hint (accepted, no effect: the input text is already decoded).
    pub fn is_well_formed_html_with_encoding(&self, input: &str, encoding: Option<&str>) -> (r:
        bool)
        ensures
            r == (self.format == ParseFormat::HTML && input@.len() < 0x7fff_ffff
                && accepts_document(input@) && match g_first_elem(
                sp_document(input@)->Some_0,
            ) {
                Some(g) => g.name == "html"@,
                None => false,
            }),
    {
        if self.format == ParseFormat::XML {
            return false;
        }
        let d = match self.parse_string(input) {
            Ok(d) => d,
            Err(_) => {
                return false;
            },
        };
        let ghost gitems = sp_document(input@)->Some_0;
        let ghost ks = d.nodes@[0].children@;
        let n = d.nodes[0].children.len();
        proof {
            assert(gitems.subrange(0, n as int) =~= gitems);
        }
        let mut k: usize = 0;
        while k < n
            invariant
                d.wf(),
                k <= n,
                n == ks.len(),
                ks == d.nodes@[0].children@,
                n == gitems.len(),
                self.format == ParseFormat::HTML,
                input@.len() < 0x7fff_ffff,
                accepts_document(input@),
                gitems == sp_document(input@)->Some_0,
                forall|m: int|
                    0 <= m < gitems.len() ==> node_models(
                        d.nodes@,
                        #[trigger] ks[m] as int,
                        gitems[m],
                        Seq::empty(),
                    ),
                g_first_elem(gitems) == g_first_elem(gitems.subrange(k as int, n as int)),
            decreases n - k,
        {
            let ghost suffix = gitems.subrange(k as int, n as int);
            proof {
                assert(suffix[0] == gitems[k as int]);
                assert(suffix.subrange(1, suffix.len() as int) =~= gitems.subrange(
                    k + 1,
                    n as int,
                ));
                assert(node_models(d.nodes@, ks[k as int] as int, gitems[k as int], Seq::empty()));
                assert(crate::tree::shape::node_ok(d.nodes@, 0));
                assert(crate::tree::shape::child_edge_ok(d.nodes@, 0, ks[k as int] as int));
            }
            let c = d.nodes[0].children[k];
            if d.nodes[c].ntype == NodeType::ElementNode {
                proof {
                    reveal_strlit("html");
                    assert("html"@ =~= seq!['h', 't', 'm', 'l']);
                }
                let html = str_to_chars("html");
                let hit = crate::tree::chars::eq_chars(&d.nodes[c].name, &html);
                proof {
                    assert(g_first_elem(gitems) == Some(gitems[k as int]));
                    assert(d.nodes@[c as int].name@ == gitems[k as int].name);
                }
                return hit;
            }
            k = k + 1;
        }
        proof {
            assert(gitems.subrange(n as int, n as int) =~= Seq::<GNode>::empty());
        }
        false
    }
}

/// Convert usize to i32 safely.
pub fn try_usize_to_i32(value: usize) -> (r: Result<i32, XmlParseError>)
    ensures
        value < 0x7fff_ffff <==> r is Ok,
        r matches Ok(x) ==> x as int == value as int,
        r is Err ==> r == Err::<i32, XmlParseError>(XmlParseError::DocumentTooLarge),
{
    if value < 0x7fff_ffffusize {
        Ok(value as i32)
    } else {
        Err(XmlParseError::DocumentTooLarge)
    }
}

} // verus!
