use vstd::prelude::*;

use crate::tree::chars::chars_to_string;
use crate::tree::document::Document;
use crate::tree::namespace::NamespaceView;
use crate::tree::node::Node;
use crate::tree::nodetype::NodeType;
use crate::tree::shape::attr_edge_ok;
use crate::tree::shape::child_edge_ok;
use crate::tree::shape::decls_view;
use crate::tree::shape::node_ok;
use crate::tree::shape::shape_ok;
use crate::tree::shape::NodeRec;

verus! {

/// Save options for serializing a document.  This engine always writes in
/// its one canonical, unformatted style: the pretty-printing and
/// markup-dialect flags are accepted for compatibility and change nothing;
/// `no_declaration` and `no_empty_tags` are honoured.
#[derive(Debug, Copy, Clone)]
pub struct SaveOptions {
    /// format save output (accepted, no effect here)
    pub format: bool,
    /// drop the declaration line
    pub no_declaration: bool,
    /// write out empty tags as an open and close pair
    pub no_empty_tags: bool,
    /// disable XHTML-specific rules (accepted, no effect here)
    pub no_xhtml: bool,
    /// force XHTML-specific rules (accepted, no effect here)
    pub xhtml: bool,
    /// force XML serialization (accepted, no effect here)
    pub as_xml: bool,
    /// force HTML serialization (accepted, no effect here)
    pub as_html: bool,
    /// keep insignificant whitespace (accepted, no effect here)
    pub non_significant_whitespace: bool,
}

impl Default for SaveOptions {
    /// The default save style: no flag set.
    fn default() -> (r: SaveOptions)
        ensures
            !r.format && !r.no_declaration && !r.no_empty_tags && !r.no_xhtml && !r.xhtml
                && !r.as_xml && !r.as_html && !r.non_significant_whitespace,
    {
        SaveOptions {
            format: false,
            no_declaration: false,
            no_empty_tags: false,
            no_xhtml: false,
            xhtml: false,
            as_xml: false,
            as_html: false,
            non_significant_whitespace: false,
        }
    }
}

/// The escape of one character in text content.
pub open spec fn esc_text_char(c: char) -> Seq<char> {
    if c == '&' {
        seq!['&', 'a', 'm', 'p', ';']
    } else if c == '<' {
        seq!['&', 'l', 't', ';']
    } else if c == '>' {
        seq!['&', 'g', 't', ';']
    } else {
        seq![c]
    }
}

/// The escape of text content: ampersands and angle brackets become entity
/// references.
pub open spec fn esc_text(s: Seq<char>) -> Seq<char>
    decreases s.len(),
{
    if s.len() == 0 {
        Seq::empty()
    } else {
        esc_text_char(s[0]) + esc_text(s.subrange(1, s.len() as int))
    }
}

/// The escape of one character in an attribute value.
pub open spec fn esc_attr_char(c: char) -> Seq<char> {
    if c == '&' {
        seq!['&', 'a', 'm', 'p', ';']
    } else if c == '<' {
        seq!['&', 'l', 't', ';']
    } else if c == '>' {
        seq!['&', 'g', 't', ';']
    } else if c == '"' {
        seq!['&', 'q', 'u', 'o', 't', ';']
    } else {
        seq![c]
    }
}

/// The escape of an attribute value.
pub open spec fn esc_attr(s: Seq<char>) -> Seq<char>
    decreases s.len(),
{
    if s.len() == 0 {
        Seq::empty()
    } else {
        esc_attr_char(s[0]) + esc_attr(s.subrange(1, s.len() as int))
    }
}

/// The serialized name of a node: its namespace prefix and a colon, when
/// one is declared and not empty, then its local name.
pub open spec fn qname_of(r: NodeRec) -> Seq<char> {
    match r.ns {
        Some(d) => if d.prefix@.len() > 0 {
            d.prefix@ + seq![':'] + r.name@
        } else {
            r.name@
        },
        None => r.name@,
    }
}

/// One serialized namespace declaration.
pub open spec fn ser_decl(d: NamespaceView) -> Seq<char> {
    if d.prefix.len() > 0 {
        seq![' ', 'x', 'm', 'l', 'n', 's', ':'] + d.prefix + seq!['=', '"'] + esc_attr(d.href)
            + seq!['"']
    } else {
        seq![' ', 'x', 'm', 'l', 'n', 's', '=', '"'] + esc_attr(d.href) + seq!['"']
    }
}

/// The serialized namespace declarations of an element, from slot `k` on.
pub open spec fn ser_decls_from(decls: Seq<NamespaceView>, k: int) -> Seq<char>
    decreases decls.len() - k
        when 0 <= k <= decls.len()
{
    if k >= decls.len() {
        Seq::empty()
    } else {
        ser_decl(decls[k]) + ser_decls_from(decls, k + 1)
    }
}

/// One serialized attribute.
pub open spec fn ser_attr(r: NodeRec) -> Seq<char> {
    seq![' '] + qname_of(r) + seq!['=', '"'] + esc_attr(r.content@) + seq!['"']
}

/// The serialized attributes of an element, from slot `k` on.
pub open spec fn ser_attrs_from(nodes: Seq<NodeRec>, attrs: Seq<usize>, k: int) -> Seq<char>
    decreases attrs.len() - k
        when 0 <= k <= attrs.len() && forall|m: int| 0 <= m < attrs.len() ==> 0 <= #[trigger] attrs[m] < nodes.len()
{
    if k >= attrs.len() {
        Seq::empty()
    } else {
        ser_attr(nodes[attrs[k] as int]) + ser_attrs_from(nodes, attrs, k + 1)
    }
}

/// The serialized form of the subtree at position `i`; comments are left
/// out when `nocomments` is set.
pub open spec fn ser_node(nodes: Seq<NodeRec>, i: int, noempty: bool, nocomments: bool) -> Seq<
    char,
>
    decreases nodes[i].height@, 1int, 0int
        when shape_ok(nodes) && 0 <= i < nodes.len()
{
    let r = nodes[i];
    if r.ntype == NodeType::ElementNode {
        proof {
            assert(node_ok(nodes, i));
        }
        let open_part = seq!['<'] + qname_of(r) + ser_decls_from(decls_view(r.ns_decls@), 0)
            + ser_attrs_from(nodes, r.attrs@, 0);
        if r.children@.len() == 0 && !noempty {
            open_part + seq!['/', '>']
        } else {
            open_part + seq!['>'] + ser_kids(nodes, i, 0, noempty, nocomments) + seq!['<', '/']
                + qname_of(r) + seq!['>']
        }
    } else if r.ntype == NodeType::TextNode {
        esc_text(r.content@)
    } else if r.ntype == NodeType::CDataSectionNode {
        seq!['<', '!', '[', 'C', 'D', 'A', 'T', 'A', '['] + r.content@ + seq![']', ']', '>']
    } else if r.ntype == NodeType::CommentNode {
        if nocomments {
            Seq::empty()
        } else {
            seq!['<', '!', '-', '-'] + r.content@ + seq!['-', '-', '>']
        }
    } else if r.ntype == NodeType::PiNode {
        seq!['<', '?'] + r.name@ + (if r.content@.len() > 0 {
            seq![' '] + r.content@
        } else {
            Seq::empty()
        }) + seq!['?', '>']
    } else if r.ntype == NodeType::DocumentNode {
        proof {
            assert(node_ok(nodes, i));
        }
        ser_kids(nodes, i, 0, noempty, nocomments)
    } else {
        Seq::empty()
    }
}

/// The serialized forms of the children of `i`, from slot `k` on,
/// concatenated.
pub open spec fn ser_kids(
    nodes: Seq<NodeRec>,
    i: int,
    k: int,
    noempty: bool,
    nocomments: bool,
) -> Seq<char>
    decreases nodes[i].height@, 0int, nodes[i].children@.len() - k
        when shape_ok(nodes) && 0 <= i < nodes.len() && 0 <= k <= nodes[i].children@.len()
{
    if k >= nodes[i].children@.len() {
        Seq::empty()
    } else {
        proof {
            assert(node_ok(nodes, i));
            assert(child_edge_ok(nodes, i, nodes[i].children@[k] as int));
        }
        ser_node(nodes, nodes[i].children@[k] as int, noempty, nocomments) + ser_kids(
            nodes,
            i,
            k + 1,
            noempty,
            nocomments,
        )
    }
}

/// The declaration line this engine writes.
pub open spec fn decl_line() -> Seq<char> {
    seq![
        '<', '?', 'x', 'm', 'l', ' ', 'v', 'e', 'r', 's', 'i', 'o', 'n', '=', '"', '1', '.', '0',
        '"', ' ', 'e', 'n', 'c', 'o', 'd', 'i', 'n', 'g', '=', '"', 'U', 'T', 'F', '-', '8', '"',
        '?', '>', '\n',
    ]
}

/// The serialized form of a whole document.
pub open spec fn ser_doc(nodes: Seq<NodeRec>, nodecl: bool, noempty: bool) -> Seq<char> {
    (if nodecl {
        Seq::empty()
    } else {
        decl_line()
    }) + ser_kids(nodes, 0, 0, noempty, false) + seq!['\n']
}

/// Appends the escape of `src` to `out`, with `quot` escaping for
/// attribute values.
fn emit_escaped(out: &mut Vec<char>, src: &Vec<char>, attr_style: bool)
    ensures
        attr_style ==> final(out)@ == old(out)@ + esc_attr(src@),
        !attr_style ==> final(out)@ == old(out)@ + esc_text(src@),
{
    let n = src.len();
    proof {
        assert(src@.subrange(0, n as int) =~= src@);
    }
    let mut k: usize = 0;
    while k < n
        invariant
            k <= n,
            n == src@.len(),
            attr_style ==> out@ + esc_attr(src@.subrange(k as int, n as int)) == old(out)@
                + esc_attr(src@),
            !attr_style ==> out@ + esc_text(src@.subrange(k as int, n as int)) == old(out)@
                + esc_text(src@),
        decreases n - k,
    {
        let ghost pre = out@;
        let ghost suffix = src@.subrange(k as int, n as int);
        let c = src[k];
        if c == '&' {
            out.push('&');
            out.push('a');
            out.push('m');
            out.push('p');
            out.push(';');
        } else if c == '<' {
            out.push('&');
            out.push('l');
            out.push('t');
            out.push(';');
        } else if c == '>' {
            out.push('&');
            out.push('g');
            out.push('t');
            out.push(';');
        } else if c == '"' && attr_style {
            out.push('&');
            out.push('q');
            out.push('u');
            out.push('o');
            out.push('t');
            out.push(';');
        } else {
            out.push(c);
        }
        proof {
            assert(suffix[0] == c);
            assert(suffix.subrange(1, suffix.len() as int) =~= src@.subrange(
                k + 1,
                n as int,
            ));
            if attr_style {
                assert(esc_attr(suffix) == esc_attr_char(c) + esc_attr(
                    src@.subrange(k + 1, n as int),
                ));
                assert(out@ =~= pre + esc_attr_char(c));
                assert((pre + esc_attr_char(c)) + esc_attr(src@.subrange(k + 1, n as int)) =~= pre
                    + (esc_attr_char(c) + esc_attr(src@.subrange(k + 1, n as int))));
            } else {
                assert(esc_text(suffix) == esc_text_char(c) + esc_text(
                    src@.subrange(k + 1, n as int),
                ));
                assert(out@ =~= pre + esc_text_char(c));
                assert((pre + esc_text_char(c)) + esc_text(src@.subrange(k + 1, n as int)) =~= pre
                    + (esc_text_char(c) + esc_text(src@.subrange(k + 1, n as int))));
            }
        }
        k = k + 1;
    }
    proof {
        assert(src@.subrange(n as int, n as int) =~= Seq::<char>::empty());
        if attr_style {
            assert(out@ + esc_attr(src@.subrange(n as int, n as int)) =~= out@);
        } else {
            assert(out@ + esc_text(src@.subrange(n as int, n as int)) =~= out@);
        }
    }
}

/// Appends a string literal's characters to `out`.
fn emit_lit(out: &mut Vec<char>, s: &str)
    ensures
        final(out)@ == old(out)@ + s@,
{
    let v = crate::tree::chars::str_to_chars(s);
    crate::tree::chars::extend_chars(out, &v);
}

/// Appends the serialized name of record `i` to `out`.
fn emit_qname(out: &mut Vec<char>, doc: &Document, i: usize)
    requires
        doc.wf(),
        i < doc.nodes@.len(),
    ensures
        final(out)@ == old(out)@ + qname_of(doc.nodes@[i as int]),
{
    match &doc.nodes[i].ns {
        Some(d) => {
            if d.prefix.len() > 0 {
                crate::tree::chars::extend_chars(out, &d.prefix);
                out.push(':');
                crate::tree::chars::extend_chars(out, &doc.nodes[i].name);
                proof {
                    assert(final(out)@ =~= old(out)@ + qname_of(doc.nodes@[i as int]));
                }
            } else {
                crate::tree::chars::extend_chars(out, &doc.nodes[i].name);
            }
        },
        None => {
            crate::tree::chars::extend_chars(out, &doc.nodes[i].name);
        },
    }
}

/// Appends the serialized namespace declarations of element `i` to `out`.
fn emit_decls(doc: &Document, i: usize, out: &mut Vec<char>)
    requires
        doc.wf(),
        i < doc.nodes@.len(),
    ensures
        final(out)@ == old(out)@ + ser_decls_from(decls_view(doc.nodes@[i as int].ns_decls@), 0),
{
    let dn = doc.nodes[i].ns_decls.len();
    let mut k: usize = 0;
    let ghost dv = decls_view(doc.nodes@[i as int].ns_decls@);
    proof {
        assert(ser_decls_from(dv, dn as int) =~= Seq::<char>::empty());
    }
    while k < dn
        invariant
            doc.wf(),
            i < doc.nodes@.len(),
            k <= dn,
            dn == dv.len(),
            dv == decls_view(doc.nodes@[i as int].ns_decls@),
            out@ + ser_decls_from(dv, k as int) == old(out)@ + ser_decls_from(dv, 0),
        decreases dn - k,
    {
        let ghost pre = out@;
        out.push(' ');
        out.push('x');
        out.push('m');
        out.push('l');
        out.push('n');
        out.push('s');
        if doc.nodes[i].ns_decls[k].prefix.len() > 0 {
            out.push(':');
            crate::tree::chars::extend_chars(out, &doc.nodes[i].ns_decls[k].prefix);
        }
        out.push('=');
        out.push('"');
        emit_escaped(out, &doc.nodes[i].ns_decls[k].href, true);
        out.push('"');
        proof {
            assert(dv[k as int] == doc.nodes@[i as int].ns_decls@[k as int]@);
            assert(out@ =~= pre + ser_decl(dv[k as int]));
            assert(ser_decls_from(dv, k as int) == ser_decl(dv[k as int]) + ser_decls_from(
                dv,
                k + 1,
            ));
            assert((pre + ser_decl(dv[k as int])) + ser_decls_from(dv, k + 1) =~= pre + (ser_decl(
                dv[k as int],
            ) + ser_decls_from(dv, k + 1)));
        }
        k = k + 1;
    }
    proof {
        assert(out@ + ser_decls_from(dv, dn as int) =~= out@);
    }
}

/// Appends the serialized attributes of element `i` to `out`.
fn emit_attrs(doc: &Document, i: usize, out: &mut Vec<char>)
    requires
        doc.wf(),
        i < doc.nodes@.len(),
    ensures
        final(out)@ == old(out)@ + ser_attrs_from(
            doc.nodes@,
            doc.nodes@[i as int].attrs@,
            0,
        ),
{
    let ghost asq = doc.nodes@[i as int].attrs@;
    proof {
        assert(node_ok(doc.nodes@, i as int));
        assert forall|m: int| 0 <= m < asq.len() implies 0 <= #[trigger] asq[m]
            < doc.nodes@.len() by {
            assert(attr_edge_ok(doc.nodes@, i as int, asq[m] as int));
        }
    }
    let an = doc.nodes[i].attrs.len();
    let mut k2: usize = 0;
    proof {
        assert(ser_attrs_from(doc.nodes@, asq, an as int) =~= Seq::<char>::empty());
    }
    while k2 < an
        invariant
            doc.wf(),
            i < doc.nodes@.len(),
            k2 <= an,
            an == asq.len(),
            asq == doc.nodes@[i as int].attrs@,
            forall|m: int| 0 <= m < asq.len() ==> 0 <= #[trigger] asq[m] < doc.nodes@.len(),
            out@ + ser_attrs_from(doc.nodes@, asq, k2 as int) == old(out)@ + ser_attrs_from(
                doc.nodes@,
                asq,
                0,
            ),
        decreases an - k2,
    {
        let ghost pre = out@;
        let a = doc.nodes[i].attrs[k2];
        out.push(' ');
        emit_qname(out, doc, a);
        out.push('=');
        out.push('"');
        emit_escaped(out, &doc.nodes[a].content, true);
        out.push('"');
        proof {
            assert(out@ =~= pre + ser_attr(doc.nodes@[a as int]));
            assert(ser_attrs_from(doc.nodes@, asq, k2 as int) == ser_attr(
                doc.nodes@[asq[k2 as int] as int],
            ) + ser_attrs_from(doc.nodes@, asq, k2 + 1));
            assert((pre + ser_attr(doc.nodes@[a as int])) + ser_attrs_from(
                doc.nodes@,
                asq,
                k2 + 1,
            ) =~= pre + (ser_attr(doc.nodes@[a as int]) + ser_attrs_from(
                doc.nodes@,
                asq,
                k2 + 1,
            )));
        }
        k2 = k2 + 1;
    }
    proof {
        assert(out@ + ser_attrs_from(doc.nodes@, asq, an as int) =~= out@);
    }
}

/// Appends the serialized form of element `i` to `out`.
#[verifier::rlimit(60)]
fn emit_element(doc: &Document, i: usize, noempty: bool, nocomments: bool, out: &mut Vec<char>)
    requires
        doc.wf(),
        i < doc.nodes@.len(),
        doc.nodes@[i as int].ntype == NodeType::ElementNode,
    ensures
        final(out)@ == old(out)@ + ser_node(doc.nodes@, i as int, noempty, nocomments),
    decreases doc.nodes@[i as int].height@, 1int, 0int,
{
    out.push('<');
    emit_qname(out, doc, i);
    emit_decls(doc, i, out);
    emit_attrs(doc, i, out);
    let ghost open_part = seq!['<'] + qname_of(doc.nodes@[i as int]) + ser_decls_from(
        decls_view(doc.nodes@[i as int].ns_decls@),
        0,
    ) + ser_attrs_from(doc.nodes@, doc.nodes@[i as int].attrs@, 0);
    proof {
        assert(out@ =~= old(out)@ + open_part);
    }
    let cn = doc.nodes[i].children.len();
    if cn == 0 && !noempty {
        out.push('/');
        out.push('>');
        proof {
            assert(ser_node(doc.nodes@, i as int, noempty, nocomments) == open_part + seq!['/', '>']);
            assert(out@ =~= old(out)@ + ser_node(doc.nodes@, i as int, noempty, nocomments));
        }
    } else {
        out.push('>');
        emit_kids(doc, i, noempty, nocomments, out);
        out.push('<');
        out.push('/');
        emit_qname(out, doc, i);
        out.push('>');
        proof {
            assert(ser_node(doc.nodes@, i as int, noempty, nocomments) == open_part + seq!['>'] + ser_kids(
                doc.nodes@,
                i as int,
                0,
                noempty,
                nocomments,
            ) + seq!['<', '/'] + qname_of(doc.nodes@[i as int]) + seq!['>']);
            assert(out@ =~= old(out)@ + ser_node(doc.nodes@, i as int, noempty, nocomments));
        }
    }
}

/// Appends the serialized subtree of position `i` to `out`.
fn emit_node(doc: &Document, i: usize, noempty: bool, nocomments: bool, out: &mut Vec<char>)
    requires
        doc.wf(),
        i < doc.nodes@.len(),
    ensures
        final(out)@ == old(out)@ + ser_node(doc.nodes@, i as int, noempty, nocomments),
    decreases doc.nodes@[i as int].height@, 2int, 0int,
{
    let nt = doc.nodes[i].ntype;
    if nt == NodeType::ElementNode {
        emit_element(doc, i, noempty, nocomments, out);
    } else if nt == NodeType::TextNode {
        emit_escaped(out, &doc.nodes[i].content, false);
    } else if nt == NodeType::CDataSectionNode {
        emit_lit(out, "<![CDATA[");
        crate::tree::chars::extend_chars(out, &doc.nodes[i].content);
        emit_lit(out, "]]>");
        proof {
            reveal_strlit("<![CDATA[");
            reveal_strlit("]]>");
            assert(out@ =~= old(out)@ + ser_node(doc.nodes@, i as int, noempty, nocomments));
        }
    } else if nt == NodeType::CommentNode {
        if nocomments {
            proof {
                assert(ser_node(doc.nodes@, i as int, noempty, nocomments) =~= Seq::<
                    char,
                >::empty());
                assert(out@ + ser_node(doc.nodes@, i as int, noempty, nocomments) =~= out@);
            }
        } else {
            emit_lit(out, "<!--");
            crate::tree::chars::extend_chars(out, &doc.nodes[i].content);
            emit_lit(out, "-->");
            proof {
                reveal_strlit("<!--");
                reveal_strlit("-->");
                assert(out@ =~= old(out)@ + ser_node(doc.nodes@, i as int, noempty, nocomments));
            }
        }
    } else if nt == NodeType::PiNode {
        out.push('<');
        out.push('?');
        crate::tree::chars::extend_chars(out, &doc.nodes[i].name);
        if doc.nodes[i].content.len() > 0 {
            out.push(' ');
            crate::tree::chars::extend_chars(out, &doc.nodes[i].content);
        }
        out.push('?');
        out.push('>');
        proof {
            assert(out@ =~= old(out)@ + ser_node(doc.nodes@, i as int, noempty, nocomments));
        }
    } else if nt == NodeType::DocumentNode {
        emit_kids(doc, i, noempty, nocomments, out);
    } else {
        proof {
            assert(ser_node(doc.nodes@, i as int, noempty, nocomments) =~= Seq::<char>::empty());
            assert(out@ + ser_node(doc.nodes@, i as int, noempty, nocomments) =~= out@);
        }
    }
}

/// Appends the serialized children of position `i` to `out`.
pub(crate) fn emit_kids(doc: &Document, i: usize, noempty: bool, nocomments: bool, out: &mut Vec<char>)
    requires
        doc.wf(),
        i < doc.nodes@.len(),
    ensures
        final(out)@ == old(out)@ + ser_kids(doc.nodes@, i as int, 0, noempty, nocomments),
    decreases doc.nodes@[i as int].height@, 0int, 0int,
{
    let n = doc.nodes[i].children.len();
    let mut k: usize = 0;
    while k < n
        invariant
            doc.wf(),
            i < doc.nodes@.len(),
            k <= n,
            n == doc.nodes@[i as int].children@.len(),
            out@ + ser_kids(doc.nodes@, i as int, k as int, noempty, nocomments) == old(out)@ + ser_kids(
                doc.nodes@,
                i as int,
                0,
                noempty,
                nocomments,
            ),
        decreases n - k,
    {
        proof {
            assert(node_ok(doc.nodes@, i as int));
            assert(child_edge_ok(
                doc.nodes@,
                i as int,
                doc.nodes@[i as int].children@[k as int] as int,
            ));
        }
        let ghost pre = out@;
        let c = doc.nodes[i].children[k];
        emit_node(doc, c, noempty, nocomments, out);
        proof {
            assert(ser_kids(doc.nodes@, i as int, k as int, noempty, nocomments) == ser_node(
                doc.nodes@,
                c as int,
                noempty,
                nocomments,
            ) + ser_kids(doc.nodes@, i as int, k + 1, noempty, nocomments));
            assert((pre + ser_node(doc.nodes@, c as int, noempty, nocomments)) + ser_kids(
                doc.nodes@,
                i as int,
                k + 1,
                noempty,
                nocomments,
            ) =~= pre + (ser_node(doc.nodes@, c as int, noempty, nocomments) + ser_kids(
                doc.nodes@,
                i as int,
                k + 1,
                noempty,
                nocomments,
            )));
        }
        k = k + 1;
    }
    proof {
        assert(ser_kids(doc.nodes@, i as int, n as int, noempty, nocomments) =~= Seq::<char>::empty());
        assert(out@ + ser_kids(doc.nodes@, i as int, n as int, noempty, nocomments) =~= out@);
    }
}

impl Document {
    /// Serializes the document with options.
    pub fn to_string_with_options(&self, options: SaveOptions) -> (r: String)
        requires
            self.wf(),
        ensures
            r@ == ser_doc(self.nodes@, options.no_declaration, options.no_empty_tags),
    {
        let mut out: Vec<char> = Vec::new();
        if !options.no_declaration {
            emit_lit(&mut out, "<?xml version=\"1.0\" encoding=\"UTF-8\"?>\n");
            proof {
                reveal_strlit("<?xml version=\"1.0\" encoding=\"UTF-8\"?>\n");
                assert(out@ =~= decl_line());
            }
        }
        emit_kids(self, 0, options.no_empty_tags, false, &mut out);
        out.push('\n');
        proof {
            assert(out@ =~= ser_doc(self.nodes@, options.no_declaration, options.no_empty_tags));
        }
        chars_to_string(&out)
    }

    /// Serializes the document in the default style.
    pub fn to_string(&self) -> (r: String)
        requires
            self.wf(),
        ensures
            r@ == ser_doc(self.nodes@, false, false),
    {
        self.to_string_with_options(SaveOptions::default())
    }

    /// Serializes one node owned by this document.
    pub fn node_to_string(&self, node: &Node) -> (r: String)
        requires
            self.wf(),
            node.id < self.nodes@.len(),
        ensures
            r@ == ser_node(self.nodes@, node.id as int, false, false),
    {
        let mut out: Vec<char> = Vec::new();
        emit_node(self, node.id, false, false, &mut out);
        chars_to_string(&out)
    }

    /// Serializes one read-only node owned by this document.
    pub fn ronode_to_string(&self, node: &crate::readonly::RoNode) -> (r: String)
        requires
            self.wf(),
            node.0 < self.nodes@.len(),
        ensures
            r@ == ser_node(self.nodes@, node.0 as int, false, false),
    {
        let mut out: Vec<char> = Vec::new();
        emit_node(self, node.0, false, false, &mut out);
        chars_to_string(&out)
    }
}

} // verus!
