//! The pretty printer: a subtree as HTML with one tag or text unit per line,
//! each line indented by two spaces for every level of nesting.
//!
//! An element gives a line with its start tag, then its children one level
//! deeper, then a line with its end tag. An HTML void element gives its start
//! tag only. Text gives one unit, escaped unless it stands in an HTML element
//! whose content is raw text; blank text gives nothing. The root container of a
//! document gives no line of its own.

use vstd::prelude::*;
use crate::chars::{is_blank, is_blank_text};
use crate::dom::{html_namespace, is_html_namespace, Attribute, Document, NodeData};
use crate::strings::{push_char, str_eq};

verus! {

/// Whether elements with this tag have no content and no end tag.
pub open spec fn is_void_tag(tag: Seq<char>) -> bool {
    ||| tag == "area"@
    ||| tag == "base"@
    ||| tag == "basefont"@
    ||| tag == "bgsound"@
    ||| tag == "br"@
    ||| tag == "col"@
    ||| tag == "embed"@
    ||| tag == "frame"@
    ||| tag == "hr"@
    ||| tag == "img"@
    ||| tag == "input"@
    ||| tag == "keygen"@
    ||| tag == "link"@
    ||| tag == "meta"@
    ||| tag == "param"@
    ||| tag == "source"@
    ||| tag == "track"@
    ||| tag == "wbr"@
}

/// Whether the text in elements with this tag is written as it is.
pub open spec fn is_raw_tag(tag: Seq<char>) -> bool {
    ||| tag == "style"@
    ||| tag == "script"@
    ||| tag == "xmp"@
    ||| tag == "iframe"@
    ||| tag == "noembed"@
    ||| tag == "noframes"@
    ||| tag == "plaintext"@
}

/// Whether an element of this namespace and tag is an HTML void element.
pub open spec fn is_void(namespace: Seq<char>, tag: Seq<char>) -> bool {
    namespace == html_namespace() && is_void_tag(tag)
}

/// Whether an element of this namespace and tag is an HTML element with raw
/// text content.
pub open spec fn is_raw(namespace: Seq<char>, tag: Seq<char>) -> bool {
    namespace == html_namespace() && is_raw_tag(tag)
}

/// Tests for a void element.
pub fn is_void_element(tag: &str) -> (r: bool)
    ensures
        r == is_void_tag(tag@),
{
    str_eq(tag, "area") || str_eq(tag, "base") || str_eq(tag, "basefont") || str_eq(
        tag,
        "bgsound",
    ) || str_eq(tag, "br") || str_eq(tag, "col") || str_eq(tag, "embed") || str_eq(tag, "frame")
        || str_eq(tag, "hr") || str_eq(tag, "img") || str_eq(tag, "input") || str_eq(
        tag,
        "keygen",
    ) || str_eq(tag, "link") || str_eq(tag, "meta") || str_eq(tag, "param") || str_eq(
        tag,
        "source",
    ) || str_eq(tag, "track") || str_eq(tag, "wbr")
}

/// Tests for an element with raw text content.
pub fn is_raw_text_element(tag: &str) -> (r: bool)
    ensures
        r == is_raw_tag(tag@),
{
    str_eq(tag, "style") || str_eq(tag, "script") || str_eq(tag, "xmp") || str_eq(tag, "iframe")
        || str_eq(tag, "noembed") || str_eq(tag, "noframes") || str_eq(tag, "plaintext")
}

/// One character of text or of an attribute value as it is written.
pub open spec fn escaped_char(c: char, in_attribute: bool) -> Seq<char> {
    if c == '&' {
        "&amp;"@
    } else if c == '\u{a0}' {
        "&nbsp;"@
    } else if c == '"' && in_attribute {
        "&quot;"@
    } else if c == '<' && !in_attribute {
        "&lt;"@
    } else if c == '>' && !in_attribute {
        "&gt;"@
    } else {
        seq![c]
    }
}

/// Text or an attribute value as it is written: each character escaped.
pub open spec fn escaped(s: Seq<char>, in_attribute: bool) -> Seq<char>
    decreases s.len(),
{
    if s.len() == 0 {
        Seq::empty()
    } else {
        escaped(s.drop_last(), in_attribute) + escaped_char(s.last(), in_attribute)
    }
}

/// The indentation of a line at the given depth.
pub open spec fn indent(depth: nat) -> Seq<char>
    decreases depth,
{
    if depth == 0 {
        Seq::empty()
    } else {
        indent((depth - 1) as nat) + "  "@
    }
}

/// The prefix under which the name of an attribute is written: none for an
/// attribute without namespace, the usual prefix for the XML, XMLNS and
/// XLink namespaces, and a mark for any other namespace.
pub open spec fn name_prefix(namespace: Seq<char>, name: Seq<char>) -> Seq<char> {
    if namespace.len() == 0 {
        Seq::empty()
    } else if namespace == "http://www.w3.org/XML/1998/namespace"@ {
        "xml:"@
    } else if namespace == "http://www.w3.org/2000/xmlns/"@ {
        if name == "xmlns"@ {
            Seq::empty()
        } else {
            "xmlns:"@
        }
    } else if namespace == "http://www.w3.org/1999/xlink"@ {
        "xlink:"@
    } else {
        "unknown_namespace:"@
    }
}

/// The attributes of a start tag: each one after a space, as its prefix and
/// name, an equals sign and its escaped value in double quotes.
pub open spec fn attributes_text(attributes: Seq<Attribute>) -> Seq<char>
    decreases attributes.len(),
{
    if attributes.len() == 0 {
        Seq::empty()
    } else {
        attributes_text(attributes.drop_last()) + seq![' '] + name_prefix(
            attributes.last().namespace@,
            attributes.last().name@,
        ) + attributes.last().name@ + "=\""@ + escaped(attributes.last().value@, true) + seq!['"']
    }
}

/// Appends the prefix under which the name of an attribute is written.
fn write_name_prefix(out: &mut String, namespace: &str, name: &str)
    ensures
        final(out)@ == old(out)@ + name_prefix(namespace@, name@),
{
    let ghost start = out@;
    if namespace.is_empty() {
        assert(start + Seq::<char>::empty() == start);
    } else if str_eq(namespace, "http://www.w3.org/XML/1998/namespace") {
        out.append("xml:");
    } else if str_eq(namespace, "http://www.w3.org/2000/xmlns/") {
        if str_eq(name, "xmlns") {
            assert(start + Seq::<char>::empty() == start);
        } else {
            out.append("xmlns:");
        }
    } else if str_eq(namespace, "http://www.w3.org/1999/xlink") {
        out.append("xlink:");
    } else {
        out.append("unknown_namespace:");
    }
}

/// The line of a start tag.
pub open spec fn start_line(tag: Seq<char>, attributes: Seq<Attribute>, depth: nat) -> Seq<char> {
    indent(depth) + seq!['<'] + tag + attributes_text(attributes) + seq!['>', '\n']
}

/// The line of an end tag.
pub open spec fn end_line(tag: Seq<char>, depth: nat) -> Seq<char> {
    indent(depth) + "</"@ + tag + seq!['>', '\n']
}

/// The rendering of node `id` at the given depth. `raw` says whether the
/// node stands in an element with raw text content.
pub open spec fn pretty_node(doc: &Document, id: int, depth: nat, raw: bool) -> Seq<char>
    decreases doc.len() - id, doc.children(id).len() + 1,
{
    if 0 <= id < doc.len() {
        match doc.data(id) {
            NodeData::Document => pretty_children(doc, id, 0, depth, false),
            NodeData::Doctype(name) => indent(depth) + "<!DOCTYPE "@ + name@ + seq!['>', '\n'],
            NodeData::Element { namespace, tag, attributes } => if is_void(namespace@, tag@) {
                start_line(tag@, attributes@, depth)
            } else {
                start_line(tag@, attributes@, depth) + pretty_children(
                    doc,
                    id,
                    0,
                    depth + 1,
                    is_raw(namespace@, tag@),
                ) + end_line(tag@, depth)
            },
            NodeData::Text(text) => if is_blank(text@) {
                Seq::empty()
            } else if raw {
                indent(depth) + text@ + seq!['\n']
            } else {
                indent(depth) + escaped(text@, false) + seq!['\n']
            },
            NodeData::Comment(text) => indent(depth) + "<!--"@ + text@ + "-->\n"@,
            NodeData::ProcessingInstruction { target, data } => indent(depth) + "<?"@ + target@
                + seq![' '] + data@ + seq!['>', '\n'],
        }
    } else {
        Seq::empty()
    }
}

/// The renderings of the children of `id` from position `k` on, one after
/// the other.
pub open spec fn pretty_children(doc: &Document, id: int, k: int, depth: nat, raw: bool) -> Seq<
    char,
>
    decreases doc.len() - id, doc.children(id).len() - k,
{
    if 0 <= id < doc.len() && 0 <= k < doc.children(id).len() {
        let c = doc.children(id)[k] as int;
        if id < c < doc.len() {
            pretty_node(doc, c, depth, raw) + pretty_children(doc, id, k + 1, depth, raw)
        } else {
            pretty_children(doc, id, k + 1, depth, raw)
        }
    } else {
        Seq::empty()
    }
}

/// Whether node `id` stands directly in an element with raw text content.
pub open spec fn in_raw_text(doc: &Document, id: int) -> bool {
    0 <= id < doc.len() && match doc.parent(id) {
        Some(p) => p < doc.len() && match doc.data(p as int) {
            NodeData::Element { namespace, tag, attributes } => is_raw(namespace@, tag@),
            _ => false,
        },
        None => false,
    }
}

/// Appends text or an attribute value, escaped.
fn write_escaped(out: &mut String, s: &str, in_attribute: bool)
    ensures
        final(out)@ == old(out)@ + escaped(s@, in_attribute),
{
    let ghost start = out@;
    assert(s@.take(0) == Seq::<char>::empty());
    assert(start + Seq::<char>::empty() == start);
    for c in it: s.chars()
        invariant
            it.seq() == s@,
            out@ == start + escaped(s@.take(it.index()), in_attribute),
    {
        let ghost i = it.index();
        let ghost before = out@;
        assert(s@.take(i + 1).drop_last() == s@.take(i));
        assert(s@.take(i + 1).last() == c);
        if c == '&' {
            out.append("&amp;");
        } else if c == '\u{a0}' {
            out.append("&nbsp;");
        } else if c == '"' && in_attribute {
            out.append("&quot;");
        } else if c == '<' && !in_attribute {
            out.append("&lt;");
        } else if c == '>' && !in_attribute {
            out.append("&gt;");
        } else {
            push_char(out, c);
            assert(before.push(c) == before + seq![c]);
        }
        assert(out@ == before + escaped_char(c, in_attribute));
        assert(out@ == start + escaped(s@.take(i + 1), in_attribute));
    }
    assert(s@.take(s@.len() as int) == s@);
}

/// Appends the indentation of a line.
fn write_indent(out: &mut String, depth: usize)
    ensures
        final(out)@ == old(out)@ + indent(depth as nat),
{
    let ghost start = out@;
    let mut i: usize = 0;
    assert(start + indent(0) == start);
    while i < depth
        invariant
            i <= depth,
            out@ == start + indent(i as nat),
        decreases depth - i,
    {
        out.append("  ");
        assert(out@ == start + indent((i + 1) as nat));
        i = i + 1;
    }
}

/// Appends the attributes of a start tag.
fn write_attributes(out: &mut String, attributes: &Vec<Attribute>)
    ensures
        final(out)@ == old(out)@ + attributes_text(attributes@),
{
    let ghost start = out@;
    let mut i: usize = 0;
    assert(attributes@.take(0) == Seq::<Attribute>::empty());
    assert(start + Seq::<char>::empty() == start);
    while i < attributes.len()
        invariant
            i <= attributes.len(),
            out@ == start + attributes_text(attributes@.take(i as int)),
        decreases attributes.len() - i,
    {
        assert(attributes@.take(i + 1).drop_last() == attributes@.take(i as int));
        assert(attributes@.take(i + 1).last() == attributes@[i as int]);
        let ghost done = attributes_text(attributes@.take(i as int));
        push_char(out, ' ');
        write_name_prefix(out, attributes[i].namespace.as_str(), attributes[i].name.as_str());
        out.append(attributes[i].name.as_str());
        out.append("=\"");
        write_escaped(out, attributes[i].value.as_str(), true);
        push_char(out, '"');
        assert(out@ == start + (done + seq![' '] + name_prefix(
            attributes@[i as int].namespace@,
            attributes@[i as int].name@,
        ) + attributes@[i as int].name@ + "=\""@ + escaped(attributes@[i as int].value@, true)
            + seq!['"']));
        i = i + 1;
    }
    assert(attributes@.take(attributes.len() as int) == attributes@);
}

/// Appends the line of a start tag.
fn write_start_line(out: &mut String, tag: &str, attributes: &Vec<Attribute>, depth: usize)
    ensures
        final(out)@ == old(out)@ + start_line(tag@, attributes@, depth as nat),
{
    let ghost start = out@;
    write_indent(out, depth);
    push_char(out, '<');
    out.append(tag);
    write_attributes(out, attributes);
    push_char(out, '>');
    push_char(out, '\n');
    assert(out@ == start + start_line(tag@, attributes@, depth as nat));
}

/// Appends the line of an end tag.
fn write_end_line(out: &mut String, tag: &str, depth: usize)
    ensures
        final(out)@ == old(out)@ + end_line(tag@, depth as nat),
{
    let ghost start = out@;
    write_indent(out, depth);
    out.append("</");
    out.append(tag);
    push_char(out, '>');
    push_char(out, '\n');
    assert(out@ == start + end_line(tag@, depth as nat));
}

/// Appends the renderings of all children of a node.
fn write_children(doc: &Document, id: usize, depth: usize, raw: bool, out: &mut String)
    requires
        doc.wf(),
        id < doc.len(),
        depth + (doc.len() - id) <= usize::MAX + 1,
    ensures
        final(out)@ == old(out)@ + pretty_children(doc, id as int, 0, depth as nat, raw),
    decreases doc.len() - id, 0nat,
{
    let ghost start = out@;
    let children: Vec<usize> = doc.children_of(id);
    let mut k: usize = 0;
    while k < children.len()
        invariant
            doc.wf(),
            id < doc.len(),
            depth + (doc.len() - id) <= usize::MAX + 1,
            children@ == doc.children(id as int),
            k <= children.len(),
            out@ + pretty_children(doc, id as int, k as int, depth as nat, raw) == start
                + pretty_children(doc, id as int, 0, depth as nat, raw),
        decreases children.len() - k,
    {
        let c: usize = children[k];
        let ghost before = out@;
        assert(c == doc.children(id as int)[k as int]);
        write_node(doc, c, depth, raw, out);
        proof {
            let here = pretty_node(doc, c as int, depth as nat, raw);
            let rest = pretty_children(doc, id as int, k + 1, depth as nat, raw);
            assert(pretty_children(doc, id as int, k as int, depth as nat, raw) == here + rest);
            assert((before + here) + rest == before + (here + rest));
        }
        k = k + 1;
    }
    assert(pretty_children(doc, id as int, children.len() as int, depth as nat, raw)
        == Seq::<char>::empty());
    assert(out@ + Seq::<char>::empty() == out@);
}

/// Appends the rendering of a node.
fn write_node(doc: &Document, id: usize, depth: usize, raw: bool, out: &mut String)
    requires
        doc.wf(),
        id < doc.len(),
        depth + (doc.len() - id) <= usize::MAX,
    ensures
        final(out)@ == old(out)@ + pretty_node(doc, id as int, depth as nat, raw),
    decreases doc.len() - id, 1nat,
{
    let ghost start = out@;
    match doc.get(id) {
        Some(NodeData::Doctype(name)) => {
            write_indent(out, depth);
            out.append("<!DOCTYPE ");
            out.append(name.as_str());
            push_char(out, '>');
            push_char(out, '\n');
            assert(out@ == start + (indent(depth as nat) + "<!DOCTYPE "@ + name@ + seq![
                '>',
                '\n',
            ]));
        },
        Some(NodeData::Element { namespace, tag, attributes }) => {
            write_start_line(out, tag.as_str(), attributes, depth);
            let html: bool = is_html_namespace(namespace.as_str());
            if !(html && is_void_element(tag.as_str())) {
                let inner_raw: bool = html && is_raw_text_element(tag.as_str());
                write_children(doc, id, depth + 1, inner_raw, out);
                write_end_line(out, tag.as_str(), depth);
                proof {
                    let a = start_line(tag@, attributes@, depth as nat);
                    let b = pretty_children(doc, id as int, 0, (depth + 1) as nat, inner_raw);
                    let c = end_line(tag@, depth as nat);
                    assert(((start + a) + b) + c == start + (a + b + c));
                }
            }
        },
        Some(NodeData::Text(text)) => {
            if !is_blank_text(text.as_str()) {
                write_indent(out, depth);
                if raw {
                    out.append(text.as_str());
                } else {
                    write_escaped(out, text.as_str(), false);
                }
                push_char(out, '\n');
                assert(raw ==> out@ == start + (indent(depth as nat) + text@ + seq!['\n']));
                assert(!raw ==> out@ == start + (indent(depth as nat) + escaped(text@, false)
                    + seq!['\n']));
            } else {
                assert(start + Seq::<char>::empty() == start);
            }
        },
        Some(NodeData::Comment(text)) => {
            write_indent(out, depth);
            out.append("<!--");
            out.append(text.as_str());
            out.append("-->\n");
            assert(out@ == start + (indent(depth as nat) + "<!--"@ + text@ + "-->\n"@));
        },
        Some(NodeData::ProcessingInstruction { target, data }) => {
            write_indent(out, depth);
            out.append("<?");
            out.append(target.as_str());
            push_char(out, ' ');
            out.append(data.as_str());
            push_char(out, '>');
            push_char(out, '\n');
            assert(out@ == start + (indent(depth as nat) + "<?"@ + target@ + seq![' '] + data@
                + seq!['>', '\n']));
        },
        _ => {
            write_children(doc, id, depth, false, out);
        },
    }
}

/// Tests whether a node stands directly in an element with raw text content.
pub fn stands_in_raw_text(doc: &Document, node: usize) -> (r: bool)
    requires
        doc.wf(),
    ensures
        r == in_raw_text(doc, node as int),
{
    match doc.parent_of(node) {
        Some(p) => match doc.get(p) {
            Some(NodeData::Element { namespace, tag, attributes }) => is_html_namespace(
                namespace.as_str(),
            ) && is_raw_text_element(tag.as_str()),
            _ => false,
        },
        None => false,
    }
}

/// The pretty-printed rendering of a node and its subtree, starting at
/// depth zero; the empty string when `node` is no node of the document.
pub fn pretty_print(doc: &Document, node: usize) -> (r: String)
    requires
        doc.wf(),
    ensures
        r@ == pretty_node(doc, node as int, 0, in_raw_text(doc, node as int)),
{
    let mut out = String::new();
    if node < doc.node_count() {
        let raw: bool = stands_in_raw_text(doc, node);
        write_node(doc, node, 0, raw, &mut out);
        assert(Seq::<char>::empty() + pretty_node(doc, node as int, 0, raw) == pretty_node(
            doc,
            node as int,
            0,
            raw,
        ));
    }
    out
}

} // verus!
