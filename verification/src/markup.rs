//! HTML serialization, done by the serializer of `html5ever`.
//!
//! The serializer takes a node at a time: the start and the end of an
//! element, a text, a comment, a doctype, a processing instruction. It keeps
//! the elements that are open, and with each whether it is a void element or
//! stands in one: an element that stands in a void element is not written,
//! and a void element has no end tag. Text is escaped unless it stands in an
//! element whose content is raw text. Both rules hold of HTML elements only:
//! an element of another namespace is written with start tag, content and
//! end tag, and the text in it is escaped.

use vstd::prelude::*;
use html5ever::serialize::{HtmlSerializer, SerializeOpts, Serializer};
use html5ever::{LocalName, Namespace, QualName};
use crate::dom::{html_namespace, Attribute, Document, NodeData};
use crate::pretty::{attributes_text, escaped, is_raw_tag, is_void_tag};

verus! {

/// The serializer of `html5ever`, writing to memory. Its type takes a bound
/// that cannot be declared here, so it is held in a field that is not looked
/// into.
#[verifier::external_body]
pub struct HtmlWriter {
    inner: HtmlSerializer<Vec<u8>>,
}

/// An element that is open in the serializer: its name, if it has one, and
/// whether the elements in it are left out.
pub ghost struct OpenElement {
    pub name: Option<Seq<char>>,
    pub ignore_children: bool,
}

/// The text that a serializer has written.
pub uninterp spec fn html_written(writer: HtmlWriter) -> Seq<char>;

/// The elements that are open in a serializer, the innermost last.
pub uninterp spec fn html_open(writer: HtmlWriter) -> Seq<OpenElement>;

/// What stands for "no element" at the bottom of a new serializer.
pub open spec fn top_level() -> OpenElement {
    OpenElement { name: None, ignore_children: false }
}

/// What a serializer holds when it is new.
pub open spec fn is_new(writer: HtmlWriter) -> bool {
    html_written(writer) == Seq::<char>::empty() && html_open(writer) == seq![top_level()]
}

/// The element that a start tag opens in `parent`. Only an HTML element
/// counts with its name, for the rules on raw text; an HTML void element, and any
/// element in an element whose children are left out, leaves out its own.
pub open spec fn opened_in(parent: OpenElement, namespace: Seq<char>, tag: Seq<char>) -> OpenElement {
    OpenElement {
        name: if namespace == html_namespace() {
            Some(tag)
        } else {
            None
        },
        ignore_children: parent.ignore_children || (namespace == html_namespace() && is_void_tag(
            tag,
        )),
    }
}

/// What is written for the start of an element in `parent`.
pub open spec fn start_tag(parent: OpenElement, tag: Seq<char>, attributes: Seq<Attribute>) -> Seq<
    char,
> {
    if parent.ignore_children {
        Seq::empty()
    } else {
        seq!['<'] + tag + attributes_text(attributes) + seq!['>']
    }
}

/// What is written for the end of the element `open`.
pub open spec fn end_tag(open: OpenElement, tag: Seq<char>) -> Seq<char> {
    if open.ignore_children {
        Seq::empty()
    } else {
        "</"@ + tag + seq!['>']
    }
}

/// Whether text in an element of this name is written as it is.
pub open spec fn is_unescaped_in(name: Option<Seq<char>>) -> bool {
    match name {
        Some(tag) => is_raw_tag(tag) || tag == "noscript"@,
        None => false,
    }
}

/// What is written for a text in `parent`.
pub open spec fn text_markup(parent: OpenElement, text: Seq<char>) -> Seq<char> {
    if is_unescaped_in(parent.name) {
        text
    } else {
        escaped(text, false)
    }
}

/// What is written for a comment.
pub open spec fn comment_markup(text: Seq<char>) -> Seq<char> {
    "<!--"@ + text + "-->"@
}

/// What is written for a doctype.
pub open spec fn doctype_markup(name: Seq<char>) -> Seq<char> {
    "<!DOCTYPE "@ + name + seq!['>']
}

/// What is written for a processing instruction.
pub open spec fn instruction_markup(target: Seq<char>, data: Seq<char>) -> Seq<char> {
    "<?"@ + target + seq![' '] + data + seq!['>']
}

/// A new serializer.
///
/// Calls `HtmlSerializer::new` with the default options: nothing is written,
/// and one entry without a name stands for the parent of what comes.
#[verifier::external_body]
pub(crate) fn new_writer() -> (writer: HtmlWriter)
    ensures
        is_new(writer),
{
    HtmlWriter { inner: HtmlSerializer::new(Vec::new(), SerializeOpts::default()) }
}

/// The start of an element.
///
/// Calls `HtmlSerializer::start_elem`. It writes the tag with its attributes,
/// the name of an attribute with the prefix of its namespace, unless the
/// parent leaves its children out, and opens the element.
#[verifier::external_body]
pub(crate) fn write_start(
    writer: &mut HtmlWriter,
    namespace: &str,
    tag: &str,
    attributes: &Vec<Attribute>,
)
    requires
        html_open(*old(writer)).len() > 0,
    ensures
        html_open(*final(writer)) == html_open(*old(writer)).push(
            opened_in(html_open(*old(writer)).last(), namespace@, tag@),
        ),
        html_written(*final(writer)) == html_written(*old(writer)) + start_tag(
            html_open(*old(writer)).last(),
            tag@,
            attributes@,
        ),
{
    let names: Vec<QualName> = attributes.iter().map(
        |a| QualName::new(None, Namespace::from(a.namespace.as_str()), LocalName::from(a.name.as_str())),
    ).collect();
    let _ = writer.inner.start_elem(
        QualName::new(None, Namespace::from(namespace), LocalName::from(tag)),
        names.iter().zip(attributes.iter()).map(|(n, a)| (n, a.value.as_str())),
    );
}

/// The end of an element.
///
/// Calls `HtmlSerializer::end_elem`. It closes the innermost open element
/// and writes the end tag, unless that element leaves its children out.
#[verifier::external_body]
pub(crate) fn write_end(writer: &mut HtmlWriter, tag: &str)
    requires
        html_open(*old(writer)).len() > 0,
    ensures
        html_open(*final(writer)) == html_open(*old(writer)).drop_last(),
        html_written(*final(writer)) == html_written(*old(writer)) + end_tag(
            html_open(*old(writer)).last(),
            tag@,
        ),
{
    let html = Namespace::from("http://www.w3.org/1999/xhtml");
    let _ = writer.inner.end_elem(QualName::new(None, html, LocalName::from(tag)));
}

/// A text.
///
/// Calls `HtmlSerializer::write_text`. It writes the text as it is in an
/// element with raw text content and escaped elsewhere.
#[verifier::external_body]
pub(crate) fn write_text(writer: &mut HtmlWriter, text: &str)
    requires
        html_open(*old(writer)).len() > 0,
    ensures
        html_open(*final(writer)) == html_open(*old(writer)),
        html_written(*final(writer)) == html_written(*old(writer)) + text_markup(
            html_open(*old(writer)).last(),
            text@,
        ),
{
    let _ = writer.inner.write_text(text);
}

/// A comment. Calls `HtmlSerializer::write_comment`.
#[verifier::external_body]
pub(crate) fn write_comment(writer: &mut HtmlWriter, text: &str)
    ensures
        html_open(*final(writer)) == html_open(*old(writer)),
        html_written(*final(writer)) == html_written(*old(writer)) + comment_markup(text@),
{
    let _ = writer.inner.write_comment(text);
}

/// A doctype. Calls `HtmlSerializer::write_doctype`.
#[verifier::external_body]
pub(crate) fn write_doctype(writer: &mut HtmlWriter, name: &str)
    ensures
        html_open(*final(writer)) == html_open(*old(writer)),
        html_written(*final(writer)) == html_written(*old(writer)) + doctype_markup(name@),
{
    let _ = writer.inner.write_doctype(name);
}

/// A processing instruction. Calls
/// `HtmlSerializer::write_processing_instruction`.
#[verifier::external_body]
pub(crate) fn write_instruction(writer: &mut HtmlWriter, target: &str, data: &str)
    ensures
        html_open(*final(writer)) == html_open(*old(writer)),
        html_written(*final(writer)) == html_written(*old(writer)) + instruction_markup(
            target@,
            data@,
        ),
{
    let _ = writer.inner.write_processing_instruction(target, data);
}

/// The text that the serializer has written.
///
/// Reads `HtmlSerializer::writer`, which holds that text as UTF-8.
#[verifier::external_body]
pub(crate) fn written_text(writer: HtmlWriter) -> (r: String)
    ensures
        r@ == html_written(writer),
{
    String::from_utf8_lossy(&writer.inner.writer).into_owned()
}

/// Node `id` and its subtree in HTML syntax, as it is written in `parent`.
/// An element is its start tag, its children and its end tag; the root
/// container is its children.
pub open spec fn html_node(doc: &Document, id: int, parent: OpenElement) -> Seq<char>
    decreases doc.len() - id, doc.children(id).len() + 1,
{
    if 0 <= id < doc.len() {
        match doc.data(id) {
            NodeData::Document => html_children(doc, id, 0, parent),
            NodeData::Doctype(name) => doctype_markup(name@),
            NodeData::Element { namespace, tag, attributes } => start_tag(parent, tag@, attributes@)
                + html_children(doc, id, 0, opened_in(parent, namespace@, tag@)) + end_tag(
                opened_in(parent, namespace@, tag@),
                tag@,
            ),
            NodeData::Text(text) => text_markup(parent, text@),
            NodeData::Comment(text) => comment_markup(text@),
            NodeData::ProcessingInstruction { target, data } => instruction_markup(target@, data@),
        }
    } else {
        Seq::empty()
    }
}

/// The children of `id` from position `k` on in HTML syntax, one after the
/// other, as they are written in `parent`.
pub open spec fn html_children(doc: &Document, id: int, k: int, parent: OpenElement) -> Seq<char>
    decreases doc.len() - id, doc.children(id).len() - k,
{
    if 0 <= id < doc.len() && 0 <= k < doc.children(id).len() {
        let c = doc.children(id)[k] as int;
        if id < c < doc.len() {
            html_node(doc, c, parent) + html_children(doc, id, k + 1, parent)
        } else {
            html_children(doc, id, k + 1, parent)
        }
    } else {
        Seq::empty()
    }
}

/// Writes the children of a node.
fn emit_children(doc: &Document, id: usize, writer: &mut HtmlWriter)
    requires
        doc.wf(),
        id < doc.len(),
        html_open(*old(writer)).len() > 0,
    ensures
        html_open(*final(writer)) == html_open(*old(writer)),
        html_written(*final(writer)) == html_written(*old(writer)) + html_children(
            doc,
            id as int,
            0,
            html_open(*old(writer)).last(),
        ),
    decreases doc.len() - id, 0nat,
{
    let ghost start = html_written(*writer);
    let ghost open = html_open(*writer);
    let children: Vec<usize> = doc.children_of(id);
    let mut k: usize = 0;
    while k < children.len()
        invariant
            doc.wf(),
            id < doc.len(),
            open.len() > 0,
            html_open(*writer) == open,
            children@ == doc.children(id as int),
            k <= children.len(),
            html_written(*writer) + html_children(doc, id as int, k as int, open.last()) == start
                + html_children(doc, id as int, 0, open.last()),
        decreases children.len() - k,
    {
        let c: usize = children[k];
        let ghost before = html_written(*writer);
        assert(c == doc.children(id as int)[k as int]);
        emit_node(doc, c, writer);
        proof {
            let here = html_node(doc, c as int, open.last());
            let rest = html_children(doc, id as int, k + 1, open.last());
            assert(html_children(doc, id as int, k as int, open.last()) == here + rest);
            assert((before + here) + rest == before + (here + rest));
        }
        k = k + 1;
    }
    assert(html_children(doc, id as int, children.len() as int, open.last())
        == Seq::<char>::empty());
    assert(html_written(*writer) + Seq::<char>::empty() == html_written(*writer));
}

/// Writes a node and its subtree.
fn emit_node(doc: &Document, id: usize, writer: &mut HtmlWriter)
    requires
        doc.wf(),
        id < doc.len(),
        html_open(*old(writer)).len() > 0,
    ensures
        html_open(*final(writer)) == html_open(*old(writer)),
        html_written(*final(writer)) == html_written(*old(writer)) + html_node(
            doc,
            id as int,
            html_open(*old(writer)).last(),
        ),
    decreases doc.len() - id, 1nat,
{
    let ghost start = html_written(*writer);
    let ghost open = html_open(*writer);
    match doc.get(id) {
        Some(NodeData::Doctype(name)) => {
            write_doctype(writer, name.as_str());
        },
        Some(NodeData::Element { namespace, tag, attributes }) => {
            write_start(writer, namespace.as_str(), tag.as_str(), attributes);
            let ghost inner = opened_in(open.last(), namespace@, tag@);
            assert(html_open(*writer).last() == inner);
            emit_children(doc, id, writer);
            write_end(writer, tag.as_str());
            proof {
                let a = start_tag(open.last(), tag@, attributes@);
                let b = html_children(doc, id as int, 0, inner);
                let c = end_tag(inner, tag@);
                assert(((start + a) + b) + c == start + (a + b + c));
                assert(open.push(inner).drop_last() == open);
            }
        },
        Some(NodeData::Text(text)) => {
            write_text(writer, text.as_str());
        },
        Some(NodeData::Comment(text)) => {
            write_comment(writer, text.as_str());
        },
        Some(NodeData::ProcessingInstruction { target, data }) => {
            write_instruction(writer, target.as_str(), data.as_str());
        },
        _ => {
            emit_children(doc, id, writer);
        },
    }
}

/// Node `node` and its subtree in HTML syntax, written at the top level;
/// nothing when `node` is no node of the document.
pub(crate) fn html_text(doc: &Document, node: usize) -> (r: String)
    requires
        doc.wf(),
    ensures
        r@ == html_node(doc, node as int, top_level()),
{
    let mut writer = new_writer();
    if node < doc.node_count() {
        emit_node(doc, node, &mut writer);
        assert(Seq::<char>::empty() + html_node(doc, node as int, top_level()) == html_node(
            doc,
            node as int,
            top_level(),
        ));
    }
    written_text(writer)
}

} // verus!
