//! The HTML engine: parsing and selector matching, done by `kuchiki`, and
//! HTML serialization.
//!
//! The document of this crate is the arena of [`Document`]. The parser's
//! tree is read as a walk over its nodes and comes into the arena as a
//! stream of events. For matching, the part of the document that is reached
//! from the root is built anew as a tree of the engine, node for node, and
//! the engine answers for each node in document order. Elements and
//! attributes keep their namespaces.

use vstd::prelude::*;
use html5ever::{LocalName, Namespace, QualName};
use kuchiki::iter::NodeEdge;
use kuchiki::traits::TendrilSink;
use kuchiki::NodeData as TreeData;
use kuchiki::{ExpandedName, NodeRef};
use crate::dom::{
    attribute_views,
    index_range,
    is_subsequence,
    Attribute,
    AttributeView,
    Document,
    NodeData,
    NodeDataView,
};
use crate::events::{copy_attributes, from_events, node_events, outcome};
use crate::json::{event_views, BuildError, Event, EventView, Span};
use crate::markup::{html_node, html_text, top_level};

verus! {

/// A tree of the engine, held by its root. The library keeps one handle to
/// each tree and hands a tree on by moving that handle, so that what a tree
/// holds changes only where its handle is passed for change.
#[verifier::external_type_specification]
#[verifier::external_body]
pub struct ExNodeRef(NodeRef);

/// Whether `Selectors::compile` accepts the selector text.
pub uninterp spec fn selector_compiles(selector: Seq<char>) -> bool;

/// What the engine answers for a selector and a document with the given
/// content: for each node in document order, the root first, whether it is
/// an element that matches. The result of `Selectors::matches` on each node
/// of `NodeRef::inclusive_descendants`.
pub uninterp spec fn selector_answers(selector: Seq<char>, content: Seq<Span>) -> Seq<bool>;

/// What a tree of the engine holds: for the tree of a document the nodes at
/// its top level, for any other tree its one node, each with what is below.
pub uninterp spec fn tree_content(tree: NodeRef) -> Seq<Span>;

/// Whether the root of a tree of the engine is a document node.
pub uninterp spec fn holds_document(tree: NodeRef) -> bool;

/// The attributes of an element as the engine keeps them: in a map under
/// namespace and name, so that they stand in the order of these and of two
/// with one namespace and name the later is kept.
pub uninterp spec fn kept_attributes(attributes: Seq<AttributeView>) -> Seq<AttributeView>;

/// The edges of the walk over the tree that `kuchiki::parse_html` gives for
/// the bytes, in document order: for each edge whether it is the start of its
/// node, and whether its node is an element.
pub uninterp spec fn parsed_edges(bytes: Seq<u8>) -> Seq<(bool, bool)>;

/// The nodes of the tree that `kuchiki::parse_html` gives for the bytes, in
/// document order: the content of each, an element without its attributes.
pub uninterp spec fn parsed_nodes(bytes: Seq<u8>) -> Seq<NodeDataView>;

/// The attributes of the nodes of the tree that `kuchiki::parse_html` gives
/// for the bytes: one list for each node in document order, empty for a node
/// that is no element.
pub uninterp spec fn parsed_attributes(bytes: Seq<u8>) -> Seq<Seq<AttributeView>>;

/// The largest input that the parser is given. The parser keeps what it
/// collects of a comment, a name or an attribute value in a buffer that
/// takes at most 2^31 bytes, and it collects at most three bytes for one byte
/// of input (where it puts the replacement character for a byte that is no
/// UTF-8 or for a NUL), so an input of a third of that is safe.
pub const MAX_INPUT: usize = 0x2AAA_AAAA;

/// The views of a list of node contents.
pub open spec fn data_views(nodes: Seq<NodeData>) -> Seq<NodeDataView> {
    nodes.map_values(|data: NodeData| data@)
}

/// The views of lists of attributes.
pub open spec fn lists_views(lists: Seq<Vec<Attribute>>) -> Seq<Seq<AttributeView>> {
    lists.map_values(|list: Vec<Attribute>| attribute_views(list@))
}

/// The edges of the walk over a tree of the engine, in document order: for
/// each edge whether it is the start of its node, and whether its node is an
/// element. The result of `NodeRef::traverse_inclusive`.
pub uninterp spec fn tree_edges(tree: NodeRef) -> Seq<(bool, bool)>;

/// The nodes of a tree of the engine, in document order: the content of
/// each, an element without its attributes. The result of
/// `NodeRef::inclusive_descendants`.
pub uninterp spec fn tree_nodes(tree: NodeRef) -> Seq<NodeDataView>;

/// The attributes of the nodes of a tree of the engine: one list for each
/// node in document order, empty for a node that is no element.
pub uninterp spec fn tree_attributes(tree: NodeRef) -> Seq<Seq<AttributeView>>;

/// Parses a document.
///
/// Calls `kuchiki::parse_html` on the bytes, decoded as UTF-8 with
/// replacement of what is not. The parser never fails; what it gives follows
/// from the bytes alone.
#[verifier::external_body]
pub(crate) fn parse_tree(bytes: &[u8]) -> (tree: NodeRef)
    requires
        bytes@.len() <= MAX_INPUT,
    ensures
        tree_edges(tree) == parsed_edges(bytes@),
        tree_nodes(tree) == parsed_nodes(bytes@),
        tree_attributes(tree) == parsed_attributes(bytes@),
{
    kuchiki::parse_html().from_utf8().one(bytes)
}

/// Walks over a tree. Calls `NodeRef::traverse_inclusive`.
#[verifier::external_body]
pub(crate) fn read_edges(tree: &NodeRef) -> (edges: Vec<(bool, bool)>)
    ensures
        edges@ == tree_edges(*tree),
{
    tree.traverse_inclusive().map(
        |edge|
            match edge {
                NodeEdge::Start(n) => (true, n.as_element().is_some()),
                NodeEdge::End(n) => (false, n.as_element().is_some()),
            },
    ).collect()
}

/// Reads the content of the nodes of a tree.
///
/// Reads `Node::data` of each node of `NodeRef::inclusive_descendants`. A
/// document fragment counts as a document. An element comes with its
/// namespace.
#[verifier::external_body]
pub(crate) fn read_nodes(tree: &NodeRef) -> (nodes: Vec<NodeData>)
    ensures
        data_views(nodes@) == tree_nodes(*tree),
{
    tree.inclusive_descendants().map(|n| match n.data() {
        TreeData::Element(e) => NodeData::Element { namespace: e.name.ns.to_string(), tag: e.name.local.to_string(), attributes: Vec::new() },
        TreeData::Text(t) => NodeData::Text(t.borrow().clone()),
        TreeData::Comment(t) => NodeData::Comment(t.borrow().clone()),
        TreeData::ProcessingInstruction(p) => NodeData::ProcessingInstruction { target: p.borrow().0.clone(), data: p.borrow().1.clone() },
        TreeData::Doctype(d) => NodeData::Doctype(d.name.clone()),
        _ => NodeData::Document,
    }).collect()
}

/// Reads the attributes of the nodes of a tree.
///
/// Reads `ElementData::attributes` of each node of
/// `NodeRef::inclusive_descendants`, in the order in which the map keeps
/// them, each with the namespace and the local name that it is kept under.
#[verifier::external_body]
pub(crate) fn read_attributes(tree: &NodeRef) -> (lists: Vec<Vec<Attribute>>)
    ensures
        lists_views(lists@) == tree_attributes(*tree),
{
    tree.inclusive_descendants().map(|n| n.as_element().map_or(
        Vec::new(),
        |e| e.attributes.borrow().map.iter().map(|(name, a)| Attribute {
            namespace: name.ns.to_string(),
            name: name.local.to_string(),
            value: a.value.clone(),
        }).collect(),
    )).collect()
}

/// The content of a tree that holds one element without children.
pub open spec fn lone_element(
    namespace: Seq<char>,
    tag: Seq<char>,
    attributes: Seq<AttributeView>,
) -> Seq<Span> {
    seq![Span::Element { namespace, name: tag, attributes, children: Seq::empty() }]
}

/// Whether a tree can take a child: the tree of a document, and the tree of
/// an element.
pub open spec fn can_hold(tree: NodeRef) -> bool {
    holds_document(tree) || (tree_content(tree).len() == 1 && tree_content(tree)[0] is Element)
}

/// The content of a tree after `more` has come to stand after the children
/// of its root.
pub open spec fn grown(document: bool, content: Seq<Span>, more: Seq<Span>) -> Seq<Span> {
    if document {
        content + more
    } else {
        match content[0] {
            Span::Element { namespace, name, attributes, children } => seq![
                Span::Element { namespace, name, attributes, children: children + more },
            ],
            _ => content,
        }
    }
}

/// The tree of a new document, which holds nothing. Calls
/// `NodeRef::new_document`.
#[verifier::external_body]
pub(crate) fn new_tree() -> (tree: NodeRef)
    ensures
        holds_document(tree),
        tree_content(tree) == Seq::<Span>::empty(),
{
    NodeRef::new_document()
}

/// A new doctype node without identifiers. Calls `NodeRef::new_doctype`.
#[verifier::external_body]
pub(crate) fn new_doctype_node(name: &str) -> (node: NodeRef)
    ensures
        !holds_document(node),
        tree_content(node) == seq![Span::Doctype(name@)],
{
    NodeRef::new_doctype(name, "", "")
}

/// A new element in the given namespace with the given attributes and
/// without children. Calls `NodeRef::new_element`, which collects the
/// attributes into its map under namespace and name.
#[verifier::external_body]
pub(crate) fn new_element_node(namespace: &str, tag: &str, attributes: &Vec<Attribute>) -> (node:
    NodeRef)
    ensures
        !holds_document(node),
        tree_content(node) == lone_element(
            namespace@,
            tag@,
            kept_attributes(attribute_views(attributes@)),
        ),
{
    NodeRef::new_element(
        QualName::new(None, Namespace::from(namespace), LocalName::from(tag)),
        attributes.iter().map(
            |a|
                (
                    ExpandedName::new(a.namespace.as_str(), a.name.as_str()),
                    kuchiki::Attribute { prefix: None, value: a.value.clone() },
                ),
        ),
    )
}

/// A new text node. Calls `NodeRef::new_text`.
#[verifier::external_body]
pub(crate) fn new_text_node(text: &str) -> (node: NodeRef)
    ensures
        !holds_document(node),
        tree_content(node) == seq![Span::Text(text@)],
{
    NodeRef::new_text(text)
}

/// A new comment node. Calls `NodeRef::new_comment`.
#[verifier::external_body]
pub(crate) fn new_comment_node(text: &str) -> (node: NodeRef)
    ensures
        !holds_document(node),
        tree_content(node) == seq![Span::Comment(text@)],
{
    NodeRef::new_comment(text)
}

/// A new processing instruction. Calls
/// `NodeRef::new_processing_instruction`.
#[verifier::external_body]
pub(crate) fn new_instruction_node(target: &str, data: &str) -> (node: NodeRef)
    ensures
        !holds_document(node),
        tree_content(node) == seq![(Span::ProcessingInstruction { target: target@, data: data@ })],
{
    NodeRef::new_processing_instruction(target, data)
}

/// Makes the tree `child` the last child of the root of `tree`. Calls
/// `NodeRef::append`. The child is a tree of its own until then, so no cycle
/// can come of it.
#[verifier::external_body]
pub(crate) fn append_tree(tree: &mut NodeRef, child: NodeRef)
    requires
        can_hold(*old(tree)),
        !holds_document(child),
    ensures
        holds_document(*final(tree)) == holds_document(*old(tree)),
        tree_content(*final(tree)) == grown(
            holds_document(*old(tree)),
            tree_content(*old(tree)),
            tree_content(child),
        ),
{
    tree.append(child)
}

/// Asks the engine which nodes of a tree match a selector.
///
/// Calls `Selectors::compile`, which fails on a syntax error and on a
/// selector that the engine does not support, and then `Selectors::matches`
/// on each node of `NodeRef::inclusive_descendants`; a node that is no
/// element matches nothing.
#[verifier::external_body]
pub(crate) fn tree_answers(tree: &NodeRef, selector: &str) -> (r: Option<Vec<bool>>)
    requires
        holds_document(*tree),
    ensures
        r is Some == selector_compiles(selector@),
        r matches Some(answers) ==> answers@ == selector_answers(selector@, tree_content(*tree)),
{
    kuchiki::Selectors::compile(selector).ok().map(
        |s|
            tree.inclusive_descendants().map(
                |n| n.into_element_ref().map_or(false, |e| s.matches(&e)),
            ).collect(),
    )
}

/// A selector that the engine does not accept.
#[derive(Debug, Clone, Copy, PartialEq, Eq)]
pub struct InvalidSelector;

/// Whether `ids` can be the result of a selection in `doc`: elements that
/// are reached from the root, each once, in document order.
pub open spec fn is_selection(doc: &Document, ids: Seq<usize>) -> bool {
    &&& is_subsequence(ids, doc.subtree(0))
    &&& forall|i: int|
        0 <= i < ids.len() ==> (#[trigger] ids[i]) < doc.len() && doc.data(ids[i] as int) is Element
}

/// Why no document came of an input.
#[derive(Debug, Clone, Copy, PartialEq, Eq)]
pub enum ParseError {
    /// The input has more than [`MAX_INPUT`] bytes.
    TooLarge,
    /// The tree that the parser gave does not nest as a tree does.
    Inconsistent(BuildError),
}

/// The event that stands for the start of a node with the given content,
/// an element with the given attributes; none for the root container.
pub open spec fn event_of_node(data: NodeDataView, given: Seq<AttributeView>) -> Option<
    EventView,
> {
    match data {
        NodeDataView::Document => None,
        NodeDataView::Element { namespace, tag, attributes } => Some(
            EventView::StartElement { namespace, name: tag, attributes: given },
        ),
        NodeDataView::Doctype(name) => Some(EventView::Doctype(name)),
        NodeDataView::Text(text) => Some(EventView::Text(text)),
        NodeDataView::Comment(text) => Some(EventView::Comment(text)),
        NodeDataView::ProcessingInstruction { target, data } => Some(
            EventView::ProcessingInstruction { target, data },
        ),
    }
}

/// The event that stands for the start of a node.
pub fn node_event(data: &NodeData, given: &Vec<Attribute>) -> (r: Option<Event>)
    ensures
        match r {
            Some(event) => event_of_node(data@, attribute_views(given@)) == Some(event@),
            None => event_of_node(data@, attribute_views(given@)) is None,
        },
{
    match data {
        NodeData::Document => None,
        NodeData::Element { namespace, tag, attributes } => Some(
            Event::StartElement {
                namespace: namespace.clone(),
                name: tag.clone(),
                attributes: copy_attributes(given),
            },
        ),
        NodeData::Doctype(name) => Some(Event::Doctype(name.clone())),
        NodeData::Text(text) => Some(Event::Text(text.clone())),
        NodeData::Comment(text) => Some(Event::Comment(text.clone())),
        NodeData::ProcessingInstruction { target, data } => Some(
            Event::ProcessingInstruction { target: target.clone(), data: data.clone() },
        ),
    }
}

/// The number of starts among the edges of a walk.
pub open spec fn starts(edges: Seq<(bool, bool)>) -> nat
    decreases edges.len(),
{
    if edges.len() == 0 {
        0
    } else if edges.last().0 {
        starts(edges.drop_last()) + 1
    } else {
        starts(edges.drop_last())
    }
}

/// The attributes at a position of a list of lists; none beyond its end.
pub open spec fn list_at(lists: Seq<Seq<AttributeView>>, position: int) -> Seq<AttributeView> {
    if 0 <= position < lists.len() {
        lists[position]
    } else {
        Seq::empty()
    }
}

/// What one edge adds to the events of a walk. A start adds the event of the
/// node at `position` in document order, if there is such a node and it has
/// an event; the end of an element adds an end event; any other end adds
/// nothing.
pub open spec fn edge_events(
    edge: (bool, bool),
    position: int,
    nodes: Seq<NodeDataView>,
    lists: Seq<Seq<AttributeView>>,
) -> Seq<EventView> {
    if edge.0 {
        if 0 <= position < nodes.len() {
            match event_of_node(nodes[position], list_at(lists, position)) {
                Some(event) => seq![event],
                None => Seq::empty(),
            }
        } else {
            Seq::empty()
        }
    } else if edge.1 {
        seq![EventView::EndElement]
    } else {
        Seq::empty()
    }
}

/// The events that a walk over a tree stands for: edge after edge, the n-th
/// start with the n-th node and the n-th list of attributes.
pub open spec fn walk_events(
    edges: Seq<(bool, bool)>,
    nodes: Seq<NodeDataView>,
    lists: Seq<Seq<AttributeView>>,
) -> Seq<EventView>
    decreases edges.len(),
{
    if edges.len() == 0 {
        Seq::empty()
    } else {
        walk_events(edges.drop_last(), nodes, lists) + edge_events(
            edges.last(),
            starts(edges.drop_last()) as int,
            nodes,
            lists,
        )
    }
}

/// The events that a walk over a tree stands for.
pub fn assemble_events(
    edges: &Vec<(bool, bool)>,
    nodes: &Vec<NodeData>,
    lists: &Vec<Vec<Attribute>>,
) -> (events: Vec<Event>)
    ensures
        event_views(events@) == walk_events(edges@, data_views(nodes@), lists_views(lists@)),
{
    let mut events: Vec<Event> = Vec::new();
    let mut position: usize = 0;
    let mut i: usize = 0;
    let none: Vec<Attribute> = Vec::new();
    let ghost datas = data_views(nodes@);
    let ghost given = lists_views(lists@);
    assert(edges@.take(0) == Seq::<(bool, bool)>::empty());
    assert(event_views(events@) == Seq::<EventView>::empty());
    assert(attribute_views(none@) == Seq::<AttributeView>::empty());
    while i < edges.len()
        invariant
            i <= edges.len(),
            datas == data_views(nodes@),
            given == lists_views(lists@),
            attribute_views(none@) == Seq::<AttributeView>::empty(),
            position == starts(edges@.take(i as int)),
            position <= i,
            event_views(events@) == walk_events(edges@.take(i as int), datas, given),
        decreases edges.len() - i,
    {
        let ghost before = events@;
        let ghost added = edge_events(edges@[i as int], position as int, datas, given);
        assert(edges@.take(i + 1).drop_last() == edges@.take(i as int));
        assert(edges@.take(i + 1).last() == edges@[i as int]);
        if edges[i].0 {
            if position < nodes.len() {
                assert(datas[position as int] == nodes@[position as int]@);
                let list: &Vec<Attribute> = if position < lists.len() {
                    assert(given[position as int] == attribute_views(lists@[position as int]@));
                    &lists[position]
                } else {
                    &none
                };
                match node_event(&nodes[position], list) {
                    Some(event) => {
                        events.push(event);
                        assert(event_views(events@) == event_views(before) + seq![event@]);
                    },
                    None => {},
                }
            }
            position = position + 1;
        } else if edges[i].1 {
            events.push(Event::EndElement);
            assert(event_views(events@) == event_views(before) + seq![EventView::EndElement]);
        }
        assert(event_views(events@) == event_views(before) + added);
        i = i + 1;
    }
    assert(edges@.take(edges.len() as int) == edges@);
    events
}

/// The events of the document that the parser gives for the bytes.
pub open spec fn parsed_events(bytes: Seq<u8>) -> Seq<EventView> {
    walk_events(parsed_edges(bytes), parsed_nodes(bytes), parsed_attributes(bytes))
}

/// Parses an HTML document. The bytes are taken as UTF-8, and what is not
/// valid UTF-8 is replaced; markup errors are repaired as HTML parsing
/// prescribes, so the parser gives a tree for every input of at most
/// [`MAX_INPUT`] bytes. That tree comes as a stream of events, and the
/// document is what the stream describes: every node of it is reached from
/// the root, and the nodes are numbered in document order.
pub fn parse_html(bytes: &[u8]) -> (r: Result<Document, ParseError>)
    ensures
        r is Ok <==> bytes@.len() <= MAX_INPUT && outcome(parsed_events(bytes@), 0) is Ok,
        r == Err::<Document, ParseError>(ParseError::TooLarge) <==> bytes@.len() > MAX_INPUT,
        r matches Err(ParseError::Inconsistent(e)) ==> outcome(parsed_events(bytes@), 0) == Err::<
            (),
            BuildError,
        >(e),
        r matches Ok(doc) ==> {
            &&& doc.wf()
            &&& node_events(&doc, 0) == parsed_events(bytes@)
            &&& doc.subtree(0) == index_range(0, doc.len() as int)
        },
{
    if bytes.len() > MAX_INPUT {
        return Err(ParseError::TooLarge);
    }
    let tree = parse_tree(bytes);
    let edges = read_edges(&tree);
    let nodes = read_nodes(&tree);
    let lists = read_attributes(&tree);
    let events = assemble_events(&edges, &nodes, &lists);
    match from_events(&events) {
        Ok(doc) => Ok(doc),
        Err(e) => Err(ParseError::Inconsistent(e)),
    }
}

/// The content of node `id` as the engine holds it: the node with what is
/// below it, the attributes of an element as the engine keeps them; for the
/// root the nodes at the top level.
pub open spec fn engine_node(doc: &Document, id: int) -> Seq<Span>
    decreases doc.len() - id, doc.children(id).len() + 1,
{
    if 0 <= id < doc.len() {
        match doc.data(id) {
            NodeData::Document => engine_children(doc, id, 0),
            NodeData::Doctype(name) => seq![Span::Doctype(name@)],
            NodeData::Element { namespace, tag, attributes } => seq![
                Span::Element {
                    namespace: namespace@,
                    name: tag@,
                    attributes: kept_attributes(attribute_views(attributes@)),
                    children: engine_children(doc, id, 0),
                },
            ],
            NodeData::Text(text) => seq![Span::Text(text@)],
            NodeData::Comment(text) => seq![Span::Comment(text@)],
            NodeData::ProcessingInstruction { target, data } => seq![
                Span::ProcessingInstruction { target: target@, data: data@ },
            ],
        }
    } else {
        Seq::empty()
    }
}

/// The content of the children of `id` from position `k` on, as the engine
/// holds it.
pub open spec fn engine_children(doc: &Document, id: int, k: int) -> Seq<Span>
    decreases doc.len() - id, doc.children(id).len() - k,
{
    if 0 <= id < doc.len() && 0 <= k < doc.children(id).len() {
        let c = doc.children(id)[k] as int;
        if id < c < doc.len() {
            engine_node(doc, c) + engine_children(doc, id, k + 1)
        } else {
            engine_children(doc, id, k + 1)
        }
    } else {
        Seq::empty()
    }
}

/// The number of nodes of a piece of content.
pub open spec fn span_count(span: Span) -> nat
    decreases span,
{
    match span {
        Span::Element { name, attributes, children, .. } => 1 + spans_count(children),
        _ => 1,
    }
}

/// The number of nodes of a content.
pub open spec fn spans_count(spans: Seq<Span>) -> nat
    decreases spans,
{
    if spans.len() == 0 {
        0
    } else {
        spans_count(spans.drop_last()) + span_count(spans.last())
    }
}

/// The nodes of two contents, one after the other, are those of both.
pub proof fn lemma_spans_count_concat(first: Seq<Span>, rest: Seq<Span>)
    ensures
        spans_count(first + rest) == spans_count(first) + spans_count(rest),
    decreases rest.len(),
{
    if rest.len() == 0 {
        assert(first + rest == first);
    } else {
        assert((first + rest).drop_last() == first + rest.drop_last());
        assert((first + rest).last() == rest.last());
        lemma_spans_count_concat(first, rest.drop_last());
    }
}

/// The engine holds one node for each node that is reached from the root:
/// below a node that is not the root it holds as many nodes as the document
/// order of that node lists, the node included.
pub proof fn lemma_engine_node_count(doc: &Document, id: int)
    requires
        doc.wf(),
        0 < id < doc.len(),
    ensures
        spans_count(engine_node(doc, id)) == doc.subtree(id).len(),
    decreases doc.len() - id, doc.children(id).len() + 1,
{
    let content = engine_node(doc, id);
    assert(!(doc.data(id) is Document));
    assert(content.len() == 1);
    assert(content.drop_last() == Seq::<Span>::empty());
    assert(spans_count(content.drop_last()) == 0);
    assert(content.last() == content[0]);
    assert(spans_count(content) == span_count(content[0]));
    match doc.data(id) {
        NodeData::Element { tag, attributes, .. } => {
            lemma_engine_children_count(doc, id, 0);
        },
        _ => {
            assert(doc.children(id).len() == 0);
            assert(doc.order_from(id, 0) == Seq::<usize>::empty());
        },
    }
}

/// The engine holds as many nodes below the children of a node as their
/// document order lists.
pub proof fn lemma_engine_children_count(doc: &Document, id: int, k: int)
    requires
        doc.wf(),
        0 <= id < doc.len(),
        0 <= k,
    ensures
        spans_count(engine_children(doc, id, k)) == doc.order_from(id, k).len(),
    decreases doc.len() - id, doc.children(id).len() - k,
{
    if k < doc.children(id).len() {
        let c = doc.children(id)[k] as int;
        assert(id < c < doc.len());
        lemma_engine_node_count(doc, c);
        lemma_engine_children_count(doc, id, k + 1);
        lemma_spans_count_concat(engine_node(doc, c), engine_children(doc, id, k + 1));
    }
}

/// The engine answers for the nodes of the document order, one for one: the
/// content that it is given holds one node for each node that is reached
/// from the root, the root itself not counted.
pub proof fn lemma_engine_aligned(doc: &Document)
    requires
        doc.wf(),
    ensures
        spans_count(engine_node(doc, 0)) + 1 == doc.subtree(0).len(),
{
    lemma_engine_children_count(doc, 0, 0);
}

/// Growing a tree in two steps is growing it by both at once.
proof fn lemma_grown_twice(document: bool, content: Seq<Span>, a: Seq<Span>, b: Seq<Span>)
    requires
        document || (content.len() == 1 && content[0] is Element),
    ensures
        grown(document, grown(document, content, a), b) == grown(document, content, a + b),
{
    if document {
        assert((content + a) + b == content + (a + b));
    } else {
        match content[0] {
            Span::Element { name, attributes, children, .. } => {
                assert((children + a) + b == children + (a + b));
            },
            _ => {},
        }
    }
}

/// Builds the children of node `id` below the root of `tree`.
fn build_children(doc: &Document, id: usize, tree: &mut NodeRef)
    requires
        doc.wf(),
        id < doc.len(),
        can_hold(*old(tree)),
    ensures
        holds_document(*final(tree)) == holds_document(*old(tree)),
        can_hold(*final(tree)),
        tree_content(*final(tree)) == grown(
            holds_document(*old(tree)),
            tree_content(*old(tree)),
            engine_children(doc, id as int, 0),
        ),
    decreases doc.len() - id, 0nat,
{
    let ghost start = tree_content(*tree);
    let ghost document = holds_document(*tree);
    let children: Vec<usize> = doc.children_of(id);
    let mut k: usize = 0;
    proof {
        lemma_grown_twice(document, start, Seq::empty(), engine_children(doc, id as int, 0));
        assert(Seq::<Span>::empty() + engine_children(doc, id as int, 0) == engine_children(
            doc,
            id as int,
            0,
        ));
    }
    while k < children.len()
        invariant
            doc.wf(),
            id < doc.len(),
            children@ == doc.children(id as int),
            k <= children.len(),
            holds_document(*tree) == document,
            document || (start.len() == 1 && start[0] is Element),
            can_hold(*tree),
            exists|done: Seq<Span>|
                tree_content(*tree) == #[trigger] grown(document, start, done) && done
                    + engine_children(doc, id as int, k as int) == engine_children(
                    doc,
                    id as int,
                    0,
                ),
        decreases children.len() - k,
    {
        let c: usize = children[k];
        assert(c == doc.children(id as int)[k as int]);
        let ghost done = choose|done: Seq<Span>|
            tree_content(*tree) == #[trigger] grown(document, start, done) && done
                + engine_children(doc, id as int, k as int) == engine_children(doc, id as int, 0);
        let child: NodeRef = build_node(doc, c);
        append_tree(tree, child);
        proof {
            let here = engine_node(doc, c as int);
            let rest = engine_children(doc, id as int, k + 1);
            assert(engine_children(doc, id as int, k as int) == here + rest);
            lemma_grown_twice(document, start, done, here);
            assert((done + here) + rest == done + (here + rest));
            assert(tree_content(*tree) == grown(document, start, done + here));
        }
        k = k + 1;
    }
    proof {
        let done = choose|done: Seq<Span>|
            tree_content(*tree) == #[trigger] grown(document, start, done) && done
                + engine_children(doc, id as int, k as int) == engine_children(doc, id as int, 0);
        assert(engine_children(doc, id as int, k as int) == Seq::<Span>::empty());
        assert(done + Seq::<Span>::empty() == done);
    }
}

/// Builds node `id`, which is not the root, with what is below it, as a tree
/// of the engine.
fn build_node(doc: &Document, id: usize) -> (tree: NodeRef)
    requires
        doc.wf(),
        0 < id < doc.len(),
    ensures
        !holds_document(tree),
        tree_content(tree) == engine_node(doc, id as int),
    decreases doc.len() - id, 1nat,
{
    match doc.get(id) {
        Some(NodeData::Element { namespace, tag, attributes }) => {
            let mut tree = new_element_node(namespace.as_str(), tag.as_str(), attributes);
            build_children(doc, id, &mut tree);
            assert(Seq::<Span>::empty() + engine_children(doc, id as int, 0) == engine_children(
                doc,
                id as int,
                0,
            ));
            tree
        },
        Some(NodeData::Doctype(name)) => new_doctype_node(name.as_str()),
        Some(NodeData::Text(text)) => new_text_node(text.as_str()),
        Some(NodeData::Comment(text)) => new_comment_node(text.as_str()),
        Some(NodeData::ProcessingInstruction { target, data }) => new_instruction_node(
            target.as_str(),
            data.as_str(),
        ),
        _ => {
            assert(false);
            new_tree()
        },
    }
}

/// The nodes that a sequence of answers picks from `order`: each node that
/// is an element of the document and has the answer `true` at its position,
/// in the order of `order`. A position without an answer counts as `false`.
pub open spec fn picked(doc: &Document, order: Seq<usize>, answers: Seq<bool>) -> Seq<usize>
    decreases order.len(),
{
    if order.len() == 0 {
        Seq::empty()
    } else {
        let before = picked(doc, order.drop_last(), answers);
        let i = order.len() - 1;
        let id = order.last();
        if i < answers.len() && answers[i] && id < doc.len() && doc.data(id as int) is Element {
            before.push(id)
        } else {
            before
        }
    }
}

/// What answers pick are elements of the document, and they stand in the
/// order of `order`.
pub proof fn lemma_picked_in_order(doc: &Document, order: Seq<usize>, answers: Seq<bool>)
    ensures
        is_subsequence(picked(doc, order, answers), order),
        forall|j: int|
            0 <= j < picked(doc, order, answers).len() ==> (#[trigger] picked(
                doc,
                order,
                answers,
            )[j]) < doc.len() && doc.data(picked(doc, order, answers)[j] as int) is Element,
    decreases order.len(),
{
    if order.len() > 0 {
        lemma_picked_in_order(doc, order.drop_last(), answers);
        let before = picked(doc, order.drop_last(), answers);
        let all = picked(doc, order, answers);
        if all != before {
            assert(all == before.push(order.last()));
            assert(all.drop_last() == before);
        }
    }
}

/// The elements of the document that the answers pick, in document order.
/// `answers` holds, for each node that is reached from the root, in document
/// order, whether it is to be picked.
pub fn pick_matches(doc: &Document, answers: &Vec<bool>) -> (ids: Vec<usize>)
    requires
        doc.wf(),
    ensures
        ids@ == picked(doc, doc.subtree(0), answers@),
{
    let order: Vec<usize> = doc.descendants(0);
    let mut ids: Vec<usize> = Vec::new();
    let mut i: usize = 0;
    assert(order@.take(0) == Seq::<usize>::empty());
    while i < order.len()
        invariant
            i <= order.len(),
            ids@ == picked(doc, order@.take(i as int), answers@),
        decreases order.len() - i,
    {
        let id: usize = order[i];
        assert(order@.take(i + 1).drop_last() == order@.take(i as int));
        assert(order@.take(i + 1).last() == id);
        if i < answers.len() && answers[i] {
            match doc.get(id) {
                Some(NodeData::Element { tag, attributes, .. }) => {
                    ids.push(id);
                },
                _ => {},
            }
        }
        i = i + 1;
    }
    assert(order@.take(order.len() as int) == order@);
    ids
}

/// The selection of a selector in a document: the elements that are reached
/// from the root and of which the engine says that they match, in document
/// order.
pub open spec fn selection(doc: &Document, selector: Seq<char>) -> Seq<usize> {
    picked(doc, doc.subtree(0), selector_answers(selector, engine_node(doc, 0)))
}

/// A selection is a sequence of elements that are reached from the root, in
/// document order.
pub proof fn lemma_selection_in_order(doc: &Document, selector: Seq<char>)
    ensures
        is_selection(doc, selection(doc, selector)),
{
    lemma_picked_in_order(doc, doc.subtree(0), selector_answers(selector, engine_node(doc, 0)));
}

/// The elements of the document that match a selector, in document order.
/// Only nodes that are reached from the root are looked at. Fails when the
/// engine does not accept the selector.
pub fn select(doc: &Document, selector: &str) -> (r: Result<Vec<usize>, InvalidSelector>)
    requires
        doc.wf(),
    ensures
        r is Ok == selector_compiles(selector@),
        r matches Ok(ids) ==> ids@ == selection(doc, selector@),
{
    let mut tree = new_tree();
    build_children(doc, 0, &mut tree);
    assert(Seq::<Span>::empty() + engine_children(doc, 0, 0) == engine_children(doc, 0, 0));
    match tree_answers(&tree, selector) {
        Some(answers) => Ok(pick_matches(doc, &answers)),
        None => Err(InvalidSelector),
    }
}

/// A node and its subtree in HTML syntax: every element as its start tag
/// with its attributes, its children and its end tag, a void element
/// without end tag, text escaped unless it stands in an element with raw
/// text content. The empty string when `node` is no node of the document.
pub fn serialize_html(doc: &Document, node: usize) -> (r: String)
    requires
        doc.wf(),
    ensures
        r@ == html_node(doc, node as int, top_level()),
        node >= doc.len() ==> r@.len() == 0,
{
    html_text(doc, node)
}

} // verus!
