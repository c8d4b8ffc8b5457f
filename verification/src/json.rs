//! The structured tree builder: turns a stream of serialization events into
//! a tree of records, one per element, for structured export.
//!
//! The builder keeps a stack of open frames. The bottom frame is a sentinel
//! that stands for "no element open yet" and is never closed; the nodes that
//! end up among its children are the top-level nodes of the stream.

use vstd::prelude::*;
use serde_json::Value;
use crate::dom::{Attribute, AttributeView};

verus! {

/// A JSON object, as `serde_json` holds it.
#[verifier::external_type_specification]
#[verifier::external_body]
#[verifier::reject_recursive_types(K)]
#[verifier::reject_recursive_types(V)]
pub struct ExJsonObject<K, V>(serde_json::Map<K, V>);

/// A JSON object with string keys.
pub type JsonObject = serde_json::Map<String, Value>;

/// A JSON value, as `serde_json` holds it.
#[verifier::external_type_specification]
#[verifier::external_body]
pub struct ExJsonValue(Value);

/// A JSON value as contracts see it. A number stands as its JSON text.
pub ghost enum JsonView {
    Null,
    Bool(bool),
    Number(Seq<char>),
    String(Seq<char>),
    Array(Seq<JsonView>),
    Object(Map<Seq<char>, JsonView>),
}

/// What a JSON object holds: its keys, each with the value stored under it.
pub uninterp spec fn object_entries(object: JsonObject) -> Map<Seq<char>, JsonView>;

/// A JSON value as contracts see it.
pub uninterp spec fn json_view(value: Value) -> JsonView;

/// The compact JSON text of a value: the result of `Value::to_string`. The
/// text follows from what the value holds because objects are kept in a map
/// that is ordered by its keys, which is how `serde_json` is built here; an
/// object that kept the order of insertion would not have one text.
pub uninterp spec fn rendered_json(json: JsonView) -> Seq<char>;

/// The views of a list of JSON values, in order.
pub open spec fn value_views(values: Seq<Value>) -> Seq<JsonView> {
    values.map_values(|v: Value| json_view(v))
}

/// The entries of an object that holds nothing.
pub open spec fn no_entries() -> Map<Seq<char>, JsonView> {
    Map::empty()
}

/// The result of `str::to_lowercase` on `s`.
pub uninterp spec fn lowercased(s: Seq<char>) -> Seq<char>;

/// An empty JSON object.
///
/// Calls `serde_json::Map::new`, which makes a map without entries.
#[verifier::external_body]
pub(crate) fn new_object() -> (r: JsonObject)
    ensures
        object_entries(r) == no_entries(),
{
    serde_json::Map::new()
}

/// Stores a value under a key of a JSON object.
///
/// Calls `serde_json::Map::insert`: the key then holds that value, whether
/// or not it held one before, and the other entries stay.
#[verifier::external_body]
pub(crate) fn insert_value(object: &mut JsonObject, key: String, value: Value)
    ensures
        object_entries(*final(object)) == object_entries(*old(object)).insert(
            key@,
            json_view(value),
        ),
{
    object.insert(key, value);
}

/// A copy of a JSON object. Calls `Map::clone`.
#[verifier::external_body]
pub(crate) fn clone_object(object: &JsonObject) -> (r: JsonObject)
    ensures
        object_entries(r) == object_entries(*object),
{
    object.clone()
}

/// A JSON string. Makes a `Value::String`.
#[verifier::external_body]
pub(crate) fn string_value(s: String) -> (v: Value)
    ensures
        json_view(v) == JsonView::String(s@),
{
    Value::String(s)
}

/// A JSON array of the given values, in order. Makes a `Value::Array`.
#[verifier::external_body]
pub(crate) fn array_value(items: Vec<Value>) -> (v: Value)
    ensures
        json_view(v) == JsonView::Array(value_views(items@)),
{
    Value::Array(items)
}

/// A JSON object as a value. Makes a `Value::Object`.
#[verifier::external_body]
pub(crate) fn object_value(object: JsonObject) -> (v: Value)
    ensures
        json_view(v) == JsonView::Object(object_entries(object)),
{
    Value::Object(object)
}

/// The compact JSON text of a value.
///
/// Calls `Value::to_string`, which writes the value without spaces and an
/// object with its keys in ascending order, so that the text follows from
/// what the value holds.
#[verifier::external_body]
pub(crate) fn json_text(value: &Value) -> (r: String)
    ensures
        r@ == rendered_json(json_view(*value)),
{
    value.to_string()
}

/// The lowercase form of a string.
///
/// Calls `str::to_lowercase`.
#[verifier::external_body]
pub(crate) fn lowercase(s: &str) -> (r: String)
    ensures
        r@ == lowercased(s@),
{
    s.to_lowercase()
}

/// A completed node of the structured tree.
#[derive(Debug)]
pub enum Node {
    Element(Element),
    Text(String),
    Comment(String),
    Doctype(String),
    ProcessingInstruction { target: String, data: String },
}

/// The record of one element: its tag, its attributes and its children in
/// document order. While the element is open it is a frame of the builder.
#[derive(Debug)]
pub struct Element {
    pub tag_name: String,
    pub attributes: JsonObject,
    pub children: Vec<Node>,
}

/// The ways in which an event stream can be inconsistent.
#[derive(Debug, Clone, Copy, PartialEq, Eq)]
pub enum BuildError {
    /// An element ended that no event had started.
    NoOpenElement,
    /// The stream ended while an element was still open.
    UnclosedElement,
}

/// One serialization event.
#[derive(Debug)]
pub enum Event {
    StartElement { namespace: String, name: String, attributes: Vec<Attribute> },
    EndElement,
    Text(String),
    Comment(String),
    Doctype(String),
    ProcessingInstruction { target: String, data: String },
}

/// A node of the structured tree as contracts see it.
pub ghost enum NodeView {
    Element(ElementView),
    Text(Seq<char>),
    Comment(Seq<char>),
    Doctype(Seq<char>),
    ProcessingInstruction { target: Seq<char>, data: Seq<char> },
}

/// An element record as contracts see it.
pub ghost struct ElementView {
    pub tag: Seq<char>,
    pub attributes: Map<Seq<char>, JsonView>,
    pub children: Seq<NodeView>,
}

/// An event as contracts see it.
pub ghost enum EventView {
    StartElement { namespace: Seq<char>, name: Seq<char>, attributes: Seq<AttributeView> },
    EndElement,
    Text(Seq<char>),
    Comment(Seq<char>),
    Doctype(Seq<char>),
    ProcessingInstruction { target: Seq<char>, data: Seq<char> },
}

impl View for Event {
    type V = EventView;

    open spec fn view(&self) -> EventView {
        match *self {
            Event::StartElement { namespace, name, attributes } => EventView::StartElement {
                namespace: namespace@,
                name: name@,
                attributes: crate::dom::attribute_views(attributes@),
            },
            Event::EndElement => EventView::EndElement,
            Event::Text(text) => EventView::Text(text@),
            Event::Comment(text) => EventView::Comment(text@),
            Event::Doctype(name) => EventView::Doctype(name@),
            Event::ProcessingInstruction { target, data } => EventView::ProcessingInstruction {
                target: target@,
                data: data@,
            },
        }
    }
}

/// The views of a list of events, in order.
pub open spec fn event_views(events: Seq<Event>) -> Seq<EventView> {
    events.map_values(|e: Event| e@)
}

impl Node {
    /// The node as contracts see it.
    pub open spec fn view(&self) -> NodeView
        decreases self,
    {
        match *self {
            Node::Element(element) => NodeView::Element(element.view()),
            Node::Text(text) => NodeView::Text(text@),
            Node::Comment(text) => NodeView::Comment(text@),
            Node::Doctype(name) => NodeView::Doctype(name@),
            Node::ProcessingInstruction { target, data } => NodeView::ProcessingInstruction {
                target: target@,
                data: data@,
            },
        }
    }
}

/// The views of a list of nodes, in order.
pub open spec fn node_views(nodes: Seq<Node>) -> Seq<NodeView>
    decreases nodes,
{
    if nodes.len() == 0 {
        Seq::empty()
    } else {
        node_views(nodes.drop_last()).push(nodes.last().view())
    }
}

impl Element {
    /// The record as contracts see it.
    pub open spec fn view(&self) -> ElementView
        decreases self,
    {
        ElementView {
            tag: self.tag_name@,
            attributes: object_entries(self.attributes),
            children: node_views(self.children@),
        }
    }
}

/// The views of a stack of frames, bottom first.
pub open spec fn frame_views(frames: Seq<Element>) -> Seq<ElementView> {
    frames.map_values(|f: Element| f.view())
}

/// The attribute mapping of a start event: each name in lower case with its
/// value as it was given. Of two attributes with one name the later stands.
pub open spec fn attribute_entries(attributes: Seq<AttributeView>) -> Map<Seq<char>, JsonView>
    decreases attributes.len(),
{
    if attributes.len() == 0 {
        Map::empty()
    } else {
        attribute_entries(attributes.drop_last()).insert(
            lowercased(attributes.last().name),
            JsonView::String(attributes.last().value),
        )
    }
}

/// The frame that a start event opens.
pub open spec fn opened(name: Seq<char>, attributes: Seq<AttributeView>) -> ElementView {
    ElementView {
        tag: lowercased(name),
        attributes: attribute_entries(attributes),
        children: Seq::empty(),
    }
}

/// A stack with `node` added as the last child of its top frame.
pub open spec fn with_child(stack: Seq<ElementView>, node: NodeView) -> Seq<ElementView>
    recommends
        stack.len() >= 1,
{
    let top = stack.last();
    stack.drop_last().push(
        ElementView { tag: top.tag, attributes: top.attributes, children: top.children.push(node) },
    )
}

/// The stack after one event, or `None` where the event is an end of element
/// and no element is open. A start pushes a frame; an end takes the top frame
/// off and makes it the last child of the frame beneath; every other event
/// adds a leaf to the top frame.
pub open spec fn step(stack: Seq<ElementView>, event: EventView) -> Option<Seq<ElementView>>
    recommends
        stack.len() >= 1,
{
    match event {
        EventView::StartElement { name, attributes, .. } => Some(stack.push(opened(name, attributes))),
        EventView::EndElement => if stack.len() >= 2 {
            Some(with_child(stack.drop_last(), NodeView::Element(stack.last())))
        } else {
            None
        },
        EventView::Text(text) => Some(with_child(stack, NodeView::Text(text))),
        EventView::Comment(text) => Some(with_child(stack, NodeView::Comment(text))),
        EventView::Doctype(name) => Some(with_child(stack, NodeView::Doctype(name))),
        EventView::ProcessingInstruction { target, data } => Some(
            with_child(stack, NodeView::ProcessingInstruction { target, data }),
        ),
    }
}

/// The stack after a sequence of events, or `None` where one of them is an
/// end of element without an open element.
pub open spec fn run(stack: Seq<ElementView>, events: Seq<EventView>) -> Option<Seq<ElementView>>
    decreases events.len(),
{
    if events.len() == 0 {
        Some(stack)
    } else {
        match step(stack, events[0]) {
            Some(next) => run(next, events.skip(1)),
            None => None,
        }
    }
}

/// The stack of a builder that has seen no event: the sentinel alone.
pub open spec fn initial_stack() -> Seq<ElementView> {
    seq![ElementView { tag: Seq::empty(), attributes: Map::empty(), children: Seq::empty() }]
}

/// The builder.
#[derive(Debug)]
pub struct Json {
    stack: Vec<Element>,
}

proof fn lemma_node_views_push(nodes: Seq<Node>, node: Node)
    ensures
        node_views(nodes.push(node)) == node_views(nodes).push(node.view()),
{
    assert(nodes.push(node).drop_last() == nodes);
}

impl Json {
    /// The stack of frames as contracts see it, bottom first.
    pub closed spec fn view(&self) -> Seq<ElementView> {
        frame_views(self.stack@)
    }

    /// The invariant of the builder: the sentinel is on the stack.
    pub open spec fn wf(&self) -> bool {
        self@.len() >= 1
    }

    /// A builder that has seen no event.
    pub fn new() -> (json: Json)
        ensures
            json.wf(),
            json@ == initial_stack(),
    {
        let mut stack: Vec<Element> = Vec::new();
        let root = Element {
            tag_name: String::new(),
            attributes: new_object(),
            children: Vec::new(),
        };
        assert(node_views(root.children@) == Seq::<NodeView>::empty());
        stack.push(root);
        assert(frame_views(stack@) =~= initial_stack());
        Json { stack }
    }

    /// The number of frames on the stack, the sentinel included.
    pub fn depth(&self) -> (n: usize)
        ensures
            n == self@.len(),
    {
        self.stack.len()
    }

    /// The structured rendering of what was built: the compact JSON of the
    /// top-level nodes, each element as a record with its tag, its
    /// attributes and its children in order. Fails while an element is open,
    /// and renders nothing of a tree that is not complete.
    pub fn print(&self) -> (r: Result<String, BuildError>)
        requires
            self.wf(),
        ensures
            match r {
                Ok(text) => self@.len() == 1 && text@ == rendered_json(
                    JsonView::Array(nodes_json(self@[0].children)),
                ),
                Err(e) => self@.len() > 1 && e == BuildError::UnclosedElement,
            },
    {
        if self.stack.len() != 1 {
            return Err(BuildError::UnclosedElement);
        }
        Ok(to_json(&self.stack[0].children))
    }

    /// Pushes a frame. This is what a start of element does once the names
    /// are in lower case.
    pub fn push_frame(&mut self, tag_name: String, attributes: JsonObject)
        requires
            old(self).wf(),
        ensures
            final(self).wf(),
            final(self)@ == old(self)@.push(
                ElementView {
                    tag: tag_name@,
                    attributes: object_entries(attributes),
                    children: Seq::empty(),
                },
            ),
    {
        let frame = Element { tag_name, attributes, children: Vec::new() };
        assert(node_views(frame.children@) == Seq::<NodeView>::empty());
        self.stack.push(frame);
        assert(frame_views(self.stack@) =~= frame_views(old(self).stack@).push(frame.view()));
    }

    /// A start of element: pushes a frame with the tag and the attribute
    /// names in lower case, the values as they are, and no children.
    pub fn start_elem(&mut self, name: &str, attributes: &Vec<Attribute>)
        requires
            old(self).wf(),
        ensures
            final(self).wf(),
            final(self)@ == old(self)@.push(
                opened(name@, crate::dom::attribute_views(attributes@)),
            ),
    {
        let tag_name: String = lowercase(name);
        let mut object = new_object();
        let ghost views = crate::dom::attribute_views(attributes@);
        let mut i: usize = 0;
        assert(views.take(0) == Seq::<AttributeView>::empty());
        while i < attributes.len()
            invariant
                i <= attributes.len(),
                views == crate::dom::attribute_views(attributes@),
                object_entries(object) == attribute_entries(views.take(i as int)),
            decreases attributes.len() - i,
        {
            assert(views.take(i + 1).drop_last() == views.take(i as int));
            assert(views.take(i + 1).last() == attributes@[i as int]@);
            let key: String = lowercase(attributes[i].name.as_str());
            let value: Value = string_value(attributes[i].value.clone());
            insert_value(&mut object, key, value);
            i = i + 1;
        }
        assert(views.take(attributes.len() as int) == views);
        self.push_frame(tag_name, object);
    }

    /// Adds a completed node as the last child of the top frame.
    fn append(&mut self, node: Node)
        requires
            old(self).wf(),
        ensures
            final(self).wf(),
            final(self)@ == with_child(old(self)@, node.view()),
    {
        let top: usize = self.stack.len() - 1;
        let ghost before = self.stack@;
        self.stack[top].children.push(node);
        proof {
            lemma_node_views_push(before[top as int].children@, node);
            assert(frame_views(self.stack@) =~= with_child(frame_views(before), node.view()));
        }
    }

    /// An end of element: takes the top frame off the stack and makes it the
    /// last child of the frame beneath. Fails, and leaves the builder as it
    /// is, when only the sentinel is on the stack.
    pub fn end_elem(&mut self) -> (r: Result<(), BuildError>)
        requires
            old(self).wf(),
        ensures
            final(self).wf(),
            match step(old(self)@, EventView::EndElement) {
                Some(next) => r is Ok && final(self)@ == next,
                None => r == Err::<(), BuildError>(BuildError::NoOpenElement) && final(self)@
                    == old(self)@,
            },
    {
        if self.stack.len() < 2 {
            return Err(BuildError::NoOpenElement);
        }
        let ghost before = self.stack@;
        let child: Element = match self.stack.pop() {
            Some(frame) => frame,
            None => {
                return Err(BuildError::NoOpenElement);
            },
        };
        assert(frame_views(self.stack@) =~= frame_views(before).drop_last());
        assert(child.view() == frame_views(before).last());
        self.append(Node::Element(child));
        Ok(())
    }

    /// A run of text: a text node becomes the last child of the top frame.
    pub fn write_text(&mut self, text: &str)
        requires
            old(self).wf(),
        ensures
            final(self).wf(),
            Some(final(self)@) == step(old(self)@, EventView::Text(text@)),
    {
        self.append(Node::Text(text.to_owned()));
    }

    /// A comment: a comment node becomes the last child of the top frame.
    pub fn write_comment(&mut self, text: &str)
        requires
            old(self).wf(),
        ensures
            final(self).wf(),
            Some(final(self)@) == step(old(self)@, EventView::Comment(text@)),
    {
        self.append(Node::Comment(text.to_owned()));
    }

    /// A document type: a doctype node becomes the last child of the top
    /// frame.
    pub fn write_doctype(&mut self, name: &str)
        requires
            old(self).wf(),
        ensures
            final(self).wf(),
            Some(final(self)@) == step(old(self)@, EventView::Doctype(name@)),
    {
        self.append(Node::Doctype(name.to_owned()));
    }

    /// A processing instruction: a node for it becomes the last child of the
    /// top frame.
    pub fn write_processing_instruction(&mut self, target: &str, data: &str)
        requires
            old(self).wf(),
        ensures
            final(self).wf(),
            Some(final(self)@) == step(
                old(self)@,
                EventView::ProcessingInstruction { target: target@, data: data@ },
            ),
    {
        self.append(
            Node::ProcessingInstruction { target: target.to_owned(), data: data.to_owned() },
        );
    }

    /// Handles one event.
    pub fn feed(&mut self, event: &Event) -> (r: Result<(), BuildError>)
        requires
            old(self).wf(),
        ensures
            final(self).wf(),
            match step(old(self)@, event@) {
                Some(next) => r is Ok && final(self)@ == next,
                None => r == Err::<(), BuildError>(BuildError::NoOpenElement) && final(self)@
                    == old(self)@,
            },
    {
        match event {
            Event::StartElement { name, attributes, .. } => {
                self.start_elem(name.as_str(), attributes);
                Ok(())
            },
            Event::EndElement => self.end_elem(),
            Event::Text(text) => {
                self.write_text(text.as_str());
                Ok(())
            },
            Event::Comment(text) => {
                self.write_comment(text.as_str());
                Ok(())
            },
            Event::Doctype(name) => {
                self.write_doctype(name.as_str());
                Ok(())
            },
            Event::ProcessingInstruction { target, data } => {
                self.write_processing_instruction(target.as_str(), data.as_str());
                Ok(())
            },
        }
    }

    /// Ends the stream. When every element that was started has ended, gives
    /// the top-level nodes in document order; otherwise fails.
    pub fn finish(self) -> (r: Result<Vec<Node>, BuildError>)
        requires
            self.wf(),
        ensures
            match r {
                Ok(nodes) => self@.len() == 1 && node_views(nodes@) == self@[0].children,
                Err(e) => self@.len() > 1 && e == BuildError::UnclosedElement,
            },
    {
        let mut stack = self.stack;
        if stack.len() != 1 {
            return Err(BuildError::UnclosedElement);
        }
        match stack.pop() {
            Some(root) => Ok(root.children),
            None => Err(BuildError::UnclosedElement),
        }
    }
}

/// What a whole stream builds: the top-level nodes when the stream is
/// consistent, and otherwise what is wrong with it.
pub open spec fn built(events: Seq<EventView>) -> Result<Seq<NodeView>, BuildError> {
    match run(initial_stack(), events) {
        Some(stack) => if stack.len() == 1 {
            Ok(stack[0].children)
        } else {
            Err(BuildError::UnclosedElement)
        },
        None => Err(BuildError::NoOpenElement),
    }
}

/// Builds the tree of a whole event stream.
pub fn build(events: &Vec<Event>) -> (r: Result<Vec<Node>, BuildError>)
    ensures
        match r {
            Ok(nodes) => built(event_views(events@)) == Ok::<Seq<NodeView>, BuildError>(
                node_views(nodes@),
            ),
            Err(e) => built(event_views(events@)) == Err::<Seq<NodeView>, BuildError>(e),
        },
{
    let mut json = Json::new();
    let ghost views = event_views(events@);
    let mut i: usize = 0;
    assert(views.skip(0) == views);
    while i < events.len()
        invariant
            i <= events.len(),
            json.wf(),
            views == event_views(events@),
            run(initial_stack(), views) == run(json@, views.skip(i as int)),
        decreases events.len() - i,
    {
        assert(views.skip(i as int)[0] == events@[i as int]@);
        assert(views.skip(i as int).skip(1) == views.skip(i + 1));
        match json.feed(&events[i]) {
            Ok(()) => {},
            Err(e) => {
                return Err(e);
            },
        }
        i = i + 1;
    }
    assert(views.skip(events.len() as int).len() == 0);
    json.finish()
}

/// A well-nested piece of an event stream: an element with the pieces
/// nested in it, or a leaf.
pub ghost enum Span {
    Element {
        namespace: Seq<char>,
        name: Seq<char>,
        attributes: Seq<AttributeView>,
        children: Seq<Span>,
    },
    Text(Seq<char>),
    Comment(Seq<char>),
    Doctype(Seq<char>),
    ProcessingInstruction { target: Seq<char>, data: Seq<char> },
}

/// The events of one piece: for an element its start, the events of what is
/// nested in it, and its end.
pub open spec fn span_events(span: Span) -> Seq<EventView>
    decreases span,
{
    match span {
        Span::Element { namespace, name, attributes, children } => seq![
            EventView::StartElement { namespace, name, attributes },
        ] + spans_events(children) + seq![EventView::EndElement],
        Span::Text(text) => seq![EventView::Text(text)],
        Span::Comment(text) => seq![EventView::Comment(text)],
        Span::Doctype(name) => seq![EventView::Doctype(name)],
        Span::ProcessingInstruction { target, data } => seq![
            EventView::ProcessingInstruction { target, data },
        ],
    }
}

/// The events of a sequence of pieces, one piece after the other.
pub open spec fn spans_events(spans: Seq<Span>) -> Seq<EventView>
    decreases spans,
{
    if spans.len() == 0 {
        Seq::empty()
    } else {
        spans_events(spans.drop_last()) + span_events(spans.last())
    }
}

/// The node that mirrors one piece: the same nesting and the same order of
/// children, with tag and attribute names in lower case.
pub open spec fn span_node(span: Span) -> NodeView
    decreases span,
{
    match span {
        Span::Element { name, attributes, children, .. } => NodeView::Element(
            ElementView {
                tag: lowercased(name),
                attributes: attribute_entries(attributes),
                children: spans_nodes(children),
            },
        ),
        Span::Text(text) => NodeView::Text(text),
        Span::Comment(text) => NodeView::Comment(text),
        Span::Doctype(name) => NodeView::Doctype(name),
        Span::ProcessingInstruction { target, data } => NodeView::ProcessingInstruction {
            target,
            data,
        },
    }
}

/// The nodes that mirror a sequence of pieces, in the same order.
pub open spec fn spans_nodes(spans: Seq<Span>) -> Seq<NodeView>
    decreases spans,
{
    if spans.len() == 0 {
        Seq::empty()
    } else {
        spans_nodes(spans.drop_last()).push(span_node(spans.last()))
    }
}

/// A stack with `nodes` added, in order, after the children of its top frame.
pub open spec fn with_children(stack: Seq<ElementView>, nodes: Seq<NodeView>) -> Seq<ElementView>
    recommends
        stack.len() >= 1,
{
    let top = stack.last();
    stack.drop_last().push(
        ElementView { tag: top.tag, attributes: top.attributes, children: top.children + nodes },
    )
}

/// Running a stream in two parts is running the first part and then, where
/// that went well, the second.
pub proof fn lemma_run_split(stack: Seq<ElementView>, first: Seq<EventView>, rest: Seq<EventView>)
    ensures
        run(stack, first + rest) == match run(stack, first) {
            Some(next) => run(next, rest),
            None => None,
        },
    decreases first.len(),
{
    if first.len() == 0 {
        assert(first + rest == rest);
    } else {
        assert((first + rest)[0] == first[0]);
        assert((first + rest).skip(1) == first.skip(1) + rest);
        match step(stack, first[0]) {
            Some(next) => {
                lemma_run_split(next, first.skip(1), rest);
            },
            None => {},
        }
    }
}

/// Running a single event is taking one step.
pub proof fn lemma_run_one(stack: Seq<ElementView>, event: EventView)
    ensures
        run(stack, seq![event]) == step(stack, event),
{
    let events = seq![event];
    assert(events[0] == event);
    assert(events.skip(1).len() == 0);
    match step(stack, event) {
        Some(next) => {
            assert(run(next, events.skip(1)) == Some(next));
        },
        None => {},
    }
}

/// The events of one well-nested piece add the node that mirrors it to the
/// top frame, whatever the stack.
pub proof fn lemma_span_builds(stack: Seq<ElementView>, span: Span)
    requires
        stack.len() >= 1,
    ensures
        run(stack, span_events(span)) == Some(with_child(stack, span_node(span))),
    decreases span, 0nat,
{
    let events = span_events(span);
    match span {
        Span::Element { namespace, name, attributes, children } => {
            let start = EventView::StartElement { namespace, name, attributes };
            let inner = spans_events(children);
            let tail = seq![EventView::EndElement];
            let open = stack.push(opened(name, attributes));
            assert(events == seq![start] + (inner + tail));
            assert(events[0] == start);
            assert(events.skip(1) == inner + tail);
            lemma_run_split(open, inner, tail);
            lemma_spans_build(open, children);
            let filled = with_children(open, spans_nodes(children));
            assert(open.len() == stack.len() + 1);
            assert(filled.len() == open.len());
            lemma_run_one(filled, EventView::EndElement);
            assert(filled.drop_last() == stack);
            assert(filled.last().children == spans_nodes(children)) by {
                assert(Seq::<NodeView>::empty() + spans_nodes(children) == spans_nodes(children));
            }
            assert(run(open, inner + tail) == Some(with_child(stack, span_node(span))));
            assert(step(stack, start) == Some(open));
        },
        Span::Text(text) => {
            lemma_run_one(stack, EventView::Text(text));
        },
        Span::Comment(text) => {
            lemma_run_one(stack, EventView::Comment(text));
        },
        Span::Doctype(name) => {
            lemma_run_one(stack, EventView::Doctype(name));
        },
        Span::ProcessingInstruction { target, data } => {
            lemma_run_one(stack, EventView::ProcessingInstruction { target, data });
        },
    }
}

/// The events of a sequence of well-nested pieces add the nodes that mirror
/// them, in order, to the top frame.
pub proof fn lemma_spans_build(stack: Seq<ElementView>, spans: Seq<Span>)
    requires
        stack.len() >= 1,
    ensures
        run(stack, spans_events(spans)) == Some(with_children(stack, spans_nodes(spans))),
    decreases spans, 1nat,
{
    if spans.len() == 0 {
        let top = stack.last();
        assert(top.children + Seq::<NodeView>::empty() == top.children);
        assert(with_children(stack, spans_nodes(spans)) == stack);
    } else {
        let front = spans.drop_last();
        lemma_spans_build(stack, front);
        let mid = with_children(stack, spans_nodes(front));
        lemma_run_split(stack, spans_events(front), span_events(spans.last()));
        lemma_span_builds(mid, spans.last());
        let top = stack.last();
        assert(top.children + spans_nodes(spans) == (top.children + spans_nodes(front)).push(
            span_node(spans.last()),
        ));
        assert(with_child(mid, span_node(spans.last())) == with_children(
            stack,
            spans_nodes(spans),
        ));
    }
}

/// For every well-nested event sequence the builder gives the tree that
/// mirrors it: the nesting of the result is the nesting of the events, and
/// the children of each element stand in the order of their start events.
pub proof fn lemma_well_nested_mirrored(spans: Seq<Span>)
    ensures
        built(spans_events(spans)) == Ok::<Seq<NodeView>, BuildError>(spans_nodes(spans)),
{
    lemma_spans_build(initial_stack(), spans);
    assert(Seq::<NodeView>::empty() + spans_nodes(spans) == spans_nodes(spans));
}

/// An end of element after a well-nested sequence matches no start: the
/// builder reports it, whatever follows.
pub proof fn lemma_unmatched_end_reported(spans: Seq<Span>, rest: Seq<EventView>)
    ensures
        built(spans_events(spans) + seq![EventView::EndElement] + rest) == Err::<
            Seq<NodeView>,
            BuildError,
        >(BuildError::NoOpenElement),
{
    let first = spans_events(spans);
    let tail = seq![EventView::EndElement] + rest;
    assert(first + seq![EventView::EndElement] + rest == first + tail);
    lemma_spans_build(initial_stack(), spans);
    lemma_run_split(initial_stack(), first, tail);
    assert(tail[0] == EventView::EndElement);
}

/// An object with one entry.
pub open spec fn one_entry(key: Seq<char>, value: JsonView) -> JsonView {
    JsonView::Object(no_entries().insert(key, value))
}

/// The JSON value of a node. An element is an object with its tag under
/// `tag`, its attributes as an object under `attributes` and its children as
/// an array under `children`. A leaf is an object with its content under
/// the name of its kind: `text`, `comment` or `doctype`; a processing
/// instruction has `target` and `data`.
pub open spec fn node_json(node: NodeView) -> JsonView
    decreases node,
{
    match node {
        NodeView::Element(element) => JsonView::Object(
            no_entries().insert("tag"@, JsonView::String(element.tag)).insert(
                "attributes"@,
                JsonView::Object(element.attributes),
            ).insert("children"@, JsonView::Array(nodes_json(element.children))),
        ),
        NodeView::Text(text) => one_entry("text"@, JsonView::String(text)),
        NodeView::Comment(text) => one_entry("comment"@, JsonView::String(text)),
        NodeView::Doctype(name) => one_entry("doctype"@, JsonView::String(name)),
        NodeView::ProcessingInstruction { target, data } => JsonView::Object(
            no_entries().insert("target"@, JsonView::String(target)).insert(
                "data"@,
                JsonView::String(data),
            ),
        ),
    }
}

/// The JSON values of a list of nodes, in order.
pub open spec fn nodes_json(nodes: Seq<NodeView>) -> Seq<JsonView>
    decreases nodes,
{
    if nodes.len() == 0 {
        Seq::empty()
    } else {
        nodes_json(nodes.drop_last()).push(node_json(nodes.last()))
    }
}

/// An object that holds one string.
fn leaf_value(key: &str, text: &str) -> (v: Value)
    ensures
        json_view(v) == one_entry(key@, JsonView::String(text@)),
{
    let mut object = new_object();
    insert_value(&mut object, key.to_owned(), string_value(text.to_owned()));
    object_value(object)
}

/// The JSON values of a list of nodes.
fn values_of(nodes: &Vec<Node>) -> (values: Vec<Value>)
    ensures
        value_views(values@) == nodes_json(node_views(nodes@)),
    decreases nodes,
{
    let mut values: Vec<Value> = Vec::new();
    let mut i: usize = 0;
    assert(nodes@.take(0) == Seq::<Node>::empty());
    assert(value_views(values@) =~= Seq::<JsonView>::empty());
    while i < nodes.len()
        invariant
            i <= nodes.len(),
            value_views(values@) == nodes_json(node_views(nodes@.take(i as int))),
        decreases nodes.len() - i,
    {
        let ghost before = values@;
        assert(nodes@.take(i + 1).drop_last() == nodes@.take(i as int));
        assert(nodes@.take(i + 1).last() == nodes@[i as int]);
        let ghost views = node_views(nodes@.take(i as int));
        assert(views.push(nodes@[i as int].view()).drop_last() == views);
        let value: Value = to_value(&nodes[i]);
        values.push(value);
        assert(value_views(values@) =~= value_views(before).push(json_view(value)));
        i = i + 1;
    }
    assert(nodes@.take(nodes.len() as int) == nodes@);
    values
}

/// The JSON value of a node.
pub fn to_value(node: &Node) -> (v: Value)
    ensures
        json_view(v) == node_json(node.view()),
    decreases node,
{
    match node {
        Node::Element(element) => {
            let mut object = new_object();
            insert_value(&mut object, "tag".to_owned(), string_value(element.tag_name.clone()));
            insert_value(
                &mut object,
                "attributes".to_owned(),
                object_value(clone_object(&element.attributes)),
            );
            insert_value(
                &mut object,
                "children".to_owned(),
                array_value(values_of(&element.children)),
            );
            object_value(object)
        },
        Node::Text(text) => leaf_value("text", text.as_str()),
        Node::Comment(text) => leaf_value("comment", text.as_str()),
        Node::Doctype(name) => leaf_value("doctype", name.as_str()),
        Node::ProcessingInstruction { target, data } => {
            let mut object = new_object();
            insert_value(&mut object, "target".to_owned(), string_value(target.clone()));
            insert_value(&mut object, "data".to_owned(), string_value(data.clone()));
            object_value(object)
        },
    }
}

/// The compact JSON text of a list of nodes: an array with the value of
/// each node.
pub fn to_json(nodes: &Vec<Node>) -> (r: String)
    ensures
        r@ == rendered_json(JsonView::Array(nodes_json(node_views(nodes@)))),
{
    let value: Value = array_value(values_of(nodes));
    json_text(&value)
}

} // verus!
