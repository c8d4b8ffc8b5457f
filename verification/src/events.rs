//! Documents and serialization events: the event stream of a subtree, and
//! the document that an event stream describes.
//!
//! An element gives a start event, the events of its children and an end
//! event; every other node gives one event; the root container gives the
//! events of its children. Reading a stream back gives the same tree.

use vstd::prelude::*;
use crate::dom::{
    attribute_views,
    index_range,
    lemma_order_appended,
    takes_children,
    Attribute,
    Document,
    NodeData,
};
use crate::json::{
    built,
    event_views,
    initial_stack,
    run,
    span_events,
    spans_events,
    step,
    BuildError,
    ElementView,
    Event,
    EventView,
    Span,
};

verus! {

/// The events of node `id`: for an element its start, the events of its
/// children and its end; for a leaf its one event; for the root container
/// the events of its children.
pub open spec fn node_events(doc: &Document, id: int) -> Seq<EventView>
    decreases doc.len() - id, doc.children(id).len() + 1,
{
    if 0 <= id < doc.len() {
        match doc.data(id) {
            NodeData::Document => children_events(doc, id, 0),
            NodeData::Doctype(name) => seq![EventView::Doctype(name@)],
            NodeData::Element { namespace, tag, attributes } => seq![
                EventView::StartElement {
                    namespace: namespace@,
                    name: tag@,
                    attributes: attribute_views(attributes@),
                },
            ] + children_events(doc, id, 0) + seq![EventView::EndElement],
            NodeData::Text(text) => seq![EventView::Text(text@)],
            NodeData::Comment(text) => seq![EventView::Comment(text@)],
            NodeData::ProcessingInstruction { target, data } => seq![
                EventView::ProcessingInstruction { target: target@, data: data@ },
            ],
        }
    } else {
        Seq::empty()
    }
}

/// The events of the children of `id` from position `k` on.
pub open spec fn children_events(doc: &Document, id: int, k: int) -> Seq<EventView>
    decreases doc.len() - id, doc.children(id).len() - k,
{
    if 0 <= id < doc.len() && 0 <= k < doc.children(id).len() {
        let c = doc.children(id)[k] as int;
        if id < c < doc.len() {
            node_events(doc, c) + children_events(doc, id, k + 1)
        } else {
            children_events(doc, id, k + 1)
        }
    } else {
        Seq::empty()
    }
}

/// The well-nested pieces that node `id` amounts to: one piece for an
/// element or a leaf, and the pieces of its children for the root container.
pub open spec fn node_spans(doc: &Document, id: int) -> Seq<Span>
    decreases doc.len() - id, doc.children(id).len() + 1,
{
    if 0 <= id < doc.len() {
        match doc.data(id) {
            NodeData::Document => children_spans(doc, id, 0),
            NodeData::Doctype(name) => seq![Span::Doctype(name@)],
            NodeData::Element { namespace, tag, attributes } => seq![
                Span::Element {
                    namespace: namespace@,
                    name: tag@,
                    attributes: attribute_views(attributes@),
                    children: children_spans(doc, id, 0),
                },
            ],
            NodeData::Text(text) => seq![Span::Text(text@)],
            NodeData::Comment(text) => seq![Span::Comment(text@)],
            NodeData::ProcessingInstruction { target, data } => seq![
                Span::ProcessingInstruction { target: target@, data: data@ },
            ],
        }
    } else {
        Seq::empty()
    }
}

/// The well-nested pieces of the children of `id` from position `k` on.
pub open spec fn children_spans(doc: &Document, id: int, k: int) -> Seq<Span>
    decreases doc.len() - id, doc.children(id).len() - k,
{
    if 0 <= id < doc.len() && 0 <= k < doc.children(id).len() {
        let c = doc.children(id)[k] as int;
        if id < c < doc.len() {
            node_spans(doc, c) + children_spans(doc, id, k + 1)
        } else {
            children_spans(doc, id, k + 1)
        }
    } else {
        Seq::empty()
    }
}

/// The events of two runs of pieces, one after the other, are the events of
/// the first run followed by those of the second.
pub proof fn lemma_spans_events_concat(first: Seq<Span>, rest: Seq<Span>)
    ensures
        spans_events(first + rest) == spans_events(first) + spans_events(rest),
    decreases rest.len(),
{
    if rest.len() == 0 {
        assert(first + rest == first);
        assert(spans_events(first) + Seq::<EventView>::empty() == spans_events(first));
    } else {
        assert((first + rest).drop_last() == first + rest.drop_last());
        assert((first + rest).last() == rest.last());
        lemma_spans_events_concat(first, rest.drop_last());
        let a = spans_events(first);
        let b = spans_events(rest.drop_last());
        let c = span_events(rest.last());
        assert((a + b) + c == a + (b + c));
    }
}

/// The events of one piece alone.
pub proof fn lemma_spans_events_one(span: Span)
    ensures
        spans_events(seq![span]) == span_events(span),
{
    let one = seq![span];
    assert(one.drop_last() == Seq::<Span>::empty());
    assert(one.last() == span);
    assert(spans_events(one.drop_last()) == Seq::<EventView>::empty());
    assert(Seq::<EventView>::empty() + span_events(span) == span_events(span));
}

/// The events of a node are well nested: they are the events of the pieces
/// that the node amounts to.
pub proof fn lemma_node_events_nested(doc: &Document, id: int)
    ensures
        node_events(doc, id) == spans_events(node_spans(doc, id)),
    decreases doc.len() - id, doc.children(id).len() + 1,
{
    if 0 <= id < doc.len() {
        match doc.data(id) {
            NodeData::Document => {
                lemma_children_events_nested(doc, id, 0);
            },
            NodeData::Element { tag, attributes, .. } => {
                lemma_children_events_nested(doc, id, 0);
                lemma_spans_events_one(node_spans(doc, id)[0]);
                assert(node_spans(doc, id) == seq![node_spans(doc, id)[0]]);
            },
            _ => {
                lemma_spans_events_one(node_spans(doc, id)[0]);
                assert(node_spans(doc, id) == seq![node_spans(doc, id)[0]]);
            },
        }
    } else {
        assert(spans_events(Seq::<Span>::empty()) == Seq::<EventView>::empty());
    }
}

/// The events of the children of a node are well nested.
pub proof fn lemma_children_events_nested(doc: &Document, id: int, k: int)
    ensures
        children_events(doc, id, k) == spans_events(children_spans(doc, id, k)),
    decreases doc.len() - id, doc.children(id).len() - k,
{
    if 0 <= id < doc.len() && 0 <= k < doc.children(id).len() {
        let c = doc.children(id)[k] as int;
        lemma_children_events_nested(doc, id, k + 1);
        if id < c < doc.len() {
            lemma_node_events_nested(doc, c);
            lemma_spans_events_concat(node_spans(doc, c), children_spans(doc, id, k + 1));
        }
    } else {
        assert(spans_events(Seq::<Span>::empty()) == Seq::<EventView>::empty());
    }
}

/// A copy of a list of attributes.
pub(crate) fn copy_attributes(attributes: &Vec<Attribute>) -> (r: Vec<Attribute>)
    ensures
        attribute_views(r@) == attribute_views(attributes@),
{
    let mut out: Vec<Attribute> = Vec::new();
    let mut i: usize = 0;
    while i < attributes.len()
        invariant
            i <= attributes.len(),
            out@.len() == i,
            forall|j: int| 0 <= j < i ==> (#[trigger] out@[j])@ == attributes@[j]@,
        decreases attributes.len() - i,
    {
        out.push(
            Attribute {
                namespace: attributes[i].namespace.clone(),
                name: attributes[i].name.clone(),
                value: attributes[i].value.clone(),
            },
        );
        i = i + 1;
    }
    assert(attribute_views(out@) =~= attribute_views(attributes@));
    out
}

/// Appends the events of the children of a node.
fn push_children_events(doc: &Document, id: usize, out: &mut Vec<Event>)
    requires
        doc.wf(),
        id < doc.len(),
    ensures
        event_views(final(out)@) == event_views(old(out)@) + children_events(doc, id as int, 0),
    decreases doc.len() - id, 0nat,
{
    let ghost start = event_views(out@);
    let children: Vec<usize> = doc.children_of(id);
    let mut k: usize = 0;
    while k < children.len()
        invariant
            doc.wf(),
            id < doc.len(),
            children@ == doc.children(id as int),
            k <= children.len(),
            event_views(out@) + children_events(doc, id as int, k as int) == start
                + children_events(doc, id as int, 0),
        decreases children.len() - k,
    {
        let c: usize = children[k];
        let ghost before = event_views(out@);
        assert(c == doc.children(id as int)[k as int]);
        push_node_events(doc, c, out);
        proof {
            let here = node_events(doc, c as int);
            let rest = children_events(doc, id as int, k + 1);
            assert(children_events(doc, id as int, k as int) == here + rest);
            assert((before + here) + rest == before + (here + rest));
        }
        k = k + 1;
    }
    assert(children_events(doc, id as int, children.len() as int) == Seq::<EventView>::empty());
    assert(event_views(out@) + Seq::<EventView>::empty() == event_views(out@));
}

/// Appends one event.
fn push_event(out: &mut Vec<Event>, event: Event)
    ensures
        event_views(final(out)@) == event_views(old(out)@) + seq![event@],
{
    out.push(event);
    assert(event_views(out@) =~= event_views(old(out)@) + seq![event@]);
}

/// Appends the events of a node.
fn push_node_events(doc: &Document, id: usize, out: &mut Vec<Event>)
    requires
        doc.wf(),
        id < doc.len(),
    ensures
        event_views(final(out)@) == event_views(old(out)@) + node_events(doc, id as int),
    decreases doc.len() - id, 1nat,
{
    let ghost start = event_views(out@);
    match doc.get(id) {
        Some(NodeData::Doctype(name)) => {
            push_event(out, Event::Doctype(name.clone()));
        },
        Some(NodeData::Element { namespace, tag, attributes }) => {
            let first = Event::StartElement {
                namespace: namespace.clone(),
                name: tag.clone(),
                attributes: copy_attributes(attributes),
            };
            push_event(out, first);
            push_children_events(doc, id, out);
            push_event(out, Event::EndElement);
            proof {
                let a = seq![first@];
                let b = children_events(doc, id as int, 0);
                let c = seq![EventView::EndElement];
                assert(((start + a) + b) + c == start + (a + b + c));
            }
        },
        Some(NodeData::Text(text)) => {
            push_event(out, Event::Text(text.clone()));
        },
        Some(NodeData::Comment(text)) => {
            push_event(out, Event::Comment(text.clone()));
        },
        Some(NodeData::ProcessingInstruction { target, data }) => {
            push_event(
                out,
                Event::ProcessingInstruction { target: target.clone(), data: data.clone() },
            );
        },
        _ => {
            push_children_events(doc, id, out);
        },
    }
}

/// The serialization events of a node and its subtree, in document order;
/// none when `node` is no node of the document.
pub fn subtree_events(doc: &Document, node: usize) -> (events: Vec<Event>)
    requires
        doc.wf(),
    ensures
        event_views(events@) == node_events(doc, node as int),
{
    let mut out: Vec<Event> = Vec::new();
    assert(event_views(out@) =~= Seq::<EventView>::empty());
    if node < doc.node_count() {
        push_node_events(doc, node, &mut out);
        assert(Seq::<EventView>::empty() + node_events(doc, node as int) == node_events(
            doc,
            node as int,
        ));
    }
    out
}

/// How a stream ends that ends with `depth` elements open.
pub open spec fn ending(depth: nat) -> Result<(), BuildError> {
    if depth == 0 {
        Ok(())
    } else {
        Err(BuildError::UnclosedElement)
    }
}

/// How the reading of a stream ends that starts with `depth` elements open:
/// well when every element that is started ends and nothing ends that was
/// not started, and otherwise with the first thing that is wrong.
pub open spec fn outcome(events: Seq<EventView>, depth: nat) -> Result<(), BuildError>
    decreases events.len(),
{
    if events.len() == 0 {
        ending(depth)
    } else {
        match events[0] {
            EventView::StartElement { name, attributes, .. } => outcome(events.skip(1), depth + 1),
            EventView::EndElement => if depth == 0 {
                Err(BuildError::NoOpenElement)
            } else {
                outcome(events.skip(1), (depth - 1) as nat)
            },
            _ => outcome(events.skip(1), depth),
        }
    }
}

/// The events of a node depend on the nodes from it onwards only: two
/// documents that agree on them give the node the same events.
pub proof fn lemma_events_frame(a: &Document, b: &Document, x: int)
    requires
        a.wf(),
        0 <= x < a.len(),
        b.len() >= a.len(),
        forall|i: int| x <= i < a.len() ==> #[trigger] b.node(i) == a.node(i),
    ensures
        node_events(b, x) == node_events(a, x),
    decreases a.len() - x, a.children(x).len() + 1,
{
    assert(b.node(x) == a.node(x));
    lemma_children_events_frame(a, b, x, 0);
}

/// The events of the children of a node depend on the nodes from it onwards
/// only.
pub proof fn lemma_children_events_frame(a: &Document, b: &Document, x: int, k: int)
    requires
        a.wf(),
        0 <= x < a.len(),
        0 <= k,
        b.len() >= a.len(),
        forall|i: int| x <= i < a.len() ==> #[trigger] b.node(i) == a.node(i),
    ensures
        children_events(b, x, k) == children_events(a, x, k),
    decreases a.len() - x, a.children(x).len() - k,
{
    assert(b.node(x) == a.node(x));
    if k < a.children(x).len() {
        let c = a.children(x)[k] as int;
        assert(x < c < a.len());
        lemma_events_frame(a, b, c);
        lemma_children_events_frame(a, b, x, k + 1);
    }
}

/// A new last child adds its events after those of the children before it.
proof fn lemma_events_appended(a: &Document, b: &Document, p: int, k: int)
    requires
        a.wf(),
        b.wf(),
        0 <= p < a.len(),
        b.len() >= a.len(),
        0 <= k <= a.children(p).len(),
        b.children(p).len() == a.children(p).len() + 1,
        b.children(p).take(a.children(p).len() as int) == a.children(p),
        forall|i: int| p < i < a.len() ==> #[trigger] b.node(i) == a.node(i),
    ensures
        children_events(b, p, k) == children_events(a, p, k) + node_events(
            b,
            b.children(p).last() as int,
        ),
    decreases a.children(p).len() - k,
{
    let n = a.children(p).len() as int;
    let last = b.children(p).last() as int;
    assert(b.children(p)[n] == last);
    if k == n {
        assert(children_events(a, p, k) == Seq::<EventView>::empty());
        assert(children_events(b, p, k + 1) == Seq::<EventView>::empty());
        assert(node_events(b, last) + Seq::<EventView>::empty() == node_events(b, last));
        assert(Seq::<EventView>::empty() + node_events(b, last) == node_events(b, last));
    } else {
        let c = a.children(p)[k] as int;
        assert(b.children(p).take(n)[k] == b.children(p)[k]);
        assert(b.children(p)[k] == c);
        assert(p < c < a.len());
        lemma_events_frame(a, b, c);
        lemma_events_appended(a, b, p, k + 1);
        let x = node_events(a, c);
        let y = children_events(a, p, k + 1);
        let z = node_events(b, last);
        assert(x + (y + z) == (x + y) + z);
    }
}

/// Reads events from position `pos` on into new children of `parent`, up to
/// the end of element that closes `parent` or to the end of the stream, and
/// returns the position at which it stopped. Fails when the stream ends
/// inside one of the new children. The new nodes are numbered in document
/// order.
fn fill(doc: &mut Document, parent: usize, events: &Vec<Event>, pos: usize) -> (r: Result<
    usize,
    BuildError,
>)
    requires
        old(doc).wf(),
        parent < old(doc).len(),
        takes_children(old(doc).data(parent as int)),
        pos <= events.len(),
    ensures
        final(doc).wf(),
        final(doc).len() >= old(doc).len(),
        forall|i: int|
            0 <= i < old(doc).len() && i != parent ==> #[trigger] final(doc).node(i) == old(
                doc,
            ).node(i),
        final(doc).data(parent as int) == old(doc).data(parent as int),
        final(doc).parent(parent as int) == old(doc).parent(parent as int),
        final(doc).children(parent as int).len() >= old(doc).children(parent as int).len(),
        final(doc).children(parent as int).take(old(doc).children(parent as int).len() as int)
            == old(doc).children(parent as int),
        final(doc).order_from(parent as int, old(doc).children(parent as int).len() as int)
            == index_range(old(doc).len() as int, final(doc).len() as int),
        match r {
            Ok(end) => {
                &&& pos <= end <= events.len()
                &&& end < events.len() ==> events@[end as int]@ is EndElement
                &&& children_events(
                    final(doc),
                    parent as int,
                    old(doc).children(parent as int).len() as int,
                ) == event_views(events@).subrange(pos as int, end as int)
                &&& forall|d: nat| #[trigger]
                    outcome(event_views(events@).skip(pos as int), d) == outcome(
                        event_views(events@).skip(end as int),
                        d,
                    )
            },
            Err(e) => {
                &&& e == BuildError::UnclosedElement
                &&& forall|d: nat| #[trigger]
                    outcome(event_views(events@).skip(pos as int), d) == Err::<(), BuildError>(e)
            },
        },
    decreases events.len() - pos,
{
    let ghost start = *doc;
    let ghost views = event_views(events@);
    let ghost k0 = start.children(parent as int).len() as int;
    let mut cur: usize = pos;
    proof {
        assert(views.subrange(pos as int, pos as int) == Seq::<EventView>::empty());
        assert(start.children(parent as int).take(k0) == start.children(parent as int));
        lemma_children_events_tail(&start, parent as int);
        assert(start.order_from(parent as int, k0) == index_range(
            start.len() as int,
            start.len() as int,
        ));
    }
    loop
        invariant
            start == *old(doc),
            views == event_views(events@),
            k0 == start.children(parent as int).len(),
            start.wf(),
            doc.wf(),
            doc.len() >= start.len(),
            parent < start.len(),
            takes_children(start.data(parent as int)),
            pos <= cur <= events.len(),
            forall|i: int|
                0 <= i < start.len() && i != parent ==> #[trigger] doc.node(i) == start.node(i),
            doc.data(parent as int) == start.data(parent as int),
            doc.parent(parent as int) == start.parent(parent as int),
            doc.children(parent as int).len() >= k0,
            doc.children(parent as int).take(k0) == start.children(parent as int),
            children_events(doc, parent as int, k0) == views.subrange(pos as int, cur as int),
            doc.order_from(parent as int, k0) == index_range(start.len() as int, doc.len() as int),
            forall|d: nat| #[trigger]
                outcome(views.skip(pos as int), d) == outcome(views.skip(cur as int), d),
        decreases events.len() - cur,
    {
        if cur >= events.len() {
            return Ok(cur);
        }
        let ghost before = *doc;
        let ghost here = views.skip(cur as int);
        proof {
            assert(here[0] == events@[cur as int]@);
            assert(here.skip(1) == views.skip(cur + 1));
            assert(views.subrange(pos as int, cur + 1) == views.subrange(pos as int, cur as int)
                + seq![events@[cur as int]@]);
        }
        let data: NodeData = match &events[cur] {
            Event::EndElement => {
                return Ok(cur);
            },
            Event::StartElement { namespace, name, attributes } => NodeData::Element {
                namespace: namespace.clone(),
                tag: name.clone(),
                attributes: copy_attributes(attributes),
            },
            Event::Text(text) => NodeData::Text(text.clone()),
            Event::Comment(text) => NodeData::Comment(text.clone()),
            Event::Doctype(name) => NodeData::Doctype(name.clone()),
            Event::ProcessingInstruction { target, data } => NodeData::ProcessingInstruction {
                target: target.clone(),
                data: data.clone(),
            },
        };
        let is_element: bool = match &events[cur] {
            Event::StartElement { name, attributes, .. } => true,
            _ => false,
        };
        let ghost given = data;
        proof {
            assert(takes_children(doc.data(parent as int)));
            match events@[cur as int] {
                Event::EndElement => {},
                Event::StartElement { name, attributes, .. } => {
                    assert(given is Element);
                },
                Event::Text(text) => {
                    assert(given == NodeData::Text(text));
                },
                Event::Comment(text) => {
                    assert(given == NodeData::Comment(text));
                },
                Event::Doctype(name) => {
                    assert(given == NodeData::Doctype(name));
                },
                Event::ProcessingInstruction { target, data } => {
                    assert(given == NodeData::ProcessingInstruction { target, data });
                },
            }
            assert(!(given is Document));
            assert(doc.accepts(parent as int, given));
        }
        let id: usize = match doc.append_child(parent, data) {
            Some(id) => id,
            None => {
                assert(false);
                return Err(BuildError::UnclosedElement);
            },
        };
        let ghost added = *doc;
        proof {
            assert(id == before.len());
            assert(added.data(id as int) == given);
            assert(added.children(parent as int).take(k0) == start.children(parent as int));
            assert(added.children(parent as int).take(before.children(parent as int).len() as int)
                == before.children(parent as int));
            assert(added.children(parent as int).last() == id);
        }
        if is_element {
            let filled = fill(doc, id, events, cur + 1);
            proof {
                assert forall|i: int| 0 <= i < before.len() implies #[trigger] doc.node(i)
                    == added.node(i) by {
                    assert(i != id);
                }
                assert forall|i: int| 0 <= i < start.len() && i != parent implies #[trigger] doc.node(
                    i,
                ) == start.node(i) by {
                    assert(added.node(i) == before.node(i));
                    assert(doc.node(i) == added.node(i));
                }
                assert(doc.node(parent as int) == added.node(parent as int));
                assert(doc.children(parent as int) == added.children(parent as int));
                assert forall|i: int| parent < i < before.len() implies #[trigger] doc.node(i)
                    == before.node(i) by {
                    assert(added.node(i) == before.node(i));
                    assert(doc.node(i) == added.node(i));
                }
                lemma_order_appended(&before, doc, parent as int, k0);
                assert(added.children(id as int).len() == 0);
                assert(doc.order_from(parent as int, k0) == index_range(
                    start.len() as int,
                    doc.len() as int,
                )) by {
                    let left = index_range(start.len() as int, before.len() as int);
                    let right = index_range(added.len() as int, doc.len() as int);
                    assert(left + seq![id] + right =~= index_range(
                        start.len() as int,
                        doc.len() as int,
                    ));
                }
            }
            let end: usize = match filled {
                Ok(end) => end,
                Err(e) => {
                    assert forall|d: nat| #[trigger]
                        outcome(views.skip(pos as int), d) == Err::<(), BuildError>(e) by {
                        assert(outcome(views.skip(cur as int), d) == outcome(
                            views.skip(cur + 1),
                            d + 1,
                        ));
                    }
                    return Err(e);
                },
            };
            if end >= events.len() {
                assert forall|d: nat| #[trigger]
                    outcome(views.skip(pos as int), d) == Err::<(), BuildError>(
                        BuildError::UnclosedElement,
                    ) by {
                    assert(outcome(views.skip(cur as int), d) == outcome(
                        views.skip(cur + 1),
                        d + 1,
                    ));
                    assert(views.skip(end as int).len() == 0);
                }
                return Err(BuildError::UnclosedElement);
            }
            proof {
                lemma_events_appended(&before, doc, parent as int, k0);
                lemma_children_events_tail(doc, id as int);
                let inner = views.subrange(cur + 1, end as int);
                assert(node_events(doc, id as int) == seq![events@[cur as int]@] + inner + seq![
                    EventView::EndElement,
                ]);
                assert(views[end as int] == events@[end as int]@);
                assert(views.subrange(pos as int, end + 1) == views.subrange(
                    pos as int,
                    cur as int,
                ) + (seq![events@[cur as int]@] + inner + seq![EventView::EndElement]));
                assert forall|d: nat| #[trigger]
                    outcome(views.skip(pos as int), d) == outcome(views.skip(end + 1), d) by {
                    assert(outcome(views.skip(cur as int), d) == outcome(
                        views.skip(cur + 1),
                        d + 1,
                    ));
                    let tail = views.skip(end as int);
                    assert(tail[0] == views[end as int]);
                    assert(tail.skip(1) == views.skip(end + 1));
                    assert(outcome(tail, d + 1) == outcome(views.skip(end + 1), d));
                }
            }
            cur = end + 1;
        } else {
            proof {
                lemma_events_appended(&before, doc, parent as int, k0);
                lemma_order_appended(&before, doc, parent as int, k0);
                lemma_children_events_tail(doc, id as int);
                assert(doc.children(id as int).len() == 0);
                assert(doc.order_from(id as int, 0) == Seq::<usize>::empty());
                assert(doc.order_from(parent as int, k0) =~= index_range(
                    start.len() as int,
                    doc.len() as int,
                ));
                assert(node_events(doc, id as int) == seq![events@[cur as int]@]);
                assert forall|d: nat| #[trigger]
                    outcome(views.skip(pos as int), d) == outcome(views.skip(cur + 1), d) by {
                    assert(outcome(views.skip(cur as int), d) == outcome(views.skip(cur + 1), d));
                }
            }
            cur = cur + 1;
        }
    }
}

/// The children of a node from the end of their list on give no events.
proof fn lemma_children_events_tail(doc: &Document, id: int)
    ensures
        children_events(doc, id, doc.children(id).len() as int) == Seq::<EventView>::empty(),
{
}

/// The document that an event stream describes: the root container with the
/// top-level nodes of the stream as its children. The stream must be
/// consistent: an end of element without an open element and an element
/// that never ends are reported, whichever comes first.
///
/// The events of the document are the events it was read from, and its
/// nodes are numbered in document order.
pub fn from_events(events: &Vec<Event>) -> (r: Result<Document, BuildError>)
    ensures
        match r {
            Ok(doc) => {
                &&& doc.wf()
                &&& node_events(&doc, 0) == event_views(events@)
                &&& doc.subtree(0) == index_range(0, doc.len() as int)
                &&& outcome(event_views(events@), 0) is Ok
            },
            Err(e) => outcome(event_views(events@), 0) == Err::<(), BuildError>(e),
        },
{
    let mut doc = Document::new();
    let ghost views = event_views(events@);
    assert(views.skip(0) == views);
    match fill(&mut doc, 0, events, 0) {
        Ok(end) => {
            if end < events.len() {
                proof {
                    let tail = views.skip(end as int);
                    assert(tail[0] == events@[end as int]@);
                    assert(outcome(views, 0) == outcome(tail, 0));
                }
                Err(BuildError::NoOpenElement)
            } else {
                proof {
                    assert(views.subrange(0, end as int) == views);
                    assert(views.skip(end as int).len() == 0);
                    assert(outcome(views, 0) == outcome(views.skip(end as int), 0));
                    assert(seq![0usize] + index_range(1, doc.len() as int) =~= index_range(
                        0,
                        doc.len() as int,
                    ));
                }
                Ok(doc)
            }
        },
        Err(e) => Err(e),
    }
}

/// The tree builder and the reading of a stream agree on how a stream ends:
/// from a stack of frames, the builder finds an end without an open element
/// exactly where the reading does, and ends with as many frames open.
pub proof fn lemma_run_outcome(stack: Seq<ElementView>, events: Seq<EventView>)
    requires
        stack.len() >= 1,
    ensures
        match run(stack, events) {
            Some(end) => end.len() >= 1 && outcome(events, (stack.len() - 1) as nat) == ending(
                (end.len() - 1) as nat,
            ),
            None => outcome(events, (stack.len() - 1) as nat) == Err::<(), BuildError>(
                BuildError::NoOpenElement,
            ),
        },
    decreases events.len(),
{
    if events.len() > 0 {
        match step(stack, events[0]) {
            Some(next) => {
                lemma_run_outcome(next, events.skip(1));
            },
            None => {},
        }
    }
}

/// The reading of a stream into a document and the structured tree builder
/// accept the same streams and report the same inconsistency in the others.
pub proof fn lemma_same_streams_accepted(events: Seq<EventView>)
    ensures
        match built(events) {
            Ok(nodes) => outcome(events, 0) is Ok,
            Err(e) => outcome(events, 0) == Err::<(), BuildError>(e),
        },
{
    lemma_run_outcome(initial_stack(), events);
}

} // verus!
