//! Structured export: a subtree of the document as JSON, by way of its
//! serialization events and the structured tree builder.

use vstd::prelude::*;
use crate::dom::Document;
use crate::events::{lemma_node_events_nested, node_events, node_spans, subtree_events};
use crate::json::{
    build,
    built,
    nodes_json,
    rendered_json,
    spans_nodes,
    to_json,
    BuildError,
    Event,
    JsonView,
    NodeView,
};

verus! {

/// The structured tree of a node mirrors the node: the builder never finds
/// the events of a subtree inconsistent, and what it builds from them are
/// the nodes that mirror that subtree.
pub proof fn lemma_subtree_builds(doc: &Document, id: int)
    ensures
        built(node_events(doc, id)) == Ok::<Seq<NodeView>, BuildError>(
            spans_nodes(node_spans(doc, id)),
        ),
{
    lemma_node_events_nested(doc, id);
    crate::json::lemma_well_nested_mirrored(node_spans(doc, id));
}

/// A node and its subtree as compact JSON: an array with one record for the
/// node, or with one record for each of its children where the node is the
/// root container.
pub fn export_json(doc: &Document, node: usize) -> (r: String)
    requires
        doc.wf(),
    ensures
        r@ == rendered_json(
            JsonView::Array(nodes_json(spans_nodes(node_spans(doc, node as int)))),
        ),
{
    let events: Vec<Event> = subtree_events(doc, node);
    proof {
        lemma_subtree_builds(doc, node as int);
    }
    match build(&events) {
        Ok(nodes) => to_json(&nodes),
        Err(_) => {
            assert(false);
            String::new()
        },
    }
}

} // verus!
