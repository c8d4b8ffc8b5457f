use htmlq::dom::{Attribute, Document, NodeData};
use htmlq::events::{from_events, subtree_events};
use htmlq::export::export_json;
use htmlq::html::{assemble_events, node_event, parse_html, ParseError};
use htmlq::json::{build, to_json, BuildError, Event};

fn start(name: &str, attributes: &[(&str, &str)]) -> Event {
    Event::StartElement {
        namespace: htmlq::dom::HTML_NAMESPACE.to_string(),
        name: name.to_string(),
        attributes: attributes
            .iter()
            .map(|(n, v)| Attribute { namespace: String::new(), name: n.to_string(), value: v.to_string() })
            .collect(),
    }
}

fn text(t: &str) -> Event {
    Event::Text(t.to_string())
}

fn show(events: &[Event]) -> Vec<String> {
    events.iter().map(|e| format!("{:?}", e)).collect()
}

fn stream() -> Vec<Event> {
    vec![
        Event::Doctype("html".to_string()),
        start("html", &[("lang", "en")]),
        start("body", &[]),
        text("a"),
        start("p", &[("id", "x"), ("class", "y z")]),
        text("b"),
        Event::Comment("c".to_string()),
        Event::EndElement,
        start("br", &[]),
        Event::EndElement,
        Event::ProcessingInstruction { target: "t".to_string(), data: "d".to_string() },
        Event::EndElement,
        Event::EndElement,
        text("tail"),
    ]
}

#[test]
fn reading_a_stream_gives_its_tree() {
    let doc = from_events(&stream()).unwrap();
    assert_eq!(doc.node_count(), 11);
    assert_eq!(doc.children_of(0), vec![1, 2, 10]);
    assert_eq!(doc.children_of(2), vec![3]);
    assert_eq!(doc.children_of(3), vec![4, 5, 8, 9]);
    assert_eq!(doc.children_of(5), vec![6, 7]);
    assert_eq!(doc.parent_of(7), Some(5));
    assert_eq!(doc.descendants(0), (0..11).collect::<Vec<usize>>());
    assert!(matches!(doc.get(5), Some(NodeData::Element { tag, attributes, .. })
        if tag == "p" && attributes.len() == 2 && attributes[1].value == "y z"));
    assert!(matches!(doc.get(10), Some(NodeData::Text(t)) if t == "tail"));
}

#[test]
fn the_events_of_a_read_document_are_the_stream() {
    let events = stream();
    let doc = from_events(&events).unwrap();
    assert_eq!(show(&subtree_events(&doc, 0)), show(&events));
    let empty = from_events(&Vec::new()).unwrap();
    assert_eq!(empty.node_count(), 1);
    assert!(subtree_events(&empty, 0).is_empty());
}

#[test]
fn inconsistent_streams_are_reported() {
    let unmatched = vec![start("a", &[]), Event::EndElement, Event::EndElement, start("b", &[])];
    assert_eq!(from_events(&unmatched).unwrap_err(), BuildError::NoOpenElement);
    assert_eq!(from_events(&vec![Event::EndElement]).unwrap_err(), BuildError::NoOpenElement);
    let unclosed = vec![start("a", &[]), start("b", &[]), Event::EndElement, text("t")];
    assert_eq!(from_events(&unclosed).unwrap_err(), BuildError::UnclosedElement);
    assert_eq!(from_events(&vec![start("a", &[])]).unwrap_err(), BuildError::UnclosedElement);
}

#[test]
fn both_builders_accept_the_same_streams() {
    let streams: Vec<Vec<Event>> = vec![
        stream(),
        Vec::new(),
        vec![Event::EndElement],
        vec![start("a", &[])],
        vec![start("a", &[]), Event::EndElement, Event::EndElement],
        vec![text("t"), start("a", &[]), text("u")],
        vec![start("a", &[]), start("b", &[]), Event::EndElement, Event::EndElement, text("t")],
    ];
    for events in streams {
        let read = from_events(&events).map(|_| ());
        let built = build(&events).map(|_| ());
        assert_eq!(read, built, "{:?}", events);
    }
}

#[test]
fn export_of_a_read_document_is_the_json_of_the_stream() {
    let events = stream();
    let doc = from_events(&events).unwrap();
    assert_eq!(export_json(&doc, 0), to_json(&build(&events).unwrap()));
}

#[test]
fn nodes_and_their_events() {
    let given = vec![Attribute { namespace: String::new(), name: "id".to_string(), value: "x".to_string() }];
    let element = NodeData::Element { namespace: htmlq::dom::HTML_NAMESPACE.to_string(), tag: "p".to_string(), attributes: Vec::new() };
    assert!(matches!(node_event(&element, &given),
        Some(Event::StartElement { name, attributes, .. }) if name == "p" && attributes.len() == 1));
    assert!(matches!(node_event(&NodeData::Text("t".to_string()), &given), Some(Event::Text(t)) if t == "t"));
    assert!(matches!(node_event(&NodeData::Comment("c".to_string()), &given), Some(Event::Comment(_))));
    assert!(matches!(node_event(&NodeData::Doctype("html".to_string()), &given), Some(Event::Doctype(_))));
    let pi = NodeData::ProcessingInstruction { target: "t".to_string(), data: "d".to_string() };
    assert!(matches!(node_event(&pi, &given), Some(Event::ProcessingInstruction { .. })));
    assert!(node_event(&NodeData::Document, &given).is_none());
}

#[test]
fn a_walk_and_its_events() {
    let element = |tag: &str| NodeData::Element { namespace: htmlq::dom::HTML_NAMESPACE.to_string(), tag: tag.to_string(), attributes: Vec::new() };
    let edges = vec![
        (true, false),
        (true, false),
        (false, false),
        (true, true),
        (true, false),
        (false, false),
        (true, true),
        (false, true),
        (false, true),
        (false, false),
    ];
    let nodes = vec![
        NodeData::Document,
        NodeData::Doctype("html".to_string()),
        element("p"),
        NodeData::Text("t".to_string()),
        element("br"),
    ];
    let lists = vec![
        Vec::new(),
        Vec::new(),
        vec![Attribute { namespace: String::new(), name: "id".to_string(), value: "x".to_string() }],
    ];
    assert_eq!(
        show(&assemble_events(&edges, &nodes, &lists)),
        vec![
            "Doctype(\"html\")",
            "StartElement { namespace: \"http://www.w3.org/1999/xhtml\", name: \"p\", attributes: [Attribute { namespace: \"\", name: \"id\", value: \"x\" }] }",
            "Text(\"t\")",
            "StartElement { namespace: \"http://www.w3.org/1999/xhtml\", name: \"br\", attributes: [] }",
            "EndElement",
            "EndElement",
        ]
    );
    assert!(assemble_events(&Vec::new(), &nodes, &lists).is_empty());
    assert_eq!(show(&assemble_events(&edges, &Vec::new(), &lists)), vec!["EndElement", "EndElement"]);
}

#[test]
fn parsed_documents_are_consistent() {
    for source in ["", "<p>", "</p></div>", "<table><td>x", "<a><b></a></b>", "<svg><g/></svg>"] {
        let doc: Result<Document, ParseError> = parse_html(source.as_bytes());
        let doc = doc.unwrap();
        assert_eq!(doc.descendants(0).len(), doc.node_count(), "{:?}", source);
    }
}
