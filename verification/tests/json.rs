use htmlq::dom::Attribute;
use htmlq::json::{build, BuildError, Element, Event, Json, Node};

fn attr(name: &str, value: &str) -> Attribute {
    Attribute { namespace: String::new(), name: name.to_string(), value: value.to_string() }
}

fn start(name: &str) -> Event {
    Event::StartElement { namespace: htmlq::dom::HTML_NAMESPACE.to_string(), name: name.to_string(), attributes: Vec::new() }
}

fn element(node: &Node) -> &Element {
    match node {
        Node::Element(e) => e,
        other => panic!("no element: {:?}", other),
    }
}

/// The nesting of a tree as text: each element as its tag followed by its
/// children in brackets.
fn shape(nodes: &[Node]) -> String {
    let mut out = String::new();
    for node in nodes {
        match node {
            Node::Element(e) => {
                out.push_str(&e.tag_name);
                out.push('[');
                out.push_str(&shape(&e.children));
                out.push(']');
            }
            Node::Text(t) => out.push_str(&format!("'{}'", t)),
            Node::Comment(t) => out.push_str(&format!("<!--{}-->", t)),
            Node::Doctype(n) => out.push_str(&format!("<!{}>", n)),
            Node::ProcessingInstruction { target, data } => {
                out.push_str(&format!("<?{} {}>", target, data))
            }
        }
    }
    out
}

#[test]
fn new_builder_holds_the_sentinel() {
    let json = Json::new();
    assert_eq!(json.depth(), 1);
    assert_eq!(json.print().unwrap(), "[]");
    assert_eq!(shape(&json.finish().unwrap()), "");
}

#[test]
fn print_renders_the_completed_tree() {
    let mut json = Json::new();
    json.write_doctype("html");
    json.start_elem("HTML", &vec![attr("Lang", "en")]);
    assert_eq!(json.print(), Err(BuildError::UnclosedElement));
    json.start_elem("Body", &Vec::new());
    json.write_text("hi");
    assert_eq!(json.print(), Err(BuildError::UnclosedElement));
    json.end_elem().unwrap();
    json.end_elem().unwrap();
    let text = json.print().unwrap();
    assert_eq!(
        text,
        "[{\"doctype\":\"html\"},{\"attributes\":{\"lang\":\"en\"},\"children\":\
         [{\"attributes\":{},\"children\":[{\"text\":\"hi\"}],\"tag\":\"body\"}],\"tag\":\"html\"}]"
    );
    assert_eq!(json.print().unwrap(), text);
    assert_eq!(htmlq::json::to_json(&json.finish().unwrap()), text);
}

#[test]
fn nesting_and_order_mirror_the_events() {
    let events = vec![
        start("a"),
        start("b"),
        Event::EndElement,
        start("c"),
        start("d"),
        Event::EndElement,
        start("e"),
        Event::EndElement,
        Event::EndElement,
        Event::EndElement,
        start("f"),
        Event::EndElement,
    ];
    let nodes = build(&events).unwrap();
    assert_eq!(shape(&nodes), "a[b[]c[d[]e[]]]f[]");
    assert_eq!(nodes.len(), 2);
    assert_eq!(element(&nodes[0]).children.len(), 2);
}

#[test]
fn deep_nesting_keeps_its_depth() {
    let depth = 200;
    let mut events = Vec::new();
    for i in 0..depth {
        events.push(start(&format!("n{}", i)));
    }
    for _ in 0..depth {
        events.push(Event::EndElement);
    }
    let nodes = build(&events).unwrap();
    let mut level = &nodes;
    for i in 0..depth {
        assert_eq!(level.len(), 1);
        let e = element(&level[0]);
        assert_eq!(e.tag_name, format!("n{}", i));
        level = &e.children;
    }
    assert!(level.is_empty());
}

#[test]
fn unmatched_end_is_an_error() {
    assert_eq!(build(&vec![Event::EndElement]).unwrap_err(), BuildError::NoOpenElement);
    let events = vec![start("a"), Event::EndElement, Event::EndElement, start("b")];
    assert_eq!(build(&events).unwrap_err(), BuildError::NoOpenElement);
    let mut json = Json::new();
    json.start_elem("a", &Vec::new());
    assert_eq!(json.end_elem(), Ok(()));
    assert_eq!(json.depth(), 1);
    assert_eq!(json.end_elem(), Err(BuildError::NoOpenElement));
    assert_eq!(json.depth(), 1);
    assert_eq!(shape(&json.finish().unwrap()), "a[]");
}

#[test]
fn unclosed_element_is_an_error() {
    assert_eq!(build(&vec![start("a")]).unwrap_err(), BuildError::UnclosedElement);
    let events = vec![start("a"), start("b"), Event::EndElement];
    assert_eq!(build(&events).unwrap_err(), BuildError::UnclosedElement);
}

#[test]
fn names_are_lowercased_and_values_kept() {
    let mut json = Json::new();
    json.start_elem("DIV", &vec![attr("Class", "Big Box"), attr("ID", "Main")]);
    json.end_elem().unwrap();
    let nodes = json.finish().unwrap();
    let div = element(&nodes[0]);
    assert_eq!(div.tag_name, "div");
    assert_eq!(div.attributes.len(), 2);
    assert_eq!(div.attributes.get("class").and_then(|v| v.as_str()), Some("Big Box"));
    assert_eq!(div.attributes.get("id").and_then(|v| v.as_str()), Some("Main"));
    assert!(div.attributes.get("Class").is_none());
}

#[test]
fn later_attribute_of_one_name_stands() {
    let mut json = Json::new();
    json.start_elem("a", &vec![attr("href", "first"), attr("HREF", "second")]);
    json.end_elem().unwrap();
    let nodes = json.finish().unwrap();
    let a = element(&nodes[0]);
    assert_eq!(a.attributes.len(), 1);
    assert_eq!(a.attributes.get("href").and_then(|v| v.as_str()), Some("second"));
}

#[test]
fn leaves_are_kept_in_order() {
    let events = vec![
        Event::Doctype("html".to_string()),
        start("p"),
        Event::Text("one".to_string()),
        Event::Comment(" note ".to_string()),
        start("br"),
        Event::EndElement,
        Event::ProcessingInstruction { target: "xml".to_string(), data: "v=1".to_string() },
        Event::Text("two".to_string()),
        Event::EndElement,
        Event::Text("tail".to_string()),
    ];
    let nodes = build(&events).unwrap();
    assert_eq!(shape(&nodes), "<!html>p['one'<!-- note -->br[]<?xml v=1>'two']'tail'");
}

#[test]
fn feeding_events_is_calling_the_methods() {
    let mut fed = Json::new();
    for e in [start("A"), Event::Text("t".to_string()), Event::EndElement] {
        fed.feed(&e).unwrap();
    }
    let mut called = Json::new();
    called.start_elem("A", &Vec::new());
    called.write_text("t");
    called.end_elem().unwrap();
    assert_eq!(shape(&fed.finish().unwrap()), shape(&called.finish().unwrap()));
    let mut json = Json::new();
    assert_eq!(json.feed(&Event::EndElement), Err(BuildError::NoOpenElement));
    json.write_comment("c");
    json.write_doctype("html");
    json.write_processing_instruction("t", "d");
    assert_eq!(shape(&json.finish().unwrap()), "<!--c--><!html><?t d>");
}
