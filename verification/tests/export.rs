use htmlq::dom::{Attribute, Document, NodeData};
use htmlq::events::subtree_events;
use htmlq::export::export_json;
use htmlq::html::{parse_html, select};
use htmlq::json::{build, to_json, to_value, Event, Node};

fn element(tag: &str, attributes: &[(&str, &str)]) -> NodeData {
    NodeData::Element {
        namespace: htmlq::dom::HTML_NAMESPACE.to_string(),
        tag: tag.to_string(),
        attributes: attributes
            .iter()
            .map(|(n, v)| Attribute { namespace: String::new(), name: n.to_string(), value: v.to_string() })
            .collect(),
    }
}

fn brief(event: &Event) -> String {
    match event {
        Event::StartElement { name, attributes, .. } => {
            let mut s = format!("<{}", name);
            for a in attributes {
                s.push_str(&format!(" {}={}", a.name, a.value));
            }
            s.push('>');
            s
        }
        Event::EndElement => "</>".to_string(),
        Event::Text(t) => format!("'{}'", t),
        Event::Comment(t) => format!("<!--{}-->", t),
        Event::Doctype(n) => format!("<!{}>", n),
        Event::ProcessingInstruction { target, data } => format!("<?{} {}>", target, data),
    }
}

fn sample() -> Document {
    let mut doc = Document::new();
    doc.append_child(0, NodeData::Doctype("html".to_string())).unwrap();
    let p = doc.append_child(0, element("P", &[("Class", "A"), ("id", "x")])).unwrap();
    doc.append_child(p, NodeData::Text("hi".to_string())).unwrap();
    doc.append_child(p, element("br", &[])).unwrap();
    doc.append_child(p, NodeData::Comment("c".to_string())).unwrap();
    doc
}

#[test]
fn events_of_a_subtree() {
    let doc = sample();
    let all: Vec<String> = subtree_events(&doc, 0).iter().map(brief).collect();
    assert_eq!(all, vec!["<!html>", "<P Class=A id=x>", "'hi'", "<br>", "</>", "<!--c-->", "</>"]);
    let br: Vec<String> = subtree_events(&doc, 4).iter().map(brief).collect();
    assert_eq!(br, vec!["<br>", "</>"]);
    let text: Vec<String> = subtree_events(&doc, 3).iter().map(brief).collect();
    assert_eq!(text, vec!["'hi'"]);
    assert!(subtree_events(&doc, 6).is_empty());
}

#[test]
fn detached_nodes_give_no_events_in_their_old_place() {
    let mut doc = sample();
    doc.detach(4);
    let p: Vec<String> = subtree_events(&doc, 2).iter().map(brief).collect();
    assert_eq!(p, vec!["<P Class=A id=x>", "'hi'", "<!--c-->", "</>"]);
}

#[test]
fn json_of_a_subtree() {
    let doc = sample();
    assert_eq!(
        export_json(&doc, 2),
        "[{\"attributes\":{\"class\":\"A\",\"id\":\"x\"},\"children\":[{\"text\":\"hi\"},\
         {\"attributes\":{},\"children\":[],\"tag\":\"br\"},{\"comment\":\"c\"}],\"tag\":\"p\"}]"
    );
    assert_eq!(export_json(&doc, 3), "[{\"text\":\"hi\"}]");
    assert_eq!(export_json(&doc, 1), "[{\"doctype\":\"html\"}]");
    assert_eq!(export_json(&doc, 99), "[]");
    assert_eq!(export_json(&Document::new(), 0), "[]");
}

#[test]
fn json_of_the_whole_document_lists_the_top_level_nodes() {
    let doc = sample();
    let whole = export_json(&doc, 0);
    assert!(whole.starts_with("[{\"doctype\":\"html\"},{\"attributes\":{\"class\":\"A\""));
    let parsed: serde_json::Value = serde_json::from_str(&whole).unwrap();
    assert_eq!(parsed.as_array().unwrap().len(), 2);
    assert_eq!(parsed[1]["children"][1]["tag"], "br");
}

#[test]
fn json_escapes_its_strings() {
    let mut doc = Document::new();
    doc.append_child(0, NodeData::Text("a \"q\" \\ \n é".to_string())).unwrap();
    assert_eq!(export_json(&doc, 1), "[{\"text\":\"a \\\"q\\\" \\\\ \\n é\"}]");
}

#[test]
fn json_of_a_processing_instruction() {
    let events = vec![Event::ProcessingInstruction {
        target: "xml".to_string(),
        data: "version=1".to_string(),
    }];
    let nodes = build(&events).unwrap();
    assert_eq!(to_json(&nodes), "[{\"data\":\"version=1\",\"target\":\"xml\"}]");
    assert_eq!(to_value(&nodes[0])["target"], "xml");
    assert_eq!(to_json(&Vec::<Node>::new()), "[]");
}

#[test]
fn json_of_a_parsed_selection() {
    let doc = parse_html(b"<ul><li><a href='/x'>one</a><li>two</ul>").unwrap();
    let ul = select(&doc, "ul").unwrap()[0];
    let json: serde_json::Value = serde_json::from_str(&export_json(&doc, ul)).unwrap();
    let items = json[0]["children"].as_array().unwrap();
    assert_eq!(json[0]["tag"], "ul");
    assert_eq!(items.len(), 2);
    assert_eq!(items[0]["children"][0]["attributes"]["href"], "/x");
    assert_eq!(items[0]["children"][0]["children"][0]["text"], "one");
    assert_eq!(items[1]["children"][0]["text"], "two");
}
