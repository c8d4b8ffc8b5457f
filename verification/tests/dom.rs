use htmlq::dom::{Attribute, Document, NodeData};
use htmlq::filter::remove_nodes;
use htmlq::format::{find_attribute, select_attributes, serialize_text};
use htmlq::pretty::{is_raw_text_element, is_void_element, pretty_print, stands_in_raw_text};

fn element(tag: &str, attributes: &[(&str, &str)]) -> NodeData {
    NodeData::Element {
        namespace: htmlq::dom::HTML_NAMESPACE.to_string(),
        tag: tag.to_string(),
        attributes: attributes
            .iter()
            .map(|(n, v)| Attribute { namespace: String::new(), name: n.to_string(), value: v.to_string() })
            .collect(),
    }
}

fn text(t: &str) -> NodeData {
    NodeData::Text(t.to_string())
}

/// html(1)[ body(2)[ p(3)[ "one"(4) ] p(5)[ "two"(6) b(7)[ "bold"(8) ] ] ] ]
fn sample() -> Document {
    let mut doc = Document::new();
    let html = doc.append_child(0, element("html", &[])).unwrap();
    let body = doc.append_child(html, element("body", &[("class", "c")])).unwrap();
    let p1 = doc.append_child(body, element("p", &[("id", "a")])).unwrap();
    doc.append_child(p1, text("one")).unwrap();
    let p2 = doc.append_child(body, element("p", &[("id", "b"), ("title", "t")])).unwrap();
    doc.append_child(p2, text("two")).unwrap();
    let b = doc.append_child(p2, element("b", &[])).unwrap();
    doc.append_child(b, text("bold")).unwrap();
    doc
}

#[test]
fn new_document_is_its_root() {
    let doc = Document::new();
    assert_eq!(doc.node_count(), 1);
    assert!(matches!(doc.get(0), Some(NodeData::Document)));
    assert_eq!(doc.parent_of(0), None);
    assert_eq!(doc.children_of(0), Vec::<usize>::new());
    assert_eq!(doc.descendants(0), vec![0]);
    assert!(doc.get(1).is_none());
}

#[test]
fn nodes_are_numbered_in_creation_order() {
    let doc = sample();
    assert_eq!(doc.node_count(), 9);
    assert_eq!(doc.children_of(2), vec![3, 5]);
    assert_eq!(doc.parent_of(7), Some(5));
    assert_eq!(doc.descendants(0), vec![0, 1, 2, 3, 4, 5, 6, 7, 8]);
    assert_eq!(doc.descendants(5), vec![5, 6, 7, 8]);
    assert_eq!(doc.descendants(4), vec![4]);
}

#[test]
fn document_order_follows_the_tree_not_the_numbers() {
    let mut doc = Document::new();
    let a = doc.append_child(0, element("a", &[])).unwrap();
    let b = doc.append_child(0, element("b", &[])).unwrap();
    let a1 = doc.append_child(a, element("a1", &[])).unwrap();
    let b1 = doc.append_child(b, element("b1", &[])).unwrap();
    let a2 = doc.append_child(a, element("a2", &[])).unwrap();
    assert_eq!(doc.descendants(0), vec![0, a, a1, a2, b, b1]);
    assert_eq!((a, b, a1, b1, a2), (1, 2, 3, 4, 5));
}

#[test]
fn indices_that_are_no_nodes() {
    let mut doc = sample();
    assert_eq!(doc.append_child(9, text("x")), None);
    assert_eq!(doc.node_count(), 9);
    assert!(doc.get(9).is_none());
    assert_eq!(doc.parent_of(100), None);
    assert!(doc.children_of(100).is_empty());
    assert!(doc.descendants(9).is_empty());
    assert_eq!(serialize_text(&doc, 9, true), "");
    assert_eq!(select_attributes(&doc, 9, &vec!["id".to_string()]), "");
    assert_eq!(pretty_print(&doc, 9), "");
    doc.detach(9);
    doc.set_attribute_value(9, 0, "v".to_string());
    assert_eq!(doc.descendants(0).len(), 9);
}

#[test]
fn detaching_takes_the_subtree_out() {
    let mut doc = sample();
    doc.detach(5);
    assert_eq!(doc.descendants(0), vec![0, 1, 2, 3, 4]);
    assert_eq!(doc.children_of(2), vec![3]);
    assert_eq!(doc.parent_of(5), None);
    assert_eq!(doc.node_count(), 9);
    assert_eq!(doc.descendants(5), vec![5, 6, 7, 8]);
    assert_eq!(serialize_text(&doc, 0, false), "one");
    assert_eq!(serialize_text(&doc, 5, false), "twobold");
}

#[test]
fn detaching_twice_or_the_root_changes_nothing() {
    let mut doc = sample();
    doc.detach(3);
    let after_once = doc.descendants(0);
    doc.detach(3);
    assert_eq!(doc.descendants(0), after_once);
    doc.detach(0);
    assert_eq!(doc.descendants(0), after_once);
    assert_eq!(after_once, vec![0, 1, 2, 5, 6, 7, 8]);
}

#[test]
fn removing_a_list_of_nodes() {
    let mut doc = sample();
    remove_nodes(&mut doc, &vec![7, 3, 7, 42, 0]);
    assert_eq!(doc.descendants(0), vec![0, 1, 2, 5, 6]);
    let mut nested = sample();
    remove_nodes(&mut nested, &vec![5, 7]);
    assert_eq!(nested.descendants(0), vec![0, 1, 2, 3, 4]);
    assert_eq!(nested.descendants(5), vec![5, 6]);
    let mut again = sample();
    remove_nodes(&mut again, &vec![5]);
    remove_nodes(&mut again, &vec![5]);
    assert_eq!(again.descendants(0), vec![0, 1, 2, 3, 4]);
    let mut none = sample();
    remove_nodes(&mut none, &Vec::new());
    assert_eq!(none.descendants(0).len(), 9);
}

#[test]
fn attribute_values_can_be_replaced() {
    let mut doc = sample();
    doc.set_attribute_value(5, 1, "new".to_string());
    assert_eq!(select_attributes(&doc, 5, &vec!["title".to_string(), "id".to_string()]), "new\nb\n");
    doc.set_attribute_value(5, 2, "none".to_string());
    doc.set_attribute_value(4, 0, "text node".to_string());
    assert_eq!(select_attributes(&doc, 5, &vec!["id".to_string(), "title".to_string()]), "b\nnew\n");
    assert_eq!(doc.descendants(0).len(), 9);
}

#[test]
fn text_fragments_in_document_order() {
    let mut doc = sample();
    assert_eq!(serialize_text(&doc, 0, false), "onetwobold");
    assert_eq!(serialize_text(&doc, 0, true), "one\ntwo\nbold\n");
    assert_eq!(serialize_text(&doc, 5, true), "two\nbold\n");
    assert_eq!(serialize_text(&doc, 4, false), "one");
    assert_eq!(serialize_text(&doc, 4, true), "one\n");
    let p = doc.append_child(2, element("p", &[])).unwrap();
    doc.append_child(p, text(" \t")).unwrap();
    doc.append_child(p, text("")).unwrap();
    doc.append_child(p, text(" x ")).unwrap();
    doc.append_child(p, NodeData::Comment("no text".to_string())).unwrap();
    assert_eq!(serialize_text(&doc, p, false), " \t x ");
    assert_eq!(serialize_text(&doc, p, true), " x \n");
}

#[test]
fn kept_fragment_with_a_line_break_keeps_it() {
    let mut doc = Document::new();
    let p = doc.append_child(0, element("p", &[])).unwrap();
    doc.append_child(p, text("a\n")).unwrap();
    doc.append_child(p, text("b\n \nc")).unwrap();
    assert_eq!(serialize_text(&doc, p, true), "a\n\nb\n \nc\n");
}

#[test]
fn attributes_of_elements_only() {
    let doc = sample();
    let names = vec!["id".to_string(), "class".to_string()];
    assert_eq!(select_attributes(&doc, 3, &names), "a\n");
    assert_eq!(select_attributes(&doc, 2, &names), "c\n");
    assert_eq!(select_attributes(&doc, 4, &names), "");
    assert_eq!(select_attributes(&doc, 0, &names), "");
    assert_eq!(select_attributes(&doc, 1, &names), "");
}

#[test]
fn last_attribute_of_a_name_is_found() {
    let attributes = vec![
        Attribute { namespace: String::new(), name: "a".to_string(), value: "1".to_string() },
        Attribute { namespace: String::new(), name: "b".to_string(), value: "".to_string() },
        Attribute { namespace: String::new(), name: "a".to_string(), value: "2".to_string() },
    ];
    assert_eq!(find_attribute(&attributes, "a").map(|s| s.as_str()), Some("2"));
    assert_eq!(find_attribute(&attributes, "b").map(|s| s.as_str()), Some(""));
    assert_eq!(find_attribute(&attributes, "A"), None);
    assert_eq!(find_attribute(&Vec::new(), "a"), None);
}

#[test]
fn pretty_printing_indents_by_depth() {
    let doc = sample();
    assert_eq!(
        pretty_print(&doc, 2),
        "<body class=\"c\">\n  <p id=\"a\">\n    one\n  </p>\n  <p id=\"b\" title=\"t\">\n    two\n    \
         <b>\n      bold\n    </b>\n  </p>\n</body>\n"
    );
    assert_eq!(pretty_print(&doc, 7), "<b>\n  bold\n</b>\n");
    assert_eq!(pretty_print(&doc, 8), "bold\n");
    assert_eq!(pretty_print(&doc, 0), pretty_print(&doc, 1));
}

#[test]
fn pretty_printing_escapes_and_knows_void_and_raw_elements() {
    let mut doc = Document::new();
    doc.append_child(0, NodeData::Doctype("html".to_string())).unwrap();
    let div = doc.append_child(0, element("div", &[("title", "a \"b\" & <c>\u{a0}")])).unwrap();
    doc.append_child(div, text("1 < 2 & 3 > 2\u{a0}\"q\"")).unwrap();
    let br = doc.append_child(div, element("br", &[])).unwrap();
    doc.append_child(br, text("never shown")).unwrap();
    doc.append_child(div, text("  \n ")).unwrap();
    doc.append_child(div, NodeData::Comment(" c ".to_string())).unwrap();
    let script = doc.append_child(div, element("script", &[])).unwrap();
    let code = doc.append_child(script, text("if (a < b && c) {}")).unwrap();
    doc.append_child(
        div,
        NodeData::ProcessingInstruction { target: "php".to_string(), data: "echo 1".to_string() },
    )
    .unwrap();
    assert_eq!(
        pretty_print(&doc, 0),
        "<!DOCTYPE html>\n\
         <div title=\"a &quot;b&quot; &amp; <c>&nbsp;\">\n  \
         1 &lt; 2 &amp; 3 &gt; 2&nbsp;\"q\"\n  \
         <br>\n  \
         <!-- c -->\n  \
         <script>\n    if (a < b && c) {}\n  </script>\n  \
         <?php echo 1>\n\
         </div>\n"
    );
    assert_eq!(pretty_print(&doc, code), "if (a < b && c) {}\n");
    assert_eq!(pretty_print(&doc, br), "<br>\n");
}

#[test]
fn void_and_raw_text_elements() {
    for tag in ["area", "base", "br", "col", "embed", "hr", "img", "input", "link", "meta", "param",
        "source", "track", "wbr", "basefont", "bgsound", "frame", "keygen"]
    {
        assert!(is_void_element(tag), "{}", tag);
    }
    for tag in ["div", "p", "BR", "", "script", "b"] {
        assert!(!is_void_element(tag), "{:?}", tag);
    }
    for tag in ["style", "script", "xmp", "iframe", "noembed", "noframes", "plaintext"] {
        assert!(is_raw_text_element(tag), "{}", tag);
    }
    for tag in ["pre", "textarea", "title", "SCRIPT", "noscript"] {
        assert!(!is_raw_text_element(tag), "{:?}", tag);
    }
}

#[test]
fn raw_text_context() {
    let mut doc = Document::new();
    let style = doc.append_child(0, element("style", &[])).unwrap();
    let css = doc.append_child(style, text("a > b {}")).unwrap();
    let p = doc.append_child(0, element("p", &[])).unwrap();
    let t = doc.append_child(p, text("a > b")).unwrap();
    assert!(stands_in_raw_text(&doc, css));
    assert!(!stands_in_raw_text(&doc, t));
    assert!(!stands_in_raw_text(&doc, style));
    assert!(!stands_in_raw_text(&doc, 0));
    assert!(!stands_in_raw_text(&doc, 77));
    assert_eq!(pretty_print(&doc, 0), "<style>\n  a > b {}\n</style>\n<p>\n  a &gt; b\n</p>\n");
    doc.detach(css);
    assert!(!stands_in_raw_text(&doc, css));
    assert_eq!(pretty_print(&doc, css), "a &gt; b {}\n");
}

#[test]
fn children_go_under_the_root_and_under_elements_only() {
    let mut doc = Document::new();
    let p = doc.append_child(0, element("p", &[])).unwrap();
    let t = doc.append_child(p, text("t")).unwrap();
    let c = doc.append_child(p, NodeData::Comment("c".to_string())).unwrap();
    let d = doc.append_child(0, NodeData::Doctype("html".to_string())).unwrap();
    let i = doc
        .append_child(p, NodeData::ProcessingInstruction { target: "a".to_string(), data: "b".to_string() })
        .unwrap();
    for leaf in [t, c, d, i] {
        assert_eq!(doc.append_child(leaf, text("x")), None);
        assert_eq!(doc.append_child(leaf, element("b", &[])), None);
    }
    assert_eq!(doc.append_child(0, NodeData::Document), None);
    assert_eq!(doc.append_child(p, NodeData::Document), None);
    assert_eq!(doc.node_count(), 6);
    assert_eq!(doc.descendants(0), vec![0, p, t, c, i, d]);
    doc.detach(p);
    assert_eq!(doc.append_child(p, text("still an element")), Some(6));
}

#[test]
fn fragments_of_several_lines_give_no_blank_line() {
    let mut doc = Document::new();
    let p = doc.append_child(0, element("p", &[])).unwrap();
    doc.append_child(p, text("two\nwords")).unwrap();
    doc.append_child(p, text("\n  ")).unwrap();
    doc.append_child(p, text(" a \n b")).unwrap();
    let out = serialize_text(&doc, p, true);
    assert_eq!(out, "two\nwords\n a \n b\n");
    assert!(out.ends_with('\n'));
    assert!(out[..out.len() - 1].split('\n').all(|line| !line.trim().is_empty()));
}
