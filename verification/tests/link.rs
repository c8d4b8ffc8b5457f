use htmlq::dom::{Attribute, Document, NodeData};
use htmlq::format::select_attributes;
use htmlq::link::{choose_value, detect_base, is_url_attribute, rewrite_relative_urls, rewrite_value};
use htmlq::pipeline::{choose_base, resolve_base, Error};

fn element(tag: &str, attributes: &[(&str, &str)]) -> NodeData {
    NodeData::Element {
        namespace: htmlq::dom::HTML_NAMESPACE.to_string(),
        tag: tag.to_string(),
        attributes: attributes
            .iter()
            .map(|(n, v)| Attribute { namespace: String::new(), name: n.to_string(), value: v.to_string() })
            .collect(),
    }
}

fn base() -> &'static str {
    "https://example.org/a/b/page.html?q#frag"
}

#[test]
fn url_attributes_are_the_documented_set() {
    for name in ["href", "src", "action", "formaction", "poster", "cite"] {
        assert!(is_url_attribute(name), "{}", name);
    }
    for name in ["", "HREF", "href ", "title", "srcset", "data", "class", "hre"] {
        assert!(!is_url_attribute(name), "{:?}", name);
    }
}

#[test]
fn relative_values_are_resolved() {
    let b = base();
    assert_eq!(rewrite_value("", "href", "c.html", b).as_deref(), Some("https://example.org/a/b/c.html"));
    assert_eq!(rewrite_value("", "src", "/root.png", b).as_deref(), Some("https://example.org/root.png"));
    assert_eq!(rewrite_value("", "href", "../x/", b).as_deref(), Some("https://example.org/a/x/"));
    assert_eq!(rewrite_value("", "href", "#top", b).as_deref(), Some("https://example.org/a/b/page.html?q#top"));
    assert_eq!(rewrite_value("", "href", "", b).as_deref(), Some("https://example.org/a/b/page.html?q"));
    assert_eq!(rewrite_value("", "action", "//cdn.example/x", b).as_deref(), Some("https://cdn.example/x"));
}

#[test]
fn absolute_values_and_other_attributes_stay() {
    let b = base();
    assert_eq!(rewrite_value("", "href", "http://other.example", b), None);
    assert_eq!(rewrite_value("", "href", "HTTPS://EXAMPLE.ORG/%7e", b), None);
    assert_eq!(rewrite_value("", "href", "data:text/plain,hi", b), None);
    assert_eq!(rewrite_value("", "title", "c.html", b), None);
    assert_eq!(rewrite_value("", "class", "/x", b), None);
}

#[test]
fn attributes_in_a_namespace_stay() {
    assert_eq!(rewrite_value("http://www.w3.org/1999/xlink", "href", "c.html", base()), None);
    assert_eq!(rewrite_value("x", "src", "/root.png", base()), None);
}

#[test]
fn values_that_cannot_be_resolved_stay() {
    assert_eq!(rewrite_value("", "href", "relative/path", "mailto:someone@example.org"), None);
    assert_eq!(rewrite_value("", "href", "relative/path", "no base at all"), None);
    assert_eq!(rewrite_value("", "href", "http://[bad", base()), None);
}

#[test]
fn the_choice_of_a_value() {
    let joined = Some("http://r/".to_string());
    assert_eq!(choose_value(true, false, joined.clone()), joined);
    assert_eq!(choose_value(true, true, joined.clone()), None);
    assert_eq!(choose_value(false, false, joined.clone()), None);
    assert_eq!(choose_value(false, true, joined), None);
    assert_eq!(choose_value(true, false, None), None);
}

#[test]
fn rewriting_keeps_the_tree_and_touches_only_links() {
    let mut doc = Document::new();
    let a = doc.append_child(0, element("a", &[("href", "x"), ("title", "y"), ("src", "http://abs/")])).unwrap();
    let t = doc.append_child(a, NodeData::Text("href".to_string())).unwrap();
    let img = doc.append_child(0, element("img", &[("src", "i.png"), ("alt", "i.png")])).unwrap();
    rewrite_relative_urls(&mut doc, base());
    let names: Vec<String> = ["href", "title", "src", "alt"].iter().map(|s| s.to_string()).collect();
    assert_eq!(select_attributes(&doc, a, &names), "https://example.org/a/b/x\ny\nhttp://abs/\n");
    assert_eq!(select_attributes(&doc, img, &names), "https://example.org/a/b/i.png\ni.png\n");
    assert_eq!(doc.descendants(0), vec![0, a, t, img]);
    assert!(matches!(doc.get(t), Some(NodeData::Text(s)) if s == "href"));
}

#[test]
fn rewriting_twice_is_rewriting_once() {
    let mut doc = Document::new();
    let a = doc.append_child(0, element("a", &[("href", "../x?y=1")])).unwrap();
    rewrite_relative_urls(&mut doc, base());
    let once = select_attributes(&doc, a, &vec!["href".to_string()]);
    rewrite_relative_urls(&mut doc, "ftp://elsewhere.example/");
    assert_eq!(select_attributes(&doc, a, &vec!["href".to_string()]), once);
    assert_eq!(once, "https://example.org/a/x?y=1\n");
}

#[test]
fn base_is_the_first_base_element_with_href() {
    let mut doc = Document::new();
    let head = doc.append_child(0, element("head", &[])).unwrap();
    assert_eq!(detect_base(&doc), None);
    doc.append_child(head, element("base", &[("target", "_top")])).unwrap();
    assert_eq!(detect_base(&doc), None);
    doc.append_child(head, element("a", &[("href", "http://not.base/")])).unwrap();
    assert_eq!(detect_base(&doc), None);
    doc.append_child(head, element("base", &[("href", "http://one.example/dir/")])).unwrap();
    doc.append_child(head, element("base", &[("href", "http://two.example/")])).unwrap();
    assert_eq!(detect_base(&doc).as_deref(), Some("http://one.example/dir/"));
}

#[test]
fn detected_base_is_given_as_the_parser_writes_it() {
    let mut doc = Document::new();
    doc.append_child(0, element("base", &[("href", "HTTP://Example.ORG:80/a/../b c")])).unwrap();
    assert_eq!(detect_base(&doc).as_deref(), Some("http://example.org/b%20c"));
}

#[test]
fn base_that_does_not_parse_gives_nothing() {
    let mut doc = Document::new();
    doc.append_child(0, element("base", &[("href", "/relative/")])).unwrap();
    doc.append_child(0, element("base", &[("href", "http://later.example/")])).unwrap();
    assert_eq!(detect_base(&doc), None);
}

#[test]
fn detached_base_is_not_seen() {
    let mut doc = Document::new();
    let b = doc.append_child(0, element("base", &[("href", "http://gone.example/")])).unwrap();
    doc.detach(b);
    assert_eq!(detect_base(&doc), None);
}

#[test]
fn base_policy() {
    let d = Some("http://detected/".to_string());
    let e = Some("http://explicit/".to_string());
    assert_eq!(choose_base(d.clone(), e.clone(), true), d);
    assert_eq!(choose_base(None, e.clone(), true), e);
    assert_eq!(choose_base(d.clone(), e.clone(), false), e);
    assert_eq!(choose_base(d, None, false), None);
    assert_eq!(choose_base(None, None, true), None);
}

#[test]
fn resolving_the_base_of_a_run() {
    let mut doc = Document::new();
    doc.append_child(0, element("base", &[("href", "http://doc.example/")])).unwrap();
    let explicit = Some("http://explicit.example/x".to_string());
    let text = |r: Result<Option<String>, Error>| r;
    assert_eq!(text(resolve_base(&doc, &None, false)), Ok(None));
    assert_eq!(text(resolve_base(&doc, &None, true)), Ok(Some("http://doc.example/".to_string())));
    assert_eq!(text(resolve_base(&doc, &explicit, true)), Ok(Some("http://doc.example/".to_string())));
    assert_eq!(text(resolve_base(&doc, &explicit, false)), Ok(Some("http://explicit.example/x".to_string())));
    assert_eq!(text(resolve_base(&Document::new(), &explicit, true)), Ok(Some("http://explicit.example/x".to_string())));
    let bad = Some("no-scheme".to_string());
    assert_eq!(text(resolve_base(&doc, &bad, false)), Err(Error::InvalidBase));
    assert_eq!(text(resolve_base(&doc, &bad, true)), Err(Error::InvalidBase));
}
