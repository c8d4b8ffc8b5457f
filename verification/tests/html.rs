use htmlq::dom::{Attribute, Document, NodeData};
use htmlq::format::{select_attributes, serialize_text};
use htmlq::html::{parse_html, select, serialize_html, InvalidSelector};

fn parse(text: &str) -> Document {
    parse_html(text.as_bytes()).expect("the input is short")
}

fn tag_of(doc: &Document, id: usize) -> String {
    match doc.get(id) {
        Some(NodeData::Element { tag, .. }) => tag.clone(),
        other => panic!("node {} is no element: {:?}", id, other),
    }
}

#[test]
fn parsing_builds_the_tree_in_document_order() {
    let doc = parse("<html><body><a href=\"/x\">t</a></body></html>");
    assert!(matches!(doc.get(0), Some(NodeData::Document)));
    let order = doc.descendants(0);
    let tags: Vec<String> = order
        .iter()
        .filter(|id| matches!(doc.get(**id), Some(NodeData::Element { .. })))
        .map(|id| tag_of(&doc, *id))
        .collect();
    assert_eq!(tags, vec!["html", "head", "body", "a"]);
    assert_eq!(order.len(), doc.node_count());
}

#[test]
fn selection_finds_elements_in_document_order() {
    let doc = parse("<div><p id=a>one</p><span><p id=b>two</p></span></div><p id=c>three</p>");
    let found = select(&doc, "p").unwrap();
    assert_eq!(found.len(), 3);
    let ids: Vec<String> = found
        .iter()
        .map(|id| select_attributes(&doc, *id, &vec!["id".to_string()]))
        .collect();
    assert_eq!(ids, vec!["a\n", "b\n", "c\n"]);
    assert!(found.windows(2).all(|w| w[0] < w[1]));
}

#[test]
fn selection_looks_at_ancestors_and_classes() {
    let doc = parse("<div class=x><p>in</p></div><p class=\"skip y\">out</p>");
    assert_eq!(select(&doc, "div.x > p").unwrap().len(), 1);
    assert_eq!(select(&doc, "p.skip").unwrap().len(), 1);
    assert_eq!(select(&doc, "p:not(.skip)").unwrap().len(), 1);
    assert_eq!(select(&doc, "table").unwrap().len(), 0);
}

#[test]
fn malformed_selector_is_reported() {
    let doc = parse("<p>x</p>");
    assert_eq!(select(&doc, "p[").unwrap_err(), InvalidSelector);
    assert_eq!(select(&doc, "").unwrap_err(), InvalidSelector);
}

#[test]
fn pass_output_is_html() {
    let doc = parse("<p class=\"a\">x &amp; y<br>z</p>");
    let p = select(&doc, "p").unwrap()[0];
    assert_eq!(serialize_html(&doc, p), "<p class=\"a\">x &amp; y<br>z</p>");
    assert_eq!(serialize_html(&doc, doc.node_count()), "");
}

#[test]
fn pass_output_round_trips_through_the_parser() {
    let source = "<ul><li>one<li>two <b>bold</b></ul>";
    let doc = parse(source);
    let ul = select(&doc, "ul").unwrap()[0];
    let first = serialize_html(&doc, ul);
    assert_eq!(first, "<ul><li>one</li><li>two <b>bold</b></li></ul>");
    let again = parse(&first);
    let ul_again = select(&again, "ul").unwrap()[0];
    assert_eq!(serialize_html(&again, ul_again), first);
}

#[test]
fn text_of_a_selection() {
    let doc = parse("<div> <p>one</p>\n<p>two</p> </div>");
    let div = select(&doc, "div").unwrap()[0];
    assert_eq!(serialize_text(&doc, div, false), " one\ntwo ");
    assert_eq!(serialize_text(&doc, div, true), "one\ntwo\n");
}

#[test]
fn invalid_utf8_is_replaced() {
    let doc = parse_html(b"<p>a\xFFb</p>").unwrap();
    let p = select(&doc, "p").unwrap()[0];
    assert_eq!(serialize_text(&doc, p, false), "a\u{FFFD}b");
}

#[test]
fn parsed_content_is_kept() {
    let doc = parse("<!DOCTYPE html><!-- c --><P Class=\"x\" DATA-n='1'>T<svg xlink:href=\"#a\"></svg></P>");
    let kinds: Vec<String> = doc
        .descendants(0)
        .iter()
        .map(|id| match doc.get(*id).unwrap() {
            NodeData::Document => "document".to_string(),
            NodeData::Doctype(n) => format!("doctype {}", n),
            NodeData::Element { tag, attributes, .. } => {
                let list: Vec<String> = attributes
                    .iter()
                    .map(|a| {
                        let space = if a.namespace.is_empty() { "" } else { "xlink|" };
                        format!("{}{}={}", space, a.name, a.value)
                    })
                    .collect();
                format!("{} [{}]", tag, list.join(" "))
            }
            NodeData::Text(t) => format!("text {}", t),
            NodeData::Comment(t) => format!("comment{}", t),
            NodeData::ProcessingInstruction { target, data } => format!("pi {} {}", target, data),
        })
        .collect();
    assert_eq!(
        kinds,
        vec![
            "document",
            "doctype html",
            "comment c ",
            "html []",
            "head []",
            "body []",
            "p [class=x data-n=1]",
            "text T",
            "svg [xlink|href=#a]",
        ]
    );
}

#[test]
fn selection_skips_detached_nodes() {
    let mut doc = parse("<div><p>a</p></div><p>b</p>");
    let div = select(&doc, "div").unwrap()[0];
    doc.detach(div);
    let found = select(&doc, "p").unwrap();
    assert_eq!(found.len(), 1);
    assert_eq!(serialize_text(&doc, found[0], false), "b");
    assert_eq!(serialize_html(&doc, div), "<div><p>a</p></div>");
}

#[test]
fn selection_sees_rewritten_attributes() {
    let mut doc = parse("<a href=\"x\">one</a><a href=\"http://abs/\">two</a>");
    htmlq::link::rewrite_relative_urls(&mut doc, "https://base.example/");
    assert_eq!(select(&doc, "a[href^=\"https://base.example/\"]").unwrap().len(), 1);
    assert_eq!(select(&doc, "a[href=x]").unwrap().len(), 0);
    let a = select(&doc, "a").unwrap()[0];
    assert_eq!(serialize_html(&doc, a), "<a href=\"https://base.example/x\">one</a>");
}

#[test]
fn answers_pick_elements_in_document_order() {
    let doc = parse("<p>a</p><div><p>b</p></div>");
    let order = doc.descendants(0);
    let all = vec![true; order.len()];
    let elements: Vec<usize> = order
        .iter()
        .copied()
        .filter(|id| matches!(doc.get(*id), Some(NodeData::Element { .. })))
        .collect();
    assert_eq!(htmlq::html::pick_matches(&doc, &all), elements);
    assert_eq!(htmlq::html::pick_matches(&doc, &vec![false; order.len()]), Vec::<usize>::new());
    assert_eq!(htmlq::html::pick_matches(&doc, &Vec::new()), Vec::<usize>::new());
    let mut one = vec![false; order.len() + 3];
    let p = select(&doc, "div p").unwrap()[0];
    let position = order.iter().position(|id| *id == p).unwrap();
    one[position] = true;
    one[0] = true;
    one[position + 1] = true;
    assert_eq!(htmlq::html::pick_matches(&doc, &one), vec![p]);
}

#[test]
fn pass_output_of_a_built_document() {
    let element = |tag: &str, attributes: &[(&str, &str)]| NodeData::Element {
        namespace: htmlq::dom::HTML_NAMESPACE.to_string(),
        tag: tag.to_string(),
        attributes: attributes
            .iter()
            .map(|(n, v)| Attribute { namespace: String::new(), name: n.to_string(), value: v.to_string() })
            .collect(),
    };
    let mut doc = Document::new();
    doc.append_child(0, NodeData::Doctype("html".to_string())).unwrap();
    let div = doc
        .append_child(0, element("div", &[("title", "a \"b\" & <c>\u{a0}"), ("id", "x")]))
        .unwrap();
    doc.append_child(div, NodeData::Text("1 < 2 & 3 > 2\u{a0}\"q\"".to_string())).unwrap();
    let br = doc.append_child(div, element("br", &[])).unwrap();
    let inner = doc.append_child(br, element("b", &[])).unwrap();
    doc.append_child(inner, NodeData::Text("in".to_string())).unwrap();
    doc.append_child(div, NodeData::Comment(" c ".to_string())).unwrap();
    let script = doc.append_child(div, element("script", &[])).unwrap();
    let code = doc.append_child(script, NodeData::Text("a < b && c".to_string())).unwrap();
    let noscript = doc.append_child(div, element("noscript", &[])).unwrap();
    doc.append_child(noscript, NodeData::Text("<p>".to_string())).unwrap();
    doc.append_child(
        div,
        NodeData::ProcessingInstruction { target: "php".to_string(), data: "echo 1".to_string() },
    )
    .unwrap();
    assert_eq!(
        serialize_html(&doc, 0),
        "<!DOCTYPE html><div title=\"a &quot;b&quot; &amp; <c>&nbsp;\" id=\"x\">\
         1 &lt; 2 &amp; 3 &gt; 2&nbsp;\"q\"<br>in<!-- c --><script>a < b && c</script>\
         <noscript><p></noscript><?php echo 1></div>"
    );
    assert_eq!(serialize_html(&doc, br), "<br>in");
    assert_eq!(serialize_html(&doc, inner), "<b>in</b>");
    assert_eq!(serialize_html(&doc, code), "a &lt; b &amp;&amp; c");
    assert_eq!(serialize_html(&doc, script), "<script>a < b && c</script>");
}

#[test]
fn pass_output_is_what_the_engine_writes() {
    for source in [
        "<p class=a id=b>x<br>y</p>",
        "<div><img src=a.png alt='\"q\" & <r>'><input disabled><hr></div>",
        "<ul><li>one<li>two &amp; three</ul><!-- note -->",
        "<script>if (a < b) { c(\"&\"); }</script><style>p > a { }</style>",
        "<table><tr><td>1<td>2</table>",
        "<svg viewBox=\"0 0 1 1\"><a xlink:href=\"#x\"><path d=\"M0 0\"/></a></svg>",
        "<textarea>\n<b></textarea><pre>\n\nx</pre>",
    ] {
        let doc = parse(source);
        let html = select(&doc, "html").unwrap()[0];
        let expected = kuchiki::traits::TendrilSink::one(kuchiki::parse_html(), source)
            .select_first("html")
            .unwrap()
            .as_node()
            .to_string();
        assert_eq!(serialize_html(&doc, html), expected, "{}", source);
    }
}

#[test]
fn answers_stand_for_the_nodes_in_document_order() {
    let doc = parse("<!DOCTYPE html><!--c--><html><head></head><body>t<p>a</p><!--d--><p id=x>b<b>c</b></p>u</body></html>");
    let found = select(&doc, "p").unwrap();
    let texts: Vec<String> = found.iter().map(|id| serialize_text(&doc, *id, false)).collect();
    assert_eq!(texts, vec!["a", "bc"]);
    let b = select(&doc, "p#x > b").unwrap();
    assert_eq!(b.len(), 1);
    assert_eq!(serialize_html(&doc, b[0]), "<b>c</b>");
    assert_eq!(select(&doc, "body > :last-child").unwrap(), vec![found[1]]);
    assert_eq!(select(&doc, ":root").unwrap().len(), 1);
    assert_eq!(select(&doc, "*").unwrap().len(), 6);
}

#[test]
fn selection_in_a_built_document() {
    let element = |tag: &str, attributes: &[(&str, &str)]| NodeData::Element {
        namespace: htmlq::dom::HTML_NAMESPACE.to_string(),
        tag: tag.to_string(),
        attributes: attributes
            .iter()
            .map(|(n, v)| Attribute { namespace: String::new(), name: n.to_string(), value: v.to_string() })
            .collect(),
    };
    let mut doc = Document::new();
    let div = doc.append_child(0, element("div", &[("class", "a b"), ("class", "c")])).unwrap();
    doc.append_child(div, NodeData::Text("t".to_string())).unwrap();
    let first = doc.append_child(div, element("p", &[("id", "one")])).unwrap();
    let second = doc.append_child(div, element("p", &[])).unwrap();
    let gone = doc.append_child(0, element("p", &[])).unwrap();
    doc.detach(gone);
    assert_eq!(select(&doc, "p").unwrap(), vec![first, second]);
    assert_eq!(select(&doc, "p:first-of-type").unwrap(), vec![first]);
    assert_eq!(select(&doc, "div.c").unwrap(), vec![div]);
    assert_eq!(select(&doc, "div.a").unwrap(), Vec::<usize>::new());
    assert_eq!(select(&Document::new(), "*").unwrap(), Vec::<usize>::new());
}

const SVG: &str = "http://www.w3.org/2000/svg";

#[test]
fn elements_keep_their_namespace() {
    let doc = parse("<p>x</p><svg><foreignObject><p>y</p></foreignObject><style>a &lt; b</style></svg><math><mi>z</mi></math>");
    let spaces: Vec<(String, String)> = doc
        .descendants(0)
        .iter()
        .filter_map(|id| match doc.get(*id) {
            Some(NodeData::Element { namespace, tag, .. }) => Some((tag.clone(), namespace.clone())),
            _ => None,
        })
        .collect();
    let of = |tag: &str| spaces.iter().find(|(t, _)| t == tag).unwrap().1.clone();
    assert_eq!(of("html"), htmlq::dom::HTML_NAMESPACE);
    assert_eq!(of("svg"), SVG);
    assert_eq!(of("foreignObject"), SVG);
    assert_eq!(of("style"), SVG);
    assert_eq!(of("mi"), "http://www.w3.org/1998/Math/MathML");
    assert_eq!(spaces.iter().filter(|(t, n)| t == "p" && n == htmlq::dom::HTML_NAMESPACE).count(), 2);
}

#[test]
fn mixed_case_names_match_outside_html() {
    let doc = parse("<svg><foreignObject><p>y</p></foreignObject><linearGradient></linearGradient></svg>");
    assert_eq!(select(&doc, "foreignObject").unwrap().len(), 1);
    assert_eq!(select(&doc, "linearGradient").unwrap().len(), 1);
    assert_eq!(select(&doc, "foreignObject > p").unwrap().len(), 1);
    assert_eq!(select(&doc, "svg > *").unwrap().len(), 2);
}

#[test]
fn raw_text_and_void_rules_hold_in_html_only() {
    let source = "<svg><style>a &lt; b</style><script>c &amp; d</script></svg><style>e < f</style>";
    let doc = parse(source);
    let svg = select(&doc, "svg").unwrap()[0];
    assert_eq!(
        serialize_html(&doc, svg),
        "<svg><style>a &lt; b</style><script>c &amp; d</script></svg>"
    );
    let html_style = select(&doc, "head > style, body > style").unwrap()[0];
    assert_eq!(serialize_html(&doc, html_style), "<style>e < f</style>");
    let mut built = Document::new();
    let br = built
        .append_child(
            0,
            NodeData::Element { namespace: SVG.to_string(), tag: "br".to_string(), attributes: Vec::new() },
        )
        .unwrap();
    built
        .append_child(
            br,
            NodeData::Element { namespace: SVG.to_string(), tag: "b".to_string(), attributes: Vec::new() },
        )
        .unwrap();
    assert_eq!(serialize_html(&built, br), "<br><b></b></br>");
    assert_eq!(htmlq::pretty::pretty_print(&built, br), "<br>\n  <b>\n  </b>\n</br>\n");
}

#[test]
fn attributes_keep_their_namespace() {
    let doc = parse("<svg xlink:href=\"#a\" href=\"#b\" xml:lang=\"en\"><a xlink:href=\"#c\">x</a></svg>");
    let svg = select(&doc, "svg").unwrap()[0];
    match doc.get(svg) {
        Some(NodeData::Element { attributes, .. }) => {
            let mut seen: Vec<(String, String, String)> = attributes
                .iter()
                .map(|a| (a.namespace.clone(), a.name.clone(), a.value.clone()))
                .collect();
            seen.sort();
            assert_eq!(
                seen,
                vec![
                    ("".to_string(), "href".to_string(), "#b".to_string()),
                    ("http://www.w3.org/1999/xlink".to_string(), "href".to_string(), "#a".to_string()),
                    ("http://www.w3.org/XML/1998/namespace".to_string(), "lang".to_string(), "en".to_string()),
                ]
            );
        }
        other => panic!("{:?}", other),
    }
    assert_eq!(select_attributes(&doc, svg, &vec!["href".to_string(), "lang".to_string()]), "#b\n");
    let a = select(&doc, "a").unwrap()[0];
    assert_eq!(select_attributes(&doc, a, &vec!["href".to_string()]), "");
    assert_eq!(serialize_html(&doc, a), "<a xlink:href=\"#c\">x</a>");
    assert_eq!(htmlq::pretty::pretty_print(&doc, a), "<a xlink:href=\"#c\">\n  x\n</a>\n");
    assert_eq!(select(&doc, "[*|href]").unwrap().len(), 2);
    assert_eq!(select(&doc, "a[href]").unwrap().len(), 0);
    let mut rewritten = parse("<svg><a xlink:href=\"c\" href=\"d\">x</a></svg>");
    htmlq::link::rewrite_relative_urls(&mut rewritten, "http://base.example/");
    let link = select(&rewritten, "a").unwrap()[0];
    assert_eq!(
        serialize_html(&rewritten, link),
        "<a href=\"http://base.example/d\" xlink:href=\"c\">x</a>"
    );
}
