//! The link resolver: finds the base URL of a document and rewrites relative
//! links to absolute ones.
//!
//! The attributes that are taken to hold one URL are `href`, `src`, `action`,
//! `formaction`, `poster` and `cite`, without namespace, on whatever element
//! they stand.
//! Parsing and resolution are those of the `url` crate.

use vstd::prelude::*;
use url::Url;
use crate::dom::{AttributeView, Document, NodeData, NodeDataView};
use crate::format::{find_attribute, lookup};
use crate::strings::str_eq;

verus! {

/// The result of `Url::parse` on `input`: the serialization of the URL that
/// `input` denotes, or `None` where `input` is no absolute URL.
pub uninterp spec fn absolute_url(input: Seq<char>) -> Option<Seq<char>>;

/// The result of `Url::join` on the URL that `base` denotes and on `input`:
/// the serialization of `input` resolved against that URL, or `None` where
/// `base` is no absolute URL or the resolution fails.
pub uninterp spec fn joined_url(base: Seq<char>, input: Seq<char>) -> Option<Seq<char>>;

/// Whether a text, if there is one, is the text that a named result
/// describes.
pub open spec fn is_text(r: Option<String>, text: Option<Seq<char>>) -> bool {
    match r {
        Some(s) => text == Some(s@),
        None => text is None,
    }
}

/// Parses an absolute URL and gives its serialization.
///
/// Calls `Url::parse`, which takes no base: it gives the URL when `input` is
/// an absolute URL and fails otherwise, a relative reference included.
#[verifier::external_body]
pub(crate) fn parse_url(input: &str) -> (r: Option<String>)
    ensures
        is_text(r, absolute_url(input@)),
{
    Url::parse(input).ok().map(String::from)
}

/// Resolves a reference against a base URL and gives the serialization of
/// the result.
///
/// Calls `Url::join` on the URL that `base` parses to, which parses `input`
/// with that URL as the base.
#[verifier::external_body]
pub(crate) fn join_url(base: &str, input: &str) -> (r: Option<String>)
    ensures
        is_text(r, joined_url(base@, input@)),
{
    Url::parse(base).ok()?.join(input).ok().map(String::from)
}

/// Whether an attribute of this name holds a URL.
pub open spec fn is_url_name(name: Seq<char>) -> bool {
    ||| name == "href"@
    ||| name == "src"@
    ||| name == "action"@
    ||| name == "formaction"@
    ||| name == "poster"@
    ||| name == "cite"@
}

/// Tests whether an attribute of this name holds a URL.
pub fn is_url_attribute(name: &str) -> (r: bool)
    ensures
        r == is_url_name(name@),
{
    str_eq(name, "href") || str_eq(name, "src") || str_eq(name, "action") || str_eq(
        name,
        "formaction",
    ) || str_eq(name, "poster") || str_eq(name, "cite")
}

/// The value that an attribute has after rewriting, given what parsing and
/// resolution said of its old value: a URL attribute whose value is no
/// absolute URL and can be resolved takes the resolved URL; every other value
/// stays.
pub open spec fn rewritten_with(
    namespace: Seq<char>,
    name: Seq<char>,
    value: Seq<char>,
    absolute: Option<Seq<char>>,
    joined: Option<Seq<char>>,
) -> Seq<char> {
    if namespace.len() == 0 && is_url_name(name) && absolute is None {
        match joined {
            Some(resolved) => resolved,
            None => value,
        }
    } else {
        value
    }
}

/// The value that an attribute has after rewriting against `base`.
pub open spec fn rewritten_value(
    namespace: Seq<char>,
    name: Seq<char>,
    value: Seq<char>,
    base: Seq<char>,
) -> Seq<char> {
    rewritten_with(namespace, name, value, absolute_url(value), joined_url(base, value))
}

/// One attribute after rewriting against `base`.
pub open spec fn rewritten_attribute(a: AttributeView, base: Seq<char>) -> AttributeView {
    AttributeView {
        namespace: a.namespace,
        name: a.name,
        value: rewritten_value(a.namespace, a.name, a.value, base),
    }
}

/// The content of a node after rewriting against `base`: each attribute of
/// an element rewritten, everything else as it was.
pub open spec fn rewritten_data(data: NodeDataView, base: Seq<char>) -> NodeDataView {
    match data {
        NodeDataView::Element { namespace, tag, attributes } => NodeDataView::Element {
            namespace,
            tag,
            attributes: attributes.map_values(|a: AttributeView| rewritten_attribute(a, base)),
        },
        _ => data,
    }
}

/// Decides what becomes of one attribute value. `absolute` says whether the
/// value parsed as an absolute URL, `joined` is the value resolved against
/// the base, if that succeeded. Returns the new value, or `None` when the
/// value stays as it is.
pub fn choose_value(url_attribute: bool, absolute: bool, joined: Option<String>) -> (r: Option<
    String,
>)
    ensures
        r == if url_attribute && !absolute {
            joined
        } else {
            None
        },
{
    if url_attribute && !absolute {
        joined
    } else {
        None
    }
}

/// The new value of one attribute after rewriting against `base`, or `None`
/// when the value stays as it is.
pub fn rewrite_value(namespace: &str, name: &str, value: &str, base: &str) -> (r: Option<String>)
    ensures
        match r {
            Some(v) => v@ == rewritten_value(namespace@, name@, value@, base@),
            None => value@ == rewritten_value(namespace@, name@, value@, base@),
        },
{
    if !namespace.is_empty() || !is_url_attribute(name) {
        return None;
    }
    let absolute: bool = parse_url(value).is_some();
    let joined: Option<String> = if absolute {
        None
    } else {
        join_url(base, value)
    };
    choose_value(true, absolute, joined)
}

/// The `href` of node `id` if it is a `base` element that has one.
pub open spec fn node_base_href(doc: &Document, id: int) -> Option<Seq<char>> {
    if 0 <= id < doc.len() {
        match doc.data(id) {
            NodeData::Element { tag, attributes, .. } => if tag@ == "base"@ {
                lookup(attributes@, "href"@)
            } else {
                None
            },
            _ => None,
        }
    } else {
        None
    }
}

/// The `href` of the first node among `ids` that is a `base` element with an
/// `href` attribute.
pub open spec fn base_href(doc: &Document, ids: Seq<usize>) -> Option<Seq<char>>
    decreases ids.len(),
{
    if ids.len() == 0 {
        None
    } else {
        match node_base_href(doc, ids[0] as int) {
            Some(href) => Some(href),
            None => base_href(doc, ids.skip(1)),
        }
    }
}

/// The base URL that the document declares: the parsed `href` of the first
/// `base` element, in document order, that has an `href` attribute. `None`
/// when there is no such element or its `href` is no absolute URL.
pub fn detect_base(doc: &Document) -> (r: Option<String>)
    requires
        doc.wf(),
    ensures
        match base_href(doc, doc.subtree(0)) {
            Some(href) => is_text(r, absolute_url(href)),
            None => r is None,
        },
{
    let order: Vec<usize> = doc.descendants(0);
    let mut i: usize = 0;
    assert(order@.skip(0) == order@);
    while i < order.len()
        invariant
            i <= order.len(),
            order@ == doc.subtree(0),
            base_href(doc, order@) == base_href(doc, order@.skip(i as int)),
        decreases order.len() - i,
    {
        assert(order@.skip(i as int)[0] == order@[i as int]);
        assert(order@.skip(i as int).skip(1) == order@.skip(i + 1));
        match doc.get(order[i]) {
            Some(NodeData::Element { tag, attributes, .. }) => {
                if str_eq(tag.as_str(), "base") {
                    match find_attribute(attributes, "href") {
                        Some(href) => {
                            assert(node_base_href(doc, order@[i as int] as int) == Some(href@));
                            return parse_url(href.as_str());
                        },
                        None => {},
                    }
                }
            },
            _ => {},
        }
        assert(node_base_href(doc, order@[i as int] as int) is None);
        i = i + 1;
    }
    None
}

/// The content of a node when its first `k` attributes have been rewritten.
pub open spec fn rewritten_prefix(data: NodeDataView, k: int, base: Seq<char>) -> NodeDataView {
    match data {
        NodeDataView::Element { namespace, tag, attributes } => NodeDataView::Element {
            namespace,
            tag,
            attributes: Seq::new(
                attributes.len(),
                |j: int|
                    if j < k {
                        rewritten_attribute(attributes[j], base)
                    } else {
                        attributes[j]
                    },
            ),
        },
        _ => data,
    }
}

/// The number of attributes of a node; none for a node that is no element.
pub open spec fn attribute_count(data: NodeDataView) -> nat {
    match data {
        NodeDataView::Element { tag, attributes, .. } => attributes.len(),
        _ => 0,
    }
}

proof fn lemma_rewritten_prefix_ends(data: NodeDataView, base: Seq<char>)
    ensures
        rewritten_prefix(data, 0, base) == data,
        rewritten_prefix(data, attribute_count(data) as int, base) == rewritten_data(data, base),
{
    match data {
        NodeDataView::Element { tag, attributes, .. } => {
            assert(rewritten_prefix(data, 0, base)->Element_attributes =~= attributes);
            assert(rewritten_prefix(data, attributes.len() as int, base)->Element_attributes
                =~= attributes.map_values(|a: AttributeView| rewritten_attribute(a, base)));
        },
        _ => {},
    }
}

proof fn lemma_rewritten_prefix_step(data: NodeDataView, k: int, base: Seq<char>)
    requires
        0 <= k < attribute_count(data),
    ensures
        rewritten_prefix(data, k + 1, base) == Document::with_value(
            rewritten_prefix(data, k, base),
            k,
            rewritten_value(
                data->Element_attributes[k].namespace,
                data->Element_attributes[k].name,
                data->Element_attributes[k].value,
                base,
            ),
        ),
        rewritten_prefix(data, k, base)->Element_attributes[k] == data->Element_attributes[k],
        data->Element_attributes[k].value == rewritten_value(
            data->Element_attributes[k].namespace,
            data->Element_attributes[k].name,
            data->Element_attributes[k].value,
            base,
        ) ==> rewritten_prefix(data, k + 1, base) == rewritten_prefix(data, k, base),
{
    match data {
        NodeDataView::Element { tag, attributes, .. } => {
            let before = rewritten_prefix(data, k, base);
            let after = rewritten_prefix(data, k + 1, base);
            let value = rewritten_value(
                attributes[k].namespace,
                attributes[k].name,
                attributes[k].value,
                base,
            );
            assert(after->Element_attributes =~= Document::with_value(
                before,
                k,
                value,
            )->Element_attributes);
            if attributes[k].value == value {
                assert(after->Element_attributes =~= before->Element_attributes);
            }
        },
        _ => {},
    }
}

/// Rewrites every relative link of the document against `base`: each URL
/// attribute whose value is no absolute URL takes its value resolved against
/// `base`. Values that are absolute URLs, values that cannot be resolved, and
/// the shape of the tree stay as they are; with a `base` that is no absolute
/// URL nothing can be resolved.
pub fn rewrite_relative_urls(doc: &mut Document, base: &str)
    requires
        old(doc).wf(),
    ensures
        final(doc).wf(),
        final(doc).same_links(old(doc)),
        forall|id: int|
            0 <= id < old(doc).len() ==> (#[trigger] final(doc).data(id))@ == rewritten_data(
                old(doc).data(id)@,
                base@,
            ),
{
    let ghost start = *doc;
    let ghost b = base@;
    let n: usize = doc.node_count();
    let mut id: usize = 0;
    while id < n
        invariant
            start.wf(),
            doc.wf(),
            doc.same_links(&start),
            n == start.len(),
            id <= n,
            b == base@,
            forall|i: int|
                0 <= i < id ==> (#[trigger] doc.data(i))@ == rewritten_data(start.data(i)@, b),
            forall|i: int| id <= i < n ==> (#[trigger] doc.data(i))@ == start.data(i)@,
        decreases n - id,
    {
        let count: usize = match doc.get(id) {
            Some(NodeData::Element { tag, attributes, .. }) => attributes.len(),
            _ => 0,
        };
        let ghost initial = start.data(id as int)@;
        proof {
            lemma_rewritten_prefix_ends(initial, b);
        }
        let mut k: usize = 0;
        while k < count
            invariant
                start.wf(),
                doc.wf(),
                doc.same_links(&start),
                n == start.len(),
                id < n,
                k <= count,
                b == base@,
                initial == start.data(id as int)@,
                count == attribute_count(initial),
                forall|i: int|
                    0 <= i < id ==> (#[trigger] doc.data(i))@ == rewritten_data(
                        start.data(i)@,
                        b,
                    ),
                forall|i: int| id < i < n ==> (#[trigger] doc.data(i))@ == start.data(i)@,
                doc.data(id as int)@ == rewritten_prefix(initial, k as int, b),
            decreases count - k,
        {
            proof {
                lemma_rewritten_prefix_step(initial, k as int, b);
            }
            let new_value: Option<String> = match doc.get(id) {
                Some(NodeData::Element { tag, attributes, .. }) => {
                    if k < attributes.len() {
                        assert(attributes@[k as int]@ == doc.data(
                            id as int,
                        )@->Element_attributes[k as int]);
                        rewrite_value(
                            attributes[k].namespace.as_str(),
                            attributes[k].name.as_str(),
                            attributes[k].value.as_str(),
                            base,
                        )
                    } else {
                        None
                    }
                },
                _ => None,
            };
            let ghost mid = *doc;
            match new_value {
                Some(value) => {
                    doc.set_attribute_value(id, k, value);
                    proof {
                        assert forall|i: int| 0 <= i < n && i != id implies #[trigger] doc.data(i)
                            == mid.data(i) by {
                            assert(doc.node(i) == mid.node(i));
                        }
                    }
                },
                None => {},
            }
            k = k + 1;
        }
        id = id + 1;
    }
}

/// Rewriting leaves a node as it is when every URL attribute on it already
/// holds an absolute URL.
pub proof fn lemma_absolute_links_unchanged(data: NodeDataView, base: Seq<char>)
    requires
        data matches NodeDataView::Element { tag, attributes, .. } ==> forall|k: int|
            0 <= k < attributes.len() && (#[trigger] attributes[k]).namespace.len() == 0
                && is_url_name(attributes[k].name) ==> absolute_url(attributes[k].value) is Some,
    ensures
        rewritten_data(data, base) == data,
{
    match data {
        NodeDataView::Element { tag, attributes, .. } => {
            assert(attributes.map_values(|a: AttributeView| rewritten_attribute(a, base))
                =~= attributes);
        },
        _ => {},
    }
}

} // verus!
