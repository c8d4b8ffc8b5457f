//! The pipeline: base resolution, link rewriting, node removal, selection
//! and the formatting of every match, in this fixed order.
//!
//! Each match gives one block of output. A block ends with a line break: the
//! pass-through and text formats add one after their content, the pretty
//! printer and the attribute format end every line of theirs with one.

use vstd::prelude::*;
use crate::config::{Config, OutputFormat};
use crate::dom::{index_range, Document};
use crate::events::{node_events, outcome};
use crate::filter::{is_removal, remove_nodes};
use crate::format::{
    name_views,
    node_attribute_lines,
    select_attributes,
    serialize_text,
    text_fragments,
    text_output,
};
use crate::html::{
    parse_html,
    parsed_events,
    select,
    selection,
    selector_compiles,
    ParseError,
    MAX_INPUT,
};
use crate::json::BuildError;
use crate::link::{
    absolute_url,
    base_href,
    detect_base,
    is_text,
    parse_url,
    rewrite_relative_urls,
    rewritten_data,
};
use crate::markup::{html_node, html_text, top_level};
use crate::pretty::{in_raw_text, pretty_node, pretty_print};
use crate::strings::push_char;

verus! {

/// The conditions that end a run without output.
#[derive(Debug, Clone, Copy, PartialEq, Eq)]
pub enum Error {
    /// The input is larger than the parser takes.
    InputTooLarge,
    /// The parsed tree does not nest as a tree does.
    InconsistentTree(BuildError),
    /// The configured base URL is no absolute URL.
    InvalidBase,
    /// The removal selector at this position is not accepted.
    InvalidRemoveSelector(usize),
    /// The primary selector is not accepted.
    InvalidSelector,
}

impl Error {
    /// The diagnostic for this condition.
    pub fn message(&self) -> (r: String)
        ensures
            r@ == match *self {
                Error::InputTooLarge => "The input is too large"@,
                Error::InconsistentTree(_) => "The parsed document is inconsistent"@,
                Error::InvalidBase => "Failed to parse the provided base URL"@,
                Error::InvalidRemoveSelector(_) => "Failed to parse a CSS selector for removal"@,
                Error::InvalidSelector => "Failed to parse CSS selector"@,
            },
    {
        match self {
            Error::InputTooLarge => "The input is too large".to_owned(),
            Error::InconsistentTree(_) => "The parsed document is inconsistent".to_owned(),
            Error::InvalidBase => "Failed to parse the provided base URL".to_owned(),
            Error::InvalidRemoveSelector(_) => "Failed to parse a CSS selector for removal".to_owned(),
            Error::InvalidSelector => "Failed to parse CSS selector".to_owned(),
        }
    }
}

/// Whether a base URL is configured that is no absolute URL.
pub open spec fn base_is_invalid(base: Option<String>) -> bool {
    match base {
        Some(b) => absolute_url(b@) is None,
        None => false,
    }
}

/// The configured base URL, parsed.
pub open spec fn explicit_base(base: Option<String>) -> Option<Seq<char>> {
    match base {
        Some(b) => absolute_url(b@),
        None => None,
    }
}

/// The base URL that the document declares, parsed.
pub open spec fn detected_base(doc: &Document) -> Option<Seq<char>> {
    match base_href(doc, doc.subtree(0)) {
        Some(href) => absolute_url(href),
        None => None,
    }
}

/// The base URL of a run. With detection asked for, the base that the
/// document declares if it declares one; in every other case the configured
/// base, if there is one.
pub open spec fn chosen_base(doc: &Document, base: Option<String>, detect: bool) -> Option<
    Seq<char>,
> {
    if detect && detected_base(doc) is Some {
        detected_base(doc)
    } else {
        explicit_base(base)
    }
}

/// Picks the base URL of a run from the detected and the configured one.
pub fn choose_base(detected: Option<String>, explicit: Option<String>, detect: bool) -> (r: Option<
    String,
>)
    ensures
        r == if detect && detected is Some {
            detected
        } else {
            explicit
        },
{
    if detect {
        match detected {
            Some(url) => Some(url),
            None => explicit,
        }
    } else {
        explicit
    }
}

/// Resolves the base URL of a run. A configured base that is no absolute URL
/// is an error, whether or not detection is asked for.
pub fn resolve_base(doc: &Document, base: &Option<String>, detect: bool) -> (r: Result<
    Option<String>,
    Error,
>)
    requires
        doc.wf(),
    ensures
        match r {
            Ok(url) => !base_is_invalid(*base) && is_text(url, chosen_base(doc, *base, detect)),
            Err(e) => base_is_invalid(*base) && e == Error::InvalidBase,
        },
{
    let explicit: Option<String> = match base {
        Some(b) => match parse_url(b.as_str()) {
            Some(url) => Some(url),
            None => {
                return Err(Error::InvalidBase);
            },
        },
        None => None,
    };
    let detected: Option<String> = if detect {
        detect_base(doc)
    } else {
        None
    };
    Ok(choose_base(detected, explicit, detect))
}

/// The block of output for one match. `html` is the serialization of the
/// node, which only the pass-through format uses.
pub open spec fn block(
    doc: &Document,
    node: int,
    format: OutputFormat,
    ignore_whitespace: bool,
    html: Seq<char>,
) -> Seq<char> {
    match format {
        OutputFormat::Pass => html.push('\n'),
        OutputFormat::TextOnly => text_output(
            text_fragments(doc, doc.subtree(node)),
            ignore_whitespace,
        ).push('\n'),
        OutputFormat::PrettyPrint => pretty_node(doc, node, 0, in_raw_text(doc, node)),
        OutputFormat::Attributes(names) => node_attribute_lines(doc, node, name_views(names@)),
    }
}

/// Formats one match. `html` is the serialization of the node; it is looked
/// at by the pass-through format only.
pub fn format_node(
    doc: &Document,
    node: usize,
    format: &OutputFormat,
    ignore_whitespace: bool,
    html: &str,
) -> (r: String)
    requires
        doc.wf(),
    ensures
        r@ == block(doc, node as int, *format, ignore_whitespace, html@),
{
    match format {
        OutputFormat::Pass => {
            let mut out = String::new();
            out.append(html);
            push_char(&mut out, '\n');
            assert(out@ == html@.push('\n'));
            out
        },
        OutputFormat::TextOnly => {
            let mut out = serialize_text(doc, node, ignore_whitespace);
            push_char(&mut out, '\n');
            out
        },
        OutputFormat::PrettyPrint => pretty_print(doc, node),
        OutputFormat::Attributes(names) => select_attributes(doc, node, names),
    }
}

/// The output for a sequence of matches: their blocks, in order. `htmls`
/// holds the serialization of each match.
pub open spec fn blocks(
    doc: &Document,
    nodes: Seq<usize>,
    format: OutputFormat,
    ignore_whitespace: bool,
    htmls: Seq<Seq<char>>,
) -> Seq<char>
    decreases nodes.len(),
{
    if nodes.len() == 0 || htmls.len() != nodes.len() {
        Seq::empty()
    } else {
        blocks(doc, nodes.drop_last(), format, ignore_whitespace, htmls.drop_last()) + block(
            doc,
            nodes.last() as int,
            format,
            ignore_whitespace,
            htmls.last(),
        )
    }
}

/// Whether every selector of the list is accepted.
pub open spec fn all_compile(selectors: Seq<String>) -> bool {
    forall|k: int| 0 <= k < selectors.len() ==> selector_compiles(#[trigger] selectors[k]@)
}

/// Whether the selector at position `j` is the first of the list that is not
/// accepted.
pub open spec fn is_first_invalid(selectors: Seq<String>, j: int) -> bool {
    &&& 0 <= j < selectors.len()
    &&& !selector_compiles(selectors[j]@)
    &&& forall|k: int| 0 <= k < j ==> selector_compiles(#[trigger] selectors[k]@)
}

/// The removal selectors of a configuration; none where it names none.
pub open spec fn removal_selectors(config: &Config) -> Seq<String> {
    match config.remove_nodes {
        Some(list) => list@,
        None => Seq::empty(),
    }
}

/// Whether `after` is what the removal selectors make of `before`: each
/// selector, in the order given, is evaluated on the document as the
/// selectors before it left it, and its selection is detached.
pub open spec fn is_filtered(before: Document, after: Document, selectors: Seq<String>) -> bool
    decreases selectors.len(),
{
    if selectors.len() == 0 {
        after == before
    } else {
        exists|mid: Document|
            is_filtered(before, mid, selectors.drop_last()) && mid.wf() && #[trigger] is_removal(
                &mid,
                &after,
                selection(&mid, selectors.last()@),
            )
    }
}

/// Applies the removal selectors in the order given. Each is evaluated on
/// the tree as the selectors before it left it; its matches are collected
/// first and detached then. Stops at the first selector that is not
/// accepted; the selectors before it have been applied then. Nodes are
/// detached only: none changes its content, and none gets another parent.
pub fn filter_nodes(doc: &mut Document, selectors: &Vec<String>) -> (r: Result<(), Error>)
    requires
        old(doc).wf(),
    ensures
        final(doc).wf(),
        final(doc).len() == old(doc).len(),
        forall|i: int|
            0 <= i < old(doc).len() ==> #[trigger] final(doc).data(i) == old(doc).data(i),
        forall|i: int|
            0 <= i < old(doc).len() ==> {
                ||| #[trigger] final(doc).parent(i) is None
                ||| final(doc).parent(i) == old(doc).parent(i)
            },
        match r {
            Ok(()) => all_compile(selectors@) && is_filtered(*old(doc), *final(doc), selectors@),
            Err(e) => e matches Error::InvalidRemoveSelector(j) && is_first_invalid(
                selectors@,
                j as int,
            ) && is_filtered(*old(doc), *final(doc), selectors@.take(j as int)),
        },
{
    let ghost start = *doc;
    let mut j: usize = 0;
    assert(selectors@.take(0).len() == 0);
    while j < selectors.len()
        invariant
            start == *old(doc),
            doc.wf(),
            doc.len() == start.len(),
            j <= selectors.len(),
            forall|i: int| 0 <= i < start.len() ==> #[trigger] doc.data(i) == start.data(i),
            forall|i: int|
                0 <= i < start.len() ==> #[trigger] doc.parent(i) is None || doc.parent(i)
                    == start.parent(i),
            forall|k: int| 0 <= k < j ==> selector_compiles(#[trigger] selectors@[k]@),
            is_filtered(start, *doc, selectors@.take(j as int)),
        decreases selectors.len() - j,
    {
        let ghost before = *doc;
        match select(doc, selectors[j].as_str()) {
            Ok(ids) => {
                remove_nodes(doc, &ids);
                proof {
                    let next = selectors@.take(j + 1);
                    assert(next.drop_last() == selectors@.take(j as int));
                    assert(next.last() == selectors@[j as int]);
                    assert(is_filtered(start, before, next.drop_last()) && before.wf()
                        && is_removal(&before, doc, selection(&before, next.last()@)));
                    assert(next.len() > 0);
                    let after = *doc;
                    assert(is_removal(&before, &after, selection(&before, next.last()@)));
                    assert(is_filtered(start, after, next));
                }
            },
            Err(_) => {
                assert(is_first_invalid(selectors@, j as int));
                return Err(Error::InvalidRemoveSelector(j));
            },
        }
        j = j + 1;
    }
    assert(selectors@.take(selectors.len() as int) == selectors@);
    Ok(())
}

/// The serialization that the format of a run takes of a match: its HTML
/// for the pass-through format, and nothing for the others.
pub open spec fn html_for(doc: &Document, format: OutputFormat, node: int) -> Seq<char> {
    match format {
        OutputFormat::Pass => html_node(doc, node, top_level()),
        _ => Seq::empty(),
    }
}

/// The serializations that the format of a run takes of a sequence of
/// matches.
pub open spec fn htmls_for(doc: &Document, format: OutputFormat, nodes: Seq<usize>) -> Seq<
    Seq<char>,
> {
    Seq::new(nodes.len(), |i: int| html_for(doc, format, nodes[i] as int))
}

/// The output for a sequence of matches: one block each, in order.
pub open spec fn output_for(
    doc: &Document,
    nodes: Seq<usize>,
    format: OutputFormat,
    ignore_whitespace: bool,
) -> Seq<char> {
    blocks(doc, nodes, format, ignore_whitespace, htmls_for(doc, format, nodes))
}

/// Formats the matches of the primary selector, one block each, in document
/// order.
fn format_matches(
    doc: &Document,
    ids: &Vec<usize>,
    format: &OutputFormat,
    ignore_whitespace: bool,
) -> (r: String)
    requires
        doc.wf(),
    ensures
        r@ == output_for(doc, ids@, *format, ignore_whitespace),
{
    let pass: bool = match format {
        OutputFormat::Pass => true,
        _ => false,
    };
    let mut out = String::new();
    let mut i: usize = 0;
    assert(ids@.take(0) == Seq::<usize>::empty());
    while i < ids.len()
        invariant
            doc.wf(),
            i <= ids.len(),
            pass == (*format is Pass),
            out@ == output_for(doc, ids@.take(i as int), *format, ignore_whitespace),
        decreases ids.len() - i,
    {
        let id: usize = ids[i];
        let html: String = if pass {
            html_text(doc, id)
        } else {
            String::new()
        };
        let piece: String = format_node(doc, id, format, ignore_whitespace, html.as_str());
        out.append(piece.as_str());
        proof {
            let done = ids@.take(i as int);
            let next = ids@.take(i + 1);
            assert(next.drop_last() == done);
            assert(next.last() == id);
            assert(htmls_for(doc, *format, next).drop_last() == htmls_for(doc, *format, done));
            assert(htmls_for(doc, *format, next).last() == html@);
        }
        i = i + 1;
    }
    assert(ids@.take(ids.len() as int) == ids@);
    out
}

/// What ends the processing of a document without output, if anything does:
/// an invalid base first, then the first removal selector that is not
/// accepted, then a primary selector that is not accepted.
pub open spec fn is_outcome(config: &Config, r: Result<String, Error>) -> bool {
    match r {
        Ok(_) => {
            &&& !base_is_invalid(config.base)
            &&& all_compile(removal_selectors(config))
            &&& selector_compiles(config.selector@)
        },
        Err(Error::InvalidBase) => base_is_invalid(config.base),
        Err(Error::InvalidRemoveSelector(j)) => {
            &&& !base_is_invalid(config.base)
            &&& is_first_invalid(removal_selectors(config), j as int)
        },
        Err(Error::InvalidSelector) => {
            &&& !base_is_invalid(config.base)
            &&& all_compile(removal_selectors(config))
            &&& !selector_compiles(config.selector@)
        },
        Err(Error::InputTooLarge) => false,
        Err(Error::InconsistentTree(_)) => false,
    }
}

/// The content of a node after link rewriting with the base of the run, if
/// the run has one.
pub open spec fn content_after(
    doc: &Document,
    config: &Config,
    i: int,
) -> crate::dom::NodeDataView {
    match chosen_base(doc, config.base, config.detect_base) {
        Some(base) => rewritten_data(doc.data(i)@, base),
        None => doc.data(i)@,
    }
}

/// Whether `after` is `before` with its links rewritten against the base of
/// the run, if the run has one: the same tree, every node with its content
/// after rewriting.
pub open spec fn is_rewritten(before: &Document, after: &Document, config: &Config) -> bool {
    &&& after.wf()
    &&& after.same_links(before)
    &&& forall|i: int|
        0 <= i < before.len() ==> (#[trigger] after.data(i))@ == content_after(before, config, i)
}

/// Whether `after` is `before` after link rewriting and after the removal by
/// the given selectors.
pub open spec fn is_prepared(
    before: Document,
    after: Document,
    config: &Config,
    selectors: Seq<String>,
) -> bool {
    exists|mid: Document|
        is_rewritten(&before, &mid, config) && #[trigger] is_filtered(mid, after, selectors)
}

/// The output of a run on a prepared document: one block for each element
/// of the selection of the primary selector, in document order.
pub open spec fn output_of(doc: &Document, config: &Config) -> Seq<char> {
    output_for(
        doc,
        selection(doc, config.selector@),
        config.output_format,
        config.ignore_whitespace,
    )
}

/// Whether `r` is the result of the pipeline on the document `before`, and
/// `after` the document as the pipeline leaves it. An invalid base ends it
/// before anything is changed; a removal selector that is not accepted ends
/// it after the removals before it; a primary selector that is not accepted
/// ends it after all removals; otherwise the result is the output for the
/// selection of the primary selector in the prepared document.
pub open spec fn is_processed(
    before: Document,
    after: Document,
    config: &Config,
    r: Result<String, Error>,
) -> bool {
    &&& is_outcome(config, r)
    &&& match r {
        Ok(out) => is_prepared(before, after, config, removal_selectors(config)) && out@
            == output_of(&after, config),
        Err(Error::InvalidBase) => after == before,
        Err(Error::InvalidRemoveSelector(j)) => is_prepared(
            before,
            after,
            config,
            removal_selectors(config).take(j as int),
        ),
        Err(Error::InvalidSelector) => is_prepared(
            before,
            after,
            config,
            removal_selectors(config),
        ),
        Err(_) => false,
    }
}

/// Runs the pipeline on a parsed document: resolves the base, rewrites the
/// links if there is a base, removes what the removal selectors match,
/// selects, and formats every match. Returns the whole output, or the first
/// condition that ends the run; in that case nothing is put out.
///
/// The document is left as the run made it: with its links rewritten and
/// the removed nodes detached.
pub fn process(doc: &mut Document, config: &Config) -> (r: Result<String, Error>)
    requires
        old(doc).wf(),
    ensures
        final(doc).wf(),
        final(doc).len() == old(doc).len(),
        is_processed(*old(doc), *final(doc), config, r),
{
    let ghost start = *doc;
    let base: Option<String> = match resolve_base(doc, &config.base, config.detect_base) {
        Ok(base) => base,
        Err(e) => {
            return Err(e);
        },
    };
    match base {
        Some(url) => {
            rewrite_relative_urls(doc, url.as_str());
        },
        None => {},
    }
    let ghost mid = *doc;
    assert(is_rewritten(&start, &mid, config)) by {
        assert forall|i: int| 0 <= i < start.len() implies (#[trigger] mid.data(i))@
            == content_after(&start, config, i) by {}
    }
    match &config.remove_nodes {
        Some(list) => {
            assert(removal_selectors(config) == list@);
            match filter_nodes(doc, list) {
                Ok(()) => {},
                Err(e) => {
                    return Err(e);
                },
            }
        },
        None => {
            assert(removal_selectors(config).len() == 0);
        },
    }
    assert(is_filtered(mid, *doc, removal_selectors(config)));
    let ids: Vec<usize> = match select(doc, config.selector.as_str()) {
        Ok(ids) => ids,
        Err(_) => {
            return Err(Error::InvalidSelector);
        },
    };
    let out = format_matches(doc, &ids, &config.output_format, config.ignore_whitespace);
    Ok(out)
}

/// Whether `r` is the result of a run on the bytes of a document: the
/// pipeline on the document that the parser gives for them, or the
/// inconsistency of what the parser gave.
pub open spec fn is_run(bytes: Seq<u8>, config: &Config, r: Result<String, Error>) -> bool {
    if bytes.len() > MAX_INPUT {
        r == Err::<String, Error>(Error::InputTooLarge)
    } else {
        match outcome(parsed_events(bytes), 0) {
            Err(e) => r == Err::<String, Error>(Error::InconsistentTree(e)),
            Ok(_) => exists|parsed: Document, after: Document|
                parsed.wf() && node_events(&parsed, 0) == parsed_events(bytes) && parsed.subtree(0)
                    == index_range(0, parsed.len() as int) && #[trigger] is_processed(
                    parsed,
                    after,
                    config,
                    r,
                ),
        }
    }
}

/// Runs the pipeline on the bytes of a document: parses them and processes
/// the document.
pub fn run(bytes: &[u8], config: &Config) -> (r: Result<String, Error>)
    ensures
        is_run(bytes@, config, r),
{
    match parse_html(bytes) {
        Ok(doc) => {
            let mut doc = doc;
            let ghost parsed = doc;
            let r = process(&mut doc, config);
            assert(is_processed(parsed, doc, config, r));
            r
        },
        Err(ParseError::TooLarge) => Err(Error::InputTooLarge),
        Err(ParseError::Inconsistent(e)) => Err(Error::InconsistentTree(e)),
    }
}

} // verus!
