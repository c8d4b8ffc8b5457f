//! The formatters that work on the tree alone: text extraction and attribute
//! extraction.

use vstd::prelude::*;
use crate::chars::{is_blank, is_blank_text};
use crate::dom::{Attribute, Document, NodeData};
use crate::strings::{push_char, str_eq};

verus! {

/// The contents of the text nodes among `ids`, in the order of `ids`.
pub open spec fn text_fragments(doc: &Document, ids: Seq<usize>) -> Seq<Seq<char>>
    decreases ids.len(),
{
    if ids.len() == 0 {
        Seq::empty()
    } else {
        let rest = text_fragments(doc, ids.drop_last());
        let id = ids.last() as int;
        if id < doc.len() {
            match doc.data(id) {
                NodeData::Text(t) => rest.push(t@),
                _ => rest,
            }
        } else {
            rest
        }
    }
}

/// What one text fragment contributes to the output. When whitespace is
/// ignored a blank fragment contributes nothing and any other fragment is
/// followed by a line break; otherwise the fragment stands as it is.
pub open spec fn text_piece(fragment: Seq<char>, ignore_whitespace: bool) -> Seq<char> {
    if ignore_whitespace {
        if is_blank(fragment) {
            Seq::empty()
        } else {
            fragment.push('\n')
        }
    } else {
        fragment
    }
}

/// The text output for a sequence of fragments: their pieces, concatenated
/// in order, with nothing between them.
pub open spec fn text_output(fragments: Seq<Seq<char>>, ignore_whitespace: bool) -> Seq<char>
    decreases fragments.len(),
{
    if fragments.len() == 0 {
        Seq::empty()
    } else {
        text_output(fragments.drop_last(), ignore_whitespace) + text_piece(
            fragments.last(),
            ignore_whitespace,
        )
    }
}

/// The text of a node: the contents of the text nodes in its subtree (the
/// node itself included), in document order.
pub fn serialize_text(doc: &Document, node: usize, ignore_whitespace: bool) -> (r: String)
    requires
        doc.wf(),
    ensures
        r@ == text_output(text_fragments(doc, doc.subtree(node as int)), ignore_whitespace),
{
    let order: Vec<usize> = doc.descendants(node);
    let mut out = String::new();
    let mut i: usize = 0;
    assert(order@.take(0) == Seq::<usize>::empty());
    while i < order.len()
        invariant
            i <= order.len(),
            out@ == text_output(text_fragments(doc, order@.take(i as int)), ignore_whitespace),
        decreases order.len() - i,
    {
        let ghost done = text_fragments(doc, order@.take(i as int));
        assert(order@.take(i + 1).drop_last() == order@.take(i as int));
        match doc.get(order[i]) {
            Some(NodeData::Text(t)) => {
                assert(text_fragments(doc, order@.take(i + 1)) == done.push(t@));
                assert(done.push(t@).drop_last() == done);
                if !(ignore_whitespace && is_blank_text(t.as_str())) {
                    out.append(t.as_str());
                    if ignore_whitespace {
                        push_char(&mut out, '\n');
                    }
                }
                assert(out@ =~= text_output(done, ignore_whitespace) + text_piece(
                    t@,
                    ignore_whitespace,
                ));
            },
            _ => {
                assert(text_fragments(doc, order@.take(i + 1)) == done);
            },
        }
        i = i + 1;
    }
    assert(order@.take(order.len() as int) == order@);
    out
}

/// Whether `(from, to)` bounds a line of `s`: `to` is the position of a line
/// break, `from` is the start of `s` or directly follows a line break, and no
/// line break lies between them.
pub open spec fn is_line(s: Seq<char>, from: int, to: int) -> bool {
    &&& 0 <= from <= to < s.len()
    &&& s[to] == '\n'
    &&& (from == 0 || s[from - 1] == '\n')
    &&& forall|k: int| from <= k < to ==> s[k] != '\n'
}

/// Whether `(from, to)` bounds a piece of `s` between line breaks: `from` is
/// the start of `s` or directly follows a line break, `to` is the end of `s`
/// or the position of a line break, and no line break lies between them.
pub open spec fn is_piece(s: Seq<char>, from: int, to: int) -> bool {
    &&& 0 <= from <= to <= s.len()
    &&& (from == 0 || s[from - 1] == '\n')
    &&& (to == s.len() || s[to] == '\n')
    &&& forall|k: int| from <= k < to ==> s[k] != '\n'
}

/// Whether a fragment holds no blank line of its own: every piece of it
/// between line breaks, the one after its last line break included, holds a
/// character that is no whitespace. A fragment that ends with a line break
/// holds an empty piece there.
pub open spec fn no_blank_piece(fragment: Seq<char>) -> bool {
    forall|from: int, to: int| #[trigger]
        is_piece(fragment, from, to) ==> !is_blank(fragment.subrange(from, to))
}

/// Whether the fragments that are kept under whitespace-ignoring hold no
/// blank line of their own.
pub open spec fn kept_without_blank_line(fragments: Seq<Seq<char>>) -> bool {
    forall|i: int|
        0 <= i < fragments.len() && !is_blank(#[trigger] fragments[i]) ==> no_blank_piece(
            fragments[i],
        )
}

/// With whitespace ignored, and kept fragments that hold no blank line of
/// their own, the text output is a sequence of complete lines none of which
/// is empty or blank.
pub proof fn lemma_no_blank_line(fragments: Seq<Seq<char>>)
    requires
        kept_without_blank_line(fragments),
    ensures
        ({
            let out = text_output(fragments, true);
            &&& out.len() == 0 || out.last() == '\n'
            &&& forall|from: int, to: int| #[trigger]
                is_line(out, from, to) ==> !is_blank(out.subrange(from, to))
        }),
    decreases fragments.len(),
{
    if fragments.len() > 0 {
        let front = fragments.drop_last();
        let f = fragments.last();
        assert forall|i: int| 0 <= i < front.len() && !is_blank(#[trigger] front[i])
            implies no_blank_piece(front[i]) by {
            assert(front[i] == fragments[i]);
        }
        lemma_no_blank_line(front);
        let prev = text_output(front, true);
        let out = text_output(fragments, true);
        if is_blank(f) {
            assert(out =~= prev);
        } else {
            assert(f == fragments[fragments.len() - 1]);
            assert(no_blank_piece(f));
            assert(out == prev + f.push('\n'));
            let last = out.len() - 1;
            let p = prev.len() as int;
            assert(out[last] == '\n');
            assert forall|from: int, to: int| #[trigger] is_line(out, from, to) implies !is_blank(
                out.subrange(from, to),
            ) by {
                if to < p {
                    assert(is_line(prev, from, to)) by {
                        assert(forall|k: int| 0 <= k < prev.len() ==> prev[k] == out[k]);
                    }
                    assert(out.subrange(from, to) =~= prev.subrange(from, to));
                } else {
                    if from < p {
                        assert(out[p - 1] == prev.last());
                        assert(false);
                    }
                    assert(is_piece(f, from - p, to - p)) by {
                        assert(forall|k: int| 0 <= k < f.len() ==> f[k] == out[p + k]);
                        if from > p {
                            assert(out[from - 1] == f[from - 1 - p]);
                        }
                        if to < last {
                            assert(out[to] == f[to - p]);
                        }
                    }
                    assert(out.subrange(from, to) =~= f.subrange(from - p, to - p));
                }
            }
        }
    }
}

/// Whether an attribute is the one called `name`: it has that name and no
/// namespace.
pub open spec fn is_called(attribute: Attribute, name: Seq<char>) -> bool {
    attribute.namespace@.len() == 0 && attribute.name@ == name
}

/// The value of the attribute called `name`, if there is one; of two
/// attributes with one name the later counts, as it does where attributes are
/// kept in a map.
pub open spec fn lookup(attributes: Seq<Attribute>, name: Seq<char>) -> Option<Seq<char>>
    decreases attributes.len(),
{
    if attributes.len() == 0 {
        None
    } else if is_called(attributes.last(), name) {
        Some(attributes.last().value@)
    } else {
        lookup(attributes.drop_last(), name)
    }
}

/// The attribute output: for each requested name in turn, the value of that
/// attribute followed by a line break if the element has it, and nothing
/// otherwise.
pub open spec fn attribute_lines(attributes: Seq<Attribute>, names: Seq<Seq<char>>) -> Seq<char>
    decreases names.len(),
{
    if names.len() == 0 {
        Seq::empty()
    } else {
        let rest = attribute_lines(attributes, names.drop_last());
        match lookup(attributes, names.last()) {
            Some(value) => rest + value.push('\n'),
            None => rest,
        }
    }
}

/// The views of a list of names.
pub open spec fn name_views(names: Seq<String>) -> Seq<Seq<char>> {
    names.map_values(|s: String| s@)
}

/// The attribute output of a node: that of its attributes if it is an
/// element, and nothing for any other node.
pub open spec fn node_attribute_lines(doc: &Document, node: int, names: Seq<Seq<char>>) -> Seq<
    char,
> {
    if 0 <= node < doc.len() {
        match doc.data(node) {
            NodeData::Element { tag, attributes, .. } => attribute_lines(attributes@, names),
            _ => Seq::empty(),
        }
    } else {
        Seq::empty()
    }
}

/// Looks an attribute up by its exact name; of two attributes with one name
/// the later is found.
pub fn find_attribute<'a>(attributes: &'a Vec<Attribute>, name: &str) -> (r: Option<&'a String>)
    ensures
        match r {
            Some(value) => lookup(attributes@, name@) == Some(value@),
            None => lookup(attributes@, name@) is None,
        },
{
    let mut i: usize = attributes.len();
    assert(attributes@.take(i as int) == attributes@);
    while i > 0
        invariant
            i <= attributes.len(),
            lookup(attributes@, name@) == lookup(attributes@.take(i as int), name@),
        decreases i,
    {
        assert(attributes@.take(i as int).last() == attributes@[i - 1]);
        assert(attributes@.take(i as int).drop_last() == attributes@.take(i - 1));
        if attributes[i - 1].namespace.as_str().is_empty() && str_eq(
            attributes[i - 1].name.as_str(),
            name,
        ) {
            return Some(&attributes[i - 1].value);
        }
        i = i - 1;
    }
    None
}

/// The values of the requested attributes of one node, one per line, in the
/// order in which they were requested. A name that the element does not have
/// gives no line and no placeholder; a node that is no element gives nothing.
pub fn select_attributes(doc: &Document, node: usize, names: &Vec<String>) -> (r: String)
    ensures
        r@ == node_attribute_lines(doc, node as int, name_views(names@)),
{
    let mut out = String::new();
    match doc.get(node) {
        Some(NodeData::Element { tag, attributes, .. }) => {
            let ghost views = name_views(names@);
            let mut i: usize = 0;
            assert(views.take(0) == Seq::<Seq<char>>::empty());
            while i < names.len()
                invariant
                    i <= names.len(),
                    views == name_views(names@),
                    out@ == attribute_lines(attributes@, views.take(i as int)),
                decreases names.len() - i,
            {
                assert(views.take(i + 1).drop_last() == views.take(i as int));
                assert(views.take(i + 1).last() == names@[i as int]@);
                match find_attribute(attributes, names[i].as_str()) {
                    Some(value) => {
                        out.append(value.as_str());
                        push_char(&mut out, '\n');
                        assert(out@ =~= attribute_lines(attributes@, views.take(i as int))
                            + value@.push('\n'));
                    },
                    None => {},
                }
                i = i + 1;
            }
            assert(views.take(names.len() as int) == views);
        },
        _ => {},
    }
    out
}

/// Attribute extraction keeps the order of the request: the output for a
/// list of names is the output for its first part followed by the output for
/// the rest.
pub proof fn lemma_attribute_lines_in_order(
    attributes: Seq<Attribute>,
    first: Seq<Seq<char>>,
    rest: Seq<Seq<char>>,
)
    ensures
        attribute_lines(attributes, first + rest) == attribute_lines(attributes, first)
            + attribute_lines(attributes, rest),
    decreases rest.len(),
{
    if rest.len() == 0 {
        assert(first + rest == first);
        assert(attribute_lines(attributes, first) + Seq::<char>::empty() == attribute_lines(
            attributes,
            first,
        ));
    } else {
        assert((first + rest).drop_last() == first + rest.drop_last());
        assert((first + rest).last() == rest.last());
        lemma_attribute_lines_in_order(attributes, first, rest.drop_last());
        let a = attribute_lines(attributes, first);
        let b = attribute_lines(attributes, rest.drop_last());
        match lookup(attributes, rest.last()) {
            Some(value) => {
                assert((a + b) + value.push('\n') == a + (b + value.push('\n')));
            },
            None => {},
        }
    }
}

/// Attribute extraction emits nothing for names that the element does not
/// have.
pub proof fn lemma_absent_attributes_emit_nothing(attributes: Seq<Attribute>, names: Seq<Seq<char>>)
    requires
        forall|i: int| 0 <= i < names.len() ==> lookup(attributes, #[trigger] names[i]) is None,
    ensures
        attribute_lines(attributes, names) == Seq::<char>::empty(),
    decreases names.len(),
{
    if names.len() > 0 {
        assert forall|i: int| 0 <= i < names.drop_last().len() implies lookup(
            attributes,
            #[trigger] names.drop_last()[i],
        ) is None by {
            assert(names.drop_last()[i] == names[i]);
        }
        lemma_absent_attributes_emit_nothing(attributes, names.drop_last());
        assert(names.last() == names[names.len() - 1]);
    }
}

} // verus!
