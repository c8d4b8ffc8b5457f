//! The document tree: an arena of nodes addressed by stable indices.
//!
//! A node keeps the index of its parent and the indices of its children in
//! document order. A node is created after its parent, so every link from a
//! parent to a child leads to a larger index; a tree built this way cannot
//! hold a cycle, and a walk over it ends. Detaching a node unlinks it from
//! its parent without touching its subtree, and indices stay valid for the
//! life of the document.

use vstd::prelude::*;
use crate::strings::str_eq;

verus! {

/// One attribute of an element: its namespace, which is empty for all but a
/// few attributes of foreign elements, its local name and its value.
#[derive(Debug)]
pub struct Attribute {
    pub namespace: String,
    pub name: String,
    pub value: String,
}

/// What a node is, with the content that belongs to its kind.
#[derive(Debug)]
pub enum NodeData {
    /// The root container of a parsed document.
    Document,
    /// A document type declaration, with its name.
    Doctype(String),
    /// An element, with its namespace, its tag name and its attributes.
    Element { namespace: String, tag: String, attributes: Vec<Attribute> },
    /// A run of text.
    Text(String),
    /// A comment.
    Comment(String),
    /// A processing instruction.
    ProcessingInstruction { target: String, data: String },
}

/// The namespace of HTML elements.
pub const HTML_NAMESPACE: &'static str = "http://www.w3.org/1999/xhtml";

/// The namespace of HTML elements, as contracts see it.
pub open spec fn html_namespace() -> Seq<char> {
    "http://www.w3.org/1999/xhtml"@
}

/// Tests for the namespace of HTML elements.
pub fn is_html_namespace(namespace: &str) -> (r: bool)
    ensures
        r == (namespace@ == html_namespace()),
{
    str_eq(namespace, "http://www.w3.org/1999/xhtml")
}

/// An attribute as contracts see it: the characters of its namespace, its
/// name and its value.
pub ghost struct AttributeView {
    pub namespace: Seq<char>,
    pub name: Seq<char>,
    pub value: Seq<char>,
}

/// The content of a node as contracts see it.
pub ghost enum NodeDataView {
    Document,
    Doctype(Seq<char>),
    Element { namespace: Seq<char>, tag: Seq<char>, attributes: Seq<AttributeView> },
    Text(Seq<char>),
    Comment(Seq<char>),
    ProcessingInstruction { target: Seq<char>, data: Seq<char> },
}

impl View for Attribute {
    type V = AttributeView;

    open spec fn view(&self) -> AttributeView {
        AttributeView { namespace: self.namespace@, name: self.name@, value: self.value@ }
    }
}

/// The views of a list of attributes, in order.
pub open spec fn attribute_views(attributes: Seq<Attribute>) -> Seq<AttributeView> {
    attributes.map_values(|a: Attribute| a@)
}

impl View for NodeData {
    type V = NodeDataView;

    open spec fn view(&self) -> NodeDataView {
        match *self {
            NodeData::Document => NodeDataView::Document,
            NodeData::Doctype(name) => NodeDataView::Doctype(name@),
            NodeData::Element { namespace, tag, attributes } => NodeDataView::Element {
                namespace: namespace@,
                tag: tag@,
                attributes: attribute_views(attributes@),
            },
            NodeData::Text(text) => NodeDataView::Text(text@),
            NodeData::Comment(text) => NodeDataView::Comment(text@),
            NodeData::ProcessingInstruction { target, data } => NodeDataView::ProcessingInstruction {
                target: target@,
                data: data@,
            },
        }
    }
}

/// Whether a node of this content can have children: the document container
/// and elements can.
pub open spec fn takes_children(data: NodeData) -> bool {
    data is Element || data is Document
}

/// A node of the arena: its content and its links.
#[derive(Debug)]
pub struct Node {
    pub(crate) data: NodeData,
    pub(crate) parent: Option<usize>,
    pub(crate) children: Vec<usize>,
}

/// A document: the arena of its nodes. Node `0` is the root.
#[derive(Debug)]
pub struct Document {
    pub(crate) nodes: Vec<Node>,
}

impl Document {
    /// The number of nodes ever created in this document.
    pub open(crate) spec fn len(&self) -> nat {
        self.nodes@.len()
    }

    /// Node `id` with its content and links.
    pub open(crate) spec fn node(&self, id: int) -> Node {
        self.nodes@[id]
    }

    /// The content of node `id`.
    pub open(crate) spec fn data(&self, id: int) -> NodeData {
        self.nodes@[id].data
    }

    /// The parent of node `id`, if it is attached to one.
    pub open(crate) spec fn parent(&self, id: int) -> Option<usize> {
        self.nodes@[id].parent
    }

    /// The children of node `id`, in document order.
    pub open(crate) spec fn children(&self, id: int) -> Seq<usize> {
        self.nodes@[id].children@
    }

    /// Every child lies after its parent in the arena and names it as parent.
    pub open(crate) spec fn links_down(&self) -> bool {
        forall|p: int, k: int|
            0 <= p < self.len() && 0 <= k < self.children(p).len() ==> p < (
            #[trigger] self.children(p)[k]) < self.len() && self.parent(
                self.children(p)[k] as int,
            ) == Some(p as usize)
    }

    /// The children of one parent stand in the order of their creation, so
    /// none occurs twice.
    pub open(crate) spec fn children_increasing(&self) -> bool {
        forall|p: int, j: int, k: int|
            0 <= p < self.len() && 0 <= j < k < self.children(p).len() ==> (
            #[trigger] self.children(p)[j]) < (#[trigger] self.children(p)[k])
    }

    /// Every node that names a parent is among that parent's children.
    pub open(crate) spec fn links_up(&self) -> bool {
        forall|c: int|
            0 <= c < self.len() ==> match #[trigger] self.parent(c) {
                Some(p) => p < c && self.children(p as int).contains(c as usize),
                None => true,
            }
    }

    /// The root alone is a document container, and only it and the elements
    /// have children.
    pub open(crate) spec fn kinds_fit(&self) -> bool {
        forall|i: int|
            0 <= i < self.len() ==> {
                &&& (i > 0 ==> !(#[trigger] self.data(i) is Document))
                &&& (self.children(i).len() > 0 ==> takes_children(self.data(i)))
            }
    }

    /// Whether every node is of the same kind in both documents, as far as
    /// the invariant looks at the kind.
    pub open(crate) spec fn same_kinds(&self, other: &Document) -> bool {
        forall|i: int|
            0 <= i < self.len() ==> (#[trigger] self.data(i) is Document) == (other.data(
                i,
            ) is Document) && (self.data(i) is Element) == (other.data(i) is Element)
    }

    /// The invariant of the tree: a root that is the document container and
    /// has no parent, children under the root and under elements only, and
    /// parent and child links that agree, each child after its parent.
    pub open(crate) spec fn wf(&self) -> bool {
        &&& self.len() >= 1
        &&& self.parent(0) is None
        &&& self.data(0) is Document
        &&& self.kinds_fit()
        &&& self.links_down()
        &&& self.children_increasing()
        &&& self.links_up()
    }

    /// Whether `data` can become a child of `parent`: the parent is the root
    /// or an element of the document, and the child is no document container.
    pub open(crate) spec fn accepts(&self, parent: int, data: NodeData) -> bool {
        0 <= parent < self.len() && takes_children(self.data(parent)) && !(data is Document)
    }

    /// The nodes below the children of `id` from position `k` on, each child
    /// followed by its own descendants: document order.
    pub open(crate) spec fn order_from(&self, id: int, k: int) -> Seq<usize>
        decreases self.len() - id, self.children(id).len() - k,
    {
        if 0 <= id < self.len() && 0 <= k < self.children(id).len() {
            let c = self.children(id)[k] as int;
            if id < c < self.len() {
                seq![c as usize] + self.order_from(c, 0) + self.order_from(id, k + 1)
            } else {
                self.order_from(id, k + 1)
            }
        } else {
            Seq::empty()
        }
    }

    /// Node `id` followed by all its descendants, in document order. Empty
    /// when `id` is no node of the document.
    pub open(crate) spec fn subtree(&self, id: int) -> Seq<usize> {
        if 0 <= id < self.len() {
            seq![id as usize] + self.order_from(id, 0)
        } else {
            Seq::empty()
        }
    }

    /// Whether two documents have the same nodes with the same links.
    pub open(crate) spec fn same_links(&self, other: &Document) -> bool {
        &&& self.len() == other.len()
        &&& forall|i: int| 0 <= i < self.len() ==> #[trigger] self.parent(i) == other.parent(i)
        &&& forall|i: int|
            0 <= i < self.len() ==> #[trigger] self.children(i) == other.children(i)
    }

    /// The content of an element with the value of attribute `k` replaced;
    /// any other content, and an element without an attribute `k`, as it is.
    pub open spec fn with_value(data: NodeDataView, k: int, value: Seq<char>) -> NodeDataView {
        match data {
            NodeDataView::Element { namespace, tag, attributes } => if 0 <= k < attributes.len() {
                NodeDataView::Element {
                    namespace,
                    tag,
                    attributes: attributes.update(
                        k,
                        AttributeView {
                            namespace: attributes[k].namespace,
                            name: attributes[k].name,
                            value,
                        },
                    ),
                }
            } else {
                data
            },
            _ => data,
        }
    }

    /// A document that holds only its root.
    pub fn new() -> (doc: Document)
        ensures
            doc.wf(),
            doc.len() == 1,
            doc.data(0) is Document,
            doc.children(0) == Seq::<usize>::empty(),
    {
        let mut nodes: Vec<Node> = Vec::new();
        nodes.push(Node { data: NodeData::Document, parent: None, children: Vec::new() });
        Document { nodes }
    }

    /// The number of nodes ever created, attached or not.
    pub fn node_count(&self) -> (n: usize)
        ensures
            n == self.len(),
    {
        self.nodes.len()
    }

    /// The content of a node, or `None` when `id` is no node of the document.
    pub fn get(&self, id: usize) -> (r: Option<&NodeData>)
        ensures
            id < self.len() ==> r == Some(&self.data(id as int)),
            id >= self.len() ==> r is None,
    {
        if id < self.nodes.len() {
            Some(&self.nodes[id].data)
        } else {
            None
        }
    }

    /// The parent of a node; `None` for the root, for a detached node and
    /// for an index that is no node.
    pub fn parent_of(&self, id: usize) -> (r: Option<usize>)
        ensures
            id < self.len() ==> r == self.parent(id as int),
            id >= self.len() ==> r is None,
    {
        if id < self.nodes.len() {
            self.nodes[id].parent
        } else {
            None
        }
    }

    /// The children of a node in document order; empty for an index that is
    /// no node.
    pub fn children_of(&self, id: usize) -> (r: Vec<usize>)
        ensures
            id < self.len() ==> r@ == self.children(id as int),
            id >= self.len() ==> r@ == Seq::<usize>::empty(),
    {
        let mut out: Vec<usize> = Vec::new();
        if id < self.nodes.len() {
            let n: usize = self.nodes[id].children.len();
            let mut k: usize = 0;
            while k < n
                invariant
                    id < self.len(),
                    n == self.children(id as int).len(),
                    k <= n,
                    out@ == self.children(id as int).take(k as int),
                decreases n - k,
            {
                out.push(self.nodes[id].children[k]);
                k = k + 1;
            }
        }
        out
    }

    /// Appends to `out` the descendants of `id`, in document order.
    fn collect_below(&self, id: usize, out: &mut Vec<usize>)
        requires
            self.wf(),
            id < self.len(),
        ensures
            final(out)@ == old(out)@ + self.order_from(id as int, 0),
        decreases self.len() - id,
    {
        let ghost start = out@;
        let n: usize = self.nodes[id].children.len();
        let mut k: usize = 0;
        while k < n
            invariant
                self.wf(),
                id < self.len(),
                n == self.children(id as int).len(),
                k <= n,
                out@ + self.order_from(id as int, k as int) == start + self.order_from(
                    id as int,
                    0,
                ),
            decreases n - k,
        {
            let c: usize = self.nodes[id].children[k];
            let ghost before = out@;
            assert(c == self.children(id as int)[k as int]);
            out.push(c);
            self.collect_below(c, out);
            proof {
                assert(self.order_from(id as int, k as int) == seq![c] + self.order_from(
                    c as int,
                    0,
                ) + self.order_from(id as int, k + 1));
                assert(out@ + self.order_from(id as int, k + 1) =~= before + self.order_from(
                    id as int,
                    k as int,
                ));
            }
            k = k + 1;
        }
        assert(self.order_from(id as int, n as int) == Seq::<usize>::empty());
        assert(out@ =~= out@ + Seq::<usize>::empty());
    }

    /// Node `id` and everything below it, in document order; empty when `id`
    /// is no node of the document.
    pub fn descendants(&self, id: usize) -> (r: Vec<usize>)
        requires
            self.wf(),
        ensures
            r@ == self.subtree(id as int),
    {
        let mut out: Vec<usize> = Vec::new();
        if id < self.nodes.len() {
            out.push(id);
            self.collect_below(id, &mut out);
        }
        out
    }

    /// Adds a node as the last child of `parent` and returns its index.
    /// Returns `None`, and leaves the document as it is, when `parent` is
    /// neither the root nor an element of the document, or when the new node
    /// would be a document container.
    pub fn append_child(&mut self, parent: usize, data: NodeData) -> (r: Option<usize>)
        requires
            old(self).wf(),
        ensures
            final(self).wf(),
            !old(self).accepts(parent as int, data) ==> r is None && *final(self) == *old(self),
            old(self).accepts(parent as int, data) ==> {
                &&& r matches Some(id)
                &&& id == old(self).len()
                &&& final(self).len() == old(self).len() + 1
                &&& final(self).data(id as int) == data
                &&& final(self).parent(id as int) == Some(parent)
                &&& final(self).children(id as int) == Seq::<usize>::empty()
                &&& final(self).children(parent as int) == old(self).children(parent as int).push(id)
                &&& final(self).data(parent as int) == old(self).data(parent as int)
                &&& final(self).parent(parent as int) == old(self).parent(parent as int)
                &&& forall|i: int|
                    0 <= i < old(self).len() && i != parent ==> final(self).node(i) == old(
                        self,
                    ).node(i)
            },
    {
        if parent >= self.nodes.len() {
            return None;
        }
        match &self.nodes[parent].data {
            NodeData::Element { tag, attributes, .. } => {},
            NodeData::Document => {},
            _ => {
                return None;
            },
        }
        match &data {
            NodeData::Document => {
                return None;
            },
            _ => {},
        }
        let id: usize = self.nodes.len();
        self.nodes.push(Node { data, parent: Some(parent), children: Vec::new() });
        self.nodes[parent].children.push(id);
        proof {
            let before = *old(self);
            let after = *self;
            assert(after.children(parent as int) == before.children(parent as int).push(id));
            assert forall|i: int| 0 <= i < after.len() implies {
                &&& (i > 0 ==> !(#[trigger] after.data(i) is Document))
                &&& (after.children(i).len() > 0 ==> takes_children(after.data(i)))
            } by {
                if i != id as int && i != parent as int {
                    assert(after.node(i) == before.node(i));
                    assert(before.data(i) == after.data(i));
                } else if i == parent as int {
                    assert(before.data(i) == after.data(i));
                }
            }
            assert(after.kinds_fit());
            assert forall|p: int, k: int|
                0 <= p < after.len() && 0 <= k < after.children(p).len() implies p < (
            #[trigger] after.children(p)[k]) < after.len() && after.parent(
                after.children(p)[k] as int,
            ) == Some(p as usize) by {
                if p == parent as int {
                    if k < before.children(p).len() {
                        assert(after.children(p)[k] == before.children(p)[k]);
                    }
                } else if p < before.len() {
                    assert(after.children(p)[k] == before.children(p)[k]);
                }
            }
            assert forall|p: int, j: int, k: int|
                0 <= p < after.len() && 0 <= j < k < after.children(p).len() implies (
            #[trigger] after.children(p)[j]) < (#[trigger] after.children(p)[k]) by {
                if p == parent as int {
                    assert(after.children(p)[j] == before.children(p)[j]);
                    if k < before.children(p).len() {
                        assert(after.children(p)[k] == before.children(p)[k]);
                    }
                } else if p < before.len() {
                    assert(after.children(p)[j] == before.children(p)[j]);
                    assert(after.children(p)[k] == before.children(p)[k]);
                }
            }
            assert forall|c: int| 0 <= c < after.len() implies match #[trigger] after.parent(c) {
                Some(p) => p < c && after.children(p as int).contains(c as usize),
                None => true,
            } by {
                if c == id as int {
                    assert(after.children(parent as int)[before.children(parent as int).len() as int]
                        == id);
                } else {
                    assert(after.parent(c) == before.parent(c));
                    match before.parent(c) {
                        Some(p) => {
                            let k = choose|k: int|
                                0 <= k < before.children(p as int).len() && before.children(
                                    p as int,
                                )[k] == c as usize;
                            assert(after.children(p as int)[k] == c as usize);
                        },
                        None => {},
                    }
                }
            }
        }
        Some(id)
    }

    /// Replaces the value of attribute `k` of element `id`. Changes nothing
    /// when `id` is no element of the document or has no attribute `k`.
    pub fn set_attribute_value(&mut self, id: usize, k: usize, value: String)
        requires
            old(self).wf(),
        ensures
            final(self).wf(),
            final(self).same_links(old(self)),
            id < old(self).len() ==> final(self).data(id as int)@ == Self::with_value(
                old(self).data(id as int)@,
                k as int,
                value@,
            ),
            forall|i: int|
                0 <= i < old(self).len() && i != id ==> final(self).node(i) == old(self).node(i),
    {
        if id >= self.nodes.len() {
            return ;
        }
        let ghost before = *self;
        match &mut self.nodes[id].data {
            NodeData::Element { tag, attributes, .. } => {
                if k < attributes.len() {
                    let ghost was = attributes@;
                    attributes[k].value = value;
                    assert(attribute_views(attributes@) =~= attribute_views(was).update(
                        k as int,
                        AttributeView {
                            namespace: was[k as int].namespace@,
                            name: was[k as int].name@,
                            value: value@,
                        },
                    ));
                }
            },
            _ => {},
        }
        proof {
            assert forall|i: int| 0 <= i < self.len() implies (#[trigger] self.data(i) is Document)
                == (before.data(i) is Document) && (self.data(i) is Element) == (before.data(
                i,
            ) is Element) by {
                if i != id as int {
                    assert(self.node(i) == before.node(i));
                }
            }
            lemma_wf_same_links(&before, self);
        }
    }

    /// Detaches a node from its parent. The node keeps its subtree and its
    /// index, and is no longer reached from the root. Detaching the root, a
    /// node that is already detached, or an index that is no node changes
    /// nothing.
    pub fn detach(&mut self, id: usize)
        requires
            old(self).wf(),
        ensures
            final(self).wf(),
            final(self).len() == old(self).len(),
            id >= old(self).len() || old(self).parent(id as int) is None ==> *final(self) == *old(
                self,
            ),
            id < old(self).len() ==> match old(self).parent(id as int) {
                Some(p) => {
                    &&& final(self).parent(id as int) is None
                    &&& final(self).data(id as int) == old(self).data(id as int)
                    &&& final(self).children(id as int) == old(self).children(id as int)
                    &&& final(self).parent(p as int) == old(self).parent(p as int)
                    &&& final(self).data(p as int) == old(self).data(p as int)
                    &&& final(self).children(p as int) == old(self).children(p as int).remove(
                        old(self).children(p as int).index_of(id),
                    )
                    &&& forall|i: int|
                        0 <= i < old(self).len() && i != id && i != p ==> final(self).node(i)
                            == old(self).node(i)
                },
                None => true,
            },
    {
        if id >= self.nodes.len() {
            return ;
        }
        let p: usize = match self.nodes[id].parent {
            Some(p) => p,
            None => {
                return ;
            },
        };
        assert(self.children(p as int).contains(id));
        let n: usize = self.nodes[p].children.len();
        let mut k: usize = 0;
        while k < n && self.nodes[p].children[k] != id
            invariant
                *self == *old(self),
                p < self.len(),
                n == self.children(p as int).len(),
                k <= n,
                forall|j: int| 0 <= j < k ==> self.children(p as int)[j] != id,
            decreases n - k,
        {
            k = k + 1;
        }
        assert(k < n);
        self.nodes[p].children.remove(k);
        self.nodes[id].parent = None;
        proof {
            let before = *old(self);
            let after = *self;
            let kids = before.children(p as int);
            assert forall|i: int| 0 <= i < after.len() implies {
                &&& (i > 0 ==> !(#[trigger] after.data(i) is Document))
                &&& (after.children(i).len() > 0 ==> takes_children(after.data(i)))
            } by {
                assert(after.data(i) == before.data(i));
                if i != p as int {
                    assert(after.children(i) == before.children(i));
                } else {
                    assert(before.children(i).len() > 0);
                }
            }
            assert(after.kinds_fit());
            assert(kids.index_of(id) == k as int) by {
                let j = kids.index_of(id);
                assert(kids[j] == id);
                if j < k {
                } else if j > k {
                    assert(kids[k as int] < kids[j]);
                }
            }
            assert(after.children(p as int) == kids.remove(k as int));
            assert forall|q: int, j: int|
                0 <= q < after.len() && 0 <= j < after.children(q).len() implies q < (
            #[trigger] after.children(q)[j]) < after.len() && after.parent(
                after.children(q)[j] as int,
            ) == Some(q as usize) by {
                if q == p as int {
                    if j < k {
                        assert(after.children(q)[j] == kids[j]);
                        assert(kids[j] < kids[k as int]);
                    } else {
                        assert(after.children(q)[j] == kids[j + 1]);
                        assert(kids[k as int] < kids[j + 1]);
                    }
                } else {
                    assert(after.children(q)[j] == before.children(q)[j]);
                    assert(before.parent(before.children(q)[j] as int) == Some(q as usize));
                }
            }
            assert forall|q: int, i: int, j: int|
                0 <= q < after.len() && 0 <= i < j < after.children(q).len() implies (
            #[trigger] after.children(q)[i]) < (#[trigger] after.children(q)[j]) by {
                if q == p as int {
                    let i0 = if i < k { i } else { i + 1 };
                    let j0 = if j < k { j } else { j + 1 };
                    assert(after.children(q)[i] == kids[i0]);
                    assert(after.children(q)[j] == kids[j0]);
                } else {
                    assert(after.children(q)[i] == before.children(q)[i]);
                    assert(after.children(q)[j] == before.children(q)[j]);
                }
            }
            assert forall|c: int| 0 <= c < after.len() implies match #[trigger] after.parent(c) {
                Some(q) => q < c && after.children(q as int).contains(c as usize),
                None => true,
            } by {
                if c != id as int {
                    assert(after.parent(c) == before.parent(c));
                    match before.parent(c) {
                        Some(q) => {
                            let i = choose|i: int|
                                0 <= i < before.children(q as int).len() && before.children(
                                    q as int,
                                )[i] == c as usize;
                            if q == p {
                                assert(i != k);
                                let i1 = if i < k { i } else { i - 1 };
                                assert(after.children(q as int)[i1] == c as usize);
                            } else {
                                assert(after.children(q as int)[i] == c as usize);
                            }
                        },
                        None => {},
                    }
                }
            }
        }
    }
}

/// Well-formedness speaks of the links alone: a document with the links of a
/// well-formed document is well-formed.
pub proof fn lemma_wf_same_links(a: &Document, b: &Document)
    requires
        a.wf(),
        b.same_links(a),
        b.same_kinds(a),
    ensures
        b.wf(),
{
    assert forall|i: int| 0 <= i < b.len() implies {
        &&& (i > 0 ==> !(#[trigger] b.data(i) is Document))
        &&& (b.children(i).len() > 0 ==> takes_children(b.data(i)))
    } by {
        assert(b.children(i) == a.children(i));
        assert((b.data(i) is Document) == (a.data(i) is Document));
    }
    assert forall|p: int, k: int| 0 <= p < b.len() && 0 <= k < b.children(p).len() implies p < (
    #[trigger] b.children(p)[k]) < b.len() && b.parent(b.children(p)[k] as int) == Some(
        p as usize,
    ) by {
        assert(b.children(p) == a.children(p));
        let c = a.children(p)[k];
        assert(b.parent(c as int) == a.parent(c as int));
    }
    assert forall|p: int, j: int, k: int|
        0 <= p < b.len() && 0 <= j < k < b.children(p).len() implies (#[trigger] b.children(p)[j])
        < (#[trigger] b.children(p)[k]) by {
        assert(b.children(p) == a.children(p));
        assert(a.children(p)[j] < a.children(p)[k]);
    }
    assert forall|c: int| 0 <= c < b.len() implies match #[trigger] b.parent(c) {
        Some(p) => p < c && b.children(p as int).contains(c as usize),
        None => true,
    } by {
        assert(b.parent(c) == a.parent(c));
        match a.parent(c) {
            Some(p) => {
                assert(b.children(p as int) == a.children(p as int));
            },
            None => {},
        }
    }
}

/// In a well-formed document every node listed below `id` is a node of the
/// document, lies after `id`, and is attached to a parent.
pub proof fn lemma_order_attached(doc: &Document, id: int, k: int)
    requires
        doc.wf(),
    ensures
        forall|i: int|
            0 <= i < doc.order_from(id, k).len() ==> {
                let x = #[trigger] doc.order_from(id, k)[i];
                id < x < doc.len() && doc.parent(x as int) is Some
            },
    decreases doc.len() - id, doc.children(id).len() - k,
{
    if 0 <= id < doc.len() && 0 <= k < doc.children(id).len() {
        let c = doc.children(id)[k];
        lemma_order_attached(doc, c as int, 0);
        lemma_order_attached(doc, id, k + 1);
        let head = seq![c] + doc.order_from(c as int, 0);
        assert(doc.order_from(id, k) == head + doc.order_from(id, k + 1));
        assert forall|i: int| 0 <= i < doc.order_from(id, k).len() implies {
            let x = #[trigger] doc.order_from(id, k)[i];
            id < x < doc.len() && doc.parent(x as int) is Some
        } by {
            if i == 0 {
            } else if i < head.len() {
                assert(doc.order_from(id, k)[i] == doc.order_from(c as int, 0)[i - 1]);
            } else {
                assert(doc.order_from(id, k)[i] == doc.order_from(id, k + 1)[i - head.len()]);
            }
        }
    }
}

/// A node that has no parent is not reached from the root, unless it is the
/// root itself: once detached, a node and its subtree are out of the tree.
pub proof fn lemma_detached_unreachable(doc: &Document, id: usize)
    requires
        doc.wf(),
        id != 0,
        id >= doc.len() || doc.parent(id as int) is None,
    ensures
        !doc.subtree(0).contains(id),
{
    lemma_order_attached(doc, 0, 0);
    if doc.subtree(0).contains(id) {
        let i = choose|i: int| 0 <= i < doc.subtree(0).len() && doc.subtree(0)[i] == id;
        assert(i > 0);
        assert(doc.subtree(0)[i] == doc.order_from(0, 0)[i - 1]);
    }
}

/// The indices from `from` up to, but not including, `to`, in order.
pub open spec fn index_range(from: int, to: int) -> Seq<usize> {
    Seq::new((to - from) as nat, |i: int| (from + i) as usize)
}

/// The document order below a node depends on the nodes from it onwards
/// only: two documents that agree on them list the same nodes there.
pub proof fn lemma_order_frame(a: &Document, b: &Document, x: int, k: int)
    requires
        a.wf(),
        0 <= x < a.len(),
        0 <= k,
        b.len() >= a.len(),
        forall|i: int| x <= i < a.len() ==> #[trigger] b.node(i) == a.node(i),
    ensures
        b.order_from(x, k) == a.order_from(x, k),
    decreases a.len() - x, a.children(x).len() - k,
{
    assert(b.node(x) == a.node(x));
    if k < a.children(x).len() {
        let c = a.children(x)[k] as int;
        assert(x < c < a.len());
        lemma_order_frame(a, b, c, 0);
        lemma_order_frame(a, b, x, k + 1);
    }
}

/// A new last child comes, with what is below it, after the children before
/// it in document order.
pub proof fn lemma_order_appended(a: &Document, b: &Document, p: int, k: int)
    requires
        a.wf(),
        b.wf(),
        0 <= p < a.len(),
        b.len() >= a.len(),
        0 <= k <= a.children(p).len(),
        b.children(p).len() == a.children(p).len() + 1,
        b.children(p).take(a.children(p).len() as int) == a.children(p),
        forall|i: int| p < i < a.len() ==> #[trigger] b.node(i) == a.node(i),
    ensures
        b.order_from(p, k) == a.order_from(p, k) + seq![b.children(p).last()] + b.order_from(
            b.children(p).last() as int,
            0,
        ),
    decreases a.children(p).len() - k,
{
    let n = a.children(p).len() as int;
    let last = b.children(p).last();
    let below = b.order_from(last as int, 0);
    assert(b.children(p)[n] == last);
    if k == n {
        assert(a.order_from(p, k) == Seq::<usize>::empty());
        assert(b.order_from(p, k + 1) == Seq::<usize>::empty());
        assert(seq![last] + below + Seq::<usize>::empty() == Seq::<usize>::empty() + seq![last]
            + below);
    } else {
        let c = a.children(p)[k];
        assert(b.children(p).take(n)[k] == b.children(p)[k]);
        assert(b.children(p)[k] == c);
        assert(p < c < a.len());
        lemma_order_frame(a, b, c as int, 0);
        lemma_order_appended(a, b, p, k + 1);
        let x = seq![c] + a.order_from(c as int, 0);
        let y = a.order_from(p, k + 1);
        assert(x + (y + seq![last] + below) == (x + y) + seq![last] + below);
    }
}

/// Whether `part` can be had from `whole` by leaving items out: the items of
/// `part` occur in `whole`, in the same order.
pub open spec fn is_subsequence<T>(part: Seq<T>, whole: Seq<T>) -> bool
    decreases whole.len(),
{
    if part.len() == 0 {
        true
    } else if whole.len() == 0 {
        false
    } else if part.last() == whole.last() && is_subsequence(part.drop_last(), whole.drop_last()) {
        true
    } else {
        is_subsequence(part, whole.drop_last())
    }
}

/// Every item of a subsequence occurs in the whole.
pub proof fn lemma_subsequence_contained<T>(part: Seq<T>, whole: Seq<T>)
    requires
        is_subsequence(part, whole),
    ensures
        forall|i: int| 0 <= i < part.len() ==> whole.contains(#[trigger] part[i]),
    decreases whole.len(),
{
    if part.len() > 0 && whole.len() > 0 {
        let shorter = whole.drop_last();
        if part.last() == whole.last() && is_subsequence(part.drop_last(), shorter) {
            lemma_subsequence_contained(part.drop_last(), shorter);
            assert forall|i: int| 0 <= i < part.len() implies whole.contains(
                #[trigger] part[i],
            ) by {
                if i < part.len() - 1 {
                    assert(part.drop_last()[i] == part[i]);
                    let j = choose|j: int| 0 <= j < shorter.len() && shorter[j] == part[i];
                    assert(whole[j] == part[i]);
                } else {
                    assert(whole[whole.len() - 1] == part[i]);
                }
            }
        } else {
            lemma_subsequence_contained(part, shorter);
            assert forall|i: int| 0 <= i < part.len() implies whole.contains(
                #[trigger] part[i],
            ) by {
                let j = choose|j: int| 0 <= j < shorter.len() && shorter[j] == part[i];
                assert(whole[j] == part[i]);
            }
        }
    }
}

} // verus!
