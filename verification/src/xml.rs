//! The parsed comment of a declaration of the second corpus.
//!
//! The comment arrives as XML. Its nodes are held in document order, each
//! with its depth, which is all that it takes to find the children and the
//! descendants of a node: the nodes that follow it for as long as they lie
//! deeper than it.

use crate::text::str_eq;
use vstd::prelude::*;

verus! {

/// What a node is, with what the renderer reads of it.
#[derive(Debug)]
pub enum XmlKind {
    /// An element: the local part of its tag name, and the text of its first
    /// child where that child is a text node.
    Element { name: String, text: Option<String> },
    /// A text node.
    Text(String),
    /// Any other node: a comment or a processing instruction.
    Other,
}

/// A node of the comment, at its depth below the top of the document.
#[derive(Debug)]
pub struct XmlNode {
    pub depth: usize,
    pub kind: XmlKind,
}

/// What an [`XmlKind`] stands for.
pub enum KindModel {
    Element { name: Seq<char>, text: Option<Seq<char>> },
    Text(Seq<char>),
    Other,
}

/// What an [`XmlNode`] stands for.
pub struct NodeModel {
    pub depth: nat,
    pub kind: KindModel,
}

impl View for XmlKind {
    type V = KindModel;

    open spec fn view(&self) -> KindModel {
        match *self {
            XmlKind::Element { name, text } => KindModel::Element {
                name: name@,
                text: match text {
                    Some(t) => Some(t@),
                    None => None,
                },
            },
            XmlKind::Text(t) => KindModel::Text(t@),
            XmlKind::Other => KindModel::Other,
        }
    }
}

impl View for XmlNode {
    type V = NodeModel;

    open spec fn view(&self) -> NodeModel {
        NodeModel { depth: self.depth as nat, kind: self.kind@ }
    }
}

impl DeepView for XmlNode {
    type V = NodeModel;

    open spec fn deep_view(&self) -> NodeModel {
        self@
    }
}

#[verifier::external_type_specification]
#[verifier::external_body]
pub struct ExXmlError(roxmltree::Error);

/// The nodes that `roxmltree` finds in a text, from the root element on and in
/// document order; nothing where it refuses the text.
pub uninterp spec fn parsed_nodes(xml: Seq<char>) -> Option<Seq<NodeModel>>;

/// `Document::parse`, and then of each node that `descendants` of
/// `root_element` yields: the number of its `ancestors`, its `node_type`, the
/// `name` of its `tag_name` and its `text`. The crate's error is handed on as
/// it is.
#[verifier::external_body]
pub(crate) fn parse_nodes(xml: &str) -> (parsed: Result<Vec<XmlNode>, roxmltree::Error>)
    ensures
        match parsed {
            Ok(nodes) => parsed_nodes(xml@) == Some(nodes.deep_view()),
            Err(_) => parsed_nodes(xml@) is None,
        },
{
    let doc = roxmltree::Document::parse(xml)?;
    Ok(doc.root_element().descendants().map(|n| XmlNode {
        depth: n.ancestors().count(),
        kind: match n.node_type() {
            roxmltree::NodeType::Element => XmlKind::Element {
                name: n.tag_name().name().to_owned(),
                text: n.text().map(str::to_owned),
            },
            roxmltree::NodeType::Text => XmlKind::Text(n.text().unwrap_or_default().to_owned()),
            roxmltree::NodeType::Root => XmlKind::Other,
            roxmltree::NodeType::PI => XmlKind::Other,
            roxmltree::NodeType::Comment => XmlKind::Other,
        },
    }).collect())
}

/// Whether `node` is an element whose tag has the local name `name`.
pub fn node_has_tag(node: &XmlNode, name: &str) -> (tagged: bool)
    ensures
        tagged == has_tag(node@, name@),
{
    match &node.kind {
        XmlKind::Element { name: own, .. } => str_eq(own.as_str(), name),
        _ => false,
    }
}

/// Whether `node` is an element whose tag has the local name `name`.
pub open spec fn has_tag(node: NodeModel, name: Seq<char>) -> bool {
    node.kind matches KindModel::Element { name: n, .. } && n == name
}

/// The text of `node` as an element or a text node has it.
pub open spec fn text_of(node: NodeModel) -> Option<Seq<char>> {
    match node.kind {
        KindModel::Element { text, .. } => text,
        KindModel::Text(t) => Some(t),
        KindModel::Other => None,
    }
}

/// The children of `parent` that stand at `j` or later, in document order.
pub open spec fn children_from(nodes: Seq<NodeModel>, parent: int, j: int) -> Seq<int>
    decreases nodes.len() - j,
{
    if j < 0 || j >= nodes.len() || nodes[j].depth <= nodes[parent].depth {
        Seq::empty()
    } else if nodes[j].depth == nodes[parent].depth + 1 {
        seq![j] + children_from(nodes, parent, j + 1)
    } else {
        children_from(nodes, parent, j + 1)
    }
}

/// The children of `parent`, in document order.
pub open spec fn children(nodes: Seq<NodeModel>, parent: int) -> Seq<int> {
    children_from(nodes, parent, parent + 1)
}

/// The descendants of `top` that stand at `j` or later, in document order.
pub open spec fn descendants_from(nodes: Seq<NodeModel>, top: int, j: int) -> Seq<int>
    decreases nodes.len() - j,
{
    if j < 0 || j >= nodes.len() || nodes[j].depth <= nodes[top].depth {
        Seq::empty()
    } else {
        seq![j] + descendants_from(nodes, top, j + 1)
    }
}

/// `top` and its descendants, in document order.
pub open spec fn descendants(nodes: Seq<NodeModel>, top: int) -> Seq<int> {
    seq![top] + descendants_from(nodes, top, top + 1)
}

/// Every index in `ids` is that of a node after `floor`.
pub open spec fn all_within(ids: Seq<int>, floor: int, len: int) -> bool {
    forall|k: int| 0 <= k < ids.len() ==> floor < #[trigger] ids[k] < len
}

/// What a vector of indices stands for.
pub open spec fn indices(v: Seq<usize>) -> Seq<int> {
    Seq::new(v.len(), |k: int| v[k] as int)
}

/// The children of node `parent`, in document order.
pub fn children_of(nodes: &Vec<XmlNode>, parent: usize) -> (found: Vec<usize>)
    requires
        parent < nodes.len(),
    ensures
        indices(found@) == children(nodes.deep_view(), parent as int),
        all_within(indices(found@), parent as int, nodes.len() as int),
{
    let ghost model = nodes.deep_view();
    let mut found: Vec<usize> = Vec::new();
    let mut j: usize = parent + 1;
    while j < nodes.len() && nodes[j].depth > nodes[parent].depth
        invariant
            parent < j <= nodes.len(),
            model == nodes.deep_view(),
            indices(found@) + children_from(model, parent as int, j as int) == children(
                model,
                parent as int,
            ),
            all_within(indices(found@), parent as int, j as int),
        decreases nodes.len() - j,
    {
        assert(model[j as int].depth == nodes[j as int].depth);
        assert(model[parent as int].depth == nodes[parent as int].depth);
        if nodes[j].depth - nodes[parent].depth == 1 {
            let ghost before = indices(found@);
            found.push(j);
            assert(indices(found@) == before + seq![j as int]);
            assert(before + seq![j as int] + children_from(model, parent as int, j + 1) == before
                + (seq![j as int] + children_from(model, parent as int, j + 1)));
        }
        j = j + 1;
    }
    proof {
        if j < nodes.len() {
            assert(model[j as int].depth == nodes[j as int].depth);
            assert(model[parent as int].depth == nodes[parent as int].depth);
        }
        assert(children_from(model, parent as int, j as int) == Seq::<int>::empty());
    }
    found
}

/// Node `top` and its descendants, in document order.
pub fn descendants_of(nodes: &Vec<XmlNode>, top: usize) -> (found: Vec<usize>)
    requires
        top < nodes.len(),
    ensures
        indices(found@) == descendants(nodes.deep_view(), top as int),
        all_within(indices(found@), top as int - 1, nodes.len() as int),
{
    let ghost model = nodes.deep_view();
    let mut found: Vec<usize> = Vec::new();
    found.push(top);
    assert(indices(found@) == seq![top as int]);
    let mut j: usize = top + 1;
    while j < nodes.len() && nodes[j].depth > nodes[top].depth
        invariant
            top < j <= nodes.len(),
            model == nodes.deep_view(),
            indices(found@) + descendants_from(model, top as int, j as int) == descendants(
                model,
                top as int,
            ),
            all_within(indices(found@), top as int - 1, j as int),
        decreases nodes.len() - j,
    {
        assert(model[j as int].depth == nodes[j as int].depth);
        assert(model[top as int].depth == nodes[top as int].depth);
        let ghost before = indices(found@);
        found.push(j);
        assert(indices(found@) == before + seq![j as int]);
        assert(before + seq![j as int] + descendants_from(model, top as int, j + 1) == before + (
        seq![j as int] + descendants_from(model, top as int, j + 1)));
        j = j + 1;
    }
    proof {
        if j < nodes.len() {
            assert(model[j as int].depth == nodes[j as int].depth);
            assert(model[top as int].depth == nodes[top as int].depth);
        }
        assert(descendants_from(model, top as int, j as int) == Seq::<int>::empty());
    }
    found
}

} // verus!
