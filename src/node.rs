use vstd::prelude::*;

use crate::tag::{Tag, TagView};

verus! {

/// One element of the document tree; it owns its children.
#[derive(Debug, PartialEq, Eq)]
pub struct Node {
    pub tag: Tag,
    pub child: ChildrenType,
}

/// The children of a node, by how many there are.
#[derive(Debug, PartialEq, Eq)]
pub enum ChildrenType {
    NoChildren,
    Child(Box<Node>),
    Children(Vec<Node>),
}

/// Which of the three forms a node's children take.
pub enum ChildrenShape {
    NoChildren,
    Child,
    Children,
}

/// The form that `n` children take: none, one, or a list of two or more.
pub open spec fn shape_for(n: nat) -> ChildrenShape {
    if n == 0 {
        ChildrenShape::NoChildren
    } else if n == 1 {
        ChildrenShape::Child
    } else {
        ChildrenShape::Children
    }
}

/// The form of the children held in `c`.
pub open spec fn shape_of(c: &ChildrenType) -> ChildrenShape {
    match c {
        ChildrenType::NoChildren => ChildrenShape::NoChildren,
        ChildrenType::Child(_) => ChildrenShape::Child,
        ChildrenType::Children(_) => ChildrenShape::Children,
    }
}

/// The mathematical value of a [`Node`]: its tag, the form its children
/// take, and its children in document order.
pub struct NodeView {
    pub tag: TagView,
    pub shape: ChildrenShape,
    pub children: Seq<NodeView>,
}

/// The views of the children held in `c`, in document order.
pub open spec fn children_view(c: &ChildrenType) -> Seq<NodeView>
    decreases c,
{
    match c {
        ChildrenType::NoChildren => Seq::empty(),
        ChildrenType::Child(b) => seq![node_view(&**b)],
        ChildrenType::Children(v) => Seq::new(
            v.len() as nat,
            |i: int|
                {
                    if 0 <= i < v.len() {
                        node_view(&v[i])
                    } else {
                        NodeView {
                            tag: crate::tag::TagView {
                                element: Seq::empty(),
                                inner: None,
                                attributes: None,
                            },
                            shape: ChildrenShape::NoChildren,
                            children: Seq::empty(),
                        }
                    }
                },
        ),
    }
}

/// The view of a node.
pub open spec fn node_view(n: &Node) -> NodeView
    decreases n,
{
    NodeView { tag: n.tag@, shape: shape_of(&n.child), children: children_view(&n.child) }
}

impl View for Node {
    type V = NodeView;

    open spec fn view(&self) -> NodeView {
        node_view(self)
    }
}

} // verus!
