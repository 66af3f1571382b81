use vstd::prelude::*;

verus! {

/// The information carried by one element: its name, the text right after its
/// opening tag, and its attributes.
#[derive(Debug, PartialEq, Eq)]
pub struct Tag {
    pub element: String,
    pub inner: Option<String>,
    pub attributes: Option<Vec<(String, Vec<String>)>>,
}

/// The mathematical value of an attribute list: each key with its values.
pub open spec fn attributes_view(a: Seq<(String, Vec<String>)>) -> Seq<(Seq<char>, Seq<Seq<char>>)> {
    a.map_values(|p: (String, Vec<String>)| (p.0@, p.1@.map_values(|v: String| v@)))
}

/// The mathematical value of a [`Tag`].
pub struct TagView {
    pub element: Seq<char>,
    pub inner: Option<Seq<char>>,
    pub attributes: Option<Seq<(Seq<char>, Seq<Seq<char>>)>>,
}

impl View for Tag {
    type V = TagView;

    open spec fn view(&self) -> TagView {
        TagView {
            element: self.element@,
            inner: match self.inner {
                Some(t) => Some(t@),
                None => None,
            },
            attributes: match self.attributes {
                Some(a) => Some(attributes_view(a@)),
                None => None,
            },
        }
    }
}

} // verus!
