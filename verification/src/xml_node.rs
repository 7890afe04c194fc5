use crate::text::str_eq;
use vstd::prelude::*;

verus! {

/// A namespace declared on an XML element: its prefix, if any, and its URI.
#[derive(Clone, Debug)]
pub struct XmlNamespace {
    pub name: Option<String>,
    pub uri: String,
}

/// An attribute of an XML element: the namespace its prefix names, if any, its local name and
/// its value.
#[derive(Clone, Debug)]
pub struct XmlAttribute {
    pub namespace: Option<String>,
    pub name: String,
    pub value: String,
}

/// An XML element as the E57 logic reads it: its local tag name, its attributes, the
/// namespaces in scope on it, the text of its first child where that
/// is text, and its child elements.
#[derive(Debug)]
pub struct XmlNode {
    pub tag: String,
    pub attributes: Vec<XmlAttribute>,
    pub namespaces: Vec<XmlNamespace>,
    pub text: Option<String>,
    pub children: Vec<XmlNode>,
}

/// The attribute has no namespace and the given name.
pub open spec fn is_plain(a: XmlAttribute, name: Seq<char>) -> bool {
    a.namespace is None && a.name@ == name
}

impl XmlNode {
    /// Index of the first child element with the given tag name.
    pub open spec fn first_child(&self, tag: Seq<char>, i: int) -> bool {
        &&& 0 <= i < self.children@.len()
        &&& self.children@[i].tag@ == tag
        &&& forall|j: int| 0 <= j < i ==> (#[trigger] self.children@[j]).tag@ != tag
    }
}

impl XmlNode {
    /// The first child element with the given tag name.
    pub open spec fn child_of(&self, tag: Seq<char>) -> Option<XmlNode> {
        if exists|i: int| 0 <= i < self.children@.len() && #[trigger] self.children@[i].tag@ == tag {
            Some(self.children@[choose|i: int| self.first_child(tag, i)])
        } else {
            None
        }
    }

    /// Index `i` holds the first attribute without a namespace with the given name.
    pub open spec fn first_attribute(&self, name: Seq<char>, i: int) -> bool {
        &&& 0 <= i < self.attributes@.len()
        &&& is_plain(self.attributes@[i], name)
        &&& forall|j: int| 0 <= j < i ==> !is_plain(#[trigger] self.attributes@[j], name)
    }

    /// The value of the first attribute without a namespace with the given name.
    pub open spec fn attribute_of(&self, name: Seq<char>) -> Option<Seq<char>> {
        if exists|i: int| 0 <= i < self.attributes@.len() && is_plain(#[trigger] self.attributes@[i], name) {
            Some(self.attributes@[choose|i: int| self.first_attribute(name, i)].value@)
        } else {
            None
        }
    }

    /// The text of the element, or `default` where it has none.
    pub open spec fn text_or(&self, default: Seq<char>) -> Seq<char> {
        match self.text {
            Some(t) => t@,
            None => default,
        }
    }

    /// The first child element with the given tag name.
    pub fn child(&self, tag: &str) -> (r: Option<&XmlNode>)
        ensures
            match r {
                Some(c) => self.child_of(tag@) == Some(*c),
                None => self.child_of(tag@) is None,
            },
    {
        let mut i: usize = 0;
        while i < self.children.len()
            invariant
                i <= self.children@.len(),
                forall|j: int| 0 <= j < i ==> (#[trigger] self.children@[j]).tag@ != tag@,
            decreases self.children@.len() - i,
        {
            if str_eq(self.children[i].tag.as_str(), tag) {
                proof {
                    let c = choose|m: int| self.first_child(tag@, m);
                    assert(self.first_child(tag@, i as int));
                    if c < i {
                        assert(self.children@[c].tag@ != tag@);
                    } else if c > i {
                        assert(self.children@[i as int].tag@ == tag@);
                    }
                }
                return Some(&self.children[i]);
            }
            i = i + 1;
        }
        None
    }

    /// The value of the first attribute without a namespace with the given name.
    pub fn attribute(&self, name: &str) -> (r: Option<&str>)
        ensures
            match r {
                Some(v) => self.attribute_of(name@) == Some(v@),
                None => self.attribute_of(name@) is None,
            },
    {
        let mut i: usize = 0;
        while i < self.attributes.len()
            invariant
                i <= self.attributes@.len(),
                forall|j: int| 0 <= j < i ==> !is_plain(#[trigger] self.attributes@[j], name@),
            decreases self.attributes@.len() - i,
        {
            let a = &self.attributes[i];
            if a.namespace.is_none() && str_eq(a.name.as_str(), name) {
                proof {
                    let c = choose|m: int| self.first_attribute(name@, m);
                    assert(self.first_attribute(name@, i as int));
                    if c < i {
                        assert(!is_plain(self.attributes@[c], name@));
                    } else if c > i {
                        assert(is_plain(self.attributes@[i as int], name@));
                    }
                }
                return Some(a.value.as_str());
            }
            i = i + 1;
        }
        None
    }
}

} // verus!
