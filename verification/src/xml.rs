//! The generic element tree the document parser consumes.  Turning markup
//! text into this tree is the business of an XML library outside this crate;
//! the parser only walks the tree.

use vstd::prelude::*;

use crate::util::str_eq;

verus! {

/// An element's tag: its name and its attributes in document order.
#[derive(Debug)]
pub struct Tag {
    pub value: String,
    pub attributes: Vec<(String, String)>,
}

/// A generic XML node: an element (tag plus optional children) or raw text.
#[derive(Debug)]
pub enum Xml {
    Element(Tag, Option<Vec<Xml>>),
    Text(String),
}

/// The value of the first attribute with the given name, if any.
pub open spec fn spec_attr(attrs: Seq<(String, String)>, name: Seq<char>) -> Option<Seq<char>>
    decreases attrs.len(),
{
    if attrs.len() == 0 {
        None
    } else if attrs[0].0@ == name {
        Some(attrs[0].1@)
    } else {
        spec_attr(attrs.skip(1), name)
    }
}

impl Tag {
    /// Looks an attribute up by name; the first entry with that name wins.
    pub fn get_attr<'a>(&'a self, name: &str) -> (r: Option<&'a String>)
        ensures
            match r {
                Some(v) => spec_attr(self.attributes@, name@) == Some(v@),
                None => spec_attr(self.attributes@, name@) is None,
            },
    {
        let n = self.attributes.len();
        proof {
            assert(self.attributes@.skip(0) =~= self.attributes@);
        }
        let mut i: usize = 0;
        while i < n
            invariant
                i <= n,
                n == self.attributes@.len(),
                spec_attr(self.attributes@, name@) == spec_attr(
                    self.attributes@.skip(i as int),
                    name@,
                ),
        decreases n - i,
        {
            let entry = &self.attributes[i];
            proof {
                assert(self.attributes@.skip(i as int)[0] == self.attributes@[i as int]);
            }
            if str_eq(entry.0.as_str(), name) {
                return Some(&entry.1);
            }
            proof {
                assert(self.attributes@.skip(i as int).skip(1) =~= self.attributes@.skip(
                    i as int + 1,
                ));
            }
            i += 1;
        }
        proof {
            assert(self.attributes@.skip(n as int) =~= Seq::<(String, String)>::empty());
        }
        None
    }
}

impl Xml {
    /// The node is an element (not raw text).
    pub fn is_element(&self) -> (r: bool)
        ensures
            r == (self is Element),
    {
        match self {
            Xml::Element(_, _) => true,
            Xml::Text(_) => false,
        }
    }

    /// Whether the node is an element whose tag carries the given name.
    pub open spec fn spec_tag_has_name(self, name: Seq<char>) -> bool {
        match self {
            Xml::Element(t, _) => t.value@ == name,
            Xml::Text(_) => false,
        }
    }

    /// The node is an element whose tag carries the given name.
    pub fn tag_has_name(&self, name: &str) -> (r: bool)
        ensures
            r == self.spec_tag_has_name(name@),
    {
        match self {
            Xml::Element(t, _) => str_eq(t.value.as_str(), name),
            Xml::Text(_) => false,
        }
    }
}

} // verus!
