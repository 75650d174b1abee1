//! The attributes of a start tag.

use vstd::prelude::*;

verus! {

/// What an attribute is to the contracts: its name and its value as
/// sequences of characters.
pub ghost struct AttributeView {
    pub name: Seq<char>,
    pub value: Seq<char>,
}

/// One `name=value` pair of a start tag, filled character by character.
#[derive(Debug, PartialEq, Eq, Hash)]
pub struct Attribute {
    name: String,
    value: String,
}

impl View for Attribute {
    type V = AttributeView;

    closed spec fn view(&self) -> AttributeView {
        AttributeView { name: self.name@, value: self.value@ }
    }
}

impl Clone for Attribute {
    fn clone(&self) -> (copy: Self)
        ensures
            copy@ == self@,
    {
        Attribute { name: self.name.clone(), value: self.value.clone() }
    }
}

/// The views of a list of attributes, in the list's order.
pub open spec fn attribute_views(attributes: Seq<Attribute>) -> Seq<AttributeView> {
    Seq::new(attributes.len(), |i: int| attributes[i]@)
}

/// Copies a list of attributes.
pub fn clone_attributes(attributes: &Vec<Attribute>) -> (copy: Vec<Attribute>)
    ensures
        attribute_views(copy@) == attribute_views(attributes@),
{
    let mut copy: Vec<Attribute> = Vec::new();
    let mut i: usize = 0;
    while i < attributes.len()
        invariant
            i <= attributes.len(),
            copy.len() == i,
            forall|j: int| 0 <= j < i ==> copy[j]@ == attributes[j]@,
        decreases attributes.len() - i,
    {
        copy.push(attributes[i].clone());
        i += 1;
    }
    assert(attribute_views(copy@) =~= attribute_views(attributes@));
    copy
}

impl Attribute {
    /// An attribute with an empty name and an empty value.
    pub fn new() -> (attribute: Self)
        ensures
            attribute@ == (AttributeView { name: Seq::empty(), value: Seq::empty() }),
    {
        Attribute { name: String::new(), value: String::new() }
    }

    /// Appends `c` to the name if `is_name` holds, and to the value otherwise.
    pub fn add_char(&mut self, c: char, is_name: bool)
        ensures
            is_name ==> final(self)@ == (AttributeView {
                name: old(self)@.name.push(c),
                value: old(self)@.value,
            }),
            !is_name ==> final(self)@ == (AttributeView {
                name: old(self)@.name,
                value: old(self)@.value.push(c),
            }),
    {
        if is_name {
            self.name.push(c);
        } else {
            self.value.push(c);
        }
    }

    /// A copy of the name.
    pub fn name(&self) -> (name: String)
        ensures
            name@ == self@.name,
    {
        self.name.clone()
    }

    /// A copy of the value.
    pub fn value(&self) -> (value: String)
        ensures
            value@ == self@.value,
    {
        self.value.clone()
    }
}

} // verus!
