//! The errors of the library.

use crate::renderer::dom::node::ElementKind;
use vstd::prelude::*;

verus! {

/// The ways in which this library fails.
#[derive(Debug, PartialEq, Eq)]
pub enum Error {
    /// A response text that cannot be read as a response. The string says
    /// which text it was.
    Network(String),
    /// The tree constructor was to close an element of this kind and no
    /// such element was open.
    StructuralInvariant(ElementKind),
}

impl Clone for Error {
    fn clone(&self) -> (copy: Self)
        ensures
            copy == *self,
    {
        match self {
            Error::Network(text) => Error::Network(text.clone()),
            Error::StructuralInvariant(kind) => Error::StructuralInvariant(*kind),
        }
    }
}

} // verus!
