use crate::value::Kind;
use vstd::prelude::*;

verus! {

/// Why a run fails.
#[derive(Debug, Clone, Copy, PartialEq, Eq, Structural)]
pub enum Category {
    /// A declaration has no name, or its name is not an identifier.
    InvalidFactName,
    /// The name of a declaration is followed by something other than `,`.
    MalformedDeclaration,
    /// A variant declares the same fact twice.
    DuplicateFact,
    /// The expression of a fact cannot be evaluated with the other facts of
    /// its variant.
    UnresolvableExpression,
    /// Two variants give one fact values of different kinds.
    TypeMismatch { expected: Kind, found: Kind },
    /// A fact evaluates to a value outside the supported kinds.
    UnsupportedValueKind,
}

/// The error that aborts a run: its category, and the fact and variant that
/// it is about.
#[derive(Debug, Clone, PartialEq, Eq)]
pub struct TagError {
    pub category: Category,
    pub fact: String,
    pub variant: String,
}

/// The mathematical form of an error.
pub type ErrorView = (Category, Seq<char>, Seq<char>);

impl View for TagError {
    type V = ErrorView;

    open spec fn view(&self) -> ErrorView {
        (self.category, self.fact@, self.variant@)
    }
}

impl TagError {
    pub fn new(category: Category, fact: &String, variant: &String) -> (r: TagError)
        ensures
            r@ == (category, fact@, variant@),
    {
        TagError { category, fact: fact.clone(), variant: variant.clone() }
    }
}

} // verus!
