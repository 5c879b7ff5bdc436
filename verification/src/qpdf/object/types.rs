//! Object identity and the type predicates that an object can be tested for.

use vstd::prelude::*;

verus! {

/// The generation of an indirect object; never negative, mostly 0.
pub type Generation = i32;

/// The number of an indirect object; positive for every object in a store.
pub type ObjectId = i32;

/// A reference to an indirect object: its number and generation. It owns
/// nothing and is resolved through the store.
#[derive(Debug, Clone, Copy, PartialEq, Eq, Structural)]
pub struct ObjectRef {
    pub id: ObjectId,
    pub generation: Generation,
}

impl ObjectRef {
    /// A reference is valid when its number is positive and its generation
    /// is not negative.
    pub open spec fn valid(self) -> bool {
        self.id > 0 && self.generation >= 0
    }

    pub fn new(id: ObjectId, generation: Generation) -> (r: Self)
        ensures
            r == (ObjectRef { id, generation }),
    {
        ObjectRef { id, generation }
    }

    pub fn is_valid(&self) -> (r: bool)
        ensures
            r == self.valid(),
    {
        self.id > 0 && self.generation >= 0
    }
}

/// What an object handle can be asked about its object.
pub enum QPDFIsObjectType {
    Initialized,
    Bool,
    Null,
    Integer,
    Real,
    Name,
    String,
    Operator,
    InlineImage,
    Array,
    Dictionary,
    Stream,
    Indirect,
    Scalar,
    NameEquals(String),
    IsOrHasName(String),
    DictionaryOfType(String, String),
}

} // verus!
