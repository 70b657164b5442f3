use vstd::prelude::*;

verus! {

/// The kind of a resolved fact value.
#[derive(Debug, Clone, Copy, PartialEq, Eq, Structural)]
pub enum Kind {
    String,
    Float,
    Integer,
    Boolean,
    Unsupported,
}

/// A resolved fact value. A float is held as the bit pattern of its
/// 64-bit IEEE representation; `Unsupported` stands for a value outside the
/// supported kinds (a tuple or the empty value).
#[derive(Debug, Clone, PartialEq, Eq)]
pub enum Value {
    String(String),
    Float(u64),
    Integer(i64),
    Boolean(bool),
    Unsupported,
}

impl Value {
    pub open spec fn kind_of(&self) -> Kind {
        match self {
            Value::String(_) => Kind::String,
            Value::Float(_) => Kind::Float,
            Value::Integer(_) => Kind::Integer,
            Value::Boolean(_) => Kind::Boolean,
            Value::Unsupported => Kind::Unsupported,
        }
    }

    pub open spec fn is_supported(&self) -> bool {
        !(self is Unsupported)
    }

    /// A copy of this value.
    pub fn duplicate(&self) -> (r: Value)
        ensures
            r == *self,
    {
        match self {
            Value::String(s) => Value::String(s.clone()),
            Value::Float(b) => Value::Float(*b),
            Value::Integer(i) => Value::Integer(*i),
            Value::Boolean(b) => Value::Boolean(*b),
            Value::Unsupported => Value::Unsupported,
        }
    }

    /// The kind of this value.
    pub fn kind(&self) -> (r: Kind)
        ensures
            r == self.kind_of(),
    {
        match self {
            Value::String(_) => Kind::String,
            Value::Float(_) => Kind::Float,
            Value::Integer(_) => Kind::Integer,
            Value::Boolean(_) => Kind::Boolean,
            Value::Unsupported => Kind::Unsupported,
        }
    }
}

} // verus!
