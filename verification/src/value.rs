//! The closed set of component and resource kinds, and the tagged values that
//! carry them.
//!
//! The storage layer identifies the element type of a column or resource by a
//! runtime tag. The set of kinds is closed: every value is one variant of
//! [`Value`], tagged by the matching variant of [`TypeTag`], and every typed
//! access compares tags before it touches data.

use vstd::prelude::*;

verus! {

/// The runtime identity of a component or resource kind.
#[derive(Clone, Copy, Debug, PartialEq, Eq, Structural)]
pub enum TypeTag {
    I32,
    U32,
    I64,
    U64,
    Bool,
    F32Bits,
    State,
}

/// The application-level run state, kept as a singleton resource and read
/// between frames to decide whether the update loop goes on.
#[derive(Clone, Copy, Debug, PartialEq, Eq, Structural)]
pub enum State {
    Stopped,
    Running,
}

/// One component or resource value, tagged by its kind.
///
/// A 32-bit floating-point component travels as its bit pattern
/// (`F32Bits`): the storage and dispatch core never computes with it, so the
/// bits are carried through unchanged and the caller converts at the edges.
#[derive(Clone, Copy, Debug, PartialEq, Eq, Structural)]
pub enum Value {
    I32(i32),
    U32(u32),
    I64(i64),
    U64(u64),
    Bool(bool),
    F32Bits(u32),
    State(State),
}

impl Value {
    /// The kind of this value.
    pub open spec fn tag_spec(self) -> TypeTag {
        match self {
            Value::I32(_) => TypeTag::I32,
            Value::U32(_) => TypeTag::U32,
            Value::I64(_) => TypeTag::I64,
            Value::U64(_) => TypeTag::U64,
            Value::Bool(_) => TypeTag::Bool,
            Value::F32Bits(_) => TypeTag::F32Bits,
            Value::State(_) => TypeTag::State,
        }
    }

    /// Returns the kind of this value.
    pub fn tag(&self) -> (t: TypeTag)
        ensures
            t == self.tag_spec(),
    {
        match self {
            Value::I32(_) => TypeTag::I32,
            Value::U32(_) => TypeTag::U32,
            Value::I64(_) => TypeTag::I64,
            Value::U64(_) => TypeTag::U64,
            Value::Bool(_) => TypeTag::Bool,
            Value::F32Bits(_) => TypeTag::F32Bits,
            Value::State(_) => TypeTag::State,
        }
    }
}

} // verus!
