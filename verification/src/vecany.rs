//! The type-erased growable array: the foundational storage primitive.
//!
//! A `VecAny` is a growable buffer tagged with one runtime kind. The tag is
//! fixed at construction; every push re-checks the operand's kind against it,
//! and a mismatch is refused loudly, since it can only arise from a defect in
//! the spawn path, never from legitimate runtime variation.

use vstd::prelude::*;

use crate::error::EcsError;
use crate::value::{TypeTag, Value};

verus! {

/// A growable array of values that all share one declared kind.
pub struct VecAny {
    /// The declared element kind, fixed at construction.
    pub id: TypeTag,
    /// The stored elements, each of kind `id` when the array is well formed.
    pub data: Vec<Value>,
}

impl VecAny {
    /// Every stored element matches the declared kind.
    pub open spec fn wf(&self) -> bool {
        forall|i: int|
            0 <= i < self.data@.len() ==> (#[trigger] self.data@[i]).tag_spec() == self.id
    }

    /// Constructs an empty array whose eventual element kind is `id`.
    pub fn new_uninit(id: TypeTag) -> (r: VecAny)
        ensures
            r.id == id,
            r.data@ == Seq::<Value>::empty(),
            r.wf(),
    {
        VecAny { id, data: Vec::new() }
    }

    /// Constructs an array of kind `id` holding a copy of `data`, refusing
    /// the whole slice if any element's kind does not match.
    pub fn from_slice(id: TypeTag, data: &Vec<Value>) -> (r: Result<VecAny, EcsError>)
        ensures
            match r {
                Ok(v) => {
                    &&& v.id == id
                    &&& v.data@ == data@
                    &&& v.wf()
                },
                Err(e) => {
                    &&& e == EcsError::SchemaViolation
                    &&& exists|i: int|
                        0 <= i < data@.len() && (#[trigger] data@[i]).tag_spec() != id
                },
            },
    {
        let mut v = VecAny::new_uninit(id);
        let mut i: usize = 0;
        while i < data.len()
            invariant
                i <= data@.len(),
                v.id == id,
                v.wf(),
                v.data@ == data@.take(i as int),
            decreases data@.len() - i,
        {
            match v.push(data[i]) {
                Ok(()) => {
                    proof {
                        assert(data@.take(i as int).push(data@[i as int]) =~= data@.take(
                            i as int + 1,
                        ));
                    }
                },
                Err(e) => {
                    return Err(e);
                },
            }
            i += 1;
        }
        proof {
            assert(data@.take(data@.len() as int) =~= data@);
        }
        Ok(v)
    }

    /// Appends `item`, refusing it if its kind does not match the array's
    /// declared kind.
    pub fn push(&mut self, item: Value) -> (r: Result<(), EcsError>)
        ensures
            final(self).id == old(self).id,
            match r {
                Ok(()) => {
                    &&& item.tag_spec() == old(self).id
                    &&& final(self).data@ == old(self).data@.push(item)
                },
                Err(e) => {
                    &&& e == EcsError::SchemaViolation
                    &&& item.tag_spec() != old(self).id
                    &&& final(self).data@ == old(self).data@
                },
            },
            old(self).wf() ==> final(self).wf(),
    {
        if item.tag() == self.id {
            self.data.push(item);
            Ok(())
        } else {
            Err(EcsError::SchemaViolation)
        }
    }

    /// Returns a view of the elements iff `id` matches the declared kind.
    pub fn downcast_ref(&self, id: TypeTag) -> (r: Option<&Vec<Value>>)
        ensures
            match r {
                Some(v) => self.id == id && v@ == self.data@,
                None => self.id != id,
            },
    {
        if self.id == id {
            Some(&self.data)
        } else {
            None
        }
    }

    /// Returns the elements for writing iff `id` matches the declared kind.
    /// Writing a value of another kind through it breaks the array's
    /// well-formedness, which every later operation demands.
    pub fn downcast_mut(&mut self, id: TypeTag) -> (r: Option<&mut Vec<Value>>)
        ensures
            final(self).id == old(self).id,
            match r {
                Some(v) => {
                    &&& old(self).id == id
                    &&& *v == old(self).data
                    &&& final(self).data == *final(v)
                },
                None => {
                    &&& old(self).id != id
                    &&& final(self).data@ == old(self).data@
                },
            },
    {
        if self.id == id {
            Some(&mut self.data)
        } else {
            None
        }
    }

    /// The number of stored elements.
    pub fn len(&self) -> (n: usize)
        ensures
            n == self.data@.len(),
    {
        self.data.len()
    }
}

} // verus!
