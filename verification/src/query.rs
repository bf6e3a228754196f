//! Query views: the flattened, multi-table results of a query, together with
//! the bookkeeping needed to give the borrows back.
//!
//! A query scans every table whose schema contains the requested kind and
//! flattens the matched columns into one sequence: row order is kept within a
//! table, and tables follow one another in registration order. A shared view
//! is read-only; an exclusive view may be edited in place and hands its
//! values back to the world on release.

use vstd::prelude::*;

use crate::error::EcsError;
use crate::value::{TypeTag, Value};

verus! {

/// A query request: one component kind, viewed shared or exclusive.
#[derive(Clone, Copy, Debug, PartialEq, Eq, Structural)]
pub enum Query {
    /// A read-only view of every column of this kind.
    Shared(TypeTag),
    /// A read/write view of every column of this kind.
    Exclusive(TypeTag),
}

/// The sum of `lens` up to position `k`: where the `k`-th table's segment
/// starts in a flattened sequence.
pub open spec fn sum_prefix(lens: Seq<usize>, k: int) -> int
    decreases k,
{
    if k <= 0 {
        0
    } else {
        sum_prefix(lens, k - 1) + lens[k - 1]
    }
}

/// Appending a length does not change the earlier prefix sums.
pub proof fn lemma_sum_prefix_push(lens: Seq<usize>, x: usize, k: int)
    requires
        0 <= k <= lens.len(),
    ensures
        sum_prefix(lens.push(x), k) == sum_prefix(lens, k),
    decreases k,
{
    if k > 0 {
        lemma_sum_prefix_push(lens, x, k - 1);
    }
}

/// Prefix sums of lengths grow monotonically.
pub proof fn lemma_sum_prefix_mono(lens: Seq<usize>, k1: int, k2: int)
    requires
        0 <= k1 <= k2 <= lens.len(),
    ensures
        sum_prefix(lens, k1) <= sum_prefix(lens, k2),
    decreases k2,
{
    if k2 > k1 {
        lemma_sum_prefix_mono(lens, k1, k2 - 1);
    }
}

/// A shared, read-only view of every column of one kind: the matched table
/// positions and the flattened values.
pub struct Columns {
    /// The requested kind.
    pub tag: TypeTag,
    /// The positions of the matched tables, in increasing order.
    pub tables: Vec<usize>,
    /// The flattened values: the matched columns, one after another.
    pub items: Vec<Value>,
}

impl Columns {
    /// The flattened values, in iteration order.
    pub fn iter(&self) -> (r: &Vec<Value>)
        ensures
            r@ == self.items@,
    {
        &self.items
    }

    /// The number of flattened values.
    pub fn len(&self) -> (n: usize)
        ensures
            n == self.items@.len(),
    {
        self.items.len()
    }

    /// The value at position `i` of the flattened sequence.
    pub fn get(&self, i: usize) -> (r: Option<&Value>)
        ensures
            match r {
                Some(v) => i < self.items@.len() && *v == self.items@[i as int],
                None => i >= self.items@.len(),
            },
    {
        if i < self.items.len() {
            Some(&self.items[i])
        } else {
            None
        }
    }
}

/// An exclusive, editable view of every column of one kind: the matched table
/// positions, each matched column's length, and the flattened values.
pub struct ColumnsMut {
    /// The requested kind.
    pub tag: TypeTag,
    /// The positions of the matched tables, in increasing order.
    pub tables: Vec<usize>,
    /// The length of each matched column, in the same order as `tables`.
    pub lens: Vec<usize>,
    /// The flattened values: the matched columns, one after another.
    pub items: Vec<Value>,
}

impl ColumnsMut {
    /// The flattened values, in iteration order.
    pub fn iter(&self) -> (r: &Vec<Value>)
        ensures
            r@ == self.items@,
    {
        &self.items
    }

    /// The number of flattened values.
    pub fn len(&self) -> (n: usize)
        ensures
            n == self.items@.len(),
    {
        self.items.len()
    }

    /// The value at position `i` of the flattened sequence.
    pub fn get(&self, i: usize) -> (r: Option<&Value>)
        ensures
            match r {
                Some(v) => i < self.items@.len() && *v == self.items@[i as int],
                None => i >= self.items@.len(),
            },
    {
        if i < self.items.len() {
            Some(&self.items[i])
        } else {
            None
        }
    }

    /// The flattened values, in iteration order, open for editing in place.
    /// The release of the view checks every value's kind, so an edit of the
    /// wrong kind is refused there with a schema violation.
    pub fn iter_mut(&mut self) -> (r: &mut Vec<Value>)
        ensures
            *r == old(self).items,
            final(self).tag == old(self).tag,
            final(self).tables@ == old(self).tables@,
            final(self).lens@ == old(self).lens@,
            final(self).items == *final(r),
    {
        &mut self.items
    }

    /// Replaces the value at position `i` of the flattened sequence. The new
    /// value must have the view's kind.
    pub fn set(&mut self, i: usize, v: Value) -> (r: Result<(), EcsError>)
        ensures
            final(self).tag == old(self).tag,
            final(self).tables@ == old(self).tables@,
            final(self).lens@ == old(self).lens@,
            match r {
                Ok(()) => {
                    &&& i < old(self).items@.len()
                    &&& v.tag_spec() == old(self).tag
                    &&& final(self).items@ == old(self).items@.update(i as int, v)
                },
                Err(e) => {
                    &&& final(self).items@ == old(self).items@
                    &&& (e == EcsError::Absent <==> i >= old(self).items@.len())
                    &&& (e == EcsError::SchemaViolation <==> i < old(self).items@.len()
                        && v.tag_spec() != old(self).tag)
                    &&& e != EcsError::BorrowConflict
                },
            },
    {
        if i >= self.items.len() {
            Err(EcsError::Absent)
        } else if v.tag() != self.tag {
            Err(EcsError::SchemaViolation)
        } else {
            self.items[i] = v;
            Ok(())
        }
    }
}

/// The result of one query request: a shared or an exclusive view.
pub enum QueryOutput {
    Shared(Columns),
    Exclusive(ColumnsMut),
}

impl QueryOutput {
    /// The flattened values of either view.
    pub open spec fn items_view(self) -> Seq<Value> {
        match self {
            QueryOutput::Shared(c) => c.items@,
            QueryOutput::Exclusive(c) => c.items@,
        }
    }

    /// The kind of either view.
    pub open spec fn tag_view(self) -> TypeTag {
        match self {
            QueryOutput::Shared(c) => c.tag,
            QueryOutput::Exclusive(c) => c.tag,
        }
    }

    /// The matched table positions of either view.
    pub open spec fn tables_view(self) -> Seq<usize> {
        match self {
            QueryOutput::Shared(c) => c.tables@,
            QueryOutput::Exclusive(c) => c.tables@,
        }
    }

    /// Whether this is a shared view.
    pub open spec fn is_shared_view(self) -> bool {
        match self {
            QueryOutput::Shared(_) => true,
            QueryOutput::Exclusive(_) => false,
        }
    }

    /// The flattened values of either view, in iteration order.
    pub fn iter(&self) -> (r: &Vec<Value>)
        ensures
            match self {
                QueryOutput::Shared(c) => r@ == c.items@,
                QueryOutput::Exclusive(c) => r@ == c.items@,
            },
    {
        match self {
            QueryOutput::Shared(c) => c.iter(),
            QueryOutput::Exclusive(c) => c.iter(),
        }
    }
}

} // verus!
