//! Columns and tables: one archetype's storage.
//!
//! A [`Table`] is a fixed, ordered list of [`Column`]s sharing a common row
//! count. Every column always has exactly as many elements as the table has
//! rows. Each column carries a reader/writer flag: any number of shared views
//! may coexist, an exclusive view requires that no other view of the same
//! column is outstanding, and a conflicting request fails with
//! [`EcsError::BorrowConflict`] instead of aborting.

use vstd::prelude::*;

use crate::error::EcsError;
use crate::value::{TypeTag, Value};
use crate::vecany::VecAny;

verus! {

/// The dynamic borrow state of one column or resource.
#[derive(Clone, Copy, Debug, PartialEq, Eq, Structural)]
pub enum Borrow {
    /// No view is outstanding.
    Free,
    /// The given number of shared views are outstanding (always at least one).
    Shared(usize),
    /// One exclusive view is outstanding.
    Exclusive,
}

impl Borrow {
    /// Whether one more shared view may be taken.
    pub open spec fn can_share(self) -> bool {
        match self {
            Borrow::Free => true,
            Borrow::Shared(n) => n < usize::MAX,
            Borrow::Exclusive => false,
        }
    }

    /// The state after one more shared view is taken.
    pub open spec fn bump_shared(self) -> Borrow {
        match self {
            Borrow::Free => Borrow::Shared(1),
            Borrow::Shared(n) => if n < usize::MAX {
                Borrow::Shared((n + 1) as usize)
            } else {
                self
            },
            Borrow::Exclusive => self,
        }
    }

    /// The state after one shared view is given back.
    pub open spec fn drop_shared(self) -> Borrow {
        match self {
            Borrow::Shared(n) => if n <= 1 {
                Borrow::Free
            } else {
                Borrow::Shared((n - 1) as usize)
            },
            _ => self,
        }
    }

    /// Whether at least one shared view is outstanding.
    pub open spec fn is_shared(self) -> bool {
        match self {
            Borrow::Shared(_) => true,
            _ => false,
        }
    }
}

/// A row position within one table.
#[derive(Clone, Copy, Debug, PartialEq, Eq, Structural)]
pub struct RowIndex(pub usize);

/// The mathematical content of one column: its declared kind, its borrow
/// state, and the stored values.
#[verifier::ext_equal]
pub struct ColModel {
    pub tag: TypeTag,
    pub state: Borrow,
    pub data: Seq<Value>,
}

impl ColModel {
    /// The column holds `length` values, all of its declared kind, and its
    /// borrow state is meaningful.
    pub open spec fn wf(self, length: nat) -> bool {
        &&& self.data.len() == length
        &&& (forall|i: int|
            0 <= i < self.data.len() ==> (#[trigger] self.data[i]).tag_spec() == self.tag)
        &&& self.state != Borrow::Shared(0usize)
    }
}

/// The first position in `cols` whose declared kind is `tag`, or -1 if no
/// column has that kind.
pub open spec fn first_tag_idx(cols: Seq<ColModel>, tag: TypeTag) -> int
    decreases cols.len(),
{
    if cols.len() == 0 {
        -1
    } else if cols[0].tag == tag {
        0
    } else {
        let r = first_tag_idx(cols.drop_first(), tag);
        if r == -1 {
            -1
        } else {
            r + 1
        }
    }
}

/// What `first_tag_idx` returns: -1 exactly when no column has the kind, and
/// otherwise the position of the first column that does.
pub proof fn lemma_first_tag_idx(cols: Seq<ColModel>, tag: TypeTag)
    ensures
        first_tag_idx(cols, tag) == -1 <==> (forall|k: int|
            0 <= k < cols.len() ==> (#[trigger] cols[k]).tag != tag),
        first_tag_idx(cols, tag) != -1 ==> {
            &&& 0 <= first_tag_idx(cols, tag) < cols.len()
            &&& cols[first_tag_idx(cols, tag)].tag == tag
            &&& (forall|k: int|
                0 <= k < first_tag_idx(cols, tag) ==> (#[trigger] cols[k]).tag != tag)
        },
    decreases cols.len(),
{
    if cols.len() == 0 {
    } else if cols[0].tag == tag {
    } else {
        let rest = cols.drop_first();
        lemma_first_tag_idx(rest, tag);
        assert forall|k: int| 1 <= k < cols.len() implies cols[k] == rest[k - 1] by {
            assert(rest[k - 1] == cols.subrange(1, cols.len() as int)[k - 1]);
        }
        let r = first_tag_idx(rest, tag);
        if r == -1 {
            assert forall|k: int| 0 <= k < cols.len() implies (#[trigger] cols[k]).tag != tag by {
                if k >= 1 {
                    assert(rest[k - 1].tag != tag);
                }
            }
        } else {
            assert(first_tag_idx(cols, tag) == r + 1);
            assert(cols[r + 1].tag == rest[r].tag);
            assert forall|k: int| 0 <= k < r + 1 implies (#[trigger] cols[k]).tag != tag by {
                if k >= 1 {
                    assert(rest[k - 1].tag != tag);
                }
            }
        }
    }
}

/// Copies a vector of values element by element.
pub(crate) fn copy_values(v: &Vec<Value>) -> (r: Vec<Value>)
    ensures
        r@ == v@,
{
    let mut r: Vec<Value> = Vec::new();
    let mut i: usize = 0;
    while i < v.len()
        invariant
            i <= v@.len(),
            r@ == v@.take(i as int),
        decreases v@.len() - i,
    {
        r.push(v[i]);
        proof {
            assert(v@.take(i as int).push(v@[i as int]) =~= v@.take(i + 1));
        }
        i += 1;
    }
    proof {
        assert(v@.take(v@.len() as int) =~= v@);
    }
    r
}

/// Copies the `n` values of `v` that start at position `start`.
pub(crate) fn copy_range(v: &Vec<Value>, start: usize, n: usize) -> (r: Vec<Value>)
    requires
        start + n <= v@.len(),
    ensures
        r@ == v@.subrange(start as int, start as int + n as int),
{
    let vlen = v.len();
    let mut r: Vec<Value> = Vec::new();
    let mut i: usize = 0;
    while i < n
        invariant
            i <= n,
            start + n <= vlen,
            vlen == v@.len(),
            r@ == v@.subrange(start as int, start as int + i as int),
        decreases n - i,
    {
        r.push(v[start + i]);
        proof {
            assert(v@.subrange(start as int, start as int + i as int).push(
                v@[start as int + i as int],
            ) =~= v@.subrange(start as int, start as int + i as int + 1));
        }
        i += 1;
    }
    r
}

/// A typed accessor around one type-erased array, owned by its table,
/// together with the column's reader/writer flag.
pub struct Column {
    /// The dynamic borrow state of this column.
    pub state: Borrow,
    /// The stored elements, tagged with the column's declared kind.
    pub data: VecAny,
}

impl View for Column {
    type V = ColModel;

    open spec fn view(&self) -> ColModel {
        ColModel { tag: self.data.id, state: self.state, data: self.data.data@ }
    }
}

impl Column {
    /// Constructs an empty, unborrowed column of kind `ty`.
    pub fn new(ty: TypeTag) -> (r: Column)
        ensures
            r@.tag == ty,
            r@.state == Borrow::Free,
            r@.data == Seq::<Value>::empty(),
    {
        Column { state: Borrow::Free, data: VecAny::new_uninit(ty) }
    }

    /// Returns the value at `index` iff `ty` matches the column's declared
    /// kind and the index is in range.
    pub fn get(&self, ty: TypeTag, index: RowIndex) -> (r: Option<&Value>)
        ensures
            match r {
                Some(v) => {
                    &&& self@.tag == ty
                    &&& index.0 < self@.data.len()
                    &&& *v == self@.data[index.0 as int]
                },
                None => self@.tag != ty || index.0 >= self@.data.len(),
            },
    {
        if self.data.id == ty && index.0 < self.data.len() {
            Some(&self.data.data[index.0])
        } else {
            None
        }
    }

    /// Returns the value at `index` for writing iff `ty` matches the column's
    /// declared kind and the index is in range. Writing a value of another
    /// kind through it breaks the column's well-formedness, which every later
    /// operation demands.
    pub fn get_mut(&mut self, ty: TypeTag, index: RowIndex) -> (r: Option<&mut Value>)
        ensures
            match r {
                Some(v) => {
                    &&& old(self)@.tag == ty
                    &&& index.0 < old(self)@.data.len()
                    &&& *v == old(self)@.data[index.0 as int]
                    &&& final(self)@.tag == old(self)@.tag
                    &&& final(self)@.state == old(self)@.state
                    &&& final(self)@.data == old(self)@.data.update(index.0 as int, *final(v))
                },
                None => {
                    &&& (old(self)@.tag != ty || index.0 >= old(self)@.data.len())
                    &&& final(self)@ == old(self)@
                },
            },
    {
        if self.data.id == ty && index.0 < self.data.data.len() {
            Some(&mut self.data.data[index.0])
        } else {
            None
        }
    }

    /// Appends `item`, refusing it if its kind does not match the column's
    /// declared kind.
    pub fn push(&mut self, item: Value) -> (r: Result<(), EcsError>)
        ensures
            final(self)@.tag == old(self)@.tag,
            final(self)@.state == old(self)@.state,
            match r {
                Ok(()) => {
                    &&& item.tag_spec() == old(self)@.tag
                    &&& final(self)@.data == old(self)@.data.push(item)
                },
                Err(e) => {
                    &&& e == EcsError::SchemaViolation
                    &&& item.tag_spec() != old(self)@.tag
                    &&& final(self)@.data == old(self)@.data
                },
            },
    {
        self.data.push(item)
    }
}

/// The mathematical content of one table: the shared row count and the
/// columns in schema order.
#[verifier::ext_equal]
pub struct TableModel {
    pub length: nat,
    pub cols: Seq<ColModel>,
}

impl TableModel {
    /// Every column holds exactly `length` values of its declared kind.
    pub open spec fn wf(self) -> bool {
        forall|k: int| 0 <= k < self.cols.len() ==> (#[trigger] self.cols[k]).wf(self.length)
    }

    /// The position of the first column of kind `tag`, or -1.
    pub open spec fn tag_idx(self, tag: TypeTag) -> int {
        first_tag_idx(self.cols, tag)
    }

    /// Whether some column has kind `tag`.
    pub open spec fn has_tag(self, tag: TypeTag) -> bool {
        self.tag_idx(tag) >= 0
    }

    /// The values of the first column of kind `tag`.
    pub open spec fn tag_data(self, tag: TypeTag) -> Seq<Value> {
        self.cols[self.tag_idx(tag)].data
    }

    /// The declared kinds of the columns, in schema order.
    pub open spec fn schema(self) -> Seq<TypeTag> {
        self.cols.map_values(|c: ColModel| c.tag)
    }

    /// `row` supplies exactly one value per column, each of the column's
    /// declared kind, in schema order.
    pub open spec fn row_matches(self, row: Seq<Value>) -> bool {
        &&& row.len() == self.cols.len()
        &&& (forall|k: int|
            0 <= k < row.len() ==> (#[trigger] row[k]).tag_spec() == self.cols[k].tag)
    }

    /// No view of any column is outstanding.
    pub open spec fn all_free(self) -> bool {
        forall|k: int| 0 <= k < self.cols.len() ==> (#[trigger] self.cols[k]).state == Borrow::Free
    }

    /// The table's columns have exactly the kinds `cols`, in order.
    pub open spec fn schema_is(self, cols: Seq<TypeTag>) -> bool {
        &&& self.cols.len() == cols.len()
        &&& (forall|k: int| 0 <= k < cols.len() ==> (#[trigger] self.cols[k]).tag == cols[k])
    }
}

/// The first matching position depends only on the columns' declared kinds.
pub proof fn lemma_first_tag_idx_same_tags(c0: Seq<ColModel>, c1: Seq<ColModel>, tag: TypeTag)
    requires
        c1.len() == c0.len(),
        forall|k: int| 0 <= k < c0.len() ==> (#[trigger] c1[k]).tag == c0[k].tag,
    ensures
        first_tag_idx(c1, tag) == first_tag_idx(c0, tag),
    decreases c0.len(),
{
    if c0.len() > 0 {
        let r0 = c0.drop_first();
        let r1 = c1.drop_first();
        assert forall|k: int| 0 <= k < r0.len() implies (#[trigger] r1[k]).tag == r0[k].tag by {
            assert(r0[k] == c0[k + 1]);
            assert(r1[k] == c1[k + 1]);
        }
        lemma_first_tag_idx_same_tags(r0, r1, tag);
    }
}

/// Changing only the borrow state of one column, to anything other than
/// `Shared(0)`, keeps a table well formed.
pub proof fn lemma_wf_after_state_change(t0: TableModel, t1: TableModel, c: int)
    requires
        t0.wf(),
        0 <= c < t0.cols.len(),
        t1.length == t0.length,
        t1.cols.len() == t0.cols.len(),
        forall|k: int| 0 <= k < t0.cols.len() && k != c ==> t1.cols[k] == t0.cols[k],
        t1.cols[c].tag == t0.cols[c].tag,
        t1.cols[c].data == t0.cols[c].data,
        t1.cols[c].state != Borrow::Shared(0usize),
    ensures
        t1.wf(),
{
    assert forall|k: int| 0 <= k < t1.cols.len() implies (#[trigger] t1.cols[k]).wf(t1.length) by {
        assert(t0.cols[k].wf(t0.length));
    }
}

/// One archetype's storage: an ordered set of columns sharing a row count.
pub struct Table {
    /// The number of rows; always equal to every column's element count.
    pub length: usize,
    /// The columns, in schema order.
    pub columns: Vec<Column>,
}

impl View for Table {
    type V = TableModel;

    open spec fn view(&self) -> TableModel {
        TableModel {
            length: self.length as nat,
            cols: self.columns@.map_values(|c: Column| c@),
        }
    }
}

impl Table {
    /// Allocates one empty, unborrowed column per supplied kind, preserving
    /// order.
    pub fn new(columns: &Vec<TypeTag>) -> (t: Table)
        ensures
            t@.length == 0,
            t@.cols.len() == columns@.len(),
            forall|k: int| 0 <= k < columns@.len() ==> {
                &&& (#[trigger] t@.cols[k]).tag == columns@[k]
                &&& t@.cols[k].state == Borrow::Free
                &&& t@.cols[k].data == Seq::<Value>::empty()
            },
            t@.wf(),
    {
        let mut cols: Vec<Column> = Vec::new();
        let mut k: usize = 0;
        while k < columns.len()
            invariant
                k <= columns@.len(),
                cols@.len() == k,
                forall|j: int| 0 <= j < k as int ==> {
                    &&& (#[trigger] cols@[j])@.tag == columns@[j]
                    &&& cols@[j]@.state == Borrow::Free
                    &&& cols@[j]@.data == Seq::<Value>::empty()
                },
            decreases columns@.len() - k,
        {
            cols.push(Column::new(columns[k]));
            k += 1;
        }
        Table { length: 0, columns: cols }
    }

    /// The number of rows.
    pub fn len(&self) -> (n: usize)
        ensures
            n == self@.length,
    {
        self.length
    }

    /// The columns, in schema order, open for the row-append sequence: the
    /// whole new row, one value per column, must be appended before the row
    /// count is raised, or the length invariant breaks. `push_row` does both
    /// under one check.
    pub fn columns_mut(&mut self) -> (r: &mut Vec<Column>)
        ensures
            *r == old(self).columns,
            final(self).length == old(self).length,
            final(self).columns == *final(r),
    {
        &mut self.columns
    }

    /// The position of the first column of kind `ty`, if any column has it.
    fn find_col(&self, ty: TypeTag) -> (r: Option<usize>)
        ensures
            match r {
                Some(c) => c as int == self@.tag_idx(ty) && c < self.columns@.len(),
                None => self@.tag_idx(ty) == -1,
            },
    {
        let mut k: usize = 0;
        while k < self.columns.len()
            invariant
                k <= self.columns@.len(),
                self@.cols.len() == self.columns@.len(),
                forall|j: int| 0 <= j < k as int ==> (#[trigger] self@.cols[j]).tag != ty,
            decreases self.columns@.len() - k,
        {
            proof {
                assert(self@.cols[k as int] == self.columns@[k as int]@);
            }
            if self.columns[k].data.id == ty {
                proof {
                    assert(self@.cols[k as int].tag == ty);
                    lemma_first_tag_idx(self@.cols, ty);
                }
                return Some(k);
            }
            k += 1;
        }
        proof {
            lemma_first_tag_idx(self@.cols, ty);
        }
        None
    }

    /// The borrow state of the first column of kind `ty`, if any column has
    /// that kind.
    pub fn column_state(&self, ty: TypeTag) -> (r: Option<Borrow>)
        ensures
            match r {
                Some(st) => self@.has_tag(ty) && st == self@.cols[self@.tag_idx(ty)].state,
                None => !self@.has_tag(ty),
            },
    {
        match self.find_col(ty) {
            Some(c) => {
                proof {
                    assert(self@.cols[c as int] == self.columns@[c as int]@);
                }
                Some(self.columns[c].state)
            },
            None => None,
        }
    }

    /// The element count of the first column of kind `ty`, if any column has
    /// that kind.
    pub fn column_len(&self, ty: TypeTag) -> (r: Option<usize>)
        ensures
            match r {
                Some(n) => self@.has_tag(ty) && n == self@.tag_data(ty).len(),
                None => !self@.has_tag(ty),
            },
    {
        match self.find_col(ty) {
            Some(c) => {
                proof {
                    assert(self@.cols[c as int] == self.columns@[c as int]@);
                }
                Some(self.columns[c].data.len())
            },
            None => None,
        }
    }

    /// Whether the table's columns have exactly the kinds `cols`, in order.
    pub fn schema_matches(&self, cols: &Vec<TypeTag>) -> (b: bool)
        ensures
            b == self@.schema_is(cols@),
    {
        if self.columns.len() != cols.len() {
            return false;
        }
        let mut k: usize = 0;
        while k < cols.len()
            invariant
                k <= cols@.len(),
                self@.cols.len() == cols@.len(),
                forall|j: int| 0 <= j < k as int ==> (#[trigger] self@.cols[j]).tag == cols@[j],
            decreases cols@.len() - k,
        {
            proof {
                assert(self@.cols[k as int] == self.columns@[k as int]@);
            }
            if self.columns[k].data.id != cols[k] {
                return false;
            }
            k += 1;
        }
        true
    }

    /// Takes one more shared view of the first column of kind `ty` and
    /// returns a copy of its values. Absence of the kind is an expected
    /// outcome; an outstanding exclusive view is a borrow conflict.
    pub fn column(&mut self, ty: TypeTag) -> (r: Result<Vec<Value>, EcsError>)
        ensures
            final(self)@.length == old(self)@.length,
            final(self)@.cols.len() == old(self)@.cols.len(),
            match r {
                Ok(items) => {
                    let c = old(self)@.tag_idx(ty);
                    &&& old(self)@.has_tag(ty)
                    &&& old(self)@.cols[c].state.can_share()
                    &&& items@ == old(self)@.tag_data(ty)
                    &&& (forall|k: int|
                        0 <= k < old(self)@.cols.len() && k != c
                            ==> final(self)@.cols[k] == old(self)@.cols[k])
                    &&& final(self)@.cols[c].tag == old(self)@.cols[c].tag
                    &&& final(self)@.cols[c].data == old(self)@.cols[c].data
                    &&& final(self)@.cols[c].state == old(self)@.cols[c].state.bump_shared()
                },
                Err(e) => {
                    &&& final(self)@ == old(self)@
                    &&& (e == EcsError::Absent <==> !old(self)@.has_tag(ty))
                    &&& (e == EcsError::BorrowConflict <==> old(self)@.has_tag(ty)
                        && !old(self)@.cols[old(self)@.tag_idx(ty)].state.can_share())
                    &&& e != EcsError::SchemaViolation
                },
            },
            old(self)@.wf() ==> final(self)@.wf(),
    {
        match self.find_col(ty) {
            None => Err(EcsError::Absent),
            Some(c) => {
                let st = self.columns[c].state;
                match st {
                    Borrow::Exclusive => Err(EcsError::BorrowConflict),
                    Borrow::Shared(n) => {
                        if n == usize::MAX {
                            Err(EcsError::BorrowConflict)
                        } else {
                            let items = copy_values(&self.columns[c].data.data);
                            self.columns[c].state = Borrow::Shared(n + 1);
                            proof {
                                if old(self)@.wf() {
                                    lemma_wf_after_state_change(old(self)@, self@, c as int);
                                }
                            }
                            Ok(items)
                        }
                    },
                    Borrow::Free => {
                        let items = copy_values(&self.columns[c].data.data);
                        self.columns[c].state = Borrow::Shared(1);
                        proof {
                            if old(self)@.wf() {
                                lemma_wf_after_state_change(old(self)@, self@, c as int);
                            }
                        }
                        Ok(items)
                    },
                }
            },
        }
    }

    /// Takes the exclusive view of the first column of kind `ty` and returns
    /// a copy of its values; the values are handed back, possibly changed,
    /// through `release_column_mut`. Fails with a borrow conflict while any
    /// other view of that column is outstanding.
    pub fn column_mut(&mut self, ty: TypeTag) -> (r: Result<Vec<Value>, EcsError>)
        ensures
            final(self)@.length == old(self)@.length,
            final(self)@.cols.len() == old(self)@.cols.len(),
            match r {
                Ok(items) => {
                    let c = old(self)@.tag_idx(ty);
                    &&& old(self)@.has_tag(ty)
                    &&& old(self)@.cols[c].state == Borrow::Free
                    &&& items@ == old(self)@.tag_data(ty)
                    &&& (forall|k: int|
                        0 <= k < old(self)@.cols.len() && k != c
                            ==> final(self)@.cols[k] == old(self)@.cols[k])
                    &&& final(self)@.cols[c].tag == old(self)@.cols[c].tag
                    &&& final(self)@.cols[c].data == old(self)@.cols[c].data
                    &&& final(self)@.cols[c].state == Borrow::Exclusive
                },
                Err(e) => {
                    &&& final(self)@ == old(self)@
                    &&& (e == EcsError::Absent <==> !old(self)@.has_tag(ty))
                    &&& (e == EcsError::BorrowConflict <==> old(self)@.has_tag(ty)
                        && old(self)@.cols[old(self)@.tag_idx(ty)].state != Borrow::Free)
                    &&& e != EcsError::SchemaViolation
                },
            },
            old(self)@.wf() ==> final(self)@.wf(),
    {
        match self.find_col(ty) {
            None => Err(EcsError::Absent),
            Some(c) => {
                let st = self.columns[c].state;
                match st {
                    Borrow::Free => {
                        let items = copy_values(&self.columns[c].data.data);
                        self.columns[c].state = Borrow::Exclusive;
                        proof {
                            if old(self)@.wf() {
                                lemma_wf_after_state_change(old(self)@, self@, c as int);
                            }
                        }
                        Ok(items)
                    },
                    _ => Err(EcsError::BorrowConflict),
                }
            },
        }
    }

    /// Gives back one shared view of the first column of kind `ty`.
    pub fn release_column(&mut self, ty: TypeTag) -> (r: Result<(), EcsError>)
        ensures
            final(self)@.length == old(self)@.length,
            final(self)@.cols.len() == old(self)@.cols.len(),
            match r {
                Ok(()) => {
                    let c = old(self)@.tag_idx(ty);
                    &&& old(self)@.has_tag(ty)
                    &&& old(self)@.cols[c].state.is_shared()
                    &&& (forall|k: int|
                        0 <= k < old(self)@.cols.len() && k != c
                            ==> final(self)@.cols[k] == old(self)@.cols[k])
                    &&& final(self)@.cols[c].tag == old(self)@.cols[c].tag
                    &&& final(self)@.cols[c].data == old(self)@.cols[c].data
                    &&& final(self)@.cols[c].state == old(self)@.cols[c].state.drop_shared()
                },
                Err(e) => {
                    &&& final(self)@ == old(self)@
                    &&& (e == EcsError::Absent <==> !old(self)@.has_tag(ty))
                    &&& (e == EcsError::BorrowConflict <==> old(self)@.has_tag(ty)
                        && !old(self)@.cols[old(self)@.tag_idx(ty)].state.is_shared())
                    &&& e != EcsError::SchemaViolation
                },
            },
            old(self)@.wf() ==> final(self)@.wf(),
    {
        match self.find_col(ty) {
            None => Err(EcsError::Absent),
            Some(c) => {
                let st = self.columns[c].state;
                match st {
                    Borrow::Shared(n) => {
                        if n <= 1 {
                            self.columns[c].state = Borrow::Free;
                        } else {
                            self.columns[c].state = Borrow::Shared(n - 1);
                        }
                        proof {
                            if old(self)@.wf() {
                                lemma_wf_after_state_change(old(self)@, self@, c as int);
                            }
                        }
                        Ok(())
                    },
                    _ => Err(EcsError::BorrowConflict),
                }
            },
        }
    }

    /// Gives back the exclusive view of the first column of kind `ty`,
    /// storing `items` as the column's new values. The new values must have
    /// the column's kind and keep its length.
    pub fn release_column_mut(&mut self, ty: TypeTag, items: Vec<Value>) -> (r: Result<
        (),
        EcsError,
    >)
        ensures
            final(self)@.length == old(self)@.length,
            final(self)@.cols.len() == old(self)@.cols.len(),
            match r {
                Ok(()) => {
                    let c = old(self)@.tag_idx(ty);
                    &&& old(self)@.has_tag(ty)
                    &&& old(self)@.cols[c].state == Borrow::Exclusive
                    &&& items@.len() == old(self)@.cols[c].data.len()
                    &&& (forall|i: int|
                        0 <= i < items@.len() ==> (#[trigger] items@[i]).tag_spec() == ty)
                    &&& (forall|k: int|
                        0 <= k < old(self)@.cols.len() && k != c
                            ==> final(self)@.cols[k] == old(self)@.cols[k])
                    &&& final(self)@.cols[c].tag == old(self)@.cols[c].tag
                    &&& final(self)@.cols[c].data == items@
                    &&& final(self)@.cols[c].state == Borrow::Free
                },
                Err(e) => {
                    &&& final(self)@ == old(self)@
                    &&& (e == EcsError::Absent <==> !old(self)@.has_tag(ty))
                    &&& (e == EcsError::BorrowConflict <==> old(self)@.has_tag(ty)
                        && old(self)@.cols[old(self)@.tag_idx(ty)].state != Borrow::Exclusive)
                    &&& (e == EcsError::SchemaViolation <==> old(self)@.has_tag(ty)
                        && old(self)@.cols[old(self)@.tag_idx(ty)].state == Borrow::Exclusive
                        && !(items@.len() == old(self)@.cols[old(self)@.tag_idx(ty)].data.len()
                            && (forall|i: int|
                                0 <= i < items@.len() ==> (#[trigger] items@[i]).tag_spec()
                                    == ty)))
                },
            },
            old(self)@.wf() ==> final(self)@.wf(),
    {
        match self.find_col(ty) {
            None => Err(EcsError::Absent),
            Some(c) => {
                let st = self.columns[c].state;
                match st {
                    Borrow::Exclusive => {
                        if items.len() != self.columns[c].data.data.len() {
                            return Err(EcsError::SchemaViolation);
                        }
                        let mut i: usize = 0;
                        while i < items.len()
                            invariant
                                i <= items@.len(),
                                *self == *old(self),
                                c < self.columns@.len(),
                                c as int == old(self)@.tag_idx(ty),
                                old(self)@.has_tag(ty),
                                old(self)@.cols[c as int].state == Borrow::Exclusive,
                                items@.len() == old(self)@.cols[c as int].data.len(),
                                forall|j: int|
                                    0 <= j < i as int ==> (#[trigger] items@[j]).tag_spec() == ty,
                            decreases items@.len() - i,
                        {
                            if items[i].tag() != ty {
                                return Err(EcsError::SchemaViolation);
                            }
                            i += 1;
                        }
                        let ghost itemsv = items@;
                        self.columns[c].data.data = items;
                        self.columns[c].state = Borrow::Free;
                        proof {
                            if old(self)@.wf() {
                                lemma_first_tag_idx(old(self)@.cols, ty);
                                assert forall|k: int|
                                    0 <= k < self@.cols.len() implies (#[trigger] self@.cols[k]).wf(
                                    self@.length,
                                ) by {
                                    assert(old(self)@.cols[k].wf(old(self)@.length));
                                    if k == c as int {
                                        assert(self@.cols[k].data == itemsv);
                                        assert(old(self)@.cols[k].tag == ty);
                                    }
                                }
                            }
                        }
                        Ok(())
                    },
                    _ => Err(EcsError::BorrowConflict),
                }
            },
        }
    }

    /// Appends one row: one value per column, in schema order, incrementing
    /// the row count. The row must match the schema exactly and no view of
    /// any column may be outstanding.
    pub fn push_row(&mut self, row: &Vec<Value>) -> (r: Result<(), EcsError>)
        requires
            old(self).length < usize::MAX,
        ensures
            final(self)@.cols.len() == old(self)@.cols.len(),
            match r {
                Ok(()) => {
                    &&& old(self)@.row_matches(row@)
                    &&& old(self)@.all_free()
                    &&& final(self)@.length == old(self)@.length + 1
                    &&& (forall|k: int| 0 <= k < old(self)@.cols.len() ==> {
                        &&& (#[trigger] final(self)@.cols[k]).tag == old(self)@.cols[k].tag
                        &&& final(self)@.cols[k].state == old(self)@.cols[k].state
                        &&& final(self)@.cols[k].data == old(self)@.cols[k].data.push(row@[k])
                    })
                },
                Err(e) => {
                    &&& final(self)@ == old(self)@
                    &&& (e == EcsError::SchemaViolation <==> !old(self)@.row_matches(row@))
                    &&& (e == EcsError::BorrowConflict <==> old(self)@.row_matches(row@)
                        && !old(self)@.all_free())
                    &&& e != EcsError::Absent
                },
            },
            old(self)@.wf() ==> final(self)@.wf(),
    {
        if row.len() != self.columns.len() {
            return Err(EcsError::SchemaViolation);
        }
        let mut k: usize = 0;
        while k < row.len()
            invariant
                k <= row@.len(),
                row@.len() == self.columns@.len(),
                *self == *old(self),
                forall|j: int|
                    0 <= j < k as int ==> (#[trigger] row@[j]).tag_spec() == self@.cols[j].tag,
            decreases row@.len() - k,
        {
            proof {
                assert(self@.cols[k as int] == self.columns@[k as int]@);
            }
            if row[k].tag() != self.columns[k].data.id {
                return Err(EcsError::SchemaViolation);
            }
            k += 1;
        }
        k = 0;
        while k < self.columns.len()
            invariant
                k <= self.columns@.len(),
                *self == *old(self),
                old(self)@.row_matches(row@),
                forall|j: int|
                    0 <= j < k as int ==> (#[trigger] self@.cols[j]).state == Borrow::Free,
            decreases self.columns@.len() - k,
        {
            proof {
                assert(self@.cols[k as int] == self.columns@[k as int]@);
            }
            match self.columns[k].state {
                Borrow::Free => {},
                _ => {
                    return Err(EcsError::BorrowConflict);
                },
            }
            k += 1;
        }
        k = 0;
        while k < self.columns.len()
            invariant
                k <= self.columns@.len(),
                self.columns@.len() == old(self).columns@.len(),
                self.length == old(self).length,
                old(self)@.row_matches(row@),
                old(self)@.all_free(),
                forall|j: int|
                    k as int <= j < self.columns@.len() ==> #[trigger] self.columns@[j] == old(
                        self,
                    ).columns@[j],
                forall|j: int| 0 <= j < k as int ==> {
                    &&& (#[trigger] self@.cols[j]).tag == old(self)@.cols[j].tag
                    &&& self@.cols[j].state == old(self)@.cols[j].state
                    &&& self@.cols[j].data == old(self)@.cols[j].data.push(row@[j])
                },
            decreases self.columns@.len() - k,
        {
            proof {
                assert(self.columns@[k as int] == old(self).columns@[k as int]);
                assert(old(self)@.cols[k as int] == old(self).columns@[k as int]@);
                assert(row@[k as int].tag_spec() == old(self)@.cols[k as int].tag);
            }
            let ghost prev = self.columns@;
            let ghost prevcols = self@.cols;
            let res = self.columns[k].push(row[k]);
            match res {
                Ok(()) => {},
                Err(_) => {
                    proof {
                        assert(false);
                    }
                    return Err(EcsError::SchemaViolation);
                },
            }
            proof {
                assert(self@.cols[k as int] == self.columns@[k as int]@);
                assert(self@.cols[k as int].data == old(self)@.cols[k as int].data.push(
                    row@[k as int],
                ));
                assert forall|j: int| 0 <= j < k as int implies {
                    &&& (#[trigger] self@.cols[j]).tag == old(self)@.cols[j].tag
                    &&& self@.cols[j].state == old(self)@.cols[j].state
                    &&& self@.cols[j].data == old(self)@.cols[j].data.push(row@[j])
                } by {
                    assert(self.columns@[j] == prev[j]);
                    assert(self@.cols[j] == self.columns@[j]@);
                    assert(prevcols[j] == prev[j]@);
                }
                assert forall|j: int|
                    (k + 1) as int <= j < self.columns@.len() implies #[trigger] self.columns@[j]
                    == old(self).columns@[j] by {
                    assert(self.columns@[j] == prev[j]);
                }
            }
            k += 1;
        }
        let ghost fincols = self@.cols;
        self.length = self.length + 1;
        proof {
            assert(self@.cols == fincols);
            if old(self)@.wf() {
                assert forall|k2: int|
                    0 <= k2 < self@.cols.len() implies (#[trigger] self@.cols[k2]).wf(
                    self@.length,
                ) by {
                    assert(old(self)@.cols[k2].wf(old(self)@.length));
                    assert(fincols[k2].data == old(self)@.cols[k2].data.push(row@[k2]));
                    assert forall|i: int|
                        0 <= i < self@.cols[k2].data.len() implies (#[trigger] self@.cols[k2].data[i]).tag_spec()
                        == self@.cols[k2].tag by {
                        if i < old(self)@.cols[k2].data.len() {
                            assert(self@.cols[k2].data[i] == old(self)@.cols[k2].data[i]);
                        } else {
                            assert(self@.cols[k2].data[i] == row@[k2]);
                        }
                    }
                }
            }
        }
        Ok(())
    }
}

} // verus!
