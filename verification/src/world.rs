//! The world: sole owner of all tables, all singleton resources and the
//! ordered list of registered systems.
//!
//! Entities are spawned into per-archetype tables that are created lazily on
//! first use and only ever grow. Queries scan every table, resources are
//! singletons keyed by kind, and `tick`/`submit` dispatch to every registered
//! system strictly in registration order.

use vstd::prelude::*;

use crate::error::EcsError;
use crate::query::{
    lemma_sum_prefix_mono, lemma_sum_prefix_push, sum_prefix, Columns, ColumnsMut, Query,
    QueryOutput,
};
use crate::resources::{
    find_res, find_slot, lemma_find_res, lemma_remove_res, lemma_set_res, remove_res, res_wf,
    set_res, ResourceSlot,
};
use crate::system::{
    apply_action_vec, lemma_run_event_wf, lemma_run_tick_wf, run_event, run_tick, Action, Event,
    EventKind, SystemDef,
};
use crate::table::{Borrow, ColModel, Table, TableModel};
use crate::value::{TypeTag, Value};

verus! {

/// An archetype declaration: an entity shape's identity and its ordered list
/// of component kinds. Declared once; every spawn is checked against it.
pub struct Archetype {
    /// The archetype's identity; two declarations with the same identity must
    /// list the same kinds.
    pub id: u64,
    /// The component kinds, in column order.
    pub columns: Vec<TypeTag>,
}

impl Archetype {
    /// Declares an archetype.
    pub fn new(id: u64, columns: Vec<TypeTag>) -> (a: Archetype)
        ensures
            a.id == id,
            a.columns@ == columns@,
    {
        Archetype { id, columns }
    }
}

/// The identity of one spawned entity: its archetype and its row.
///
/// Valid as long as no deletion or compaction has occurred; none is
/// implemented.
#[derive(Clone, Copy, Debug, PartialEq, Eq, Structural)]
pub struct EntityId {
    /// The archetype whose table holds the entity.
    pub arch: u64,
    /// The entity's row within that table.
    pub index: usize,
}

/// `row` supplies one value per declared kind, in order.
pub open spec fn row_matches_decl(cols: Seq<TypeTag>, row: Seq<Value>) -> bool {
    &&& row.len() == cols.len()
    &&& (forall|k: int| 0 <= k < row.len() ==> (#[trigger] row[k]).tag_spec() == cols[k])
}

/// The first position in `tables` owned by archetype `id`, or -1.
pub open spec fn find_arch(tables: Seq<(u64, TableModel)>, id: u64) -> int
    decreases tables.len(),
{
    if tables.len() == 0 {
        -1
    } else if tables[0].0 == id {
        0
    } else {
        let r = find_arch(tables.drop_first(), id);
        if r == -1 {
            -1
        } else {
            r + 1
        }
    }
}

/// What `find_arch` returns: -1 exactly when no table has the identity, and
/// otherwise the position of the first table that does.
pub proof fn lemma_find_arch(tables: Seq<(u64, TableModel)>, id: u64)
    ensures
        find_arch(tables, id) == -1 <==> (forall|j: int|
            0 <= j < tables.len() ==> (#[trigger] tables[j]).0 != id),
        find_arch(tables, id) != -1 ==> {
            &&& 0 <= find_arch(tables, id) < tables.len()
            &&& tables[find_arch(tables, id)].0 == id
            &&& (forall|j: int| 0 <= j < find_arch(tables, id) ==> (#[trigger] tables[j]).0 != id)
        },
    decreases tables.len(),
{
    if tables.len() == 0 {
    } else if tables[0].0 == id {
    } else {
        let rest = tables.drop_first();
        lemma_find_arch(rest, id);
        assert forall|j: int| 1 <= j < tables.len() implies tables[j] == rest[j - 1] by {
            assert(rest[j - 1] == tables.subrange(1, tables.len() as int)[j - 1]);
        }
        let r = find_arch(rest, id);
        if r == -1 {
            assert forall|j: int| 0 <= j < tables.len() implies (#[trigger] tables[j]).0 != id by {
                if j >= 1 {
                    assert(rest[j - 1].0 != id);
                }
            }
        } else {
            assert(find_arch(tables, id) == r + 1);
            assert(tables[r + 1].0 == rest[r].0);
            assert forall|j: int| 0 <= j < r + 1 implies (#[trigger] tables[j]).0 != id by {
                if j >= 1 {
                    assert(rest[j - 1].0 != id);
                }
            }
        }
    }
}

/// The table for one archetype after a fresh spawn: one row, holding exactly
/// the spawned values, all columns unborrowed.
pub open spec fn spawned_fresh(cols: Seq<TypeTag>, row: Seq<Value>, m: TableModel) -> bool {
    &&& m.length == 1
    &&& m.cols.len() == cols.len()
    &&& (forall|k: int| 0 <= k < cols.len() ==> {
        &&& (#[trigger] m.cols[k]).tag == cols[k]
        &&& m.cols[k].state == Borrow::Free
        &&& m.cols[k].data == seq![row[k]]
    })
}

/// The table after appending one row: the row count grew by one and each
/// column gained exactly its value.
pub open spec fn table_spawned(m0: TableModel, row: Seq<Value>, m1: TableModel) -> bool {
    &&& m1.length == m0.length + 1
    &&& m1.cols.len() == m0.cols.len()
    &&& (forall|k: int| 0 <= k < m0.cols.len() ==> {
        &&& (#[trigger] m1.cols[k]).tag == m0.cols[k].tag
        &&& m1.cols[k].state == m0.cols[k].state
        &&& m1.cols[k].data == m0.cols[k].data.push(row[k])
    })
}

/// What one table contributes to a query for `tag`: its matched column's
/// values, or nothing if its schema lacks the kind.
pub open spec fn table_contrib(t: TableModel, tag: TypeTag) -> Seq<Value> {
    if t.has_tag(tag) {
        t.tag_data(tag)
    } else {
        Seq::empty()
    }
}

/// The values a query for `tag` yields: every table's contribution,
/// flattened in registration order.
pub open spec fn query_seq(tables: Seq<(u64, TableModel)>, tag: TypeTag) -> Seq<Value>
    decreases tables.len(),
{
    if tables.len() == 0 {
        Seq::empty()
    } else {
        query_seq(tables.drop_last(), tag) + table_contrib(tables.last().1, tag)
    }
}

/// Extending the scanned prefix by one table appends that table's
/// contribution.
pub proof fn lemma_query_seq_snoc(tables: Seq<(u64, TableModel)>, tag: TypeTag, i: int)
    requires
        0 <= i < tables.len(),
    ensures
        query_seq(tables.take(i + 1), tag) == query_seq(tables.take(i), tag) + table_contrib(
            tables[i].1,
            tag,
        ),
{
    assert(tables.take(i + 1).drop_last() =~= tables.take(i));
    assert(tables.take(i + 1).last() == tables[i]);
}

/// Every matched column can take one more shared view.
pub open spec fn shared_ok(tables: Seq<(u64, TableModel)>, tag: TypeTag) -> bool {
    forall|j: int|
        0 <= j < tables.len() && (#[trigger] tables[j]).1.has_tag(tag)
            ==> tables[j].1.cols[tables[j].1.tag_idx(tag)].state.can_share()
}

/// Every matched column is free, so the exclusive view can be taken.
pub open spec fn exclusive_ok(tables: Seq<(u64, TableModel)>, tag: TypeTag) -> bool {
    forall|j: int|
        0 <= j < tables.len() && (#[trigger] tables[j]).1.has_tag(tag)
            ==> tables[j].1.cols[tables[j].1.tag_idx(tag)].state == Borrow::Free
}

/// `m1` is `m0` with one more shared view of the matched column.
pub open spec fn table_bumped(m0: TableModel, m1: TableModel, tag: TypeTag) -> bool {
    let c = m0.tag_idx(tag);
    &&& m1.length == m0.length
    &&& m1.cols.len() == m0.cols.len()
    &&& (forall|k: int| 0 <= k < m0.cols.len() && k != c ==> m1.cols[k] == m0.cols[k])
    &&& m1.cols[c].tag == m0.cols[c].tag
    &&& m1.cols[c].data == m0.cols[c].data
    &&& m1.cols[c].state == m0.cols[c].state.bump_shared()
}

/// `m1` is `m0` with one shared view of the matched column given back.
pub open spec fn table_dropped(m0: TableModel, m1: TableModel, tag: TypeTag) -> bool {
    let c = m0.tag_idx(tag);
    &&& m1.length == m0.length
    &&& m1.cols.len() == m0.cols.len()
    &&& (forall|k: int| 0 <= k < m0.cols.len() && k != c ==> m1.cols[k] == m0.cols[k])
    &&& m1.cols[c].tag == m0.cols[c].tag
    &&& m1.cols[c].data == m0.cols[c].data
    &&& m1.cols[c].state == m0.cols[c].state.drop_shared()
}

/// `m1` is `m0` with the matched column taken exclusively.
pub open spec fn table_taken(m0: TableModel, m1: TableModel, tag: TypeTag) -> bool {
    let c = m0.tag_idx(tag);
    &&& m1.length == m0.length
    &&& m1.cols.len() == m0.cols.len()
    &&& (forall|k: int| 0 <= k < m0.cols.len() && k != c ==> m1.cols[k] == m0.cols[k])
    &&& m1.cols[c].tag == m0.cols[c].tag
    &&& m1.cols[c].data == m0.cols[c].data
    &&& m1.cols[c].state == Borrow::Exclusive
}

/// `m1` is `m0` with the exclusive view given back and `seg` stored as the
/// matched column's new values.
pub open spec fn table_written(m0: TableModel, m1: TableModel, tag: TypeTag, seg: Seq<Value>) -> bool {
    let c = m0.tag_idx(tag);
    &&& m1.length == m0.length
    &&& m1.cols.len() == m0.cols.len()
    &&& (forall|k: int| 0 <= k < m0.cols.len() && k != c ==> m1.cols[k] == m0.cols[k])
    &&& m1.cols[c].tag == m0.cols[c].tag
    &&& m1.cols[c].data == seg
    &&& m1.cols[c].state == Borrow::Free
}

/// After a shared query for `tag`: every matched table gained one shared
/// view, every other table is untouched, identities are kept.
pub open spec fn shared_acquired(
    t0: Seq<(u64, TableModel)>,
    t1: Seq<(u64, TableModel)>,
    tag: TypeTag,
) -> bool {
    &&& t1.len() == t0.len()
    &&& (forall|j: int| 0 <= j < t0.len() ==> {
        &&& (#[trigger] t1[j]).0 == t0[j].0
        &&& (if t0[j].1.has_tag(tag) {
            table_bumped(t0[j].1, t1[j].1, tag)
        } else {
            t1[j].1 == t0[j].1
        })
    })
}

/// After an exclusive query for `tag`: every matched table's column is taken
/// exclusively, every other table is untouched, identities are kept.
pub open spec fn exclusive_acquired(
    t0: Seq<(u64, TableModel)>,
    t1: Seq<(u64, TableModel)>,
    tag: TypeTag,
) -> bool {
    &&& t1.len() == t0.len()
    &&& (forall|j: int| 0 <= j < t0.len() ==> {
        &&& (#[trigger] t1[j]).0 == t0[j].0
        &&& (if t0[j].1.has_tag(tag) {
            table_taken(t0[j].1, t1[j].1, tag)
        } else {
            t1[j].1 == t0[j].1
        })
    })
}

/// `idxs` lists exactly the positions of the tables whose schema contains
/// `tag`, in increasing order.
pub open spec fn matched_exact(
    tables: Seq<(u64, TableModel)>,
    tag: TypeTag,
    idxs: Seq<usize>,
) -> bool {
    &&& (forall|k1: int, k2: int| 0 <= k1 < k2 < idxs.len() ==> idxs[k1] < idxs[k2])
    &&& (forall|k: int|
        #![trigger idxs[k]]
        0 <= k < idxs.len() ==> idxs[k] < tables.len() && tables[idxs[k] as int].1.has_tag(tag))
    &&& (forall|j: int|
        0 <= j < tables.len() && (#[trigger] tables[j]).1.has_tag(tag) ==> exists|k: int|
            0 <= k < idxs.len() && idxs[k] as int == j)
}

/// Whether `idxs` contains the position `j`.
pub open spec fn contains_idx(idxs: Seq<usize>, j: int) -> bool {
    exists|k: int| 0 <= k < idxs.len() && idxs[k] as int == j
}

/// Extending a prefix of positions by one adds exactly that position.
proof fn lemma_contains_idx_take_succ(idxs: Seq<usize>, k: int, j: int)
    requires
        0 <= k < idxs.len(),
    ensures
        contains_idx(idxs.take(k + 1), j) <==> (contains_idx(idxs.take(k), j) || idxs[k] as int
            == j),
{
    if contains_idx(idxs.take(k + 1), j) {
        let k0 = choose|k0: int|
            0 <= k0 < idxs.take(k + 1).len() && #[trigger] idxs.take(k + 1)[k0] as int == j;
        if k0 < k {
            assert(idxs.take(k)[k0] as int == j);
        }
    }
    if contains_idx(idxs.take(k), j) {
        let k0 = choose|k0: int|
            0 <= k0 < idxs.take(k).len() && #[trigger] idxs.take(k)[k0] as int == j;
        assert(idxs.take(k + 1)[k0] as int == j);
    }
    if idxs[k] as int == j {
        assert(idxs.take(k + 1)[k] as int == j);
    }
}

/// In a strictly increasing list of positions, a position never appears
/// before its own entry.
proof fn lemma_increasing_not_in_prefix(idxs: Seq<usize>, k: int)
    requires
        0 <= k < idxs.len(),
        forall|k1: int, k2: int| 0 <= k1 < k2 < idxs.len() ==> idxs[k1] < idxs[k2],
    ensures
        !contains_idx(idxs.take(k), idxs[k] as int),
{
    if contains_idx(idxs.take(k), idxs[k] as int) {
        let k0 = choose|k0: int|
            0 <= k0 < idxs.take(k).len() && #[trigger] idxs.take(k)[k0] as int == idxs[k] as int;
        assert(idxs.take(k)[k0] == idxs[k0]);
        assert(idxs[k0] < idxs[k]);
    }
}

/// The borrows that a shared view's release gives back are outstanding:
/// `idxs` names matched tables, in increasing order, whose matched columns
/// all have shared views.
pub open spec fn release_shared_ok(
    tables: Seq<(u64, TableModel)>,
    tag: TypeTag,
    idxs: Seq<usize>,
) -> bool {
    &&& (forall|k1: int, k2: int| 0 <= k1 < k2 < idxs.len() ==> idxs[k1] < idxs[k2])
    &&& (forall|k: int|
        #![trigger idxs[k]]
        0 <= k < idxs.len() ==> {
            &&& idxs[k] < tables.len()
            &&& tables[idxs[k] as int].1.has_tag(tag)
            &&& tables[idxs[k] as int].1.cols[tables[idxs[k] as int].1.tag_idx(
                tag,
            )].state.is_shared()
        })
}

/// The borrows that an exclusive view's release gives back are outstanding
/// and its segments line up: `idxs` names matched tables, in increasing
/// order, whose matched columns are all exclusively taken, each segment
/// length equals its column's length, and the segments cover the flattened
/// values exactly.
pub open spec fn release_exclusive_ok(
    tables: Seq<(u64, TableModel)>,
    tag: TypeTag,
    idxs: Seq<usize>,
    lens: Seq<usize>,
    total: int,
) -> bool {
    &&& lens.len() == idxs.len()
    &&& sum_prefix(lens, lens.len() as int) == total
    &&& (forall|k1: int, k2: int| 0 <= k1 < k2 < idxs.len() ==> idxs[k1] < idxs[k2])
    &&& (forall|k: int|
        #![trigger idxs[k]]
        0 <= k < idxs.len() ==> {
            &&& idxs[k] < tables.len()
            &&& tables[idxs[k] as int].1.has_tag(tag)
            &&& tables[idxs[k] as int].1.cols[tables[idxs[k] as int].1.tag_idx(tag)].state
                == Borrow::Exclusive
            &&& tables[idxs[k] as int].1.tag_data(tag).len() == lens[k]
        })
}

/// Every flattened value has the view's kind.
pub open spec fn guard_tags_ok(items: Seq<Value>, tag: TypeTag) -> bool {
    forall|i: int| 0 <= i < items.len() ==> (#[trigger] items[i]).tag_spec() == tag
}

/// The kind a query request asks for.
pub open spec fn query_tag(q: Query) -> TypeTag {
    match q {
        Query::Shared(ty) => ty,
        Query::Exclusive(ty) => ty,
    }
}

/// Whether a query request can be satisfied on the given tables.
pub open spec fn query_ok(tables: Seq<(u64, TableModel)>, q: Query) -> bool {
    match q {
        Query::Shared(ty) => shared_ok(tables, ty),
        Query::Exclusive(ty) => exclusive_ok(tables, ty),
    }
}

/// The table after one more shared view of its matched column.
pub open spec fn table_bump_model(m: TableModel, tag: TypeTag) -> TableModel {
    let c = m.tag_idx(tag);
    TableModel {
        length: m.length,
        cols: m.cols.update(
            c,
            ColModel {
                tag: m.cols[c].tag,
                state: m.cols[c].state.bump_shared(),
                data: m.cols[c].data,
            },
        ),
    }
}

/// The table after its matched column is taken exclusively.
pub open spec fn table_take_model(m: TableModel, tag: TypeTag) -> TableModel {
    let c = m.tag_idx(tag);
    TableModel {
        length: m.length,
        cols: m.cols.update(
            c,
            ColModel { tag: m.cols[c].tag, state: Borrow::Exclusive, data: m.cols[c].data },
        ),
    }
}

/// The tables after a query request is satisfied: each matched table's
/// column gains the requested view, everything else is untouched.
pub open spec fn tables_after(tables: Seq<(u64, TableModel)>, q: Query) -> Seq<(u64, TableModel)> {
    tables.map_values(
        |p: (u64, TableModel)|
            if p.1.has_tag(query_tag(q)) {
                (
                    p.0,
                    match q {
                        Query::Shared(ty) => table_bump_model(p.1, ty),
                        Query::Exclusive(ty) => table_take_model(p.1, ty),
                    },
                )
            } else {
                p
            },
    )
}

/// Two tables hold the same kinds and values, whatever their borrow states.
pub open spec fn table_data_equal(m0: TableModel, m1: TableModel) -> bool {
    &&& m1.cols.len() == m0.cols.len()
    &&& (forall|k: int| 0 <= k < m0.cols.len() ==> {
        &&& (#[trigger] m1.cols[k]).tag == m0.cols[k].tag
        &&& m1.cols[k].data == m0.cols[k].data
    })
}

/// A satisfied query request produces exactly `tables_after`.
proof fn lemma_acquired_is_after(
    t0: Seq<(u64, TableModel)>,
    t1: Seq<(u64, TableModel)>,
    q: Query,
)
    requires
        match q {
            Query::Shared(ty) => shared_acquired(t0, t1, ty),
            Query::Exclusive(ty) => exclusive_acquired(t0, t1, ty),
        },
    ensures
        t1 == tables_after(t0, q),
{
    let after = tables_after(t0, q);
    let tag = query_tag(q);
    assert forall|j: int| 0 <= j < t1.len() implies t1[j] == after[j] by {
        if t0[j].1.has_tag(tag) {
            let m0 = t0[j].1;
            crate::table::lemma_first_tag_idx(m0.cols, tag);
            let c = m0.tag_idx(tag);
            assert(t1[j].1.cols =~= after[j].1.cols);
            assert(t1[j].1 =~= after[j].1);
        }
    }
    assert(t1 =~= after);
}

/// Satisfying a query request changes no kinds and no values.
proof fn lemma_tables_after_data_equal(t0: Seq<(u64, TableModel)>, q: Query)
    ensures
        tables_after(t0, q).len() == t0.len(),
        forall|j: int|
            0 <= j < t0.len() ==> table_data_equal(
                t0[j].1,
                #[trigger] tables_after(t0, q)[j].1,
            ),
{
    let after = tables_after(t0, q);
    let tag = query_tag(q);
    assert forall|j: int| 0 <= j < t0.len() implies table_data_equal(t0[j].1, after[j].1) by {
        if t0[j].1.has_tag(tag) {
            crate::table::lemma_first_tag_idx(t0[j].1.cols, tag);
        }
    }
}

/// A query's values depend only on the tables' kinds and values, never on
/// their borrow states.
proof fn lemma_query_seq_data_equal(
    t0: Seq<(u64, TableModel)>,
    t1: Seq<(u64, TableModel)>,
    tag: TypeTag,
)
    requires
        t1.len() == t0.len(),
        forall|j: int| 0 <= j < t0.len() ==> table_data_equal(t0[j].1, #[trigger] t1[j].1),
    ensures
        query_seq(t1, tag) == query_seq(t0, tag),
    decreases t0.len(),
{
    if t0.len() > 0 {
        let r0 = t0.drop_last();
        let r1 = t1.drop_last();
        assert forall|j: int|
            0 <= j < r0.len() implies table_data_equal(r0[j].1, #[trigger] r1[j].1) by {
            assert(t0[j].1 == r0[j].1);
            assert(t1[j].1 == r1[j].1);
            assert(table_data_equal(t0[j].1, t1[j].1));
        }
        lemma_query_seq_data_equal(r0, r1, tag);
        let m0 = t0.last().1;
        let m1 = t1.last().1;
        assert(table_data_equal(m0, m1));
        crate::table::lemma_first_tag_idx_same_tags(m0.cols, m1.cols, tag);
        if m0.has_tag(tag) {
            crate::table::lemma_first_tag_idx(m0.cols, tag);
            assert(m1.tag_data(tag) == m0.tag_data(tag));
        }
    }
}

/// In well-formed tables, every value a query yields has the requested kind.
proof fn lemma_query_seq_tags(tables: Seq<(u64, TableModel)>, tag: TypeTag)
    requires
        forall|j: int| 0 <= j < tables.len() ==> (#[trigger] tables[j]).1.wf(),
    ensures
        guard_tags_ok(query_seq(tables, tag), tag),
    decreases tables.len(),
{
    if tables.len() > 0 {
        let rest = tables.drop_last();
        assert forall|j: int| 0 <= j < rest.len() implies (#[trigger] rest[j]).1.wf() by {
            assert(tables[j].1.wf());
        }
        lemma_query_seq_tags(rest, tag);
        let m = tables.last().1;
        assert(m.wf());
        if m.has_tag(tag) {
            crate::table::lemma_first_tag_idx(m.cols, tag);
            assert(m.cols[m.tag_idx(tag)].wf(m.length));
        }
    }
}

/// Whether a query request asks for a shared view.
pub open spec fn query_is_shared(q: Query) -> bool {
    match q {
        Query::Shared(_) => true,
        Query::Exclusive(_) => false,
    }
}

/// A query view describes the given tables exactly: it lists the matched
/// table positions, its flattened values are the query's result, and — for
/// an exclusive view — its segments line up with the matched columns.
pub open spec fn output_wf(tables: Seq<(u64, TableModel)>, q: Query, out: QueryOutput) -> bool {
    &&& out.is_shared_view() == query_is_shared(q)
    &&& out.tag_view() == query_tag(q)
    &&& out.items_view() == query_seq(tables, query_tag(q))
    &&& matched_exact(tables, query_tag(q), out.tables_view())
    &&& match out {
        QueryOutput::Shared(_) => true,
        QueryOutput::Exclusive(g) => {
            &&& g.lens@.len() == g.tables@.len()
            &&& sum_prefix(g.lens@, g.lens@.len() as int) == g.items@.len()
            &&& (forall|k: int|
                #![trigger g.tables@[k]]
                0 <= k < g.tables@.len() ==> {
                    &&& g.lens@[k] == tables[g.tables@[k] as int].1.tag_data(g.tag).len()
                    &&& g.items@.subrange(sum_prefix(g.lens@, k), sum_prefix(g.lens@, k + 1))
                        == tables[g.tables@[k] as int].1.tag_data(g.tag)
                })
        },
    }
}

/// After a shared query is satisfied, the views it acquired are outstanding
/// and can be given back.
proof fn lemma_release_shared_after(t0: Seq<(u64, TableModel)>, ty: TypeTag, idxs: Seq<usize>)
    requires
        shared_ok(t0, ty),
        matched_exact(t0, ty, idxs),
    ensures
        release_shared_ok(tables_after(t0, Query::Shared(ty)), ty, idxs),
{
    let mid = tables_after(t0, Query::Shared(ty));
    assert forall|k: int|
        #![trigger idxs[k]]
        0 <= k < idxs.len() implies {
        &&& idxs[k] < mid.len()
        &&& mid[idxs[k] as int].1.has_tag(ty)
        &&& mid[idxs[k] as int].1.cols[mid[idxs[k] as int].1.tag_idx(ty)].state.is_shared()
    } by {
        let j = idxs[k] as int;
        assert(t0[j].1.has_tag(ty));
        crate::table::lemma_first_tag_idx(t0[j].1.cols, ty);
        let c = t0[j].1.tag_idx(ty);
        assert(mid[j].1 == table_bump_model(t0[j].1, ty));
        crate::table::lemma_first_tag_idx_same_tags(t0[j].1.cols, mid[j].1.cols, ty);
        assert(mid[j].1.cols[c].state == t0[j].1.cols[c].state.bump_shared());
    }
}

/// Giving back the views of a satisfied shared query restores the tables
/// exactly.
proof fn lemma_restore_shared(
    t0: Seq<(u64, TableModel)>,
    mid: Seq<(u64, TableModel)>,
    fin: Seq<(u64, TableModel)>,
    ty: TypeTag,
    idxs: Seq<usize>,
)
    requires
        forall|j: int| 0 <= j < t0.len() ==> (#[trigger] t0[j]).1.wf(),
        shared_ok(t0, ty),
        matched_exact(t0, ty, idxs),
        mid == tables_after(t0, Query::Shared(ty)),
        fin.len() == mid.len(),
        forall|j: int| 0 <= j < mid.len() ==> {
            &&& (#[trigger] fin[j]).0 == mid[j].0
            &&& (if contains_idx(idxs, j) {
                table_dropped(mid[j].1, fin[j].1, ty)
            } else {
                fin[j].1 == mid[j].1
            })
        },
    ensures
        fin == t0,
{
    assert forall|j: int| 0 <= j < fin.len() implies fin[j] == t0[j] by {
        if contains_idx(idxs, j) {
            let k = choose|k: int| 0 <= k < idxs.len() && #[trigger] idxs[k] as int == j;
            assert(t0[j].1.has_tag(ty));
            crate::table::lemma_first_tag_idx(t0[j].1.cols, ty);
            let c = t0[j].1.tag_idx(ty);
            assert(mid[j].1 == table_bump_model(t0[j].1, ty));
            crate::table::lemma_first_tag_idx_same_tags(t0[j].1.cols, mid[j].1.cols, ty);
            assert(t0[j].1.cols[c].wf(t0[j].1.length));
            assert(mid[j].1.cols[c].state == t0[j].1.cols[c].state.bump_shared());
            assert(fin[j].1.cols[c].state == mid[j].1.cols[c].state.drop_shared());
            assert(fin[j].1.cols[c].state == t0[j].1.cols[c].state);
            assert(fin[j].1.cols =~= t0[j].1.cols);
            assert(fin[j].1 =~= t0[j].1);
        } else {
            if t0[j].1.has_tag(ty) {
                assert(contains_idx(idxs, j));
            }
            assert(mid[j] == t0[j]);
        }
    }
    assert(fin =~= t0);
}

/// After an exclusive query is satisfied, the views it acquired are
/// outstanding, its segments line up, and they can be given back.
proof fn lemma_release_exclusive_after(
    t0: Seq<(u64, TableModel)>,
    ty: TypeTag,
    idxs: Seq<usize>,
    lens: Seq<usize>,
    total: int,
)
    requires
        exclusive_ok(t0, ty),
        matched_exact(t0, ty, idxs),
        lens.len() == idxs.len(),
        sum_prefix(lens, lens.len() as int) == total,
        forall|k: int|
            #![trigger idxs[k]]
            0 <= k < idxs.len() ==> lens[k] == t0[idxs[k] as int].1.tag_data(ty).len(),
    ensures
        release_exclusive_ok(tables_after(t0, Query::Exclusive(ty)), ty, idxs, lens, total),
{
    let mid = tables_after(t0, Query::Exclusive(ty));
    assert forall|k: int|
        #![trigger idxs[k]]
        0 <= k < idxs.len() implies {
        &&& idxs[k] < mid.len()
        &&& mid[idxs[k] as int].1.has_tag(ty)
        &&& mid[idxs[k] as int].1.cols[mid[idxs[k] as int].1.tag_idx(ty)].state == Borrow::Exclusive
        &&& mid[idxs[k] as int].1.tag_data(ty).len() == lens[k]
    } by {
        let j = idxs[k] as int;
        assert(t0[j].1.has_tag(ty));
        crate::table::lemma_first_tag_idx(t0[j].1.cols, ty);
        let c = t0[j].1.tag_idx(ty);
        assert(mid[j].1 == table_take_model(t0[j].1, ty));
        crate::table::lemma_first_tag_idx_same_tags(t0[j].1.cols, mid[j].1.cols, ty);
    }
}

/// Giving back the views of a satisfied exclusive query, with the values it
/// handed out unchanged, restores the tables exactly.
proof fn lemma_restore_exclusive(
    t0: Seq<(u64, TableModel)>,
    mid: Seq<(u64, TableModel)>,
    fin: Seq<(u64, TableModel)>,
    ty: TypeTag,
    idxs: Seq<usize>,
    lens: Seq<usize>,
    items: Seq<Value>,
)
    requires
        exclusive_ok(t0, ty),
        matched_exact(t0, ty, idxs),
        mid == tables_after(t0, Query::Exclusive(ty)),
        fin.len() == mid.len(),
        forall|k: int|
            #![trigger idxs[k]]
            0 <= k < idxs.len() ==> items.subrange(sum_prefix(lens, k), sum_prefix(lens, k + 1))
                == t0[idxs[k] as int].1.tag_data(ty),
        forall|j: int|
            0 <= j < mid.len() && !contains_idx(idxs, j) ==> #[trigger] fin[j] == mid[j],
        forall|k: int|
            #![trigger idxs[k]]
            0 <= k < idxs.len() ==> {
                &&& fin[idxs[k] as int].0 == mid[idxs[k] as int].0
                &&& table_written(
                    mid[idxs[k] as int].1,
                    fin[idxs[k] as int].1,
                    ty,
                    items.subrange(sum_prefix(lens, k), sum_prefix(lens, k + 1)),
                )
            },
    ensures
        fin == t0,
{
    assert forall|j: int| 0 <= j < fin.len() implies fin[j] == t0[j] by {
        if contains_idx(idxs, j) {
            let k = choose|k: int| 0 <= k < idxs.len() && #[trigger] idxs[k] as int == j;
            assert(t0[j].1.has_tag(ty));
            crate::table::lemma_first_tag_idx(t0[j].1.cols, ty);
            let c = t0[j].1.tag_idx(ty);
            assert(mid[j].1 == table_take_model(t0[j].1, ty));
            crate::table::lemma_first_tag_idx_same_tags(t0[j].1.cols, mid[j].1.cols, ty);
            assert(fin[j].1.cols[c].data == items.subrange(
                sum_prefix(lens, k),
                sum_prefix(lens, k + 1),
            ));
            assert(fin[j].1.cols[c].data == t0[j].1.cols[c].data);
            assert(fin[j].1.cols[c].state == Borrow::Free);
            assert(t0[j].1.cols[c].state == Borrow::Free);
            assert(fin[j].1.cols =~= t0[j].1.cols);
            assert(fin[j].1 =~= t0[j].1);
        } else {
            if t0[j].1.has_tag(ty) {
                assert(contains_idx(idxs, j));
            }
            assert(mid[j] == t0[j]);
        }
    }
    assert(fin =~= t0);
}

/// A world stays well formed when its tables' content and its resources are
/// unchanged.
proof fn lemma_world_wf_same_views(w0: World, w1: World)
    requires
        w0.wf(),
        w1.tables() == w0.tables(),
        w1.resources@ == w0.resources@,
    ensures
        w1.wf(),
{
    assert forall|j: int| 0 <= j < w1.tables().len() implies (#[trigger] w1.tables()[j]).1.wf() by {
        assert(w0.tables()[j].1.wf());
    }
}

/// A world stays well formed when only one resource slot's borrow state, or
/// its value within the slot's kind, changes.
proof fn lemma_world_wf_res_update(w0: World, w1: World, i: int)
    requires
        w0.wf(),
        w1.archetypes@ == w0.archetypes@,
        0 <= i < w0.resources@.len(),
        w1.resources@.len() == w0.resources@.len(),
        forall|j: int|
            0 <= j < w0.resources@.len() && j != i ==> w1.resources@[j] == w0.resources@[j],
        w1.resources@[i].ty == w0.resources@[i].ty,
        w1.resources@[i].value.tag_spec() == w1.resources@[i].ty,
        w1.resources@[i].state != Borrow::Shared(0usize),
    ensures
        w1.wf(),
{
    crate::resources::lemma_res_wf_update(w0.resources@, w1.resources@, i);
    assert(w1.tables() == w0.tables());
    assert forall|j: int| 0 <= j < w1.tables().len() implies (#[trigger] w1.tables()[j]).1.wf() by {
        assert(w0.tables()[j].1.wf());
    }
}

/// An empty world, as `World::new` builds it.
impl Default for World {
    fn default() -> (w: World)
        ensures
            w.tables() == Seq::<(u64, TableModel)>::empty(),
            w.systems@ == Seq::<SystemDef>::empty(),
            w.resources@ == Seq::<ResourceSlot>::empty(),
            w.wf(),
    {
        World::new()
    }
}

/// The top-level owner of all tables, resources and systems.
pub struct World {
    /// The per-archetype tables, keyed by archetype identity, in registration
    /// order.
    pub archetypes: Vec<(u64, Table)>,
    /// The registered systems, in registration order.
    pub systems: Vec<SystemDef>,
    /// The singleton resources, at most one per kind.
    pub resources: Vec<ResourceSlot>,
}

impl World {
    /// The tables' mathematical content, in registration order.
    pub open spec fn tables(self) -> Seq<(u64, TableModel)> {
        self.archetypes@.map_values(|p: (u64, Table)| (p.0, p.1@))
    }

    /// Every table is well formed, archetype identities are unique, and the
    /// resources are well formed.
    pub open spec fn wf(self) -> bool {
        &&& (forall|j: int| 0 <= j < self.tables().len() ==> (#[trigger] self.tables()[j]).1.wf())
        &&& (forall|j1: int, j2: int|
            0 <= j1 < j2 < self.tables().len() ==> self.tables()[j1].0 != self.tables()[j2].0)
        &&& res_wf(self.resources@)
    }

    /// Constructs an empty world: no tables, no systems, no resources.
    pub fn new() -> (w: World)
        ensures
            w.tables() == Seq::<(u64, TableModel)>::empty(),
            w.systems@ == Seq::<SystemDef>::empty(),
            w.resources@ == Seq::<ResourceSlot>::empty(),
            w.wf(),
    {
        let w = World { archetypes: Vec::new(), systems: Vec::new(), resources: Vec::new() };
        proof {
            assert(w.tables() =~= Seq::<(u64, TableModel)>::empty());
        }
        w
    }

    /// Registers a behavior; it runs on every later `tick` or `submit`, after
    /// all systems registered before it.
    pub fn with_system(self, system: SystemDef) -> (w: World)
        ensures
            w.archetypes@ == self.archetypes@,
            w.resources@ == self.resources@,
            w.systems@ == self.systems@.push(system),
    {
        let mut w = self;
        w.systems.push(system);
        w
    }

    /// Registers a handler: it runs `action` on every submitted event of kind
    /// `on`, and ignores `tick`.
    pub fn with_handler(self, on: EventKind, action: Action) -> (w: World)
        ensures
            w.archetypes@ == self.archetypes@,
            w.resources@ == self.resources@,
            w.systems@ == self.systems@.push(SystemDef::Handler(on, action)),
    {
        self.with_system(SystemDef::Handler(on, action))
    }

    /// Registers a ticker: it runs `action` once per `tick`, and ignores
    /// `submit`.
    pub fn with_ticker(self, action: Action) -> (w: World)
        ensures
            w.archetypes@ == self.archetypes@,
            w.resources@ == self.resources@,
            w.systems@ == self.systems@.push(SystemDef::Ticker(action)),
    {
        self.with_system(SystemDef::Ticker(action))
    }

    /// Inserts or replaces the singleton of `resource`'s kind.
    pub fn with_resource(self, resource: Value) -> (w: World)
        ensures
            w.archetypes@ == self.archetypes@,
            w.systems@ == self.systems@,
            w.resources@ == set_res(self.resources@, resource),
            self.wf() ==> w.wf(),
    {
        let mut w = self;
        apply_action_vec(&mut w.resources, Action::SetResource(resource));
        proof {
            if self.wf() {
                lemma_set_res(self.resources@, resource);
                assert(w.tables() == self.tables());
                assert forall|j: int|
                    0 <= j < w.tables().len() implies (#[trigger] w.tables()[j]).1.wf() by {
                    assert(self.tables()[j].1.wf());
                }
            }
        }
        w
    }

    /// Takes one more shared view of the resource of kind `ty` and returns a
    /// copy of its value; the view is given back with `release`.
    pub fn get(&mut self, ty: TypeTag) -> (r: Result<Value, EcsError>)
        ensures
            final(self).archetypes@ == old(self).archetypes@,
            final(self).systems@ == old(self).systems@,
            match r {
                Ok(v) => {
                    let i = find_res(old(self).resources@, ty);
                    &&& i >= 0
                    &&& old(self).resources@[i].state.can_share()
                    &&& v == old(self).resources@[i].value
                    &&& final(self).resources@.len() == old(self).resources@.len()
                    &&& (forall|j: int|
                        0 <= j < old(self).resources@.len() && j != i
                            ==> final(self).resources@[j] == old(self).resources@[j])
                    &&& final(self).resources@[i].ty == old(self).resources@[i].ty
                    &&& final(self).resources@[i].value == old(self).resources@[i].value
                    &&& final(self).resources@[i].state == old(
                        self,
                    ).resources@[i].state.bump_shared()
                },
                Err(e) => {
                    &&& final(self).resources@ == old(self).resources@
                    &&& (e == EcsError::Absent <==> find_res(old(self).resources@, ty) == -1)
                    &&& (e == EcsError::BorrowConflict <==> find_res(old(self).resources@, ty) >= 0
                        && !old(self).resources@[find_res(old(self).resources@, ty)].state.can_share())
                    &&& e != EcsError::SchemaViolation
                },
            },
            old(self).wf() ==> final(self).wf(),
    {
        match find_slot(&self.resources, ty) {
            None => Err(EcsError::Absent),
            Some(i) => {
                let cur = self.resources[i];
                match cur.state {
                    Borrow::Exclusive => Err(EcsError::BorrowConflict),
                    Borrow::Shared(n) => {
                        if n == usize::MAX {
                            Err(EcsError::BorrowConflict)
                        } else {
                            self.resources[i] = ResourceSlot {
                                ty: cur.ty,
                                state: Borrow::Shared(n + 1),
                                value: cur.value,
                            };
                            proof {
                                if old(self).wf() {
                                    lemma_world_wf_res_update(*old(self), *self, i as int);
                                }
                            }
                            Ok(cur.value)
                        }
                    },
                    Borrow::Free => {
                        self.resources[i] = ResourceSlot {
                            ty: cur.ty,
                            state: Borrow::Shared(1),
                            value: cur.value,
                        };
                        proof {
                            if old(self).wf() {
                                lemma_world_wf_res_update(*old(self), *self, i as int);
                            }
                        }
                        Ok(cur.value)
                    },
                }
            },
        }
    }

    /// Gives back one shared view of the resource of kind `ty`.
    pub fn release(&mut self, ty: TypeTag) -> (r: Result<(), EcsError>)
        ensures
            final(self).archetypes@ == old(self).archetypes@,
            final(self).systems@ == old(self).systems@,
            match r {
                Ok(()) => {
                    let i = find_res(old(self).resources@, ty);
                    &&& i >= 0
                    &&& old(self).resources@[i].state.is_shared()
                    &&& final(self).resources@.len() == old(self).resources@.len()
                    &&& (forall|j: int|
                        0 <= j < old(self).resources@.len() && j != i
                            ==> final(self).resources@[j] == old(self).resources@[j])
                    &&& final(self).resources@[i].ty == old(self).resources@[i].ty
                    &&& final(self).resources@[i].value == old(self).resources@[i].value
                    &&& final(self).resources@[i].state == old(
                        self,
                    ).resources@[i].state.drop_shared()
                },
                Err(e) => {
                    &&& final(self).resources@ == old(self).resources@
                    &&& (e == EcsError::Absent <==> find_res(old(self).resources@, ty) == -1)
                    &&& (e == EcsError::BorrowConflict <==> find_res(old(self).resources@, ty) >= 0
                        && !old(self).resources@[find_res(old(self).resources@, ty)].state.is_shared())
                    &&& e != EcsError::SchemaViolation
                },
            },
            old(self).wf() ==> final(self).wf(),
    {
        match find_slot(&self.resources, ty) {
            None => Err(EcsError::Absent),
            Some(i) => {
                let cur = self.resources[i];
                match cur.state {
                    Borrow::Shared(n) => {
                        let st = if n <= 1 {
                            Borrow::Free
                        } else {
                            Borrow::Shared(n - 1)
                        };
                        self.resources[i] = ResourceSlot { ty: cur.ty, state: st, value: cur.value };
                        proof {
                            if old(self).wf() {
                                lemma_world_wf_res_update(*old(self), *self, i as int);
                            }
                        }
                        Ok(())
                    },
                    _ => Err(EcsError::BorrowConflict),
                }
            },
        }
    }

    /// Takes the exclusive view of the resource of kind `ty` and returns a
    /// copy of its value; the value is handed back, possibly changed, through
    /// `release_mut`. Fails while any other view of it is outstanding.
    pub fn get_mut(&mut self, ty: TypeTag) -> (r: Result<Value, EcsError>)
        ensures
            final(self).archetypes@ == old(self).archetypes@,
            final(self).systems@ == old(self).systems@,
            match r {
                Ok(v) => {
                    let i = find_res(old(self).resources@, ty);
                    &&& i >= 0
                    &&& old(self).resources@[i].state == Borrow::Free
                    &&& v == old(self).resources@[i].value
                    &&& final(self).resources@.len() == old(self).resources@.len()
                    &&& (forall|j: int|
                        0 <= j < old(self).resources@.len() && j != i
                            ==> final(self).resources@[j] == old(self).resources@[j])
                    &&& final(self).resources@[i].ty == old(self).resources@[i].ty
                    &&& final(self).resources@[i].value == old(self).resources@[i].value
                    &&& final(self).resources@[i].state == Borrow::Exclusive
                },
                Err(e) => {
                    &&& final(self).resources@ == old(self).resources@
                    &&& (e == EcsError::Absent <==> find_res(old(self).resources@, ty) == -1)
                    &&& (e == EcsError::BorrowConflict <==> find_res(old(self).resources@, ty) >= 0
                        && old(self).resources@[find_res(old(self).resources@, ty)].state
                        != Borrow::Free)
                    &&& e != EcsError::SchemaViolation
                },
            },
            old(self).wf() ==> final(self).wf(),
    {
        match find_slot(&self.resources, ty) {
            None => Err(EcsError::Absent),
            Some(i) => {
                let cur = self.resources[i];
                match cur.state {
                    Borrow::Free => {
                        self.resources[i] = ResourceSlot {
                            ty: cur.ty,
                            state: Borrow::Exclusive,
                            value: cur.value,
                        };
                        proof {
                            if old(self).wf() {
                                lemma_world_wf_res_update(*old(self), *self, i as int);
                            }
                        }
                        Ok(cur.value)
                    },
                    _ => Err(EcsError::BorrowConflict),
                }
            },
        }
    }

    /// Gives back the exclusive view of the resource of kind `ty`, storing
    /// `value` as its new value. The new value must have the resource's kind.
    pub fn release_mut(&mut self, ty: TypeTag, value: Value) -> (r: Result<(), EcsError>)
        ensures
            final(self).archetypes@ == old(self).archetypes@,
            final(self).systems@ == old(self).systems@,
            match r {
                Ok(()) => {
                    let i = find_res(old(self).resources@, ty);
                    &&& i >= 0
                    &&& old(self).resources@[i].state == Borrow::Exclusive
                    &&& value.tag_spec() == ty
                    &&& final(self).resources@.len() == old(self).resources@.len()
                    &&& (forall|j: int|
                        0 <= j < old(self).resources@.len() && j != i
                            ==> final(self).resources@[j] == old(self).resources@[j])
                    &&& final(self).resources@[i].ty == old(self).resources@[i].ty
                    &&& final(self).resources@[i].value == value
                    &&& final(self).resources@[i].state == Borrow::Free
                },
                Err(e) => {
                    &&& final(self).resources@ == old(self).resources@
                    &&& (e == EcsError::Absent <==> find_res(old(self).resources@, ty) == -1)
                    &&& (e == EcsError::BorrowConflict <==> find_res(old(self).resources@, ty) >= 0
                        && old(self).resources@[find_res(old(self).resources@, ty)].state
                        != Borrow::Exclusive)
                    &&& (e == EcsError::SchemaViolation <==> find_res(old(self).resources@, ty) >= 0
                        && old(self).resources@[find_res(old(self).resources@, ty)].state
                        == Borrow::Exclusive && value.tag_spec() != ty)
                },
            },
            old(self).wf() ==> final(self).wf(),
    {
        match find_slot(&self.resources, ty) {
            None => Err(EcsError::Absent),
            Some(i) => {
                let cur = self.resources[i];
                match cur.state {
                    Borrow::Exclusive => {
                        if value.tag() != ty {
                            Err(EcsError::SchemaViolation)
                        } else {
                            proof {
                                lemma_find_res(old(self).resources@, ty);
                            }
                            self.resources[i] = ResourceSlot {
                                ty: cur.ty,
                                state: Borrow::Free,
                                value,
                            };
                            proof {
                                if old(self).wf() {
                                    lemma_world_wf_res_update(*old(self), *self, i as int);
                                }
                            }
                            Ok(())
                        }
                    },
                    _ => Err(EcsError::BorrowConflict),
                }
            },
        }
    }

    /// The position of archetype `id`'s table, if one has been created.
    fn find_table(&self, id: u64) -> (r: Option<usize>)
        ensures
            match r {
                Some(j) => j as int == find_arch(self.tables(), id) && j < self.archetypes@.len(),
                None => find_arch(self.tables(), id) == -1,
            },
    {
        let mut j: usize = 0;
        while j < self.archetypes.len()
            invariant
                j <= self.archetypes@.len(),
                self.tables().len() == self.archetypes@.len(),
                forall|k: int| 0 <= k < j as int ==> (#[trigger] self.tables()[k]).0 != id,
            decreases self.archetypes@.len() - j,
        {
            proof {
                assert(self.tables()[j as int].0 == self.archetypes@[j as int].0);
            }
            if self.archetypes[j].0 == id {
                proof {
                    lemma_find_arch(self.tables(), id);
                }
                return Some(j);
            }
            j += 1;
        }
        proof {
            lemma_find_arch(self.tables(), id);
        }
        None
    }

    /// Spawns one entity: looks up (or lazily creates) the archetype's table,
    /// appends exactly one row in schema order, and returns the new row's
    /// identity. The row must match the archetype's declaration, the
    /// declaration must match the table created for that identity, and no
    /// view of the table's columns may be outstanding.
    pub fn spawn(&mut self, arch: &Archetype, row: Vec<Value>) -> (r: Result<EntityId, EcsError>)
        requires
            old(self).wf(),
            find_arch(old(self).tables(), arch.id) >= 0 ==> old(self).tables()[find_arch(
                old(self).tables(),
                arch.id,
            )].1.length < usize::MAX,
        ensures
            final(self).systems@ == old(self).systems@,
            final(self).resources@ == old(self).resources@,
            final(self).wf(),
            match r {
                Ok(id) => ({
                    let j0 = find_arch(old(self).tables(), arch.id);
                    &&& row_matches_decl(arch.columns@, row@)
                    &&& id.arch == arch.id
                    &&& (if j0 == -1 {
                        &&& final(self).tables().len() == old(self).tables().len() + 1
                        &&& (forall|j: int|
                            0 <= j < old(self).tables().len() ==> #[trigger] final(self).tables()[j]
                                == old(self).tables()[j])
                        &&& final(self).tables()[old(self).tables().len() as int].0 == arch.id
                        &&& spawned_fresh(
                            arch.columns@,
                            row@,
                            final(self).tables()[old(self).tables().len() as int].1,
                        )
                        &&& id.index == 0
                    } else {
                        &&& old(self).tables()[j0].1.schema_is(arch.columns@)
                        &&& old(self).tables()[j0].1.all_free()
                        &&& final(self).tables().len() == old(self).tables().len()
                        &&& (forall|j: int|
                            0 <= j < old(self).tables().len() && j != j0
                                ==> #[trigger] final(self).tables()[j] == old(self).tables()[j])
                        &&& final(self).tables()[j0].0 == arch.id
                        &&& table_spawned(old(self).tables()[j0].1, row@, final(self).tables()[j0].1)
                        &&& id.index == old(self).tables()[j0].1.length
                    })
                }),
                Err(e) => ({
                    let j0 = find_arch(old(self).tables(), arch.id);
                    &&& final(self).tables() == old(self).tables()
                    &&& (e == EcsError::SchemaViolation <==> !row_matches_decl(arch.columns@, row@)
                        || (j0 >= 0 && !old(self).tables()[j0].1.schema_is(arch.columns@)))
                    &&& (e == EcsError::BorrowConflict <==> row_matches_decl(arch.columns@, row@)
                        && j0 >= 0 && old(self).tables()[j0].1.schema_is(arch.columns@) && !old(
                        self,
                    ).tables()[j0].1.all_free())
                    &&& e != EcsError::Absent
                }),
            },
    {
        if row.len() != arch.columns.len() {
            return Err(EcsError::SchemaViolation);
        }
        let mut k: usize = 0;
        while k < row.len()
            invariant
                k <= row@.len(),
                row@.len() == arch.columns@.len(),
                *self == *old(self),
                old(self).wf(),
                forall|j: int|
                    0 <= j < k as int ==> (#[trigger] row@[j]).tag_spec() == arch.columns@[j],
            decreases row@.len() - k,
        {
            if row[k].tag() != arch.columns[k] {
                return Err(EcsError::SchemaViolation);
            }
            k += 1;
        }
        match self.find_table(arch.id) {
            None => {
                let mut t = Table::new(&arch.columns);
                let res = t.push_row(&row);
                match res {
                    Ok(()) => {},
                    Err(_) => {
                        proof {
                            assert(false);
                        }
                        return Err(EcsError::SchemaViolation);
                    },
                }
                proof {
                    lemma_find_arch(old(self).tables(), arch.id);
                }
                self.archetypes.push((arch.id, t));
                proof {
                    assert forall|j: int|
                        0 <= j < old(self).tables().len() implies #[trigger] self.tables()[j]
                        == old(self).tables()[j] by {
                        assert(self.archetypes@[j] == old(self).archetypes@[j]);
                    }
                    assert(self.tables()[old(self).tables().len() as int].0 == arch.id);
                    assert forall|j: int|
                        0 <= j < self.tables().len() implies (#[trigger] self.tables()[j]).1.wf() by {
                        if j < old(self).tables().len() {
                            assert(old(self).tables()[j].1.wf());
                        }
                    }
                    assert forall|j1: int, j2: int|
                        0 <= j1 < j2 < self.tables().len() implies self.tables()[j1].0
                        != self.tables()[j2].0 by {
                        if j2 < old(self).tables().len() {
                            assert(old(self).tables()[j1].0 != old(self).tables()[j2].0);
                        } else {
                            assert(old(self).tables()[j1].0 != arch.id);
                        }
                    }
                }
                Ok(EntityId { arch: arch.id, index: 0 })
            },
            Some(j) => {
                if !self.archetypes[j].1.schema_matches(&arch.columns) {
                    return Err(EcsError::SchemaViolation);
                }
                proof {
                    assert(self.tables()[j as int].1 == self.archetypes@[j as int].1@);
                }
                let res = self.archetypes[j].1.push_row(&row);
                match res {
                    Ok(()) => {
                        let n = self.archetypes[j].1.len();
                        proof {
                            lemma_find_arch(old(self).tables(), arch.id);
                            assert(self.tables()[j as int].1 == self.archetypes@[j as int].1@);
                            assert(self.tables()[j as int].0 == self.archetypes@[j as int].0);
                            assert(self.archetypes@[j as int].0 == old(self).archetypes@[j as
                                int].0);
                            assert(old(self).tables()[j as int].0 == arch.id);
                            assert forall|j2: int|
                                0 <= j2 < old(self).tables().len() && j2 != j as int
                                    implies #[trigger] self.tables()[j2] == old(self).tables()[j2] by {
                                assert(self.archetypes@[j2] == old(self).archetypes@[j2]);
                            }
                            assert forall|j2: int|
                                0 <= j2 < self.tables().len() implies (#[trigger] self.tables()[j2]).1.wf() by {
                                if j2 != j as int {
                                    assert(old(self).tables()[j2].1.wf());
                                }
                            }
                            assert forall|j1: int, j2: int|
                                0 <= j1 < j2 < self.tables().len() implies self.tables()[j1].0
                                != self.tables()[j2].0 by {
                                assert(old(self).tables()[j1].0 != old(self).tables()[j2].0);
                            }
                        }
                        Ok(EntityId { arch: arch.id, index: n - 1 })
                    },
                    Err(e) => {
                        proof {
                            assert(old(self).tables()[j as int].1.row_matches(row@));
                            assert(e == EcsError::BorrowConflict);
                            assert(final(self).tables() =~= old(self).tables());
                            lemma_world_wf_same_views(*old(self), *self);
                        }
                        Err(e)
                    },
                }
            },
        }
    }

    /// Takes a shared view of every column of kind `ty` across all tables and
    /// returns the flattened values: row order is kept within a table, tables
    /// follow registration order, and tables whose schema lacks the kind are
    /// skipped. Fails with a borrow conflict, acquiring nothing, if any
    /// matched column has an outstanding exclusive view.
    pub fn query_shared(&mut self, ty: TypeTag) -> (r: Result<Columns, EcsError>)
        ensures
            final(self).systems@ == old(self).systems@,
            final(self).resources@ == old(self).resources@,
            old(self).wf() ==> final(self).wf(),
            match r {
                Ok(g) => {
                    &&& shared_ok(old(self).tables(), ty)
                    &&& g.tag == ty
                    &&& g.items@ == query_seq(old(self).tables(), ty)
                    &&& matched_exact(old(self).tables(), ty, g.tables@)
                    &&& shared_acquired(old(self).tables(), final(self).tables(), ty)
                },
                Err(e) => {
                    &&& final(self).tables() == old(self).tables()
                    &&& e == EcsError::BorrowConflict
                    &&& !shared_ok(old(self).tables(), ty)
                },
            },
    {
        let n = self.archetypes.len();
        let mut j: usize = 0;
        while j < n
            invariant
                j <= n,
                n == self.archetypes@.len(),
                *self == *old(self),
                forall|j2: int|
                    0 <= j2 < j as int && (#[trigger] self.tables()[j2]).1.has_tag(ty)
                        ==> self.tables()[j2].1.cols[self.tables()[j2].1.tag_idx(
                        ty,
                    )].state.can_share(),
            decreases n - j,
        {
            proof {
                assert(self.tables()[j as int].1 == self.archetypes@[j as int].1@);
            }
            match self.archetypes[j].1.column_state(ty) {
                Some(st) => {
                    match st {
                        Borrow::Exclusive => {
                            return Err(EcsError::BorrowConflict);
                        },
                        Borrow::Shared(c) => {
                            if c == usize::MAX {
                                return Err(EcsError::BorrowConflict);
                            }
                        },
                        Borrow::Free => {},
                    }
                },
                None => {},
            }
            j += 1;
        }
        let ghost t0 = old(self).tables();
        let mut tabs: Vec<usize> = Vec::new();
        let mut items: Vec<Value> = Vec::new();
        j = 0;
        while j < n
            invariant
                j <= n,
                n == self.archetypes@.len(),
                n == t0.len(),
                self.systems@ == old(self).systems@,
                self.resources@ == old(self).resources@,
                self.resources@.len() == old(self).resources@.len(),
                t0 == old(self).tables(),
                old(self).wf() ==> res_wf(self.resources@),
                shared_ok(t0, ty),
                forall|j2: int| j as int <= j2 < t0.len() ==> #[trigger] self.tables()[j2] == t0[j2],
                forall|j2: int| 0 <= j2 < j as int ==> {
                    &&& (#[trigger] self.tables()[j2]).0 == t0[j2].0
                    &&& (if t0[j2].1.has_tag(ty) {
                        table_bumped(t0[j2].1, self.tables()[j2].1, ty)
                    } else {
                        self.tables()[j2].1 == t0[j2].1
                    })
                },
                items@ == query_seq(t0.take(j as int), ty),
                forall|k1: int, k2: int| 0 <= k1 < k2 < tabs@.len() ==> tabs@[k1] < tabs@[k2],
                forall|k: int|
                    #![trigger tabs@[k]]
                    0 <= k < tabs@.len() ==> tabs@[k] < j && t0[tabs@[k] as int].1.has_tag(ty),
                forall|j2: int|
                    0 <= j2 < j as int && (#[trigger] t0[j2]).1.has_tag(ty) ==> exists|k: int|
                        0 <= k < tabs@.len() && tabs@[k] as int == j2,
            decreases n - j,
        {
            proof {
                assert(self.tables()[j as int] == t0[j as int]);
                assert(self.tables()[j as int].1 == self.archetypes@[j as int].1@);
            }
            let ghost prev = self.archetypes@;
            let ghost tprev = self.tables();
            let ghost tabs0 = tabs@;
            let res = self.archetypes[j].1.column(ty);
            proof {
                assert forall|j2: int|
                    0 <= j2 < t0.len() && j2 != j as int implies #[trigger] self.tables()[j2]
                    == tprev[j2] by {
                    assert(self.archetypes@[j2] == prev[j2]);
                    assert(tprev[j2] == (prev[j2].0, prev[j2].1@));
                    assert(self.tables()[j2] == (self.archetypes@[j2].0, self.archetypes@[j2].1@));
                }
                assert(self.archetypes@[j as int].0 == prev[j as int].0);
                assert(self.tables()[j as int].0 == tprev[j as int].0);
                assert(self.tables()[j as int].1 == self.archetypes@[j as int].1@);
            }
            match res {
                Ok(mut part) => {
                    proof {
                        lemma_query_seq_snoc(t0, ty, j as int);
                        assert(part@ == t0[j as int].1.tag_data(ty));
                        assert(table_bumped(t0[j as int].1, self.tables()[j as int].1, ty));
                    }
                    items.append(&mut part);
                    tabs.push(j);
                    proof {
                        assert forall|j2: int|
                            0 <= j2 < (j + 1) as int && (#[trigger] t0[j2]).1.has_tag(ty)
                                implies exists|k: int|
                            0 <= k < tabs@.len() && tabs@[k] as int == j2 by {
                            if j2 < j as int {
                                let k0 = choose|k: int|
                                    0 <= k < tabs0.len() && tabs0[k] as int == j2;
                                assert(tabs@[k0] as int == j2);
                            } else {
                                assert(tabs@[tabs@.len() - 1] as int == j2);
                            }
                        }
                    }
                },
                Err(e) => {
                    match e {
                        EcsError::Absent => {
                            proof {
                                lemma_query_seq_snoc(t0, ty, j as int);
                                assert(items@ + Seq::<Value>::empty() =~= items@);
                            }
                        },
                        _ => {
                            proof {
                                assert(false);
                            }
                            return Err(EcsError::BorrowConflict);
                        },
                    }
                },
            }
            j += 1;
        }
        proof {
            assert(t0.take(n as int) =~= t0);
            if old(self).wf() {
                assert forall|j2: int|
                    0 <= j2 < self.tables().len() implies (#[trigger] self.tables()[j2]).1.wf() by {
                    assert(old(self).tables()[j2].1.wf());
                    if t0[j2].1.has_tag(ty) {
                        let m0 = t0[j2].1;
                        let m1 = self.tables()[j2].1;
                        crate::table::lemma_first_tag_idx(m0.cols, ty);
                        assert(m0.cols[m0.tag_idx(ty)].wf(m0.length));
                        crate::table::lemma_wf_after_state_change(m0, m1, m0.tag_idx(ty));
                    }
                }
                assert forall|j1: int, j2: int|
                    0 <= j1 < j2 < self.tables().len() implies self.tables()[j1].0
                    != self.tables()[j2].0 by {
                    assert(old(self).tables()[j1].0 != old(self).tables()[j2].0);
                }
            }
        }
        Ok(Columns { tag: ty, tables: tabs, items })
    }

    /// Takes the exclusive view of every column of kind `ty` across all
    /// tables and returns the flattened values for editing; they are handed
    /// back through `release_query_mut`. Tables whose schema lacks the kind
    /// are skipped. Fails with a borrow conflict, acquiring nothing, if any
    /// view of any matched column is outstanding.
    pub fn query_mut(&mut self, ty: TypeTag) -> (r: Result<ColumnsMut, EcsError>)
        ensures
            final(self).systems@ == old(self).systems@,
            final(self).resources@ == old(self).resources@,
            old(self).wf() ==> final(self).wf(),
            match r {
                Ok(g) => {
                    &&& exclusive_ok(old(self).tables(), ty)
                    &&& g.tag == ty
                    &&& g.items@ == query_seq(old(self).tables(), ty)
                    &&& matched_exact(old(self).tables(), ty, g.tables@)
                    &&& g.lens@.len() == g.tables@.len()
                    &&& sum_prefix(g.lens@, g.lens@.len() as int) == g.items@.len()
                    &&& (forall|k: int|
                        #![trigger g.tables@[k]]
                        0 <= k < g.tables@.len() ==> {
                            &&& g.lens@[k] == old(self).tables()[g.tables@[k] as int].1.tag_data(
                                ty,
                            ).len()
                            &&& g.items@.subrange(
                                sum_prefix(g.lens@, k),
                                sum_prefix(g.lens@, k + 1),
                            ) == old(self).tables()[g.tables@[k] as int].1.tag_data(ty)
                        })
                    &&& exclusive_acquired(old(self).tables(), final(self).tables(), ty)
                },
                Err(e) => {
                    &&& final(self).tables() == old(self).tables()
                    &&& e == EcsError::BorrowConflict
                    &&& !exclusive_ok(old(self).tables(), ty)
                },
            },
    {
        let n = self.archetypes.len();
        let mut j: usize = 0;
        while j < n
            invariant
                j <= n,
                n == self.archetypes@.len(),
                *self == *old(self),
                forall|j2: int|
                    0 <= j2 < j as int && (#[trigger] self.tables()[j2]).1.has_tag(ty)
                        ==> self.tables()[j2].1.cols[self.tables()[j2].1.tag_idx(ty)].state
                        == Borrow::Free,
            decreases n - j,
        {
            proof {
                assert(self.tables()[j as int].1 == self.archetypes@[j as int].1@);
            }
            match self.archetypes[j].1.column_state(ty) {
                Some(st) => {
                    match st {
                        Borrow::Free => {},
                        _ => {
                            return Err(EcsError::BorrowConflict);
                        },
                    }
                },
                None => {},
            }
            j += 1;
        }
        let ghost t0 = old(self).tables();
        let mut tabs: Vec<usize> = Vec::new();
        let mut lens: Vec<usize> = Vec::new();
        let mut items: Vec<Value> = Vec::new();
        j = 0;
        while j < n
            invariant
                j <= n,
                n == self.archetypes@.len(),
                n == t0.len(),
                self.systems@ == old(self).systems@,
                self.resources@ == old(self).resources@,
                t0 == old(self).tables(),
                exclusive_ok(t0, ty),
                forall|j2: int| j as int <= j2 < t0.len() ==> #[trigger] self.tables()[j2] == t0[j2],
                forall|j2: int| 0 <= j2 < j as int ==> {
                    &&& (#[trigger] self.tables()[j2]).0 == t0[j2].0
                    &&& (if t0[j2].1.has_tag(ty) {
                        table_taken(t0[j2].1, self.tables()[j2].1, ty)
                    } else {
                        self.tables()[j2].1 == t0[j2].1
                    })
                },
                items@ == query_seq(t0.take(j as int), ty),
                lens@.len() == tabs@.len(),
                sum_prefix(lens@, lens@.len() as int) == items@.len(),
                forall|k1: int, k2: int| 0 <= k1 < k2 < tabs@.len() ==> tabs@[k1] < tabs@[k2],
                forall|k: int|
                    #![trigger tabs@[k]]
                    0 <= k < tabs@.len() ==> {
                        &&& tabs@[k] < j
                        &&& t0[tabs@[k] as int].1.has_tag(ty)
                        &&& lens@[k] == t0[tabs@[k] as int].1.tag_data(ty).len()
                        &&& items@.subrange(sum_prefix(lens@, k), sum_prefix(lens@, k + 1))
                            == t0[tabs@[k] as int].1.tag_data(ty)
                    },
                forall|j2: int|
                    0 <= j2 < j as int && (#[trigger] t0[j2]).1.has_tag(ty) ==> exists|k: int|
                        0 <= k < tabs@.len() && tabs@[k] as int == j2,
            decreases n - j,
        {
            proof {
                assert(self.tables()[j as int] == t0[j as int]);
                assert(self.tables()[j as int].1 == self.archetypes@[j as int].1@);
            }
            let ghost prev = self.archetypes@;
            let ghost tprev = self.tables();
            let ghost tabs0 = tabs@;
            let ghost lens0 = lens@;
            let ghost items0 = items@;
            let res = self.archetypes[j].1.column_mut(ty);
            proof {
                assert forall|j2: int|
                    0 <= j2 < t0.len() && j2 != j as int implies #[trigger] self.tables()[j2]
                    == tprev[j2] by {
                    assert(self.archetypes@[j2] == prev[j2]);
                    assert(tprev[j2] == (prev[j2].0, prev[j2].1@));
                    assert(self.tables()[j2] == (self.archetypes@[j2].0, self.archetypes@[j2].1@));
                }
                assert(self.archetypes@[j as int].0 == prev[j as int].0);
                assert(self.tables()[j as int].0 == tprev[j as int].0);
                assert(self.tables()[j as int].1 == self.archetypes@[j as int].1@);
            }
            match res {
                Ok(mut part) => {
                    let plen = part.len();
                    let ghost partv = part@;
                    proof {
                        lemma_query_seq_snoc(t0, ty, j as int);
                        assert(part@ == t0[j as int].1.tag_data(ty));
                        assert(table_taken(t0[j as int].1, self.tables()[j as int].1, ty));
                    }
                    items.append(&mut part);
                    tabs.push(j);
                    lens.push(plen);
                    proof {
                        lemma_sum_prefix_push(lens0, plen, lens0.len() as int);
                        assert(sum_prefix(lens@, lens@.len() as int) == sum_prefix(
                            lens0,
                            lens0.len() as int,
                        ) + plen);
                        assert forall|k: int|
                            #![trigger tabs@[k]]
                            0 <= k < tabs@.len() implies {
                            &&& tabs@[k] < j + 1
                            &&& t0[tabs@[k] as int].1.has_tag(ty)
                            &&& lens@[k] == t0[tabs@[k] as int].1.tag_data(ty).len()
                            &&& items@.subrange(sum_prefix(lens@, k), sum_prefix(lens@, k + 1))
                                == t0[tabs@[k] as int].1.tag_data(ty)
                        } by {
                            lemma_sum_prefix_push(lens0, plen, k);
                            if k < tabs0.len() {
                                lemma_sum_prefix_push(lens0, plen, k + 1);
                                lemma_sum_prefix_mono(lens0, k + 1, lens0.len() as int);
                                lemma_sum_prefix_mono(lens0, 0, k);
                                assert(tabs@[k] == tabs0[k]);
                                assert(lens@[k] == lens0[k]);
                                assert(items@.subrange(
                                    sum_prefix(lens0, k),
                                    sum_prefix(lens0, k + 1),
                                ) =~= items0.subrange(sum_prefix(lens0, k), sum_prefix(lens0, k + 1)));
                            } else {
                                assert(k == lens0.len());
                                assert(sum_prefix(lens@, k) == items0.len() as int);
                                assert(sum_prefix(lens@, k + 1) == items0.len() + plen);
                                assert(items@.subrange(
                                    items0.len() as int,
                                    items0.len() + plen,
                                ) =~= partv);
                            }
                        }
                        assert forall|j2: int|
                            0 <= j2 < (j + 1) as int && (#[trigger] t0[j2]).1.has_tag(ty)
                                implies exists|k: int|
                            0 <= k < tabs@.len() && tabs@[k] as int == j2 by {
                            if j2 < j as int {
                                let k0 = choose|k: int|
                                    0 <= k < tabs0.len() && tabs0[k] as int == j2;
                                assert(tabs@[k0] as int == j2);
                            } else {
                                assert(tabs@[tabs@.len() - 1] as int == j2);
                            }
                        }
                    }
                },
                Err(e) => {
                    match e {
                        EcsError::Absent => {
                            proof {
                                lemma_query_seq_snoc(t0, ty, j as int);
                                assert(items@ + Seq::<Value>::empty() =~= items@);
                            }
                        },
                        _ => {
                            proof {
                                assert(false);
                            }
                            return Err(EcsError::BorrowConflict);
                        },
                    }
                },
            }
            j += 1;
        }
        proof {
            assert(t0.take(n as int) =~= t0);
            if old(self).wf() {
                assert forall|j2: int|
                    0 <= j2 < self.tables().len() implies (#[trigger] self.tables()[j2]).1.wf() by {
                    assert(old(self).tables()[j2].1.wf());
                    if t0[j2].1.has_tag(ty) {
                        let m0 = t0[j2].1;
                        let m1 = self.tables()[j2].1;
                        crate::table::lemma_first_tag_idx(m0.cols, ty);
                        assert(m0.cols[m0.tag_idx(ty)].wf(m0.length));
                        crate::table::lemma_wf_after_state_change(m0, m1, m0.tag_idx(ty));
                    }
                }
                assert forall|j1: int, j2: int|
                    0 <= j1 < j2 < self.tables().len() implies self.tables()[j1].0
                    != self.tables()[j2].0 by {
                    assert(old(self).tables()[j1].0 != old(self).tables()[j2].0);
                }
            }
        }
        Ok(ColumnsMut { tag: ty, tables: tabs, lens, items })
    }

    /// Executes one query request over the current registry state: a shared
    /// request takes a shared view, an exclusive request the exclusive view.
    pub fn query(&mut self, q: Query) -> (r: Result<QueryOutput, EcsError>)
        ensures
            final(self).systems@ == old(self).systems@,
            final(self).resources@ == old(self).resources@,
            old(self).wf() ==> final(self).wf(),
            match r {
                Ok(out) => {
                    &&& query_ok(old(self).tables(), q)
                    &&& output_wf(old(self).tables(), q, out)
                    &&& (match q {
                        Query::Shared(ty) => shared_acquired(
                            old(self).tables(),
                            final(self).tables(),
                            ty,
                        ),
                        Query::Exclusive(ty) => exclusive_acquired(
                            old(self).tables(),
                            final(self).tables(),
                            ty,
                        ),
                    })
                },
                Err(e) => {
                    &&& final(self).tables() == old(self).tables()
                    &&& e == EcsError::BorrowConflict
                    &&& !query_ok(old(self).tables(), q)
                },
            },
    {
        match q {
            Query::Shared(ty) => {
                match self.query_shared(ty) {
                    Ok(g) => Ok(QueryOutput::Shared(g)),
                    Err(e) => Err(e),
                }
            },
            Query::Exclusive(ty) => {
                match self.query_mut(ty) {
                    Ok(g) => Ok(QueryOutput::Exclusive(g)),
                    Err(e) => Err(e),
                }
            },
        }
    }

    /// Gives back the shared views that `g` holds, one per matched table.
    /// Fails with a borrow conflict, changing nothing, if `g` does not match
    /// outstanding shared views.
    pub fn release_query(&mut self, g: Columns) -> (r: Result<(), EcsError>)
        ensures
            final(self).systems@ == old(self).systems@,
            final(self).resources@ == old(self).resources@,
            old(self).wf() ==> final(self).wf(),
            match r {
                Ok(()) => {
                    &&& release_shared_ok(old(self).tables(), g.tag, g.tables@)
                    &&& final(self).tables().len() == old(self).tables().len()
                    &&& (forall|j: int| 0 <= j < old(self).tables().len() ==> {
                        &&& (#[trigger] final(self).tables()[j]).0 == old(self).tables()[j].0
                        &&& (if contains_idx(g.tables@, j) {
                            table_dropped(
                                old(self).tables()[j].1,
                                final(self).tables()[j].1,
                                g.tag,
                            )
                        } else {
                            final(self).tables()[j].1 == old(self).tables()[j].1
                        })
                    })
                },
                Err(e) => {
                    &&& final(self).tables() == old(self).tables()
                    &&& e == EcsError::BorrowConflict
                    &&& !release_shared_ok(old(self).tables(), g.tag, g.tables@)
                },
            },
    {
        let m = g.tables.len();
        let mut k: usize = 0;
        while k < m
            invariant
                k <= m,
                m == g.tables@.len(),
                *self == *old(self),
                forall|k1: int, k2: int|
                    0 <= k1 < k2 < k as int ==> g.tables@[k1] < g.tables@[k2],
                forall|k2: int|
                    #![trigger g.tables@[k2]]
                    0 <= k2 < k as int ==> {
                        &&& g.tables@[k2] < self.tables().len()
                        &&& self.tables()[g.tables@[k2] as int].1.has_tag(g.tag)
                        &&& self.tables()[g.tables@[k2] as int].1.cols[self.tables()[g.tables@[k2] as int].1.tag_idx(
                            g.tag,
                        )].state.is_shared()
                    },
            decreases m - k,
        {
            let idx = g.tables[k];
            if idx >= self.archetypes.len() {
                return Err(EcsError::BorrowConflict);
            }
            if k > 0 && g.tables[k - 1] >= idx {
                return Err(EcsError::BorrowConflict);
            }
            proof {
                assert(self.tables()[idx as int].1 == self.archetypes@[idx as int].1@);
            }
            match self.archetypes[idx].1.column_state(g.tag) {
                Some(st) => {
                    match st {
                        Borrow::Shared(_) => {},
                        _ => {
                            return Err(EcsError::BorrowConflict);
                        },
                    }
                },
                None => {
                    return Err(EcsError::BorrowConflict);
                },
            }
            k += 1;
        }
        let ghost t0 = old(self).tables();
        k = 0;
        while k < m
            invariant
                k <= m,
                m == g.tables@.len(),
                self.archetypes@.len() == old(self).archetypes@.len(),
                self.systems@ == old(self).systems@,
                self.resources@ == old(self).resources@,
                t0 == old(self).tables(),
                release_shared_ok(t0, g.tag, g.tables@),
                forall|j: int|
                    0 <= j < t0.len() && !contains_idx(g.tables@.take(k as int), j)
                        ==> #[trigger] self.tables()[j] == t0[j],
                forall|j: int|
                    0 <= j < t0.len() && contains_idx(g.tables@.take(k as int), j) ==> {
                        &&& (#[trigger] self.tables()[j]).0 == t0[j].0
                        &&& table_dropped(t0[j].1, self.tables()[j].1, g.tag)
                    },
            decreases m - k,
        {
            let idx = g.tables[k];
            proof {
                lemma_increasing_not_in_prefix(g.tables@, k as int);
                assert(self.tables()[idx as int] == t0[idx as int]);
                assert(self.tables()[idx as int].1 == self.archetypes@[idx as int].1@);
            }
            let ghost prev = self.archetypes@;
            let ghost tprev = self.tables();
            let res = self.archetypes[idx].1.release_column(g.tag);
            proof {
                assert forall|j2: int|
                    0 <= j2 < t0.len() && j2 != idx as int implies #[trigger] self.tables()[j2]
                    == tprev[j2] by {
                    assert(self.archetypes@[j2] == prev[j2]);
                    assert(tprev[j2] == (prev[j2].0, prev[j2].1@));
                    assert(self.tables()[j2] == (self.archetypes@[j2].0, self.archetypes@[j2].1@));
                }
                assert(self.archetypes@[idx as int].0 == prev[idx as int].0);
                assert(self.tables()[idx as int].0 == tprev[idx as int].0);
                assert(self.tables()[idx as int].1 == self.archetypes@[idx as int].1@);
            }
            match res {
                Ok(()) => {},
                Err(_) => {
                    proof {
                        assert(false);
                    }
                    return Err(EcsError::BorrowConflict);
                },
            }
            proof {
                assert(table_dropped(t0[idx as int].1, self.tables()[idx as int].1, g.tag));
                assert forall|j: int|
                    0 <= j < t0.len() && !contains_idx(
                        g.tables@.take(k as int + 1),
                        j,
                    ) implies #[trigger] self.tables()[j] == t0[j] by {
                    lemma_contains_idx_take_succ(g.tables@, k as int, j);
                }
                assert forall|j: int|
                    0 <= j < t0.len() && contains_idx(g.tables@.take(k as int + 1), j) implies {
                    &&& (#[trigger] self.tables()[j]).0 == t0[j].0
                    &&& table_dropped(t0[j].1, self.tables()[j].1, g.tag)
                } by {
                    lemma_contains_idx_take_succ(g.tables@, k as int, j);
                }
            }
            k += 1;
        }
        proof {
            assert(g.tables@.take(m as int) =~= g.tables@);
            if old(self).wf() {
                assert forall|j2: int|
                    0 <= j2 < self.tables().len() implies (#[trigger] self.tables()[j2]).1.wf() by {
                    assert(old(self).tables()[j2].1.wf());
                    if contains_idx(g.tables@, j2) {
                        let m0 = t0[j2].1;
                        let m1 = self.tables()[j2].1;
                        crate::table::lemma_first_tag_idx(m0.cols, g.tag);
                        assert(m0.cols[m0.tag_idx(g.tag)].wf(m0.length));
                        crate::table::lemma_wf_after_state_change(m0, m1, m0.tag_idx(g.tag));
                    }
                }
                assert forall|j1: int, j2: int|
                    0 <= j1 < j2 < self.tables().len() implies self.tables()[j1].0
                    != self.tables()[j2].0 by {
                    assert(old(self).tables()[j1].0 != old(self).tables()[j2].0);
                }
            }
        }
        Ok(())
    }

    /// Gives back the exclusive views that `g` holds, storing the flattened
    /// values back into the matched columns, segment by segment in table
    /// order. Fails with a borrow conflict if `g` does not match outstanding
    /// exclusive views, and with a schema violation if any value's kind is
    /// not the view's kind; either way nothing changes.
    pub fn release_query_mut(&mut self, g: ColumnsMut) -> (r: Result<(), EcsError>)
        ensures
            final(self).systems@ == old(self).systems@,
            final(self).resources@ == old(self).resources@,
            old(self).wf() ==> final(self).wf(),
            match r {
                Ok(()) => {
                    &&& release_exclusive_ok(
                        old(self).tables(),
                        g.tag,
                        g.tables@,
                        g.lens@,
                        g.items@.len() as int,
                    )
                    &&& guard_tags_ok(g.items@, g.tag)
                    &&& final(self).tables().len() == old(self).tables().len()
                    &&& (forall|j: int|
                        0 <= j < old(self).tables().len() && !contains_idx(g.tables@, j)
                            ==> #[trigger] final(self).tables()[j] == old(self).tables()[j])
                    &&& (forall|k: int|
                        #![trigger g.tables@[k]]
                        0 <= k < g.tables@.len() ==> {
                            &&& final(self).tables()[g.tables@[k] as int].0 == old(
                                self,
                            ).tables()[g.tables@[k] as int].0
                            &&& table_written(
                                old(self).tables()[g.tables@[k] as int].1,
                                final(self).tables()[g.tables@[k] as int].1,
                                g.tag,
                                g.items@.subrange(
                                    sum_prefix(g.lens@, k),
                                    sum_prefix(g.lens@, k + 1),
                                ),
                            )
                        })
                },
                Err(e) => {
                    &&& final(self).tables() == old(self).tables()
                    &&& (e == EcsError::BorrowConflict <==> !release_exclusive_ok(
                        old(self).tables(),
                        g.tag,
                        g.tables@,
                        g.lens@,
                        g.items@.len() as int,
                    ))
                    &&& (e == EcsError::SchemaViolation <==> release_exclusive_ok(
                        old(self).tables(),
                        g.tag,
                        g.tables@,
                        g.lens@,
                        g.items@.len() as int,
                    ) && !guard_tags_ok(g.items@, g.tag))
                    &&& e != EcsError::Absent
                },
            },
    {
        let m = g.tables.len();
        if g.lens.len() != m {
            return Err(EcsError::BorrowConflict);
        }
        let total = g.items.len();
        let mut off: usize = 0;
        let mut k: usize = 0;
        while k < m
            invariant
                k <= m,
                m == g.tables@.len(),
                m == g.lens@.len(),
                total == g.items@.len(),
                *self == *old(self),
                off as int == sum_prefix(g.lens@, k as int),
                off <= total,
                forall|k1: int, k2: int|
                    0 <= k1 < k2 < k as int ==> g.tables@[k1] < g.tables@[k2],
                forall|k2: int|
                    #![trigger g.tables@[k2]]
                    0 <= k2 < k as int ==> {
                        &&& g.tables@[k2] < self.tables().len()
                        &&& self.tables()[g.tables@[k2] as int].1.has_tag(g.tag)
                        &&& self.tables()[g.tables@[k2] as int].1.cols[self.tables()[g.tables@[k2] as int].1.tag_idx(
                            g.tag,
                        )].state == Borrow::Exclusive
                        &&& self.tables()[g.tables@[k2] as int].1.tag_data(g.tag).len()
                            == g.lens@[k2]
                    },
            decreases m - k,
        {
            let idx = g.tables[k];
            if idx >= self.archetypes.len() {
                return Err(EcsError::BorrowConflict);
            }
            if k > 0 && g.tables[k - 1] >= idx {
                return Err(EcsError::BorrowConflict);
            }
            proof {
                assert(self.tables()[idx as int].1 == self.archetypes@[idx as int].1@);
            }
            match self.archetypes[idx].1.column_state(g.tag) {
                Some(st) => {
                    match st {
                        Borrow::Exclusive => {},
                        _ => {
                            return Err(EcsError::BorrowConflict);
                        },
                    }
                },
                None => {
                    return Err(EcsError::BorrowConflict);
                },
            }
            let want = g.lens[k];
            match self.archetypes[idx].1.column_len(g.tag) {
                Some(have) => {
                    if have != want {
                        return Err(EcsError::BorrowConflict);
                    }
                },
                None => {
                    return Err(EcsError::BorrowConflict);
                },
            }
            if want > total - off {
                proof {
                    lemma_sum_prefix_mono(g.lens@, k as int + 1, g.lens@.len() as int);
                }
                return Err(EcsError::BorrowConflict);
            }
            off = off + want;
            k += 1;
        }
        if off != total {
            return Err(EcsError::BorrowConflict);
        }
        let mut i: usize = 0;
        while i < total
            invariant
                i <= total,
                total == g.items@.len(),
                *self == *old(self),
                release_exclusive_ok(
                    old(self).tables(),
                    g.tag,
                    g.tables@,
                    g.lens@,
                    g.items@.len() as int,
                ),
                forall|i2: int|
                    0 <= i2 < i as int ==> (#[trigger] g.items@[i2]).tag_spec() == g.tag,
            decreases total - i,
        {
            if g.items[i].tag() != g.tag {
                return Err(EcsError::SchemaViolation);
            }
            i += 1;
        }
        let ghost t0 = old(self).tables();
        off = 0;
        k = 0;
        while k < m
            invariant
                k <= m,
                m == g.tables@.len(),
                m == g.lens@.len(),
                total == g.items@.len(),
                self.archetypes@.len() == old(self).archetypes@.len(),
                self.systems@ == old(self).systems@,
                self.resources@ == old(self).resources@,
                t0 == old(self).tables(),
                release_exclusive_ok(t0, g.tag, g.tables@, g.lens@, g.items@.len() as int),
                guard_tags_ok(g.items@, g.tag),
                off as int == sum_prefix(g.lens@, k as int),
                off <= total,
                forall|j: int|
                    0 <= j < t0.len() && !contains_idx(g.tables@.take(k as int), j)
                        ==> #[trigger] self.tables()[j] == t0[j],
                forall|k2: int|
                    #![trigger g.tables@[k2]]
                    0 <= k2 < k as int ==> {
                        &&& self.tables()[g.tables@[k2] as int].0 == t0[g.tables@[k2] as int].0
                        &&& table_written(
                            t0[g.tables@[k2] as int].1,
                            self.tables()[g.tables@[k2] as int].1,
                            g.tag,
                            g.items@.subrange(sum_prefix(g.lens@, k2), sum_prefix(g.lens@, k2 + 1)),
                        )
                    },
            decreases m - k,
        {
            let idx = g.tables[k];
            let want = g.lens[k];
            proof {
                lemma_increasing_not_in_prefix(g.tables@, k as int);
                assert(self.tables()[idx as int] == t0[idx as int]);
                assert(self.tables()[idx as int].1 == self.archetypes@[idx as int].1@);
                lemma_sum_prefix_mono(g.lens@, k as int + 1, g.lens@.len() as int);
            }
            let seg = crate::table::copy_range(&g.items, off, want);
            let ghost prev = self.archetypes@;
            let ghost tprev = self.tables();
            let res = self.archetypes[idx].1.release_column_mut(g.tag, seg);
            proof {
                assert forall|j2: int|
                    0 <= j2 < t0.len() && j2 != idx as int implies #[trigger] self.tables()[j2]
                    == tprev[j2] by {
                    assert(self.archetypes@[j2] == prev[j2]);
                    assert(tprev[j2] == (prev[j2].0, prev[j2].1@));
                    assert(self.tables()[j2] == (self.archetypes@[j2].0, self.archetypes@[j2].1@));
                }
                assert(self.archetypes@[idx as int].0 == prev[idx as int].0);
                assert(self.tables()[idx as int].0 == tprev[idx as int].0);
                assert(self.tables()[idx as int].1 == self.archetypes@[idx as int].1@);
            }
            match res {
                Ok(()) => {},
                Err(_) => {
                    proof {
                        assert(false);
                    }
                    return Err(EcsError::BorrowConflict);
                },
            }
            proof {
                assert(table_written(
                    t0[idx as int].1,
                    self.tables()[idx as int].1,
                    g.tag,
                    g.items@.subrange(sum_prefix(g.lens@, k as int), sum_prefix(g.lens@, k as int + 1)),
                ));
                assert forall|j: int|
                    0 <= j < t0.len() && !contains_idx(
                        g.tables@.take(k as int + 1),
                        j,
                    ) implies #[trigger] self.tables()[j] == t0[j] by {
                    lemma_contains_idx_take_succ(g.tables@, k as int, j);
                }
                assert forall|k2: int|
                    #![trigger g.tables@[k2]]
                    0 <= k2 < k as int + 1 implies {
                    &&& self.tables()[g.tables@[k2] as int].0 == t0[g.tables@[k2] as int].0
                    &&& table_written(
                        t0[g.tables@[k2] as int].1,
                        self.tables()[g.tables@[k2] as int].1,
                        g.tag,
                        g.items@.subrange(sum_prefix(g.lens@, k2), sum_prefix(g.lens@, k2 + 1)),
                    )
                } by {
                    if k2 < k as int {
                        assert(g.tables@[k2] < g.tables@[k as int]);
                        assert(self.tables()[g.tables@[k2] as int] == tprev[g.tables@[k2] as int]);
                    }
                }
            }
            off = off + want;
            k += 1;
        }
        proof {
            assert(g.tables@.take(m as int) =~= g.tables@);
            if old(self).wf() {
                assert forall|j2: int|
                    0 <= j2 < self.tables().len() implies (#[trigger] self.tables()[j2]).1.wf() by {
                    assert(old(self).tables()[j2].1.wf());
                    if contains_idx(g.tables@, j2) {
                        let k0 = choose|k0: int|
                            0 <= k0 < g.tables@.len() && g.tables@[k0] as int == j2;
                        let m0 = t0[j2].1;
                        let m1 = self.tables()[j2].1;
                        let seg = g.items@.subrange(
                            sum_prefix(g.lens@, k0),
                            sum_prefix(g.lens@, k0 + 1),
                        );
                        crate::table::lemma_first_tag_idx(m0.cols, g.tag);
                        lemma_sum_prefix_mono(g.lens@, 0, k0);
                        lemma_sum_prefix_mono(g.lens@, k0 + 1, g.lens@.len() as int);
                        assert(m1.cols[m0.tag_idx(g.tag)].data == seg);
                        assert(seg.len() == g.lens@[k0]);
                        assert forall|k3: int|
                            0 <= k3 < m1.cols.len() implies (#[trigger] m1.cols[k3]).wf(
                            m1.length,
                        ) by {
                            assert(m0.cols[k3].wf(m0.length));
                            if k3 == m0.tag_idx(g.tag) {
                                assert forall|i2: int|
                                    0 <= i2 < seg.len() implies (#[trigger] seg[i2]).tag_spec()
                                    == g.tag by {
                                    assert(seg[i2] == g.items@[sum_prefix(g.lens@, k0) + i2]);
                                }
                            }
                        }
                    }
                }
                assert forall|j1: int, j2: int|
                    0 <= j1 < j2 < self.tables().len() implies self.tables()[j1].0
                    != self.tables()[j2].0 by {
                    assert(old(self).tables()[j1].0 != old(self).tables()[j2].0);
                }
            }
        }
        Ok(())
    }

    /// Takes the resource of kind `ty` out of the world by value. Returns the
    /// absence signal if none is registered; must not be called while any
    /// view of that resource is outstanding.
    pub fn remove(&mut self, ty: TypeTag) -> (r: Option<Value>)
        requires
            find_res(old(self).resources@, ty) >= 0 ==> old(self).resources@[find_res(
                old(self).resources@,
                ty,
            )].state == Borrow::Free,
        ensures
            final(self).archetypes@ == old(self).archetypes@,
            final(self).systems@ == old(self).systems@,
            final(self).resources@ == remove_res(old(self).resources@, ty),
            match r {
                Some(v) => find_res(old(self).resources@, ty) >= 0 && v == old(
                    self,
                ).resources@[find_res(old(self).resources@, ty)].value,
                None => find_res(old(self).resources@, ty) == -1,
            },
            old(self).wf() ==> final(self).wf(),
    {
        match find_slot(&self.resources, ty) {
            None => None,
            Some(i) => {
                let slot = self.resources.remove(i);
                proof {
                    if old(self).wf() {
                        lemma_remove_res(old(self).resources@, ty);
                        assert(self.tables() == old(self).tables());
                        assert forall|j: int|
                            0 <= j < self.tables().len() implies (#[trigger] self.tables()[j]).1.wf() by {
                            assert(old(self).tables()[j].1.wf());
                        }
                    }
                }
                Some(slot.value)
            },
        }
    }

    /// Gives back either kind of query view.
    pub fn release_output(&mut self, out: QueryOutput) -> (r: Result<(), EcsError>)
        ensures
            final(self).systems@ == old(self).systems@,
            final(self).resources@ == old(self).resources@,
            old(self).wf() ==> final(self).wf(),
            match out {
                QueryOutput::Shared(g) => match r {
                    Ok(()) => {
                        &&& release_shared_ok(old(self).tables(), g.tag, g.tables@)
                        &&& final(self).tables().len() == old(self).tables().len()
                        &&& (forall|j: int| 0 <= j < old(self).tables().len() ==> {
                            &&& (#[trigger] final(self).tables()[j]).0 == old(self).tables()[j].0
                            &&& (if contains_idx(g.tables@, j) {
                                table_dropped(
                                    old(self).tables()[j].1,
                                    final(self).tables()[j].1,
                                    g.tag,
                                )
                            } else {
                                final(self).tables()[j].1 == old(self).tables()[j].1
                            })
                        })
                    },
                    Err(e) => {
                        &&& final(self).tables() == old(self).tables()
                        &&& e == EcsError::BorrowConflict
                        &&& !release_shared_ok(old(self).tables(), g.tag, g.tables@)
                    },
                },
                QueryOutput::Exclusive(g) => match r {
                    Ok(()) => {
                        &&& release_exclusive_ok(
                            old(self).tables(),
                            g.tag,
                            g.tables@,
                            g.lens@,
                            g.items@.len() as int,
                        )
                        &&& guard_tags_ok(g.items@, g.tag)
                        &&& final(self).tables().len() == old(self).tables().len()
                        &&& (forall|j: int|
                            0 <= j < old(self).tables().len() && !contains_idx(g.tables@, j)
                                ==> #[trigger] final(self).tables()[j] == old(self).tables()[j])
                        &&& (forall|k: int|
                            #![trigger g.tables@[k]]
                            0 <= k < g.tables@.len() ==> {
                                &&& final(self).tables()[g.tables@[k] as int].0 == old(
                                    self,
                                ).tables()[g.tables@[k] as int].0
                                &&& table_written(
                                    old(self).tables()[g.tables@[k] as int].1,
                                    final(self).tables()[g.tables@[k] as int].1,
                                    g.tag,
                                    g.items@.subrange(
                                        sum_prefix(g.lens@, k),
                                        sum_prefix(g.lens@, k + 1),
                                    ),
                                )
                            })
                    },
                    Err(e) => {
                        &&& final(self).tables() == old(self).tables()
                        &&& e != EcsError::Absent
                        &&& (e == EcsError::BorrowConflict <==> !release_exclusive_ok(
                            old(self).tables(),
                            g.tag,
                            g.tables@,
                            g.lens@,
                            g.items@.len() as int,
                        ))
                        &&& (e == EcsError::SchemaViolation <==> release_exclusive_ok(
                            old(self).tables(),
                            g.tag,
                            g.tables@,
                            g.lens@,
                            g.items@.len() as int,
                        ) && !guard_tags_ok(g.items@, g.tag))
                    },
                },
            },
    {
        match out {
            QueryOutput::Shared(g) => self.release_query(g),
            QueryOutput::Exclusive(g) => self.release_query_mut(g),
        }
    }

    /// Resolves two query requests independently over the same registry
    /// snapshot: the two views are parallel, not joined, and the row
    /// alignment of their flattened sequences is only guaranteed when both
    /// kinds live in one shared table. If the second request conflicts, the
    /// first view is given back and nothing stays acquired.
    pub fn query2(&mut self, a: Query, b: Query) -> (r: Result<
        (QueryOutput, QueryOutput),
        EcsError,
    >)
        requires
            old(self).wf(),
        ensures
            final(self).systems@ == old(self).systems@,
            final(self).resources@ == old(self).resources@,
            final(self).wf(),
            match r {
                Ok((ga, gb)) => {
                    &&& query_ok(old(self).tables(), a)
                    &&& query_ok(tables_after(old(self).tables(), a), b)
                    &&& output_wf(old(self).tables(), a, ga)
                    &&& output_wf(tables_after(old(self).tables(), a), b, gb)
                    &&& gb.items_view() == query_seq(old(self).tables(), query_tag(b))
                    &&& final(self).tables() == tables_after(
                        tables_after(old(self).tables(), a),
                        b,
                    )
                },
                Err(e) => {
                    &&& final(self).tables() == old(self).tables()
                    &&& e == EcsError::BorrowConflict
                    &&& !(query_ok(old(self).tables(), a) && query_ok(
                        tables_after(old(self).tables(), a),
                        b,
                    ))
                },
            },
    {
        let ghost t0 = old(self).tables();
        let ra = self.query(a);
        match ra {
            Err(e) => Err(e),
            Ok(ga) => {
                proof {
                    lemma_acquired_is_after(t0, self.tables(), a);
                }
                let ghost mid = self.tables();
                let rb = self.query(b);
                match rb {
                    Ok(gb) => {
                        proof {
                            lemma_acquired_is_after(mid, self.tables(), b);
                            lemma_tables_after_data_equal(t0, a);
                            lemma_query_seq_data_equal(t0, mid, query_tag(b));
                        }
                        Ok((ga, gb))
                    },
                    Err(e) => {
                        proof {
                            lemma_tables_after_data_equal(t0, a);
                        }
                        match ga {
                            QueryOutput::Shared(g) => {
                                proof {
                                    lemma_release_shared_after(t0, g.tag, g.tables@);
                                }
                                let ghost gtables = g.tables@;
                                let ghost gtag = g.tag;
                                let rr = self.release_query(g);
                                match rr {
                                    Ok(()) => {},
                                    Err(_) => {
                                        proof {
                                            assert(false);
                                        }
                                        return Err(EcsError::BorrowConflict);
                                    },
                                }
                                proof {
                                    lemma_restore_shared(
                                        t0,
                                        mid,
                                        self.tables(),
                                        gtag,
                                        gtables,
                                    );
                                    lemma_world_wf_same_views(*old(self), *self);
                                }
                                Err(e)
                            },
                            QueryOutput::Exclusive(g) => {
                                proof {
                                    lemma_release_exclusive_after(
                                        t0,
                                        g.tag,
                                        g.tables@,
                                        g.lens@,
                                        g.items@.len() as int,
                                    );
                                    lemma_query_seq_tags(t0, g.tag);
                                }
                                let ghost gtables = g.tables@;
                                let ghost glens = g.lens@;
                                let ghost gitems = g.items@;
                                let ghost gtag = g.tag;
                                let rr = self.release_query_mut(g);
                                match rr {
                                    Ok(()) => {},
                                    Err(_) => {
                                        proof {
                                            assert(false);
                                        }
                                        return Err(EcsError::BorrowConflict);
                                    },
                                }
                                proof {
                                    lemma_restore_exclusive(
                                        t0,
                                        mid,
                                        self.tables(),
                                        gtag,
                                        gtables,
                                        glens,
                                        gitems,
                                    );
                                    lemma_world_wf_same_views(*old(self), *self);
                                }
                                Err(e)
                            },
                        }
                    },
                }
            },
        }
    }

    /// Invokes every registered system's tick behavior once, strictly in
    /// registration order, each seeing the cumulative effect of the systems
    /// before it. With zero registered systems this changes nothing.
    pub fn tick(&mut self)
        ensures
            final(self).archetypes@ == old(self).archetypes@,
            final(self).systems@ == old(self).systems@,
            final(self).resources@ == run_tick(old(self).resources@, old(self).systems@),
            old(self).wf() ==> final(self).wf(),
    {
        let n = self.systems.len();
        let mut i: usize = 0;
        while i < n
            invariant
                i <= n,
                n == self.systems@.len(),
                self.systems@ == old(self).systems@,
                self.archetypes@ == old(self).archetypes@,
                self.resources@ == run_tick(
                    old(self).resources@,
                    old(self).systems@.take(i as int),
                ),
            decreases n - i,
        {
            let s = self.systems[i];
            proof {
                assert(old(self).systems@.take(i as int + 1).drop_last() =~= old(
                    self,
                ).systems@.take(i as int));
                assert(old(self).systems@.take(i as int + 1).last() == old(self).systems@[i as
                    int]);
            }
            match s {
                SystemDef::Ticker(a) => {
                    apply_action_vec(&mut self.resources, a);
                },
                SystemDef::Handler(_, _) => {},
            }
            i += 1;
        }
        proof {
            assert(old(self).systems@.take(n as int) =~= old(self).systems@);
            if old(self).wf() {
                lemma_run_tick_wf(old(self).resources@, old(self).systems@);
                assert(self.tables() == old(self).tables());
                assert forall|j: int|
                    0 <= j < self.tables().len() implies (#[trigger] self.tables()[j]).1.wf() by {
                    assert(old(self).tables()[j].1.wf());
                }
            }
        }
    }

    /// Invokes every registered system's event behavior once with `event`,
    /// strictly in registration order: a handler whose trigger kind matches
    /// runs its action, every other system ignores the event.
    pub fn submit(&mut self, event: Event)
        ensures
            final(self).archetypes@ == old(self).archetypes@,
            final(self).systems@ == old(self).systems@,
            final(self).resources@ == run_event(old(self).resources@, old(self).systems@, event),
            old(self).wf() ==> final(self).wf(),
    {
        let n = self.systems.len();
        let mut i: usize = 0;
        while i < n
            invariant
                i <= n,
                n == self.systems@.len(),
                self.systems@ == old(self).systems@,
                self.archetypes@ == old(self).archetypes@,
                self.resources@ == run_event(
                    old(self).resources@,
                    old(self).systems@.take(i as int),
                    event,
                ),
            decreases n - i,
        {
            let s = self.systems[i];
            proof {
                assert(old(self).systems@.take(i as int + 1).drop_last() =~= old(
                    self,
                ).systems@.take(i as int));
                assert(old(self).systems@.take(i as int + 1).last() == old(self).systems@[i as
                    int]);
            }
            match s {
                SystemDef::Ticker(_) => {},
                SystemDef::Handler(on, a) => {
                    if event.kind() == on {
                        apply_action_vec(&mut self.resources, a);
                    }
                },
            }
            i += 1;
        }
        proof {
            assert(old(self).systems@.take(n as int) =~= old(self).systems@);
            if old(self).wf() {
                lemma_run_event_wf(old(self).resources@, old(self).systems@, event);
                assert(self.tables() == old(self).tables());
                assert forall|j: int|
                    0 <= j < self.tables().len() implies (#[trigger] self.tables()[j]).1.wf() by {
                    assert(old(self).tables()[j].1.wf());
                }
            }
        }
    }
}

} // verus!
