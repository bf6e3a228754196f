//! The laws of the storage core: properties that relate several operations,
//! stated over the same models and predicates that the operations' own
//! contracts use.

use vstd::prelude::*;

use crate::resources::{
    lemma_remove_res, lemma_set_res, remove_res, res_lookup, res_wf, set_res, ResourceSlot,
};
use crate::system::{run_tick, SystemDef};
use crate::table::{lemma_first_tag_idx, lemma_first_tag_idx_same_tags, Borrow, TableModel};
use crate::value::{TypeTag, Value};
use crate::world::{
    exclusive_acquired, exclusive_ok, find_arch, lemma_find_arch, query_seq, shared_acquired,
    shared_ok, spawned_fresh, table_contrib, table_spawned,
};

verus! {

/// Law: spawning one entity appends exactly that entity's component to what
/// a query for any of its archetype's component kinds yields. In a world
/// whose tables all belong to one archetype — a world built by spawns of that
/// archetype alone — repeated spawns therefore yield one entry per spawned
/// entity, in spawn order.
///
/// `t0` and `t1` are the tables before and after the spawn, related exactly
/// as `World::spawn` ensures; `c` is the component kind declared at position
/// `i`, its first occurrence in the declaration.
pub proof fn lemma_spawn_extends_query(
    t0: Seq<(u64, TableModel)>,
    t1: Seq<(u64, TableModel)>,
    arch_id: u64,
    cols: Seq<TypeTag>,
    row: Seq<Value>,
    c: TypeTag,
    i: int,
)
    requires
        forall|j: int| 0 <= j < t0.len() ==> (#[trigger] t0[j]).0 == arch_id,
        forall|j1: int, j2: int| 0 <= j1 < j2 < t0.len() ==> t0[j1].0 != t0[j2].0,
        0 <= i < cols.len(),
        cols[i] == c,
        forall|k: int| 0 <= k < i ==> cols[k] != c,
        row.len() == cols.len(),
        ({
            let j0 = find_arch(t0, arch_id);
            if j0 == -1 {
                &&& t1.len() == t0.len() + 1
                &&& (forall|j: int| 0 <= j < t0.len() ==> #[trigger] t1[j] == t0[j])
                &&& spawned_fresh(cols, row, t1[t0.len() as int].1)
            } else {
                &&& t0[j0].1.schema_is(cols)
                &&& t1.len() == t0.len()
                &&& (forall|j: int| 0 <= j < t0.len() && j != j0 ==> #[trigger] t1[j] == t0[j])
                &&& table_spawned(t0[j0].1, row, t1[j0].1)
            }
        }),
    ensures
        query_seq(t1, c) == query_seq(t0, c).push(row[i]),
{
    lemma_find_arch(t0, arch_id);
    let j0 = find_arch(t0, arch_id);
    if j0 == -1 {
        assert(t0.len() == 0) by {
            if t0.len() > 0 {
                assert(t0[0].0 == arch_id);
            }
        }
        assert(query_seq(t0, c) == Seq::<Value>::empty());
        let m = t1[0].1;
        assert(m.tag_idx(c) == i) by {
            lemma_first_tag_idx(m.cols, c);
            assert forall|k: int| 0 <= k < i implies (#[trigger] m.cols[k]).tag != c by {
                assert(m.cols[k].tag == cols[k]);
            }
            assert(m.cols[i].tag == c);
            if m.tag_idx(c) < i {
                assert(m.cols[m.tag_idx(c)].tag == c);
            }
        }
        assert(t1.drop_last() =~= Seq::<(u64, TableModel)>::empty());
        assert(query_seq(t1.drop_last(), c) == Seq::<Value>::empty());
        assert(query_seq(t1, c) == Seq::<Value>::empty() + table_contrib(m, c));
        assert(Seq::<Value>::empty() + table_contrib(m, c) =~= table_contrib(m, c));
        assert(m.tag_data(c) == seq![row[i]]);
        assert(query_seq(t1, c) =~= query_seq(t0, c).push(row[i]));
    } else {
        assert(t0.len() == 1 && j0 == 0) by {
            if t0.len() > 1 {
                assert(t0[0].0 == arch_id);
                assert(t0[1].0 == arch_id);
            }
        }
        let m0 = t0[0].1;
        let m1 = t1[0].1;
        assert(m0.tag_idx(c) == i) by {
            lemma_first_tag_idx(m0.cols, c);
            assert forall|k: int| 0 <= k < i implies (#[trigger] m0.cols[k]).tag != c by {
                assert(m0.cols[k].tag == cols[k]);
            }
            assert(m0.cols[i].tag == c);
            if m0.tag_idx(c) < i {
                assert(m0.cols[m0.tag_idx(c)].tag == c);
            }
        }
        assert(m1.tag_idx(c) == m0.tag_idx(c)) by {
            lemma_first_tag_idx_same_tags(m0.cols, m1.cols, c);
        }
        assert(t0.drop_last() =~= Seq::<(u64, TableModel)>::empty());
        assert(t1.drop_last() =~= Seq::<(u64, TableModel)>::empty());
        assert(query_seq(t0.drop_last(), c) == Seq::<Value>::empty());
        assert(query_seq(t1.drop_last(), c) == Seq::<Value>::empty());
        assert(query_seq(t0, c) == Seq::<Value>::empty() + table_contrib(m0, c));
        assert(query_seq(t1, c) == Seq::<Value>::empty() + table_contrib(m1, c));
        assert(Seq::<Value>::empty() + table_contrib(m0, c) =~= table_contrib(m0, c));
        assert(Seq::<Value>::empty() + table_contrib(m1, c) =~= table_contrib(m1, c));
        assert(m1.tag_data(c) == m0.tag_data(c).push(row[i]));
        assert(query_seq(t1, c) =~= query_seq(t0, c).push(row[i]));
    }
}

/// Law: in a well-formed table, every column's element count equals the
/// table's row count — checked, through `wf`, after every spawn.
pub proof fn lemma_row_count_matches_columns(m: TableModel)
    requires
        m.wf(),
    ensures
        forall|k: int| 0 <= k < m.cols.len() ==> (#[trigger] m.cols[k]).data.len() == m.length,
{
    assert forall|k: int|
        0 <= k < m.cols.len() implies (#[trigger] m.cols[k]).data.len() == m.length by {
        assert(m.cols[k].wf(m.length));
    }
}

/// Law: after a shared query for a kind succeeds, a second shared query for
/// the same kind still succeeds — shared access is reentrant — while an
/// exclusive query for it fails fast as long as any table holds the kind.
///
/// `t0` and `t1` are the tables before and after the first query, related as
/// `World::query_shared` ensures. The reader counts must stay one step clear
/// of the machine limit for the second query to fit.
pub proof fn lemma_shared_query_reentrant(
    t0: Seq<(u64, TableModel)>,
    t1: Seq<(u64, TableModel)>,
    tag: TypeTag,
)
    requires
        shared_ok(t0, tag),
        shared_acquired(t0, t1, tag),
        forall|j: int|
            0 <= j < t0.len() && (#[trigger] t0[j]).1.has_tag(tag)
                ==> (match t0[j].1.cols[t0[j].1.tag_idx(tag)].state {
                Borrow::Shared(n) => n < usize::MAX - 1,
                _ => true,
            }),
    ensures
        shared_ok(t1, tag),
        (exists|j: int| 0 <= j < t0.len() && (#[trigger] t0[j]).1.has_tag(tag)) ==> !exclusive_ok(
            t1,
            tag,
        ),
{
    assert forall|j: int|
        0 <= j < t1.len() && (#[trigger] t1[j]).1.has_tag(tag) implies t1[j].1.cols[t1[j].1.tag_idx(
        tag,
    )].state.can_share() by {
        if t0[j].1.has_tag(tag) {
            lemma_first_tag_idx_same_tags(t0[j].1.cols, t1[j].1.cols, tag);
        } else {
            assert(t1[j].1 == t0[j].1);
        }
    }
    if exists|j: int| 0 <= j < t0.len() && (#[trigger] t0[j]).1.has_tag(tag) {
        let j = choose|j: int| 0 <= j < t0.len() && (#[trigger] t0[j]).1.has_tag(tag);
        lemma_first_tag_idx_same_tags(t0[j].1.cols, t1[j].1.cols, tag);
        assert(t1[j].1.has_tag(tag));
        assert(t1[j].1.cols[t1[j].1.tag_idx(tag)].state != Borrow::Free);
    }
}

/// Law: while an exclusive query for a kind is outstanding, any further
/// query for it — shared or exclusive — fails fast, as long as any table
/// holds the kind.
///
/// `t0` and `t1` are the tables before and after the exclusive query,
/// related as `World::query_mut` ensures.
pub proof fn lemma_exclusive_query_excludes(
    t0: Seq<(u64, TableModel)>,
    t1: Seq<(u64, TableModel)>,
    tag: TypeTag,
)
    requires
        exclusive_acquired(t0, t1, tag),
        exists|j: int| 0 <= j < t0.len() && (#[trigger] t0[j]).1.has_tag(tag),
    ensures
        !shared_ok(t1, tag),
        !exclusive_ok(t1, tag),
{
    let j = choose|j: int| 0 <= j < t0.len() && (#[trigger] t0[j]).1.has_tag(tag);
    lemma_first_tag_idx_same_tags(t0[j].1.cols, t1[j].1.cols, tag);
    assert(t1[j].1.has_tag(tag));
    assert(t1[j].1.cols[t1[j].1.tag_idx(tag)].state == Borrow::Exclusive);
}

/// Law: when all entities live in one table, the flattened results of two
/// query kinds align row by row: each has exactly the table's row count, and
/// the i-th entry of each is row i's component of that kind. Queries spanning
/// several archetypes give no such alignment.
pub proof fn lemma_tuple_query_aligns_in_one_table(
    tables: Seq<(u64, TableModel)>,
    a: TypeTag,
    b: TypeTag,
)
    requires
        tables.len() == 1,
        tables[0].1.wf(),
        tables[0].1.has_tag(a),
        tables[0].1.has_tag(b),
    ensures
        query_seq(tables, a) == tables[0].1.tag_data(a),
        query_seq(tables, b) == tables[0].1.tag_data(b),
        query_seq(tables, a).len() == tables[0].1.length,
        query_seq(tables, b).len() == tables[0].1.length,
{
    let m = tables[0].1;
    lemma_first_tag_idx(m.cols, a);
    lemma_first_tag_idx(m.cols, b);
    assert(m.cols[m.tag_idx(a)].wf(m.length));
    assert(m.cols[m.tag_idx(b)].wf(m.length));
    assert(tables.drop_last() =~= Seq::<(u64, TableModel)>::empty());
    assert(query_seq(tables.drop_last(), a) == Seq::<Value>::empty());
    assert(query_seq(tables.drop_last(), b) == Seq::<Value>::empty());
    assert(Seq::<Value>::empty() + table_contrib(m, a) =~= table_contrib(m, a));
    assert(Seq::<Value>::empty() + table_contrib(m, b) =~= table_contrib(m, b));
}

/// Law: registering a resource then reading it yields the registered value;
/// removing it afterwards yields that value by ownership, and a subsequent
/// read finds nothing, while every other kind's resource is untouched.
pub proof fn lemma_resource_round_trip(res: Seq<ResourceSlot>, v: Value)
    requires
        res_wf(res),
    ensures
        res_lookup(set_res(res, v), v.tag_spec()) == Some(v),
        res_lookup(remove_res(set_res(res, v), v.tag_spec()), v.tag_spec()) == None::<Value>,
        forall|ty2: crate::value::TypeTag|
            ty2 != v.tag_spec() ==> #[trigger] res_lookup(
                remove_res(set_res(res, v), v.tag_spec()),
                ty2,
            ) == res_lookup(res, ty2),
{
    lemma_set_res(res, v);
    lemma_remove_res(set_res(res, v), v.tag_spec());
}

/// Law: a tick over zero registered systems is a no-op: it leaves the
/// resources — and, by `World::tick`'s contract, the tables and systems —
/// exactly as they were, and cannot fail.
pub proof fn lemma_tick_no_systems(res: Seq<ResourceSlot>)
    ensures
        run_tick(res, Seq::<SystemDef>::empty()) == res,
{
}

} // verus!
