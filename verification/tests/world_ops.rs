use tecs::error::EcsError;
use tecs::query::{Query, QueryOutput};
use tecs::system::{Action, Event, EventKind, SystemDef};
use tecs::value::{State, TypeTag, Value};
use tecs::world::{Archetype, World};

fn point_arch() -> Archetype {
    Archetype::new(1, vec![TypeTag::I32, TypeTag::F32Bits])
}

fn counter_arch() -> Archetype {
    Archetype::new(2, vec![TypeTag::I32])
}

#[test]
fn query_yields_one_entry_per_spawn_in_spawn_order() {
    let mut w = World::new();
    let arch = counter_arch();
    for v in [7, 8, 9] {
        w.spawn(&arch, vec![Value::I32(v)]).unwrap();
    }
    let g = w.query_shared(TypeTag::I32).unwrap();
    assert_eq!(g.iter(), &vec![Value::I32(7), Value::I32(8), Value::I32(9)]);
    w.release_query(g).unwrap();
}

#[test]
fn spawn_returns_consecutive_row_indices() {
    let mut w = World::new();
    let arch = counter_arch();
    let a = w.spawn(&arch, vec![Value::I32(1)]).unwrap();
    let b = w.spawn(&arch, vec![Value::I32(2)]).unwrap();
    assert_eq!(a.arch, 2);
    assert_eq!(a.index, 0);
    assert_eq!(b.index, 1);
}

#[test]
fn row_count_matches_every_column_length_after_each_spawn() {
    let mut w = World::new();
    let arch = point_arch();
    for v in 0..3 {
        w.spawn(&arch, vec![Value::I32(v), Value::F32Bits(0)]).unwrap();
        let table = &w.archetypes[0].1;
        for col in table.columns.iter() {
            assert_eq!(col.data.len(), table.len());
        }
    }
}

#[test]
fn spawn_refuses_row_not_matching_declaration() {
    let mut w = World::new();
    let arch = point_arch();
    assert_eq!(
        w.spawn(&arch, vec![Value::I32(1)]),
        Err(EcsError::SchemaViolation)
    );
    assert_eq!(
        w.spawn(&arch, vec![Value::I32(1), Value::Bool(true)]),
        Err(EcsError::SchemaViolation)
    );
}

#[test]
fn spawn_refuses_declaration_not_matching_existing_table() {
    let mut w = World::new();
    w.spawn(&counter_arch(), vec![Value::I32(1)]).unwrap();
    let other = Archetype::new(2, vec![TypeTag::Bool]);
    assert_eq!(
        w.spawn(&other, vec![Value::Bool(true)]),
        Err(EcsError::SchemaViolation)
    );
}

#[test]
fn spawn_conflicts_while_a_query_is_outstanding() {
    let mut w = World::new();
    let arch = counter_arch();
    w.spawn(&arch, vec![Value::I32(1)]).unwrap();
    let g = w.query_shared(TypeTag::I32).unwrap();
    assert_eq!(
        w.spawn(&arch, vec![Value::I32(2)]),
        Err(EcsError::BorrowConflict)
    );
    w.release_query(g).unwrap();
    assert!(w.spawn(&arch, vec![Value::I32(2)]).is_ok());
}

#[test]
fn shared_queries_are_reentrant_and_exclusive_fails_fast() {
    let mut w = World::new();
    w.spawn(&counter_arch(), vec![Value::I32(1)]).unwrap();
    let g1 = w.query_shared(TypeTag::I32).unwrap();
    let g2 = w.query_shared(TypeTag::I32).unwrap();
    assert_eq!(g1.iter(), g2.iter());
    assert!(matches!(w.query_mut(TypeTag::I32), Err(EcsError::BorrowConflict)));
    w.release_query(g2).unwrap();
    assert!(matches!(w.query_mut(TypeTag::I32), Err(EcsError::BorrowConflict)));
    w.release_query(g1).unwrap();
    let g3 = w.query_mut(TypeTag::I32).unwrap();
    assert!(matches!(w.query_shared(TypeTag::I32), Err(EcsError::BorrowConflict)));
    assert!(matches!(w.query_mut(TypeTag::I32), Err(EcsError::BorrowConflict)));
    w.release_query_mut(g3).unwrap();
    let g4 = w.query_shared(TypeTag::I32).unwrap();
    w.release_query(g4).unwrap();
}

#[test]
fn query_of_absent_kind_is_empty_not_an_error() {
    let mut w = World::new();
    w.spawn(&counter_arch(), vec![Value::I32(1)]).unwrap();
    let g = w.query_shared(TypeTag::Bool).unwrap();
    assert_eq!(g.len(), 0);
    w.release_query(g).unwrap();
}

#[test]
fn query_flattens_tables_in_registration_order() {
    let mut w = World::new();
    let a = counter_arch();
    let b = Archetype::new(3, vec![TypeTag::I32, TypeTag::Bool]);
    w.spawn(&a, vec![Value::I32(1)]).unwrap();
    w.spawn(&a, vec![Value::I32(2)]).unwrap();
    w.spawn(&b, vec![Value::I32(3), Value::Bool(true)]).unwrap();
    let g = w.query_shared(TypeTag::I32).unwrap();
    assert_eq!(
        g.iter(),
        &vec![Value::I32(1), Value::I32(2), Value::I32(3)]
    );
    w.release_query(g).unwrap();
}

#[test]
fn exclusive_query_edit_writes_back() {
    let mut w = World::new();
    let arch = counter_arch();
    w.spawn(&arch, vec![Value::I32(1)]).unwrap();
    w.spawn(&arch, vec![Value::I32(2)]).unwrap();
    let mut g = w.query_mut(TypeTag::I32).unwrap();
    assert_eq!(g.set(1, Value::I32(42)), Ok(()));
    assert_eq!(g.set(5, Value::I32(0)), Err(EcsError::Absent));
    assert_eq!(g.set(0, Value::Bool(true)), Err(EcsError::SchemaViolation));
    w.release_query_mut(g).unwrap();
    let seen = w.query_shared(TypeTag::I32).unwrap();
    assert_eq!(seen.iter(), &vec![Value::I32(1), Value::I32(42)]);
    w.release_query(seen).unwrap();
}

#[test]
fn release_of_a_stale_view_is_a_conflict() {
    let mut w = World::new();
    w.spawn(&counter_arch(), vec![Value::I32(1)]).unwrap();
    let g1 = w.query_shared(TypeTag::I32).unwrap();
    w.release_query(g1).unwrap();
    let g2 = tecs::query::Columns {
        tag: TypeTag::I32,
        tables: vec![0],
        items: vec![],
    };
    assert_eq!(w.release_query(g2), Err(EcsError::BorrowConflict));
}

#[test]
fn resource_round_trip_returns_the_value_then_the_absence_signal() {
    let mut w = World::new().with_resource(Value::U32(7));
    assert_eq!(w.get(TypeTag::U32), Ok(Value::U32(7)));
    w.release(TypeTag::U32).unwrap();
    assert_eq!(w.remove(TypeTag::U32), Some(Value::U32(7)));
    assert_eq!(w.get(TypeTag::U32), Err(EcsError::Absent));
    assert_eq!(w.remove(TypeTag::U32), None);
}

#[test]
fn with_resource_replaces_the_previous_value() {
    let mut w = World::new()
        .with_resource(Value::U32(1))
        .with_resource(Value::U32(2))
        .with_resource(Value::Bool(true));
    assert_eq!(w.get(TypeTag::U32), Ok(Value::U32(2)));
    w.release(TypeTag::U32).unwrap();
    assert_eq!(w.get(TypeTag::Bool), Ok(Value::Bool(true)));
    w.release(TypeTag::Bool).unwrap();
}

#[test]
fn resource_borrow_discipline_is_enforced() {
    let mut w = World::new().with_resource(Value::U32(7));
    assert_eq!(w.get(TypeTag::U32), Ok(Value::U32(7)));
    assert_eq!(w.get(TypeTag::U32), Ok(Value::U32(7)));
    assert_eq!(w.get_mut(TypeTag::U32), Err(EcsError::BorrowConflict));
    w.release(TypeTag::U32).unwrap();
    w.release(TypeTag::U32).unwrap();
    assert_eq!(w.release(TypeTag::U32), Err(EcsError::BorrowConflict));
    assert_eq!(w.get_mut(TypeTag::U32), Ok(Value::U32(7)));
    assert_eq!(w.get(TypeTag::U32), Err(EcsError::BorrowConflict));
    assert_eq!(
        w.release_mut(TypeTag::U32, Value::Bool(true)),
        Err(EcsError::SchemaViolation)
    );
    assert_eq!(w.release_mut(TypeTag::U32, Value::U32(8)), Ok(()));
    assert_eq!(w.get(TypeTag::U32), Ok(Value::U32(8)));
    w.release(TypeTag::U32).unwrap();
}

#[test]
fn tick_with_zero_systems_is_a_no_op() {
    let mut w = World::new().with_resource(Value::U32(3));
    w.spawn(&counter_arch(), vec![Value::I32(1)]).unwrap();
    w.tick();
    assert_eq!(w.get(TypeTag::U32), Ok(Value::U32(3)));
    w.release(TypeTag::U32).unwrap();
    let g = w.query_shared(TypeTag::I32).unwrap();
    assert_eq!(g.iter(), &vec![Value::I32(1)]);
    w.release_query(g).unwrap();
}

#[test]
fn ticker_increments_counter_once_per_tick() {
    let mut w = World::new()
        .with_resource(Value::U32(0))
        .with_ticker(Action::AddU32(1));
    for _ in 0..5 {
        w.tick();
    }
    assert_eq!(w.get(TypeTag::U32), Ok(Value::U32(5)));
    w.release(TypeTag::U32).unwrap();
}

#[test]
fn ticker_counter_wraps_at_the_numeric_limit() {
    let mut w = World::new()
        .with_resource(Value::U32(u32::MAX))
        .with_ticker(Action::AddU32(1));
    w.tick();
    assert_eq!(w.get(TypeTag::U32), Ok(Value::U32(0)));
    w.release(TypeTag::U32).unwrap();
}

#[test]
fn handler_sets_state_on_stop_and_ignores_other_events() {
    let mut w = World::new()
        .with_resource(Value::State(State::Running))
        .with_handler(EventKind::Stop, Action::SetResource(Value::State(State::Stopped)));
    w.submit(Event::Custom(3));
    assert_eq!(w.get(TypeTag::State), Ok(Value::State(State::Running)));
    w.release(TypeTag::State).unwrap();
    w.submit(Event::Stop);
    assert_eq!(w.get(TypeTag::State), Ok(Value::State(State::Stopped)));
    w.release(TypeTag::State).unwrap();
}

#[test]
fn handler_ignores_tick_and_ticker_ignores_submit() {
    let mut w = World::new()
        .with_resource(Value::U32(0))
        .with_handler(EventKind::Custom, Action::AddU32(10))
        .with_ticker(Action::AddU32(1));
    w.tick();
    w.submit(Event::Custom(0));
    assert_eq!(w.get(TypeTag::U32), Ok(Value::U32(11)));
    w.release(TypeTag::U32).unwrap();
}

#[test]
fn systems_run_in_registration_order_each_seeing_prior_effects() {
    let mut w = World::new()
        .with_resource(Value::U32(0))
        .with_ticker(Action::SetResource(Value::U32(5)))
        .with_ticker(Action::AddU32(1));
    w.tick();
    assert_eq!(w.get(TypeTag::U32), Ok(Value::U32(6)));
    w.release(TypeTag::U32).unwrap();

    let mut v = World::new()
        .with_resource(Value::U32(0))
        .with_system(SystemDef::Ticker(Action::AddU32(1)))
        .with_system(SystemDef::Ticker(Action::SetResource(Value::U32(5))));
    v.tick();
    assert_eq!(v.get(TypeTag::U32), Ok(Value::U32(5)));
    v.release(TypeTag::U32).unwrap();
}

#[test]
fn tuple_query_aligns_within_one_table() {
    let mut w = World::new();
    let arch = point_arch();
    w.spawn(&arch, vec![Value::I32(7), Value::F32Bits(2.5f32.to_bits())])
        .unwrap();
    let (ga, gb) = w
        .query2(Query::Shared(TypeTag::I32), Query::Shared(TypeTag::F32Bits))
        .unwrap();
    assert_eq!(ga.iter().len(), 1);
    assert_eq!(gb.iter().len(), 1);
    assert_eq!(ga.iter()[0], Value::I32(7));
    match gb.iter()[0] {
        Value::F32Bits(bits) => assert_eq!(f32::from_bits(bits), 2.5),
        _ => panic!("wrong kind"),
    }
    w.release_output(ga).unwrap();
    w.release_output(gb).unwrap();
}

#[test]
fn tuple_query_with_an_exclusive_half_conflicts_with_itself() {
    let mut w = World::new();
    w.spawn(&counter_arch(), vec![Value::I32(1)]).unwrap();
    assert!(matches!(
        w.query2(Query::Shared(TypeTag::I32), Query::Exclusive(TypeTag::I32)),
        Err(EcsError::BorrowConflict)
    ));
    let g = w.query_shared(TypeTag::I32).unwrap();
    assert_eq!(g.iter(), &vec![Value::I32(1)]);
    w.release_query(g).unwrap();
}

#[test]
fn query_request_dispatches_to_either_view() {
    let mut w = World::new();
    w.spawn(&counter_arch(), vec![Value::I32(4)]).unwrap();
    let out = w.query(Query::Exclusive(TypeTag::I32)).unwrap();
    assert_eq!(out.iter(), &vec![Value::I32(4)]);
    match out {
        QueryOutput::Exclusive(_) => {}
        QueryOutput::Shared(_) => panic!("expected the exclusive view"),
    }
    w.release_output(out).unwrap();
}

#[test]
fn exclusive_view_iter_mut_edits_the_flattened_values() {
    let mut w = World::new();
    let arch = counter_arch();
    w.spawn(&arch, vec![Value::I32(1)]).unwrap();
    w.spawn(&arch, vec![Value::I32(2)]).unwrap();
    let mut g = w.query_mut(TypeTag::I32).unwrap();
    for v in g.iter_mut().iter_mut() {
        if let Value::I32(n) = v {
            *v = Value::I32(*n * 10);
        }
    }
    w.release_query_mut(g).unwrap();
    let seen = w.query_shared(TypeTag::I32).unwrap();
    assert_eq!(seen.iter(), &vec![Value::I32(10), Value::I32(20)]);
    w.release_query(seen).unwrap();
}

#[test]
fn exclusive_release_refuses_values_of_the_wrong_kind() {
    let mut w = World::new();
    w.spawn(&counter_arch(), vec![Value::I32(1)]).unwrap();
    let mut g = w.query_mut(TypeTag::I32).unwrap();
    g.iter_mut()[0] = Value::Bool(true);
    assert_eq!(w.release_query_mut(g), Err(EcsError::SchemaViolation));
    // The refused release leaves the exclusive view outstanding: the defect
    // in the calling system is not recoverable, and the column stays taken.
    assert!(matches!(w.query_mut(TypeTag::I32), Err(EcsError::BorrowConflict)));
    assert!(matches!(
        w.query_shared(TypeTag::I32),
        Err(EcsError::BorrowConflict)
    ));
}
