use tecs::error::EcsError;
use tecs::table::{Borrow, Column, RowIndex, Table};
use tecs::value::{TypeTag, Value};
use tecs::vecany::VecAny;
use tecs::vertex::{AttributeType, Info};

#[test]
fn vecany_starts_empty_with_its_kind() {
    let v = VecAny::new_uninit(TypeTag::I32);
    assert_eq!(v.len(), 0);
    assert_eq!(v.id, TypeTag::I32);
}

#[test]
fn vecany_push_accepts_matching_kind() {
    let mut v = VecAny::new_uninit(TypeTag::I32);
    assert_eq!(v.push(Value::I32(7)), Ok(()));
    assert_eq!(v.push(Value::I32(-3)), Ok(()));
    assert_eq!(v.len(), 2);
    assert_eq!(v.data[0], Value::I32(7));
    assert_eq!(v.data[1], Value::I32(-3));
}

#[test]
fn vecany_push_refuses_wrong_kind() {
    let mut v = VecAny::new_uninit(TypeTag::I32);
    assert_eq!(v.push(Value::Bool(true)), Err(EcsError::SchemaViolation));
    assert_eq!(v.len(), 0);
}

#[test]
fn vecany_downcast_checks_the_kind() {
    let mut v = VecAny::new_uninit(TypeTag::U64);
    v.push(Value::U64(9)).unwrap();
    assert!(v.downcast_ref(TypeTag::I32).is_none());
    let data = v.downcast_ref(TypeTag::U64).unwrap();
    assert_eq!(data.len(), 1);
    assert_eq!(data[0], Value::U64(9));
}

#[test]
fn column_get_checks_kind_and_range() {
    let mut c = Column::new(TypeTag::Bool);
    assert_eq!(c.push(Value::Bool(true)), Ok(()));
    assert_eq!(c.get(TypeTag::Bool, RowIndex(0)), Some(&Value::Bool(true)));
    assert_eq!(c.get(TypeTag::Bool, RowIndex(1)), None);
    assert_eq!(c.get(TypeTag::I32, RowIndex(0)), None);
}

#[test]
fn table_new_has_empty_unborrowed_columns() {
    let t = Table::new(&vec![TypeTag::I32, TypeTag::Bool]);
    assert_eq!(t.len(), 0);
    assert_eq!(t.columns.len(), 2);
    assert_eq!(t.columns[0].data.id, TypeTag::I32);
    assert_eq!(t.columns[1].data.id, TypeTag::Bool);
    assert_eq!(t.columns[0].state, Borrow::Free);
}

#[test]
fn table_push_row_appends_one_value_per_column() {
    let mut t = Table::new(&vec![TypeTag::I32, TypeTag::Bool]);
    assert_eq!(t.push_row(&vec![Value::I32(5), Value::Bool(false)]), Ok(()));
    assert_eq!(t.len(), 1);
    assert_eq!(t.columns[0].data.len(), 1);
    assert_eq!(t.columns[1].data.len(), 1);
    assert_eq!(t.columns[0].data.data[0], Value::I32(5));
    assert_eq!(t.columns[1].data.data[0], Value::Bool(false));
}

#[test]
fn table_push_row_refuses_wrong_arity() {
    let mut t = Table::new(&vec![TypeTag::I32, TypeTag::Bool]);
    assert_eq!(t.push_row(&vec![Value::I32(5)]), Err(EcsError::SchemaViolation));
    assert_eq!(t.len(), 0);
}

#[test]
fn table_push_row_refuses_wrong_kind() {
    let mut t = Table::new(&vec![TypeTag::I32, TypeTag::Bool]);
    assert_eq!(
        t.push_row(&vec![Value::Bool(true), Value::Bool(true)]),
        Err(EcsError::SchemaViolation)
    );
    assert_eq!(t.len(), 0);
}

#[test]
fn table_with_duplicate_kinds_fills_in_schema_order() {
    let mut t = Table::new(&vec![TypeTag::I32, TypeTag::I32]);
    t.push_row(&vec![Value::I32(1), Value::I32(2)]).unwrap();
    let first = t.column(TypeTag::I32).unwrap();
    assert_eq!(first, vec![Value::I32(1)]);
    t.release_column(TypeTag::I32).unwrap();
    assert_eq!(t.columns[1].data.data[0], Value::I32(2));
}

#[test]
fn table_column_is_shared_and_reentrant() {
    let mut t = Table::new(&vec![TypeTag::U32]);
    t.push_row(&vec![Value::U32(4)]).unwrap();
    let a = t.column(TypeTag::U32).unwrap();
    let b = t.column(TypeTag::U32).unwrap();
    assert_eq!(a, vec![Value::U32(4)]);
    assert_eq!(b, vec![Value::U32(4)]);
    assert_eq!(t.column_mut(TypeTag::U32), Err(EcsError::BorrowConflict));
    t.release_column(TypeTag::U32).unwrap();
    assert_eq!(t.column_mut(TypeTag::U32), Err(EcsError::BorrowConflict));
    t.release_column(TypeTag::U32).unwrap();
    assert!(t.column_mut(TypeTag::U32).is_ok());
}

#[test]
fn table_column_of_absent_kind_is_absent() {
    let mut t = Table::new(&vec![TypeTag::U32]);
    assert_eq!(t.column(TypeTag::Bool), Err(EcsError::Absent));
    assert_eq!(t.column_mut(TypeTag::Bool), Err(EcsError::Absent));
}

#[test]
fn table_release_without_borrow_is_a_conflict() {
    let mut t = Table::new(&vec![TypeTag::U32]);
    assert_eq!(t.release_column(TypeTag::U32), Err(EcsError::BorrowConflict));
}

#[test]
fn table_exclusive_release_writes_back() {
    let mut t = Table::new(&vec![TypeTag::I32]);
    t.push_row(&vec![Value::I32(1)]).unwrap();
    t.push_row(&vec![Value::I32(2)]).unwrap();
    let mut items = t.column_mut(TypeTag::I32).unwrap();
    items[1] = Value::I32(42);
    assert_eq!(t.release_column_mut(TypeTag::I32, items), Ok(()));
    let seen = t.column(TypeTag::I32).unwrap();
    assert_eq!(seen, vec![Value::I32(1), Value::I32(42)]);
    t.release_column(TypeTag::I32).unwrap();
}

#[test]
fn table_exclusive_release_checks_length_and_kind() {
    let mut t = Table::new(&vec![TypeTag::I32]);
    t.push_row(&vec![Value::I32(1)]).unwrap();
    let _ = t.column_mut(TypeTag::I32).unwrap();
    assert_eq!(
        t.release_column_mut(TypeTag::I32, vec![]),
        Err(EcsError::SchemaViolation)
    );
    assert_eq!(
        t.release_column_mut(TypeTag::I32, vec![Value::Bool(true)]),
        Err(EcsError::SchemaViolation)
    );
    assert_eq!(t.release_column_mut(TypeTag::I32, vec![Value::I32(8)]), Ok(()));
    let seen = t.column(TypeTag::I32).unwrap();
    assert_eq!(seen, vec![Value::I32(8)]);
}

#[test]
fn vertex_info_collects_attributes_in_order() {
    let info = Info::new(24)
        .attribute(AttributeType::Vec3, 0)
        .attribute(AttributeType::Vec3, 12);
    assert_eq!(info.stride, 24);
    assert_eq!(info.attributes.len(), 2);
    assert_eq!(info.attributes[0], (AttributeType::Vec3, 0));
    assert_eq!(info.attributes[1], (AttributeType::Vec3, 12));
}

#[test]
fn value_tags_match_their_kinds() {
    assert_eq!(Value::I32(1).tag(), TypeTag::I32);
    assert_eq!(Value::U32(1).tag(), TypeTag::U32);
    assert_eq!(Value::I64(1).tag(), TypeTag::I64);
    assert_eq!(Value::U64(1).tag(), TypeTag::U64);
    assert_eq!(Value::Bool(true).tag(), TypeTag::Bool);
    assert_eq!(Value::F32Bits(0).tag(), TypeTag::F32Bits);
    assert_eq!(Value::State(tecs::value::State::Running).tag(), TypeTag::State);
}

#[test]
fn column_get_mut_edits_in_place() {
    let mut c = Column::new(TypeTag::I32);
    c.push(Value::I32(3)).unwrap();
    assert!(c.get_mut(TypeTag::Bool, RowIndex(0)).is_none());
    assert!(c.get_mut(TypeTag::I32, RowIndex(1)).is_none());
    let v = c.get_mut(TypeTag::I32, RowIndex(0)).unwrap();
    *v = Value::I32(9);
    assert_eq!(c.get(TypeTag::I32, RowIndex(0)), Some(&Value::I32(9)));
}

#[test]
fn vecany_downcast_mut_checks_the_kind() {
    let mut v = VecAny::new_uninit(TypeTag::U32);
    v.push(Value::U32(1)).unwrap();
    assert!(v.downcast_mut(TypeTag::I32).is_none());
    let data = v.downcast_mut(TypeTag::U32).unwrap();
    data[0] = Value::U32(2);
    assert_eq!(v.data[0], Value::U32(2));
}

#[test]
fn columns_mut_supports_the_row_append_sequence() {
    let mut t = Table::new(&vec![TypeTag::I32, TypeTag::Bool]);
    let row = [Value::I32(1), Value::Bool(true)];
    for (col, v) in t.columns_mut().iter_mut().zip(row.iter()) {
        col.push(*v).unwrap();
    }
    t.length += 1;
    assert_eq!(t.len(), 1);
    for col in t.columns.iter() {
        assert_eq!(col.data.len(), t.len());
    }
}

#[test]
fn vecany_from_slice_copies_or_refuses_whole() {
    let data = vec![Value::I32(1), Value::I32(2)];
    let v = VecAny::from_slice(TypeTag::I32, &data).unwrap();
    assert_eq!(v.len(), 2);
    assert_eq!(v.data, data);
    let mixed = vec![Value::I32(1), Value::Bool(true)];
    assert!(matches!(
        VecAny::from_slice(TypeTag::I32, &mixed),
        Err(EcsError::SchemaViolation)
    ));
}
