use tora_db::engine::{Db, LoadDbError, LoadDbErrorKind, QueryError, QueryResponse};
use tora_db::{Column, Data, Id, Instruction, Type};

fn text(s: &str) -> Data {
    Data::Text(s.to_string())
}

/// A table with columns `[Name:Text]` and one row `["John"]`.
fn name_table() -> Db {
    let mut db = Db::default();
    assert_eq!(
        db.append_column("Name".to_string(), Type::Text),
        Ok(QueryResponse::OkIndex(0))
    );
    assert_eq!(
        db.append_row(vec![text("John")]),
        Ok(QueryResponse::OkIndex(0))
    );
    db
}

#[test]
fn default_table_is_empty() {
    let db = Db::default();
    assert_eq!(db.columns.len(), 0);
    assert_eq!(db.rows.len(), 0);
}

#[test]
fn get_type_projects_every_kind() {
    assert_eq!(Data::Int32(1).get_type(), Type::Int32);
    assert_eq!(Data::Int64(1).get_type(), Type::Int64);
    assert_eq!(Data::Float32(1.5f32.to_bits()).get_type(), Type::Float32);
    assert_eq!(Data::Float64(2.5f64.to_bits()).get_type(), Type::Float64);
    assert_eq!(text("x").get_type(), Type::Text);
    // The null marker deliberately projects to Text.
    assert_eq!(Data::Null.get_type(), Type::Text);
}

#[test]
fn column_accessors() {
    let c = Column::new("Age".to_string(), Type::Int32);
    assert_eq!(c.name(), "Age");
    assert_eq!(*c.ty_restriction(), Type::Int32);
}

#[test]
fn append_row_count_mismatch_always_data_mismatch() {
    let mut db = Db::default();
    db.append_column("A".to_string(), Type::Int32).unwrap();
    // Too few values.
    assert_eq!(db.append_row(vec![]), Err(QueryError::DataMismatch));
    // Too many values, and of the wrong type: still DataMismatch, never
    // TypeMismatch, whatever the content.
    assert_eq!(
        db.append_row(vec![text("x"), text("y")]),
        Err(QueryError::DataMismatch)
    );
    assert_eq!(db.rows.len(), 0);
}

#[test]
fn append_row_type_mismatch_reports_expected_then_actual() {
    let mut db = Db::default();
    db.append_column("A".to_string(), Type::Int32).unwrap();
    assert_eq!(
        db.append_row(vec![text("x")]),
        Err(QueryError::TypeMismatch(Type::Int32, Type::Text))
    );
    assert_eq!(db.rows.len(), 0);
}

#[test]
fn append_row_reports_first_mismatch_left_to_right() {
    let mut db = Db::default();
    db.append_column("A".to_string(), Type::Int64).unwrap();
    db.append_column("B".to_string(), Type::Float32).unwrap();
    assert_eq!(
        db.append_row(vec![text("both"), text("wrong")]),
        Err(QueryError::TypeMismatch(Type::Int64, Type::Text))
    );
}

#[test]
fn append_row_accepts_null_in_text_column() {
    let mut db = Db::default();
    db.append_column("A".to_string(), Type::Text).unwrap();
    assert_eq!(db.append_row(vec![Data::Null]), Ok(QueryResponse::OkIndex(0)));
}

#[test]
fn delete_column_by_index_keeps_the_rest() {
    let mut db = Db::default();
    db.append_column("A".to_string(), Type::Text).unwrap();
    db.append_column("B".to_string(), Type::Int32).unwrap();
    assert_eq!(
        db.append_row(vec![text("hi"), Data::Int32(5)]),
        Ok(QueryResponse::OkIndex(0))
    );
    assert_eq!(db.delete_column_by_index(1), Ok(QueryResponse::OkIndex(1)));
    assert_eq!(db.columns.len(), 1);
    assert_eq!(db.columns[0].name(), "A");
    assert_eq!(*db.columns[0].ty_restriction(), Type::Text);
    assert_eq!(db.rows, vec![vec![text("hi")]]);
}

#[test]
fn delete_column_by_index_out_of_bounds() {
    let mut db = Db::default();
    db.append_column("A".to_string(), Type::Text).unwrap();
    assert_eq!(
        db.delete_column_by_index(1),
        Err(QueryError::IndexOutOfBounds)
    );
}

#[test]
fn delete_column_by_name_removes_first_match_only() {
    let mut db = Db::default();
    db.append_column("X".to_string(), Type::Text).unwrap();
    db.append_column("X".to_string(), Type::Int32).unwrap();
    db.append_row(vec![text("keep me not"), Data::Int32(7)])
        .unwrap();
    assert_eq!(
        db.delete_column_by_name("X"),
        Ok(QueryResponse::OkIndex(0))
    );
    assert_eq!(db.columns.len(), 1);
    // The second "X" (the Int32 one) survives.
    assert_eq!(*db.columns[0].ty_restriction(), Type::Int32);
    assert_eq!(db.rows, vec![vec![Data::Int32(7)]]);
}

#[test]
fn delete_column_by_name_is_case_sensitive_and_fails_with_not_found() {
    let mut db = Db::default();
    db.append_column("Name".to_string(), Type::Text).unwrap();
    assert_eq!(db.delete_column_by_name("name"), Err(QueryError::NotFound));
    assert_eq!(db.columns.len(), 1);
}

#[test]
fn delete_row_by_index_works_and_checks_bounds() {
    let mut db = Db::default();
    db.append_column("A".to_string(), Type::Int32).unwrap();
    db.append_row(vec![Data::Int32(1)]).unwrap();
    db.append_row(vec![Data::Int32(2)]).unwrap();
    assert_eq!(db.delete_row_by_index(5), Err(QueryError::IndexOutOfBounds));
    assert_eq!(db.delete_row_by_index(0), Ok(QueryResponse::OkIndex(0)));
    assert_eq!(db.rows, vec![vec![Data::Int32(2)]]);
}

#[test]
fn fetch_value_returns_the_cell() {
    let mut db = name_table();
    assert_eq!(
        db.fetch_value(0, 0),
        Ok(QueryResponse::OkSingle(text("John")))
    );
}

#[test]
fn fetch_value_first_argument_is_checked_against_the_row_count() {
    let mut db = name_table();
    assert_eq!(db.fetch_value(1, 0), Err(QueryError::DataOutOfBounds));
}

#[test]
fn fetch_value_second_argument_out_of_range_is_index_out_of_bounds() {
    let mut db = name_table();
    assert_eq!(db.fetch_value(0, 1), Err(QueryError::IndexOutOfBounds));
}

#[test]
fn fetch_value_position_beyond_row_width_is_data_out_of_bounds() {
    let mut db = Db::default();
    db.append_column("A".to_string(), Type::Int32).unwrap();
    db.append_row(vec![Data::Int32(1)]).unwrap();
    db.append_row(vec![Data::Int32(2)]).unwrap();
    // Two rows but one column: the first argument passes the row-count check
    // and then falls outside the row's width.
    assert_eq!(db.fetch_value(1, 0), Err(QueryError::DataOutOfBounds));
}

#[test]
fn append_column_default_fills_all_existing_rows() {
    let mut db = Db::default();
    db.append_column("A".to_string(), Type::Text).unwrap();
    db.append_row(vec![text("r1")]).unwrap();
    db.append_row(vec![text("r2")]).unwrap();
    db.append_row(vec![text("r3")]).unwrap();
    assert_eq!(
        db.append_column_default("N".to_string(), Type::Int32, Data::Int32(42)),
        Ok(QueryResponse::OkIndex(1))
    );
    assert_eq!(db.rows.len(), 3);
    for row in &db.rows {
        assert_eq!(row.len(), 2);
        assert_eq!(row[1], Data::Int32(42));
    }
}

#[test]
fn append_column_uses_the_null_marker_as_default() {
    let mut db = Db::default();
    db.append_column("A".to_string(), Type::Text).unwrap();
    db.append_row(vec![text("r1")]).unwrap();
    db.append_column("B".to_string(), Type::Int32).unwrap();
    assert_eq!(db.rows, vec![vec![text("r1"), Data::Null]]);
}

#[test]
fn query_dispatches_every_instruction() {
    let mut db = Db::default();
    assert_eq!(
        db.query(Instruction::AppendColumn("A".to_string(), Type::Text)),
        Ok(QueryResponse::OkIndex(0))
    );
    assert_eq!(
        db.query(Instruction::AppendRow(vec![text("v")])),
        Ok(QueryResponse::OkIndex(0))
    );
    assert_eq!(
        db.query(Instruction::Fetch(0, 0)),
        Ok(QueryResponse::OkSingle(text("v")))
    );
    assert_eq!(
        db.query(Instruction::DeleteRow(0)),
        Ok(QueryResponse::OkIndex(0))
    );
    assert_eq!(
        db.query(Instruction::DeleteColumn(Id::Name("A".to_string()))),
        Ok(QueryResponse::OkIndex(0))
    );
    assert_eq!(
        db.query(Instruction::DeleteColumn(Id::Index(0))),
        Err(QueryError::IndexOutOfBounds)
    );
}

#[test]
fn db_new_takes_prebuilt_columns_and_rows() {
    let columns = vec![Column::new("A".to_string(), Type::Int32)];
    let rows = vec![vec![Data::Int32(9)]];
    let mut db = Db::new(columns, rows);
    assert_eq!(
        db.fetch_value(0, 0),
        Ok(QueryResponse::OkSingle(Data::Int32(9)))
    );
}

#[test]
fn load_db_error_accessors() {
    let e = LoadDbError::new("boom".to_string(), LoadDbErrorKind::Io);
    assert_eq!(e.message(), "boom");
    assert_eq!(*e.kind(), LoadDbErrorKind::Io);
    let e = LoadDbError::new("bad bytes".to_string(), LoadDbErrorKind::Malformed);
    assert_eq!(*e.kind(), LoadDbErrorKind::Malformed);
}
