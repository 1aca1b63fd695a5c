use tora_db::engine::{Db, LoadDbErrorKind, QueryResponse};
use tora_db::{Data, Type};

fn text(s: &str) -> Data {
    Data::Text(s.to_string())
}

/// A table exercising every value kind, including a null marker.
fn sample_table() -> Db {
    let mut db = Db::default();
    db.append_column("i".to_string(), Type::Int32).unwrap();
    db.append_column("l".to_string(), Type::Int64).unwrap();
    db.append_column("f".to_string(), Type::Float32).unwrap();
    db.append_column("d".to_string(), Type::Float64).unwrap();
    db.append_column("s".to_string(), Type::Text).unwrap();
    db.append_row(vec![
        Data::Int32(-7),
        Data::Int64(1 << 40),
        Data::Float32(1.5f32.to_bits()),
        Data::Float64((-2.25f64).to_bits()),
        text("héllo, wörld"),
    ])
    .unwrap();
    db.append_row(vec![
        Data::Int32(i32::MIN),
        Data::Int64(i64::MAX),
        Data::Float32(0),
        Data::Float64(u64::MAX),
        Data::Null,
    ])
    .unwrap();
    db
}

fn assert_tables_equal(a: &Db, b: &Db) {
    assert_eq!(a.columns, b.columns);
    assert_eq!(a.rows, b.rows);
}

#[test]
fn round_trip_empty_table() {
    let db = Db::default();
    let back = Db::decode(&db.encode()).unwrap();
    assert_tables_equal(&db, &back);
}

#[test]
fn round_trip_all_value_kinds() {
    let db = sample_table();
    let back = Db::decode(&db.encode()).unwrap();
    assert_tables_equal(&db, &back);
}

#[test]
fn round_trip_columns_without_rows() {
    let mut db = Db::default();
    db.append_column("only".to_string(), Type::Float64).unwrap();
    let back = Db::decode(&db.encode()).unwrap();
    assert_tables_equal(&db, &back);
    assert_eq!(back.columns[0].name(), "only");
}

#[test]
fn round_trip_survives_mutation_afterwards() {
    let mut back = Db::decode(&sample_table().encode()).unwrap();
    // The reloaded table is fully usable.
    assert_eq!(
        back.fetch_value(0, 1),
        Ok(QueryResponse::OkSingle(Data::Int32(i32::MIN)))
    );
}

#[test]
fn encoding_is_deterministic() {
    let db = sample_table();
    assert_eq!(db.encode(), db.encode());
}

#[test]
fn decode_rejects_empty_input_as_malformed() {
    let e = Db::decode(&[]).unwrap_err();
    assert_eq!(*e.kind(), LoadDbErrorKind::Malformed);
}

#[test]
fn decode_rejects_truncated_input_as_malformed() {
    let bytes = sample_table().encode();
    let e = Db::decode(&bytes[..bytes.len() - 1]).unwrap_err();
    assert_eq!(*e.kind(), LoadDbErrorKind::Malformed);
}

#[test]
fn decode_rejects_trailing_bytes_as_malformed() {
    let mut bytes = sample_table().encode();
    bytes.push(0);
    let e = Db::decode(&bytes).unwrap_err();
    assert_eq!(*e.kind(), LoadDbErrorKind::Malformed);
}

#[test]
fn decode_rejects_unknown_value_tag_as_malformed() {
    // One column, one row: corrupt the value's tag byte, which is the last
    // tag before the 4-byte payload at the very end.
    let mut db = Db::default();
    db.append_column("a".to_string(), Type::Int32).unwrap();
    db.append_row(vec![Data::Int32(3)]).unwrap();
    let mut bytes = db.encode();
    let tag_pos = bytes.len() - 5;
    bytes[tag_pos] = 200;
    let e = Db::decode(&bytes).unwrap_err();
    assert_eq!(*e.kind(), LoadDbErrorKind::Malformed);
}

#[test]
fn decode_rejects_invalid_utf8_as_malformed() {
    // One Text column, no rows: the column name's bytes sit right after the
    // two count fields and the name length.
    let mut db = Db::default();
    db.append_column("ab".to_string(), Type::Text).unwrap();
    let mut bytes = db.encode();
    bytes[16] = 0xff;
    bytes[17] = 0xfe;
    let e = Db::decode(&bytes).unwrap_err();
    assert_eq!(*e.kind(), LoadDbErrorKind::Malformed);
}

#[test]
fn decoded_text_is_rebuilt_from_the_bytes() {
    // Would fail if loading handed back anything but the exact characters.
    let mut db = Db::default();
    db.append_column("s".to_string(), Type::Text).unwrap();
    db.append_row(vec![text("✓ exact — bytes")]).unwrap();
    let mut back = Db::decode(&db.encode()).unwrap();
    assert_eq!(
        back.fetch_value(0, 0),
        Ok(QueryResponse::OkSingle(text("✓ exact — bytes")))
    );
}
