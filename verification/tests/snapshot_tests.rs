use monumentum::catalog::Catalog;
use monumentum::codec::Reader;
use monumentum::error::DbError;
use monumentum::row::Row;
use monumentum::schema::{ColumnDef, DataType, TableSchema};
use monumentum::table::Table;
use monumentum::table_codec::{decode_catalog, decode_table, encode_catalog, encode_table, open_catalog};
use monumentum::types::{Integer, Text};
use monumentum::value::Value;

fn people() -> TableSchema {
    let mut id = ColumnDef::new("id", DataType::Integer);
    id.set_primary_key(true);
    TableSchema::try_new("people", vec![id, ColumnDef::new("name", DataType::Text)]).unwrap()
}

fn person(i: i64, name: &str) -> Row {
    Row::new(vec![Value::Integer(Integer::new(i)), Value::Text(Text::new(name.to_string()))])
}

fn sample() -> Catalog {
    let mut cat = Catalog::new();
    cat.create_table(people()).unwrap();
    let t = cat.get_table_mut("people").unwrap();
    t.insert(person(1, "Ann")).unwrap();
    t.insert(person(2, "Bo")).unwrap();
    cat.create_table(TableSchema::try_new("empty", vec![ColumnDef::new("x", DataType::Blob)]).unwrap()).unwrap();
    cat
}

#[test]
fn snapshot_roundtrip_keeps_tables_and_rows() {
    let cat = sample();
    let bytes = encode_catalog(&cat).unwrap();
    let back = decode_catalog(&bytes).unwrap();
    assert_eq!(back.len(), 2);
    let t = back.get_table("people").unwrap();
    assert_eq!(t.len(), 2);
    assert_eq!(t.rows()[1], person(2, "Bo"));
    assert!(back.get_table("empty").unwrap().is_empty());
    assert_eq!(encode_catalog(&back).unwrap(), bytes);
}

#[test]
fn table_roundtrip_through_reader() {
    let mut t = Table::new(people());
    t.insert(person(7, "Cy")).unwrap();
    let mut buf = Vec::new();
    encode_table(&t, &mut buf).unwrap();
    buf.extend_from_slice(&[9, 9]);
    let mut r = Reader::new(&buf);
    let back = decode_table(&mut r).unwrap();
    assert_eq!(back.rows(), t.rows());
    assert_eq!(r.remaining(), 2);
}

#[test]
fn snapshot_with_duplicate_key_is_corrupt() {
    let mut t = Table::new(people());
    t.insert(person(1, "Ann")).unwrap();
    let mut buf = Vec::new();
    encode_table(&t, &mut buf).unwrap();
    // claim two rows and repeat the first one
    let row_start = buf.len() - 25;
    let row = buf[row_start..].to_vec();
    let count_at = row_start - 4;
    buf[count_at] = 2;
    buf.extend(row);
    let mut r = Reader::new(&buf);
    assert!(matches!(decode_table(&mut r), Err(DbError::Corruption(_))));
}

#[test]
fn read_only_table_with_rows_does_not_decode() {
    let mut t = Table::new(people());
    t.insert(person(1, "Ann")).unwrap();
    t.set_read_only(true);
    let mut buf = Vec::new();
    encode_table(&t, &mut buf).unwrap();
    let mut r = Reader::new(&buf);
    assert!(matches!(decode_table(&mut r), Err(DbError::Corruption(_))));
}

#[test]
fn snapshot_errors() {
    assert!(matches!(decode_catalog(&[]), Err(DbError::Io(_))));
    assert!(matches!(decode_catalog(&[2, 0, 0, 0, 0, 0, 0, 0]), Err(DbError::Corruption(_))));
    assert!(matches!(decode_catalog(&[1, 0, 0, 0, 0x41, 0x42, 0x0F, 0]), Err(DbError::Corruption(_))));
    assert_eq!(decode_catalog(&[1, 0, 0, 0, 0, 0, 0, 0]).unwrap().len(), 0);
}

#[test]
fn open_catalog_prefers_last_log_snapshot() {
    let first = encode_catalog(&sample()).unwrap();
    let mut other = Catalog::new();
    other.create_table(TableSchema::try_new("solo", vec![ColumnDef::new("v", DataType::Integer)]).unwrap()).unwrap();
    let second = encode_catalog(&other).unwrap();
    let cat = open_catalog(Some(&first), &[first.clone(), second.clone()]).unwrap();
    assert!(cat.get_table("solo").is_some());
    assert!(cat.get_table("people").is_none());
    let cat = open_catalog(Some(&first), &[]).unwrap();
    assert!(cat.get_table("people").is_some());
    assert!(open_catalog(None, &[]).unwrap().is_empty());
    assert!(open_catalog(Some(&[1, 2]), &[second]).is_err());
}
