use monumentum::engine::catalog::Catalog;
use monumentum::engine::catalog_codec::{decode_catalog, encode_catalog};
use monumentum::engine::table::Table;
use monumentum::error::DbError;
use monumentum::schema::{ColumnDef, DataType, TableSchema};

fn make_schema(name: &str) -> TableSchema {
    let result = TableSchema::try_new(name, vec![ColumnDef::new("id", DataType::Integer)]);
    assert!(result.is_ok());
    result.unwrap_or_else(|_| unreachable!())
}

#[test]
fn test_catalog_create_table() {
    let mut catalog = Catalog::new();
    let schema = make_schema("users");
    let result = catalog.create_table(schema.clone());
    assert!(result.is_ok());
    assert_eq!(catalog.len(), 1);
    assert!(!catalog.is_empty());

    let duplicate = catalog.create_table(schema);
    assert!(duplicate.is_err());
}

#[test]
fn test_catalog_drop_table() {
    let mut catalog = Catalog::new();
    let _ = catalog.create_table(make_schema("users"));
    assert_eq!(catalog.len(), 1);

    let drop_ok = catalog.drop_table("users");
    assert!(drop_ok.is_ok());
    assert_eq!(catalog.len(), 0);
    assert!(catalog.is_empty());

    let drop_missing = catalog.drop_table("users");
    assert!(drop_missing.is_err());
}

#[test]
fn test_catalog_rename_table() {
    let mut catalog = Catalog::new();
    let _ = catalog.create_table(make_schema("old"));
    let rename = catalog.rename_table("old", "new");
    assert!(rename.is_ok());
    assert!(catalog.get_table("new").is_some());
    assert!(catalog.get_table("old").is_none());

    let _ = catalog.create_table(make_schema("other"));
    let rename_conflict = catalog.rename_table("other", "new");
    assert!(rename_conflict.is_err());
}

#[test]
fn test_catalog_replace_table() {
    let mut catalog = Catalog::new();
    let _ = catalog.create_table(make_schema("users"));
    let table = Table::new(make_schema("users"));
    let replace = catalog.replace_table("users", table);
    assert!(replace.is_ok());

    let wrong_table = Table::new(make_schema("wrong"));
    let replace_wrong = catalog.replace_table("users", wrong_table);
    assert!(replace_wrong.is_err());

    let missing_table = Table::new(make_schema("missing"));
    let replace_missing = catalog.replace_table("nonexistent", missing_table);
    assert!(replace_missing.is_err());
}

#[test]
fn test_catalog_get_table_and_iterator() {
    let mut catalog = Catalog::new();
    let _ = catalog.create_table(make_schema("a"));
    let _ = catalog.create_table(make_schema("b"));

    assert!(catalog.get_table("a").is_some());
    assert!(catalog.get_table_mut("a").is_some());
    assert!(catalog.get_table("c").is_none());

    let mut count = 0;
    for (name, _) in catalog.tables() {
        assert!(name == "a" || name == "b");
        count += 1;
    }
    assert_eq!(count, 2);
}

#[test]
fn test_catalog_trait_impl() {
    let mut catalog = Catalog::new();
    let schema = make_schema("trait_table");
    let result = catalog.create_table(schema.clone());
    assert!(result.is_ok());

    let drop_result = catalog.drop_table("trait_table");
    assert!(drop_result.is_ok());

    let _ = catalog.create_table(schema);
    let rename_result = catalog.rename_table("trait_table", "renamed");
    assert!(rename_result.is_ok());
}

#[test]
fn catalog_lists_tables_in_name_order() {
    let mut catalog = Catalog::new();
    let _ = catalog.create_table(make_schema("zeta"));
    let _ = catalog.create_table(make_schema("alpha"));
    let names: Vec<&str> = catalog.tables().into_iter().map(|(n, _)| n).collect();
    assert_eq!(names, vec!["alpha", "zeta"]);
    let err = catalog.drop_table("missing").unwrap_err();
    assert!(matches!(err, DbError::TableNotFound(_)));
}

#[test]
fn table_metadata_basics() {
    let schema_result = TableSchema::try_new("t", vec![ColumnDef::new("id", DataType::Integer)]);
    let Ok(schema) = schema_result else { return };
    let table = Table::new(schema);
    assert_eq!(table.schema().name(), "t");
    assert!(!table.is_read_only());
    let mut table = table;
    table.set_read_only(true);
    assert!(table.is_read_only());
}

#[test]
fn table_rename_schema() {
    let schema_result = TableSchema::try_new("old", vec![ColumnDef::new("id", DataType::Integer)]);
    let Ok(schema) = schema_result else { return };
    let mut table = Table::new(schema);
    assert!(table.rename_schema("new").is_ok());
    assert_eq!(table.schema().name(), "new");
}

#[test]
fn table_row_ids_count_up() {
    let mut table = Table::new(make_schema("t"));
    assert_eq!(table.next_row_id(), 0);
    assert_eq!(table.increment_next_row_id().unwrap(), 0);
    assert_eq!(table.next_row_id(), 1);
    table.set_next_row_id(u64::MAX);
    assert!(matches!(table.increment_next_row_id(), Err(DbError::InvalidOperation(_))));
    table.set_data_page_id(3);
    assert_eq!(table.data_page_id(), Some(3));
    table.set_index_root_page_id(4);
    assert_eq!(table.index_root_page_id(), Some(4));
    table.clear_index_root_page_id();
    assert_eq!(table.index_root_page_id(), None);
}

#[test]
fn catalog_roundtrip() {
    let mut cat = Catalog::new();
    let schema_result = TableSchema::try_new("test", vec![ColumnDef::new("id", DataType::Integer)]);
    let Ok(schema) = schema_result else {
        return;
    };
    assert!(cat.create_table(schema).is_ok());
    if let Some(table) = cat.get_table_mut("test") {
        table.set_data_page_id(42);
        table.set_next_row_id(1);
    }
    let encode_result = encode_catalog(&cat);
    let Ok(bytes) = encode_result else {
        return;
    };
    let decode_result = decode_catalog(&bytes);
    let Ok(decoded) = decode_result else {
        return;
    };
    assert_eq!(cat, decoded);
}

#[test]
fn catalog_roundtrip_is_exact() {
    let mut cat = Catalog::new();
    let mut col = ColumnDef::new("name", DataType::Text);
    col.set_nullable(false);
    col.set_unique(true);
    let schema = TableSchema::try_new("people", vec![ColumnDef::new("id", DataType::Integer), col]).unwrap();
    cat.create_table(schema).unwrap();
    cat.create_table(make_schema("other")).unwrap();
    let bytes = encode_catalog(&cat).unwrap();
    let decoded = decode_catalog(&bytes).unwrap();
    assert_eq!(cat, decoded);
    assert_eq!(encode_catalog(&decoded).unwrap(), bytes);
}

#[test]
fn decode_corrupt_data_returns_corruption() {
    let bytes = vec![0u8; 100];
    let result = decode_catalog(&bytes);
    assert!(result.is_err());
    if let Err(e) = result {
        assert!(matches!(e, DbError::Corruption(_)));
    }
}

#[test]
fn error_message_renders_kind_and_name() {
    let err = DbError::table_not_found("users");
    assert!(matches!(err, DbError::TableNotFound(ref s) if s == "users"));
    assert_eq!(err.message(), "Table not found: users");
    assert_eq!(DbError::corruption("bad page").message(), "Data corruption: bad page");
}

#[test]
fn catalog_drop_missing_table_names_it() {
    let mut catalog = Catalog::new();
    let result = catalog.drop_table("ghost");
    assert!(matches!(result, Err(DbError::TableNotFound(ref s)) if s == "ghost"));
    assert!(catalog.is_empty());
}

#[test]
fn catalog_rename_onto_taken_name_keeps_tables() {
    let mut catalog = Catalog::new();
    assert!(catalog.create_table(make_schema("a")).is_ok());
    assert!(catalog.create_table(make_schema("b")).is_ok());
    assert!(catalog.rename_table("a", "b").is_err());
    assert_eq!(catalog.len(), 2);
    assert!(catalog.get_table("a").is_some());
    assert!(catalog.get_table("b").is_some());
    assert!(catalog.rename_table("missing", "c").is_err());
    assert_eq!(catalog.len(), 2);
    assert!(catalog.rename_table("a", "c").is_ok());
    assert!(catalog.get_table("a").is_none());
    assert!(catalog.get_table("c").is_some());
}
