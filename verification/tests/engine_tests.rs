use monumentum::append_log::{crc32, encode_record, parse_records};
use monumentum::engine::btree::BTreeOnDisk;
use monumentum::engine::buffer_pool::BufferPool;
use monumentum::engine::catalog::Catalog;
use monumentum::engine::key::IndexKey;
use monumentum::engine::page::{Page, PageHeader, PageType, PAGE_SIZE};
use monumentum::engine::pager::Pager;
use monumentum::engine::storage::{FileStorage, InMemoryStorage};
use monumentum::engine::table_storage::TableStorage;
use monumentum::engine::wal_record::{decode_wal_record, encode_wal_record, WalRecord, WalRecordType};
use monumentum::engine::wire::{decode_row, encode_row};
use monumentum::error::DbError;
use monumentum::recovery::recover_wal;
use monumentum::row::Row;
use monumentum::schema::{ColumnDef, DataType, TableSchema};
use monumentum::types::{Blob, Float, Integer, Text};
use monumentum::value::Value;

fn empty_pager() -> Pager {
    Pager::from_image(&[]).unwrap_or_else(|_| unreachable!())
}

fn int_value(i: i64) -> Value {
    Value::Integer(Integer::new(i))
}

fn text(s: &str) -> Value {
    Value::Text(Text::new(s.to_string()))
}

#[test]
fn test_pager_open_new_file() {
    let pager = Pager::from_image(&[]);
    assert!(pager.is_ok());
    if let Ok(pager) = pager {
        assert_eq!(pager.page_count(), 0);
    }
}

#[test]
fn test_pager_allocate_read_write_page() {
    let mut pager = empty_pager();
    let page_id_result = pager.allocate_page(PageType::Data);
    assert!(page_id_result.is_ok());
    if let Ok(page_id) = page_id_result {
        assert_eq!(page_id, 0);
        assert_eq!(pager.page_count(), 1);
        let read_result = pager.read_page(page_id);
        assert!(read_result.is_ok());
        if let Ok(mut page) = read_result {
            page.header.cell_count = 7;
            page.data[0] = 0xAA;
            let write_result = pager.write_page(&page);
            assert!(write_result.is_ok());
        }
        let read_again = pager.read_page(page_id);
        assert!(read_again.is_ok());
        if let Ok(page) = read_again {
            assert_eq!(page.header.cell_count, 7);
            assert_eq!(page.data[0], 0xAA);
        }
    }
}

#[test]
fn test_pager_free_page() {
    let mut pager = empty_pager();
    let page_id_result = pager.allocate_page(PageType::Data);
    assert!(page_id_result.is_ok());
    if let Ok(page_id) = page_id_result {
        let free_result = pager.free_page(page_id);
        assert!(free_result.is_ok());
        let read = pager.read_page(page_id);
        assert!(read.is_ok());
        if let Ok(page) = read {
            assert_eq!(page.header.page_type, PageType::Freelist);
        }
    }
}

#[test]
fn test_pager_rejects_invalid_page_id() {
    let mut pager = empty_pager();
    let read = pager.read_page(0);
    assert!(read.is_err());
    let write = pager.write_page(&Page::new(0, PageType::Data));
    assert!(write.is_err());
}

#[test]
fn test_pager_detects_corrupt_size() {
    let pager_result = Pager::from_image(&[0u8; PAGE_SIZE - 1]);
    assert!(pager_result.is_err());
    if let Err(e) = pager_result {
        assert!(matches!(e, DbError::Corruption(_)));
    }
}

#[test]
fn pager_image_roundtrip() {
    let mut pager = empty_pager();
    pager.allocate_page(PageType::Data).unwrap();
    pager.allocate_page(PageType::Index).unwrap();
    let image = pager.image();
    assert_eq!(image.len(), 2 * PAGE_SIZE);
    let again = Pager::from_image(&image).unwrap();
    assert_eq!(again.page_count(), 2);
    assert_eq!(again.read_page(1).unwrap().header.page_type, PageType::Index);
}

#[test]
fn page_header_and_page_bytes_roundtrip() {
    let mut header = PageHeader::new(5, PageType::TableMeta);
    header.cell_count = 3;
    header.checksum = 0xDEAD_BEEF;
    header.flags = 0x00AB_CDEF;
    let bytes = header.to_bytes();
    assert_eq!(bytes.len(), 16);
    assert_eq!(PageHeader::from_bytes(&bytes).unwrap(), header);
    let mut page = Page::new(5, PageType::TableMeta);
    page.data[10] = 1;
    let back = Page::from_bytes(&page.as_bytes()).unwrap();
    assert_eq!(back.header, page.header);
    assert_eq!(back.data, page.data);
}

#[test]
fn test_buffer_pool_basic() -> Result<(), DbError> {
    let mut pool = BufferPool::new(empty_pager(), 2)?;
    let page_id = pool.allocate_page(PageType::Data)?;
    {
        let page = pool.get_page(page_id)?;
        page.header.cell_count = 42;
    }
    pool.unpin_page(page_id, true)?;
    pool.flush_page(page_id)?;
    {
        let page = pool.get_page(page_id)?;
        assert_eq!(page.header.cell_count, 42);
    }
    pool.unpin_page(page_id, false)?;
    Ok(())
}

#[test]
fn buffer_pool_test_buffer_pool_eviction() -> Result<(), DbError> {
    let mut pool = BufferPool::new(empty_pager(), 1)?;
    let first_page_id = pool.allocate_page(PageType::Data)?;
    let second_page_id = pool.allocate_page(PageType::Data)?;
    assert!(!pool.is_cached(first_page_id));
    assert!(pool.is_cached(second_page_id));
    Ok(())
}

#[test]
fn test_buffer_pool_new_rejects_zero_capacity() {
    let result = BufferPool::new(empty_pager(), 0);
    assert!(result.is_err());
}

#[test]
fn test_buffer_pool_allocate_and_get_page() {
    let pool_result = BufferPool::new(empty_pager(), 2);
    assert!(pool_result.is_ok());
    if let Ok(mut pool) = pool_result {
        let page_id_result = pool.allocate_page(PageType::Data);
        assert!(page_id_result.is_ok());
        if let Ok(page_id) = page_id_result {
            let page_ref = pool.get_page(page_id);
            assert!(page_ref.is_ok());
            if let Ok(page) = page_ref {
                page.header.cell_count = 42;
            }
            let unpin_result = pool.unpin_page(page_id, true);
            assert!(unpin_result.is_ok());
            let flush_result = pool.flush_page(page_id);
            assert!(flush_result.is_ok());
            let page_again_ref = pool.get_page(page_id);
            assert!(page_again_ref.is_ok());
            if let Ok(page) = page_again_ref {
                assert_eq!(page.header.cell_count, 42);
            }
            let unpin2 = pool.unpin_page(page_id, false);
            assert!(unpin2.is_ok());
            assert_eq!(pool.pager().read_page(page_id).unwrap().header.cell_count, 42);
        }
    }
}

#[test]
fn buff_tests_test_buffer_pool_eviction() {
    let pool_result = BufferPool::new(empty_pager(), 1);
    assert!(pool_result.is_ok());
    if let Ok(mut pool) = pool_result {
        let first = pool.allocate_page(PageType::Data);
        let second = pool.allocate_page(PageType::Data);
        assert!(first.is_ok());
        assert!(second.is_ok());
        if let (Ok(first_id), Ok(second_id)) = (first, second) {
            let first_page = pool.get_page(first_id);
            assert!(first_page.is_ok());
            let unpin = pool.unpin_page(first_id, false);
            assert!(unpin.is_ok());
            let second_page = pool.get_page(second_id);
            assert!(second_page.is_ok());
            let unpin2 = pool.unpin_page(second_id, false);
            assert!(unpin2.is_ok());
        }
    }
}

#[test]
fn buffer_pool_eviction_writes_back_changed_page() {
    let mut pool = BufferPool::new(empty_pager(), 1).unwrap();
    let first = pool.allocate_page(PageType::Data).unwrap();
    if let Ok(page) = pool.get_page(first) {
        page.data[0] = 9;
    }
    pool.unpin_page(first, true).unwrap();
    let second = pool.allocate_page(PageType::Data).unwrap();
    assert!(!pool.is_cached(first));
    assert!(pool.is_cached(second));
    assert_eq!(pool.cached_count(), 1);
    assert_eq!(pool.pager().read_page(first).unwrap().data[0], 9);
    // a pinned page cannot leave: no room for another
    let _ = pool.get_page(second).unwrap();
    assert!(pool.get_page(first).is_err());
}

#[test]
fn test_buffer_pool_flush_all() {
    let pool_result = BufferPool::new(empty_pager(), 4);
    assert!(pool_result.is_ok());
    if let Ok(mut pool) = pool_result {
        let page_id_result = pool.allocate_page(PageType::Data);
        assert!(page_id_result.is_ok());
        if let Ok(page_id) = page_id_result {
            let page_ref = pool.get_page(page_id);
            if let Ok(page) = page_ref {
                page.data[0] = 0xAB;
            }
            let _ = pool.unpin_page(page_id, true);
            let flush_all = pool.flush_all();
            assert!(flush_all.is_ok());
            assert_eq!(pool.pager().read_page(page_id).unwrap().data[0], 0xAB);
            assert!(pool.dirty_ids().is_empty());
        }
    }
}

#[test]
fn test_table_storage_insert_and_get() {
    let buffer_pool_result = BufferPool::new(empty_pager(), 10);
    assert!(buffer_pool_result.is_ok());
    if let Ok(mut buffer_pool) = buffer_pool_result {
        let table_result = TableStorage::new(&mut buffer_pool);
        assert!(table_result.is_ok());
        if let Ok(table) = table_result {
            let row1 = Row::new(vec![int_value(1), Value::Null]);
            let row2 = Row::new(vec![int_value(2), Value::Boolean(true)]);
            let insert1 = table.insert_row(&mut buffer_pool, &row1);
            assert!(insert1.is_ok());
            let insert2 = table.insert_row(&mut buffer_pool, &row2);
            assert!(insert2.is_ok());
            let get0 = table.get_row(&mut buffer_pool, 0);
            assert!(get0.is_ok());
            if let Ok(Some(row)) = get0 {
                assert_eq!(row, row1);
            } else {
                unreachable!("row 0 should exist");
            }
            let get1 = table.get_row(&mut buffer_pool, 1);
            assert!(get1.is_ok());
            if let Ok(Some(row)) = get1 {
                assert_eq!(row, row2);
            } else {
                unreachable!("row 1 should exist");
            }
            let get2 = table.get_row(&mut buffer_pool, 2);
            assert!(get2.is_ok());
            assert!(matches!(get2, Ok(None)));
        }
    }
}

#[test]
fn table_storage_spills_to_linked_page() {
    let mut pool = BufferPool::new(empty_pager(), 4).unwrap();
    let table = TableStorage::new(&mut pool).unwrap();
    let big = Value::Blob(Blob::new(vec![7u8; 1500]));
    for _ in 0..5 {
        table.insert_row(&mut pool, &Row::new(vec![big.clone()])).unwrap();
    }
    assert!(pool.page_count() >= 2);
    for i in 0..5 {
        let row = table.get_row(&mut pool, i).unwrap().unwrap();
        assert_eq!(row.values()[0], big);
    }
    assert!(table.get_row(&mut pool, 5).unwrap().is_none());
    let huge = Row::new(vec![Value::Blob(Blob::new(vec![0u8; 5000]))]);
    assert!(matches!(table.insert_row(&mut pool, &huge), Err(DbError::InvalidOperation(_))));
}

fn to_u64(i: i64) -> Result<u64, DbError> {
    u64::try_from(i).map_err(|_| DbError::invalid_operation("negative value"))
}

#[test]
fn test_btree_insert_and_lookup() -> Result<(), DbError> {
    let mut buffer_pool = BufferPool::new(empty_pager(), 10)?;
    let btree = BTreeOnDisk::create(&mut buffer_pool)?;
    let mut root_id = btree.root_page_id();

    for i in 0..10_i64 {
        let key = IndexKey::Integer(i);
        let value = to_u64(i)?;
        BTreeOnDisk::insert_static(&mut buffer_pool, &mut root_id, key, value)?;
    }

    for i in 0..10_i64 {
        let key = IndexKey::Integer(i);
        let value = to_u64(i)?;
        let result = BTreeOnDisk::lookup_static(&mut buffer_pool, root_id, &key)?;
        assert_eq!(result, Some(value));
    }

    let missing = BTreeOnDisk::lookup_static(&mut buffer_pool, root_id, &IndexKey::Integer(99))?;
    assert_eq!(missing, None);
    Ok(())
}

#[test]
fn test_btree_large_insert_causes_split() -> Result<(), DbError> {
    let mut buffer_pool = BufferPool::new(empty_pager(), 50)?;
    let btree = BTreeOnDisk::create(&mut buffer_pool)?;
    let mut root_id = btree.root_page_id();

    for i in 0..150_i64 {
        let key = IndexKey::Integer(i);
        let value = to_u64(i)?;
        BTreeOnDisk::insert_static(&mut buffer_pool, &mut root_id, key, value)?;
    }

    for i in 0..150_i64 {
        let key = IndexKey::Integer(i);
        let value = to_u64(i)?;
        let result = BTreeOnDisk::lookup_static(&mut buffer_pool, root_id, &key)?;
        assert_eq!(result, Some(value));
    }
    assert_ne!(root_id, btree.root_page_id());
    Ok(())
}

#[test]
fn btree_rejects_duplicate_key() -> Result<(), DbError> {
    let mut pool = BufferPool::new(empty_pager(), 4)?;
    let btree = BTreeOnDisk::create(&mut pool)?;
    let mut root = btree.root_page_id();
    BTreeOnDisk::insert_static(&mut pool, &mut root, IndexKey::Text("k".to_string()), 1)?;
    let again = BTreeOnDisk::insert_static(&mut pool, &mut root, IndexKey::Text("k".to_string()), 2);
    assert!(matches!(again, Err(DbError::ConstraintViolation(_))));
    assert_eq!(BTreeOnDisk::lookup_static(&mut pool, root, &IndexKey::Text("k".to_string()))?, Some(1));
    assert_eq!(BTreeOnDisk::lookup_static(&mut pool, root, &IndexKey::Boolean(true))?, None);
    Ok(())
}

#[test]
fn test_row_encode_decode_roundtrip() {
    let row = Row::new(vec![
        int_value(42),
        Float::try_from_bits(2.5_f64.to_bits()).map(Value::Float).unwrap_or(Value::Null),
        text("text"),
        Value::Blob(Blob::new(vec![1, 2, 3])),
        Value::Boolean(true),
    ]);

    let encoded = encode_row(&row);
    assert!(encoded.is_ok());
    let Ok(encoded_bytes) = encoded else {
        return;
    };
    let decoded = decode_row(&encoded_bytes);
    assert!(decoded.is_ok());
    let Ok(decoded_row) = decoded else {
        return;
    };
    assert_eq!(row.len(), decoded_row.len());
    for (orig, dec) in row.values().iter().zip(decoded_row.values().iter()) {
        if let (Value::Float(f1), Value::Float(f2)) = (orig, dec) {
            assert!((f64::from_bits(f1.to_bits()) - f64::from_bits(f2.to_bits())).abs() < 1e-12);
        } else {
            assert_eq!(orig, dec);
        }
    }
}

#[test]
fn crc32_check_value() {
    assert_eq!(crc32(b"123456789"), 0xCBF4_3926);
    assert_eq!(crc32(b""), 0);
}

#[test]
fn test_append_record_and_read() {
    let payload = vec![1, 2, 3, 4];
    let log = encode_record(&payload).unwrap();
    let records = parse_records(&log);
    assert!(records.is_ok());
    if let Ok(records) = records {
        assert_eq!(records.len(), 1);
        if let Some(record) = records.first() {
            assert_eq!(record, &payload);
        } else {
            unreachable!();
        }
    }
}

#[test]
fn test_wal_append_and_read() {
    let rec = WalRecord { lsn: 1, record_type: WalRecordType::PageWrite, data: vec![0xAA, 0xBB] };
    let mut log = encode_record(&encode_wal_record(&rec)).unwrap();
    let records = recover_wal(&log).unwrap().records;
    assert_eq!(records.len(), 1);
    let record = decode_wal_record(&records[0]).unwrap();
    assert_eq!(record.lsn, 1);
    assert_eq!(record.record_type, WalRecordType::PageWrite);
    assert_eq!(record.data, vec![0xAA, 0xBB]);
    log.clear();
    assert_eq!(recover_wal(&log).unwrap().records.len(), 0);
}

#[test]
fn log_records_read_back_in_order() {
    let mut log = Vec::new();
    log.extend(encode_record(b"first").unwrap());
    log.extend(encode_record(b"second").unwrap());
    let records = parse_records(&log).unwrap();
    assert_eq!(records, vec![b"first".to_vec(), b"second".to_vec()]);
    let recovered = recover_wal(&log).unwrap();
    assert_eq!(recovered.records.len(), 2);
    // a torn last record is corruption
    log.pop();
    assert!(matches!(parse_records(&log), Err(DbError::Corruption(_))));
    assert!(recover_wal(&[]).unwrap().records.is_empty());
}

#[test]
fn wal_record_roundtrip() {
    let rec = WalRecord { lsn: 7, record_type: WalRecordType::Snapshot, data: vec![1, 2, 3] };
    let bytes = encode_wal_record(&rec);
    let back = decode_wal_record(&bytes).unwrap();
    assert_eq!(back.lsn, 7);
    assert_eq!(back.record_type, WalRecordType::Snapshot);
    assert_eq!(back.data, vec![1, 2, 3]);
    assert!(decode_wal_record(&bytes[..5]).is_err());
}

/// The two files of a database, held in memory.
struct Files {
    image: Vec<u8>,
    wal: Vec<Vec<u8>>,
}

fn open(files: &Files) -> Result<FileStorage, DbError> {
    let pager = Pager::from_image(&files.image)?;
    FileStorage::open_with(pager, 10, &files.wal)
}

/// What reaches the files: the log records written so far and the pages
/// the pager holds.
fn persist(storage: &mut FileStorage, files: &mut Files) {
    let (reset, records) = storage.take_log();
    if reset {
        files.wal.clear();
    }
    files.wal.extend(records);
    files.image = storage.pager().image();
}

fn make_schema() -> TableSchema {
    let result = TableSchema::try_new(
        "users",
        vec![ColumnDef::new("id", DataType::Integer), ColumnDef::new("name", DataType::Text)],
    );
    assert!(result.is_ok());
    result.unwrap_or_else(|_| unreachable!())
}

#[test]
fn test_file_storage_full_workflow() {
    let files = Files { image: Vec::new(), wal: Vec::new() };
    let storage_result = open(&files);
    assert!(storage_result.is_ok());
    if let Ok(mut storage) = storage_result {
        let create_result = storage.create_table(make_schema());
        assert!(create_result.is_ok());
        let row = Row::new(vec![int_value(1), text("Alice")]);
        let insert_result = storage.insert_row("users", &row);
        assert!(insert_result.is_ok());
        let get_result = storage.get_row("users", 0);
        assert!(get_result.is_ok());
        if let Ok(Some(retrieved)) = get_result {
            assert_eq!(retrieved, row);
        } else {
            unreachable!("expected row");
        }
        let checkpoint = storage.checkpoint();
        assert!(checkpoint.is_ok());
        let drop_result = storage.drop_table("users");
        assert!(drop_result.is_ok());
    }
}

#[test]
fn test_file_storage_reopen_persists_data() {
    let mut files = Files { image: Vec::new(), wal: Vec::new() };
    let row = Row::new(vec![int_value(1), text("Bob")]);
    {
        let storage_result = open(&files);
        assert!(storage_result.is_ok());
        if let Ok(mut storage) = storage_result {
            assert!(storage.create_table(make_schema()).is_ok());
            assert!(storage.insert_row("users", &row).is_ok());
            assert!(storage.checkpoint().is_ok());
            assert!(storage.close().is_ok());
            persist(&mut storage, &mut files);
        }
    }
    {
        let storage_result = open(&files);
        assert!(storage_result.is_ok());
        if let Ok(mut storage) = storage_result {
            let get_result = storage.get_row("users", 0);
            assert!(get_result.is_ok());
            if let Ok(Some(retrieved)) = get_result {
                assert_eq!(retrieved, row);
            } else {
                unreachable!("expected row after reopen");
            }
        }
    }
}

#[test]
fn test_crash_recovery_without_checkpoint() {
    let mut files = Files { image: Vec::new(), wal: Vec::new() };
    let row = Row::new(vec![int_value(1), text("Alice")]);
    {
        let storage_result = open(&files);
        assert!(storage_result.is_ok());
        if let Ok(mut storage) = storage_result {
            persist(&mut storage, &mut files);
            assert!(storage.create_table(make_schema()).is_ok());
            assert!(storage.insert_row("users", &row).is_ok());
            // the process ends here: only what reached the files survives
            persist(&mut storage, &mut files);
        }
    }
    {
        let storage_result = open(&files);
        assert!(storage_result.is_ok());
        if let Ok(mut storage) = storage_result {
            let get_result = storage.get_row("users", 0);
            assert!(get_result.is_ok());
            if let Ok(Some(retrieved)) = get_result {
                assert_eq!(retrieved, row);
            } else {
                unreachable!("expected row after crash recovery");
            }
        }
    }
}

#[test]
fn file_storage_persist_and_reload() {
    let mut files = Files { image: Vec::new(), wal: Vec::new() };
    {
        let mut storage = open(&files).unwrap();
        let mut cat = Catalog::new();
        let schema = TableSchema::try_new("t", vec![ColumnDef::new("id", DataType::Integer)]).unwrap();
        assert!(cat.create_table(schema).is_ok());
        assert!(storage.save_catalog(&cat).is_ok());
        assert!(storage.checkpoint().is_ok());
        assert!(storage.close().is_ok());
        persist(&mut storage, &mut files);
    }
    {
        let mut storage = open(&files).unwrap();
        let cat = storage.reload_from_disk().unwrap();
        assert!(cat.get_table("t").is_some());
        assert!(storage.close().is_ok());
    }
}

#[test]
fn in_memory_storage_basic() {
    let mut storage = InMemoryStorage::new();
    let mut cat = Catalog::new();
    let schema_result = TableSchema::try_new("t", vec![ColumnDef::new("id", DataType::Integer)]);
    let Ok(schema) = schema_result else {
        return;
    };
    assert!(cat.create_table(schema).is_ok());
    assert!(storage.save_catalog(&cat).is_ok());
    let loaded = storage.get_catalog();
    assert_eq!(loaded, &cat);
    assert!(storage.get_table("t").is_some());
    assert!(storage.get_table("nonexistent").is_none());
    assert!(matches!(storage.insert_row("t", &Row::new(vec![int_value(1)])), Err(DbError::Unsupported(_))));
}

#[test]
fn file_storage_table_errors() {
    let files = Files { image: Vec::new(), wal: Vec::new() };
    let mut storage = open(&files).unwrap();
    assert!(matches!(storage.insert_row("nope", &Row::new(vec![int_value(1)])), Err(DbError::TableNotFound(_))));
    assert!(storage.create_table(make_schema()).is_ok());
    assert!(storage.create_table(make_schema()).is_err());
    assert!(storage.rename_table("users", "people").is_ok());
    assert!(storage.get_table("people").is_some());
    assert!(storage.get_table("users").is_none());
    assert!(matches!(storage.set_cell("people", 0, 0, int_value(1)), Err(DbError::Unsupported(_))));
}

#[test]
fn btree_fresh_tree_finds_nothing() -> Result<(), DbError> {
    let mut pool = BufferPool::new(empty_pager(), 2)?;
    let btree = BTreeOnDisk::create(&mut pool)?;
    assert_eq!(btree.root_page_id(), 0);
    for key in [IndexKey::Integer(0), IndexKey::Text(String::new()), IndexKey::Blob(vec![1])] {
        assert_eq!(BTreeOnDisk::lookup_static(&mut pool, btree.root_page_id(), &key)?, None);
    }
    Ok(())
}

#[test]
fn btree_text_keys_split_and_read_back() -> Result<(), DbError> {
    let mut pool = BufferPool::new(empty_pager(), 8)?;
    let btree = BTreeOnDisk::create(&mut pool)?;
    let mut root = btree.root_page_id();
    for i in (0..300_u64).rev() {
        BTreeOnDisk::insert_static(&mut pool, &mut root, IndexKey::Text(format!("key-{i:04}")), i)?;
    }
    for i in 0..300_u64 {
        let got = BTreeOnDisk::lookup_static(&mut pool, root, &IndexKey::Text(format!("key-{i:04}")))?;
        assert_eq!(got, Some(i));
    }
    assert!(pool.page_count() > 3);
    Ok(())
}

#[test]
fn storage_tables_change_in_place() {
    let mut mem = InMemoryStorage::new();
    let mut cat = Catalog::new();
    cat.create_table(TableSchema::try_new("t", vec![ColumnDef::new("id", DataType::Integer)]).unwrap()).unwrap();
    mem.save_catalog(&cat).unwrap();
    mem.get_table_mut("t").unwrap().set_read_only(true);
    assert!(mem.get_table("t").unwrap().is_read_only());
    assert!(mem.get_table_mut("u").is_none());
    assert!(mem.load_catalog().unwrap().get_table("t").unwrap().is_read_only());

    let files = Files { image: Vec::new(), wal: Vec::new() };
    let mut disk = open(&files).unwrap();
    disk.create_table(make_schema()).unwrap();
    disk.get_table_mut("users").unwrap().set_next_row_id(5);
    assert_eq!(disk.get_table("users").unwrap().next_row_id(), 5);
}

#[test]
fn test_pager_detects_checksum_mismatch() {
    let mut image = {
        let mut pager = empty_pager();
        let _ = pager.allocate_page(PageType::Data).unwrap_or_else(|_| unreachable!());
        let mut page = pager.read_page(0).unwrap_or_else(|_| unreachable!());
        page.data[0] = 0xAB;
        pager.write_page(&page).unwrap_or_else(|_| unreachable!());
        pager.image()
    };
    image[100] ^= 0xFF;
    let pager_result = Pager::from_image(&image);
    assert!(pager_result.is_ok());
    if let Ok(pager) = pager_result {
        let read_result = pager.read_page(0);
        assert!(read_result.is_err());
        if let Err(e) = read_result {
            assert!(matches!(e, DbError::Corruption(_)));
        }
    }
}

#[test]
fn stored_page_carries_body_checksum() {
    let page = Page::new(3, PageType::Data);
    let bytes = page.as_bytes();
    let stored = u32::from_le_bytes([bytes[9], bytes[10], bytes[11], bytes[12]]);
    assert_eq!(stored, crc32(&page.data));
    let back = Page::from_bytes(&bytes).unwrap();
    assert_eq!(back.header.checksum, 0);
    assert_eq!(back.header, page.header);
}

#[test]
fn recovered_tables_survive_a_second_reopen() {
    let mut files = Files { image: Vec::new(), wal: Vec::new() };
    let row = Row::new(vec![int_value(7), text("Eve")]);
    {
        let mut storage = open(&files).unwrap();
        persist(&mut storage, &mut files);
        assert!(storage.create_table(make_schema()).is_ok());
        assert!(storage.insert_row("users", &row).is_ok());
        persist(&mut storage, &mut files);
    }
    {
        // recovery replays the log, then the checkpoint stores the catalog
        let mut storage = open(&files).unwrap();
        persist(&mut storage, &mut files);
        assert!(files.wal.is_empty());
    }
    {
        let mut storage = open(&files).unwrap();
        let got = storage.get_row("users", 0);
        assert!(matches!(got, Ok(Some(ref r)) if *r == row));
        assert!(matches!(storage.get_row("users", 1), Ok(None)));
        let cat = storage.reload_from_disk().unwrap();
        assert!(cat.get_table("users").is_some());
    }
}

#[test]
fn checkpoint_stores_the_catalog_in_its_pages() {
    let mut files = Files { image: Vec::new(), wal: Vec::new() };
    {
        let mut storage = open(&files).unwrap();
        assert!(storage.create_table(make_schema()).is_ok());
        assert!(storage.checkpoint().is_ok());
        persist(&mut storage, &mut files);
        assert!(files.wal.is_empty());
        let cat = storage.reload_from_disk().unwrap();
        assert_eq!(cat.len(), 1);
        assert!(cat.get_table("users").is_some());
    }
    {
        let mut storage = open(&files).unwrap();
        assert!(storage.insert_row("users", &Row::new(vec![int_value(1), text("a")])).is_ok());
        assert!(storage.insert_row("nobody", &Row::new(vec![int_value(1)])).is_err());
    }
}

#[test]
fn fresh_storage_has_no_tables() {
    let files = Files { image: Vec::new(), wal: Vec::new() };
    let mut storage = open(&files).unwrap();
    let cat = storage.reload_from_disk().unwrap();
    assert!(cat.is_empty());
    assert!(storage.get_row("users", 0).is_err());
}

#[test]
fn btree_duplicate_in_split_tree_keeps_every_key() -> Result<(), DbError> {
    let mut pool = BufferPool::new(empty_pager(), 50)?;
    let btree = BTreeOnDisk::create(&mut pool)?;
    let mut root = btree.root_page_id();
    for i in 0..150_i64 {
        BTreeOnDisk::insert_static(&mut pool, &mut root, IndexKey::Integer(i), to_u64(i)?)?;
    }
    let again = BTreeOnDisk::insert_static(&mut pool, &mut root, IndexKey::Integer(70), 999);
    assert!(matches!(again, Err(DbError::ConstraintViolation(_))));
    for i in 0..150_i64 {
        let got = BTreeOnDisk::lookup_static(&mut pool, root, &IndexKey::Integer(i))?;
        assert_eq!(got, Some(to_u64(i)?));
    }
    assert_eq!(BTreeOnDisk::lookup_static(&mut pool, root, &IndexKey::Integer(150))?, None);
    Ok(())
}

#[test]
fn btree_leaf_insert_keeps_other_keys() -> Result<(), DbError> {
    let mut pool = BufferPool::new(empty_pager(), 4)?;
    let btree = BTreeOnDisk::create(&mut pool)?;
    let mut root = btree.root_page_id();
    BTreeOnDisk::insert_static(&mut pool, &mut root, IndexKey::Integer(1), 10)?;
    BTreeOnDisk::insert_static(&mut pool, &mut root, IndexKey::Integer(3), 30)?;
    BTreeOnDisk::insert_static(&mut pool, &mut root, IndexKey::Integer(2), 20)?;
    assert_eq!(root, btree.root_page_id());
    assert_eq!(BTreeOnDisk::lookup_static(&mut pool, root, &IndexKey::Integer(1))?, Some(10));
    assert_eq!(BTreeOnDisk::lookup_static(&mut pool, root, &IndexKey::Integer(2))?, Some(20));
    assert_eq!(BTreeOnDisk::lookup_static(&mut pool, root, &IndexKey::Integer(3))?, Some(30));
    assert_eq!(BTreeOnDisk::lookup_static(&mut pool, root, &IndexKey::Integer(4))?, None);
    Ok(())
}

#[test]
fn table_storage_rows_of_one_size_keep_their_numbers() {
    let mut pool = BufferPool::new(empty_pager(), 4).unwrap();
    let table = TableStorage::new(&mut pool).unwrap();
    let make = |i: i64| Row::new(vec![int_value(i), Value::Blob(Blob::new(vec![(i % 251) as u8; 300]))]);
    for i in 0..40_i64 {
        table.insert_row(&mut pool, &make(i)).unwrap();
    }
    assert!(pool.page_count() >= 3);
    for i in 0..40_i64 {
        let row = table.get_row(&mut pool, i as usize).unwrap().unwrap();
        assert_eq!(row, make(i));
    }
    assert!(table.get_row(&mut pool, 40).unwrap().is_none());
    assert!(table.get_row(&mut pool, 1000).unwrap().is_none());
}

#[test]
fn catalog_chain_grows_past_one_page() {
    let mut files = Files { image: Vec::new(), wal: Vec::new() };
    let names: Vec<String> = (0..80).map(|i| format!("table_with_a_rather_long_name_number_{:03}", i)).collect();
    {
        let mut storage = open(&files).unwrap();
        for name in names.iter() {
            let schema = TableSchema::try_new(
                name,
                vec![
                    ColumnDef::new("identifier_column", DataType::Integer),
                    ColumnDef::new("description_column", DataType::Text),
                    ColumnDef::new("payload_column", DataType::Blob),
                ],
            )
            .unwrap();
            assert!(storage.create_table(schema).is_ok());
        }
        assert!(storage.checkpoint().is_ok());
        persist(&mut storage, &mut files);
    }
    {
        let mut storage = open(&files).unwrap();
        let cat = storage.reload_from_disk().unwrap();
        assert_eq!(cat.len(), 80);
        for name in names.iter() {
            assert!(cat.get_table(name).is_some());
        }
    }
}
