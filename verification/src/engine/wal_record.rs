use crate::codec::{copy_range, push_bytes, push_u64, push_u8, read_u64_at};
use crate::error::{DbError, ErrorKind};
use vstd::bytes::*;
use vstd::prelude::*;

verus! {

/// What a log record holds.
#[derive(Debug, Clone, Copy, PartialEq, Eq, Structural)]
pub enum WalRecordType {
    /// A page id, then the page's full stored bytes.
    PageWrite,
    /// A log sequence number, then an encoded catalog.
    Snapshot,
}

/// A record of the write-ahead log: its sequence number, its type, its data.
#[derive(Debug, Clone)]
pub struct WalRecord {
    pub lsn: u64,
    pub record_type: WalRecordType,
    pub data: Vec<u8>,
}

pub open spec fn record_tag(t: WalRecordType) -> u8 {
    match t {
        WalRecordType::PageWrite => 0,
        WalRecordType::Snapshot => 1,
    }
}

/// The payload that stores a log record: its sequence number, its type's
/// tag, then its data.
pub open spec fn wal_record_bytes(lsn: u64, t: WalRecordType, data: Seq<u8>) -> Seq<u8> {
    spec_u64_to_le_bytes(lsn) + seq![record_tag(t)] + data
}

/// The payload of a log record.
pub fn encode_wal_record(rec: &WalRecord) -> (r: Vec<u8>)
    ensures
        r@ == wal_record_bytes(rec.lsn, rec.record_type, rec.data@),
{
    let mut buf: Vec<u8> = Vec::new();
    push_u64(&mut buf, rec.lsn);
    push_u8(
        &mut buf,
        match rec.record_type {
            WalRecordType::PageWrite => 0,
            WalRecordType::Snapshot => 1,
        },
    );
    push_bytes(&mut buf, rec.data.as_slice());
    assert(buf@ =~= wal_record_bytes(rec.lsn, rec.record_type, rec.data@));
    buf
}

/// Reads a log record from its payload. Fewer than nine bytes, or an unknown
/// type tag, is corruption.
pub fn decode_wal_record(bytes: &[u8]) -> (r: Result<WalRecord, DbError>)
    ensures
        r is Ok <==> (bytes@.len() >= 9 && bytes@[8] < 2),
        r matches Ok(rec) ==> wal_record_bytes(rec.lsn, rec.record_type, rec.data@) == bytes@,
        r matches Err(e) ==> e.kind() == ErrorKind::Corruption,
{
    if bytes.len() < 9 {
        return Err(DbError::corruption("log record too short"));
    }
    let lsn = read_u64_at(bytes, 0);
    let record_type = match bytes[8] {
        0 => WalRecordType::PageWrite,
        1 => WalRecordType::Snapshot,
        _ => {
            return Err(DbError::corruption("invalid log record type"));
        },
    };
    let data = copy_range(bytes, 9, bytes.len());
    proof {
        lemma_auto_spec_u64_to_from_le_bytes();
        assert(wal_record_bytes(lsn, record_type, data@) =~= bytes@);
    }
    Ok(WalRecord { lsn, record_type, data })
}

/// Reading back the payload of a record gives the record.
pub proof fn lemma_wal_record_roundtrip(lsn: u64, t: WalRecordType, data: Seq<u8>)
    ensures
        wal_record_bytes(lsn, t, data).len() >= 9,
        wal_record_bytes(lsn, t, data)[8] == record_tag(t),
        spec_u64_from_le_bytes(wal_record_bytes(lsn, t, data).subrange(0, 8)) == lsn,
        wal_record_bytes(lsn, t, data).subrange(9, wal_record_bytes(lsn, t, data).len() as int) == data,
{
    lemma_auto_spec_u64_to_from_le_bytes();
    let b = wal_record_bytes(lsn, t, data);
    assert(b.subrange(0, 8) =~= spec_u64_to_le_bytes(lsn));
    assert(b.subrange(9, b.len() as int) =~= data);
}

} // verus!
