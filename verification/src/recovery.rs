use crate::append_log::{parse_log, parse_records};
use crate::error::DbError;
use vstd::prelude::*;

verus! {

/// The records read back from a write-ahead log, oldest first.
#[derive(Debug)]
pub struct RecoveryResult {
    pub records: Vec<Vec<u8>>,
}

/// Recovers the records of a write-ahead log from the log's bytes: every
/// record must be whole and sound, else the log is corrupt.
pub fn recover_wal(log: &[u8]) -> (r: Result<RecoveryResult, DbError>)
    ensures
        r is Ok <==> parse_log(log@) is Some,
        r matches Ok(res) ==> parse_log(log@) == Some(res.records@.map_values(|p: Vec<u8>| p@)),
        r matches Err(e) ==> e is Corruption,
{
    let records = parse_records(log)?;
    Ok(RecoveryResult { records })
}

} // verus!
