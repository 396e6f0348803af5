use crate::codec::{copy_range, lemma_le_roundtrip, push_bytes, push_u32, push_u64, read_u32_at, read_u64_at};
use crate::error::DbError;
use vstd::bytes::*;
use vstd::prelude::*;

verus! {

/// The mark at the start of every record header.
pub const MAGIC: u32 = 0x4D4F_4E55;
/// The record format version.
pub const VERSION: u32 = 1;
/// The size of a record header: magic, version, payload length, checksum.
pub const HEADER_SIZE: usize = 20;
/// The largest payload a record may hold.
pub const MAX_RECORD_SIZE: usize = 67_108_864;

/// One shift of the bitwise CRC-32 (reflected polynomial `0xEDB88320`).
pub open spec fn crc_shift(crc: u32) -> u32 {
    if crc & 1u32 == 1u32 {
        (crc >> 1u32) ^ 0xEDB8_8320u32
    } else {
        crc >> 1u32
    }
}

/// The CRC register after taking in one byte.
pub open spec fn crc_byte(crc: u32, b: u8) -> u32 {
    let c0 = crc ^ (b as u32);
    crc_shift(crc_shift(crc_shift(crc_shift(crc_shift(crc_shift(crc_shift(crc_shift(c0))))))))
}

/// The CRC register after taking in `data`, from the initial value all ones.
pub open spec fn crc_register(data: Seq<u8>) -> u32
    decreases data.len(),
{
    if data.len() == 0 {
        0xFFFF_FFFFu32
    } else {
        crc_byte(crc_register(data.drop_last()), data.last())
    }
}

/// The CRC-32 checksum (IEEE) of `data`.
pub open spec fn crc32_spec(data: Seq<u8>) -> u32 {
    !crc_register(data)
}

fn shift(crc: u32) -> (r: u32)
    ensures
        r == crc_shift(crc),
{
    if crc & 1 == 1 {
        (crc >> 1) ^ 0xEDB8_8320
    } else {
        crc >> 1
    }
}

/// The CRC-32 checksum of `data` (see [`crc32_spec`]).
pub fn crc32(data: &[u8]) -> (r: u32)
    ensures
        r == crc32_spec(data@),
{
    let mut crc: u32 = 0xFFFF_FFFF;
    let mut i: usize = 0;
    while i < data.len()
        invariant
            i <= data@.len(),
            crc == crc_register(data@.subrange(0, i as int)),
        decreases data@.len() - i,
    {
        let mut c = crc ^ (data[i] as u32);
        c = shift(c);
        c = shift(c);
        c = shift(c);
        c = shift(c);
        c = shift(c);
        c = shift(c);
        c = shift(c);
        c = shift(c);
        proof {
            assert(data@.subrange(0, i + 1).drop_last() =~= data@.subrange(0, i as int));
        }
        crc = c;
        i = i + 1;
    }
    assert(data@.subrange(0, data@.len() as int) =~= data@);
    !crc
}

/// The header of a record holding `payload`.
pub open spec fn record_header(payload: Seq<u8>) -> Seq<u8> {
    spec_u32_to_le_bytes(MAGIC) + spec_u32_to_le_bytes(VERSION) + spec_u64_to_le_bytes(
        payload.len() as u64,
    ) + spec_u32_to_le_bytes(crc32_spec(payload))
}

/// A whole record: its header, then the payload.
pub open spec fn record_bytes(payload: Seq<u8>) -> Seq<u8> {
    record_header(payload) + payload
}

/// The bytes of a log holding these records, one after another.
pub open spec fn log_bytes(records: Seq<Seq<u8>>) -> Seq<u8>
    decreases records.len(),
{
    if records.len() == 0 {
        Seq::empty()
    } else {
        record_bytes(records[0]) + log_bytes(records.drop_first())
    }
}

/// The payload length a header at the start of `data` declares.
pub open spec fn declared_len(data: Seq<u8>) -> u64 {
    spec_u64_from_le_bytes(data.subrange(8, 16))
}

/// Whether `data` starts with a sound record: a whole header with the right
/// magic, version and an allowed length, the whole payload, and a matching
/// checksum.
pub open spec fn starts_with_record(data: Seq<u8>) -> bool {
    &&& data.len() >= HEADER_SIZE
    &&& spec_u32_from_le_bytes(data.subrange(0, 4)) == MAGIC
    &&& spec_u32_from_le_bytes(data.subrange(4, 8)) == VERSION
    &&& declared_len(data) <= MAX_RECORD_SIZE
    &&& data.len() - HEADER_SIZE >= declared_len(data)
    &&& spec_u32_from_le_bytes(data.subrange(16, 20)) == crc32_spec(
        data.subrange(HEADER_SIZE as int, HEADER_SIZE + declared_len(data)),
    )
}

/// The payloads of a log, or `None` when it holds anything but whole, sound
/// records.
pub open spec fn parse_log(data: Seq<u8>) -> Option<Seq<Seq<u8>>>
    decreases data.len(),
{
    if data.len() == 0 {
        Some(Seq::empty())
    } else if !starts_with_record(data) {
        None
    } else {
        let end = HEADER_SIZE + declared_len(data);
        let payload = data.subrange(HEADER_SIZE as int, end);
        match parse_log(data.subrange(end, data.len() as int)) {
            Some(rest) => Some(seq![payload] + rest),
            None => None,
        }
    }
}

/// The record that holds `payload`; refused when the payload is larger than
/// [`MAX_RECORD_SIZE`].
pub fn encode_record(payload: &[u8]) -> (r: Result<Vec<u8>, DbError>)
    ensures
        r is Ok <==> payload@.len() <= MAX_RECORD_SIZE,
        r matches Ok(v) ==> v@ == record_bytes(payload@),
        r matches Err(e) ==> e is InvalidOperation,
{
    if payload.len() > MAX_RECORD_SIZE {
        return Err(DbError::invalid_operation("record size exceeds maximum allowed"));
    }
    let mut buf: Vec<u8> = Vec::new();
    push_u32(&mut buf, MAGIC);
    push_u32(&mut buf, VERSION);
    push_u64(&mut buf, payload.len() as u64);
    push_u32(&mut buf, crc32(payload));
    push_bytes(&mut buf, payload);
    assert(buf@ =~= record_bytes(payload@));
    Ok(buf)
}

/// Reading the bytes of one record gives back its payload, then the rest.
pub proof fn lemma_parse_record(payload: Seq<u8>, rest: Seq<u8>)
    requires
        payload.len() <= MAX_RECORD_SIZE,
    ensures
        parse_log(record_bytes(payload) + rest) == match parse_log(rest) {
            Some(r) => Some(seq![payload] + r),
            None => None::<Seq<Seq<u8>>>,
        },
{
    lemma_le_roundtrip();
    let data = record_bytes(payload) + rest;
    let h = record_header(payload);
    assert(h.len() == 20);
    assert(data.subrange(0, 4) =~= spec_u32_to_le_bytes(MAGIC));
    assert(data.subrange(4, 8) =~= spec_u32_to_le_bytes(VERSION));
    assert(data.subrange(8, 16) =~= spec_u64_to_le_bytes(payload.len() as u64));
    assert(data.subrange(16, 20) =~= spec_u32_to_le_bytes(crc32_spec(payload)));
    assert(declared_len(data) == payload.len());
    assert(data.subrange(20, 20 + payload.len() as int) =~= payload);
    assert(data.subrange(20 + payload.len() as int, data.len() as int) =~= rest);
}

/// The law of the log: the bytes of a sequence of records read back as
/// exactly those payloads.
pub proof fn lemma_log_roundtrip(records: Seq<Seq<u8>>)
    requires
        forall|i: int| 0 <= i < records.len() ==> (#[trigger] records[i]).len() <= MAX_RECORD_SIZE,
    ensures
        parse_log(log_bytes(records)) == Some(records),
    decreases records.len(),
{
    if records.len() == 0 {
    } else {
        let rest = records.drop_first();
        assert forall|i: int| 0 <= i < rest.len() implies (#[trigger] rest[i]).len() <= MAX_RECORD_SIZE by {
            assert(rest[i] == records[i + 1]);
        }
        lemma_log_roundtrip(rest);
        lemma_parse_record(records[0], log_bytes(rest));
        assert(seq![records[0]] + rest =~= records);
    }
}

/// Appending a record to a log adds its payload to what the log reads back.
pub proof fn lemma_log_append(records: Seq<Seq<u8>>, payload: Seq<u8>)
    requires
        forall|i: int| 0 <= i < records.len() ==> (#[trigger] records[i]).len() <= MAX_RECORD_SIZE,
        payload.len() <= MAX_RECORD_SIZE,
    ensures
        log_bytes(records) + record_bytes(payload) == log_bytes(records.push(payload)),
        parse_log(log_bytes(records) + record_bytes(payload)) == Some(records.push(payload)),
    decreases records.len(),
{
    if records.len() == 0 {
        assert(seq![payload].drop_first() =~= Seq::<Seq<u8>>::empty());
        assert(log_bytes(seq![payload]) =~= record_bytes(payload) + log_bytes(Seq::<Seq<u8>>::empty()));
        assert(records.push(payload) =~= seq![payload]);
        assert(log_bytes(records) + record_bytes(payload) =~= record_bytes(payload));
    } else {
        let rest = records.drop_first();
        assert forall|i: int| 0 <= i < rest.len() implies (#[trigger] rest[i]).len() <= MAX_RECORD_SIZE by {
            assert(rest[i] == records[i + 1]);
        }
        lemma_log_append(rest, payload);
        assert(records.push(payload).drop_first() =~= rest.push(payload));
        assert(records.push(payload)[0] == records[0]);
        assert(log_bytes(records) + record_bytes(payload) =~= record_bytes(records[0]) + (log_bytes(rest) + record_bytes(payload)));
    }
    let all = records.push(payload);
    assert forall|i: int| 0 <= i < all.len() implies (#[trigger] all[i]).len() <= MAX_RECORD_SIZE by {
        if i < records.len() {
            assert(all[i] == records[i]);
        }
    }
    lemma_log_roundtrip(all);
}

/// Reads the payloads of a log, refusing (as corruption) anything but whole,
/// sound records (see [`parse_log`]).
pub fn parse_records(data: &[u8]) -> (r: Result<Vec<Vec<u8>>, DbError>)
    ensures
        r is Ok <==> parse_log(data@) is Some,
        r matches Ok(v) ==> parse_log(data@) == Some(v@.map_values(|p: Vec<u8>| p@)),
        r matches Err(e) ==> e is Corruption,
{
    let ghost all = data@;
    let mut records: Vec<Vec<u8>> = Vec::new();
    let mut pos: usize = 0;
    let n = data.len();
    proof {
        assert(all.subrange(0, n as int) =~= all);
        assert(records@.map_values(|p: Vec<u8>| p@) =~= Seq::<Seq<u8>>::empty());
    }
    while pos < n
        invariant
            n == data@.len(),
            all == data@,
            pos <= n,
            parse_log(all) == match parse_log(all.subrange(pos as int, n as int)) {
                Some(rest) => Some(records@.map_values(|p: Vec<u8>| p@) + rest),
                None => None::<Seq<Seq<u8>>>,
            },
        decreases n - pos,
    {
        let ghost cur = all.subrange(pos as int, n as int);
        if n - pos < HEADER_SIZE {
            return Err(DbError::corruption("unexpected end of file in log header"));
        }
        proof {
            assert(cur.subrange(0, 4) =~= all.subrange(pos as int, pos + 4));
            assert(cur.subrange(4, 8) =~= all.subrange(pos + 4, pos + 8));
            assert(cur.subrange(8, 16) =~= all.subrange(pos + 8, pos + 16));
            assert(cur.subrange(16, 20) =~= all.subrange(pos + 16, pos + 20));
        }
        let magic = read_u32_at(data, pos);
        if magic != MAGIC {
            return Err(DbError::corruption("invalid magic in log header"));
        }
        let version = read_u32_at(data, pos + 4);
        if version != VERSION {
            return Err(DbError::corruption("unsupported log version"));
        }
        let length = read_u64_at(data, pos + 8);
        if length > MAX_RECORD_SIZE as u64 {
            return Err(DbError::corruption("record length exceeds maximum allowed"));
        }
        let expected = read_u32_at(data, pos + 16);
        let len = length as usize;
        if n - pos - HEADER_SIZE < len {
            return Err(DbError::corruption("unexpected end of file in log payload"));
        }
        let start = pos + HEADER_SIZE;
        let end = start + len;
        let payload = copy_range(data, start, end);
        proof {
            assert(cur.subrange(20, 20 + len) =~= payload@);
        }
        if crc32(payload.as_slice()) != expected {
            return Err(DbError::corruption("checksum mismatch in log record"));
        }
        let ghost prev = records@.map_values(|p: Vec<u8>| p@);
        records.push(payload);
        proof {
            assert(records@.map_values(|p: Vec<u8>| p@) =~= prev.push(payload@));
            assert(cur.subrange(20 + len, cur.len() as int) =~= all.subrange(end as int, n as int));
            let tail = parse_log(all.subrange(end as int, n as int));
            if tail is Some {
                assert(prev + (seq![payload@] + tail.unwrap()) =~= prev.push(payload@) + tail.unwrap());
            }
        }
        pos = end;
    }
    proof {
        assert(all.subrange(n as int, n as int) =~= Seq::<u8>::empty());
        assert(records@.map_values(|p: Vec<u8>| p@) + Seq::<Seq<u8>>::empty() =~= records@.map_values(|p: Vec<u8>| p@));
    }
    Ok(records)
}


/// What the log reads back is what was written: bytes that parse are exactly
/// the records of the payloads they give, each under a header that holds the
/// magic, the version, the payload's length and the payload's CRC-32. So no
/// payload comes back whose checksum differs from the one its record stores.
pub proof fn lemma_parsed_log_is_encoding(data: Seq<u8>)
    requires
        parse_log(data) is Some,
    ensures
        data == log_bytes(parse_log(data)->0),
        forall|i: int|
            0 <= i < (parse_log(data)->0).len() ==> (#[trigger] (parse_log(data)->0)[i]).len() <= MAX_RECORD_SIZE,
    decreases data.len(),
{
    if data.len() > 0 {
        lemma_le_roundtrip();
        lemma_auto_spec_u32_to_from_le_bytes();
        lemma_auto_spec_u64_to_from_le_bytes();
        let end = HEADER_SIZE + declared_len(data);
        let payload = data.subrange(HEADER_SIZE as int, end);
        let rest = data.subrange(end, data.len() as int);
        lemma_parsed_log_is_encoding(rest);
        let r = parse_log(rest)->0;
        let ps = parse_log(data)->0;
        assert(ps == seq![payload] + r);
        assert(ps.drop_first() =~= r);
        assert(ps[0] == payload);
        assert(data.subrange(0, 4).len() == 4);
        assert(spec_u32_to_le_bytes(spec_u32_from_le_bytes(data.subrange(0, 4))) == data.subrange(0, 4));
        assert(spec_u32_to_le_bytes(spec_u32_from_le_bytes(data.subrange(4, 8))) == data.subrange(4, 8));
        assert(spec_u32_to_le_bytes(spec_u32_from_le_bytes(data.subrange(16, 20))) == data.subrange(16, 20));
        assert(spec_u64_to_le_bytes(spec_u64_from_le_bytes(data.subrange(8, 16))) == data.subrange(8, 16));
        assert(payload.len() as u64 == declared_len(data));
        assert(record_header(payload) =~= data.subrange(0, 20));
        assert(data =~= record_bytes(payload) + rest);
        assert forall|i: int| 0 <= i < ps.len() implies (#[trigger] ps[i]).len() <= MAX_RECORD_SIZE by {
            if i > 0 {
                assert(ps[i] == r[i - 1]);
            }
        }
    }
}


/// A record whose stored checksum is not the CRC-32 of its payload makes the
/// whole log unreadable, whatever follows it.
pub proof fn lemma_bad_checksum_refused(payload: Seq<u8>, stored: u32, rest: Seq<u8>)
    requires
        payload.len() <= MAX_RECORD_SIZE,
        stored != crc32_spec(payload),
    ensures
        parse_log(
            spec_u32_to_le_bytes(MAGIC) + spec_u32_to_le_bytes(VERSION) + spec_u64_to_le_bytes(payload.len() as u64)
                + spec_u32_to_le_bytes(stored) + payload + rest,
        ) is None,
{
    let data = spec_u32_to_le_bytes(MAGIC) + spec_u32_to_le_bytes(VERSION) + spec_u64_to_le_bytes(
        payload.len() as u64,
    ) + spec_u32_to_le_bytes(stored) + payload + rest;
    lemma_le_roundtrip();
    if parse_log(data) is Some {
        lemma_parsed_log_is_encoding(data);
        let ps = parse_log(data)->0;
        assert(data.subrange(8, 16) =~= spec_u64_to_le_bytes(payload.len() as u64));
        assert(data.subrange(16, 20) =~= spec_u32_to_le_bytes(stored));
        assert(data.subrange(20, 20 + payload.len() as int) =~= payload);
        assert(starts_with_record(data));
        assert(declared_len(data) == payload.len());
    }
}

} // verus!
