//! Payload formats of the records that the LSM tree writes to its write-ahead log.
use vstd::prelude::*;
use vstd::bytes::*;
use crate::codec::{lemma_i64_roundtrip, append_bytes, copy_range, i64_at, push_i64_le, push_u32_le, push_u64_le, read_i64_le, read_u32_le, read_u64_le, spec_i64_to_le_bytes, u32_at, u64_at};
use crate::kvt::error::{storage_corruption, KeyValueResult};

verus! {

/// Kinds of records that the LSM tree writes to its write-ahead log.
#[derive(Debug, Clone, Copy, PartialEq, Eq, Structural)]
pub enum WalRecordKind {
    Put,
    Delete,
    PutCommitted,
    DeleteCommitted,
    Commit,
    Checkpoint,
    FlushComplete,
}

impl WalRecordKind {
    /// The numeric tag of each kind, as stored in the log.
    pub open spec fn code(self) -> u16 {
        match self {
            WalRecordKind::Put => 1,
            WalRecordKind::Delete => 2,
            WalRecordKind::PutCommitted => 3,
            WalRecordKind::DeleteCommitted => 4,
            WalRecordKind::Commit => 5,
            WalRecordKind::Checkpoint => 6,
            WalRecordKind::FlushComplete => 7,
        }
    }

    /// The record kind with numeric tag `value`, if any.
    pub open spec fn from_code(value: u16) -> Option<Self> {
        match value {
            1 => Some(WalRecordKind::Put),
            2 => Some(WalRecordKind::Delete),
            3 => Some(WalRecordKind::PutCommitted),
            4 => Some(WalRecordKind::DeleteCommitted),
            5 => Some(WalRecordKind::Commit),
            6 => Some(WalRecordKind::Checkpoint),
            7 => Some(WalRecordKind::FlushComplete),
            _ => None,
        }
    }

    /// Converts a numeric tag back into a record kind.
    pub fn from_u16(value: u16) -> (r: Option<Self>)
        ensures
            r == Self::from_code(value),
            r matches Some(k) ==> k.code() == value,
            r is None <==> !(1 <= value <= 7),
    {
        match value {
            1 => Some(WalRecordKind::Put),
            2 => Some(WalRecordKind::Delete),
            3 => Some(WalRecordKind::PutCommitted),
            4 => Some(WalRecordKind::DeleteCommitted),
            5 => Some(WalRecordKind::Commit),
            6 => Some(WalRecordKind::Checkpoint),
            7 => Some(WalRecordKind::FlushComplete),
            _ => None,
        }
    }

    /// The numeric tag of this kind.
    pub fn to_u16(self) -> (r: u16)
        ensures
            r == self.code(),
    {
        match self {
            WalRecordKind::Put => 1,
            WalRecordKind::Delete => 2,
            WalRecordKind::PutCommitted => 3,
            WalRecordKind::DeleteCommitted => 4,
            WalRecordKind::Commit => 5,
            WalRecordKind::Checkpoint => 6,
            WalRecordKind::FlushComplete => 7,
        }
    }
}


/// `[key_len: u32][key][value_len: u32][value]`
pub open spec fn put_payload(key: Seq<u8>, value: Seq<u8>) -> Seq<u8> {
    spec_u32_to_le_bytes(key.len() as u32) + key + spec_u32_to_le_bytes(value.len() as u32) + value
}

/// `[key_len: u32][key]`
pub open spec fn delete_payload(key: Seq<u8>) -> Seq<u8> {
    spec_u32_to_le_bytes(key.len() as u32) + key
}

/// `[key_len: u32][key][value_len: u32][value][commit_ts: i64]`
pub open spec fn put_committed_payload(key: Seq<u8>, value: Seq<u8>, commit_ts: i64) -> Seq<u8> {
    put_payload(key, value) + spec_i64_to_le_bytes(commit_ts)
}

/// `[key_len: u32][key][commit_ts: i64]`
pub open spec fn delete_committed_payload(key: Seq<u8>, commit_ts: i64) -> Seq<u8> {
    delete_payload(key) + spec_i64_to_le_bytes(commit_ts)
}

/// `[commit_ts: i64]`
pub open spec fn commit_payload(commit_ts: i64) -> Seq<u8> {
    spec_i64_to_le_bytes(commit_ts)
}

/// `[sequence: u64][file_number: u64]`
pub open spec fn checkpoint_payload(sequence: u64, file_number: u64) -> Seq<u8> {
    spec_u64_to_le_bytes(sequence) + spec_u64_to_le_bytes(file_number)
}

/// `[file_number: u64][level: u32]`
pub open spec fn flush_complete_payload(file_number: u64, level: u32) -> Seq<u8> {
    spec_u64_to_le_bytes(file_number) + spec_u32_to_le_bytes(level)
}

/// What decoding a Put payload yields: the key and value, or the reason it is refused.
/// Bytes after the value are ignored.
pub open spec fn decode_put_spec(p: Seq<u8>) -> Result<(Seq<u8>, Seq<u8>), Seq<char>> {
    if p.len() < 8 {
        Err("WAL Put record too short"@)
    } else {
        let kl = u32_at(p, 0) as int;
        if 4 + kl > p.len() {
            Err("WAL Put record key length exceeds payload"@)
        } else if 4 + kl + 4 > p.len() {
            Err("WAL Put record missing value length"@)
        } else {
            let vl = u32_at(p, 4 + kl) as int;
            if 8 + kl + vl > p.len() {
                Err("WAL Put record value length exceeds payload"@)
            } else {
                Ok((p.subrange(4, 4 + kl), p.subrange(8 + kl, 8 + kl + vl)))
            }
        }
    }
}

/// What decoding a Delete payload yields. Bytes after the key are ignored.
pub open spec fn decode_delete_spec(p: Seq<u8>) -> Result<Seq<u8>, Seq<char>> {
    if p.len() < 4 {
        Err("WAL Delete record too short"@)
    } else {
        let kl = u32_at(p, 0) as int;
        if 4 + kl > p.len() {
            Err("WAL Delete record key length exceeds payload"@)
        } else {
            Ok(p.subrange(4, 4 + kl))
        }
    }
}

/// What decoding a PutCommitted payload yields. Bytes after the timestamp are ignored.
pub open spec fn decode_put_committed_spec(p: Seq<u8>) -> Result<(Seq<u8>, Seq<u8>, i64), Seq<char>> {
    if p.len() < 16 {
        Err("WAL PutCommitted record too short"@)
    } else {
        let kl = u32_at(p, 0) as int;
        if 4 + kl > p.len() {
            Err("WAL PutCommitted record key length exceeds payload"@)
        } else if 4 + kl + 4 > p.len() {
            Err("WAL PutCommitted record missing value length"@)
        } else {
            let vl = u32_at(p, 4 + kl) as int;
            if 8 + kl + vl + 8 > p.len() {
                Err("WAL PutCommitted record value length exceeds payload"@)
            } else {
                Ok((p.subrange(4, 4 + kl), p.subrange(8 + kl, 8 + kl + vl), i64_at(p, 8 + kl + vl)))
            }
        }
    }
}

/// What decoding a DeleteCommitted payload yields. Bytes after the timestamp are ignored.
pub open spec fn decode_delete_committed_spec(p: Seq<u8>) -> Result<(Seq<u8>, i64), Seq<char>> {
    if p.len() < 12 {
        Err("WAL DeleteCommitted record too short"@)
    } else {
        let kl = u32_at(p, 0) as int;
        if 4 + kl + 8 > p.len() {
            Err("WAL DeleteCommitted record key length exceeds payload"@)
        } else {
            Ok((p.subrange(4, 4 + kl), i64_at(p, 4 + kl)))
        }
    }
}

/// What decoding a Commit payload yields.
pub open spec fn decode_commit_spec(p: Seq<u8>) -> Result<i64, Seq<char>> {
    if p.len() < 8 {
        Err("WAL Commit record too short"@)
    } else {
        Ok(i64_at(p, 0))
    }
}

/// What decoding a Checkpoint payload yields.
pub open spec fn decode_checkpoint_spec(p: Seq<u8>) -> Result<(u64, u64), Seq<char>> {
    if p.len() < 16 {
        Err("WAL Checkpoint record too short"@)
    } else {
        Ok((u64_at(p, 0), u64_at(p, 8)))
    }
}

/// What decoding a FlushComplete payload yields.
pub open spec fn decode_flush_complete_spec(p: Seq<u8>) -> Result<(u64, u32), Seq<char>> {
    if p.len() < 12 {
        Err("WAL FlushComplete record too short"@)
    } else {
        Ok((u64_at(p, 0), u32_at(p, 8)))
    }
}

/// Encodes a Put operation.
pub fn encode_put(key: &[u8], value: &[u8]) -> (r: Vec<u8>)
    ensures
        r@ == put_payload(key@, value@),
{
    let mut payload = Vec::new();
    push_u32_le(&mut payload, key.len() as u32);
    append_bytes(&mut payload, key);
    push_u32_le(&mut payload, value.len() as u32);
    append_bytes(&mut payload, value);
    payload
}

/// Decodes a Put payload into its key and value.
pub fn decode_put(payload: &[u8]) -> (r: KeyValueResult<(Vec<u8>, Vec<u8>)>)
    ensures
        match (r, decode_put_spec(payload@)) {
            (Ok((k, v)), Ok((sk, sv))) => k@ == sk && v@ == sv,
            (Err(e), Err(msg)) => e.is_storage_corruption(msg),
            _ => false,
        },
{
    let n = payload.len();
    if n < 8 {
        return Err(storage_corruption("WAL Put record too short"));
    }
    let key_len = read_u32_le(payload, 0) as usize;
    if key_len > n - 4 {
        return Err(storage_corruption("WAL Put record key length exceeds payload"));
    }
    let key = copy_range(payload, 4, 4 + key_len);
    let offset = 4 + key_len;
    if 4 > n - offset {
        return Err(storage_corruption("WAL Put record missing value length"));
    }
    let value_len = read_u32_le(payload, offset) as usize;
    let offset = offset + 4;
    if value_len > n - offset {
        return Err(storage_corruption("WAL Put record value length exceeds payload"));
    }
    let value = copy_range(payload, offset, offset + value_len);
    Ok((key, value))
}

/// Encodes a Delete operation.
pub fn encode_delete(key: &[u8]) -> (r: Vec<u8>)
    ensures
        r@ == delete_payload(key@),
{
    let mut payload = Vec::new();
    push_u32_le(&mut payload, key.len() as u32);
    append_bytes(&mut payload, key);
    payload
}

/// Decodes a Delete payload into its key.
pub fn decode_delete(payload: &[u8]) -> (r: KeyValueResult<Vec<u8>>)
    ensures
        match (r, decode_delete_spec(payload@)) {
            (Ok(k), Ok(sk)) => k@ == sk,
            (Err(e), Err(msg)) => e.is_storage_corruption(msg),
            _ => false,
        },
{
    let n = payload.len();
    if n < 4 {
        return Err(storage_corruption("WAL Delete record too short"));
    }
    let key_len = read_u32_le(payload, 0) as usize;
    if key_len > n - 4 {
        return Err(storage_corruption("WAL Delete record key length exceeds payload"));
    }
    Ok(copy_range(payload, 4, 4 + key_len))
}

/// Encodes a committed Put operation.
pub fn encode_put_committed(key: &[u8], value: &[u8], commit_ts: i64) -> (r: Vec<u8>)
    ensures
        r@ == put_committed_payload(key@, value@, commit_ts),
{
    let mut payload = encode_put(key, value);
    push_i64_le(&mut payload, commit_ts);
    payload
}

/// Decodes a PutCommitted payload into its key, value and commit timestamp.
pub fn decode_put_committed(payload: &[u8]) -> (r: KeyValueResult<(Vec<u8>, Vec<u8>, i64)>)
    ensures
        match (r, decode_put_committed_spec(payload@)) {
            (Ok((k, v, t)), Ok((sk, sv, st))) => k@ == sk && v@ == sv && t == st,
            (Err(e), Err(msg)) => e.is_storage_corruption(msg),
            _ => false,
        },
{
    let n = payload.len();
    if n < 16 {
        return Err(storage_corruption("WAL PutCommitted record too short"));
    }
    let key_len = read_u32_le(payload, 0) as usize;
    if key_len > n - 4 {
        return Err(storage_corruption("WAL PutCommitted record key length exceeds payload"));
    }
    let key = copy_range(payload, 4, 4 + key_len);
    let offset = 4 + key_len;
    if 4 > n - offset {
        return Err(storage_corruption("WAL PutCommitted record missing value length"));
    }
    let value_len = read_u32_le(payload, offset) as usize;
    let offset = offset + 4;
    if n - offset < 8 || value_len > n - offset - 8 {
        return Err(storage_corruption("WAL PutCommitted record value length exceeds payload"));
    }
    let value = copy_range(payload, offset, offset + value_len);
    let commit_ts = read_i64_le(payload, offset + value_len);
    Ok((key, value, commit_ts))
}

/// Encodes a committed Delete operation.
pub fn encode_delete_committed(key: &[u8], commit_ts: i64) -> (r: Vec<u8>)
    ensures
        r@ == delete_committed_payload(key@, commit_ts),
{
    let mut payload = encode_delete(key);
    push_i64_le(&mut payload, commit_ts);
    payload
}

/// Decodes a DeleteCommitted payload into its key and commit timestamp.
pub fn decode_delete_committed(payload: &[u8]) -> (r: KeyValueResult<(Vec<u8>, i64)>)
    ensures
        match (r, decode_delete_committed_spec(payload@)) {
            (Ok((k, t)), Ok((sk, st))) => k@ == sk && t == st,
            (Err(e), Err(msg)) => e.is_storage_corruption(msg),
            _ => false,
        },
{
    let n = payload.len();
    if n < 12 {
        return Err(storage_corruption("WAL DeleteCommitted record too short"));
    }
    let key_len = read_u32_le(payload, 0) as usize;
    if key_len > n - 12 {
        return Err(storage_corruption("WAL DeleteCommitted record key length exceeds payload"));
    }
    let key = copy_range(payload, 4, 4 + key_len);
    let commit_ts = read_i64_le(payload, 4 + key_len);
    Ok((key, commit_ts))
}

/// Encodes a Commit marker.
pub fn encode_commit(commit_ts: i64) -> (r: Vec<u8>)
    ensures
        r@ == commit_payload(commit_ts),
{
    let mut payload = Vec::new();
    push_i64_le(&mut payload, commit_ts);
    payload
}

/// Decodes a Commit payload into its timestamp.
pub fn decode_commit(payload: &[u8]) -> (r: KeyValueResult<i64>)
    ensures
        match (r, decode_commit_spec(payload@)) {
            (Ok(t), Ok(st)) => t == st,
            (Err(e), Err(msg)) => e.is_storage_corruption(msg),
            _ => false,
        },
{
    if payload.len() < 8 {
        return Err(storage_corruption("WAL Commit record too short"));
    }
    Ok(read_i64_le(payload, 0))
}

/// Encodes a Checkpoint marker.
pub fn encode_checkpoint(sequence: u64, file_number: u64) -> (r: Vec<u8>)
    ensures
        r@ == checkpoint_payload(sequence, file_number),
{
    let mut payload = Vec::new();
    push_u64_le(&mut payload, sequence);
    push_u64_le(&mut payload, file_number);
    payload
}

/// Decodes a Checkpoint payload into its sequence and file number.
pub fn decode_checkpoint(payload: &[u8]) -> (r: KeyValueResult<(u64, u64)>)
    ensures
        match (r, decode_checkpoint_spec(payload@)) {
            (Ok((s, f)), Ok((ss, sf))) => s == ss && f == sf,
            (Err(e), Err(msg)) => e.is_storage_corruption(msg),
            _ => false,
        },
{
    if payload.len() < 16 {
        return Err(storage_corruption("WAL Checkpoint record too short"));
    }
    Ok((read_u64_le(payload, 0), read_u64_le(payload, 8)))
}

/// Encodes a FlushComplete marker.
pub fn encode_flush_complete(file_number: u64, level: u32) -> (r: Vec<u8>)
    ensures
        r@ == flush_complete_payload(file_number, level),
{
    let mut payload = Vec::new();
    push_u64_le(&mut payload, file_number);
    push_u32_le(&mut payload, level);
    payload
}

/// Decodes a FlushComplete payload into its file number and level.
pub fn decode_flush_complete(payload: &[u8]) -> (r: KeyValueResult<(u64, u32)>)
    ensures
        match (r, decode_flush_complete_spec(payload@)) {
            (Ok((f, l)), Ok((sf, sl))) => f == sf && l == sl,
            (Err(e), Err(msg)) => e.is_storage_corruption(msg),
            _ => false,
        },
{
    if payload.len() < 12 {
        return Err(storage_corruption("WAL FlushComplete record too short"));
    }
    Ok((read_u64_le(payload, 0), read_u32_le(payload, 8)))
}


/// Distinct record kinds have distinct numeric tags, so converting a kind to its tag
/// and back gives the same kind.
pub proof fn lemma_kind_code_injective(a: WalRecordKind, b: WalRecordKind)
    ensures
        a.code() == b.code() ==> a == b,
        1 <= a.code() <= 7,
{
}

/// Decoding what `encode_put` writes gives back the key and value.
pub proof fn lemma_put_roundtrip(key: Seq<u8>, value: Seq<u8>, trailing: Seq<u8>)
    requires
        key.len() <= u32::MAX,
        value.len() <= u32::MAX,
    ensures
        put_payload(key, value).len() == 8 + key.len() + value.len(),
        decode_put_spec(put_payload(key, value) + trailing) == Ok::<(Seq<u8>, Seq<u8>), Seq<char>>((key, value)),
{
    lemma_auto_spec_u32_to_from_le_bytes();
    let kl = spec_u32_to_le_bytes(key.len() as u32);
    let vl = spec_u32_to_le_bytes(value.len() as u32);
    let p = put_payload(key, value) + trailing;
    let k = key.len() as int;
    assert(p.subrange(0, 4) =~= kl);
    assert(p.subrange(4, 4 + k) =~= key);
    assert(p.subrange(4 + k, 8 + k) =~= vl);
    assert(p.subrange(8 + k, 8 + k + value.len()) =~= value);
}

/// Decoding what `encode_delete` writes gives back the key.
pub proof fn lemma_delete_roundtrip(key: Seq<u8>, trailing: Seq<u8>)
    requires
        key.len() <= u32::MAX,
    ensures
        delete_payload(key).len() == 4 + key.len(),
        decode_delete_spec(delete_payload(key) + trailing) == Ok::<Seq<u8>, Seq<char>>(key),
{
    lemma_auto_spec_u32_to_from_le_bytes();
    let p = delete_payload(key) + trailing;
    assert(p.subrange(0, 4) =~= spec_u32_to_le_bytes(key.len() as u32));
    assert(p.subrange(4, 4 + key.len() as int) =~= key);
}

/// Decoding what `encode_put_committed` writes gives back the key, value and timestamp.
pub proof fn lemma_put_committed_roundtrip(key: Seq<u8>, value: Seq<u8>, commit_ts: i64, trailing: Seq<u8>)
    requires
        key.len() <= u32::MAX,
        value.len() <= u32::MAX,
    ensures
        put_committed_payload(key, value, commit_ts).len() == 16 + key.len() + value.len(),
        decode_put_committed_spec(put_committed_payload(key, value, commit_ts) + trailing)
            == Ok::<(Seq<u8>, Seq<u8>, i64), Seq<char>>((key, value, commit_ts)),
{
    lemma_auto_spec_u32_to_from_le_bytes();
    lemma_i64_roundtrip(commit_ts);
    let kl = spec_u32_to_le_bytes(key.len() as u32);
    let vl = spec_u32_to_le_bytes(value.len() as u32);
    let p = put_committed_payload(key, value, commit_ts) + trailing;
    let k = key.len() as int;
    let v = value.len() as int;
    assert(p.subrange(0, 4) =~= kl);
    assert(p.subrange(4, 4 + k) =~= key);
    assert(p.subrange(4 + k, 8 + k) =~= vl);
    assert(p.subrange(8 + k, 8 + k + v) =~= value);
    assert(p.subrange(8 + k + v, 16 + k + v) =~= spec_i64_to_le_bytes(commit_ts));
}

/// Decoding what `encode_delete_committed` writes gives back the key and timestamp.
pub proof fn lemma_delete_committed_roundtrip(key: Seq<u8>, commit_ts: i64, trailing: Seq<u8>)
    requires
        key.len() <= u32::MAX,
    ensures
        delete_committed_payload(key, commit_ts).len() == 12 + key.len(),
        decode_delete_committed_spec(delete_committed_payload(key, commit_ts) + trailing)
            == Ok::<(Seq<u8>, i64), Seq<char>>((key, commit_ts)),
{
    lemma_auto_spec_u32_to_from_le_bytes();
    lemma_i64_roundtrip(commit_ts);
    let p = delete_committed_payload(key, commit_ts) + trailing;
    let k = key.len() as int;
    assert(p.subrange(0, 4) =~= spec_u32_to_le_bytes(key.len() as u32));
    assert(p.subrange(4, 4 + k) =~= key);
    assert(p.subrange(4 + k, 12 + k) =~= spec_i64_to_le_bytes(commit_ts));
}

/// Decoding what `encode_commit` writes gives back the timestamp.
pub proof fn lemma_commit_roundtrip(commit_ts: i64, trailing: Seq<u8>)
    ensures
        commit_payload(commit_ts).len() == 8,
        decode_commit_spec(commit_payload(commit_ts) + trailing) == Ok::<i64, Seq<char>>(commit_ts),
{
    lemma_i64_roundtrip(commit_ts);
    let p = commit_payload(commit_ts) + trailing;
    assert(p.subrange(0, 8) =~= spec_i64_to_le_bytes(commit_ts));
}

/// Decoding what `encode_checkpoint` writes gives back the sequence and file number.
pub proof fn lemma_checkpoint_roundtrip(sequence: u64, file_number: u64, trailing: Seq<u8>)
    ensures
        checkpoint_payload(sequence, file_number).len() == 16,
        decode_checkpoint_spec(checkpoint_payload(sequence, file_number) + trailing)
            == Ok::<(u64, u64), Seq<char>>((sequence, file_number)),
{
    lemma_auto_spec_u64_to_from_le_bytes();
    let p = checkpoint_payload(sequence, file_number) + trailing;
    assert(p.subrange(0, 8) =~= spec_u64_to_le_bytes(sequence));
    assert(p.subrange(8, 16) =~= spec_u64_to_le_bytes(file_number));
}

/// Decoding what `encode_flush_complete` writes gives back the file number and level.
pub proof fn lemma_flush_complete_roundtrip(file_number: u64, level: u32, trailing: Seq<u8>)
    ensures
        flush_complete_payload(file_number, level).len() == 12,
        decode_flush_complete_spec(flush_complete_payload(file_number, level) + trailing)
            == Ok::<(u64, u32), Seq<char>>((file_number, level)),
{
    lemma_auto_spec_u64_to_from_le_bytes();
    lemma_auto_spec_u32_to_from_le_bytes();
    let p = flush_complete_payload(file_number, level) + trailing;
    assert(p.subrange(0, 8) =~= spec_u64_to_le_bytes(file_number));
    assert(p.subrange(8, 12) =~= spec_u32_to_le_bytes(level));
}

} // verus!
