//! Value separation: large values live in blob log files and the tree stores references.
use vstd::prelude::*;
use vstd::bytes::*;
use vstd::string::StringExecFns;
use crate::codec::{append_bytes, copy_range, crc_mismatch, crc_mismatch_text, invalid_data, push_u32_le, read_u32_le, u32_at, InvalidData};
use crate::integrity::{crc32c, crc32c_checksum};
use crate::text::{hex_digits, push_hex};

verus! {

/// Reference to a blob stored in a blob log file.
#[derive(Debug, Clone, Copy, PartialEq, Eq, Structural)]
pub struct BlobRef {
    /// Blob file ID
    pub file_id: u64,
    /// Offset within the blob file
    pub offset: u64,
    /// Length of the blob record (including header and footer)
    pub length: u32,
}

/// Size in bytes of a serialized blob reference: file id, offset and length.
pub open spec fn blob_ref_size() -> int {
    20
}

impl BlobRef {
    /// Creates a blob reference.
    pub fn new(file_id: u64, offset: u64, length: u32) -> (r: Self)
        ensures
            r == (BlobRef { file_id, offset, length }),
    {
        BlobRef { file_id, offset, length }
    }

    /// Size of the blob reference when serialized.
    pub fn serialized_size() -> (r: usize)
        ensures
            r == blob_ref_size(),
    {
        8 + 8 + 4
    }
}


/// Marks the start of a blob record ("BLOB").
pub const BLOB_MAGIC: u32 = 0x424C4F42u32;

/// Blob record as stored in the blob log.
#[derive(Debug, Clone)]
pub struct BlobRecord {
    pub key: Vec<u8>,
    pub value: Vec<u8>,
}

/// `[magic][key_len: u32][value_len: u32][key][value]`, the part the checksum covers.
pub open spec fn blob_record_body(key: Seq<u8>, value: Seq<u8>) -> Seq<u8> {
    spec_u32_to_le_bytes(BLOB_MAGIC) + spec_u32_to_le_bytes(key.len() as u32) + spec_u32_to_le_bytes(
        value.len() as u32,
    ) + key + value
}

/// The encoded record: the body followed by its CRC-32C.
pub open spec fn blob_record_bytes(key: Seq<u8>, value: Seq<u8>) -> Seq<u8> {
    blob_record_body(key, value) + spec_u32_to_le_bytes(crc32c(blob_record_body(key, value)))
}

/// What decoding `d` as a blob record yields: key and value, or the error message.
pub open spec fn decode_blob_record_spec(d: Seq<u8>) -> Result<(Seq<u8>, Seq<u8>), Seq<char>> {
    if d.len() < 16 {
        Err("Blob record too short"@)
    } else {
        let body = d.subrange(0, d.len() - 4);
        let stored = u32_at(d, d.len() - 4);
        let calculated = crc32c(body);
        if calculated != stored {
            Err(crc_mismatch_text("Blob record"@, stored, calculated))
        } else if u32_at(body, 0) != BLOB_MAGIC {
            Err("Invalid blob magic: 0x"@ + hex_digits(u32_at(body, 0) as u64, 8))
        } else {
            let kl = u32_at(body, 4) as int;
            let vl = u32_at(body, 8) as int;
            if body.len() != 12 + kl + vl {
                Err("Blob record length mismatch"@)
            } else {
                Ok((body.subrange(12, 12 + kl), body.subrange(12 + kl, body.len() as int)))
            }
        }
    }
}

impl BlobRecord {
    /// Creates a blob record.
    pub fn new(key: Vec<u8>, value: Vec<u8>) -> (r: Self)
        ensures
            r.key@ == key@,
            r.value@ == value@,
    {
        BlobRecord { key, value }
    }

    /// Size of the encoded record: 12 header bytes, key, value and 4 checksum bytes.
    pub fn encoded_size(&self) -> (r: usize)
        requires
            16 + self.key@.len() + self.value@.len() <= usize::MAX,
        ensures
            r == 16 + self.key@.len() + self.value@.len(),
    {
        12 + self.key.len() + self.value.len() + 4
    }

    /// Encodes the record.
    pub fn encode(&self) -> (r: Vec<u8>)
        ensures
            r@ == blob_record_bytes(self.key@, self.value@),
    {
        let mut buf: Vec<u8> = Vec::new();
        push_u32_le(&mut buf, BLOB_MAGIC);
        push_u32_le(&mut buf, self.key.len() as u32);
        push_u32_le(&mut buf, self.value.len() as u32);
        append_bytes(&mut buf, self.key.as_slice());
        append_bytes(&mut buf, self.value.as_slice());
        let crc = crc32c_checksum(buf.as_slice());
        push_u32_le(&mut buf, crc);
        buf
    }

    /// Decodes a record, checking its checksum, magic number and lengths.
    pub fn decode(data: &[u8]) -> (r: Result<Self, InvalidData>)
        ensures
            match (r, decode_blob_record_spec(data@)) {
                (Ok(rec), Ok((k, v))) => rec.key@ == k && rec.value@ == v,
                (Err(e), Err(msg)) => e.text() == msg,
                _ => false,
            },
    {
        let n = data.len();
        if n < 16 {
            return Err(invalid_data("Blob record too short"));
        }
        let body = vstd::slice::slice_subrange(data, 0, n - 4);
        let stored = read_u32_le(data, n - 4);
        let calculated = crc32c_checksum(body);
        if calculated != stored {
            return Err(crc_mismatch("Blob record", stored, calculated));
        }
        let magic = read_u32_le(body, 0);
        if magic != BLOB_MAGIC {
            let mut m = "Invalid blob magic: 0x".to_owned();
            push_hex(&mut m, magic as u64, 8);
            return Err(InvalidData { message: m });
        }
        let key_len = read_u32_le(body, 4) as usize;
        let value_len = read_u32_le(body, 8) as usize;
        let bl = body.len();
        if bl - 12 < key_len || bl - 12 - key_len != value_len {
            return Err(invalid_data("Blob record length mismatch"));
        }
        let key = copy_range(body, 12, 12 + key_len);
        let value = copy_range(body, 12 + key_len, bl);
        Ok(BlobRecord { key, value })
    }
}

/// Decoding an encoded record gives back its key and value.
pub proof fn lemma_blob_record_roundtrip(key: Seq<u8>, value: Seq<u8>)
    requires
        key.len() <= u32::MAX,
        value.len() <= u32::MAX,
    ensures
        blob_record_bytes(key, value).len() == 16 + key.len() + value.len(),
        decode_blob_record_spec(blob_record_bytes(key, value)) == Ok::<(Seq<u8>, Seq<u8>), Seq<char>>((key, value)),
{
    lemma_auto_spec_u32_to_from_le_bytes();
    let body = blob_record_body(key, value);
    let d = blob_record_bytes(key, value);
    let k = key.len() as int;
    assert(d.subrange(0, d.len() - 4) =~= body);
    assert(d.subrange(d.len() - 4, d.len() as int) =~= spec_u32_to_le_bytes(crc32c(body)));
    assert(body.subrange(0, 4) =~= spec_u32_to_le_bytes(BLOB_MAGIC));
    assert(body.subrange(4, 8) =~= spec_u32_to_le_bytes(key.len() as u32));
    assert(body.subrange(8, 12) =~= spec_u32_to_le_bytes(value.len() as u32));
    assert(body.subrange(12, 12 + k) =~= key);
    assert(body.subrange(12 + k, body.len() as int) =~= value);
}

/// Accounting of one blob file.
#[derive(Debug, Clone, Copy, PartialEq, Eq, Structural)]
pub struct BlobFileMetadata {
    pub file_id: u64,
    /// Total size of the file in bytes.
    pub file_size: u64,
    /// Number of records in the file.
    pub blob_count: u64,
    /// Number of records still referenced.
    pub live_blob_count: u64,
    /// Total size of the records still referenced.
    pub live_data_size: u64,
    /// Seconds since the epoch at which the file was created.
    pub created_at: u64,
}

/// Position of the file numbered `id`, if any.
pub open spec fn file_position(files: Seq<BlobFileMetadata>, id: u64) -> Option<int> {
    if exists|i: int| 0 <= i < files.len() && #[trigger] files[i].file_id == id {
        Some(choose|i: int| 0 <= i < files.len() && #[trigger] files[i].file_id == id)
    } else {
        None
    }
}

/// The accounting of a file after a record of `len` bytes is added to it.
pub open spec fn with_record(m: BlobFileMetadata, len: u64) -> BlobFileMetadata {
    BlobFileMetadata {
        file_size: (m.file_size + len) as u64,
        blob_count: (m.blob_count + 1) as u64,
        live_blob_count: (m.live_blob_count + 1) as u64,
        live_data_size: (m.live_data_size + len) as u64,
        ..m
    }
}

/// Adding a record of `len` bytes keeps every counter of the file within `u64`.
pub open spec fn record_fits(m: BlobFileMetadata, len: u64) -> bool {
    &&& m.file_size + len <= u64::MAX
    &&& m.blob_count + 1 <= u64::MAX
    &&& m.live_blob_count + 1 <= u64::MAX
    &&& m.live_data_size + len <= u64::MAX
}

/// The accounting of a file after a record of `len` bytes is no longer
/// referenced (counters stop at zero).
pub open spec fn without_live(m: BlobFileMetadata, len: u64) -> BlobFileMetadata {
    BlobFileMetadata {
        live_blob_count: if m.live_blob_count >= 1 { (m.live_blob_count - 1) as u64 } else { 0 },
        live_data_size: if m.live_data_size >= len { (m.live_data_size - len) as u64 } else { 0 },
        ..m
    }
}

/// A fresh file's accounting.
pub open spec fn fresh_file(id: u64, created_at: u64) -> BlobFileMetadata {
    BlobFileMetadata { file_id: id, file_size: 0, blob_count: 0, live_blob_count: 0, live_data_size: 0, created_at }
}

/// Total size of the files.
pub open spec fn files_size(files: Seq<BlobFileMetadata>) -> int
    decreases files.len(),
{
    if files.len() == 0 {
        0
    } else {
        files_size(files.drop_last()) + files.last().file_size
    }
}

/// Total size of the records still referenced in the files.
pub open spec fn files_live_size(files: Seq<BlobFileMetadata>) -> int
    decreases files.len(),
{
    if files.len() == 0 {
        0
    } else {
        files_live_size(files.drop_last()) + files.last().live_data_size
    }
}

/// The sums over a prefix of the files are at most those over all of them.
proof fn lemma_files_sums_prefix(files: Seq<BlobFileMetadata>, n: int)
    requires
        0 <= n <= files.len(),
    ensures
        files_size(files.take(n)) <= files_size(files),
        files_live_size(files.take(n)) <= files_live_size(files),
    decreases files.len() - n,
{
    if n == files.len() {
        assert(files.take(n) =~= files);
    } else {
        lemma_files_sums_prefix(files, n + 1);
        assert(files.take(n + 1).drop_last() =~= files.take(n));
    }
}

/// The accounting and the live references of the blob files.
pub struct BlobLogState {
    next_file_id: u64,
    files: Vec<BlobFileMetadata>,
    live_refs: Vec<(u64, u64)>,
}

impl BlobLogState {
    /// The number the next blob file receives.
    pub closed spec fn next_id(&self) -> u64 {
        self.next_file_id
    }

    /// The accounting of each file, in the order the files were first written.
    pub closed spec fn files(&self) -> Seq<BlobFileMetadata> {
        self.files@
    }

    /// The live references, as file number and offset.
    pub closed spec fn live(&self) -> Set<(u64, u64)> {
        self.live_refs@.to_set()
    }

    #[verifier::type_invariant]
    spec fn ids_unique(&self) -> bool {
        forall|i: int, j: int|
            0 <= i < self.files@.len() && 0 <= j < self.files@.len() && i != j ==> #[trigger] self.files@[i].file_id
                != #[trigger] self.files@[j].file_id
    }

    /// No blob files and no live references; file numbers from 0.
    pub fn new() -> (r: Self)
        ensures
            r.next_id() == 0,
            r.files().len() == 0,
            r.live() == Set::<(u64, u64)>::empty(),
    {
        let r = BlobLogState { next_file_id: 0, files: Vec::new(), live_refs: Vec::new() };
        assert(r.live_refs@.to_set() =~= Set::<(u64, u64)>::empty());
        r
    }

    /// Takes the number of a new blob file.
    pub fn allocate_file_id(&mut self) -> (r: u64)
        requires
            old(self).next_id() < u64::MAX,
        ensures
            r == old(self).next_id(),
            final(self).next_id() == r + 1,
            final(self).files() == old(self).files(),
            final(self).live() == old(self).live(),
    {
        proof { use_type_invariant(&*self); }
        let id = self.next_file_id;
        self.next_file_id = id + 1;
        id
    }

    /// Position of the file numbered `file_id`, if any.
    fn find(&self, file_id: u64) -> (r: Option<usize>)
        ensures
            match r {
                Some(i) => i < self.files().len() && file_position(self.files(), file_id) == Some(i as int),
                None => file_position(self.files(), file_id) is None,
            },
    {
        proof { use_type_invariant(self); }
        let mut i: usize = 0;
        while i < self.files.len()
            invariant
                i <= self.files@.len(),
                forall|j: int| 0 <= j < i ==> self.files@[j].file_id != file_id,
            decreases self.files@.len() - i,
        {
            if self.files[i].file_id == file_id {
                proof {
                    use_type_invariant(self);
                    assert(self.files@[i as int].file_id == file_id);
                    let c = choose|c: int| 0 <= c < self.files@.len() && #[trigger] self.files@[c].file_id == file_id;
                    if c != i as int {
                        assert(self.files@[c].file_id == self.files@[i as int].file_id);
                    }
                }
                return Some(i);
            }
            i = i + 1;
        }
        None
    }

    /// Records a blob of `len` encoded bytes written at `offset` of file
    /// `file_id`: the file's accounting grows by one live record of that size
    /// (a file seen for the first time starts empty, created at `now`), and
    /// the reference becomes live.
    pub fn record_blob(&mut self, file_id: u64, offset: u64, len: u64, now: u64)
        requires
            match file_position(old(self).files(), file_id) {
                Some(i) => record_fits(old(self).files()[i], len),
                None => true,
            },
        ensures
            final(self).next_id() == old(self).next_id(),
            final(self).live() == old(self).live().insert((file_id, offset)),
            match file_position(old(self).files(), file_id) {
                Some(i) => final(self).files() == old(self).files().update(i, with_record(old(self).files()[i], len)),
                None => final(self).files() == old(self).files().push(with_record(fresh_file(file_id, now), len)),
            },
    {
        proof { use_type_invariant(&*self); }
        let mut files: Vec<BlobFileMetadata> = Vec::new();
        let mut live: Vec<(u64, u64)> = Vec::new();
        let next = self.next_file_id;
        let found = self.find(file_id);
        std::mem::swap(&mut files, &mut self.files);
        std::mem::swap(&mut live, &mut self.live_refs);
        let ghost old_files = files@;
        match found {
            Some(i) => {
                let m = files[i];
                let updated = BlobFileMetadata {
                    file_size: m.file_size + len,
                    blob_count: m.blob_count + 1,
                    live_blob_count: m.live_blob_count + 1,
                    live_data_size: m.live_data_size + len,
                    ..m
                };
                files.set(i, updated);
                assert forall|a: int, b: int| 0 <= a < files@.len() && 0 <= b < files@.len() && a != b implies #[trigger] files@[a].file_id
                    != #[trigger] files@[b].file_id by {
                    assert(files@[a].file_id == old_files[a].file_id);
                    assert(files@[b].file_id == old_files[b].file_id);
                }
            },
            None => {
                let fresh = BlobFileMetadata {
                    file_id,
                    file_size: len,
                    blob_count: 1,
                    live_blob_count: 1,
                    live_data_size: len,
                    created_at: now,
                };
                files.push(fresh);
                assert forall|a: int, b: int| 0 <= a < files@.len() && 0 <= b < files@.len() && a != b implies #[trigger] files@[a].file_id
                    != #[trigger] files@[b].file_id by {
                    if a < old_files.len() && b < old_files.len() {
                        assert(files@[a] == old_files[a]);
                        assert(files@[b] == old_files[b]);
                    } else if a < old_files.len() {
                        assert(files@[a] == old_files[a]);
                    } else if b < old_files.len() {
                        assert(files@[b] == old_files[b]);
                    }
                }
            },
        }
        let ghost old_live = live@;
        live.push((file_id, offset));
        assert(live@.to_set() =~= old_live.to_set().insert((file_id, offset))) by {
            assert forall|x: (u64, u64)| live@.to_set().contains(x) <==> old_live.to_set().insert((file_id, offset)).contains(x) by {
                if x == (file_id, offset) {
                    assert(live@[old_live.len() as int] == x);
                } else if live@.contains(x) {
                    let k = choose|k: int| 0 <= k < live@.len() && #[trigger] live@[k] == x;
                    assert(old_live[k] == x);
                } else if old_live.contains(x) {
                    let k = choose|k: int| 0 <= k < old_live.len() && #[trigger] old_live[k] == x;
                    assert(live@[k] == x);
                }
            }
        }
        *self = BlobLogState { next_file_id: next, files, live_refs: live };
    }

    /// Marks a blob no longer referenced: its reference stops being live, and
    /// its file, if known, loses one live record of the reference's length
    /// (counters stop at zero).
    pub fn mark_dead(&mut self, blob_ref: &BlobRef)
        ensures
            final(self).next_id() == old(self).next_id(),
            final(self).live() == old(self).live().remove((blob_ref.file_id, blob_ref.offset)),
            match file_position(old(self).files(), blob_ref.file_id) {
                Some(i) => final(self).files() == old(self).files().update(i, without_live(old(self).files()[i], blob_ref.length as u64)),
                None => final(self).files() == old(self).files(),
            },
    {
        proof { use_type_invariant(&*self); }
        let target = (blob_ref.file_id, blob_ref.offset);
        let next = self.next_file_id;
        let found = self.find(blob_ref.file_id);
        let mut files: Vec<BlobFileMetadata> = Vec::new();
        let mut live: Vec<(u64, u64)> = Vec::new();
        std::mem::swap(&mut files, &mut self.files);
        std::mem::swap(&mut live, &mut self.live_refs);
        let ghost old_files = files@;
        let ghost old_live = live@;
        let mut kept: Vec<(u64, u64)> = Vec::new();
        let mut i: usize = 0;
        while i < live.len()
            invariant
                i <= live@.len(),
                live@ == old_live,
                forall|x: (u64, u64)| #[trigger] kept@.contains(x) <==> (x != target && old_live.subrange(0, i as int).contains(x)),
            decreases live@.len() - i,
        {
            let p = live[i];
            let ghost before = kept@;
            if p.0 != target.0 || p.1 != target.1 {
                kept.push(p);
            }
            proof {
                assert forall|x: (u64, u64)| #[trigger] kept@.contains(x) <==> (x != target && old_live.subrange(0, i + 1).contains(x)) by {
                    if old_live.subrange(0, i + 1).contains(x) && x != old_live[i as int] {
                        let k = choose|k: int| 0 <= k < i + 1 && #[trigger] old_live.subrange(0, i + 1)[k] == x;
                        assert(old_live.subrange(0, i as int)[k] == x);
                    }
                    if old_live.subrange(0, i as int).contains(x) {
                        let k = choose|k: int| 0 <= k < i && #[trigger] old_live.subrange(0, i as int)[k] == x;
                        assert(old_live.subrange(0, i + 1)[k] == x);
                    }
                    if x == old_live[i as int] {
                        assert(old_live.subrange(0, i + 1)[i as int] == x);
                    }
                    if kept@.contains(x) && !before.contains(x) {
                        assert(x == p);
                    }
                    if before.contains(x) {
                        let k = choose|k: int| 0 <= k < before.len() && #[trigger] before[k] == x;
                        assert(kept@[k] == x);
                    }
                    if x == p && x != target {
                        assert(kept@[kept@.len() - 1] == x);
                    }
                }
            }
            i = i + 1;
        }
        assert(old_live.subrange(0, i as int) =~= old_live);
        assert(kept@.to_set() =~= old_live.to_set().remove(target));
        match found {
            Some(k) => {
                let m = files[k];
                let updated = BlobFileMetadata {
                    live_blob_count: m.live_blob_count.saturating_sub(1),
                    live_data_size: m.live_data_size.saturating_sub(blob_ref.length as u64),
                    ..m
                };
                files.set(k, updated);
                assert forall|a: int, b: int| 0 <= a < files@.len() && 0 <= b < files@.len() && a != b implies #[trigger] files@[a].file_id
                    != #[trigger] files@[b].file_id by {
                    assert(files@[a].file_id == old_files[a].file_id);
                    assert(files@[b].file_id == old_files[b].file_id);
                }
            },
            None => {},
        }
        *self = BlobLogState { next_file_id: next, files, live_refs: kept };
    }

    /// The accounting of file `file_id`, if it was written.
    pub fn get_file_metadata(&self, file_id: u64) -> (r: Option<BlobFileMetadata>)
        ensures
            match file_position(self.files(), file_id) {
                Some(i) => r == Some(self.files()[i]),
                None => r is None,
            },
    {
        match self.find(file_id) {
            Some(i) => Some(self.files[i]),
            None => None,
        }
    }

    /// Forgets a deleted blob file: its accounting and every live reference into it.
    pub fn remove_file(&mut self, file_id: u64)
        ensures
            final(self).next_id() == old(self).next_id(),
            final(self).files() == match file_position(old(self).files(), file_id) {
                Some(i) => old(self).files().remove(i),
                None => old(self).files(),
            },
            final(self).live() == old(self).live().filter(|x: (u64, u64)| x.0 != file_id),
    {
        proof { use_type_invariant(&*self); }
        let found = self.find(file_id);
        let next = self.next_file_id;
        let mut files: Vec<BlobFileMetadata> = Vec::new();
        let mut live: Vec<(u64, u64)> = Vec::new();
        std::mem::swap(&mut files, &mut self.files);
        std::mem::swap(&mut live, &mut self.live_refs);
        let ghost old_files = files@;
        let ghost old_live = live@;
        match found {
            Some(k) => {
                files.remove(k);
                assert forall|a: int, b: int| 0 <= a < files@.len() && 0 <= b < files@.len() && a != b implies #[trigger] files@[a].file_id
                    != #[trigger] files@[b].file_id by {
                    let oa = if a < k { a } else { a + 1 };
                    let ob = if b < k { b } else { b + 1 };
                    assert(files@[a] == old_files[oa]);
                    assert(files@[b] == old_files[ob]);
                }
            },
            None => {},
        }
        let mut kept: Vec<(u64, u64)> = Vec::new();
        let mut i: usize = 0;
        while i < live.len()
            invariant
                i <= live@.len(),
                live@ == old_live,
                forall|x: (u64, u64)| #[trigger] kept@.contains(x) <==> (x.0 != file_id && old_live.subrange(0, i as int).contains(x)),
            decreases live@.len() - i,
        {
            let p = live[i];
            let ghost before = kept@;
            if p.0 != file_id {
                kept.push(p);
            }
            proof {
                assert forall|x: (u64, u64)| #[trigger] kept@.contains(x) <==> (x.0 != file_id && old_live.subrange(0, i + 1).contains(x)) by {
                    if old_live.subrange(0, i + 1).contains(x) && x != old_live[i as int] {
                        let k = choose|k: int| 0 <= k < i + 1 && #[trigger] old_live.subrange(0, i + 1)[k] == x;
                        assert(old_live.subrange(0, i as int)[k] == x);
                    }
                    if old_live.subrange(0, i as int).contains(x) {
                        let k = choose|k: int| 0 <= k < i && #[trigger] old_live.subrange(0, i as int)[k] == x;
                        assert(old_live.subrange(0, i + 1)[k] == x);
                    }
                    if x == old_live[i as int] {
                        assert(old_live.subrange(0, i + 1)[i as int] == x);
                    }
                    if kept@.contains(x) && !before.contains(x) {
                        assert(x == p);
                    }
                    if before.contains(x) {
                        let k = choose|k: int| 0 <= k < before.len() && #[trigger] before[k] == x;
                        assert(kept@[k] == x);
                    }
                    if x == p && x.0 != file_id {
                        assert(kept@[kept@.len() - 1] == x);
                    }
                }
            }
            i = i + 1;
        }
        assert(old_live.subrange(0, i as int) =~= old_live);
        assert(kept@.to_set() =~= old_live.to_set().filter(|x: (u64, u64)| x.0 != file_id));
        *self = BlobLogState { next_file_id: next, files, live_refs: kept };
    }

    /// Number of blob files.
    pub fn file_count(&self) -> (r: usize)
        ensures
            r == self.files().len(),
    {
        self.files.len()
    }

    /// Total size of the blob files.
    pub fn total_size(&self) -> (r: u64)
        requires
            files_size(self.files()) <= u64::MAX,
        ensures
            r == files_size(self.files()),
    {
        let mut sum: u64 = 0;
        let mut i: usize = 0;
        while i < self.files.len()
            invariant
                i <= self.files@.len(),
                files_size(self.files@) <= u64::MAX,
                sum == files_size(self.files@.take(i as int)),
            decreases self.files@.len() - i,
        {
            proof {
                assert(self.files@.take(i + 1).drop_last() =~= self.files@.take(i as int));
                lemma_files_sums_prefix(self.files@, i + 1);
            }
            sum = sum + self.files[i].file_size;
            i = i + 1;
        }
        assert(self.files@.take(i as int) =~= self.files@);
        sum
    }

    /// Total size of the records still referenced, over all blob files.
    pub fn live_data_size(&self) -> (r: u64)
        requires
            files_live_size(self.files()) <= u64::MAX,
        ensures
            r == files_live_size(self.files()),
    {
        let mut sum: u64 = 0;
        let mut i: usize = 0;
        while i < self.files.len()
            invariant
                i <= self.files@.len(),
                files_live_size(self.files@) <= u64::MAX,
                sum == files_live_size(self.files@.take(i as int)),
            decreases self.files@.len() - i,
        {
            proof {
                assert(self.files@.take(i + 1).drop_last() =~= self.files@.take(i as int));
                lemma_files_sums_prefix(self.files@, i + 1);
            }
            sum = sum + self.files[i].live_data_size;
            i = i + 1;
        }
        assert(self.files@.take(i as int) =~= self.files@);
        sum
    }

    /// The accounting of every file, in the order the files were first written.
    pub fn file_metadata(&self) -> (r: Vec<BlobFileMetadata>)
        ensures
            r@ == self.files(),
    {
        self.files.clone()
    }
}

} // verus!
