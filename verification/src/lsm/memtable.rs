//! The in-memory table: the newest version of each key, in key order, with MVCC timestamps.
use vstd::prelude::*;
use crate::keyorder::{
    compare_keys, lemma_lex_irreflexive, lemma_lex_transitive, lemma_lex_trichotomy, lex_le, lex_lt,
    KeyOrder,
};
use crate::lsm::bloblog::{blob_ref_size, BlobRef};

verus! {

/// Where a value is stored: inline in the entry, or in the blob log.
#[derive(Debug, Clone, PartialEq, Eq)]
pub enum ValueLocation {
    /// Value stored inline in the entry
    Inline(Vec<u8>),
    /// Value stored in blob log (reference only)
    Blob(BlobRef),
}

/// Mathematical value of a [`ValueLocation`].
pub enum ValueView {
    Inline(Seq<u8>),
    Blob(BlobRef),
}

impl ValueView {
    /// Bytes that the value counts for in size tracking.
    pub open spec fn size(self) -> int {
        match self {
            ValueView::Inline(d) => d.len() as int,
            ValueView::Blob(_) => blob_ref_size(),
        }
    }
}

impl View for ValueLocation {
    type V = ValueView;

    open spec fn view(&self) -> ValueView {
        match self {
            ValueLocation::Inline(d) => ValueView::Inline(d@),
            ValueLocation::Blob(b) => ValueView::Blob(*b),
        }
    }
}

/// Copies a byte vector.
pub fn copy_bytes(v: &Vec<u8>) -> (r: Vec<u8>)
    ensures
        r@ == v@,
{
    vstd::slice::slice_to_vec(v.as_slice())
}

impl ValueLocation {
    /// An equal copy of this value.
    pub fn duplicate(&self) -> (r: ValueLocation)
        ensures
            r@ == self@,
    {
        match self {
            ValueLocation::Inline(d) => ValueLocation::Inline(copy_bytes(d)),
            ValueLocation::Blob(b) => ValueLocation::Blob(*b),
        }
    }

    /// Size of the value for size tracking.
    pub fn size(&self) -> (r: usize)
        ensures
            r == self@.size(),
    {
        match self {
            ValueLocation::Inline(data) => data.len(),
            ValueLocation::Blob(_) => BlobRef::serialized_size(),
        }
    }

    /// Whether this is a blob reference.
    pub fn is_blob(&self) -> (r: bool)
        ensures
            r == (self@ is Blob),
    {
        match self {
            ValueLocation::Blob(_) => true,
            _ => false,
        }
    }

    /// The blob reference, if this is one.
    pub fn as_blob(&self) -> (r: Option<&BlobRef>)
        ensures
            match self@ {
                ValueView::Blob(b) => r == Some(&b),
                ValueView::Inline(_) => r is None,
            },
    {
        match self {
            ValueLocation::Blob(blob_ref) => Some(blob_ref),
            _ => None,
        }
    }

    /// The inline bytes, if the value is inline.
    pub fn as_inline(&self) -> (r: Option<&[u8]>)
        ensures
            match self@ {
                ValueView::Inline(d) => r is Some && r.unwrap()@ == d,
                ValueView::Blob(_) => r is None,
            },
    {
        match self {
            ValueLocation::Inline(data) => Some(data.as_slice()),
            _ => None,
        }
    }

    /// A copy of the inline bytes; `None` for a blob reference.
    pub fn to_vec(&self) -> (r: Option<Vec<u8>>)
        ensures
            match self@ {
                ValueView::Inline(d) => r is Some && r.unwrap()@ == d,
                ValueView::Blob(_) => r is None,
            },
    {
        match self {
            ValueLocation::Inline(data) => Some(copy_bytes(data)),
            ValueLocation::Blob(_) => None,
        }
    }

    /// Same as [`ValueLocation::size`].
    pub fn len(&self) -> (r: usize)
        ensures
            r == self@.size(),
    {
        self.size()
    }

    /// Whether the value is inline and empty.
    pub fn is_empty(&self) -> (r: bool)
        ensures
            r == (self@ matches ValueView::Inline(d) && d.len() == 0),
    {
        match self {
            ValueLocation::Inline(data) => data.len() == 0,
            ValueLocation::Blob(_) => false,
        }
    }
}

/// Entry in the memtable: a key, its value (`None` for a deletion), the sequence
/// number of the write and, once committed, its commit timestamp.
#[derive(Debug, Clone, PartialEq, Eq)]
pub struct Entry {
    pub key: Vec<u8>,
    pub value: Option<ValueLocation>,
    pub sequence: u64,
    pub commit_ts: Option<i64>,
}

/// Mathematical value of an [`Entry`].
pub struct EntryView {
    pub key: Seq<u8>,
    pub value: Option<ValueView>,
    pub sequence: u64,
    pub commit_ts: Option<i64>,
}

pub open spec fn opt_value_view(v: Option<ValueLocation>) -> Option<ValueView> {
    match v {
        Some(x) => Some(x@),
        None => None,
    }
}

/// The value of an entry written with inline bytes `value` (or deleted, for `None`).
pub open spec fn inline_value_view(value: Option<Seq<u8>>) -> Option<ValueView> {
    match value {
        Some(v) => Some(ValueView::Inline(v)),
        None => None,
    }
}

impl View for Entry {
    type V = EntryView;

    open spec fn view(&self) -> EntryView {
        EntryView {
            key: self.key@,
            value: opt_value_view(self.value),
            sequence: self.sequence,
            commit_ts: self.commit_ts,
        }
    }
}

impl EntryView {
    /// Bytes that the entry counts for: key, value and 16 for sequence and timestamp.
    pub open spec fn size(self) -> int {
        self.key.len() + match self.value {
            Some(v) => v.size(),
            None => 0,
        } + 16
    }

    /// Committed at or before `snapshot_ts`.
    pub open spec fn is_visible(self, snapshot_ts: i64) -> bool {
        match self.commit_ts {
            Some(ts) => ts <= snapshot_ts,
            None => false,
        }
    }
}

/// An entry is visible to a snapshot exactly when it was committed at or
/// before the snapshot's time; an uncommitted entry is visible to no snapshot.
pub proof fn lemma_visibility(e: EntryView, snapshot_ts: i64)
    ensures
        e.is_visible(snapshot_ts) <==> (e.commit_ts matches Some(c) && c <= snapshot_ts),
        e.commit_ts is None ==> !e.is_visible(snapshot_ts),
        forall|later: i64| snapshot_ts <= later && e.is_visible(snapshot_ts) ==> e.is_visible(later),
{
}

/// Views of a sequence of entries.
pub open spec fn entry_views(v: Seq<Entry>) -> Seq<EntryView> {
    v.map_values(|e: Entry| e@)
}

fn opt_inline(value: Option<Vec<u8>>) -> (r: Option<ValueLocation>)
    ensures
        opt_value_view(r) == inline_value_view(
            match value {
                Some(v) => Some(v@),
                None => None,
            },
        ),
{
    match value {
        Some(v) => Some(ValueLocation::Inline(v)),
        None => None,
    }
}

impl Entry {
    /// Creates an uncommitted entry with an inline value (or a deletion).
    pub fn new(key: Vec<u8>, value: Option<Vec<u8>>, sequence: u64) -> (r: Self)
        ensures
            r@ == (EntryView {
                key: key@,
                value: inline_value_view(
                    match value {
                        Some(v) => Some(v@),
                        None => None,
                    },
                ),
                sequence,
                commit_ts: None,
            }),
    {
        Entry { key, value: opt_inline(value), sequence, commit_ts: None }
    }

    /// Creates an uncommitted entry that refers to a blob.
    pub fn new_with_blob(key: Vec<u8>, blob_ref: BlobRef, sequence: u64) -> (r: Self)
        ensures
            r@ == (EntryView {
                key: key@,
                value: Some(ValueView::Blob(blob_ref)),
                sequence,
                commit_ts: None,
            }),
    {
        Entry { key, value: Some(ValueLocation::Blob(blob_ref)), sequence, commit_ts: None }
    }

    /// Creates a committed entry with an inline value (or a deletion).
    pub fn with_commit_ts(key: Vec<u8>, value: Option<Vec<u8>>, sequence: u64, commit_ts: i64) -> (r: Self)
        ensures
            r@ == (EntryView {
                key: key@,
                value: inline_value_view(
                    match value {
                        Some(v) => Some(v@),
                        None => None,
                    },
                ),
                sequence,
                commit_ts: Some(commit_ts),
            }),
    {
        Entry { key, value: opt_inline(value), sequence, commit_ts: Some(commit_ts) }
    }

    /// Creates a committed entry that refers to a blob.
    pub fn with_blob_and_commit_ts(key: Vec<u8>, blob_ref: BlobRef, sequence: u64, commit_ts: i64) -> (r: Self)
        ensures
            r@ == (EntryView {
                key: key@,
                value: Some(ValueView::Blob(blob_ref)),
                sequence,
                commit_ts: Some(commit_ts),
            }),
    {
        Entry { key, value: Some(ValueLocation::Blob(blob_ref)), sequence, commit_ts: Some(commit_ts) }
    }

    /// An equal copy of this entry.
    pub fn duplicate(&self) -> (r: Entry)
        ensures
            r@ == self@,
    {
        let value = match &self.value {
            Some(v) => Some(v.duplicate()),
            None => None,
        };
        Entry { key: copy_bytes(&self.key), value, sequence: self.sequence, commit_ts: self.commit_ts }
    }

    /// Whether this entry is visible to a snapshot taken at `snapshot_ts`.
    pub fn is_visible(&self, snapshot_ts: i64) -> (r: bool)
        ensures
            r == self@.is_visible(snapshot_ts),
            r <==> (self.commit_ts matches Some(c) && c <= snapshot_ts),
            self.commit_ts is None ==> !r,
    {
        match self.commit_ts {
            None => false,
            Some(ts) => ts <= snapshot_ts,
        }
    }

    /// Size of this entry for memory tracking.
    pub fn size(&self) -> (r: usize)
        requires
            self@.size() <= usize::MAX,
        ensures
            r == self@.size(),
    {
        let v = match &self.value {
            Some(v) => v.size(),
            None => 0,
        };
        self.key.len() + v + 16
    }

    /// Whether this entry refers to a blob.
    pub fn has_blob(&self) -> (r: bool)
        ensures
            r == (self@.value matches Some(ValueView::Blob(_))),
    {
        match &self.value {
            Some(v) => v.is_blob(),
            None => false,
        }
    }

    /// The blob reference of this entry, if it has one.
    pub fn blob_ref(&self) -> (r: Option<&BlobRef>)
        ensures
            match self@.value {
                Some(ValueView::Blob(b)) => r == Some(&b),
                _ => r is None,
            },
    {
        match &self.value {
            Some(v) => v.as_blob(),
            None => None,
        }
    }

    /// The inline value of this entry, if it has one.
    pub fn inline_value(&self) -> (r: Option<&[u8]>)
        ensures
            match self@.value {
                Some(ValueView::Inline(d)) => r is Some && r.unwrap()@ == d,
                _ => r is None,
            },
    {
        match &self.value {
            Some(v) => v.as_inline(),
            None => None,
        }
    }

    /// A copy of the inline value; `None` for a deletion or a blob reference.
    pub fn value_as_vec(&self) -> (r: Option<Vec<u8>>)
        ensures
            match self@.value {
                Some(ValueView::Inline(d)) => r is Some && r.unwrap()@ == d,
                _ => r is None,
            },
    {
        match &self.value {
            Some(v) => v.to_vec(),
            None => None,
        }
    }

    /// Whether this entry is a deletion (tombstone).
    pub fn is_deletion(&self) -> (r: bool)
        ensures
            r == (self@.value is None),
    {
        self.value.is_none()
    }
}


/// Keys appear in strictly increasing order.
pub open spec fn keys_sorted(s: Seq<EntryView>) -> bool {
    forall|i: int, j: int| 0 <= i < j < s.len() ==> lex_lt(#[trigger] s[i].key, #[trigger] s[j].key)
}

/// The map from each key to its entry.
pub open spec fn entries_map(s: Seq<EntryView>) -> Map<Seq<u8>, EntryView>
    decreases s.len(),
{
    if s.len() == 0 {
        Map::empty()
    } else {
        entries_map(s.drop_last()).insert(s.last().key, s.last())
    }
}

/// Sum of the entry sizes.
pub open spec fn total_size(s: Seq<EntryView>) -> int
    decreases s.len(),
{
    if s.len() == 0 {
        0
    } else {
        total_size(s.drop_last()) + s.last().size()
    }
}

/// The entry written by a put or delete of `key`.
pub open spec fn written_entry(key: Seq<u8>, value: Option<Seq<u8>>, sequence: u64, commit_ts: Option<i64>) -> EntryView {
    EntryView { key, value: inline_value_view(value), sequence, commit_ts }
}

/// The sequence counter after one more write (it wraps around as a machine counter does).
pub open spec fn next_seq(s: u64) -> u64 {
    if s == u64::MAX { 0 } else { (s + 1) as u64 }
}

/// The entries of a sorted listing whose keys lie in `[start, end)`.
pub open spec fn in_range(start: Seq<u8>, end: Seq<u8>) -> spec_fn(EntryView) -> bool {
    |e: EntryView| lex_le(start, e.key) && lex_lt(e.key, end)
}

pub proof fn lemma_sorted_sub(s: Seq<EntryView>, a: int, b: int)
    requires
        keys_sorted(s),
        0 <= a <= b <= s.len(),
    ensures
        keys_sorted(s.subrange(a, b)),
{
    assert forall|i: int, j: int| 0 <= i < j < s.subrange(a, b).len() implies lex_lt(
        #[trigger] s.subrange(a, b)[i].key,
        #[trigger] s.subrange(a, b)[j].key,
    ) by {
        assert(s.subrange(a, b)[i] == s[a + i]);
        assert(s.subrange(a, b)[j] == s[a + j]);
    }
}

/// In a sorted listing each key appears once, and the map sends it to its entry.
pub proof fn lemma_entries_map(s: Seq<EntryView>)
    requires
        keys_sorted(s),
    ensures
        forall|k: Seq<u8>| #[trigger] entries_map(s).contains_key(k) <==> exists|i: int| 0 <= i < s.len() && s[i].key == k,
        forall|i: int| 0 <= i < s.len() ==> entries_map(s)[#[trigger] s[i].key] == s[i],
    decreases s.len(),
{
    if s.len() > 0 {
        let t = s.drop_last();
        lemma_sorted_sub(s, 0, s.len() - 1);
        assert(t =~= s.subrange(0, s.len() - 1));
        lemma_entries_map(t);
        assert forall|k: Seq<u8>| #[trigger] entries_map(s).contains_key(k) <==> exists|i: int| 0 <= i < s.len() && s[i].key == k by {
            if entries_map(s).contains_key(k) {
                if k == s.last().key {
                    assert(s[s.len() - 1].key == k);
                } else {
                    assert(entries_map(t).contains_key(k));
                    let i = choose|i: int| 0 <= i < t.len() && t[i].key == k;
                    assert(s[i] == t[i]);
                }
            }
            if exists|i: int| 0 <= i < s.len() && s[i].key == k {
                let i = choose|i: int| 0 <= i < s.len() && s[i].key == k;
                if i < s.len() - 1 {
                    assert(t[i] == s[i]);
                }
            }
        }
        assert forall|i: int| 0 <= i < s.len() implies entries_map(s)[#[trigger] s[i].key] == s[i] by {
            if i < s.len() - 1 {
                assert(t[i] == s[i]);
                assert(lex_lt(s[i].key, s[s.len() - 1].key));
                lemma_lex_irreflexive(s[i].key);
            }
        }
    }
}

pub proof fn lemma_total_size_concat(a: Seq<EntryView>, b: Seq<EntryView>)
    ensures
        total_size(a + b) == total_size(a) + total_size(b),
    decreases b.len(),
{
    if b.len() == 0 {
        assert(a + b =~= a);
    } else {
        lemma_total_size_concat(a, b.drop_last());
        assert((a + b).drop_last() =~= a + b.drop_last());
    }
}

pub proof fn lemma_total_size_nonneg(s: Seq<EntryView>)
    ensures
        total_size(s) >= 0,
    decreases s.len(),
{
    if s.len() > 0 {
        lemma_total_size_nonneg(s.drop_last());
    }
}

/// Replacing the entry at `i` changes the total by the difference of the two sizes.
pub proof fn lemma_total_size_update(s: Seq<EntryView>, i: int, e: EntryView)
    requires
        0 <= i < s.len(),
    ensures
        total_size(s.update(i, e)) == total_size(s) - s[i].size() + e.size(),
{
    let pre = s.subrange(0, i);
    let post = s.subrange(i + 1, s.len() as int);
    assert(s =~= pre + seq![s[i]] + post);
    assert(s.update(i, e) =~= pre + seq![e] + post);
    lemma_total_size_concat(pre + seq![s[i]], post);
    lemma_total_size_concat(pre, seq![s[i]]);
    lemma_total_size_concat(pre + seq![e], post);
    lemma_total_size_concat(pre, seq![e]);
    assert(seq![s[i]].drop_last() =~= Seq::<EntryView>::empty());
    assert(seq![e].drop_last() =~= Seq::<EntryView>::empty());
}

/// Inserting an entry at `i` adds its size to the total.
pub proof fn lemma_total_size_insert(s: Seq<EntryView>, i: int, e: EntryView)
    requires
        0 <= i <= s.len(),
    ensures
        total_size(s.insert(i, e)) == total_size(s) + e.size(),
{
    let pre = s.subrange(0, i);
    let post = s.subrange(i, s.len() as int);
    assert(s =~= pre + post);
    assert(s.insert(i, e) =~= pre + seq![e] + post);
    lemma_total_size_concat(pre, post);
    lemma_total_size_concat(pre + seq![e], post);
    lemma_total_size_concat(pre, seq![e]);
    assert(seq![e].drop_last() =~= Seq::<EntryView>::empty());
    assert(seq![e].last() == e);
    assert(total_size(seq![e].drop_last()) == 0);
    assert(total_size(seq![e]) == e.size());
    assert(total_size(s) == total_size(pre) + total_size(post));
    assert(total_size(pre + seq![e] + post) == total_size(pre + seq![e]) + total_size(post));
}

/// Every entry counts for at least sixteen bytes.
pub proof fn lemma_total_size_lower(s: Seq<EntryView>)
    ensures
        total_size(s) >= 16 * s.len(),
    decreases s.len(),
{
    if s.len() > 0 {
        lemma_total_size_lower(s.drop_last());
        let v = s.last().value;
        if v matches Some(ValueView::Blob(_)) {
            assert(blob_ref_size() >= 0);
        }
    }
}

pub proof fn lemma_total_size_ge_elem(s: Seq<EntryView>, i: int)
    requires
        0 <= i < s.len(),
    ensures
        total_size(s) >= s[i].size(),
{
    let pre = s.subrange(0, i);
    let post = s.subrange(i + 1, s.len() as int);
    assert(s =~= pre + seq![s[i]] + post);
    lemma_total_size_concat(pre + seq![s[i]], post);
    lemma_total_size_concat(pre, seq![s[i]]);
    lemma_total_size_nonneg(pre);
    lemma_total_size_nonneg(post);
    assert(seq![s[i]].last() == s[i]);
    assert(seq![s[i]].drop_last() =~= Seq::<EntryView>::empty());
    assert(total_size(seq![s[i]].drop_last()) == 0);
}

/// Replacing the entry of an existing key keeps the order and updates the map.
pub proof fn lemma_map_update(s: Seq<EntryView>, i: int, e: EntryView)
    requires
        keys_sorted(s),
        0 <= i < s.len(),
        s[i].key == e.key,
    ensures
        keys_sorted(s.update(i, e)),
        entries_map(s).contains_key(e.key),
        entries_map(s)[e.key] == s[i],
        entries_map(s.update(i, e)) == entries_map(s).insert(e.key, e),
{
    let t = s.update(i, e);
    assert forall|a: int, b: int| 0 <= a < b < t.len() implies lex_lt(#[trigger] t[a].key, #[trigger] t[b].key) by {
        assert(t[a].key == s[a].key);
        assert(t[b].key == s[b].key);
    }
    lemma_entries_map(s);
    lemma_entries_map(t);
    let m = entries_map(s).insert(e.key, e);
    assert forall|k: Seq<u8>| #[trigger] entries_map(t).contains_key(k) <==> m.contains_key(k) by {
        if entries_map(t).contains_key(k) {
            let j = choose|j: int| 0 <= j < t.len() && t[j].key == k;
            assert(s[j].key == k);
        }
        if m.contains_key(k) && k != e.key {
            let j = choose|j: int| 0 <= j < s.len() && s[j].key == k;
            assert(t[j].key == k);
        }
        if k == e.key {
            assert(t[i].key == k);
        }
    }
    assert forall|k: Seq<u8>| #[trigger] entries_map(t).contains_key(k) implies entries_map(t)[k] == m[k] by {
        let j = choose|j: int| 0 <= j < t.len() && t[j].key == k;
        if j != i {
            assert(t[j] == s[j]);
            assert(entries_map(s)[s[j].key] == s[j]);
            lemma_lex_irreflexive(k);
        }
    }
    assert(entries_map(t) =~= m);
}

/// Inserting a new key at its sorted position keeps the order and updates the map.
pub proof fn lemma_map_insert(s: Seq<EntryView>, i: int, e: EntryView)
    requires
        keys_sorted(s),
        0 <= i <= s.len(),
        forall|j: int| 0 <= j < i ==> lex_lt(#[trigger] s[j].key, e.key),
        forall|j: int| i <= j < s.len() ==> lex_lt(e.key, #[trigger] s[j].key),
    ensures
        keys_sorted(s.insert(i, e)),
        !entries_map(s).contains_key(e.key),
        entries_map(s.insert(i, e)) == entries_map(s).insert(e.key, e),
{
    let t = s.insert(i, e);
    assert forall|a: int, b: int| 0 <= a < b < t.len() implies lex_lt(#[trigger] t[a].key, #[trigger] t[b].key) by {
        if b < i {
            assert(t[a] == s[a] && t[b] == s[b]);
        } else if b == i {
            assert(t[a] == s[a]);
        } else if a < i {
            assert(t[a] == s[a] && t[b] == s[b - 1]);
            lemma_lex_transitive(s[a].key, e.key, s[b - 1].key);
        } else if a == i {
            assert(t[b] == s[b - 1]);
        } else {
            assert(t[a] == s[a - 1] && t[b] == s[b - 1]);
        }
    }
    lemma_entries_map(s);
    lemma_entries_map(t);
    if entries_map(s).contains_key(e.key) {
        let j = choose|j: int| 0 <= j < s.len() && s[j].key == e.key;
        lemma_lex_irreflexive(e.key);
        assert(false);
    }
    let m = entries_map(s).insert(e.key, e);
    assert forall|k: Seq<u8>| #[trigger] entries_map(t).contains_key(k) <==> m.contains_key(k) by {
        if entries_map(t).contains_key(k) {
            let j = choose|j: int| 0 <= j < t.len() && t[j].key == k;
            if j < i {
                assert(s[j].key == k);
            } else if j > i {
                assert(s[j - 1].key == k);
            }
        }
        if m.contains_key(k) && k != e.key {
            let j = choose|j: int| 0 <= j < s.len() && s[j].key == k;
            if j < i {
                assert(t[j].key == k);
            } else {
                assert(t[j + 1].key == k);
            }
        }
        if k == e.key {
            assert(t[i].key == k);
        }
    }
    assert forall|k: Seq<u8>| #[trigger] entries_map(t).contains_key(k) implies entries_map(t)[k] == m[k] by {
        let j = choose|j: int| 0 <= j < t.len() && t[j].key == k;
        if j < i {
            assert(t[j] == s[j]);
            assert(entries_map(s)[s[j].key] == s[j]);
        } else if j > i {
            assert(t[j] == s[j - 1]);
            assert(entries_map(s)[s[j - 1].key] == s[j - 1]);
        }
    }
    assert(entries_map(t) =~= m);
}

/// In-memory table holding the newest entry of each key, sorted by key.
#[derive(Debug)]
pub struct MemTable {
    entries: Vec<Entry>,
    size: usize,
    sequence: u64,
}

impl View for MemTable {
    type V = Seq<EntryView>;

    /// The entries in key order.
    closed spec fn view(&self) -> Seq<EntryView> {
        entry_views(self.entries@)
    }
}

impl MemTable {
    /// Tracked size in bytes.
    pub closed spec fn byte_size(&self) -> int {
        self.size as int
    }

    /// Sequence number that the next write receives.
    pub closed spec fn next_sequence(&self) -> u64 {
        self.sequence
    }

    /// The memtable's entries are sorted by key, hold their values inline, and its
    /// size is the sum of their sizes.
    pub closed spec fn wf(&self) -> bool {
        &&& keys_sorted(self@)
        &&& self.size as int == total_size(self@)
        &&& crate::lsm::block_codec::inline_only(self@)
    }

    /// The entry of each key.
    pub open spec fn contents(&self) -> Map<Seq<u8>, EntryView> {
        entries_map(self@)
    }

    pub proof fn lemma_wf(&self)
        requires
            self.wf(),
        ensures
            keys_sorted(self@),
            self.byte_size() == total_size(self@),
            0 <= self.byte_size() <= usize::MAX,
            crate::lsm::block_codec::inline_only(self@),
            forall|k: Seq<u8>| #[trigger] self.contents().contains_key(k) <==> exists|i: int| 0 <= i < self@.len() && self@[i].key == k,
            forall|i: int| 0 <= i < self@.len() ==> self.contents()[#[trigger] self@[i].key] == self@[i],
    {
        lemma_entries_map(self@);
    }

    /// The memtable holds one entry per key: its entry count is the number of
    /// keys it holds, so that a write of a new key adds one entry and a write
    /// of a held key adds none.
    pub proof fn lemma_count_is_keys(&self)
        requires
            self.wf(),
        ensures
            self@.len() == self.contents().dom().len(),
            self.contents().dom().finite(),
    {
        self.lemma_wf();
        let keys = self@.map_values(|e: EntryView| e.key);
        assert(keys.no_duplicates()) by {
            assert forall|i: int, j: int| 0 <= i < keys.len() && 0 <= j < keys.len() && i != j implies keys[i] != keys[j] by {
                if i < j {
                    crate::keyorder::lemma_lex_trichotomy(self@[i].key, self@[j].key);
                } else {
                    crate::keyorder::lemma_lex_trichotomy(self@[j].key, self@[i].key);
                }
            }
        }
        keys.unique_seq_to_set();
        assert(self.contents().dom() =~= keys.to_set()) by {
            assert forall|k: Seq<u8>| self.contents().dom().contains(k) <== keys.to_set().contains(k) by {
                if keys.to_set().contains(k) {
                    let i = choose|i: int| 0 <= i < keys.len() && keys[i] == k;
                    assert(self@[i].key == k);
                }
            }
            assert forall|k: Seq<u8>| self.contents().dom().contains(k) ==> keys.to_set().contains(k) by {
                if self.contents().dom().contains(k) {
                    let i = choose|i: int| 0 <= i < self@.len() && self@[i].key == k;
                    assert(keys[i] == k);
                }
            }
        }
    }

    /// Creates an empty memtable.
    pub fn new() -> (r: Self)
        ensures
            r.wf(),
            r@ == Seq::<EntryView>::empty(),
            r.contents() == Map::<Seq<u8>, EntryView>::empty(),
            r.byte_size() == 0,
            r.next_sequence() == 0,
    {
        let r = MemTable { entries: Vec::new(), size: 0, sequence: 0 };
        assert(r@ =~= Seq::<EntryView>::empty());
        r
    }

    /// Binary search for `key`: the position of its entry, or where it would go.
    fn search(&self, key: &[u8]) -> (r: (usize, bool))
        requires
            self.wf(),
        ensures
            r.0 <= self@.len(),
            forall|j: int| 0 <= j < r.0 ==> lex_lt(#[trigger] self@[j].key, key@),
            r.1 ==> r.0 < self@.len() && self@[r.0 as int].key == key@,
            !r.1 ==> forall|j: int| r.0 <= j < self@.len() ==> lex_lt(key@, #[trigger] self@[j].key),
    {
        let ghost s = self@;
        let mut lo: usize = 0;
        let mut hi: usize = self.entries.len();
        while lo < hi
            invariant
                s == self@,
                keys_sorted(s),
                lo <= hi <= s.len(),
                s.len() == self.entries@.len(),
                forall|j: int| 0 <= j < lo ==> lex_lt(#[trigger] s[j].key, key@),
                forall|j: int| hi <= j < s.len() ==> lex_lt(key@, #[trigger] s[j].key),
            decreases hi - lo,
        {
            let mid = lo + (hi - lo) / 2;
            let ghost mk = s[mid as int].key;
            assert(self.entries@[mid as int]@ == s[mid as int]);
            match compare_keys(self.entries[mid].key.as_slice(), key) {
                KeyOrder::Less => {
                    assert forall|j: int| 0 <= j < mid + 1 implies lex_lt(#[trigger] s[j].key, key@) by {
                        if j < mid {
                            lemma_lex_transitive(s[j].key, mk, key@);
                        }
                    }
                    lo = mid + 1;
                },
                KeyOrder::Equal => {
                    return (mid, true);
                },
                KeyOrder::Greater => {
                    proof { lemma_lex_trichotomy(mk, key@); }
                    assert forall|j: int| mid <= j < s.len() implies lex_lt(key@, #[trigger] s[j].key) by {
                        if j > mid {
                            lemma_lex_transitive(key@, mk, s[j].key);
                        }
                    }
                    hi = mid;
                },
            }
        }
        (lo, false)
    }

    /// Writes `entry`, replacing any entry with the same key, and keeps the size count.
    fn upsert(&mut self, entry: Entry)
        requires
            old(self).wf(),
            old(self).byte_size() + entry@.size() <= usize::MAX,
            !(entry@.value matches Some(ValueView::Blob(_))),
        ensures
            final(self).wf(),
            final(self).contents() == old(self).contents().insert(entry@.key, entry@),
            final(self).byte_size() == old(self).byte_size() + entry@.size() - (if old(self).contents().contains_key(
                entry@.key,
            ) {
                old(self).contents()[entry@.key].size()
            } else {
                0
            }),
            final(self).next_sequence() == old(self).next_sequence(),
    {
        let ghost s = self@;
        let ghost e = entry@;
        let (i, found) = self.search(entry.key.as_slice());
        proof {
            lemma_total_size_nonneg(s);
        }
        let new_size = entry.size();
        if found {
            assert(self.entries@[i as int]@ == s[i as int]);
            proof {
                lemma_total_size_ge_elem(s, i as int);
                lemma_total_size_update(s, i as int, e);
                lemma_map_update(s, i as int, e);
                lemma_total_size_nonneg(s.update(i as int, e));
            }
            let old_size = self.entries[i].size();
            if new_size >= old_size {
                self.size = self.size + (new_size - old_size);
            } else {
                self.size = self.size - (old_size - new_size);
            }
            self.entries.set(i, entry);
            assert(self@ =~= s.update(i as int, e));
            assert forall|j: int| 0 <= j < self@.len() implies !(#[trigger] self@[j].value matches Some(ValueView::Blob(_))) by {
                if j != i {
                    assert(self@[j] == s[j]);
                }
            }
        } else {
            proof {
                lemma_total_size_insert(s, i as int, e);
                lemma_map_insert(s, i as int, e);
            }
            self.entries.insert(i, entry);
            self.size = self.size + new_size;
            assert(self@ =~= s.insert(i as int, e));
            assert forall|j: int| 0 <= j < self@.len() implies !(#[trigger] self@[j].value matches Some(ValueView::Blob(_))) by {
                if j < i {
                    assert(self@[j] == s[j]);
                } else if j > i {
                    assert(self@[j] == s[j - 1]);
                }
            }
        }
    }
    /// The tracked size after writing `e`: its size replaces that of the key's previous entry.
    pub open spec fn size_after_write(&self, e: EntryView) -> int {
        self.byte_size() + e.size() - (if self.contents().contains_key(e.key) {
            self.contents()[e.key].size()
        } else {
            0
        })
    }

    fn take_sequence(&mut self) -> (r: u64)
        ensures
            r == old(self).next_sequence(),
            final(self).next_sequence() == next_seq(r),
            final(self)@ == old(self)@,
            final(self).byte_size() == old(self).byte_size(),
            final(self).wf() == old(self).wf(),
    {
        let r = self.sequence;
        self.sequence = if r == u64::MAX { 0 } else { r + 1 };
        r
    }

    /// Writes `key` with `value` (or deletes it, for `None`) with the next sequence number.
    fn write(&mut self, key: Vec<u8>, value: Option<Vec<u8>>, commit_ts: Option<i64>) -> (r: u64)
        requires
            old(self).wf(),
            old(self).byte_size() + key@.len() + (match value { Some(v) => v@.len() as int, None => 0 }) + 16 <= usize::MAX,
        ensures
            final(self).wf(),
            r == old(self).next_sequence(),
            final(self).next_sequence() == next_seq(r),
            final(self).contents() == old(self).contents().insert(
                key@,
                written_entry(key@, match value { Some(v) => Some(v@), None => None }, r, commit_ts),
            ),
            final(self).byte_size() == old(self).size_after_write(
                written_entry(key@, match value { Some(v) => Some(v@), None => None }, r, commit_ts),
            ),
    {
        let sequence = self.take_sequence();
        let entry = match commit_ts {
            Some(ts) => Entry::with_commit_ts(key, value, sequence, ts),
            None => Entry::new(key, value, sequence),
        };
        self.upsert(entry);
        sequence
    }

    /// Inserts or updates `key` with an uncommitted value; returns the write's sequence number.
    pub fn put(&mut self, key: Vec<u8>, value: Vec<u8>) -> (r: u64)
        requires
            old(self).wf(),
            old(self).byte_size() + key@.len() + value@.len() + 16 <= usize::MAX,
        ensures
            final(self).wf(),
            r == old(self).next_sequence(),
            final(self).next_sequence() == next_seq(r),
            final(self).contents() == old(self).contents().insert(key@, written_entry(key@, Some(value@), r, None)),
            final(self).byte_size() == old(self).size_after_write(written_entry(key@, Some(value@), r, None)),
    {
        self.write(key, Some(value), None)
    }

    /// Inserts or updates `key` with a value committed at `commit_ts`.
    pub fn put_committed(&mut self, key: Vec<u8>, value: Vec<u8>, commit_ts: i64) -> (r: u64)
        requires
            old(self).wf(),
            old(self).byte_size() + key@.len() + value@.len() + 16 <= usize::MAX,
        ensures
            final(self).wf(),
            r == old(self).next_sequence(),
            final(self).next_sequence() == next_seq(r),
            final(self).contents() == old(self).contents().insert(
                key@,
                written_entry(key@, Some(value@), r, Some(commit_ts)),
            ),
            final(self).byte_size() == old(self).size_after_write(
                written_entry(key@, Some(value@), r, Some(commit_ts)),
            ),
    {
        self.write(key, Some(value), Some(commit_ts))
    }

    /// Marks `key` as deleted (uncommitted); returns the write's sequence number.
    pub fn delete(&mut self, key: Vec<u8>) -> (r: u64)
        requires
            old(self).wf(),
            old(self).byte_size() + key@.len() + 16 <= usize::MAX,
        ensures
            final(self).wf(),
            r == old(self).next_sequence(),
            final(self).next_sequence() == next_seq(r),
            final(self).contents() == old(self).contents().insert(key@, written_entry(key@, None, r, None)),
            final(self).byte_size() == old(self).size_after_write(written_entry(key@, None, r, None)),
    {
        self.write(key, None, None)
    }

    /// Marks `key` as deleted, committed at `commit_ts`.
    pub fn delete_committed(&mut self, key: Vec<u8>, commit_ts: i64) -> (r: u64)
        requires
            old(self).wf(),
            old(self).byte_size() + key@.len() + 16 <= usize::MAX,
        ensures
            final(self).wf(),
            r == old(self).next_sequence(),
            final(self).next_sequence() == next_seq(r),
            final(self).contents() == old(self).contents().insert(key@, written_entry(key@, None, r, Some(commit_ts))),
            final(self).byte_size() == old(self).size_after_write(written_entry(key@, None, r, Some(commit_ts))),
    {
        self.write(key, None, Some(commit_ts))
    }

    /// The entry of `key`, if there is one.
    pub fn get(&self, key: &[u8]) -> (r: Option<Entry>)
        requires
            self.wf(),
        ensures
            match r {
                Some(e) => self.contents().contains_key(key@) && e@ == self.contents()[key@],
                None => !self.contents().contains_key(key@),
            },
    {
        proof {
            self.lemma_wf();
        }
        let (i, found) = self.search(key);
        if found {
            assert(self.entries@[i as int]@ == self@[i as int]);
            Some(self.entries[i].duplicate())
        } else {
            proof {
                if self.contents().contains_key(key@) {
                    let j = choose|j: int| 0 <= j < self@.len() && self@[j].key == key@;
                    if j < i {
                        assert(lex_lt(self@[j].key, key@));
                    } else {
                        assert(lex_lt(key@, self@[j].key));
                    }
                    lemma_lex_irreflexive(key@);
                }
            }
            None
        }
    }

    /// The entry of `key` if it is visible to a snapshot taken at `snapshot_ts`.
    pub fn get_at_snapshot(&self, key: &[u8], snapshot_ts: i64) -> (r: Option<Entry>)
        requires
            self.wf(),
        ensures
            match r {
                Some(e) => self.contents().contains_key(key@) && e@ == self.contents()[key@]
                    && e@.is_visible(snapshot_ts),
                None => !(self.contents().contains_key(key@) && self.contents()[key@].is_visible(snapshot_ts)),
            },
            r matches Some(e) ==> (e@.commit_ts matches Some(c) && c <= snapshot_ts),
            r is None <==> !(self.contents().contains_key(key@)
                && (self.contents()[key@].commit_ts matches Some(c) && c <= snapshot_ts)),
            self.contents().contains_key(key@) && self.contents()[key@].commit_ts is None ==> r is None,
    {
        match self.get(key) {
            Some(e) => {
                if e.is_visible(snapshot_ts) {
                    Some(e)
                } else {
                    None
                }
            },
            None => None,
        }
    }

    /// Commits the uncommitted entry of `key` at `commit_ts`; returns whether there was one.
    pub fn commit_entry(&mut self, key: &[u8], commit_ts: i64) -> (r: bool)
        requires
            old(self).wf(),
        ensures
            final(self).wf(),
            r == (old(self).contents().contains_key(key@) && old(self).contents()[key@].commit_ts is None),
            final(self).contents() == (if r {
                old(self).contents().insert(key@, EntryView { commit_ts: Some(commit_ts), ..old(self).contents()[key@] })
            } else {
                old(self).contents()
            }),
            final(self).byte_size() == old(self).byte_size(),
            final(self).next_sequence() == old(self).next_sequence(),
    {
        proof {
            self.lemma_wf();
        }
        let ghost s = self@;
        let (i, found) = self.search(key);
        if found {
            assert(self.entries@[i as int]@ == s[i as int]);
            if self.entries[i].commit_ts.is_none() {
                let mut e = self.entries[i].duplicate();
                e.commit_ts = Some(commit_ts);
                let ghost ev = e@;
                proof {
                    lemma_map_update(s, i as int, ev);
                    lemma_total_size_update(s, i as int, ev);
                }
                self.entries.set(i, e);
                assert(self@ =~= s.update(i as int, ev));
                return true;
            }
            false
        } else {
            proof {
                if self.contents().contains_key(key@) {
                    let j = choose|j: int| 0 <= j < s.len() && s[j].key == key@;
                    if j < i {
                        assert(lex_lt(s[j].key, key@));
                    } else {
                        assert(lex_lt(key@, s[j].key));
                    }
                    lemma_lex_irreflexive(key@);
                }
            }
            false
        }
    }

    /// Approximate size in bytes of the entries held.
    pub fn size(&self) -> (r: usize)
        ensures
            r == self.byte_size(),
    {
        self.size
    }

    /// Number of entries (one per key).
    pub fn entry_count(&self) -> (r: usize)
        ensures
            r == self@.len(),
    {
        self.entries.len()
    }

    /// Whether the memtable holds no entry.
    pub fn is_empty(&self) -> (r: bool)
        ensures
            r == (self@.len() == 0),
    {
        self.entry_count() == 0
    }

    /// The sequence number that the next write receives.
    pub fn current_sequence(&self) -> (r: u64)
        ensures
            r == self.next_sequence(),
    {
        self.sequence
    }

    /// Copies of all entries, in key order.
    pub fn entries(&self) -> (r: Vec<Entry>)
        requires
            self.wf(),
        ensures
            entry_views(r@) == self@,
            keys_sorted(entry_views(r@)),
    {
        let mut out: Vec<Entry> = Vec::new();
        let mut i: usize = 0;
        while i < self.entries.len()
            invariant
                i <= self.entries@.len(),
                self@ == entry_views(self.entries@),
                self@.len() == self.entries@.len(),
                entry_views(out@) == self@.subrange(0, i as int),
            decreases self.entries@.len() - i,
        {
            assert(self.entries@[i as int]@ == self@[i as int]);
            let e = self.entries[i].duplicate();
            let ghost old_out = out@;
            out.push(e);
            assert(entry_views(out@) =~= entry_views(old_out).push(e@));
            assert(self@.subrange(0, i + 1) =~= self@.subrange(0, i as int).push(self@[i as int]));
            i = i + 1;
        }
        assert(self@.subrange(0, i as int) =~= self@);
        out
    }

    /// An iterator over all entries in key order.
    pub fn iter(&self) -> (r: MemTableIterator)
        requires
            self.wf(),
        ensures
            r.remaining() == self@,
            keys_sorted(r.remaining()),
    {
        MemTableIterator::from_entries(self.entries())
    }

    /// An iterator over the entries whose keys lie in `[start, end)`, in key order.
    pub fn range(&self, start: &[u8], end: &[u8]) -> (r: MemTableIterator)
        requires
            self.wf(),
            lex_le(start@, end@),
        ensures
            r.remaining() == self@.filter(in_range(start@, end@)),
    {
        let mut out: Vec<Entry> = Vec::new();
        let mut i: usize = 0;
        while i < self.entries.len()
            invariant
                i <= self.entries@.len(),
                entry_views(out@) == self@.subrange(0, i as int).filter(in_range(start@, end@)),
            decreases self.entries@.len() - i,
        {
            let ghost before = self@.subrange(0, i as int);
            assert(self@.subrange(0, i + 1) =~= before.push(self@[i as int]));
            proof {
                before.lemma_filter_push(self@[i as int], in_range(start@, end@));
            }
            assert(self.entries@[i as int]@ == self@[i as int]);
            let k = self.entries[i].key.as_slice();
            let lo_ok = match compare_keys(start, k) {
                KeyOrder::Greater => false,
                _ => true,
            };
            if lo_ok && crate::keyorder::key_less(k, end) {
                let e = self.entries[i].duplicate();
                out.push(e);
                assert(entry_views(out@) =~= self@.subrange(0, i + 1).filter(in_range(start@, end@)));
            }
            i = i + 1;
        }
        assert(self@.subrange(0, i as int) =~= self@);
        MemTableIterator::from_entries(out)
    }

    /// Removes all entries and resets the size and sequence counters.
    pub fn clear(&mut self)
        ensures
            final(self).wf(),
            final(self)@ == Seq::<EntryView>::empty(),
            final(self).contents() == Map::<Seq<u8>, EntryView>::empty(),
            final(self).byte_size() == 0,
            final(self).next_sequence() == 0,
    {
        self.entries = Vec::new();
        self.size = 0;
        self.sequence = 0;
        assert(self@ =~= Seq::<EntryView>::empty());
    }
}

impl Default for MemTable {
    fn default() -> (r: Self)
        ensures
            r.wf(),
            r@ == Seq::<EntryView>::empty(),
            r.byte_size() == 0,
            r.next_sequence() == 0,
    {
        MemTable::new()
    }
}

/// Iterator over memtable entries.
pub struct MemTableIterator {
    entries: Vec<Entry>,
    index: usize,
}

impl MemTableIterator {
    /// The entries not yet returned, in order.
    pub closed spec fn remaining(&self) -> Seq<EntryView> {
        entry_views(self.entries@).skip(self.index as int)
    }

    #[verifier::type_invariant]
    closed spec fn wf(&self) -> bool {
        self.index <= self.entries@.len()
    }

    fn from_entries(entries: Vec<Entry>) -> (r: Self)
        ensures
            r.remaining() == entry_views(entries@),
    {
        let r = MemTableIterator { entries, index: 0 };
        assert(entry_views(r.entries@).skip(0) =~= entry_views(r.entries@));
        r
    }

    /// The next entry, or `None` when all have been returned.
    pub fn next(&mut self) -> (r: Option<Entry>)
        ensures
            match r {
                Some(e) => old(self).remaining().len() > 0 && e@ == old(self).remaining()[0]
                    && final(self).remaining() == old(self).remaining().drop_first(),
                None => old(self).remaining().len() == 0 && final(self).remaining() == old(self).remaining(),
            },
    {
        proof {
            use_type_invariant(&*self);
        }
        if self.index < self.entries.len() {
            assert(old(self).remaining()[0] == entry_views(self.entries@)[self.index as int]);
            let e = self.entries[self.index].duplicate();
            assert(entry_views(self.entries@)[self.index as int] == self.entries@[self.index as int]@);
            self.index = self.index + 1;
            assert(entry_views(self.entries@).skip(self.index as int) =~= entry_views(self.entries@).skip(
                self.index - 1,
            ).drop_first());
            Some(e)
        } else {
            None
        }
    }

    /// The entries not yet returned, in order.
    pub fn collect_remaining(self) -> (r: Vec<Entry>)
        ensures
            entry_views(r@) == self.remaining(),
    {
        let mut it = self;
        let mut out: Vec<Entry> = Vec::new();
        let ghost all = it.remaining();
        assert(all =~= entry_views(out@) + it.remaining());
        loop
            invariant
                all == entry_views(out@) + it.remaining(),
            ensures
                all == entry_views(out@) + it.remaining(),
                it.remaining().len() == 0,
            decreases it.remaining().len(),
        {
            let e = it.next();
            match e {
                Some(e) => {
                    out.push(e);
                    assert(entry_views(out@) + it.remaining() =~= all);
                },
                None => {
                    break;
                },
            }
        }
        assert(it.remaining() =~= Seq::<EntryView>::empty());
        assert(all =~= entry_views(out@));
        out
    }
}

} // verus!
