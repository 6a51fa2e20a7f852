//! An iterator over key-value pairs held in memory.
use vstd::prelude::*;
use crate::keyorder::{lex_le, lex_lt, key_less};
use crate::kvt::error::KeyValueError;
use crate::lsm::memtable::copy_bytes;

verus! {

/// The views of a list of key-value pairs.
pub open spec fn pair_views(v: Seq<(Vec<u8>, Vec<u8>)>) -> Seq<(Seq<u8>, Seq<u8>)> {
    v.map_values(|p: (Vec<u8>, Vec<u8>)| (p.0@, p.1@))
}

/// The first position of `s` whose key is at or after `key`, or the length
/// of `s` when there is none.
pub open spec fn lower_bound(s: Seq<(Seq<u8>, Seq<u8>)>, key: Seq<u8>) -> int {
    if exists|i: int| #[trigger] is_lower_bound(s, key, i) {
        choose|i: int| #[trigger] is_lower_bound(s, key, i)
    } else {
        s.len() as int
    }
}

/// `i` is the first position of `s` whose key is at or after `key`.
pub open spec fn is_lower_bound(s: Seq<(Seq<u8>, Seq<u8>)>, key: Seq<u8>, i: int) -> bool {
    0 <= i < s.len() && lex_le(key, s[i].0) && forall|j: int| 0 <= j < i ==> !lex_le(key, s[j].0)
}

/// Walks a list of key-value pairs in order.
pub struct MemoryKeyValueIterator {
    items: Vec<(Vec<u8>, Vec<u8>)>,
    index: usize,
}

impl MemoryKeyValueIterator {
    /// The pairs walked.
    pub closed spec fn items(&self) -> Seq<(Seq<u8>, Seq<u8>)> {
        pair_views(self.items@)
    }

    /// The position of the next pair.
    pub closed spec fn index(&self) -> int {
        self.index as int
    }

    /// An iterator at the first of `items`.
    pub fn new(items: Vec<(Vec<u8>, Vec<u8>)>) -> (r: Self)
        ensures
            r.items() == pair_views(items@),
            r.index() == 0,
    {
        MemoryKeyValueIterator { items, index: 0 }
    }

    /// The pair at the position, moving past it; `None` at the end.
    pub fn next_entry(&mut self) -> (r: Option<(Vec<u8>, Vec<u8>)>)
        ensures
            final(self).items() == old(self).items(),
            old(self).index() < old(self).items().len() ==> {
                &&& r matches Some(p) && (p.0@, p.1@) == old(self).items()[old(self).index()]
                &&& final(self).index() == old(self).index() + 1
            },
            old(self).index() >= old(self).items().len() ==> r is None && final(self).index() == old(self).index(),
    {
        if self.index < self.items.len() {
            let (k, v) = &self.items[self.index];
            let item = (copy_bytes(k), copy_bytes(v));
            self.index = self.index + 1;
            Some(item)
        } else {
            None
        }
    }

    /// Moves to the first pair whose key is at or after `key`, or to the end
    /// when there is none.
    pub fn seek(&mut self, key: &[u8]) -> (r: Result<(), KeyValueError>)
        ensures
            r is Ok,
            final(self).items() == old(self).items(),
            final(self).index() == lower_bound(old(self).items(), key@),
    {
        let ghost s = pair_views(self.items@);
        let mut i: usize = 0;
        while i < self.items.len()
            invariant
                i <= self.items.len(),
                s == pair_views(self.items@),
                self.items@ == old(self).items@,
                forall|j: int| 0 <= j < i ==> !lex_le(key@, s[j].0),
            decreases self.items.len() - i,
        {
            let below = key_less(self.items[i].0.as_slice(), key);
            proof {
                crate::keyorder::lemma_lex_trichotomy(key@, s[i as int].0);
                crate::keyorder::lemma_lex_irreflexive(key@);
                if lex_lt(s[i as int].0, key@) {
                    crate::keyorder::lemma_lex_irreflexive(s[i as int].0);
                    if lex_lt(key@, s[i as int].0) {
                        crate::keyorder::lemma_lex_transitive(key@, s[i as int].0, key@);
                    }
                }
            }
            if !below {
                proof {
                    assert(is_lower_bound(s, key@, i as int));
                    let c = choose|c: int| #[trigger] is_lower_bound(s, key@, c);
                    assert(is_lower_bound(s, key@, c));
                    assert(!(c < i as int));
                    assert(!((i as int) < c));
                }
                self.index = i;
                return Ok(());
            }
            i = i + 1;
        }
        assert(forall|c: int| !#[trigger] is_lower_bound(s, key@, c));
        self.index = self.items.len();
        Ok(())
    }

    /// The key at the position, `None` at the end.
    pub fn position(&self) -> (r: Option<Vec<u8>>)
        ensures
            self.index() < self.items().len() ==> (r matches Some(k) && k@ == self.items()[self.index()].0),
            self.index() >= self.items().len() ==> r is None,
    {
        if self.index < self.items.len() {
            Some(copy_bytes(&self.items[self.index].0))
        } else {
            None
        }
    }

    /// Whether the position holds a pair.
    pub fn valid(&self) -> (r: bool)
        ensures
            r == (self.index() < self.items().len()),
    {
        self.index < self.items.len()
    }
}

} // verus!
