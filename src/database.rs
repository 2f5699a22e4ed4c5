//! The storage engine: an append-only log and the offset index over it.
use vstd::prelude::*;

use crate::codec::{
    byte_range, decode_record, encode_entry, entry_bytes, lemma_le_bytes_len,
    lemma_le_bytes_of_value, push_range, record_payload, u64_from_le, u64_le,
};
use crate::error::DbError;
use crate::index::OffsetIndex;
use crate::log::{
    apply_record, chain_end, declared_len, entry_end, has_dead_entry, has_entry, is_entry_start,
    lemma_append_entry, lemma_append_raw, lemma_record_at_prefix, lemma_scan_prefix,
    lemma_scan_starts, lemma_size_bound, lemma_size_none, lemma_size_remove, live_at, log_state,
    log_wf, payload_at, points_at, record_at, replay, scan, size_of_entries, values,
    entry_at, lemma_size_all, lemma_starts_append, live_entry, live_offsets,
};

verus! {

/// The offsets that the keys `keys[i..]` have in `idx`.
spec fn offsets_from(idx: Map<Seq<char>, nat>, keys: Seq<Seq<char>>, i: int) -> Set<nat> {
    Set::new(|o: nat| exists|j: int| i <= j < keys.len() && #[trigger] idx[keys[j]] == o)
}

/// A log-structured key-value store over the bytes of its log.
///
/// Every change appends one entry to the log; the offset index points each
/// live key at the entry that holds its value.
///
/// The engine keeps the whole log in memory, as a mirror of the file that
/// its host writes: memory use grows with the log until it is compacted.
pub struct EmbeddedDatabase {
    log: Vec<u8>,
    index: OffsetIndex,
}

impl View for EmbeddedDatabase {
    type V = Map<Seq<char>, Seq<char>>;

    /// The live key-value pairs: those that replaying the log yields.
    open spec fn view(&self) -> Map<Seq<char>, Seq<char>> {
        log_state(self.log_seq())
    }
}

impl EmbeddedDatabase {
    /// The bytes of the log.
    pub closed spec fn log_seq(&self) -> Seq<u8> {
        self.log@
    }

    /// The index is the one that replaying the log builds, and the whole log
    /// replays.
    pub closed spec fn wf(&self) -> bool {
        &&& self.index.wf()
        &&& log_wf(self.log@, self.index@)
    }

    /// The offset index, as a map from keys to log offsets.
    pub closed spec fn index_view(&self) -> Map<Seq<char>, nat> {
        self.index@
    }

    /// A well-formed database's log is well formed over its index.
    pub proof fn lemma_wf_log(&self)
        requires
            self.wf(),
        ensures
            log_wf(self.log_seq(), self.index_view()),
    {
    }

    proof fn lemma_view(&self)
        requires
            self.wf(),
        ensures
            self@ == values(self.log@, self.index@),
            replay(self.log_seq()) == Some((self.index@, self.log_seq().len())),
    {
    }

    /// A database that replays a well-formed log replays it to the end.
    pub proof fn lemma_replays(&self)
        requires
            self.wf(),
        ensures
            replay(self.log_seq()) matches Some((_, end)) && end == self.log_seq().len(),
    {
    }

    /// Opens the database whose log holds `bytes`, rebuilding the offset index
    /// by replaying it. A torn final entry, cut short by a crash in the
    /// middle of an append, is dropped from the log; a complete entry whose
    /// payload does not decode is an error.
    pub fn new(bytes: Vec<u8>) -> (r: Result<Self, DbError>)
        ensures
            match r {
                Ok(db) => {
                    &&& db.wf()
                    &&& replay(bytes@) matches Some((_, end))
                    &&& db.log_seq() == bytes@.subrange(0, end as int)
                    &&& db@ == log_state(bytes@)
                },
                Err(e) => replay(bytes@) is None && e == DbError::CorruptRecord,
            },
    {
        let ghost orig = bytes@;
        let mut log = bytes;
        let mut index = OffsetIndex::new();
        let len: usize = log.len();
        let mut pos: usize = 0;
        let mut done = false;
        while !done
            invariant
                index.wf(),
                log@ == orig,
                bytes@ == orig,
                len == orig.len(),
                pos <= len,
                replay(orig) == scan(orig, pos as nat, index@),
                done ==> scan(orig, pos as nat, index@) == Some((index@, pos as nat)),
                forall|k: Seq<char>| #[trigger]
                    index@.contains_key(k) ==> live_at(orig, index@[k], k) && entry_end(
                        orig,
                        index@[k],
                    ) <= pos,
            decreases len - pos, if done { 0int } else { 1int },
        {
            if len - pos < 8 {
                done = true;
            } else {
                let n = u64_from_le(log.as_slice(), pos);
                if n > (len - pos - 8) as u64 {
                    done = true;
                } else {
                    let end: usize = pos + 8 + n as usize;
                    assert(has_entry(orig, pos as nat));
                    assert(log@.subrange(pos + 8, end as int) == payload_at(orig, pos as nat));
                    let rec = decode_record(&log.as_slice()[pos + 8..end]);
                    match rec {
                        Err(e) => {
                            assert(scan(orig, pos as nat, index@) is None);
                            return Err(e);
                        },
                        Ok(rec) => {
                            let ghost before = index@;
                            if rec.is_tombstone() {
                                index.remove(rec.key.as_str());
                            } else {
                                index.insert(rec.key.as_str(), pos as u64);
                            }
                            assert(index@ == apply_record(before, rec.key@, rec.val@, pos as nat));
                            pos = end;
                        },
                    }
                }
            }
        }
        let ghost idx = index@;
        proof {
            lemma_scan_prefix(orig, 0, Map::empty());
            assert forall|k: Seq<char>| #[trigger] idx.contains_key(k) implies record_at(
                orig.subrange(0, pos as int),
                idx[k],
            ) == record_at(orig, idx[k]) by {
                assert(live_at(orig, idx[k], k));
                lemma_record_at_prefix(orig, pos as nat, idx[k]);
            }
            assert(values(orig.subrange(0, pos as int), idx) =~= values(orig, idx));
        }
        log.truncate(pos);
        proof {
            assert(log@ =~= orig.subrange(0, pos as int));
        }
        Ok(EmbeddedDatabase { log, index })
    }

    /// Appends the entry of `(key, val)` and updates the index as replay
    /// would.
    fn append_record(&mut self, key: &str, val: &str) -> (r: Result<(), DbError>)
        requires
            old(self).wf(),
        ensures
            final(self).wf(),
            r is Ok,
            final(self).log_seq() == old(self).log_seq() + entry_bytes(key@, val@),
            final(self)@ == if val@.len() == 0 {
                old(self)@.remove(key@)
            } else {
                old(self)@.insert(key@, val@)
            },
    {
        let mut entry = encode_entry(key, val)?;
        let entry_len: usize = entry.len();
        let off = self.log.len() as u64;
        proof {
            lemma_le_bytes_len(record_payload(key@, val@).len(), 8);
            assert(record_payload(key@, val@).len() < byte_range(8)) by {
                crate::codec::lemma_byte_range_8();
                assert(entry@.len() == 8 + record_payload(key@, val@).len());
            }
            self.lemma_view();
            lemma_append_entry(self.log@, self.index@, key@, val@);
        }
        self.log.append(&mut entry);
        if val.is_empty() {
            self.index.remove(key);
        } else {
            self.index.insert(key, off);
        }
        proof {
            self.lemma_view();
        }
        Ok(())
    }

    /// Stores `val` under `key`. The entry is appended to the log, then the
    /// key is pointed at it. An empty value is a tombstone: storing it
    /// deletes the key.
    pub fn set(&mut self, key: &str, val: &str) -> (r: Result<(), DbError>)
        requires
            old(self).wf(),
        ensures
            final(self).wf(),
            r is Ok,
            final(self).log_seq() == old(self).log_seq() + entry_bytes(key@, val@),
            final(self)@ == if val@.len() == 0 {
                old(self)@.remove(key@)
            } else {
                old(self)@.insert(key@, val@)
            },
    {
        self.append_record(key, val)
    }

    /// Deletes `key` by appending a tombstone for it. Deleting an absent key
    /// is no error: the tombstone is still written.
    pub fn delete(&mut self, key: &str) -> (r: Result<(), DbError>)
        requires
            old(self).wf(),
        ensures
            final(self).wf(),
            r is Ok,
            final(self).log_seq() == old(self).log_seq() + entry_bytes(key@, Seq::empty()),
            final(self)@ == old(self)@.remove(key@),
    {
        proof {
            reveal_strlit("");
        }
        self.append_record(key, "")
    }

    /// The current value of `key`, read from the entry that the index points
    /// at; `None` when the key is absent or deleted.
    pub fn get(&self, key: &str) -> (r: Result<Option<String>, DbError>)
        requires
            self.wf(),
        ensures
            r matches Ok(found) && match found {
                Some(v) => self@.contains_key(key@) && v@ == self@[key@],
                None => !self@.contains_key(key@),
            },
    {
        proof {
            self.lemma_view();
        }
        match self.index.get(key) {
            None => Ok(None),
            Some(off) => {
                let ghost p = off as nat;
                assert(live_at(self.log@, p, key@));
                assert(has_entry(self.log@, p));
                let len: usize = self.log.len();
                assert(off + 8 + declared_len(self.log@, p) <= len);
                let start = off as usize;
                let n = u64_from_le(self.log.as_slice(), start);
                let end: usize = start + 8 + n as usize;
                assert(self.log@.subrange(start + 8, end as int) == payload_at(self.log@, p));
                match decode_record(&self.log.as_slice()[start + 8..end]) {
                    Ok(rec) => Ok(Some(rec.val)),
                    Err(e) => Err(e),
                }
            },
        }
    }

    /// A database whose log holds one entry per live key, copied byte for
    /// byte from this one, with the index rebuilt over it. Overwritten
    /// values and tombstones are left behind.
    #[verifier::rlimit(60)]
    pub fn compacted(&self) -> (r: Self)
        requires
            self.wf(),
        ensures
            r.wf(),
            r@ == self@,
            r.log_seq().len() <= self.log_seq().len(),
            has_dead_entry(self.log_seq()) ==> r.log_seq().len() < self.log_seq().len(),
            !has_dead_entry(self.log_seq()) ==> r.log_seq().len() == self.log_seq().len(),
            !has_dead_entry(r.log_seq()),
            r.log_seq().len() == size_of_entries(self.log_seq(), 0, live_offsets(self.log_seq())),
            forall|k: Seq<char>| #[trigger]
                self@.contains_key(k) ==> live_entry(r.log_seq(), k) == live_entry(
                    self.log_seq(),
                    k,
                ),
    {
        let mut log: Vec<u8> = Vec::new();
        let mut index = OffsetIndex::new();
        let count = self.index.len();
        let len: usize = self.log.len();
        proof {
            self.index.lemma_keys();
            self.lemma_view();
            assert(log_wf(log@, index@)) by {
                assert(!has_entry(log@, 0));
            }
        }
        let ghost keys = self.index.key_seq();
        let ghost live = Set::new(|o: nat| points_at(self.index@, o));
        proof {
            lemma_scan_starts(self.log@, 0, Map::empty());
            assert(offsets_from(self.index@, keys, 0) =~= live) by {
                assert forall|o: nat| live.contains(o) implies offsets_from(self.index@, keys, 0).contains(o) by {
                    let k = choose|k: Seq<char>| #[trigger] self.index@.contains_key(k) && self.index@[k] == o;
                    assert(keys.contains(k));
                    let j = choose|j: int| 0 <= j < keys.len() && keys[j] == k;
                    assert(self.index@[keys[j]] == o);
                }
                assert forall|o: nat| offsets_from(self.index@, keys, 0).contains(o) implies live.contains(o) by {
                    let j = choose|j: int| 0 <= j < keys.len() && #[trigger] self.index@[keys[j]] == o;
                    assert(self.index@.contains_key(keys[j]));
                }
            }
        }
        let mut i: usize = 0;
        while i < count
            invariant
                self.wf(),
                count == self.index.spec_len(),
                len == self.log@.len(),
                keys == self.index.key_seq(),
                keys.len() == count,
                keys.no_duplicates(),
                forall|j: int| 0 <= j < count ==> self.index@.contains_key(#[trigger] keys[j]),
                i <= count,
                index.wf(),
                log_wf(log@, index@),
                index@.dom() == keys.subrange(0, i as int).to_set(),
                forall|k: Seq<char>| #[trigger]
                    index@.contains_key(k) ==> record_at(log@, index@[k]) == record_at(
                        self.log@,
                        self.index@[k],
                    ),
                forall|k: Seq<char>| #[trigger]
                    self.index@.contains_key(k) ==> is_entry_start(self.log@, 0, self.index@[k]),
                log@.len() + size_of_entries(self.log@, 0, offsets_from(self.index@, keys, i as int))
                    == size_of_entries(self.log@, 0, live),
                forall|o: nat| #[trigger] is_entry_start(log@, 0, o) ==> points_at(index@, o),
                forall|k: Seq<char>| #[trigger]
                    index@.contains_key(k) ==> entry_at(log@, index@[k]) == entry_at(
                        self.log@,
                        self.index@[k],
                    ),
            decreases count - i,
        {
            let (key, off) = self.index.entry_at(i);
            let ghost p = off as nat;
            let ghost old_log = log@;
            let ghost old_idx = index@;
            assert(live_at(self.log@, p, key@));
            assert(has_entry(self.log@, p));
            assert(off + 8 + declared_len(self.log@, p) <= len);
            let start = off as usize;
            let n = u64_from_le(self.log.as_slice(), start);
            let end: usize = start + 8 + n as usize;
            let new_off = log.len() as u64;
            let ghost payload = payload_at(self.log@, p);
            let ghost val = record_at(self.log@, p)->Some_0.1;
            proof {
                let prefix = self.log@.subrange(start as int, start + 8);
                lemma_le_bytes_of_value(prefix);
                assert(self.log@.subrange(start as int, end as int) =~= u64_le(payload.len())
                    + payload);
                crate::codec::lemma_byte_range_8();
                lemma_append_raw(old_log, old_idx, payload, key@, val);
                crate::log::lemma_scan_one_entry(old_log, payload, old_idx);
                let before = offsets_from(self.index@, keys, i as int);
                let after = offsets_from(self.index@, keys, i + 1);
                assert(self.index@[keys[i as int]] == p);
                assert(before.contains(p));
                assert(after =~= before.remove(p)) by {
                    assert forall|o: nat| after.contains(o) implies before.remove(p).contains(o) by {
                        let j = choose|j: int| i + 1 <= j < keys.len() && #[trigger] self.index@[keys[j]] == o;
                        assert(before.contains(o));
                        if o == p {
                            assert(live_at(self.log@, p, keys[j]));
                            assert(live_at(self.log@, p, keys[i as int]));
                        }
                    }
                    assert forall|o: nat| before.remove(p).contains(o) implies after.contains(o) by {
                        let j = choose|j: int| i <= j < keys.len() && #[trigger] self.index@[keys[j]] == o;
                        assert(j != i);
                    }
                }
                lemma_size_remove(self.log@, 0, before, p);
                assert(!old_idx.contains_key(key@)) by {
                    if old_idx.contains_key(key@) {
                        let j = choose|j: int| 0 <= j < i && keys[j] == key@;
                        assert(keys[j] == keys[i as int]);
                    }
                }
            }
            proof {
                lemma_scan_starts(old_log, 0, Map::empty());
                lemma_starts_append(old_log, self.log@.subrange(start as int, end as int), 0);
            }
            push_range(&mut log, self.log.as_slice(), start, end);
            index.insert(key.as_str(), new_off);
            i = i + 1;
            proof {
                let l2 = log@;
                assert(l2 == old_log + self.log@.subrange(start as int, end as int));
                assert(l2 =~= old_log + (u64_le(payload.len()) + payload));
                assert forall|o: nat| is_entry_start(l2, 0, o) implies points_at(index@, o) by {
                    if is_entry_start(old_log, 0, o) {
                        assert(points_at(old_idx, o));
                        let k = choose|k: Seq<char>| #[trigger] old_idx.contains_key(k) && old_idx[k] == o;
                        assert(index@.contains_key(k) && index@[k] == o);
                    } else {
                        assert(is_entry_start(l2, old_log.len(), o));
                        assert(entry_end(l2, old_log.len()) == l2.len());
                        assert(!has_entry(l2, l2.len()));
                        assert(!is_entry_start(l2, l2.len(), o));
                        assert(o == old_log.len());
                        assert(index@.contains_key(key@) && index@[key@] == o);
                    }
                }
                assert forall|k: Seq<char>| #[trigger] index@.contains_key(k) implies entry_at(l2, index@[k])
                    == entry_at(self.log@, self.index@[k]) by {
                    if k != key@ {
                        assert(old_idx.contains_key(k));
                        assert(live_at(old_log, old_idx[k], k));
                        crate::log::lemma_record_at_append(old_log, self.log@.subrange(start as int, end as int), old_idx[k]);
                        assert(entry_at(l2, old_idx[k]) =~= entry_at(old_log, old_idx[k]));
                    } else {
                        assert(entry_at(l2, index@[k]) =~= self.log@.subrange(start as int, end as int));
                    }
                }
                assert(index@.dom() =~= keys.subrange(0, i as int).to_set()) by {
                    let now = keys.subrange(0, i as int);
                    let before = keys.subrange(0, i - 1);
                    assert(now =~= before.push(keys[i - 1]));
                    assert forall|k: Seq<char>| now.to_set().contains(k) <==> (before.to_set().contains(k) || k == keys[i - 1]) by {
                        if now.contains(k) && k != keys[i - 1] {
                            let j = choose|j: int| 0 <= j < now.len() && now[j] == k;
                            assert(before[j] == k);
                        }
                        if before.contains(k) {
                            let j = choose|j: int| 0 <= j < before.len() && before[j] == k;
                            assert(now[j] == k);
                        }
                        if k == keys[i - 1] {
                            assert(now[i - 1] == k);
                        }
                    }
                }
                assert forall|k: Seq<char>| #[trigger]
                    index@.contains_key(k) implies record_at(log@, index@[k]) == record_at(
                    self.log@,
                    self.index@[k],
                ) by {
                    if k != key@ {
                        assert(old_idx.contains_key(k));
                    }
                }
            }
        }
        proof {
            assert(offsets_from(self.index@, keys, count as int) =~= Set::empty());
            lemma_size_none(self.log@, 0);
            assert(chain_end(self.log@, 0) == self.log@.len());
            if has_dead_entry(self.log@) {
                let o = choose|o: nat| is_entry_start(self.log@, 0, o) && !points_at(self.index@, o);
                lemma_size_bound(self.log@, 0, live, o);
            } else {
                lemma_size_bound(self.log@, 0, live, 0);
                lemma_size_all(self.log@, 0, live);
            }
            assert(live_offsets(self.log@) == live);
            assert(!has_dead_entry(log@));
            assert(keys.subrange(0, count as int) =~= keys);
            assert(index@.dom() =~= self.index@.dom());
            assert(values(log@, index@) =~= values(self.log@, self.index@));
        }
        EmbeddedDatabase { log, index }
    }

    /// Compacts the log in place: afterwards it holds exactly one entry per
    /// live key, a byte-for-byte copy of the key's current entry, and the
    /// database stays open over it with the same contents. A log without
    /// dead entries keeps its size.
    pub fn close(&mut self) -> (r: Result<(), DbError>)
        requires
            old(self).wf(),
        ensures
            r is Ok,
            final(self).wf(),
            final(self)@ == old(self)@,
            final(self).log_seq().len() <= old(self).log_seq().len(),
            has_dead_entry(old(self).log_seq()) ==> final(self).log_seq().len() < old(
                self,
            ).log_seq().len(),
            !has_dead_entry(old(self).log_seq()) ==> final(self).log_seq().len() == old(
                self,
            ).log_seq().len(),
            !has_dead_entry(final(self).log_seq()),
            final(self).log_seq().len() == size_of_entries(
                old(self).log_seq(),
                0,
                live_offsets(old(self).log_seq()),
            ),
            forall|k: Seq<char>| #[trigger]
                old(self)@.contains_key(k) ==> live_entry(final(self).log_seq(), k) == live_entry(
                    old(self).log_seq(),
                    k,
                ),
    {
        let c = self.compacted();
        *self = c;
        Ok(())
    }

    /// The bytes of the log, as they stand in the file.
    pub fn log_bytes(&self) -> (r: &[u8])
        ensures
            r@ == self.log_seq(),
    {
        self.log.as_slice()
    }
}

} // verus!
