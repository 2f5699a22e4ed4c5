//! The log's structure: how a byte sequence splits into entries, and what
//! replaying it leaves in the offset index.
use vstd::prelude::*;

use crate::codec::{
    byte_range, decode_payload, entry_bytes, lemma_decode_record_payload, lemma_le_bytes_len,
    lemma_le_round_trip, le_value, record_payload, u64_le,
};

verus! {

/// The payload length declared by the 8 bytes at `pos`.
pub open spec fn declared_len(log: Seq<u8>, pos: nat) -> nat {
    le_value(log.subrange(pos as int, pos + 8 as int))
}

/// Whether a complete entry, prefix and payload, starts at `pos`.
pub open spec fn has_entry(log: Seq<u8>, pos: nat) -> bool {
    pos + 8 <= log.len() && pos + 8 + declared_len(log, pos) <= log.len()
}

/// Where the entry that starts at `pos` ends.
pub open spec fn entry_end(log: Seq<u8>, pos: nat) -> nat {
    pos + 8 + declared_len(log, pos)
}

/// The payload of the entry at `pos`.
pub open spec fn payload_at(log: Seq<u8>, pos: nat) -> Seq<u8> {
    log.subrange(pos + 8 as int, entry_end(log, pos) as int)
}

/// The record held by the entry at `pos`, if a complete entry starts there
/// and its payload decodes.
pub open spec fn record_at(log: Seq<u8>, pos: nat) -> Option<(Seq<char>, Seq<char>)> {
    if has_entry(log, pos) {
        decode_payload(payload_at(log, pos))
    } else {
        None
    }
}

/// The index after reading the record `(key, val)` at `pos`: a tombstone
/// removes the key, any other record points the key at `pos`.
pub open spec fn apply_record(
    idx: Map<Seq<char>, nat>,
    key: Seq<char>,
    val: Seq<char>,
    pos: nat,
) -> Map<Seq<char>, nat> {
    if val.len() == 0 {
        idx.remove(key)
    } else {
        idx.insert(key, pos)
    }
}

/// Replays the log from `pos` with the index `idx`. Scanning stops where no
/// complete entry starts: at the end, or before a torn final entry, which is
/// dropped. The result is the index and the position where scanning
/// stopped, or `None` when a complete entry's payload does not decode.
pub open spec fn scan(log: Seq<u8>, pos: nat, idx: Map<Seq<char>, nat>) -> Option<
    (Map<Seq<char>, nat>, nat),
>
    decreases log.len() - pos,
{
    if !has_entry(log, pos) {
        Some((idx, pos))
    } else {
        match decode_payload(payload_at(log, pos)) {
            None => None,
            Some((key, val)) => scan(log, entry_end(log, pos), apply_record(idx, key, val, pos)),
        }
    }
}

/// Replays the whole log into an offset index.
pub open spec fn replay(log: Seq<u8>) -> Option<(Map<Seq<char>, nat>, nat)> {
    scan(log, 0, Map::empty())
}

/// The value of each key of `idx`, read from the record it points at.
pub open spec fn values(log: Seq<u8>, idx: Map<Seq<char>, nat>) -> Map<Seq<char>, Seq<char>> {
    Map::new(
        |k: Seq<char>| idx.contains_key(k),
        |k: Seq<char>|
            match record_at(log, idx[k]) {
                Some((_, v)) => v,
                None => Seq::empty(),
            },
    )
}

/// The key-value pairs that a log holds: the live keys after replay, each
/// with its latest value. A log that does not replay holds nothing.
pub open spec fn log_state(log: Seq<u8>) -> Map<Seq<char>, Seq<char>> {
    match replay(log) {
        Some((idx, _)) => values(log, idx),
        None => Map::empty(),
    }
}

/// The entry at `pos` holds a live record of `key`.
pub open spec fn live_at(log: Seq<u8>, pos: nat, key: Seq<char>) -> bool {
    match record_at(log, pos) {
        Some((k, v)) => k == key && v.len() > 0,
        None => false,
    }
}

/// A log that replays to its very end into `idx`, each key of which points
/// at a live record of that key.
pub open spec fn log_wf(log: Seq<u8>, idx: Map<Seq<char>, nat>) -> bool {
    &&& replay(log) == Some((idx, log.len()))
    &&& forall|k: Seq<char>| #[trigger] idx.contains_key(k) ==> live_at(log, idx[k], k)
}

/// Where the chain of complete entries that starts at `pos` ends.
pub open spec fn chain_end(log: Seq<u8>, pos: nat) -> nat
    decreases log.len() - pos,
{
    if !has_entry(log, pos) {
        pos
    } else {
        chain_end(log, entry_end(log, pos))
    }
}

/// Whether an entry of the chain that starts at `pos` starts at `o`.
pub open spec fn is_entry_start(log: Seq<u8>, pos: nat, o: nat) -> bool
    decreases log.len() - pos,
{
    has_entry(log, pos) && (o == pos || is_entry_start(log, entry_end(log, pos), o))
}

/// The total size of the entries of the chain from `pos` that start at a
/// position in `s`.
pub open spec fn size_of_entries(log: Seq<u8>, pos: nat, s: Set<nat>) -> nat
    decreases log.len() - pos,
{
    if !has_entry(log, pos) {
        0
    } else {
        (if s.contains(pos) {
            (entry_end(log, pos) - pos) as nat
        } else {
            0
        }) + size_of_entries(log, entry_end(log, pos), s)
    }
}

/// Whether some key of `idx` points at `o`.
pub open spec fn points_at(idx: Map<Seq<char>, nat>, o: nat) -> bool {
    exists|k: Seq<char>| #[trigger] idx.contains_key(k) && idx[k] == o
}

/// Whether the log holds an entry that no live key points at after replay:
/// an overwritten value or a tombstone.
pub open spec fn has_dead_entry(log: Seq<u8>) -> bool {
    match replay(log) {
        Some((idx, _)) => exists|o: nat| is_entry_start(log, 0, o) && !points_at(idx, o),
        None => false,
    }
}

/// The offsets that live keys point at after replay.
pub open spec fn live_offsets(log: Seq<u8>) -> Set<nat> {
    match replay(log) {
        Some((idx, _)) => Set::new(|o: nat| points_at(idx, o)),
        None => Set::empty(),
    }
}

/// The whole entry, length prefix and payload, that starts at `o`.
pub open spec fn entry_at(log: Seq<u8>, o: nat) -> Seq<u8> {
    log.subrange(o as int, entry_end(log, o) as int)
}

/// The entry that holds the current value of `key` after replay.
pub open spec fn live_entry(log: Seq<u8>, key: Seq<char>) -> Seq<u8> {
    match replay(log) {
        Some((idx, _)) => entry_at(log, idx[key]),
        None => Seq::empty(),
    }
}

/// When every entry of a chain is picked, they take the whole chain.
pub proof fn lemma_size_all(log: Seq<u8>, pos: nat, s: Set<nat>)
    requires
        forall|o: nat| is_entry_start(log, pos, o) ==> s.contains(o),
    ensures
        size_of_entries(log, pos, s) == chain_end(log, pos) - pos,
    decreases log.len() - pos,
{
    if has_entry(log, pos) {
        let next = entry_end(log, pos);
        assert(is_entry_start(log, pos, pos));
        assert forall|o: nat| is_entry_start(log, next, o) implies s.contains(o) by {
            assert(is_entry_start(log, pos, o));
        }
        lemma_size_all(log, next, s);
    }
}

/// Entries of a log whose chain reaches its end, with bytes appended: each
/// is an entry of the log, or of the appended chain.
pub proof fn lemma_starts_append(log: Seq<u8>, extra: Seq<u8>, pos: nat)
    requires
        pos <= log.len(),
        chain_end(log, pos) == log.len(),
    ensures
        forall|o: nat|
            #[trigger] is_entry_start(log + extra, pos, o) ==> is_entry_start(log, pos, o) || is_entry_start(
                log + extra,
                log.len(),
                o,
            ),
    decreases log.len() - pos,
{
    if has_entry(log, pos) {
        let next = entry_end(log, pos);
        lemma_record_at_append(log, extra, pos);
        lemma_starts_append(log, extra, next);
        assert forall|o: nat| is_entry_start(log + extra, pos, o) implies is_entry_start(log, pos, o)
            || is_entry_start(log + extra, log.len(), o) by {
            if o != pos {
                assert(entry_end(log + extra, pos) == next);
                assert(is_entry_start(log + extra, next, o));
                if is_entry_start(log, next, o) {
                    assert(is_entry_start(log, pos, o));
                }
            }
        }
    } else {
        assert(pos == log.len());
    }
}

/// The entries picked from a chain take no more room than the chain, and at
/// least 8 bytes less when one entry `o` of it is left out.
pub proof fn lemma_size_bound(log: Seq<u8>, pos: nat, s: Set<nat>, o: nat)
    ensures
        pos <= chain_end(log, pos),
        size_of_entries(log, pos, s) <= chain_end(log, pos) - pos,
        is_entry_start(log, pos, o) && !s.contains(o) ==> size_of_entries(log, pos, s) + 8
            <= chain_end(log, pos) - pos,
    decreases log.len() - pos,
{
    if has_entry(log, pos) {
        lemma_size_bound(log, entry_end(log, pos), s, o);
    }
}

/// Only the positions from `pos` on count.
pub proof fn lemma_size_agree(log: Seq<u8>, pos: nat, s1: Set<nat>, s2: Set<nat>)
    requires
        forall|o: nat| o >= pos ==> (s1.contains(o) <==> s2.contains(o)),
    ensures
        size_of_entries(log, pos, s1) == size_of_entries(log, pos, s2),
    decreases log.len() - pos,
{
    if has_entry(log, pos) {
        lemma_size_agree(log, entry_end(log, pos), s1, s2);
    }
}

/// No entries picked, no room taken.
pub proof fn lemma_size_none(log: Seq<u8>, pos: nat)
    ensures
        size_of_entries(log, pos, Set::empty()) == 0,
    decreases log.len() - pos,
{
    if has_entry(log, pos) {
        lemma_size_none(log, entry_end(log, pos));
    }
}

/// Leaving out one picked entry takes its size off the total.
pub proof fn lemma_size_remove(log: Seq<u8>, pos: nat, s: Set<nat>, o: nat)
    requires
        s.contains(o),
        is_entry_start(log, pos, o),
    ensures
        size_of_entries(log, pos, s) == size_of_entries(log, pos, s.remove(o)) + (entry_end(log, o)
            - o),
    decreases log.len() - pos,
{
    let next = entry_end(log, pos);
    if o == pos {
        lemma_size_agree(log, next, s, s.remove(o));
    } else {
        lemma_size_remove(log, next, s, o);
    }
}

/// A scan stops where the chain of entries ends, and every offset it puts in
/// the index is either one it started with or the start of an entry.
pub proof fn lemma_scan_starts(log: Seq<u8>, pos: nat, idx: Map<Seq<char>, nat>)
    ensures
        scan(log, pos, idx) matches Some((m, e)) ==> {
            &&& e == chain_end(log, pos)
            &&& forall|k: Seq<char>| #[trigger]
                m.contains_key(k) ==> (idx.contains_key(k) && m[k] == idx[k]) || is_entry_start(
                    log,
                    pos,
                    m[k],
                )
        },
    decreases log.len() - pos,
{
    if has_entry(log, pos) {
        match decode_payload(payload_at(log, pos)) {
            None => {},
            Some((key, val)) => {
                let idx2 = apply_record(idx, key, val, pos);
                let next = entry_end(log, pos);
                lemma_scan_starts(log, next, idx2);
                if let Some((m, e)) = scan(log, pos, idx) {
                    assert forall|k: Seq<char>| #[trigger] m.contains_key(k) implies (idx.contains_key(k)
                        && m[k] == idx[k]) || is_entry_start(log, pos, m[k]) by {
                        if idx2.contains_key(k) && m[k] == idx2[k] {
                            if k == key {
                                assert(m[k] == pos);
                            }
                        }
                    }
                }
            },
        }
    }
}

/// Bytes added after a complete entry do not change it.
pub proof fn lemma_record_at_append(log: Seq<u8>, extra: Seq<u8>, pos: nat)
    requires
        has_entry(log, pos),
    ensures
        has_entry(log + extra, pos),
        entry_end(log + extra, pos) == entry_end(log, pos),
        payload_at(log + extra, pos) == payload_at(log, pos),
        record_at(log + extra, pos) == record_at(log, pos),
{
    let l2 = log + extra;
    assert(l2.subrange(pos as int, pos + 8 as int) =~= log.subrange(pos as int, pos + 8 as int));
    assert(payload_at(l2, pos) =~= payload_at(log, pos));
}

/// Cutting the log after a complete entry does not change it.
pub proof fn lemma_record_at_prefix(log: Seq<u8>, cut: nat, pos: nat)
    requires
        has_entry(log, pos),
        entry_end(log, pos) <= cut <= log.len(),
    ensures
        has_entry(log.subrange(0, cut as int), pos),
        entry_end(log.subrange(0, cut as int), pos) == entry_end(log, pos),
        record_at(log.subrange(0, cut as int), pos) == record_at(log, pos),
{
    let l2 = log.subrange(0, cut as int);
    assert(l2.subrange(pos as int, pos + 8 as int) =~= log.subrange(pos as int, pos + 8 as int));
    assert(payload_at(l2, pos) =~= payload_at(log, pos));
}

/// A log that replays up to its end goes on replaying whatever is appended.
pub proof fn lemma_scan_append(log: Seq<u8>, extra: Seq<u8>, pos: nat, idx: Map<Seq<char>, nat>)
    requires
        pos <= log.len(),
        scan(log, pos, idx) matches Some((_, end)) && end == log.len(),
    ensures
        scan(log + extra, pos, idx) == scan(log + extra, log.len(), scan(log, pos, idx)->Some_0.0),
    decreases log.len() - pos,
{
    if has_entry(log, pos) {
        lemma_record_at_append(log, extra, pos);
        let (key, val) = decode_payload(payload_at(log, pos))->Some_0;
        lemma_scan_append(log, extra, entry_end(log, pos), apply_record(idx, key, val, pos));
    }
}

/// Replaying the log cut where replay stopped gives the same result.
pub proof fn lemma_scan_prefix(log: Seq<u8>, pos: nat, idx: Map<Seq<char>, nat>)
    requires
        pos <= log.len(),
        scan(log, pos, idx) matches Some((_, end)) && pos <= end,
    ensures
        scan(log.subrange(0, scan(log, pos, idx)->Some_0.1 as int), pos, idx) == scan(log, pos, idx),
    decreases log.len() - pos,
{
    let end = scan(log, pos, idx)->Some_0.1;
    let l2 = log.subrange(0, end as int);
    if has_entry(log, pos) {
        let (key, val) = decode_payload(payload_at(log, pos))->Some_0;
        let next = entry_end(log, pos);
        lemma_scan_end_after(log, next, apply_record(idx, key, val, pos));
        lemma_record_at_prefix(log, end, pos);
        assert(payload_at(l2, pos) =~= payload_at(log, pos));
        lemma_scan_prefix(log, next, apply_record(idx, key, val, pos));
    } else {
        assert(end == pos);
    }
}

/// Where a scan stops lies at or after where it started, within the log.
pub proof fn lemma_scan_end_after(log: Seq<u8>, pos: nat, idx: Map<Seq<char>, nat>)
    requires
        pos <= log.len(),
    ensures
        scan(log, pos, idx) matches Some((_, end)) ==> pos <= end <= log.len(),
    decreases log.len() - pos,
{
    if has_entry(log, pos) {
        match decode_payload(payload_at(log, pos)) {
            None => {},
            Some((key, val)) => {
                lemma_scan_end_after(log, entry_end(log, pos), apply_record(idx, key, val, pos));
            },
        }
    }
}

/// Scanning one appended entry, `payload` framed by its length, at the end
/// of a log.
pub proof fn lemma_scan_one_entry(log: Seq<u8>, payload: Seq<u8>, idx: Map<Seq<char>, nat>)
    requires
        payload.len() < byte_range(8),
    ensures
        ({
            let l2 = log + (u64_le(payload.len()) + payload);
            &&& has_entry(l2, log.len())
            &&& entry_end(l2, log.len()) == l2.len()
            &&& payload_at(l2, log.len()) == payload
            &&& scan(l2, log.len(), idx) == match decode_payload(payload) {
                None => None,
                Some((key, val)) => Some((apply_record(idx, key, val, log.len()), l2.len())),
            }
        }),
{
    let l2 = log + (u64_le(payload.len()) + payload);
    let p = log.len();
    lemma_le_bytes_len(payload.len(), 8);
    lemma_le_round_trip(payload.len(), 8);
    assert(l2.subrange(p as int, p + 8 as int) =~= u64_le(payload.len()));
    assert(payload_at(l2, p) =~= payload);
    assert(has_entry(l2, p));
    assert(entry_end(l2, p) == l2.len());
    match decode_payload(payload) {
        None => {},
        Some((key, val)) => {
            let idx2 = apply_record(idx, key, val, p);
            assert(!has_entry(l2, l2.len()));
            assert(scan(l2, l2.len(), idx2) == Some((idx2, l2.len())));
        },
    }
}

/// Appending the entry of `(key, val)` to a well-formed log: the log stays
/// well formed, with the index updated as replay would update it.
pub proof fn lemma_append_entry(log: Seq<u8>, idx: Map<Seq<char>, nat>, key: Seq<char>, val: Seq<char>)
    requires
        log_wf(log, idx),
        record_payload(key, val).len() < byte_range(8),
    ensures
        log_wf(log + entry_bytes(key, val), apply_record(idx, key, val, log.len())),
        values(log + entry_bytes(key, val), apply_record(idx, key, val, log.len())) == if val.len()
            == 0 {
            values(log, idx).remove(key)
        } else {
            values(log, idx).insert(key, val)
        },
{
    let payload = record_payload(key, val);
    lemma_decode_record_payload(key, val, Seq::empty());
    assert(payload + Seq::<u8>::empty() =~= payload);
    lemma_append_raw(log, idx, payload, key, val);
}

/// Appending an entry whose payload decodes to `(key, val)` to a
/// well-formed log.
pub proof fn lemma_append_raw(
    log: Seq<u8>,
    idx: Map<Seq<char>, nat>,
    payload: Seq<u8>,
    key: Seq<char>,
    val: Seq<char>,
)
    requires
        log_wf(log, idx),
        payload.len() < byte_range(8),
        decode_payload(payload) == Some((key, val)),
    ensures
        ({
            let l2 = log + (u64_le(payload.len()) + payload);
            let idx2 = apply_record(idx, key, val, log.len());
            &&& log_wf(l2, idx2)
            &&& values(l2, idx2) == if val.len() == 0 {
                values(log, idx).remove(key)
            } else {
                values(log, idx).insert(key, val)
            }
            &&& forall|k: Seq<char>| #[trigger] idx.contains_key(k) ==> record_at(l2, idx[k]) == record_at(log, idx[k])
        }),
{
    let extra = u64_le(payload.len()) + payload;
    let l2 = log + extra;
    let idx2 = apply_record(idx, key, val, log.len());
    lemma_scan_append(log, extra, 0, Map::empty());
    lemma_scan_one_entry(log, payload, idx);
    assert forall|k: Seq<char>| #[trigger] idx.contains_key(k) implies record_at(l2, idx[k]) == record_at(log, idx[k]) by {
        assert(live_at(log, idx[k], k));
        lemma_record_at_append(log, extra, idx[k]);
    }
    assert forall|k: Seq<char>| #[trigger] idx2.contains_key(k) implies live_at(l2, idx2[k], k) by {
        if k != key {
            assert(idx.contains_key(k));
            assert(live_at(log, idx[k], k));
        }
    }
    let want = if val.len() == 0 {
        values(log, idx).remove(key)
    } else {
        values(log, idx).insert(key, val)
    };
    assert(values(l2, idx2) =~= want);
}

} // verus!
