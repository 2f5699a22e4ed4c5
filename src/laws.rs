//! Laws that relate the engine's operations to one another. `set` and
//! `delete` append `entry_bytes` to the log, `get` reads the log's state, and
//! reopening replays the log; the laws are stated over those terms.
use vstd::prelude::*;

use crate::codec::{entry_bytes, lemma_byte_range_8, record_payload};
use crate::database::EmbeddedDatabase;
use crate::log::{apply_record, lemma_append_entry, log_state, log_wf, replay, values};

verus! {

/// Appending a record to a well-formed log keeps it well formed, and its
/// state changes as the record says.
proof fn lemma_append_state(log: Seq<u8>, idx: Map<Seq<char>, nat>, key: Seq<char>, val: Seq<char>)
    requires
        log_wf(log, idx),
        record_payload(key, val).len() <= u64::MAX,
    ensures
        log_wf(log + entry_bytes(key, val), apply_record(idx, key, val, log.len())),
        log_state(log) == values(log, idx),
        log_state(log + entry_bytes(key, val)) == if val.len() == 0 {
            log_state(log).remove(key)
        } else {
            log_state(log).insert(key, val)
        },
{
    lemma_byte_range_8();
    lemma_append_entry(log, idx, key, val);
}

/// Reopening a database's log yields the database's contents: the log
/// replays to its very end, so nothing is cut, and its state is the
/// database's view.
pub proof fn lemma_reopen(db: EmbeddedDatabase)
    requires
        db.wf(),
    ensures
        replay(db.log_seq()) matches Some((_, end)) && end == db.log_seq().len(),
        log_state(db.log_seq()) == db@,
{
    db.lemma_replays();
}

/// Storing a non-empty value and then reading the key gives that value, in
/// the open database and after reopening its log.
pub proof fn lemma_set_then_get(db: EmbeddedDatabase, key: Seq<char>, val: Seq<char>)
    requires
        db.wf(),
        val.len() > 0,
        record_payload(key, val).len() <= u64::MAX,
    ensures
        ({
            let log = db.log_seq() + entry_bytes(key, val);
            &&& replay(log) matches Some((_, end)) && end == log.len()
            &&& log_state(log).contains_key(key)
            &&& log_state(log)[key] == val
        }),
{
    let idx = db.index_view();
    db.lemma_wf_log();
    lemma_append_state(db.log_seq(), idx, key, val);
}

/// Deleting a key and then reading it finds nothing, in the open database
/// and after reopening its log.
pub proof fn lemma_delete_then_get(db: EmbeddedDatabase, key: Seq<char>)
    requires
        db.wf(),
        record_payload(key, Seq::empty()).len() <= u64::MAX,
    ensures
        ({
            let log = db.log_seq() + entry_bytes(key, Seq::empty());
            &&& replay(log) matches Some((_, end)) && end == log.len()
            &&& !log_state(log).contains_key(key)
        }),
{
    let idx = db.index_view();
    db.lemma_wf_log();
    lemma_append_state(db.log_seq(), idx, key, Seq::empty());
}

/// Of two values stored in turn under one key, reading the key gives the
/// second, in the open database and after reopening its log.
pub proof fn lemma_last_write_wins(
    db: EmbeddedDatabase,
    key: Seq<char>,
    v1: Seq<char>,
    v2: Seq<char>,
)
    requires
        db.wf(),
        v2.len() > 0,
        record_payload(key, v1).len() <= u64::MAX,
        record_payload(key, v2).len() <= u64::MAX,
    ensures
        ({
            let log = db.log_seq() + entry_bytes(key, v1) + entry_bytes(key, v2);
            &&& replay(log) matches Some((_, end)) && end == log.len()
            &&& log_state(log).contains_key(key)
            &&& log_state(log)[key] == v2
        }),
{
    let idx = db.index_view();
    db.lemma_wf_log();
    let log1 = db.log_seq() + entry_bytes(key, v1);
    lemma_append_state(db.log_seq(), idx, key, v1);
    lemma_append_state(log1, apply_record(idx, key, v1, db.log_seq().len()), key, v2);
}

} // verus!
