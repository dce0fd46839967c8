use meta_store::log::{LogReject, RaftLog};
use meta_store::types::{Command, Entry, LogId, Payload};

fn put(k: &str, v: &str) -> Payload {
    Payload::Write(Command::Put { key: k.as_bytes().to_vec(), value: v.as_bytes().to_vec() })
}

fn entry(term: u64, index: u64) -> Entry {
    Entry { log_id: LogId { term, index }, payload: Payload::Noop }
}

fn terms(log: &RaftLog) -> Vec<u64> {
    let mut r = Vec::new();
    let mut i = log.base().index + 1;
    while i <= log.last_index() {
        r.push(log.term_at(i).unwrap());
        i += 1;
    }
    r
}

#[test]
fn append_and_get() {
    let mut log = RaftLog::new();
    assert_eq!(log.last_log_id(), LogId { term: 0, index: 0 });
    assert_eq!(log.append(1, put("a", "1")), LogId { term: 1, index: 1 });
    assert_eq!(log.append(2, Payload::Noop), LogId { term: 2, index: 2 });
    assert_eq!(log.last_log_id(), LogId { term: 2, index: 2 });
    assert_eq!(log.term_at(0), Some(0));
    assert_eq!(log.term_at(1), Some(1));
    assert_eq!(log.term_at(3), None);
    let e = log.get(1).unwrap();
    assert_eq!(e.log_id, LogId { term: 1, index: 1 });
    assert!(matches!(e.payload, Payload::Write(Command::Put { .. })));
    assert!(log.get(0).is_none());
    assert!(log.get(3).is_none());
}

#[test]
fn truncate_from_and_before() {
    let mut log = RaftLog::new();
    for t in [1u64, 1, 2, 3, 3] {
        log.append(t, Payload::Noop);
    }
    log.truncate_from(4);
    assert_eq!(terms(&log), vec![1, 1, 2]);
    log.truncate_from(10);
    assert_eq!(terms(&log), vec![1, 1, 2]);
    log.truncate_before(3);
    assert_eq!(log.base(), LogId { term: 1, index: 2 });
    assert_eq!(log.term_at(2), Some(1));
    assert_eq!(log.term_at(1), None);
    assert_eq!(terms(&log), vec![2]);
    assert!(log.get(2).is_none());
    assert_eq!(log.get(3).unwrap().log_id, LogId { term: 2, index: 3 });
}

#[test]
fn merge_accepts_and_replaces_conflicting_suffix() {
    let mut log = RaftLog::new();
    for t in [1u64, 1, 2, 2] {
        log.append(t, Payload::Noop);
    }
    // entries 3 and 4 of term 2 conflict with a leader of term 3
    let r = log.merge(LogId { term: 1, index: 2 }, vec![entry(3, 3)]);
    assert_eq!(r, Ok(()));
    assert_eq!(terms(&log), vec![1, 1, 3]);
}

#[test]
fn merge_keeps_longer_matching_log() {
    let mut log = RaftLog::new();
    for t in [1u64, 1, 1, 1] {
        log.append(t, Payload::Noop);
    }
    // a delayed batch that agrees with what is stored truncates nothing
    let r = log.merge(LogId { term: 1, index: 1 }, vec![entry(1, 2)]);
    assert_eq!(r, Ok(()));
    assert_eq!(terms(&log), vec![1, 1, 1, 1]);
}

#[test]
fn merge_twice_is_idempotent() {
    let mut log = RaftLog::new();
    log.append(1, Payload::Noop);
    log.append(1, Payload::Noop);
    let batch = || vec![entry(2, 2), entry(2, 3), entry(2, 4)];
    assert_eq!(log.merge(LogId { term: 1, index: 1 }, batch()), Ok(()));
    let once = terms(&log);
    assert_eq!(once, vec![1, 2, 2, 2]);
    assert_eq!(log.merge(LogId { term: 1, index: 1 }, batch()), Ok(()));
    assert_eq!(terms(&log), once);
    assert_eq!(log.last_log_id(), LogId { term: 2, index: 4 });
}

#[test]
fn merge_rejects() {
    let mut log = RaftLog::new();
    log.append(1, Payload::Noop);
    log.append(2, Payload::Noop);
    // prev beyond the last entry
    assert_eq!(
        log.merge(LogId { term: 2, index: 5 }, vec![]),
        Err(LogReject::Conflict { conflict_index: 3 })
    );
    // term mismatch at prev
    assert_eq!(
        log.merge(LogId { term: 3, index: 2 }, vec![]),
        Err(LogReject::Conflict { conflict_index: 2 })
    );
    // indexes that do not follow prev
    assert_eq!(log.merge(LogId { term: 2, index: 2 }, vec![entry(2, 4)]), Err(LogReject::Malformed));
    // prev covered by the snapshot
    log.truncate_before(3);
    assert_eq!(
        log.merge(LogId { term: 1, index: 1 }, vec![]),
        Err(LogReject::Conflict { conflict_index: 3 })
    );
    assert_eq!(terms(&log), Vec::<u64>::new());
    assert_eq!(log.last_log_id(), LogId { term: 2, index: 2 });
}
