use meta_store::state_machine::{Applied, StateMachine};
use meta_store::types::{Command, Entry, LogId, Payload};

fn apply(sm: &mut StateMachine, c: Command) -> Applied {
    let index = sm.last_applied().index + 1;
    sm.apply(&Entry { log_id: LogId { term: 1, index }, payload: Payload::Write(c) })
}

fn put(k: &str, v: &str) -> Command {
    Command::Put { key: k.as_bytes().to_vec(), value: v.as_bytes().to_vec() }
}

fn cas(k: &str, version: u64, v: &str) -> Command {
    Command::CompareAndSwap { key: k.as_bytes().to_vec(), expected_version: version, value: v.as_bytes().to_vec() }
}

fn seq_next(name: &str, step: u64) -> Command {
    Command::SequenceNext { name: name.as_bytes().to_vec(), step }
}

#[test]
fn set_then_compare_and_swap() {
    let mut sm = StateMachine::new();
    assert_eq!(apply(&mut sm, put("k", "v1")), Applied::Written { version: 1 });
    assert_eq!(apply(&mut sm, cas("k", 1, "v2")), Applied::Written { version: 2 });
    assert_eq!(sm.get(&b"k".to_vec()), Some(b"v2".to_vec()));
    assert_eq!(sm.version(&b"k".to_vec()), 2);
    assert_eq!(sm.last_applied(), LogId { term: 1, index: 2 });
}

#[test]
fn concurrent_compare_and_swap_one_wins() {
    let mut sm = StateMachine::new();
    apply(&mut sm, put("k", "v1"));
    // both clients read version 1; the log orders their writes
    assert_eq!(apply(&mut sm, cas("k", 1, "a")), Applied::Written { version: 2 });
    assert_eq!(apply(&mut sm, cas("k", 1, "b")), Applied::VersionConflict { current: 2 });
    assert_eq!(sm.get(&b"k".to_vec()), Some(b"a".to_vec()));
}

#[test]
fn compare_and_swap_on_missing_key() {
    let mut sm = StateMachine::new();
    assert_eq!(apply(&mut sm, cas("x", 1, "a")), Applied::VersionConflict { current: 0 });
    assert_eq!(sm.get(&b"x".to_vec()), None);
    assert_eq!(apply(&mut sm, cas("x", 0, "a")), Applied::Written { version: 1 });
    assert_eq!(sm.get(&b"x".to_vec()), Some(b"a".to_vec()));
}

#[test]
fn versions_count_writes_per_key() {
    let mut sm = StateMachine::new();
    assert_eq!(apply(&mut sm, put("a", "1")), Applied::Written { version: 1 });
    assert_eq!(apply(&mut sm, put("b", "1")), Applied::Written { version: 1 });
    assert_eq!(apply(&mut sm, put("a", "2")), Applied::Written { version: 2 });
    assert_eq!(apply(&mut sm, put("a", "3")), Applied::Written { version: 3 });
    assert_eq!(sm.version(&b"b".to_vec()), 1);
    assert_eq!(sm.version(&b"c".to_vec()), 0);
    assert_eq!(sm.get(&b"a".to_vec()), Some(b"3".to_vec()));
}

#[test]
fn sequence_next_hundred_values() {
    let mut sm = StateMachine::new();
    let mut seen = Vec::new();
    for _ in 0..100 {
        match apply(&mut sm, seq_next("seq1", 1)) {
            Applied::Sequence { value } => seen.push(value),
            other => panic!("unexpected {:?}", other),
        }
    }
    let expected: Vec<u64> = (1..=100).collect();
    assert_eq!(seen, expected);
    assert_eq!(sm.counter(&b"seq1".to_vec()), 100);
    assert_eq!(sm.counter(&b"other".to_vec()), 0);
}

#[test]
fn sequence_step_and_overflow() {
    let mut sm = StateMachine::new();
    assert_eq!(apply(&mut sm, seq_next("s", 5)), Applied::Sequence { value: 5 });
    assert_eq!(apply(&mut sm, seq_next("s", 5)), Applied::Sequence { value: 10 });
    assert_eq!(apply(&mut sm, seq_next("s", u64::MAX)), Applied::Overflow);
    assert_eq!(sm.counter(&b"s".to_vec()), 10);
}

#[test]
fn other_entries_only_advance_last_applied() {
    let mut sm = StateMachine::new();
    let r = sm.apply(&Entry { log_id: LogId { term: 3, index: 1 }, payload: Payload::Noop });
    assert_eq!(r, Applied::Nothing);
    assert_eq!(sm.last_applied(), LogId { term: 3, index: 1 });
    assert_eq!(sm.get(&b"k".to_vec()), None);
}

#[test]
fn copy_keeps_image() {
    let mut sm = StateMachine::new();
    apply(&mut sm, put("k", "v"));
    apply(&mut sm, seq_next("s", 2));
    let c = sm.copy();
    assert_eq!(c.get(&b"k".to_vec()), Some(b"v".to_vec()));
    assert_eq!(c.counter(&b"s".to_vec()), 2);
    assert_eq!(c.last_applied(), sm.last_applied());
}
