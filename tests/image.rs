use meta_store::state_machine::StateMachine;
use meta_store::types::{Command, Entry, LogId, Payload};

fn sample() -> StateMachine {
    let mut sm = StateMachine::new();
    let cmds = vec![
        Command::Put { key: b"k".to_vec(), value: b"v1".to_vec() },
        Command::Put { key: b"k".to_vec(), value: b"v2".to_vec() },
        Command::Put { key: b"other".to_vec(), value: vec![] },
        Command::SequenceNext { name: b"seq".to_vec(), step: 7 },
    ];
    for (i, c) in cmds.into_iter().enumerate() {
        sm.apply(&Entry { log_id: LogId { term: 2, index: i as u64 + 1 }, payload: Payload::Write(c) });
    }
    sm
}

#[test]
fn empty_image_bytes() {
    let sm = StateMachine::new();
    assert_eq!(sm.encode(), vec![0u8; 32]);
}

#[test]
fn image_layout() {
    let mut sm = StateMachine::new();
    sm.apply(&Entry {
        log_id: LogId { term: 1, index: 1 },
        payload: Payload::Write(Command::Put { key: b"a".to_vec(), value: b"b".to_vec() }),
    });
    let mut expected = Vec::new();
    expected.extend_from_slice(&1u64.to_le_bytes());
    expected.extend_from_slice(&1u64.to_le_bytes());
    expected.extend_from_slice(&1u64.to_le_bytes());
    expected.extend_from_slice(&1u64.to_le_bytes());
    expected.push(b'a');
    expected.extend_from_slice(&1u64.to_le_bytes());
    expected.push(b'b');
    expected.extend_from_slice(&1u64.to_le_bytes());
    expected.extend_from_slice(&0u64.to_le_bytes());
    assert_eq!(sm.encode(), expected);
}

#[test]
fn image_round_trip() {
    let sm = sample();
    let bytes = sm.encode();
    let back = StateMachine::decode(&bytes).expect("a well formed image");
    assert_eq!(back.encode(), bytes);
    assert_eq!(back.get(&b"k".to_vec()), Some(b"v2".to_vec()));
    assert_eq!(back.version(&b"k".to_vec()), 2);
    assert_eq!(back.get(&b"other".to_vec()), Some(vec![]));
    assert_eq!(back.counter(&b"seq".to_vec()), 7);
    assert_eq!(back.last_applied(), LogId { term: 2, index: 4 });
}

#[test]
fn image_decode_rejects_bad_bytes() {
    let bytes = sample().encode();
    // cut short
    assert!(StateMachine::decode(&bytes[..bytes.len() - 1].to_vec()).is_none());
    // trailing bytes
    let mut longer = bytes.clone();
    longer.push(0);
    assert!(StateMachine::decode(&longer).is_none());
    // a length that runs past the end
    let mut bad = bytes.clone();
    bad[24] = 0xff;
    assert!(StateMachine::decode(&bad).is_none());
    assert!(StateMachine::decode(&vec![]).is_none());
}

#[test]
fn image_decode_rejects_duplicate_keys() {
    let mut b = Vec::new();
    b.extend_from_slice(&0u64.to_le_bytes());
    b.extend_from_slice(&0u64.to_le_bytes());
    b.extend_from_slice(&2u64.to_le_bytes());
    for _ in 0..2 {
        b.extend_from_slice(&1u64.to_le_bytes());
        b.push(b'k');
        b.extend_from_slice(&0u64.to_le_bytes());
        b.extend_from_slice(&1u64.to_le_bytes());
    }
    b.extend_from_slice(&0u64.to_le_bytes());
    assert!(StateMachine::decode(&b).is_none());
    // with distinct keys the same layout decodes
    b[24 + 8] = b'j';
    let sm = StateMachine::decode(&b).unwrap();
    assert_eq!(sm.get(&b"j".to_vec()), Some(vec![]));
    assert_eq!(sm.version(&b"k".to_vec()), 1);
}
