use meta_store::segment::{decode_entries, encode_entries};
use meta_store::types::{Command, Entry, LogId, Membership, Payload};

fn entries() -> Vec<Entry> {
    let id = |index: u64| LogId { term: 3, index };
    vec![
        Entry { log_id: id(1), payload: Payload::Noop },
        Entry {
            log_id: id(2),
            payload: Payload::Membership(Membership { voters: vec![1, 2, 3], next: Some(vec![3, 4]) }),
        },
        Entry { log_id: id(3), payload: Payload::Membership(Membership { voters: vec![3, 4], next: None }) },
        Entry {
            log_id: id(4),
            payload: Payload::Write(Command::Put { key: b"k".to_vec(), value: b"v1".to_vec() }),
        },
        Entry {
            log_id: id(5),
            payload: Payload::Write(Command::CompareAndSwap {
                key: b"k".to_vec(),
                expected_version: 1,
                value: b"v2".to_vec(),
            }),
        },
        Entry {
            log_id: id(6),
            payload: Payload::Write(Command::SequenceNext { name: b"seq".to_vec(), step: 9 }),
        },
    ]
}

fn describe(v: &[Entry]) -> Vec<String> {
    v.iter().map(|e| format!("{:?}", e)).collect()
}

#[test]
fn segment_round_trip() {
    let es = entries();
    let bytes = encode_entries(&es);
    let back = decode_entries(&bytes).expect("a well formed segment");
    assert_eq!(describe(&back), describe(&es));
    assert_eq!(encode_entries(&back), bytes);
}

#[test]
fn segment_layout_of_one_empty_entry() {
    let es = vec![Entry { log_id: LogId { term: 2, index: 5 }, payload: Payload::Noop }];
    let mut expected = Vec::new();
    expected.extend_from_slice(&1u64.to_le_bytes());
    expected.extend_from_slice(&2u64.to_le_bytes());
    expected.extend_from_slice(&5u64.to_le_bytes());
    expected.push(0);
    assert_eq!(encode_entries(&es), expected);
    assert_eq!(encode_entries(&vec![]), vec![0u8; 8]);
}

#[test]
fn segment_rejects_bad_bytes() {
    let bytes = encode_entries(&entries());
    assert!(decode_entries(&bytes[..bytes.len() - 1].to_vec()).is_none());
    let mut longer = bytes.clone();
    longer.push(0);
    assert!(decode_entries(&longer).is_none());
    // an unknown payload tag
    let mut bad = encode_entries(&vec![Entry { log_id: LogId { term: 1, index: 1 }, payload: Payload::Noop }]);
    bad[24] = 9;
    assert!(decode_entries(&bad).is_none());
    assert!(decode_entries(&vec![]).is_none());
    assert_eq!(decode_entries(&vec![0u8; 8]).map(|v| v.len()), Some(0));
}
