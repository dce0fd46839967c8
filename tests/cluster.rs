use meta_store::membership::has_majority;
use meta_store::messages::{AppendRequest, ClientError, Outgoing, SnapshotRequest, VoteRequest};
use meta_store::raft::{RaftNode, Role};
use meta_store::state_machine::Applied;
use meta_store::types::{Command, LogId, Membership};

fn config(n: u64) -> Membership {
    Membership { voters: (1..=n).collect(), next: None }
}

fn cluster(n: u64) -> Vec<RaftNode> {
    (1..=n).map(|id| RaftNode::new(id, config(n))).collect()
}

/// Node `c` campaigns; only the nodes of `reachable` hear it.
fn elect(nodes: &mut Vec<RaftNode>, c: usize, reachable: &[usize]) -> bool {
    if let Some(req) = nodes[c].start_election() {
        for &j in reachable {
            if j == c {
                continue;
            }
            let resp = nodes[j].handle_vote_request(req);
            let from = nodes[j].id();
            nodes[c].handle_vote_response(from, resp);
        }
    }
    nodes[c].role() == Role::Leader
}

/// A few rounds of replication from `l` to the nodes of `reachable`; gives
/// what the leader applied.
fn replicate(nodes: &mut Vec<RaftNode>, l: usize, reachable: &[usize]) -> Vec<(LogId, Applied)> {
    for _ in 0..4 {
        for &j in reachable {
            if j == l {
                continue;
            }
            let to = nodes[j].id();
            match nodes[l].replicate_to(to) {
                Outgoing::Append(req) => {
                    let resp = nodes[j].handle_append_entries(req);
                    nodes[l].handle_append_response(to, resp);
                }
                Outgoing::Snapshot => {
                    let snapshot = nodes[l].snapshot();
                    let sent = snapshot.last_included.index;
                    let req = SnapshotRequest {
                        term: nodes[l].current_term(),
                        leader_id: nodes[l].id(),
                        snapshot,
                    };
                    let term = nodes[j].handle_install_snapshot(req);
                    nodes[l].handle_snapshot_response(to, term, sent);
                }
                Outgoing::Nothing => {}
            }
        }
    }
    let mut applied = Vec::new();
    for &j in reachable {
        let r = nodes[j].apply_committed();
        if j == l {
            applied = r;
        }
    }
    applied
}

fn put(k: &str, v: &str) -> Command {
    Command::Put { key: k.as_bytes().to_vec(), value: v.as_bytes().to_vec() }
}

#[test]
fn majority_and_joint_quorum() {
    assert!(has_majority(&vec![1, 2, 3], &vec![1, 3]));
    assert!(!has_majority(&vec![1, 2, 3], &vec![2]));
    assert!(!has_majority(&vec![1, 2, 3, 4], &vec![1, 2]));
    assert!(!has_majority(&vec![], &vec![1]));
    let joint = Membership { voters: vec![1, 2, 3], next: Some(vec![3, 4, 5]) };
    assert!(!joint.is_quorum(&vec![1, 2]));
    assert!(!joint.is_quorum(&vec![4, 5]));
    assert!(joint.is_quorum(&vec![1, 3, 4]));
    assert!(joint.is_voter(5));
    assert!(!joint.is_voter(6));
}

#[test]
fn one_vote_per_term() {
    let mut n = RaftNode::new(1, config(3));
    let last = LogId { term: 0, index: 0 };
    let r = n.handle_vote_request(VoteRequest { term: 1, candidate_id: 2, last_log_id: last });
    assert!(r.vote_granted);
    assert_eq!(n.voted_for(), Some(2));
    let r = n.handle_vote_request(VoteRequest { term: 1, candidate_id: 3, last_log_id: last });
    assert!(!r.vote_granted);
    assert_eq!(r.term, 1);
    // the same candidate asking again is granted again
    let r = n.handle_vote_request(VoteRequest { term: 1, candidate_id: 2, last_log_id: last });
    assert!(r.vote_granted);
    // a new term frees the vote
    let r = n.handle_vote_request(VoteRequest { term: 2, candidate_id: 3, last_log_id: last });
    assert!(r.vote_granted);
    assert_eq!(n.current_term(), 2);
    // a stale term is refused
    let r = n.handle_vote_request(VoteRequest { term: 1, candidate_id: 2, last_log_id: last });
    assert!(!r.vote_granted);
    assert_eq!(r.term, 2);
}

#[test]
fn vote_refused_to_stale_log() {
    let mut nodes = cluster(3);
    assert!(elect(&mut nodes, 0, &[0, 1, 2]));
    nodes[0].propose(put("a", "1")).unwrap();
    replicate(&mut nodes, 0, &[0, 1, 2]);
    let r = nodes[1].handle_vote_request(VoteRequest {
        term: 5,
        candidate_id: 3,
        last_log_id: LogId { term: 0, index: 0 },
    });
    assert!(!r.vote_granted);
    assert_eq!(nodes[1].current_term(), 5);
    assert_eq!(nodes[1].voted_for(), None);
}

#[test]
fn learner_never_campaigns() {
    let mut n = RaftNode::new(9, config(3));
    assert_eq!(n.role(), Role::Learner);
    assert!(n.start_election().is_none());
    assert_eq!(n.current_term(), 0);
}

#[test]
fn single_node_commits_alone() {
    let mut n = RaftNode::new(1, config(1));
    assert!(n.start_election().is_some());
    assert_eq!(n.role(), Role::Leader);
    let id = n.propose(put("k", "v")).unwrap();
    assert_eq!(id, LogId { term: 1, index: 2 });
    assert_eq!(n.commit_index(), 2);
    let applied = n.apply_committed();
    assert_eq!(applied, vec![(LogId { term: 1, index: 1 }, Applied::Nothing), (id, Applied::Written { version: 1 })]);
    assert_eq!(n.read(&b"k".to_vec(), &vec![]), Ok(Some(b"v".to_vec())));
}

#[test]
fn three_nodes_elect_and_replicate() {
    let mut nodes = cluster(3);
    assert!(elect(&mut nodes, 0, &[0, 1, 2]));
    assert_eq!(nodes[1].role(), Role::Follower);
    let id = nodes[0].propose(put("k", "v1")).unwrap();
    assert_eq!(nodes[0].commit_index(), 0);
    replicate(&mut nodes, 0, &[0, 1, 2]);
    assert_eq!(nodes[0].commit_index(), id.index);
    for n in &nodes {
        assert_eq!(n.log().last_log_id(), id);
        assert_eq!(n.state_machine().get(&b"k".to_vec()), Some(b"v1".to_vec()));
    }
    assert_eq!(nodes[1].leader(), Some(1));
    assert_eq!(
        nodes[1].propose(put("k", "x")),
        Err(ClientError::NotLeader { leader_hint: Some(1) })
    );
    assert_eq!(nodes[0].read(&b"k".to_vec(), &vec![]), Err(ClientError::QuorumUnavailable));
    assert_eq!(nodes[0].read(&b"k".to_vec(), &vec![3]), Ok(Some(b"v1".to_vec())));
    assert_eq!(
        nodes[1].read(&b"k".to_vec(), &vec![1, 3]),
        Err(ClientError::NotLeader { leader_hint: Some(1) })
    );
}

#[test]
fn partition_minority_cannot_lead() {
    let mut nodes = cluster(3);
    // node 3 is cut off: it campaigns alone and never wins
    assert!(!elect(&mut nodes, 2, &[2]));
    assert!(!elect(&mut nodes, 2, &[2]));
    assert_eq!(nodes[2].role(), Role::Candidate);
    assert_eq!(nodes[2].propose(put("k", "x")), Err(ClientError::NotLeader { leader_hint: None }));
    // the two others elect a leader and commit
    assert!(elect(&mut nodes, 0, &[0, 1]));
    let id = nodes[0].propose(put("k", "v")).unwrap();
    replicate(&mut nodes, 0, &[0, 1]);
    assert_eq!(nodes[0].commit_index(), id.index);
    assert_eq!(nodes[1].state_machine().get(&b"k".to_vec()), Some(b"v".to_vec()));
    assert_eq!(nodes[2].state_machine().get(&b"k".to_vec()), None);
    assert_eq!(nodes[2].commit_index(), 0);
}

#[test]
fn cut_off_leader_does_not_serve_reads() {
    let mut nodes = cluster(3);
    assert!(elect(&mut nodes, 0, &[0, 1, 2]));
    nodes[0].propose(put("k", "v1")).unwrap();
    replicate(&mut nodes, 0, &[0, 1, 2]);
    // node 1 is cut off; nodes 2 and 3 move on to a new value
    assert!(elect(&mut nodes, 1, &[1, 2]));
    nodes[1].propose(put("k", "v2")).unwrap();
    replicate(&mut nodes, 1, &[1, 2]);
    // node 1 still believes it leads, but no quorum confirms it
    assert_eq!(nodes[0].role(), Role::Leader);
    assert_eq!(nodes[0].read(&b"k".to_vec(), &vec![]), Err(ClientError::QuorumUnavailable));
    assert_eq!(nodes[1].read(&b"k".to_vec(), &vec![3]), Ok(Some(b"v2".to_vec())));
}

#[test]
fn stale_leader_steps_down() {
    let mut nodes = cluster(3);
    assert!(elect(&mut nodes, 0, &[0, 1, 2]));
    assert!(elect(&mut nodes, 1, &[1, 2]));
    let req = match nodes[0].replicate_to(3) {
        Outgoing::Append(req) => req,
        _ => panic!("leader has a follower"),
    };
    let resp = nodes[2].handle_append_entries(req);
    assert!(!resp.success);
    assert_eq!(resp.term, 2);
    nodes[0].handle_append_response(3, resp);
    assert_eq!(nodes[0].role(), Role::Follower);
    assert_eq!(nodes[0].current_term(), 2);
}

#[test]
fn crashed_leader_entry_never_commits() {
    let mut nodes = cluster(3);
    assert!(elect(&mut nodes, 0, &[0, 1, 2]));
    replicate(&mut nodes, 0, &[0, 1, 2]);
    let lost = nodes[0].propose(put("k", "lost")).unwrap();
    assert_eq!(nodes[0].commit_index(), lost.index - 1);
    // node 1 crashes before sending it; node 2 leads in term 2
    assert!(elect(&mut nodes, 1, &[1, 2]));
    let id = nodes[1].propose(put("k", "kept")).unwrap();
    replicate(&mut nodes, 1, &[1, 2]);
    // node 1 comes back and follows
    replicate(&mut nodes, 1, &[0, 1, 2]);
    assert_eq!(nodes[0].role(), Role::Follower);
    for n in &nodes {
        assert_eq!(n.log().last_log_id(), id);
        assert_eq!(n.log().term_at(lost.index), Some(2));
        assert_eq!(n.state_machine().get(&b"k".to_vec()), Some(b"kept".to_vec()));
    }
}

#[test]
fn sequence_through_the_leader() {
    let mut nodes = cluster(3);
    assert!(elect(&mut nodes, 0, &[0, 1, 2]));
    // a heartbeat round tells the followers who leads
    replicate(&mut nodes, 0, &[0, 1, 2]);
    let mut ids = Vec::new();
    for i in 0..100 {
        // clients on every node; a follower sends them to the leader
        let cmd = || Command::SequenceNext { name: b"seq1".to_vec(), step: 1 };
        let id = match nodes[i % 3].propose(cmd()) {
            Ok(id) => id,
            Err(ClientError::NotLeader { leader_hint: Some(l) }) => {
                nodes[(l - 1) as usize].propose(cmd()).unwrap()
            }
            Err(e) => panic!("unexpected {:?}", e),
        };
        ids.push(id);
    }
    let applied = replicate(&mut nodes, 0, &[0, 1, 2]);
    let values: Vec<u64> = ids
        .iter()
        .map(|id| match applied.iter().find(|(i, _)| i == id) {
            Some((_, Applied::Sequence { value })) => *value,
            other => panic!("unexpected {:?}", other),
        })
        .collect();
    assert_eq!(values, (1..=100).collect::<Vec<u64>>());
    for n in &nodes {
        assert_eq!(n.state_machine().counter(&b"seq1".to_vec()), 100);
    }
}

#[test]
fn sequence_values_from_apply() {
    let mut n = RaftNode::new(1, config(1));
    n.start_election();
    for _ in 0..100 {
        n.propose(Command::SequenceNext { name: b"seq1".to_vec(), step: 1 }).unwrap();
    }
    let values: Vec<u64> = n
        .apply_committed()
        .into_iter()
        .filter_map(|(_, a)| match a {
            Applied::Sequence { value } => Some(value),
            _ => None,
        })
        .collect();
    assert_eq!(values, (1..=100).collect::<Vec<u64>>());
}

#[test]
fn compare_and_swap_through_cluster() {
    let mut nodes = cluster(3);
    assert!(elect(&mut nodes, 0, &[0, 1, 2]));
    let a = nodes[0].propose(put("k", "v1")).unwrap();
    let b = nodes[0]
        .propose(Command::CompareAndSwap { key: b"k".to_vec(), expected_version: 1, value: b"v2".to_vec() })
        .unwrap();
    let c = nodes[0]
        .propose(Command::CompareAndSwap { key: b"k".to_vec(), expected_version: 1, value: b"v3".to_vec() })
        .unwrap();
    // replicate and collect the leader's results
    let mut results = Vec::new();
    for _ in 0..4 {
        for j in [1usize, 2] {
            let to = nodes[j].id();
            if let Outgoing::Append(req) = nodes[0].replicate_to(to) {
                let resp = nodes[j].handle_append_entries(req);
                nodes[0].handle_append_response(to, resp);
            }
        }
        results.extend(nodes[0].apply_committed());
    }
    let find = |id: LogId| results.iter().find(|(i, _)| *i == id).map(|(_, r)| *r);
    assert_eq!(find(a), Some(Applied::Written { version: 1 }));
    assert_eq!(find(b), Some(Applied::Written { version: 2 }));
    assert_eq!(find(c), Some(Applied::VersionConflict { current: 2 }));
    assert_eq!(nodes[0].read(&b"k".to_vec(), &vec![2, 3]), Ok(Some(b"v2".to_vec())));
    assert_eq!(nodes[0].state_machine().version(&b"k".to_vec()), 2);
}

#[test]
fn snapshot_installs_on_fresh_node() {
    let mut nodes = cluster(3);
    assert!(elect(&mut nodes, 0, &[0, 1]));
    for i in 0..5u64 {
        nodes[0].propose(put(&format!("k{}", i), "v")).unwrap();
    }
    nodes[0].propose(Command::SequenceNext { name: b"s".to_vec(), step: 3 }).unwrap();
    replicate(&mut nodes, 0, &[0, 1]);
    assert!(nodes[0].needs_compaction(3));
    assert!(!nodes[0].needs_compaction(7));
    nodes[0].compact();
    assert!(!nodes[0].needs_compaction(0));
    let last = nodes[0].state_machine().last_applied();
    assert_eq!(nodes[0].log().base(), last);
    // node 3 has nothing: it needs the snapshot
    assert!(matches!(nodes[0].replicate_to(3), Outgoing::Snapshot));
    replicate(&mut nodes, 0, &[0, 2]);
    assert_eq!(nodes[2].state_machine().last_applied(), last);
    for i in 0..5u64 {
        assert_eq!(nodes[2].state_machine().get(&format!("k{}", i).into_bytes()), Some(b"v".to_vec()));
    }
    assert_eq!(nodes[2].state_machine().counter(&b"s".to_vec()), 3);
    assert_eq!(nodes[2].log().base(), last);
    assert!(nodes[2].commit_index() >= last.index);
    assert_eq!(nodes[2].state_machine().encode(), nodes[0].snapshot().data);
    // later writes replicate as entries again
    let id = nodes[0].propose(put("after", "x")).unwrap();
    replicate(&mut nodes, 0, &[0, 2]);
    assert_eq!(nodes[2].log().last_log_id(), id);
    assert_eq!(nodes[2].state_machine().get(&b"after".to_vec()), Some(b"x".to_vec()));
}

#[test]
fn corrupt_snapshot_is_not_installed() {
    let mut nodes = cluster(2);
    assert!(elect(&mut nodes, 0, &[0, 1]));
    nodes[0].propose(put("k", "v")).unwrap();
    replicate(&mut nodes, 0, &[0, 1]);
    let mut snapshot = nodes[0].snapshot();
    snapshot.data.pop();
    let mut fresh = RaftNode::new(3, config(2));
    let term = fresh.handle_install_snapshot(SnapshotRequest { term: 1, leader_id: 1, snapshot });
    assert_eq!(term, 1);
    assert_eq!(fresh.leader(), Some(1));
    assert_eq!(fresh.state_machine().last_applied(), LogId { term: 0, index: 0 });
    assert_eq!(fresh.state_machine().get(&b"k".to_vec()), None);
}

#[test]
fn append_with_older_term_is_refused() {
    let mut n = RaftNode::new(2, config(3));
    n.handle_vote_request(VoteRequest { term: 3, candidate_id: 1, last_log_id: LogId { term: 0, index: 0 } });
    let resp = n.handle_append_entries(AppendRequest {
        term: 2,
        leader_id: 3,
        prev_log_id: LogId { term: 0, index: 0 },
        entries: vec![],
        leader_commit: 0,
    });
    assert!(!resp.success);
    assert_eq!(resp.term, 3);
    assert_eq!(resp.conflict_index, None);
    assert_eq!(n.leader(), None);
}

#[test]
fn membership_change_in_two_phases() {
    let mut nodes = cluster(3);
    nodes.push(RaftNode::new(4, config(3)));
    assert_eq!(nodes[3].role(), Role::Learner);
    assert!(elect(&mut nodes, 0, &[0, 1, 2]));
    replicate(&mut nodes, 0, &[0, 1, 2, 3]);
    assert_eq!(nodes[0].finish_membership_change(), Err(ClientError::NoChangeInProgress));
    let joint = nodes[0].change_membership(vec![1, 2, 3, 4]).unwrap();
    assert_eq!(nodes[0].change_membership(vec![1, 2]), Err(ClientError::ChangeInProgress));
    replicate(&mut nodes, 0, &[0, 1, 2, 3]);
    assert!(nodes[0].commit_index() >= joint.index);
    assert_eq!(nodes[0].membership().next, Some(vec![1, 2, 3, 4]));
    replicate(&mut nodes, 0, &[0, 1, 2, 3]);
    assert_eq!(nodes[3].membership().next, Some(vec![1, 2, 3, 4]));
    assert_eq!(nodes[3].role(), Role::Follower);
    let fin = nodes[0].finish_membership_change().unwrap();
    replicate(&mut nodes, 0, &[0, 1, 2, 3]);
    replicate(&mut nodes, 0, &[0, 1, 2, 3]);
    for n in &nodes {
        assert!(n.commit_index() >= fin.index);
        assert_eq!(n.membership().voters, vec![1, 2, 3, 4]);
        assert_eq!(n.membership().next, None);
    }
    // the new voter counts: nodes 1 and 2 alone no longer commit
    let id = nodes[0].propose(put("k", "v")).unwrap();
    replicate(&mut nodes, 0, &[0, 1]);
    assert!(nodes[0].commit_index() < id.index);
    replicate(&mut nodes, 0, &[0, 1, 3]);
    assert_eq!(nodes[0].commit_index(), id.index);
}

#[test]
fn restart_from_snapshot_and_log() {
    let mut nodes = cluster(3);
    assert!(elect(&mut nodes, 0, &[0, 1, 2]));
    nodes[0].propose(put("a", "1")).unwrap();
    nodes[0].propose(put("b", "2")).unwrap();
    replicate(&mut nodes, 0, &[0, 1, 2]);
    let snapshot = nodes[1].snapshot();
    let last = snapshot.last_included;
    nodes[0].propose(put("a", "3")).unwrap();
    replicate(&mut nodes, 0, &[0, 1, 2]);
    // the log segment goes through its byte form, as it would on disk
    let segment = meta_store::segment::encode_entries(&nodes[1].log().entries_from(last.index + 1, 100));
    let entries = meta_store::segment::decode_entries(&segment).unwrap();
    assert_eq!(entries.len(), 1);
    let term = nodes[1].current_term();
    let voted = nodes[1].voted_for();
    let n = RaftNode::recover(2, config(3), term, voted, Some(snapshot), entries).unwrap();
    assert_eq!(n.role(), Role::Follower);
    assert_eq!(n.commit_index(), last.index);
    assert_eq!(n.voted_for(), Some(1));
    assert_eq!(n.state_machine().get(&b"a".to_vec()), Some(b"1".to_vec()));
    assert_eq!(n.log().base(), last);
    assert_eq!(n.log().last_log_id(), nodes[1].log().last_log_id());
}

#[test]
fn restart_refuses_corrupt_state() {
    let entry = |term: u64, index: u64| meta_store::types::Entry {
        log_id: LogId { term, index },
        payload: meta_store::types::Payload::Noop,
    };
    let n = RaftNode::recover(1, config(1), 2, None, None, vec![entry(1, 1), entry(2, 2)]).unwrap();
    assert_eq!(n.log().last_log_id(), LogId { term: 2, index: 2 });
    assert_eq!(n.commit_index(), 0);
    assert_eq!(
        RaftNode::recover(1, config(1), 2, None, None, vec![entry(1, 1), entry(2, 3)]).err(),
        Some(meta_store::messages::CorruptPersistentState::Log)
    );
    assert_eq!(
        RaftNode::recover(1, config(1), 1, None, None, vec![entry(2, 1)]).err(),
        Some(meta_store::messages::CorruptPersistentState::Term)
    );
    let mut node = RaftNode::new(1, config(1));
    node.start_election();
    node.propose(put("k", "v")).unwrap();
    node.apply_committed();
    let mut snapshot = node.snapshot();
    snapshot.data.push(7);
    assert_eq!(
        RaftNode::recover(1, config(1), 1, None, Some(snapshot), vec![]).err(),
        Some(meta_store::messages::CorruptPersistentState::Snapshot)
    );
}

#[test]
fn exhausted_indexes_refuse_proposals() {
    // an image taken at the second to last usable index
    let mut data = Vec::new();
    data.extend_from_slice(&1u64.to_le_bytes());
    data.extend_from_slice(&(u64::MAX - 2).to_le_bytes());
    data.extend_from_slice(&0u64.to_le_bytes());
    data.extend_from_slice(&0u64.to_le_bytes());
    let snapshot = meta_store::messages::Snapshot {
        last_included: LogId { term: 1, index: u64::MAX - 2 },
        membership: config(1),
        data,
    };
    let mut n = RaftNode::recover(1, config(1), 1, None, Some(snapshot), vec![]).unwrap();
    assert_eq!(n.commit_index(), u64::MAX - 2);
    n.start_election();
    assert_eq!(n.role(), Role::Leader);
    assert_eq!(n.log().last_log_id(), LogId { term: 2, index: u64::MAX - 1 });
    assert_eq!(n.propose(put("k", "v")), Err(ClientError::LogFull));
}

#[test]
fn append_entries_delivered_twice() {
    let mut nodes = cluster(3);
    assert!(elect(&mut nodes, 0, &[0, 1, 2]));
    nodes[0].propose(put("a", "1")).unwrap();
    nodes[0].propose(put("b", "2")).unwrap();
    let first = match nodes[0].replicate_to(2) {
        Outgoing::Append(req) => req,
        _ => panic!("leader has a follower"),
    };
    let again = match nodes[0].replicate_to(2) {
        Outgoing::Append(req) => req,
        _ => panic!("leader has a follower"),
    };
    let r1 = nodes[1].handle_append_entries(first);
    let log_once = meta_store::segment::encode_entries(&nodes[1].log().entries_from(1, 100));
    let commit_once = nodes[1].commit_index();
    let r2 = nodes[1].handle_append_entries(again);
    assert_eq!(r1, r2);
    assert!(r1.success);
    assert_eq!(r1.match_index, 3);
    assert_eq!(meta_store::segment::encode_entries(&nodes[1].log().entries_from(1, 100)), log_once);
    assert_eq!(nodes[1].commit_index(), commit_once);
}
