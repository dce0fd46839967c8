use vstd::prelude::*;

use crate::types::{Entry, LogId, Membership, NodeId};

verus! {

#[derive(Clone, Copy, Debug, PartialEq, Eq, Structural)]
/// RequestVote: a candidate asks for a vote in `term`, giving its last log id.
pub struct VoteRequest {
    pub term: u64,
    pub candidate_id: NodeId,
    pub last_log_id: LogId,
}

#[derive(Clone, Copy, Debug, PartialEq, Eq, Structural)]
/// The answer to a RequestVote, with the voter's term.
pub struct VoteResponse {
    pub term: u64,
    pub vote_granted: bool,
}

#[derive(Debug)]
/// AppendEntries: a leader sends the entries that follow `prev_log_id`, with
/// its commit index. An empty batch is a heartbeat.
pub struct AppendRequest {
    pub term: u64,
    pub leader_id: NodeId,
    pub prev_log_id: LogId,
    pub entries: Vec<Entry>,
    pub leader_commit: u64,
}

#[derive(Clone, Copy, Debug, PartialEq, Eq, Structural)]
/// The answer to an AppendEntries, with the follower's term.
pub struct AppendResponse {
    pub term: u64,
    pub success: bool,
    /// On success, the index of the last entry of the batch.
    pub match_index: u64,
    /// On a refusal because of the log, where the next batch may start.
    pub conflict_index: Option<u64>,
}

/// A snapshot: the bytes of the state machine's image after the entry
/// `last_included` (see `encode_image`), and the configuration at that point.
pub struct Snapshot {
    pub last_included: LogId,
    pub membership: Membership,
    pub data: Vec<u8>,
}

/// InstallSnapshot: a leader sends its snapshot to a follower that needs
/// entries it has compacted.
pub struct SnapshotRequest {
    pub term: u64,
    pub leader_id: NodeId,
    pub snapshot: Snapshot,
}

/// What a leader sends to a follower.
#[derive(Debug)]
pub enum Outgoing {
    /// Nothing: the node does not lead, or does not know the follower.
    Nothing,
    /// The entries that the follower needs next.
    Append(AppendRequest),
    /// The follower needs entries that the log has compacted: send a snapshot.
    Snapshot,
}

/// An error given back to a client.
#[derive(Clone, Copy, Debug, PartialEq, Eq, Structural)]
pub enum ClientError {
    /// The node does not lead; `leader_hint` is the leader it knows of.
    NotLeader { leader_hint: Option<NodeId> },
    /// The leader has not yet committed an entry of its term; retry later.
    QuorumUnavailable,
    /// The log's indexes are used up.
    LogFull,
    /// A configuration change cannot start: one is under way, or entries are
    /// still to be applied.
    ChangeInProgress,
    /// The configuration is not joint: there is no change to finish.
    NoChangeInProgress,
}

/// The persisted state that a node restarts from cannot be trusted: the node
/// must not start.
#[derive(Clone, Copy, Debug, PartialEq, Eq, Structural)]
pub enum CorruptPersistentState {
    /// The snapshot's bytes encode no image taken at its last entry.
    Snapshot,
    /// The entries do not follow the snapshot one index after the other.
    Log,
    /// The log holds an entry of a term later than the node's.
    Term,
}

} // verus!
