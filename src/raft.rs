use vstd::prelude::*;

use crate::image::{encode_image, image_fits, lemma_image_injective};
use crate::log::{
    accepts, batch_follows, conflict_index, first_mismatch, lemma_first_mismatch, merged, LogModel,
    LogReject, RaftLog,
};
use crate::membership::{is_quorum, is_voter};
use crate::messages::{
    AppendRequest, AppendResponse, ClientError, CorruptPersistentState, Outgoing, Snapshot,
    SnapshotRequest, VoteRequest, VoteResponse,
};
use crate::state_machine::{apply_entry, value_of, Applied, SmView, StateMachine};
use crate::types::{
    entries_view, is_up_to_date, up_to_date, Command, Entry, EntryView, LogId, Membership,
    MembershipView, NodeId, Payload, PayloadView,
};

verus! {

/// The role a node plays.
#[derive(Clone, Copy, Debug, PartialEq, Eq, Structural)]
pub enum Role {
    Follower,
    Candidate,
    Leader,
    /// A node outside the voting configuration: it never stands for election.
    Learner,
}

/// What a leader knows of one follower: where its next batch starts and the
/// highest index known to be stored there.
#[derive(Clone, Copy, Debug, PartialEq, Eq, Structural)]
pub struct Progress {
    pub id: NodeId,
    pub next_index: u64,
    pub match_index: u64,
}

/// Every node of the configuration, voters first, then the next voters of a
/// joint configuration.
pub open spec fn peers(m: MembershipView) -> Seq<NodeId> {
    match m.next {
        Some(n) => m.voters + n,
        None => m.voters,
    }
}

/// A leader's first view of its followers: each is sent entries from
/// `next_index` on, and nothing is known to be stored there.
pub open spec fn initial_progress(m: MembershipView, next_index: u64) -> Seq<Progress> {
    peers(m).map_values(|id: NodeId| Progress { id, next_index, match_index: 0 })
}

/// The most entries a leader puts in one AppendEntries.
pub const MAX_BATCH: usize = 64;

/// The place of the first record of `id` in `ps`, if there is one.
pub open spec fn progress_of(ps: Seq<Progress>, id: NodeId) -> Option<int> {
    if exists|i: int| 0 <= i < ps.len() && ps[i].id == id {
        Some(
            choose|i: int|
                0 <= i < ps.len() && ps[i].id == id && forall|j: int|
                    0 <= j < i ==> ps[j].id != id,
        )
    } else {
        None
    }
}

/// The nodes known to store the leader's log up to index `n`: the leader
/// itself and the followers whose match index reaches `n`.
pub open spec fn acked(s: RaftView, n: int) -> Set<NodeId> {
    Set::new(
        |id: NodeId|
            id == s.id || exists|i: int|
                0 <= i < s.progress.len() && s.progress[i].id == id && s.progress[i].match_index
                    >= n,
    )
}

/// A leader may commit index `n` when it lies past its commit index, holds an
/// entry of its own term, and a quorum stores it.
pub open spec fn can_commit(s: RaftView, n: int) -> bool {
    &&& s.commit_index < n <= s.log.last_index()
    &&& s.log.term_at(n) == Some(s.current_term)
    &&& is_quorum(s.membership, acked(s, n))
}

/// `c` is where a leader's commit index goes from `s`: the highest index that
/// it may commit, or its commit index where there is none.
pub open spec fn commit_advanced(s: RaftView, c: int) -> bool {
    &&& (c == s.commit_index || can_commit(s, c))
    &&& forall|n: int| n > c ==> !can_commit(s, n)
}

/// Where a leader sends from next after `to` refused a batch: the index that
/// the follower gave, or else one before the last try; kept after the highest
/// index known to be stored there and at most one past the last entry.
pub open spec fn retreated(p: Progress, conflict: Option<u64>, last: int) -> int {
    let known = if p.match_index > last {
        last
    } else {
        p.match_index as int
    };
    let cand = match conflict {
        Some(c) => c as int,
        None => if p.next_index > 1 {
            p.next_index - 1
        } else {
            1
        },
    };
    if cand <= known {
        known + 1
    } else if cand > last + 1 {
        last + 1
    } else {
        cand
    }
}

/// The highest index that a follower is known to store after it accepted a
/// batch up to `matched`, which cannot pass the leader's last entry.
pub open spec fn raised(p: Progress, matched: u64, last: int) -> int {
    let m = if matched > p.match_index {
        matched as int
    } else {
        p.match_index as int
    };
    if m > last {
        last
    } else {
        m
    }
}

/// The node after it applied an entry of configuration `m`: it counts votes
/// and acknowledgements in `m` from then on. A leader that stays a voter
/// starts its view of the followers afresh; one that does not stops leading.
/// A follower or learner takes the role `m` gives it.
pub open spec fn adopted(s: RaftView, m: MembershipView) -> RaftView {
    let s1 = RaftView { membership: m, ..s };
    if s.role == Role::Leader {
        if is_voter(m, s.id) {
            RaftView { progress: initial_progress(m, (s.log.last_index() + 1) as u64), ..s1 }
        } else {
            RaftView { role: s1.idle_role(), leader: None, progress: Seq::empty(), ..s1 }
        }
    } else if s.role == Role::Candidate {
        s1
    } else {
        RaftView { role: s1.idle_role(), ..s1 }
    }
}

/// The node after applying entry `e` of its log.
pub open spec fn applied_step(s: RaftView, e: EntryView) -> RaftView {
    let s1 = RaftView { sm: apply_entry(s.sm, e.log_id, e.payload).0, ..s };
    match e.payload {
        PayloadView::Membership(m) => adopted(s1, m),
        _ => s1,
    }
}

/// The node after applying, one by one, the `n` entries of its log that follow
/// the last one applied at `s`.
pub open spec fn replay_node(s: RaftView, n: nat) -> RaftView
    decreases n,
{
    if n == 0 {
        s
    } else {
        let e = s.log.entry_at(s.sm.last_applied.index + n)->Some_0;
        applied_step(replay_node(s, (n - 1) as nat), e)
    }
}

/// How many entries a node applies next: those after its last applied one,
/// up to its commit index and to its last entry.
pub open spec fn to_apply(s: RaftView) -> nat {
    let upto = if s.commit_index <= s.log.last_index() {
        s.commit_index as int
    } else {
        s.log.last_index()
    };
    if upto <= s.sm.last_applied.index {
        0
    } else {
        (upto - s.sm.last_applied.index) as nat
    }
}

/// A node that granted its vote in a term (the state `handle_vote_request`
/// leaves after the grant) refuses it to every other candidate of that term.
pub proof fn lemma_one_vote_per_term(s: RaftView, first: VoteRequest, second: VoteRequest)
    requires
        s.observed(first.term).grants(first),
        second.term == first.term,
        second.candidate_id != first.candidate_id,
    ensures
        !(RaftView { voted_for: Some(first.candidate_id), ..s.observed(first.term) }).observed(
            second.term,
        ).grants(second),
{
}

/// Delivering the same AppendEntries twice leaves a node as delivering it once.
pub proof fn lemma_append_entries_idempotent(
    s: RaftView,
    term: u64,
    leader: NodeId,
    prev: LogId,
    batch: Seq<EntryView>,
    leader_commit: u64,
)
    requires
        s.wf(),
        term >= s.current_term,
    ensures
        s.appended(term, leader, prev, batch, leader_commit).appended(
            term,
            leader,
            prev,
            batch,
            leader_commit,
        ) == s.appended(term, leader, prev, batch, leader_commit),
{
    let s1 = s.following(term, leader);
    let s2 = s.appended(term, leader, prev, batch, leader_commit);
    assert(s2.following(term, leader) =~= s2) by {
        assert(s2.votes =~= Seq::<NodeId>::empty());
        assert(s2.progress =~= Seq::<Progress>::empty());
    }
    if batch_follows(prev, batch) && accepts(s1.log, prev) {
        crate::log::lemma_merge_idempotent(s1.log, prev, batch);
    }
}

/// `data` encodes the well formed image `x`, taken after entry `last`.
pub open spec fn image_at(x: SmView, data: Seq<u8>, last: LogId) -> bool {
    x.wf() && image_fits(x) && encode_image(x) == data && x.last_applied == last
}

/// A snapshot taken on one node and installed on a node to which nothing was
/// applied yet leaves the second with the first one's state machine image,
/// configuration, and a log that starts after the snapshot.
pub proof fn lemma_snapshot_round_trip(source: RaftView, fresh: RaftView, term: u64, leader: NodeId)
    requires
        source.wf(),
        image_fits(source.sm),
        fresh.wf(),
        fresh.sm.last_applied.index == 0,
        0 < source.sm.last_applied.index < u64::MAX,
        term >= fresh.current_term,
    ensures
        ({
            let t = fresh.installed(
                term,
                leader,
                source.sm.last_applied,
                source.membership,
                encode_image(source.sm),
            );
            &&& t.sm == source.sm
            &&& encode_image(t.sm) == encode_image(source.sm)
            &&& t.membership == source.membership
            &&& t.log.base == source.sm.last_applied
            &&& t.log.entries.len() == 0
            &&& t.commit_index >= source.sm.last_applied.index
        }),
{
    let data = encode_image(source.sm);
    let last = source.sm.last_applied;
    assert(image_at(source.sm, data, last));
    let x = choose|x: SmView| image_at(x, data, last);
    lemma_image_injective(x, source.sm);
}

/// The last entry that a restarting node's snapshot covers (index 0, term 0
/// without a snapshot).
pub open spec fn recovered_base(snapshot: Option<(LogId, Seq<u8>)>) -> LogId {
    match snapshot {
        Some((last, _)) => last,
        None => LogId { term: 0, index: 0 },
    }
}

/// Whether a snapshot, if there is one, can be loaded.
pub open spec fn snapshot_loads(snapshot: Option<(LogId, Seq<u8>)>) -> bool {
    match snapshot {
        Some((last, data)) => last.index < u64::MAX && exists|x: SmView| image_at(x, data, last),
        None => true,
    }
}

/// The state of a node as the contracts speak of it.
pub struct RaftView {
    pub id: NodeId,
    pub current_term: u64,
    pub voted_for: Option<NodeId>,
    pub role: Role,
    pub leader: Option<NodeId>,
    pub commit_index: u64,
    pub log: LogModel,
    pub sm: SmView,
    pub membership: MembershipView,
    pub votes: Seq<NodeId>,
    pub progress: Seq<Progress>,
}

impl RaftView {
    pub open spec fn wf(self) -> bool {
        &&& self.log.wf()
        &&& self.sm.wf()
        &&& self.log.base.index <= self.sm.last_applied.index <= self.commit_index
    }

    /// The role a node takes when it is not leading or campaigning.
    pub open spec fn idle_role(self) -> Role {
        if is_voter(self.membership, self.id) {
            Role::Follower
        } else {
            Role::Learner
        }
    }

    /// The node after it has seen `term` in a message: a higher term is
    /// adopted, and the node then follows with no vote cast in it.
    pub open spec fn observed(self, term: u64) -> RaftView {
        if term > self.current_term {
            RaftView {
                current_term: term,
                voted_for: None,
                role: self.idle_role(),
                leader: None,
                votes: Seq::empty(),
                progress: Seq::empty(),
                ..self
            }
        } else {
            self
        }
    }

    /// The node after it accepted `leader` as the leader of `term`, which is at
    /// least its own: it adopts the term and stops campaigning or leading.
    pub open spec fn following(self, term: u64, leader: NodeId) -> RaftView {
        let s1 = self.observed(term);
        RaftView {
            role: if s1.role == Role::Learner {
                Role::Learner
            } else {
                Role::Follower
            },
            leader: Some(leader),
            votes: Seq::empty(),
            progress: Seq::empty(),
            ..s1
        }
    }

    /// The node after its election timeout fired: it starts a new term, stands
    /// as candidate and votes for itself.
    pub open spec fn campaigning(self) -> RaftView {
        RaftView {
            current_term: (self.current_term + 1) as u64,
            voted_for: Some(self.id),
            role: Role::Candidate,
            leader: None,
            votes: seq![self.id],
            progress: Seq::empty(),
            ..self
        }
    }

    /// The node once it won its election: it leads, knows nothing yet of its
    /// followers' logs, and opens its term with an empty entry.
    pub open spec fn leading(self) -> RaftView {
        let noop = EntryView {
            log_id: LogId { term: self.current_term, index: (self.log.last_index() + 1) as u64 },
            payload: PayloadView::Noop,
        };
        RaftView {
            role: Role::Leader,
            leader: Some(self.id),
            progress: initial_progress(self.membership, (self.log.last_index() + 1) as u64),
            log: LogModel { entries: self.log.entries.push(noop), ..self.log },
            ..self
        }
    }

    /// A candidate whose votes form a quorum leads, if its log has room for
    /// the entry that opens its term.
    pub open spec fn tallied(self) -> RaftView {
        if self.role == Role::Candidate && is_quorum(self.membership, self.votes.to_set())
            && self.log.last_index() + 1 < u64::MAX {
            self.leading()
        } else {
            self
        }
    }

    /// The node after it took in, from `leader` in `term` (at least its own),
    /// a snapshot up to `last` of configuration `m` and image bytes `data`: it
    /// follows, and where the snapshot reaches past its last applied entry and
    /// `data` encodes a well formed image taken at `last`, that image and the
    /// snapshot replace its state machine and log.
    pub open spec fn installed(
        self,
        term: u64,
        leader: NodeId,
        last: LogId,
        m: MembershipView,
        data: Seq<u8>,
    ) -> RaftView {
        let s1 = self.following(term, leader);
        if last.index > s1.sm.last_applied.index && last.index < u64::MAX && exists|x: SmView|
            image_at(x, data, last) {
            RaftView {
                log: LogModel { base: last, entries: Seq::empty() },
                sm: choose|x: SmView| image_at(x, data, last),
                membership: m,
                commit_index: if last.index > s1.commit_index {
                    last.index
                } else {
                    s1.commit_index
                },
                ..s1
            }
        } else {
            s1
        }
    }

    /// The node after an AppendEntries from `leader` in `term` (at least its
    /// own), carrying `batch` after `prev`: it follows, and where its log
    /// accepts the batch it merges it and raises its commit index to
    /// `leader_commit`, but not past the batch's last entry.
    pub open spec fn appended(
        self,
        term: u64,
        leader: NodeId,
        prev: LogId,
        batch: Seq<EntryView>,
        leader_commit: u64,
    ) -> RaftView {
        let s1 = self.following(term, leader);
        let last = prev.index + batch.len();
        if batch_follows(prev, batch) && accepts(s1.log, prev) {
            RaftView {
                log: merged(s1.log, prev, batch),
                commit_index: if leader_commit <= s1.commit_index || last <= s1.commit_index {
                    s1.commit_index
                } else if leader_commit <= last {
                    leader_commit
                } else {
                    last as u64
                },
                ..s1
            }
        } else {
            s1
        }
    }

    /// Whether the node, having adopted the request's term, grants its vote.
    pub open spec fn grants(self, req: VoteRequest) -> bool {
        &&& req.term == self.current_term
        &&& is_voter(self.membership, self.id)
        &&& (self.voted_for is None || self.voted_for == Some(req.candidate_id))
        &&& up_to_date(req.last_log_id, self.log.last_id())
    }
}

/// A leader's first view of the followers of `membership`.
fn new_progress(membership: &Membership, next_index: u64) -> (r: Vec<Progress>)
    ensures
        r@ == initial_progress(membership@, next_index),
{
    let ghost m = membership@;
    let mut progress: Vec<Progress> = Vec::new();
    let mut i: usize = 0;
    while i < membership.voters.len()
        invariant
            0 <= i <= membership.voters.len(),
            m == membership@,
            progress@ =~= m.voters.take(i as int).map_values(
                |id: NodeId| Progress { id, next_index, match_index: 0 },
            ),
        decreases membership.voters.len() - i,
    {
        progress.push(Progress { id: membership.voters[i], next_index, match_index: 0 });
        i += 1;
    }
    assert(m.voters.take(m.voters.len() as int) =~= m.voters);
    match &membership.next {
        Some(n) => {
            let mut j: usize = 0;
            while j < n.len()
                invariant
                    0 <= j <= n.len(),
                    m.next == Some(n@),
                    progress@ =~= (m.voters + n@.take(j as int)).map_values(
                        |id: NodeId| Progress { id, next_index, match_index: 0 },
                    ),
                decreases n.len() - j,
            {
                progress.push(Progress { id: n[j], next_index, match_index: 0 });
                assert(m.voters + n@.take(j + 1) =~= (m.voters + n@.take(j as int)).push(n@[j as int]));
                j += 1;
            }
            assert(n@.take(n.len() as int) =~= n@);
        },
        None => {},
    }
    assert(progress@ =~= initial_progress(m, next_index));
    progress
}

pub struct RaftNode {
    id: NodeId,
    current_term: u64,
    voted_for: Option<NodeId>,
    role: Role,
    leader: Option<NodeId>,
    commit_index: u64,
    log: RaftLog,
    sm: StateMachine,
    membership: Membership,
    votes: Vec<NodeId>,
    progress: Vec<Progress>,
}

impl View for RaftNode {
    type V = RaftView;

    closed spec fn view(&self) -> RaftView {
        RaftView {
            id: self.id,
            current_term: self.current_term,
            voted_for: self.voted_for,
            role: self.role,
            leader: self.leader,
            commit_index: self.commit_index,
            log: self.log@,
            sm: self.sm@,
            membership: self.membership@,
            votes: self.votes@,
            progress: self.progress@,
        }
    }
}

impl RaftNode {
    pub open spec fn wf(&self) -> bool {
        self@.wf()
    }

    /// A fresh node in term 0 with an empty log: a follower when the
    /// configuration counts it as a voter, else a learner.
    pub fn new(id: NodeId, membership: Membership) -> (r: RaftNode)
        ensures
            r.wf(),
            r@.id == id,
            r@.current_term == 0,
            r@.voted_for is None,
            r@.role == r@.idle_role(),
            r@.leader is None,
            r@.commit_index == 0,
            r@.log.base == (LogId { term: 0, index: 0 }),
            r@.log.entries.len() == 0,
            r@.sm.kv.len() == 0,
            r@.sm.counters.len() == 0,
            r@.sm.last_applied == (LogId { term: 0, index: 0 }),
            r@.membership == membership@,
            r@.votes.len() == 0,
            r@.progress.len() == 0,
    {
        let role = if membership.is_voter(id) {
            Role::Follower
        } else {
            Role::Learner
        };
        let r = RaftNode {
            id,
            current_term: 0,
            voted_for: None,
            role,
            leader: None,
            commit_index: 0,
            log: RaftLog::new(),
            sm: StateMachine::new(),
            membership,
            votes: Vec::new(),
            progress: Vec::new(),
        };
        r
    }

    fn idle_role(&self) -> (r: Role)
        ensures
            r == self@.idle_role(),
    {
        if self.membership.is_voter(self.id) {
            Role::Follower
        } else {
            Role::Learner
        }
    }

    /// Adopts `term` if it is higher than the node's own.
    fn observe_term(&mut self, term: u64)
        requires
            old(self).wf(),
        ensures
            final(self).wf(),
            final(self)@ == old(self)@.observed(term),
    {
        if term > self.current_term {
            self.current_term = term;
            self.voted_for = None;
            self.role = self.idle_role();
            self.leader = None;
            self.votes = Vec::new();
            self.progress = Vec::new();
            assert(self@.votes =~= Seq::<NodeId>::empty());
            assert(self@.progress =~= Seq::<Progress>::empty());
        }
    }

    /// Answers a RequestVote. The vote is granted iff the request's term is at
    /// least the node's, the node votes in the configuration, it has not voted
    /// for another node in that term, and the candidate's last log id is at
    /// least as up to date as its own; a granted vote is recorded.
    pub fn handle_vote_request(&mut self, req: VoteRequest) -> (r: VoteResponse)
        requires
            old(self).wf(),
        ensures
            final(self).wf(),
            ({
                let s1 = old(self)@.observed(req.term);
                &&& r.term == s1.current_term
                &&& r.vote_granted == s1.grants(req)
                &&& final(self)@ == if r.vote_granted {
                    RaftView { voted_for: Some(req.candidate_id), ..s1 }
                } else {
                    s1
                }
            }),
    {
        self.observe_term(req.term);
        let free = match self.voted_for {
            None => true,
            Some(c) => c == req.candidate_id,
        };
        let granted = req.term == self.current_term && self.membership.is_voter(self.id) && free
            && is_up_to_date(req.last_log_id, self.log.last_log_id());
        if granted {
            self.voted_for = Some(req.candidate_id);
        }
        VoteResponse { term: self.current_term, vote_granted: granted }
    }

    fn follow(&mut self, term: u64, leader: NodeId)
        requires
            old(self).wf(),
            term >= old(self)@.current_term,
        ensures
            final(self).wf(),
            final(self)@ == old(self)@.following(term, leader),
    {
        self.observe_term(term);
        if self.role != Role::Learner {
            self.role = Role::Follower;
        }
        self.leader = Some(leader);
        self.votes = Vec::new();
        self.progress = Vec::new();
        assert(self@.votes =~= Seq::<NodeId>::empty());
        assert(self@.progress =~= Seq::<Progress>::empty());
    }

    /// Answers an AppendEntries. A request of an older term is refused and
    /// changes nothing. Otherwise the node follows the sender in the request's
    /// term, and its log takes the batch as `merge` says; on success the commit
    /// index rises to the leader's, but not past the batch's last entry.
    pub fn handle_append_entries(&mut self, req: AppendRequest) -> (r: AppendResponse)
        requires
            old(self).wf(),
        ensures
            final(self).wf(),
            req.term < old(self)@.current_term ==> final(self)@ == old(self)@ && r == (
            AppendResponse {
                term: old(self)@.current_term,
                success: false,
                match_index: 0,
                conflict_index: None,
            }),
            req.term >= old(self)@.current_term ==> ({
                let s1 = old(self)@.following(req.term, req.leader_id);
                let prev = req.prev_log_id;
                let bv = entries_view(req.entries@);
                let last = prev.index + bv.len();
                &&& r.term == req.term
                &&& r.success == (batch_follows(prev, bv) && accepts(s1.log, prev))
                &&& final(self)@ == old(self)@.appended(
                    req.term,
                    req.leader_id,
                    prev,
                    bv,
                    req.leader_commit,
                )
                &&& r.success ==> r.match_index == last && r.conflict_index is None
                &&& !r.success ==> r.match_index == 0
                &&& !batch_follows(prev, bv) ==> r.conflict_index is None
                &&& batch_follows(prev, bv) && !accepts(s1.log, prev) ==> r.conflict_index == Some(
                    conflict_index(s1.log, prev),
                )
            }),
    {
        if req.term < self.current_term {
            return AppendResponse {
                term: self.current_term,
                success: false,
                match_index: 0,
                conflict_index: None,
            };
        }
        self.follow(req.term, req.leader_id);
        let prev = req.prev_log_id;
        let n = req.entries.len();
        let leader_commit = req.leader_commit;
        match self.log.merge(prev, req.entries) {
            Ok(()) => {
                let last = prev.index + n as u64;
                let c = if leader_commit <= last {
                    leader_commit
                } else {
                    last
                };
                if c > self.commit_index {
                    self.commit_index = c;
                }
                AppendResponse {
                    term: self.current_term,
                    success: true,
                    match_index: last,
                    conflict_index: None,
                }
            },
            Err(LogReject::Malformed) => AppendResponse {
                term: self.current_term,
                success: false,
                match_index: 0,
                conflict_index: None,
            },
            Err(LogReject::Conflict { conflict_index }) => AppendResponse {
                term: self.current_term,
                success: false,
                match_index: 0,
                conflict_index: Some(conflict_index),
            },
        }
    }

    fn tally(&mut self)
        requires
            old(self).wf(),
        ensures
            final(self).wf(),
            final(self)@ == old(self)@.tallied(),
    {
        if self.role != Role::Candidate || !self.membership.is_quorum(&self.votes) {
            return;
        }
        if self.log.last_index() >= u64::MAX - 1 {
            return;
        }
        let next_index = self.log.last_index() + 1;
        let progress = new_progress(&self.membership, next_index);
        self.role = Role::Leader;
        self.leader = Some(self.id);
        self.progress = progress;
        let term = self.current_term;
        self.log.append(term, Payload::Noop);
    }

    /// The election timeout fired. A voter that does not lead starts a new
    /// term, stands as candidate, votes for itself, and gives the request to
    /// send to the other voters; it leads at once where its own vote is a
    /// quorum. A leader, a learner, or a node whose term cannot grow, does
    /// nothing.
    pub fn start_election(&mut self) -> (r: Option<VoteRequest>)
        requires
            old(self).wf(),
        ensures
            final(self).wf(),
            old(self)@.role == Role::Leader || !is_voter(old(self)@.membership, old(self)@.id)
                || old(self)@.current_term == u64::MAX ==> r is None && final(self)@ == old(
                self,
            )@,
            !(old(self)@.role == Role::Leader || !is_voter(old(self)@.membership, old(self)@.id)
                || old(self)@.current_term == u64::MAX) ==> r == Some(
                VoteRequest {
                    term: (old(self)@.current_term + 1) as u64,
                    candidate_id: old(self)@.id,
                    last_log_id: old(self)@.log.last_id(),
                },
            ) && final(self)@ == old(self)@.campaigning().tallied(),
    {
        if self.role == Role::Leader || !self.membership.is_voter(self.id) || self.current_term
            == u64::MAX {
            return None;
        }
        let last_log_id = self.log.last_log_id();
        self.current_term = self.current_term + 1;
        self.voted_for = Some(self.id);
        self.role = Role::Candidate;
        self.leader = None;
        self.votes = vec![self.id];
        self.progress = Vec::new();
        assert(self@.votes =~= seq![self.id]);
        assert(self@.progress =~= Seq::<Progress>::empty());
        self.tally();
        Some(VoteRequest { term: self.current_term, candidate_id: self.id, last_log_id })
    }

    /// Takes in the answer to a RequestVote. A higher term makes the node
    /// follow in it. A grant in the node's own term, from a voter not counted
    /// yet, counts while the node campaigns, and a quorum of grants makes it
    /// lead.
    pub fn handle_vote_response(&mut self, from: NodeId, resp: VoteResponse)
        requires
            old(self).wf(),
        ensures
            final(self).wf(),
            final(self)@ == if resp.term > old(self)@.current_term {
                old(self)@.observed(resp.term)
            } else if old(self)@.role == Role::Candidate && resp.term == old(self)@.current_term
                && resp.vote_granted && is_voter(old(self)@.membership, from)
                && !old(self)@.votes.contains(from) {
                RaftView { votes: old(self)@.votes.push(from), ..old(self)@ }.tallied()
            } else {
                old(self)@
            },
    {
        if resp.term > self.current_term {
            self.observe_term(resp.term);
            return;
        }
        if self.role == Role::Candidate && resp.term == self.current_term && resp.vote_granted
            && self.membership.is_voter(from) && !crate::membership::contains_id(&self.votes, from) {
            self.votes.push(from);
            self.tally();
        }
    }

    fn find_progress(&self, id: NodeId) -> (r: Option<usize>)
        ensures
            match r {
                Some(i) => progress_of(self@.progress, id) == Some(i as int) && i
                    < self.progress.len(),
                None => progress_of(self@.progress, id) is None,
            },
    {
        let mut i: usize = 0;
        while i < self.progress.len()
            invariant
                0 <= i <= self.progress.len(),
                forall|j: int| 0 <= j < i ==> self@.progress[j].id != id,
            decreases self.progress.len() - i,
        {
            if self.progress[i].id == id {
                let ghost ps = self@.progress;
                let ghost k = choose|k: int|
                    0 <= k < ps.len() && ps[k].id == id && forall|j: int|
                        0 <= j < k ==> ps[j].id != id;
                assert(0 <= i < ps.len() && ps[i as int].id == id && forall|j: int|
                    0 <= j < i ==> ps[j].id != id);
                assert(k == i) by {
                    if k < i {
                        assert(ps[k].id != id);
                    } else if k > i {
                        assert(ps[i as int].id != id);
                    }
                }
                return Some(i);
            }
            i += 1;
        }
        None
    }

    /// What the node sends to `to` next. A leader that knows `to` sends the
    /// entries from `to`'s next index on (at most `MAX_BATCH`, after the entry
    /// before them, clamped to its last entry), or asks for a snapshot where
    /// the log has compacted the entry before them.
    pub fn replicate_to(&self, to: NodeId) -> (r: Outgoing)
        requires
            self.wf(),
        ensures
            (self@.role != Role::Leader || progress_of(self@.progress, to) is None) ==> r
                is Nothing,
            self@.role == Role::Leader && progress_of(self@.progress, to) is Some ==> ({
                let p = self@.progress[progress_of(self@.progress, to)->Some_0];
                let prev_index = if p.next_index == 0 {
                    -1
                } else if p.next_index - 1 > self@.log.last_index() {
                    self@.log.last_index()
                } else {
                    p.next_index - 1
                };
                if prev_index < self@.log.base.index {
                    r is Snapshot
                } else {
                    match r {
                        Outgoing::Append(req) => {
                            let bv = entries_view(req.entries@);
                            &&& req.term == self@.current_term
                            &&& req.leader_id == self@.id
                            &&& req.leader_commit == self@.commit_index
                            &&& req.prev_log_id.index == prev_index
                            &&& Some(req.prev_log_id.term) == self@.log.term_at(prev_index)
                            &&& batch_follows(req.prev_log_id, bv)
                            &&& bv.len() == if self@.log.last_index() - prev_index <= MAX_BATCH {
                                self@.log.last_index() - prev_index
                            } else {
                                MAX_BATCH as int
                            }
                            &&& forall|k: int|
                                0 <= k < bv.len() ==> self@.log.entry_at(prev_index + 1 + k)
                                    == Some(#[trigger] bv[k])
                        },
                        _ => false,
                    }
                }
            }),
    {
        if self.role != Role::Leader {
            return Outgoing::Nothing;
        }
        let i = match self.find_progress(to) {
            Some(i) => i,
            None => {
                return Outgoing::Nothing;
            },
        };
        let p = self.progress[i];
        if p.next_index == 0 {
            return Outgoing::Snapshot;
        }
        let last = self.log.last_index();
        let prev_index = if p.next_index - 1 > last {
            last
        } else {
            p.next_index - 1
        };
        if prev_index < self.log.base().index {
            return Outgoing::Snapshot;
        }
        let prev_term = match self.log.term_at(prev_index) {
            Some(t) => t,
            None => 0,
        };
        let entries = self.log.entries_from(prev_index + 1, MAX_BATCH);
        let ghost bv = entries_view(entries@);
        let prev_log_id = LogId { term: prev_term, index: prev_index };
        assert forall|k: int| 0 <= k < bv.len() implies (#[trigger] bv[k]).log_id.index
            == prev_index + 1 + k && self@.log.entry_at(prev_index + 1 + k) == Some(bv[k]) by {
            assert(bv[k] == self@.log.entries[prev_index - self@.log.base.index + k]);
        }
        Outgoing::Append(
            AppendRequest {
                term: self.current_term,
                leader_id: self.id,
                prev_log_id,
                entries,
                leader_commit: self.commit_index,
            },
        )
    }

    fn acked_ids(&self, n: u64) -> (r: Vec<NodeId>)
        ensures
            r@.to_set() == acked(self@, n as int),
    {
        let ghost s = self@;
        let mut r: Vec<NodeId> = vec![self.id];
        let mut i: usize = 0;
        while i < self.progress.len()
            invariant
                0 <= i <= self.progress.len(),
                s == self@,
                forall|id: NodeId|
                    r@.contains(id) <==> (id == s.id || exists|j: int|
                        0 <= j < i && s.progress[j].id == id && s.progress[j].match_index >= n),
            decreases self.progress.len() - i,
        {
            let p = self.progress[i];
            let ghost r0 = r@;
            if p.match_index >= n {
                r.push(p.id);
            }
            assert forall|id: NodeId|
                r@.contains(id) <==> (id == s.id || exists|j: int|
                    0 <= j < i + 1 && s.progress[j].id == id && s.progress[j].match_index
                        >= n) by {
                let pushed = p.match_index >= n;
                assert(pushed ==> r@ == r0.push(p.id));
                assert(!pushed ==> r@ == r0);
                if r0.contains(id) {
                    let k = choose|k: int| 0 <= k < r0.len() && r0[k] == id;
                    assert(r@[k] == id);
                    if id != s.id {
                        let j = choose|j: int|
                            0 <= j < i && s.progress[j].id == id && s.progress[j].match_index >= n;
                        assert(0 <= j < i + 1 && s.progress[j].id == id);
                    }
                }
                if pushed && id == p.id {
                    assert(r@[r@.len() - 1] == id);
                    assert(s.progress[i as int].id == id);
                }
                if r@.contains(id) && !r0.contains(id) {
                    let k = choose|k: int| 0 <= k < r@.len() && r@[k] == id;
                    if k < r0.len() {
                        assert(r0[k] == id);
                    }
                    assert(pushed && id == p.id);
                    assert(s.progress[i as int].id == id);
                }
                if exists|j: int|
                    0 <= j < i + 1 && s.progress[j].id == id && s.progress[j].match_index >= n {
                    let j = choose|j: int|
                        0 <= j < i + 1 && s.progress[j].id == id && s.progress[j].match_index >= n;
                    if j < i {
                        assert(r0.contains(id));
                    } else {
                        assert(r@[r@.len() - 1] == id);
                    }
                }
                if id == s.id {
                    assert(r0.contains(id));
                }
            }
            i += 1;
        }
        assert(r@.to_set() =~= acked(s, n as int));
        r
    }

    /// Raises a leader's commit index to the highest index it may commit.
    fn advance_commit(&mut self)
        requires
            old(self).wf(),
        ensures
            final(self).wf(),
            commit_advanced(old(self)@, final(self)@.commit_index as int),
            final(self)@ == (RaftView { commit_index: final(self)@.commit_index, ..old(self)@ }),
    {
        let ghost s = self@;
        let mut n = self.log.last_index();
        let mut found = false;
        while n > self.commit_index && !found
            invariant
                s == self@,
                self.wf(),
                n <= s.log.last_index(),
                forall|m: int| m > n && !(found && m == n) ==> !can_commit(s, m),
                found ==> can_commit(s, n as int),
            decreases n + (if found { 0int } else { 1int }),
        {
            if self.log.term_at(n) == Some(self.current_term) {
                let ids = self.acked_ids(n);
                if self.membership.is_quorum(&ids) {
                    found = true;
                }
            }
            if !found {
                n = n - 1;
            }
        }
        if found {
            self.commit_index = n;
        }
    }

    /// Takes in the answer to an AppendEntries. A higher term makes the node
    /// follow in it. A leader that hears in its own term from a follower it
    /// knows raises what it knows to be stored there and its commit index on
    /// success, and sends from an earlier index on a refusal.
    pub fn handle_append_response(&mut self, from: NodeId, resp: AppendResponse)
        requires
            old(self).wf(),
        ensures
            final(self).wf(),
            resp.term > old(self)@.current_term ==> final(self)@ == old(self)@.observed(resp.term),
            resp.term <= old(self)@.current_term && !(old(self)@.role == Role::Leader && resp.term
                == old(self)@.current_term && progress_of(old(self)@.progress, from) is Some)
                ==> final(self)@ == old(self)@,
            old(self)@.role == Role::Leader && resp.term == old(self)@.current_term && progress_of(
                old(self)@.progress,
                from,
            ) is Some ==> ({
                let s = old(self)@;
                let i = progress_of(s.progress, from)->Some_0;
                let p = s.progress[i];
                let last = s.log.last_index();
                if resp.success {
                    let m = raised(p, resp.match_index, last);
                    let s2 = RaftView {
                        progress: s.progress.update(
                            i,
                            Progress { id: from, next_index: (m + 1) as u64, match_index: m as u64 },
                        ),
                        ..s
                    };
                    &&& commit_advanced(s2, final(self)@.commit_index as int)
                    &&& final(self)@ == (RaftView { commit_index: final(self)@.commit_index, ..s2 })
                } else {
                    final(self)@ == (RaftView {
                        progress: s.progress.update(
                            i,
                            Progress {
                                next_index: retreated(p, resp.conflict_index, last) as u64,
                                ..p
                            },
                        ),
                        ..s
                    })
                }
            }),
    {
        if resp.term > self.current_term {
            self.observe_term(resp.term);
            return;
        }
        if self.role != Role::Leader || resp.term != self.current_term {
            return;
        }
        let i = match self.find_progress(from) {
            Some(i) => i,
            None => {
                return;
            },
        };
        let p = self.progress[i];
        let last = self.log.last_index();
        if resp.success {
            let m0 = if resp.match_index > p.match_index {
                resp.match_index
            } else {
                p.match_index
            };
            let m = if m0 > last {
                last
            } else {
                m0
            };
            self.progress.set(i, Progress { id: from, next_index: m + 1, match_index: m });
            self.advance_commit();
        } else {
            let known = if p.match_index > last {
                last
            } else {
                p.match_index
            };
            let cand = match resp.conflict_index {
                Some(c) => c,
                None => if p.next_index > 1 {
                    p.next_index - 1
                } else {
                    1
                },
            };
            let next = if cand <= known {
                known + 1
            } else if cand > last + 1 {
                last + 1
            } else {
                cand
            };
            self.progress.set(i, Progress { next_index: next, ..p });
        }
    }

    fn adopt(&mut self, m: Membership)
        requires
            old(self).wf(),
        ensures
            final(self).wf(),
            final(self)@ == adopted(old(self)@, m@),
    {
        self.membership = m;
        if self.role == Role::Leader {
            if self.membership.is_voter(self.id) {
                self.progress = new_progress(&self.membership, self.log.last_index() + 1);
            } else {
                self.role = self.idle_role();
                self.leader = None;
                self.progress = Vec::new();
                assert(self@.progress =~= Seq::<Progress>::empty());
            }
        } else if self.role != Role::Candidate {
            self.role = self.idle_role();
        }
    }

    /// Applies the committed entries that follow the last one applied, in
    /// index order, and gives each one's id and result. An entry of a
    /// configuration makes the node adopt it (see `adopted`).
    pub fn apply_committed(&mut self) -> (r: Vec<(LogId, Applied)>)
        requires
            old(self).wf(),
        ensures
            final(self).wf(),
            ({
                let s = old(self)@;
                let n = to_apply(s);
                &&& final(self)@ == replay_node(s, n)
                &&& r@.len() == n
                &&& forall|k: int|
                    0 <= k < n ==> ({
                        let e = s.log.entry_at(s.sm.last_applied.index + k + 1)->Some_0;
                        #[trigger] r@[k] == (
                            e.log_id,
                            apply_entry(replay_node(s, k as nat).sm, e.log_id, e.payload).1,
                        )
                    })
            }),
    {
        let ghost s = self@;
        let upto = if self.commit_index <= self.log.last_index() {
            self.commit_index
        } else {
            self.log.last_index()
        };
        let mut r: Vec<(LogId, Applied)> = Vec::new();
        while self.sm.last_applied().index < upto
            invariant
                self.wf(),
                self@.log == s.log,
                self@.commit_index == s.commit_index,
                upto <= s.commit_index,
                upto <= s.log.last_index(),
                self@.sm.last_applied.index <= upto || r@.len() == 0,
                self@.sm.last_applied.index == s.sm.last_applied.index + r@.len(),
                self@ == replay_node(s, r@.len() as nat),
                forall|k: int|
                    0 <= k < r@.len() ==> ({
                        let e = s.log.entry_at(s.sm.last_applied.index + k + 1)->Some_0;
                        #[trigger] r@[k] == (
                            e.log_id,
                            apply_entry(replay_node(s, k as nat).sm, e.log_id, e.payload).1,
                        )
                    }),
            decreases upto - self@.sm.last_applied.index,
        {
            let idx = self.sm.last_applied().index + 1;
            let e = match self.log.get(idx) {
                Some(e) => e,
                None => {
                    return r;
                },
            };
            let ghost before = self@;
            let a = self.sm.apply(&e);
            match e.payload {
                Payload::Membership(m) => {
                    self.adopt(m);
                },
                _ => {},
            }
            let ghost k = r@.len();
            r.push((e.log_id, a));
            assert(self@ == applied_step(before, e@));
            assert(r@[k as int] == (e.log_id, a));
        }
        r
    }

    /// Takes a client command. A leader appends it to its log in its term,
    /// raises its commit index where it may, and gives the entry's id; any
    /// other node gives the leader it knows of.
    pub fn propose(&mut self, cmd: Command) -> (r: Result<LogId, ClientError>)
        requires
            old(self).wf(),
        ensures
            final(self).wf(),
            old(self)@.role != Role::Leader ==> r == Err::<LogId, ClientError>(
                ClientError::NotLeader { leader_hint: old(self)@.leader },
            ) && final(self)@ == old(self)@,
            old(self)@.role == Role::Leader && old(self)@.log.last_index() + 1 >= u64::MAX ==> r
                == Err::<LogId, ClientError>(ClientError::LogFull) && final(self)@ == old(self)@,
            old(self)@.role == Role::Leader && old(self)@.log.last_index() + 1 < u64::MAX ==> ({
                let s = old(self)@;
                let id = LogId { term: s.current_term, index: (s.log.last_index() + 1) as u64 };
                let s2 = RaftView {
                    log: LogModel {
                        entries: s.log.entries.push(
                            EntryView { log_id: id, payload: PayloadView::Write(cmd@) },
                        ),
                        ..s.log
                    },
                    ..s
                };
                &&& r == Ok::<LogId, ClientError>(id)
                &&& commit_advanced(s2, final(self)@.commit_index as int)
                &&& final(self)@ == (RaftView { commit_index: final(self)@.commit_index, ..s2 })
            }),
    {
        if self.role != Role::Leader {
            return Err(ClientError::NotLeader { leader_hint: self.leader });
        }
        if self.log.last_index() >= u64::MAX - 1 {
            return Err(ClientError::LogFull);
        }
        Ok(self.append_own(Payload::Write(cmd)))
    }

    /// Reads `key` on the leader. `confirmed` holds the nodes that answered,
    /// in the leader's term, a round of AppendEntries sent after the read came
    /// in. The leader answers once those nodes and itself form a quorum, so
    /// that it still leads, and once it has committed an entry of its own term
    /// and applied every committed entry; any other node gives the leader it
    /// knows of.
    pub fn read(&self, key: &Vec<u8>, confirmed: &Vec<NodeId>) -> (r: Result<
        Option<Vec<u8>>,
        ClientError,
    >)
        requires
            self.wf(),
        ensures
            self@.role != Role::Leader ==> r == Err::<Option<Vec<u8>>, ClientError>(
                ClientError::NotLeader { leader_hint: self@.leader },
            ),
            self@.role == Role::Leader && !(is_quorum(
                self@.membership,
                confirmed@.to_set().insert(self@.id),
            ) && self@.log.term_at(self@.commit_index as int) == Some(self@.current_term)
                && self@.sm.last_applied.index == self@.commit_index) ==> r == Err::<
                Option<Vec<u8>>,
                ClientError,
            >(ClientError::QuorumUnavailable),
            self@.role == Role::Leader && is_quorum(
                self@.membership,
                confirmed@.to_set().insert(self@.id),
            ) && self@.log.term_at(self@.commit_index as int) == Some(self@.current_term)
                && self@.sm.last_applied.index == self@.commit_index ==> match r {
                Ok(Some(v)) => value_of(self@.sm.kv, key@) == Some(v@),
                Ok(None) => value_of(self@.sm.kv, key@) is None,
                Err(_) => false,
            },
    {
        if self.role != Role::Leader {
            return Err(ClientError::NotLeader { leader_hint: self.leader });
        }
        let mut acks = crate::types::copy_ids(confirmed);
        acks.push(self.id);
        assert(acks@.to_set() =~= confirmed@.to_set().insert(self.id)) by {
            assert forall|x: NodeId| acks@.contains(x) <==> (confirmed@.contains(x) || x == self.id) by {
                if acks@.contains(x) {
                    let k = choose|k: int| 0 <= k < acks@.len() && acks@[k] == x;
                    if k < confirmed@.len() {
                        assert(confirmed@[k] == x);
                    }
                }
                if confirmed@.contains(x) {
                    let k = choose|k: int| 0 <= k < confirmed@.len() && confirmed@[k] == x;
                    assert(acks@[k] == x);
                }
                assert(acks@[acks@.len() - 1] == self.id);
            }
        }
        if !self.membership.is_quorum(&acks) || self.log.term_at(self.commit_index) != Some(
            self.current_term,
        ) || self.sm.last_applied().index != self.commit_index {
            return Err(ClientError::QuorumUnavailable);
        }
        Ok(self.sm.get(key))
    }

    /// A snapshot of the state machine as applied so far.
    pub fn snapshot(&self) -> (r: Snapshot)
        requires
            self.wf(),
        ensures
            r.last_included == self@.sm.last_applied,
            r.membership@ == self@.membership,
            r.data@ == encode_image(self@.sm),
    {
        Snapshot {
            last_included: self.sm.last_applied(),
            membership: self.membership.copy(),
            data: self.sm.encode(),
        }
    }

    /// Whether the log holds more than `max_entries` applied entries, which a
    /// snapshot and `compact` would let it discard.
    pub fn needs_compaction(&self, max_entries: u64) -> (r: bool)
        requires
            self.wf(),
        ensures
            r == (self@.sm.last_applied.index - self@.log.base.index > max_entries),
    {
        self.sm.last_applied().index - self.log.base().index > max_entries
    }

    /// Discards the log's entries up to the last one applied, which a
    /// snapshot now covers. Nothing changes where the log holds none of them.
    pub fn compact(&mut self)
        requires
            old(self).wf(),
        ensures
            final(self).wf(),
            ({
                let s = old(self)@;
                let a = s.sm.last_applied.index;
                if s.log.base.index < a <= s.log.last_index() {
                    &&& final(self)@.log.base == (LogId { term: s.log.term_at(a as int)->Some_0, index: a })
                    &&& final(self)@.log.entries == s.log.entries.skip(a - s.log.base.index)
                    &&& final(self)@ == (RaftView { log: final(self)@.log, ..s })
                } else {
                    final(self)@ == s
                }
            }),
    {
        let a = self.sm.last_applied().index;
        if self.log.base().index < a && a <= self.log.last_index() {
            self.log.truncate_before(a + 1);
        }
    }

    /// Takes in an InstallSnapshot. A request of an older term changes
    /// nothing. Otherwise the node follows the sender, and a snapshot that
    /// reaches past its last applied entry replaces its log and state machine
    /// wholesale. Gives the node's term.
    pub fn handle_install_snapshot(&mut self, req: SnapshotRequest) -> (r: u64)
        requires
            old(self).wf(),
        ensures
            final(self).wf(),
            req.term < old(self)@.current_term ==> r == old(self)@.current_term && final(self)@
                == old(self)@,
            req.term >= old(self)@.current_term ==> r == req.term && final(self)@ == old(self)@.installed(
                req.term,
                req.leader_id,
                req.snapshot.last_included,
                req.snapshot.membership@,
                req.snapshot.data@,
            ),
    {
        if req.term < self.current_term {
            return self.current_term;
        }
        self.follow(req.term, req.leader_id);
        let snap = req.snapshot;
        let idx = snap.last_included.index;
        if idx <= self.sm.last_applied().index || idx == u64::MAX {
            return self.current_term;
        }
        let sm = match StateMachine::decode(&snap.data) {
            Some(sm) => sm,
            None => {
                return self.current_term;
            },
        };
        if sm.last_applied() != snap.last_included {
            proof {
                if exists|x: SmView| image_at(x, snap.data@, snap.last_included) {
                    let x = choose|x: SmView| image_at(x, snap.data@, snap.last_included);
                    lemma_image_injective(x, sm@);
                }
            }
            return self.current_term;
        }
        proof {
            assert(image_at(sm@, snap.data@, snap.last_included));
            let x = choose|x: SmView| image_at(x, snap.data@, snap.last_included);
            lemma_image_injective(x, sm@);
        }
        self.log.reset(snap.last_included);
        self.sm = sm;
        self.membership = snap.membership;
        if idx > self.commit_index {
            self.commit_index = idx;
        }
        assert(self@.log.entries =~= Seq::<EntryView>::empty());
        self.current_term
    }

    /// Appends `p` in the leader's term and raises the commit index where it may.
    fn append_own(&mut self, p: Payload) -> (r: LogId)
        requires
            old(self).wf(),
            old(self)@.log.last_index() + 1 < u64::MAX,
        ensures
            final(self).wf(),
            ({
                let s = old(self)@;
                let s2 = RaftView {
                    log: LogModel {
                        entries: s.log.entries.push(EntryView { log_id: r, payload: p@ }),
                        ..s.log
                    },
                    ..s
                };
                &&& r == (LogId { term: s.current_term, index: (s.log.last_index() + 1) as u64 })
                &&& commit_advanced(s2, final(self)@.commit_index as int)
                &&& final(self)@ == (RaftView { commit_index: final(self)@.commit_index, ..s2 })
            }),
    {
        let term = self.current_term;
        let id = self.log.append(term, p);
        self.advance_commit();
        id
    }

    /// Starts a change of the voters to `voters`. A leader whose configuration
    /// is not joint and whose entries are all applied appends the joint
    /// configuration of its voters and `voters`, which the nodes adopt once it
    /// is applied.
    pub fn change_membership(&mut self, voters: Vec<NodeId>) -> (r: Result<LogId, ClientError>)
        requires
            old(self).wf(),
        ensures
            final(self).wf(),
            ({
                let s = old(self)@;
                if s.role != Role::Leader {
                    r == Err::<LogId, ClientError>(ClientError::NotLeader { leader_hint: s.leader })
                        && final(self)@ == s
                } else if s.membership.next is Some || s.sm.last_applied.index != s.log.last_index() {
                    r == Err::<LogId, ClientError>(ClientError::ChangeInProgress) && final(self)@ == s
                } else if s.log.last_index() + 1 >= u64::MAX {
                    r == Err::<LogId, ClientError>(ClientError::LogFull) && final(self)@ == s
                } else {
                    let id = LogId { term: s.current_term, index: (s.log.last_index() + 1) as u64 };
                    let joint = MembershipView { voters: s.membership.voters, next: Some(voters@) };
                    let s2 = RaftView {
                        log: LogModel {
                            entries: s.log.entries.push(
                                EntryView { log_id: id, payload: PayloadView::Membership(joint) },
                            ),
                            ..s.log
                        },
                        ..s
                    };
                    &&& r == Ok::<LogId, ClientError>(id)
                    &&& commit_advanced(s2, final(self)@.commit_index as int)
                    &&& final(self)@ == (RaftView { commit_index: final(self)@.commit_index, ..s2 })
                }
            }),
    {
        if self.role != Role::Leader {
            return Err(ClientError::NotLeader { leader_hint: self.leader });
        }
        if self.membership.next.is_some() || self.sm.last_applied().index != self.log.last_index() {
            return Err(ClientError::ChangeInProgress);
        }
        if self.log.last_index() >= u64::MAX - 1 {
            return Err(ClientError::LogFull);
        }
        let joint = Membership { voters: crate::types::copy_ids(&self.membership.voters), next: Some(voters) };
        Ok(self.append_own(Payload::Membership(joint)))
    }

    /// Finishes a change: a leader whose joint configuration is applied, with
    /// every entry of its log, appends the configuration of the next voters
    /// alone.
    pub fn finish_membership_change(&mut self) -> (r: Result<LogId, ClientError>)
        requires
            old(self).wf(),
        ensures
            final(self).wf(),
            ({
                let s = old(self)@;
                if s.role != Role::Leader {
                    r == Err::<LogId, ClientError>(ClientError::NotLeader { leader_hint: s.leader })
                        && final(self)@ == s
                } else if s.membership.next is None {
                    r == Err::<LogId, ClientError>(ClientError::NoChangeInProgress) && final(self)@
                        == s
                } else if s.sm.last_applied.index != s.log.last_index() {
                    r == Err::<LogId, ClientError>(ClientError::ChangeInProgress) && final(self)@ == s
                } else if s.log.last_index() + 1 >= u64::MAX {
                    r == Err::<LogId, ClientError>(ClientError::LogFull) && final(self)@ == s
                } else {
                    let id = LogId { term: s.current_term, index: (s.log.last_index() + 1) as u64 };
                    let fin = MembershipView { voters: s.membership.next->Some_0, next: None };
                    let s2 = RaftView {
                        log: LogModel {
                            entries: s.log.entries.push(
                                EntryView { log_id: id, payload: PayloadView::Membership(fin) },
                            ),
                            ..s.log
                        },
                        ..s
                    };
                    &&& r == Ok::<LogId, ClientError>(id)
                    &&& commit_advanced(s2, final(self)@.commit_index as int)
                    &&& final(self)@ == (RaftView { commit_index: final(self)@.commit_index, ..s2 })
                }
            }),
    {
        if self.role != Role::Leader {
            return Err(ClientError::NotLeader { leader_hint: self.leader });
        }
        let next = match &self.membership.next {
            None => {
                return Err(ClientError::NoChangeInProgress);
            },
            Some(n) => crate::types::copy_ids(n),
        };
        if self.sm.last_applied().index != self.log.last_index() {
            return Err(ClientError::ChangeInProgress);
        }
        if self.log.last_index() >= u64::MAX - 1 {
            return Err(ClientError::LogFull);
        }
        Ok(self.append_own(Payload::Membership(Membership { voters: next, next: None })))
    }

    /// Takes in the answer to an InstallSnapshot that carried entries up to
    /// `sent`. A higher term makes the node follow in it. A leader that hears
    /// in its own term from a follower it knows counts `sent` as stored there,
    /// and raises its commit index where it may.
    pub fn handle_snapshot_response(&mut self, from: NodeId, term: u64, sent: u64)
        requires
            old(self).wf(),
        ensures
            final(self).wf(),
            term > old(self)@.current_term ==> final(self)@ == old(self)@.observed(term),
            term <= old(self)@.current_term && !(old(self)@.role == Role::Leader && term
                == old(self)@.current_term && progress_of(old(self)@.progress, from) is Some)
                ==> final(self)@ == old(self)@,
            old(self)@.role == Role::Leader && term == old(self)@.current_term && progress_of(
                old(self)@.progress,
                from,
            ) is Some ==> ({
                let s = old(self)@;
                let i = progress_of(s.progress, from)->Some_0;
                let m = raised(s.progress[i], sent, s.log.last_index());
                let s2 = RaftView {
                    progress: s.progress.update(
                        i,
                        Progress { id: from, next_index: (m + 1) as u64, match_index: m as u64 },
                    ),
                    ..s
                };
                &&& commit_advanced(s2, final(self)@.commit_index as int)
                &&& final(self)@ == (RaftView { commit_index: final(self)@.commit_index, ..s2 })
            }),
    {
        if term > self.current_term {
            self.observe_term(term);
            return;
        }
        if self.role != Role::Leader || term != self.current_term {
            return;
        }
        let i = match self.find_progress(from) {
            Some(i) => i,
            None => {
                return;
            },
        };
        let p = self.progress[i];
        let last = self.log.last_index();
        let m0 = if sent > p.match_index {
            sent
        } else {
            p.match_index
        };
        let m = if m0 > last {
            last
        } else {
            m0
        };
        self.progress.set(i, Progress { id: from, next_index: m + 1, match_index: m });
        self.advance_commit();
    }

    pub fn id(&self) -> (r: NodeId)
        ensures
            r == self@.id,
    {
        self.id
    }

    pub fn current_term(&self) -> (r: u64)
        ensures
            r == self@.current_term,
    {
        self.current_term
    }

    pub fn voted_for(&self) -> (r: Option<NodeId>)
        ensures
            r == self@.voted_for,
    {
        self.voted_for
    }

    pub fn role(&self) -> (r: Role)
        ensures
            r == self@.role,
    {
        self.role
    }

    /// The leader that the node knows of in its term.
    pub fn leader(&self) -> (r: Option<NodeId>)
        ensures
            r == self@.leader,
    {
        self.leader
    }

    pub fn commit_index(&self) -> (r: u64)
        ensures
            r == self@.commit_index,
    {
        self.commit_index
    }

    pub fn log(&self) -> (r: &RaftLog)
        ensures
            r@ == self@.log,
            r.wf() == self@.log.wf(),
    {
        &self.log
    }

    pub fn state_machine(&self) -> (r: &StateMachine)
        ensures
            r@ == self@.sm,
            r.wf() == self@.sm.wf(),
    {
        &self.sm
    }

    pub fn membership(&self) -> (r: &Membership)
        ensures
            r@ == self@.membership,
    {
        &self.membership
    }

    /// Restarts a node from what it persisted: loads the snapshot, if any,
    /// then takes the log entries that follow it, and resumes following with
    /// everything up to the snapshot committed. Persisted state that does not
    /// fit together is refused, never repaired.
    pub fn recover(
        id: NodeId,
        membership: Membership,
        current_term: u64,
        voted_for: Option<NodeId>,
        snapshot: Option<Snapshot>,
        entries: Vec<Entry>,
    ) -> (r: Result<RaftNode, CorruptPersistentState>)
        ensures
            ({
                let snap = match snapshot {
                    Some(sn) => Some((sn.last_included, sn.data@)),
                    None => None,
                };
                let base = recovered_base(snap);
                let ev = entries_view(entries@);
                let log = LogModel { base, entries: ev };
                if !snapshot_loads(snap) {
                    r == Err::<RaftNode, CorruptPersistentState>(CorruptPersistentState::Snapshot)
                } else if !batch_follows(base, ev) {
                    r == Err::<RaftNode, CorruptPersistentState>(CorruptPersistentState::Log)
                } else if log.last_id().term > current_term {
                    r == Err::<RaftNode, CorruptPersistentState>(CorruptPersistentState::Term)
                } else {
                    r matches Ok(n) && n.wf() && n@ == ({
                        let m = match snapshot {
                            Some(sn) => sn.membership@,
                            None => membership@,
                        };
                        let s = RaftView {
                            id,
                            current_term,
                            voted_for,
                            role: Role::Follower,
                            leader: None,
                            commit_index: base.index,
                            log,
                            sm: match snap {
                                Some((last, data)) => choose|x: SmView| image_at(x, data, last),
                                None => n@.sm,
                            },
                            membership: m,
                            votes: Seq::empty(),
                            progress: Seq::empty(),
                        };
                        RaftView { role: s.idle_role(), ..s }
                    }) && (snapshot is None ==> n@.sm.kv.len() == 0 && n@.sm.counters.len() == 0
                        && n@.sm.last_applied == base)
                }
            }),
    {
        let ghost snap = match &snapshot {
            Some(sn) => Some((sn.last_included, sn.data@)),
            None => None,
        };
        let (base, sm, membership) = match snapshot {
            None => (LogId { term: 0, index: 0 }, StateMachine::new(), membership),
            Some(sn) => {
                if sn.last_included.index == u64::MAX {
                    return Err(CorruptPersistentState::Snapshot);
                }
                let sm = match StateMachine::decode(&sn.data) {
                    Some(sm) => sm,
                    None => {
                        return Err(CorruptPersistentState::Snapshot);
                    },
                };
                if sm.last_applied() != sn.last_included {
                    proof {
                        if exists|x: SmView| image_at(x, sn.data@, sn.last_included) {
                            let x = choose|x: SmView| image_at(x, sn.data@, sn.last_included);
                            lemma_image_injective(x, sm@);
                        }
                    }
                    return Err(CorruptPersistentState::Snapshot);
                }
                proof {
                    assert(image_at(sm@, sn.data@, sn.last_included));
                    let x = choose|x: SmView| image_at(x, sn.data@, sn.last_included);
                    lemma_image_injective(x, sm@);
                }
                (sn.last_included, sm, sn.membership)
            },
        };
        let ghost ev = entries_view(entries@);
        let mut log = RaftLog::new();
        log.reset(base);
        let ghost empty = log@;
        proof {
            lemma_first_mismatch(empty, base, ev, 0);
            if first_mismatch(empty, base, ev, 0) > 0 {
                assert(crate::log::agrees(empty, base, ev, 0));
            }
            assert(empty.entries.take(0) + ev.skip(0) =~= ev);
        }
        match log.merge(base, entries) {
            Ok(()) => {},
            Err(_) => {
                return Err(CorruptPersistentState::Log);
            },
        }
        assert(log@.entries =~= ev);
        if log.last_log_id().term > current_term {
            return Err(CorruptPersistentState::Term);
        }
        let mut node = RaftNode {
            id,
            current_term,
            voted_for,
            role: Role::Follower,
            leader: None,
            commit_index: base.index,
            log,
            sm,
            membership,
            votes: Vec::new(),
            progress: Vec::new(),
        };
        node.role = node.idle_role();
        assert(node@.votes =~= Seq::<NodeId>::empty());
        assert(node@.progress =~= Seq::<Progress>::empty());
        Ok(node)
    }
}

} // verus!
