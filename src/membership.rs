use vstd::prelude::*;

use crate::types::{Membership, MembershipView, NodeId};

verus! {

/// How many of the places of `voters` hold an id of `granted`.
pub open spec fn count_granted(voters: Seq<NodeId>, granted: Set<NodeId>) -> nat
    decreases voters.len(),
{
    if voters.len() == 0 {
        0
    } else {
        count_granted(voters.drop_last(), granted) + if granted.contains(voters.last()) {
            1nat
        } else {
            0nat
        }
    }
}

/// More than half of `voters` are in `granted`.
pub open spec fn majority(voters: Seq<NodeId>, granted: Set<NodeId>) -> bool {
    2 * count_granted(voters, granted) > voters.len()
}

/// `granted` is a quorum of the configuration: a majority of its voters and,
/// while the configuration is joint, a majority of the next voters too.
pub open spec fn is_quorum(m: MembershipView, granted: Set<NodeId>) -> bool {
    &&& majority(m.voters, granted)
    &&& match m.next {
        Some(n) => majority(n, granted),
        None => true,
    }
}

/// Whether `id` votes in the configuration.
pub open spec fn is_voter(m: MembershipView, id: NodeId) -> bool {
    m.voters.contains(id) || match m.next {
        Some(n) => n.contains(id),
        None => false,
    }
}

proof fn lemma_count_overlap(voters: Seq<NodeId>, a: Set<NodeId>, b: Set<NodeId>)
    ensures
        count_granted(voters, a) + count_granted(voters, b) <= voters.len() + count_granted(
            voters,
            a.intersect(b),
        ),
        count_granted(voters, a) <= voters.len(),
    decreases voters.len(),
{
    if voters.len() > 0 {
        lemma_count_overlap(voters.drop_last(), a, b);
    }
}

proof fn lemma_count_witness(voters: Seq<NodeId>, s: Set<NodeId>)
    requires
        count_granted(voters, s) > 0,
    ensures
        exists|id: NodeId| voters.contains(id) && s.contains(id),
    decreases voters.len(),
{
    if !s.contains(voters.last()) {
        lemma_count_witness(voters.drop_last(), s);
        let id = choose|id: NodeId| voters.drop_last().contains(id) && s.contains(id);
        let i = choose|i: int| 0 <= i < voters.drop_last().len() && voters.drop_last()[i] == id;
        assert(voters[i] == id);
    } else {
        assert(voters[voters.len() - 1] == voters.last());
    }
}

/// Any two quorums of one configuration share a voter.
pub proof fn lemma_quorums_intersect(m: MembershipView, a: Set<NodeId>, b: Set<NodeId>)
    requires
        is_quorum(m, a),
        is_quorum(m, b),
    ensures
        exists|id: NodeId| m.voters.contains(id) && a.contains(id) && b.contains(id),
{
    lemma_count_overlap(m.voters, a, b);
    lemma_count_witness(m.voters, a.intersect(b));
}

/// Election safety: under one configuration, two candidates that each gathered
/// grants from a quorum in the same term are the same node, since a node grants
/// its vote of a term (`vote_of`) to one candidate only.
pub proof fn lemma_election_safety(
    m: MembershipView,
    vote_of: Map<NodeId, NodeId>,
    a: NodeId,
    grants_a: Set<NodeId>,
    b: NodeId,
    grants_b: Set<NodeId>,
)
    requires
        is_quorum(m, grants_a),
        is_quorum(m, grants_b),
        forall|v: NodeId| #[trigger]
            grants_a.contains(v) ==> vote_of.contains_key(v) && vote_of[v] == a,
        forall|v: NodeId| #[trigger]
            grants_b.contains(v) ==> vote_of.contains_key(v) && vote_of[v] == b,
    ensures
        a == b,
{
    lemma_quorums_intersect(m, grants_a, grants_b);
    let id = choose|id: NodeId| m.voters.contains(id) && grants_a.contains(id) && grants_b.contains(id);
    assert(vote_of[id] == a);
}

/// Whether `ids` holds `id`.
pub fn contains_id(ids: &Vec<NodeId>, id: NodeId) -> (r: bool)
    ensures
        r == ids@.contains(id),
{
    let mut i: usize = 0;
    while i < ids.len()
        invariant
            0 <= i <= ids.len(),
            forall|j: int| 0 <= j < i ==> ids@[j] != id,
        decreases ids.len() - i,
    {
        if ids[i] == id {
            return true;
        }
        i += 1;
    }
    false
}

/// Decides `majority(voters@, granted@.to_set())`.
pub fn has_majority(voters: &Vec<NodeId>, granted: &Vec<NodeId>) -> (r: bool)
    ensures
        r == majority(voters@, granted@.to_set()),
{
    let ghost g = granted@.to_set();
    let mut count: usize = 0;
    let mut i: usize = 0;
    while i < voters.len()
        invariant
            0 <= i <= voters.len(),
            g == granted@.to_set(),
            count == count_granted(voters@.take(i as int), g),
            count <= i,
        decreases voters.len() - i,
    {
        assert(voters@.take(i + 1).drop_last() =~= voters@.take(i as int));
        assert(voters@.take(i + 1).last() == voters@[i as int]);
        if contains_id(granted, voters[i]) {
            count += 1;
        }
        i += 1;
    }
    assert(voters@.take(voters.len() as int) =~= voters@);
    count > voters.len() - count
}

impl Membership {
    /// Decides whether `granted` is a quorum of this configuration.
    pub fn is_quorum(&self, granted: &Vec<NodeId>) -> (r: bool)
        ensures
            r == is_quorum(self@, granted@.to_set()),
    {
        if !has_majority(&self.voters, granted) {
            return false;
        }
        match &self.next {
            Some(n) => has_majority(n, granted),
            None => true,
        }
    }

    /// Decides whether `id` votes in this configuration.
    pub fn is_voter(&self, id: NodeId) -> (r: bool)
        ensures
            r == is_voter(self@, id),
    {
        contains_id(&self.voters, id) || match &self.next {
            Some(n) => contains_id(n, id),
            None => false,
        }
    }
}

} // verus!
