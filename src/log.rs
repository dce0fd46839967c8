use vstd::prelude::*;

use crate::types::{entries_view, Entry, EntryView, LogId, Payload};

verus! {

/// The mathematical model of a log: the id of the last entry covered by a
/// snapshot (index 0, term 0 when there is none), then the entries that follow
/// it, the `k`-th of them at index `base.index + 1 + k`.
pub struct LogModel {
    pub base: LogId,
    pub entries: Seq<EntryView>,
}

impl LogModel {
    pub open spec fn wf(self) -> bool {
        &&& self.base.index + self.entries.len() < u64::MAX
        &&& forall|k: int|
            0 <= k < self.entries.len() ==> (#[trigger] self.entries[k]).log_id.index
                == self.base.index + 1 + k
    }

    pub open spec fn last_index(self) -> int {
        self.base.index + self.entries.len()
    }

    pub open spec fn last_id(self) -> LogId {
        if self.entries.len() == 0 {
            self.base
        } else {
            self.entries.last().log_id
        }
    }

    /// The entry stored at `index`, if the log holds one there.
    pub open spec fn entry_at(self, index: int) -> Option<EntryView> {
        if self.base.index < index <= self.last_index() {
            Some(self.entries[index - self.base.index - 1])
        } else {
            None
        }
    }

    /// The term at `index`: that of the stored entry, or of the snapshot's last
    /// entry.
    pub open spec fn term_at(self, index: int) -> Option<u64> {
        if index == self.base.index {
            Some(self.base.term)
        } else if self.base.index < index <= self.last_index() {
            Some(self.entries[index - self.base.index - 1].log_id.term)
        } else {
            None
        }
    }
}

/// A batch of entries sent after `prev` is well formed when its `k`-th entry
/// has index `prev.index + 1 + k`.
pub open spec fn batch_follows(prev: LogId, batch: Seq<EntryView>) -> bool {
    &&& prev.index + batch.len() < u64::MAX
    &&& forall|k: int|
        0 <= k < batch.len() ==> (#[trigger] batch[k]).log_id.index == prev.index + 1 + k
}

/// Whether the log already holds, at the place of the `k`-th entry of a batch
/// sent after `prev`, an entry of the same term.
pub open spec fn agrees(m: LogModel, prev: LogId, batch: Seq<EntryView>, k: int) -> bool {
    m.term_at(prev.index + 1 + k) == Some(batch[k].log_id.term)
}

/// The first position `>= k` of the batch where the log does not agree with it,
/// or the batch's length.
pub open spec fn first_mismatch(m: LogModel, prev: LogId, batch: Seq<EntryView>, k: nat) -> nat
    decreases batch.len() - k,
{
    if k >= batch.len() {
        batch.len()
    } else if agrees(m, prev, batch, k as int) {
        first_mismatch(m, prev, batch, k + 1)
    } else {
        k
    }
}

/// What the log becomes when it accepts a batch sent after `prev`: entries that
/// it already holds with the same term are kept, and from the first one that
/// differs on, its suffix is replaced by the rest of the batch.
pub open spec fn merged(m: LogModel, prev: LogId, batch: Seq<EntryView>) -> LogModel {
    let k0 = first_mismatch(m, prev, batch, 0);
    if k0 == batch.len() {
        m
    } else {
        LogModel {
            base: m.base,
            entries: m.entries.take(prev.index + k0 - m.base.index) + batch.skip(k0 as int),
        }
    }
}

/// Whether a log accepts a well formed batch sent after `prev`: `prev` is not
/// covered by its snapshot, and the log holds `prev`'s term at `prev`'s index.
pub open spec fn accepts(m: LogModel, prev: LogId) -> bool {
    prev.index >= m.base.index && m.term_at(prev.index as int) == Some(prev.term)
}

/// Where a leader whose batch was refused may start its next one: after the
/// snapshot when `prev` is covered by it, after the last entry when `prev` lies
/// beyond it, and else at `prev` itself, whose term differs.
pub open spec fn conflict_index(m: LogModel, prev: LogId) -> u64 {
    if prev.index < m.base.index {
        (m.base.index + 1) as u64
    } else if prev.index > m.last_index() {
        (m.last_index() + 1) as u64
    } else {
        prev.index
    }
}

pub proof fn lemma_first_mismatch(m: LogModel, prev: LogId, batch: Seq<EntryView>, k: nat)
    requires
        k <= batch.len(),
    ensures
        k <= first_mismatch(m, prev, batch, k) <= batch.len(),
        forall|j: int|
            k <= j < first_mismatch(m, prev, batch, k) ==> agrees(m, prev, batch, j),
        first_mismatch(m, prev, batch, k) < batch.len() ==> !agrees(
            m,
            prev,
            batch,
            first_mismatch(m, prev, batch, k) as int,
        ),
    decreases batch.len() - k,
{
    if k < batch.len() && agrees(m, prev, batch, k as int) {
        lemma_first_mismatch(m, prev, batch, k + 1);
    }
}

proof fn lemma_first_mismatch_skip(m: LogModel, prev: LogId, batch: Seq<EntryView>, k: nat)
    requires
        k <= batch.len(),
        forall|j: int| 0 <= j < k ==> agrees(m, prev, batch, j),
    ensures
        first_mismatch(m, prev, batch, 0) == first_mismatch(m, prev, batch, k),
    decreases k,
{
    if k > 0 {
        lemma_first_mismatch_skip(m, prev, batch, (k - 1) as nat);
    }
}

/// What `merged` keeps of the log and what it takes from the batch.
proof fn lemma_merged_shape(m: LogModel, prev: LogId, batch: Seq<EntryView>)
    requires
        m.wf(),
        batch_follows(prev, batch),
        accepts(m, prev),
    ensures
        ({
            let k0 = first_mismatch(m, prev, batch, 0);
            let m2 = merged(m, prev, batch);
            &&& m2.wf()
            &&& k0 <= batch.len()
            &&& m2.base == m.base
            &&& forall|i: int| i <= prev.index + k0 ==> #[trigger] m2.term_at(i) == m.term_at(i)
            &&& forall|i: int| i <= prev.index + k0 ==> #[trigger] m2.entry_at(i) == m.entry_at(i)
            &&& forall|k: int|
                k0 <= k < batch.len() ==> m2.entry_at(prev.index + 1 + k) == Some(
                    #[trigger] batch[k],
                )
            &&& forall|k: int| 0 <= k < k0 ==> agrees(m, prev, batch, k)
            &&& k0 < batch.len() ==> m2.last_index() == prev.index + batch.len()
            &&& k0 == batch.len() ==> m2 == m
        }),
{
    lemma_first_mismatch(m, prev, batch, 0);
    let k0 = first_mismatch(m, prev, batch, 0);
    if k0 > 0 {
        assert(agrees(m, prev, batch, k0 - 1));
    }
    let m2 = merged(m, prev, batch);
    if k0 < batch.len() {
        let cut = prev.index + k0 - m.base.index;
        assert(m2.entries.len() == cut + batch.len() - k0);
        assert forall|j: int| 0 <= j < m2.entries.len() implies (#[trigger] m2.entries[j]).log_id.index
            == m2.base.index + 1 + j by {
            if j >= cut {
                assert(m2.entries[j] == batch[j - (prev.index - m.base.index)]);
            }
        }
        assert forall|k: int| k0 <= k < batch.len() implies m2.entry_at(prev.index + 1 + k) == Some(
            #[trigger] batch[k],
        ) by {
            assert(m2.entries[prev.index + k - m.base.index] == batch[k]);
        }
    }
}

/// Delivering the same AppendEntries batch twice changes the log no more than
/// delivering it once: a log that accepted a batch accepts it again and stays
/// as it is.
pub proof fn lemma_merge_idempotent(m: LogModel, prev: LogId, batch: Seq<EntryView>)
    requires
        m.wf(),
        batch_follows(prev, batch),
        accepts(m, prev),
    ensures
        accepts(merged(m, prev, batch), prev),
        merged(merged(m, prev, batch), prev, batch) == merged(m, prev, batch),
{
    lemma_merged_shape(m, prev, batch);
    let m2 = merged(m, prev, batch);
    let k0 = first_mismatch(m, prev, batch, 0);
    assert(m2.term_at(prev.index as int) == m.term_at(prev.index as int));
    assert forall|k: int| 0 <= k < batch.len() implies agrees(m2, prev, batch, k) by {
        if k < k0 {
            assert(agrees(m, prev, batch, k));
            assert(m2.term_at(prev.index + 1 + k) == m.term_at(prev.index + 1 + k));
        } else {
            assert(m2.entry_at(prev.index + 1 + k) == Some(batch[k]));
        }
    }
    lemma_first_mismatch(m2, prev, batch, 0);
}

/// Raft's log matching invariant between two logs: where they hold the same term at
/// an index, they hold the same entries at every index up to it that both store.
pub open spec fn logs_match(a: LogModel, b: LogModel) -> bool {
    forall|i: int, j: int|
        #![trigger a.term_at(i), b.term_at(i), a.entry_at(j), b.entry_at(j)]
        j <= i && a.term_at(i) is Some && a.term_at(i) == b.term_at(i) && a.entry_at(j) is Some
            && b.entry_at(j) is Some ==> a.entry_at(j) == b.entry_at(j)
}

/// A follower whose log matches the leader's keeps matching it after it
/// accepts a batch that the leader took from its own log after `prev`, and
/// then stores the leader's entries at every index up to the batch's end.
pub proof fn lemma_merge_keeps_logs_matching(
    leader: LogModel,
    f: LogModel,
    prev: LogId,
    batch: Seq<EntryView>,
)
    requires
        leader.wf(),
        f.wf(),
        logs_match(leader, f),
        batch_follows(prev, batch),
        accepts(f, prev),
        leader.term_at(prev.index as int) == Some(prev.term),
        forall|k: int|
            0 <= k < batch.len() ==> leader.entry_at(prev.index + 1 + k) == Some(#[trigger] batch[k]),
    ensures
        logs_match(leader, merged(f, prev, batch)),
        forall|j: int|
            j <= prev.index + batch.len() && leader.entry_at(j) is Some && (#[trigger] merged(
                f,
                prev,
                batch,
            ).entry_at(j)) is Some ==> leader.entry_at(j) == merged(f, prev, batch).entry_at(j),
{
    lemma_merged_shape(f, prev, batch);
    let f2 = merged(f, prev, batch);
    let k0 = first_mismatch(f, prev, batch, 0);
    let cut = prev.index + k0;
    if k0 < batch.len() {
        assert forall|i: int, j: int|
            j <= i && leader.term_at(i) is Some && leader.term_at(i) == f2.term_at(i)
                && leader.entry_at(j) is Some && f2.entry_at(j) is Some implies leader.entry_at(j)
            == f2.entry_at(j) by {
            if j > cut {
                let k = j - prev.index - 1;
                assert(f2.entry_at(prev.index + 1 + k) == Some(batch[k]));
            } else if i <= cut {
                assert(f2.term_at(i) == f.term_at(i));
                assert(f2.entry_at(j) == f.entry_at(j));
            } else if j <= prev.index {
                assert(f2.entry_at(j) == f.entry_at(j));
                assert(f.term_at(prev.index as int) == leader.term_at(prev.index as int));
                assert(leader.term_at(prev.index as int) == f.term_at(prev.index as int)
                    && leader.entry_at(j) is Some && f.entry_at(j) is Some ==> leader.entry_at(j)
                    == f.entry_at(j));
            } else {
                let k = j - prev.index - 1;
                assert(agrees(f, prev, batch, k));
                assert(f2.entry_at(j) == f.entry_at(j));
                assert(leader.entry_at(prev.index + 1 + k) == Some(batch[k]));
                assert(leader.term_at(j) == f.term_at(j));
                assert(leader.term_at(j) == f.term_at(j) && leader.entry_at(j) is Some
                    && f.entry_at(j) is Some ==> leader.entry_at(j) == f.entry_at(j));
            }
        }
    }
    let end = prev.index + batch.len();
    assert(leader.term_at(end) is Some && leader.term_at(end) == f2.term_at(end)) by {
        if batch.len() > 0 {
            let k = batch.len() - 1;
            assert(leader.entry_at(prev.index + 1 + k) == Some(batch[k]));
            if k < k0 {
                assert(agrees(f, prev, batch, k));
                assert(f2.term_at(end) == f.term_at(end));
            } else {
                assert(f2.entry_at(prev.index + 1 + k) == Some(batch[k]));
            }
        } else {
            assert(f2.term_at(end) == f.term_at(end));
        }
    }
    assert forall|j: int|
        j <= end && leader.entry_at(j) is Some && (#[trigger] f2.entry_at(j)) is Some implies leader.entry_at(j)
        == f2.entry_at(j) by {
        assert(j <= end && leader.term_at(end) is Some && leader.term_at(end) == f2.term_at(end)
            && leader.entry_at(j) is Some && f2.entry_at(j) is Some ==> leader.entry_at(j)
            == f2.entry_at(j));
    }
}

/// Why a follower's log refused a batch.
#[derive(Clone, Copy, Debug, PartialEq, Eq, Structural)]
pub enum LogReject {
    /// The batch's entries do not carry the consecutive indexes that follow `prev`.
    Malformed,
    /// The log does not hold `prev`; the leader may go on from `conflict_index`.
    Conflict { conflict_index: u64 },
}

/// A node's log: entries after the snapshot's last one, by index.
pub struct RaftLog {
    base: LogId,
    entries: Vec<Entry>,
}

impl View for RaftLog {
    type V = LogModel;

    closed spec fn view(&self) -> LogModel {
        LogModel { base: self.base, entries: entries_view(self.entries@) }
    }
}

impl RaftLog {
    pub open spec fn wf(&self) -> bool {
        self@.wf()
    }

    /// An empty log with no snapshot.
    pub fn new() -> (r: RaftLog)
        ensures
            r.wf(),
            r@.base == (LogId { term: 0, index: 0 }),
            r@.entries.len() == 0,
    {
        let r = RaftLog { base: LogId { term: 0, index: 0 }, entries: Vec::new() };
        assert(r@.entries =~= Seq::<EntryView>::empty());
        r
    }

    /// The id of the last entry covered by the snapshot.
    pub fn base(&self) -> (r: LogId)
        ensures
            r == self@.base,
    {
        self.base
    }

    /// The id of the last entry, or the snapshot's last one if none follows it.
    pub fn last_log_id(&self) -> (r: LogId)
        requires
            self.wf(),
        ensures
            r == self@.last_id(),
    {
        if self.entries.len() == 0 {
            self.base
        } else {
            self.entries[self.entries.len() - 1].log_id
        }
    }

    pub fn last_index(&self) -> (r: u64)
        requires
            self.wf(),
        ensures
            r == self@.last_index(),
    {
        self.base.index + self.entries.len() as u64
    }

    /// The term at `index`, if the log or its snapshot covers it.
    pub fn term_at(&self, index: u64) -> (r: Option<u64>)
        requires
            self.wf(),
        ensures
            r == self@.term_at(index as int),
    {
        if index == self.base.index {
            Some(self.base.term)
        } else if self.base.index < index && index - self.base.index <= self.entries.len() as u64 {
            Some(self.entries[(index - self.base.index - 1) as usize].log_id.term)
        } else {
            None
        }
    }

    /// A copy of the entry at `index`, if the log holds one there.
    pub fn get(&self, index: u64) -> (r: Option<Entry>)
        requires
            self.wf(),
        ensures
            match r {
                Some(e) => self@.entry_at(index as int) == Some(e@),
                None => self@.entry_at(index as int) is None,
            },
    {
        if self.base.index < index && index - self.base.index <= self.entries.len() as u64 {
            Some(self.entries[(index - self.base.index - 1) as usize].copy())
        } else {
            None
        }
    }

    /// Appends a new entry of term `term` after the last one.
    pub fn append(&mut self, term: u64, payload: Payload) -> (r: LogId)
        requires
            old(self).wf(),
            old(self)@.last_index() + 1 < u64::MAX,
        ensures
            final(self).wf(),
            r == (LogId { term, index: (old(self)@.last_index() + 1) as u64 }),
            final(self)@.base == old(self)@.base,
            final(self)@.entries == old(self)@.entries.push(EntryView { log_id: r, payload: payload@ }),
    {
        let log_id = LogId { term, index: self.base.index + self.entries.len() as u64 + 1 };
        let ghost before = self@.entries;
        self.entries.push(Entry { log_id, payload });
        assert(self@.entries =~= before.push(EntryView { log_id, payload: payload@ }));
        log_id
    }

    /// Discards the entries at `index` and after.
    pub fn truncate_from(&mut self, index: u64)
        requires
            old(self).wf(),
            old(self)@.base.index < index,
        ensures
            final(self).wf(),
            final(self)@.base == old(self)@.base,
            final(self)@.entries == if index <= old(self)@.last_index() {
                old(self)@.entries.take(index - old(self)@.base.index - 1)
            } else {
                old(self)@.entries
            },
    {
        let ghost before = self@.entries;
        if index - self.base.index <= self.entries.len() as u64 {
            let keep = (index - self.base.index - 1) as usize;
            self.entries.truncate(keep);
            assert(self@.entries =~= before.take(keep as int));
        }
    }

    /// Discards the entries before `index`, which the log holds or which is the
    /// index just after its last entry; the snapshot then ends at `index - 1`.
    pub fn truncate_before(&mut self, index: u64)
        requires
            old(self).wf(),
            old(self)@.base.index < index <= old(self)@.last_index() + 1,
        ensures
            final(self).wf(),
            final(self)@.base == (LogId {
                term: old(self)@.term_at(index - 1)->Some_0,
                index: (index - 1) as u64,
            }),
            final(self)@.entries == old(self)@.entries.skip(index - 1 - old(self)@.base.index),
            forall|i: int| i >= index - 1 ==> final(self)@.term_at(i) == old(self)@.term_at(i),
            forall|i: int| i >= index ==> final(self)@.entry_at(i) == old(self)@.entry_at(i),
    {
        let ghost before = self@;
        let term = match self.term_at(index - 1) {
            Some(t) => t,
            None => 0,
        };
        assert(index - 1 - self.base.index <= self.entries.len());
        let drop = (index - 1 - self.base.index) as usize;
        let rest = self.entries.split_off(drop);
        self.entries = rest;
        self.base = LogId { term, index: index - 1 };
        assert(self@.entries =~= before.entries.skip(drop as int));
    }

    /// Discards every entry and makes `base` the snapshot's last entry.
    pub fn reset(&mut self, base: LogId)
        requires
            base.index < u64::MAX,
        ensures
            final(self).wf(),
            final(self)@.base == base,
            final(self)@.entries.len() == 0,
    {
        self.entries = Vec::new();
        self.base = base;
        assert(self@.entries =~= Seq::<EntryView>::empty());
    }

    /// Copies of the entries from `start` on, at most `max` of them.
    pub fn entries_from(&self, start: u64, max: usize) -> (r: Vec<Entry>)
        requires
            self.wf(),
            self@.base.index < start,
        ensures
            entries_view(r@) == if start <= self@.last_index() {
                let s = start - self@.base.index - 1;
                let e = if self@.last_index() - start + 1 <= max {
                    self@.entries.len() as int
                } else {
                    s + max
                };
                self@.entries.subrange(s, e)
            } else {
                Seq::<EntryView>::empty()
            },
    {
        let mut r: Vec<Entry> = Vec::new();
        if start - self.base.index > self.entries.len() as u64 {
            assert(entries_view(r@) =~= Seq::<EntryView>::empty());
            return r;
        }
        let s = (start - self.base.index - 1) as usize;
        let e = if self.entries.len() - s <= max {
            self.entries.len()
        } else {
            s + max
        };
        let mut i = s;
        while i < e
            invariant
                s <= i <= e <= self.entries.len(),
                entries_view(r@) =~= entries_view(self.entries@).subrange(s as int, i as int),
            decreases e - i,
        {
            let e = self.entries[i].copy();
            let ghost r0 = r@;
            r.push(e);
            assert(entries_view(r@) =~= entries_view(r0).push(e@));
            i += 1;
        }
        r
    }

    /// The follower's side of AppendEntries: checks a batch sent after `prev`
    /// and, where the log accepts it, merges it (see `merged`).
    pub fn merge(&mut self, prev: LogId, mut batch: Vec<Entry>) -> (r: Result<(), LogReject>)
        requires
            old(self).wf(),
        ensures
            final(self).wf(),
            !batch_follows(prev, entries_view(batch@)) ==> r == Err::<(), LogReject>(
                LogReject::Malformed,
            ),
            batch_follows(prev, entries_view(batch@)) && !accepts(old(self)@, prev) ==> r == Err::<
                (),
                LogReject,
            >(LogReject::Conflict { conflict_index: conflict_index(old(self)@, prev) }),
            batch_follows(prev, entries_view(batch@)) && accepts(old(self)@, prev) ==> r is Ok,
            r is Ok ==> final(self)@ == merged(old(self)@, prev, entries_view(batch@)),
            r is Err ==> final(self)@ == old(self)@,
    {
        let ghost bv = entries_view(batch@);
        let ghost m = self@;
        let n = batch.len();
        assert(bv.len() == n);
        if n as u64 >= u64::MAX - prev.index {
            return Err(LogReject::Malformed);
        }
        let mut k: usize = 0;
        while k < n
            invariant
                0 <= k <= n == batch.len(),
                bv == entries_view(batch@),
                prev.index + n < u64::MAX,
                self@ == m,
                self.wf(),
                forall|j: int| 0 <= j < k ==> (#[trigger] bv[j]).log_id.index == prev.index + 1 + j,
            decreases n - k,
        {
            if batch[k].log_id.index != prev.index + 1 + k as u64 {
                assert(bv[k as int].log_id.index != prev.index + 1 + k);
                return Err(LogReject::Malformed);
            }
            k += 1;
        }
        if prev.index < self.base.index {
            return Err(LogReject::Conflict { conflict_index: self.base.index + 1 });
        }
        match self.term_at(prev.index) {
            None => {
                return Err(LogReject::Conflict { conflict_index: self.last_index() + 1 });
            },
            Some(t) => {
                if t != prev.term {
                    return Err(LogReject::Conflict { conflict_index: prev.index });
                }
            },
        }
        let mut k: usize = 0;
        let mut found = false;
        while k < n && !found
            invariant
                0 <= k <= n == batch.len(),
                bv == entries_view(batch@),
                self@ == m,
                self.wf(),
                batch_follows(prev, bv),
                forall|j: int| 0 <= j < k ==> agrees(m, prev, bv, j),
                found ==> k < n && !agrees(m, prev, bv, k as int),
            decreases n - k + (if found { 0int } else { 1int }),
        {
            let t = self.term_at(prev.index + 1 + k as u64);
            if t != Some(batch[k].log_id.term) {
                found = true;
            } else {
                k += 1;
            }
        }
        proof {
            lemma_first_mismatch_skip(m, prev, bv, k as nat);
        }
        if k < n {
            proof {
                if k > 0 {
                    assert(agrees(m, prev, bv, k - 1));
                }
                assert(prev.index + k <= m.last_index());
            }
            let keep = prev.index + k as u64 + 1;
            self.truncate_from(keep);
            assert(self@.entries =~= m.entries.take(prev.index + k - m.base.index));
            let mut tail = batch.split_off(k);
            let ghost old_entries = self.entries@;
            self.entries.append(&mut tail);
            assert(entries_view(self.entries@) =~= entries_view(old_entries) + bv.skip(k as int));
            assert(self@.entries =~= merged(m, prev, bv).entries);
            assert forall|j: int| 0 <= j < self@.entries.len() implies (
            #[trigger] self@.entries[j]).log_id.index == self@.base.index + 1 + j by {
                if j >= prev.index + k - m.base.index {
                    assert(self@.entries[j] == bv[j - (prev.index - m.base.index)]);
                }
            }
        }
        Ok(())
    }
}

} // verus!
