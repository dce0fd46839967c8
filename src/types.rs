use vstd::prelude::*;

verus! {

/// Identifier of a node of the cluster.
pub type NodeId = u64;

/// Position of an entry in the replicated log: the term of the leader that
/// created it and its index.
#[derive(Clone, Copy, Debug, PartialEq, Eq, Structural)]
pub struct LogId {
    pub term: u64,
    pub index: u64,
}

/// Raft's "at least as up to date" order on the last entries of two logs:
/// terms first, then indexes.
pub open spec fn up_to_date(a: LogId, b: LogId) -> bool {
    a.term > b.term || (a.term == b.term && a.index >= b.index)
}

/// Decides `up_to_date(a, b)`.
pub fn is_up_to_date(a: LogId, b: LogId) -> (r: bool)
    ensures
        r == up_to_date(a, b),
{
    a.term > b.term || (a.term == b.term && a.index >= b.index)
}

/// A client command, carried by a log entry and applied by the state machine.
#[derive(Debug)]
pub enum Command {
    Put { key: Vec<u8>, value: Vec<u8> },
    CompareAndSwap { key: Vec<u8>, expected_version: u64, value: Vec<u8> },
    SequenceNext { name: Vec<u8>, step: u64 },
}

pub enum CommandView {
    Put { key: Seq<u8>, value: Seq<u8> },
    CompareAndSwap { key: Seq<u8>, expected_version: u64, value: Seq<u8> },
    SequenceNext { name: Seq<u8>, step: u64 },
}

impl View for Command {
    type V = CommandView;

    open spec fn view(&self) -> CommandView {
        match self {
            Command::Put { key, value } => CommandView::Put { key: key@, value: value@ },
            Command::CompareAndSwap { key, expected_version, value } => CommandView::CompareAndSwap {
                key: key@,
                expected_version: *expected_version,
                value: value@,
            },
            Command::SequenceNext { name, step } => CommandView::SequenceNext { name: name@, step: *step },
        }
    }
}

/// Copies a byte string.
pub fn copy_bytes(b: &Vec<u8>) -> (r: Vec<u8>)
    ensures
        r@ == b@,
{
    let r = b.clone();
    assert(r@ =~= b@);
    r
}

impl Command {
    pub fn copy(&self) -> (r: Command)
        ensures
            r@ == self@,
    {
        match self {
            Command::Put { key, value } => Command::Put { key: copy_bytes(key), value: copy_bytes(value) },
            Command::CompareAndSwap { key, expected_version, value } => Command::CompareAndSwap {
                key: copy_bytes(key),
                expected_version: *expected_version,
                value: copy_bytes(value),
            },
            Command::SequenceNext { name, step } => Command::SequenceNext { name: copy_bytes(name), step: *step },
        }
    }
}

/// The voting configuration of the cluster. During a change it is joint: a
/// decision then needs a majority of `voters` and a majority of `next`.
#[derive(Debug)]
pub struct Membership {
    pub voters: Vec<NodeId>,
    pub next: Option<Vec<NodeId>>,
}

pub struct MembershipView {
    pub voters: Seq<NodeId>,
    pub next: Option<Seq<NodeId>>,
}

impl View for Membership {
    type V = MembershipView;

    open spec fn view(&self) -> MembershipView {
        MembershipView {
            voters: self.voters@,
            next: match self.next {
                Some(n) => Some(n@),
                None => None,
            },
        }
    }
}

/// Copies a list of node ids.
pub fn copy_ids(b: &Vec<NodeId>) -> (r: Vec<NodeId>)
    ensures
        r@ == b@,
{
    let r = b.clone();
    assert(r@ =~= b@);
    r
}

impl Membership {
    pub fn copy(&self) -> (r: Membership)
        ensures
            r@ == self@,
    {
        Membership {
            voters: copy_ids(&self.voters),
            next: match &self.next {
                Some(n) => Some(copy_ids(n)),
                None => None,
            },
        }
    }
}

/// What a log entry carries.
#[derive(Debug)]
pub enum Payload {
    Noop,
    Membership(Membership),
    Write(Command),
}

pub enum PayloadView {
    Noop,
    Membership(MembershipView),
    Write(CommandView),
}

impl View for Payload {
    type V = PayloadView;

    open spec fn view(&self) -> PayloadView {
        match self {
            Payload::Noop => PayloadView::Noop,
            Payload::Membership(m) => PayloadView::Membership(m@),
            Payload::Write(c) => PayloadView::Write(c@),
        }
    }
}

impl Payload {
    pub fn copy(&self) -> (r: Payload)
        ensures
            r@ == self@,
    {
        match self {
            Payload::Noop => Payload::Noop,
            Payload::Membership(m) => Payload::Membership(m.copy()),
            Payload::Write(c) => Payload::Write(c.copy()),
        }
    }
}

/// An entry of the replicated log.
#[derive(Debug)]
pub struct Entry {
    pub log_id: LogId,
    pub payload: Payload,
}

pub struct EntryView {
    pub log_id: LogId,
    pub payload: PayloadView,
}

impl View for Entry {
    type V = EntryView;

    open spec fn view(&self) -> EntryView {
        EntryView { log_id: self.log_id, payload: self.payload@ }
    }
}

impl Entry {
    pub fn copy(&self) -> (r: Entry)
        ensures
            r@ == self@,
    {
        Entry { log_id: self.log_id, payload: self.payload.copy() }
    }
}

/// The views of a vector of entries.
pub open spec fn entries_view(v: Seq<Entry>) -> Seq<EntryView> {
    v.map_values(|e: Entry| e@)
}

} // verus!
