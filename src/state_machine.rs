use vstd::prelude::*;

use crate::types::{copy_bytes, Command, CommandView, Entry, LogId, Payload, PayloadView};

verus! {

/// A key, its value, and the number of writes that the key has seen.
pub struct KvEntry {
    pub key: Vec<u8>,
    pub value: Vec<u8>,
    pub version: u64,
}

pub struct KvView {
    pub key: Seq<u8>,
    pub value: Seq<u8>,
    pub version: u64,
}

/// A named counter and its current value (0 before its first advance).
pub struct Counter {
    pub name: Vec<u8>,
    pub value: u64,
}

pub struct CounterView {
    pub name: Seq<u8>,
    pub value: u64,
}

impl View for KvEntry {
    type V = KvView;

    open spec fn view(&self) -> KvView {
        KvView { key: self.key@, value: self.value@, version: self.version }
    }
}

impl View for Counter {
    type V = CounterView;

    open spec fn view(&self) -> CounterView {
        CounterView { name: self.name@, value: self.value }
    }
}

/// The image of a state machine: its keys and its counters in the order in
/// which they were first written, and the id of the last entry applied.
pub struct SmView {
    pub kv: Seq<KvView>,
    pub counters: Seq<CounterView>,
    pub last_applied: LogId,
}

/// What applying an entry gave.
#[derive(Clone, Copy, Debug, PartialEq, Eq, Structural)]
pub enum Applied {
    /// The entry carried no client command.
    Nothing,
    /// The key was written and has this version now.
    Written { version: u64 },
    /// A compare-and-swap found the key at another version; nothing changed.
    VersionConflict { current: u64 },
    /// The counter was advanced to this value.
    Sequence { value: u64 },
    /// The version or the counter would pass `u64::MAX`; nothing changed.
    Overflow,
}

pub open spec fn kv_view(v: Seq<KvEntry>) -> Seq<KvView> {
    v.map_values(|e: KvEntry| e@)
}

pub open spec fn counters_view(v: Seq<Counter>) -> Seq<CounterView> {
    v.map_values(|c: Counter| c@)
}

pub open spec fn unique_keys(kv: Seq<KvView>) -> bool {
    forall|i: int, j: int|
        0 <= i < kv.len() && 0 <= j < kv.len() && #[trigger] kv[i].key == #[trigger] kv[j].key
            ==> i == j
}

pub open spec fn unique_names(c: Seq<CounterView>) -> bool {
    forall|i: int, j: int|
        0 <= i < c.len() && 0 <= j < c.len() && #[trigger] c[i].name == #[trigger] c[j].name
            ==> i == j
}

impl SmView {
    pub open spec fn wf(self) -> bool {
        unique_keys(self.kv) && unique_names(self.counters)
    }
}

/// The place of `key` in `kv`, if it is there.
pub open spec fn find_key(kv: Seq<KvView>, key: Seq<u8>) -> Option<int> {
    if exists|i: int| 0 <= i < kv.len() && kv[i].key == key {
        Some(choose|i: int| 0 <= i < kv.len() && kv[i].key == key)
    } else {
        None
    }
}

/// The place of the counter `name` in `c`, if it is there.
pub open spec fn find_name(c: Seq<CounterView>, name: Seq<u8>) -> Option<int> {
    if exists|i: int| 0 <= i < c.len() && c[i].name == name {
        Some(choose|i: int| 0 <= i < c.len() && c[i].name == name)
    } else {
        None
    }
}

/// The value of `key`, if it was ever written.
pub open spec fn value_of(kv: Seq<KvView>, key: Seq<u8>) -> Option<Seq<u8>> {
    match find_key(kv, key) {
        Some(i) => Some(kv[i].value),
        None => None,
    }
}

/// The version of `key`: 0 for a key never written.
pub open spec fn version_of(kv: Seq<KvView>, key: Seq<u8>) -> u64 {
    match find_key(kv, key) {
        Some(i) => kv[i].version,
        None => 0,
    }
}

/// The value of the counter `name`: 0 for a counter never advanced.
pub open spec fn counter_of(c: Seq<CounterView>, name: Seq<u8>) -> u64 {
    match find_name(c, name) {
        Some(i) => c[i].value,
        None => 0,
    }
}

/// `kv` with `key` set to `value` at `version`, in place if it was there.
pub open spec fn written(kv: Seq<KvView>, key: Seq<u8>, value: Seq<u8>, version: u64) -> Seq<KvView> {
    let e = KvView { key, value, version };
    match find_key(kv, key) {
        Some(i) => kv.update(i, e),
        None => kv.push(e),
    }
}

/// `c` with the counter `name` set to `value`, in place if it was there.
pub open spec fn advanced(c: Seq<CounterView>, name: Seq<u8>, value: u64) -> Seq<CounterView> {
    let e = CounterView { name, value };
    match find_name(c, name) {
        Some(i) => c.update(i, e),
        None => c.push(e),
    }
}

/// What a client command does to the image, and what it gives back.
pub open spec fn apply_command(m: SmView, c: CommandView) -> (SmView, Applied) {
    match c {
        CommandView::Put { key, value } => {
            let cur = version_of(m.kv, key);
            if cur == u64::MAX {
                (m, Applied::Overflow)
            } else {
                (
                    SmView { kv: written(m.kv, key, value, (cur + 1) as u64), ..m },
                    Applied::Written { version: (cur + 1) as u64 },
                )
            }
        },
        CommandView::CompareAndSwap { key, expected_version, value } => {
            let cur = version_of(m.kv, key);
            if cur != expected_version {
                (m, Applied::VersionConflict { current: cur })
            } else if cur == u64::MAX {
                (m, Applied::Overflow)
            } else {
                (
                    SmView { kv: written(m.kv, key, value, (cur + 1) as u64), ..m },
                    Applied::Written { version: (cur + 1) as u64 },
                )
            }
        },
        CommandView::SequenceNext { name, step } => {
            let cur = counter_of(m.counters, name);
            if cur + step > u64::MAX {
                (m, Applied::Overflow)
            } else {
                (
                    SmView { counters: advanced(m.counters, name, (cur + step) as u64), ..m },
                    Applied::Sequence { value: (cur + step) as u64 },
                )
            }
        },
    }
}

/// What applying an entry does to the image, and what it gives back: a client
/// command takes effect, other entries only move `last_applied`.
pub open spec fn apply_entry(m: SmView, log_id: LogId, p: PayloadView) -> (SmView, Applied) {
    let (m2, a) = match p {
        PayloadView::Write(c) => apply_command(m, c),
        _ => (m, Applied::Nothing),
    };
    (SmView { last_applied: log_id, ..m2 }, a)
}

/// Whether two byte strings are equal.
pub fn bytes_eq(a: &Vec<u8>, b: &Vec<u8>) -> (r: bool)
    ensures
        r == (a@ == b@),
{
    if a.len() != b.len() {
        return false;
    }
    let mut i: usize = 0;
    while i < a.len()
        invariant
            0 <= i <= a.len() == b.len(),
            forall|j: int| 0 <= j < i ==> a@[j] == b@[j],
        decreases a.len() - i,
    {
        if a[i] != b[i] {
            return false;
        }
        i += 1;
    }
    assert(a@ =~= b@);
    true
}

/// The deterministic key-value store and counters that committed entries are
/// applied to, in index order.
pub struct StateMachine {
    kv: Vec<KvEntry>,
    counters: Vec<Counter>,
    last_applied: LogId,
}

impl View for StateMachine {
    type V = SmView;

    closed spec fn view(&self) -> SmView {
        SmView {
            kv: kv_view(self.kv@),
            counters: counters_view(self.counters@),
            last_applied: self.last_applied,
        }
    }
}

impl StateMachine {
    pub open spec fn wf(&self) -> bool {
        self@.wf()
    }

    /// An empty state machine to which nothing was applied.
    pub fn new() -> (r: StateMachine)
        ensures
            r.wf(),
            r@.kv.len() == 0,
            r@.counters.len() == 0,
            r@.last_applied == (LogId { term: 0, index: 0 }),
    {
        let r = StateMachine {
            kv: Vec::new(),
            counters: Vec::new(),
            last_applied: LogId { term: 0, index: 0 },
        };
        assert(r@.kv =~= Seq::<KvView>::empty());
        assert(r@.counters =~= Seq::<CounterView>::empty());
        r
    }

    /// A copy of this state machine.
    pub fn copy(&self) -> (r: StateMachine)
        ensures
            r@ == self@,
    {
        let mut kv: Vec<KvEntry> = Vec::new();
        let mut i: usize = 0;
        while i < self.kv.len()
            invariant
                0 <= i <= self.kv.len(),
                kv_view(kv@) =~= kv_view(self.kv@).take(i as int),
            decreases self.kv.len() - i,
        {
            let e = &self.kv[i];
            let n = KvEntry { key: copy_bytes(&e.key), value: copy_bytes(&e.value), version: e.version };
            let ghost k0 = kv@;
            kv.push(n);
            assert(kv_view(kv@) =~= kv_view(k0).push(n@));
            assert(kv_view(self.kv@).take(i + 1) =~= kv_view(self.kv@).take(i as int).push(n@));
            i += 1;
        }
        let mut counters: Vec<Counter> = Vec::new();
        let mut j: usize = 0;
        while j < self.counters.len()
            invariant
                0 <= j <= self.counters.len(),
                counters_view(counters@) =~= counters_view(self.counters@).take(j as int),
            decreases self.counters.len() - j,
        {
            let c = &self.counters[j];
            let n = Counter { name: copy_bytes(&c.name), value: c.value };
            let ghost c0 = counters@;
            counters.push(n);
            assert(counters_view(counters@) =~= counters_view(c0).push(n@));
            assert(counters_view(self.counters@).take(j + 1) =~= counters_view(self.counters@).take(
                j as int,
            ).push(n@));
            j += 1;
        }
        let r = StateMachine { kv, counters, last_applied: self.last_applied };
        assert(r@.kv =~= self@.kv);
        assert(r@.counters =~= self@.counters);
        r
    }

    pub(crate) fn kv_entries(&self) -> (r: &Vec<KvEntry>)
        ensures
            kv_view(r@) == self@.kv,
    {
        &self.kv
    }

    pub(crate) fn counter_entries(&self) -> (r: &Vec<Counter>)
        ensures
            counters_view(r@) == self@.counters,
    {
        &self.counters
    }

    pub(crate) fn from_parts(kv: Vec<KvEntry>, counters: Vec<Counter>, last_applied: LogId) -> (r:
        StateMachine)
        ensures
            r@ == (SmView { kv: kv_view(kv@), counters: counters_view(counters@), last_applied }),
    {
        StateMachine { kv, counters, last_applied }
    }

    pub fn last_applied(&self) -> (r: LogId)
        ensures
            r == self@.last_applied,
    {
        self.last_applied
    }

    fn find_key(&self, key: &Vec<u8>) -> (r: Option<usize>)
        requires
            self.wf(),
        ensures
            match r {
                Some(i) => find_key(self@.kv, key@) == Some(i as int) && i < self.kv.len(),
                None => find_key(self@.kv, key@) is None,
            },
    {
        let mut i: usize = 0;
        while i < self.kv.len()
            invariant
                0 <= i <= self.kv.len(),
                self.wf(),
                forall|j: int| 0 <= j < i ==> self@.kv[j].key != key@,
            decreases self.kv.len() - i,
        {
            if bytes_eq(&self.kv[i].key, key) {
                assert(self@.kv[i as int].key == key@);
                let ghost j = choose|j: int| 0 <= j < self@.kv.len() && self@.kv[j].key == key@;
                assert(self@.kv[j].key == self@.kv[i as int].key);
                return Some(i);
            }
            i += 1;
        }
        None
    }

    fn find_name(&self, name: &Vec<u8>) -> (r: Option<usize>)
        requires
            self.wf(),
        ensures
            match r {
                Some(i) => find_name(self@.counters, name@) == Some(i as int) && i
                    < self.counters.len(),
                None => find_name(self@.counters, name@) is None,
            },
    {
        let mut i: usize = 0;
        while i < self.counters.len()
            invariant
                0 <= i <= self.counters.len(),
                self.wf(),
                forall|j: int| 0 <= j < i ==> self@.counters[j].name != name@,
            decreases self.counters.len() - i,
        {
            if bytes_eq(&self.counters[i].name, name) {
                assert(self@.counters[i as int].name == name@);
                let ghost j = choose|j: int|
                    0 <= j < self@.counters.len() && self@.counters[j].name == name@;
                assert(self@.counters[j].name == self@.counters[i as int].name);
                return Some(i);
            }
            i += 1;
        }
        None
    }

    /// The value of `key`, if it was ever written.
    pub fn get(&self, key: &Vec<u8>) -> (r: Option<Vec<u8>>)
        requires
            self.wf(),
        ensures
            match r {
                Some(v) => value_of(self@.kv, key@) == Some(v@),
                None => value_of(self@.kv, key@) is None,
            },
    {
        match self.find_key(key) {
            Some(i) => Some(copy_bytes(&self.kv[i].value)),
            None => None,
        }
    }

    /// The version of `key`: 0 for a key never written.
    pub fn version(&self, key: &Vec<u8>) -> (r: u64)
        requires
            self.wf(),
        ensures
            r == version_of(self@.kv, key@),
    {
        match self.find_key(key) {
            Some(i) => self.kv[i].version,
            None => 0,
        }
    }

    /// The value of the counter `name`: 0 for a counter never advanced.
    pub fn counter(&self, name: &Vec<u8>) -> (r: u64)
        requires
            self.wf(),
        ensures
            r == counter_of(self@.counters, name@),
    {
        match self.find_name(name) {
            Some(i) => self.counters[i].value,
            None => 0,
        }
    }

    fn write_key(&mut self, key: &Vec<u8>, value: &Vec<u8>, version: u64)
        requires
            old(self).wf(),
        ensures
            final(self).wf(),
            final(self)@ == (SmView { kv: written(old(self)@.kv, key@, value@, version), ..old(self)@ }),
    {
        let ghost before = self@.kv;
        let e = KvEntry { key: copy_bytes(key), value: copy_bytes(value), version };
        match self.find_key(key) {
            Some(i) => {
                self.kv.set(i, e);
                assert(self@.kv =~= before.update(i as int, e@));
            },
            None => {
                self.kv.push(e);
                assert(self@.kv =~= before.push(e@));
            },
        }
        assert(self@.kv == written(before, key@, value@, version));
    }

    fn advance_counter(&mut self, name: &Vec<u8>, value: u64)
        requires
            old(self).wf(),
        ensures
            final(self).wf(),
            final(self)@ == (SmView {
                counters: advanced(old(self)@.counters, name@, value),
                ..old(self)@
            }),
    {
        let ghost before = self@.counters;
        let c = Counter { name: copy_bytes(name), value };
        match self.find_name(name) {
            Some(i) => {
                self.counters.set(i, c);
                assert(self@.counters =~= before.update(i as int, c@));
            },
            None => {
                self.counters.push(c);
                assert(self@.counters =~= before.push(c@));
            },
        }
    }

    fn apply_command(&mut self, c: &Command) -> (r: Applied)
        requires
            old(self).wf(),
        ensures
            final(self).wf(),
            (final(self)@, r) == apply_command(old(self)@, c@),
    {
        match c {
            Command::Put { key, value } => {
                let cur = self.version(key);
                if cur == u64::MAX {
                    Applied::Overflow
                } else {
                    self.write_key(key, value, cur + 1);
                    Applied::Written { version: cur + 1 }
                }
            },
            Command::CompareAndSwap { key, expected_version, value } => {
                let cur = self.version(key);
                if cur != *expected_version {
                    Applied::VersionConflict { current: cur }
                } else if cur == u64::MAX {
                    Applied::Overflow
                } else {
                    self.write_key(key, value, cur + 1);
                    Applied::Written { version: cur + 1 }
                }
            },
            Command::SequenceNext { name, step } => {
                let cur = self.counter(name);
                if *step > u64::MAX - cur {
                    Applied::Overflow
                } else {
                    self.advance_counter(name, cur + *step);
                    Applied::Sequence { value: cur + *step }
                }
            },
        }
    }

    /// Applies the entry that follows the last one applied.
    pub fn apply(&mut self, entry: &Entry) -> (r: Applied)
        requires
            old(self).wf(),
            entry.log_id.index == old(self)@.last_applied.index + 1,
        ensures
            final(self).wf(),
            (final(self)@, r) == apply_entry(old(self)@, entry.log_id, entry.payload@),
    {
        let r = match &entry.payload {
            Payload::Write(c) => self.apply_command(c),
            _ => Applied::Nothing,
        };
        self.last_applied = entry.log_id;
        r
    }
}

} // verus!
