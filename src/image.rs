use vstd::bytes::{spec_u64_from_le_bytes, spec_u64_to_le_bytes, u64_from_le_bytes, u64_to_le_bytes};
use vstd::prelude::*;
use vstd::slice::slice_subrange;

use crate::state_machine::{
    bytes_eq, counters_view, kv_view, unique_keys, unique_names, Counter, CounterView, KvEntry,
    KvView, SmView, StateMachine,
};
use crate::types::LogId;

verus! {

/// A `u64` as eight bytes, least significant first.
pub open spec fn enc_u64(x: u64) -> Seq<u8> {
    spec_u64_to_le_bytes(x)
}

/// A byte string as its length, then its bytes.
pub open spec fn enc_bytes(b: Seq<u8>) -> Seq<u8> {
    enc_u64(b.len() as u64) + b
}

pub open spec fn enc_kv(e: KvView) -> Seq<u8> {
    enc_bytes(e.key) + enc_bytes(e.value) + enc_u64(e.version)
}

pub open spec fn enc_counter(c: CounterView) -> Seq<u8> {
    enc_bytes(c.name) + enc_u64(c.value)
}

/// The encodings of the items of `s`, one after the other.
pub open spec fn enc_all<A>(s: Seq<A>, f: spec_fn(A) -> Seq<u8>) -> Seq<u8>
    decreases s.len(),
{
    if s.len() == 0 {
        Seq::empty()
    } else {
        enc_all(s.drop_last(), f) + f(s.last())
    }
}

pub open spec fn kv_enc() -> spec_fn(KvView) -> Seq<u8> {
    |e: KvView| enc_kv(e)
}

pub open spec fn counter_enc() -> spec_fn(CounterView) -> Seq<u8> {
    |c: CounterView| enc_counter(c)
}

/// The bytes of a state machine image: the id of the last applied entry, the
/// number of keys and the keys, the number of counters and the counters.
pub open spec fn encode_image(m: SmView) -> Seq<u8> {
    enc_u64(m.last_applied.term) + enc_u64(m.last_applied.index) + enc_u64(m.kv.len() as u64)
        + enc_all(m.kv, kv_enc()) + enc_u64(m.counters.len() as u64) + enc_all(
        m.counters,
        counter_enc(),
    )
}

/// Every length in the image fits in a `u64`.
pub open spec fn image_fits(m: SmView) -> bool {
    &&& m.kv.len() <= u64::MAX
    &&& m.counters.len() <= u64::MAX
    &&& forall|i: int|
        0 <= i < m.kv.len() ==> (#[trigger] m.kv[i]).key.len() <= u64::MAX && m.kv[i].value.len()
            <= u64::MAX
    &&& forall|i: int| 0 <= i < m.counters.len() ==> (#[trigger] m.counters[i]).name.len() <= u64::MAX
}

pub(crate) proof fn lemma_enc_all_split<A>(s: Seq<A>, f: spec_fn(A) -> Seq<u8>, i: int)
    requires
        0 <= i <= s.len(),
    ensures
        enc_all(s, f) == enc_all(s.take(i), f) + enc_all(s.skip(i), f),
    decreases s.len(),
{
    if i == s.len() {
        assert(s.take(i) =~= s);
        assert(s.skip(i) =~= Seq::<A>::empty());
        assert(enc_all(s, f) + Seq::<u8>::empty() =~= enc_all(s, f));
    } else {
        let dl = s.drop_last();
        lemma_enc_all_split(dl, f, i);
        assert(dl.take(i) =~= s.take(i));
        assert(s.skip(i).drop_last() =~= dl.skip(i));
        assert(s.skip(i).last() == s.last());
        assert(enc_all(s, f) =~= enc_all(s.take(i), f) + enc_all(s.skip(i), f));
    }
}

pub(crate) proof fn lemma_enc_all_first<A>(s: Seq<A>, f: spec_fn(A) -> Seq<u8>)
    requires
        s.len() > 0,
    ensures
        enc_all(s, f) == f(s[0]) + enc_all(s.skip(1), f),
{
    lemma_enc_all_split(s, f, 1);
    let t = s.take(1);
    assert(t.drop_last() =~= Seq::<A>::empty());
    assert(enc_all(t.drop_last(), f) == Seq::<u8>::empty());
    assert(t.last() == s[0]);
    assert(enc_all(t, f) == enc_all(t.drop_last(), f) + f(t.last()));
    assert(Seq::<u8>::empty() + f(s[0]) =~= f(s[0]));
}

pub(crate) proof fn lemma_enc_all_push<A>(s: Seq<A>, f: spec_fn(A) -> Seq<u8>, x: A)
    ensures
        enc_all(s.push(x), f) == enc_all(s, f) + f(x),
{
    assert(s.push(x).drop_last() =~= s);
}

/// Reads the `u64` at `pos`, if eight bytes are there.
pub(crate) fn read_u64(b: &Vec<u8>, pos: usize) -> (r: Option<u64>)
    ensures
        pos + 8 <= b@.len() ==> r == Some(spec_u64_from_le_bytes(b@.subrange(pos as int, pos + 8))),
        pos + 8 > b@.len() ==> r is None,
{
    if pos > b.len() || b.len() - pos < 8 {
        return None;
    }
    let s = slice_subrange(b.as_slice(), pos, pos + 8);
    Some(u64_from_le_bytes(s))
}

pub(crate) proof fn lemma_enc_u64_len(x: u64)
    ensures
        enc_u64(x).len() == 8,
        spec_u64_from_le_bytes(enc_u64(x)) == x,
{
    vstd::bytes::lemma_auto_spec_u64_to_from_le_bytes();
}

pub(crate) proof fn lemma_enc_u64_of_read(s: Seq<u8>)
    requires
        s.len() == 8,
    ensures
        enc_u64(spec_u64_from_le_bytes(s)) == s,
{
    vstd::bytes::lemma_auto_spec_u64_to_from_le_bytes();
}

/// Appends the encoding of `x`.
pub(crate) fn write_u64(out: &mut Vec<u8>, x: u64)
    ensures
        final(out)@ == old(out)@ + enc_u64(x),
{
    let mut b = u64_to_le_bytes(x);
    out.append(&mut b);
}

/// Appends the encoding of `v`.
pub(crate) fn write_bytes(out: &mut Vec<u8>, v: &Vec<u8>)
    ensures
        final(out)@ == old(out)@ + enc_bytes(v@),
{
    write_u64(out, v.len() as u64);
    let mut c = crate::types::copy_bytes(v);
    let ghost o = out@;
    out.append(&mut c);
    assert(out@ =~= o + v@);
    assert(out@ =~= old(out)@ + enc_bytes(v@));
}

/// The bytes of `b` from `start` up to `end`.
fn copy_range(b: &Vec<u8>, start: usize, end: usize) -> (r: Vec<u8>)
    requires
        start <= end <= b@.len(),
    ensures
        r@ == b@.subrange(start as int, end as int),
{
    let mut r: Vec<u8> = Vec::new();
    let mut i = start;
    while i < end
        invariant
            start <= i <= end <= b@.len(),
            r@ =~= b@.subrange(start as int, i as int),
        decreases end - i,
    {
        r.push(b[i]);
        i += 1;
    }
    r
}

/// Reads the byte string encoded at `pos`. Gives it and the position after
/// it; where the bytes there encode `expect`, gives it.
pub(crate) fn read_bytes(b: &Vec<u8>, pos: usize, expect: Ghost<Option<Seq<u8>>>) -> (r: Option<(Vec<u8>, usize)>)
    ensures
        match r {
            Some((v, p)) => pos <= p <= b@.len() && b@.subrange(pos as int, p as int) == enc_bytes(v@)
                && v@.len() <= u64::MAX,
            None => true,
        },
        match expect@ {
            Some(x) => x.len() <= u64::MAX && pos + enc_bytes(x).len() <= b@.len() && b@.subrange(
                pos as int,
                pos + enc_bytes(x).len(),
            ) == enc_bytes(x) ==> (r matches Some((v, p)) && v@ == x && p == pos + enc_bytes(x).len()),
            None => true,
        },
{
    let n = match read_u64(b, pos) {
        Some(n) => n,
        None => {
            proof {
                if let Some(x) = expect@ {
                    lemma_enc_u64_len(x.len() as u64);
                }
            }
            return None;
        },
    };
    let len = b.len();
    assert(pos + 8 <= len);
    let start = pos + 8;
    proof {
        if let Some(x) = expect@ {
            lemma_enc_u64_len(x.len() as u64);
            if x.len() <= u64::MAX && pos + enc_bytes(x).len() <= b@.len() && b@.subrange(
                pos as int,
                pos + enc_bytes(x).len(),
            ) == enc_bytes(x) {
                assert(b@.subrange(pos as int, pos + 8) =~= enc_u64(x.len() as u64));
                assert(n == x.len());
            }
        }
    }
    if n > (b.len() - start) as u64 {
        return None;
    }
    let end = start + n as usize;
    let v = copy_range(b, start, end);
    proof {
        lemma_enc_u64_of_read(b@.subrange(pos as int, pos + 8));
        assert(b@.subrange(pos as int, end as int) =~= b@.subrange(pos as int, pos + 8) + b@.subrange(
            start as int,
            end as int,
        ));
        if let Some(x) = expect@ {
            if x.len() <= u64::MAX && pos + enc_bytes(x).len() <= b@.len() && b@.subrange(
                pos as int,
                pos + enc_bytes(x).len(),
            ) == enc_bytes(x) {
                let whole = b@.subrange(pos as int, pos + enc_bytes(x).len());
                assert(whole.subrange(8, 8 + x.len() as int) =~= x);
                assert(b@.subrange(start as int, end as int) =~= whole.subrange(8, 8 + x.len() as int));
            }
        }
    }
    Some((v, end))
}

pub(crate) proof fn lemma_u64_prefix(x: u64, y: u64, r1: Seq<u8>, r2: Seq<u8>)
    requires
        enc_u64(x) + r1 == enc_u64(y) + r2,
    ensures
        x == y,
        r1 == r2,
{
    lemma_enc_u64_len(x);
    lemma_enc_u64_len(y);
    assert((enc_u64(x) + r1).subrange(0, 8) =~= enc_u64(x));
    assert((enc_u64(y) + r2).subrange(0, 8) =~= enc_u64(y));
    assert((enc_u64(x) + r1).skip(8) =~= r1);
    assert((enc_u64(y) + r2).skip(8) =~= r2);
}

pub(crate) proof fn lemma_bytes_prefix(a: Seq<u8>, b: Seq<u8>, r1: Seq<u8>, r2: Seq<u8>)
    requires
        a.len() <= u64::MAX,
        b.len() <= u64::MAX,
        enc_bytes(a) + r1 == enc_bytes(b) + r2,
    ensures
        a == b,
        r1 == r2,
{
    assert(enc_bytes(a) + r1 =~= enc_u64(a.len() as u64) + (a + r1));
    assert(enc_bytes(b) + r2 =~= enc_u64(b.len() as u64) + (b + r2));
    lemma_u64_prefix(a.len() as u64, b.len() as u64, a + r1, b + r2);
    assert((a + r1).subrange(0, a.len() as int) =~= a);
    assert((b + r2).subrange(0, b.len() as int) =~= b);
    assert((a + r1).skip(a.len() as int) =~= r1);
    assert((b + r2).skip(b.len() as int) =~= r2);
}

proof fn lemma_kv_prefix(a: KvView, b: KvView, r1: Seq<u8>, r2: Seq<u8>)
    requires
        a.key.len() <= u64::MAX && a.value.len() <= u64::MAX,
        b.key.len() <= u64::MAX && b.value.len() <= u64::MAX,
        enc_kv(a) + r1 == enc_kv(b) + r2,
    ensures
        a == b,
        r1 == r2,
{
    assert(enc_kv(a) + r1 =~= enc_bytes(a.key) + (enc_bytes(a.value) + (enc_u64(a.version) + r1)));
    assert(enc_kv(b) + r2 =~= enc_bytes(b.key) + (enc_bytes(b.value) + (enc_u64(b.version) + r2)));
    lemma_bytes_prefix(a.key, b.key, enc_bytes(a.value) + (enc_u64(a.version) + r1), enc_bytes(b.value) + (enc_u64(b.version) + r2));
    lemma_bytes_prefix(a.value, b.value, enc_u64(a.version) + r1, enc_u64(b.version) + r2);
    lemma_u64_prefix(a.version, b.version, r1, r2);
}

proof fn lemma_counter_prefix(a: CounterView, b: CounterView, r1: Seq<u8>, r2: Seq<u8>)
    requires
        a.name.len() <= u64::MAX,
        b.name.len() <= u64::MAX,
        enc_counter(a) + r1 == enc_counter(b) + r2,
    ensures
        a == b,
        r1 == r2,
{
    assert(enc_counter(a) + r1 =~= enc_bytes(a.name) + (enc_u64(a.value) + r1));
    assert(enc_counter(b) + r2 =~= enc_bytes(b.name) + (enc_u64(b.value) + r2));
    lemma_bytes_prefix(a.name, b.name, enc_u64(a.value) + r1, enc_u64(b.value) + r2);
    lemma_u64_prefix(a.value, b.value, r1, r2);
}

proof fn lemma_kvs_prefix(s1: Seq<KvView>, s2: Seq<KvView>, r1: Seq<u8>, r2: Seq<u8>)
    requires
        s1.len() == s2.len(),
        forall|i: int| 0 <= i < s1.len() ==> (#[trigger] s1[i]).key.len() <= u64::MAX && s1[i].value.len() <= u64::MAX,
        forall|i: int| 0 <= i < s2.len() ==> (#[trigger] s2[i]).key.len() <= u64::MAX && s2[i].value.len() <= u64::MAX,
        enc_all(s1, kv_enc()) + r1 == enc_all(s2, kv_enc()) + r2,
    ensures
        s1 == s2,
        r1 == r2,
    decreases s1.len(),
{
    if s1.len() == 0 {
        assert(enc_all(s1, kv_enc()) + r1 =~= r1);
        assert(enc_all(s2, kv_enc()) + r2 =~= r2);
        assert(s1 =~= s2);
    } else {
        lemma_enc_all_first(s1, kv_enc());
        lemma_enc_all_first(s2, kv_enc());
        let t1 = enc_all(s1.skip(1), kv_enc()) + r1;
        let t2 = enc_all(s2.skip(1), kv_enc()) + r2;
        assert(enc_all(s1, kv_enc()) + r1 =~= enc_kv(s1[0]) + t1);
        assert(enc_all(s2, kv_enc()) + r2 =~= enc_kv(s2[0]) + t2);
        lemma_kv_prefix(s1[0], s2[0], t1, t2);
        lemma_kvs_prefix(s1.skip(1), s2.skip(1), r1, r2);
        assert(s1 =~= seq![s1[0]] + s1.skip(1));
        assert(s2 =~= seq![s2[0]] + s2.skip(1));
    }
}

proof fn lemma_counters_prefix(s1: Seq<CounterView>, s2: Seq<CounterView>, r1: Seq<u8>, r2: Seq<u8>)
    requires
        s1.len() == s2.len(),
        forall|i: int| 0 <= i < s1.len() ==> (#[trigger] s1[i]).name.len() <= u64::MAX,
        forall|i: int| 0 <= i < s2.len() ==> (#[trigger] s2[i]).name.len() <= u64::MAX,
        enc_all(s1, counter_enc()) + r1 == enc_all(s2, counter_enc()) + r2,
    ensures
        s1 == s2,
        r1 == r2,
    decreases s1.len(),
{
    if s1.len() == 0 {
        assert(enc_all(s1, counter_enc()) + r1 =~= r1);
        assert(enc_all(s2, counter_enc()) + r2 =~= r2);
        assert(s1 =~= s2);
    } else {
        lemma_enc_all_first(s1, counter_enc());
        lemma_enc_all_first(s2, counter_enc());
        let t1 = enc_all(s1.skip(1), counter_enc()) + r1;
        let t2 = enc_all(s2.skip(1), counter_enc()) + r2;
        assert(enc_all(s1, counter_enc()) + r1 =~= enc_counter(s1[0]) + t1);
        assert(enc_all(s2, counter_enc()) + r2 =~= enc_counter(s2[0]) + t2);
        lemma_counter_prefix(s1[0], s2[0], t1, t2);
        lemma_counters_prefix(s1.skip(1), s2.skip(1), r1, r2);
        assert(s1 =~= seq![s1[0]] + s1.skip(1));
        assert(s2 =~= seq![s2[0]] + s2.skip(1));
    }
}

/// Two images whose lengths fit in a `u64` and that encode to the same bytes
/// are the same image.
pub proof fn lemma_image_injective(m1: SmView, m2: SmView)
    requires
        image_fits(m1),
        image_fits(m2),
        encode_image(m1) == encode_image(m2),
    ensures
        m1 == m2,
{
    let c1 = enc_u64(m1.counters.len() as u64) + enc_all(m1.counters, counter_enc());
    let c2 = enc_u64(m2.counters.len() as u64) + enc_all(m2.counters, counter_enc());
    let k1 = enc_all(m1.kv, kv_enc()) + c1;
    let k2 = enc_all(m2.kv, kv_enc()) + c2;
    assert(encode_image(m1) =~= enc_u64(m1.last_applied.term) + (enc_u64(m1.last_applied.index) + (
    enc_u64(m1.kv.len() as u64) + k1)));
    assert(encode_image(m2) =~= enc_u64(m2.last_applied.term) + (enc_u64(m2.last_applied.index) + (
    enc_u64(m2.kv.len() as u64) + k2)));
    lemma_u64_prefix(
        m1.last_applied.term,
        m2.last_applied.term,
        enc_u64(m1.last_applied.index) + (enc_u64(m1.kv.len() as u64) + k1),
        enc_u64(m2.last_applied.index) + (enc_u64(m2.kv.len() as u64) + k2),
    );
    lemma_u64_prefix(
        m1.last_applied.index,
        m2.last_applied.index,
        enc_u64(m1.kv.len() as u64) + k1,
        enc_u64(m2.kv.len() as u64) + k2,
    );
    lemma_u64_prefix(m1.kv.len() as u64, m2.kv.len() as u64, k1, k2);
    lemma_kvs_prefix(m1.kv, m2.kv, c1, c2);
    lemma_u64_prefix(
        m1.counters.len() as u64,
        m2.counters.len() as u64,
        enc_all(m1.counters, counter_enc()),
        enc_all(m2.counters, counter_enc()),
    );
    assert(enc_all(m1.counters, counter_enc()) + Seq::<u8>::empty() =~= enc_all(m1.counters, counter_enc()));
    assert(enc_all(m2.counters, counter_enc()) + Seq::<u8>::empty() =~= enc_all(m2.counters, counter_enc()));
    lemma_counters_prefix(m1.counters, m2.counters, Seq::<u8>::empty(), Seq::<u8>::empty());
}

pub(crate) proof fn lemma_split_at(b: Seq<u8>, pos: int, x: Seq<u8>, y: Seq<u8>)
    requires
        0 <= pos <= b.len(),
        b.subrange(pos, b.len() as int) == x + y,
    ensures
        pos + x.len() <= b.len(),
        b.subrange(pos, pos + x.len()) == x,
        b.subrange(pos + x.len(), b.len() as int) == y,
{
    assert(b.subrange(pos, pos + x.len()) =~= (x + y).subrange(0, x.len() as int));
    assert((x + y).subrange(0, x.len() as int) =~= x);
    assert(b.subrange(pos + x.len(), b.len() as int) =~= (x + y).skip(x.len() as int));
    assert((x + y).skip(x.len() as int) =~= y);
}

pub(crate) proof fn lemma_join(b: Seq<u8>, a: int, m: int, e: int)
    requires
        0 <= a <= m <= e <= b.len(),
    ensures
        b.subrange(a, e) == b.subrange(a, m) + b.subrange(m, e),
{
    assert(b.subrange(a, e) =~= b.subrange(a, m) + b.subrange(m, e));
}

/// Whether no entry of `kvs` has key `key`.
fn key_absent(kvs: &Vec<KvEntry>, key: &Vec<u8>) -> (r: bool)
    ensures
        r == forall|i: int| 0 <= i < kvs@.len() ==> kv_view(kvs@)[i].key != key@,
{
    let mut i: usize = 0;
    while i < kvs.len()
        invariant
            0 <= i <= kvs.len(),
            forall|j: int| 0 <= j < i ==> kv_view(kvs@)[j].key != key@,
        decreases kvs.len() - i,
    {
        if bytes_eq(&kvs[i].key, key) {
            assert(kv_view(kvs@)[i as int].key == key@);
            return false;
        }
        i += 1;
    }
    true
}

/// Whether no counter of `cs` is named `name`.
fn name_absent(cs: &Vec<Counter>, name: &Vec<u8>) -> (r: bool)
    ensures
        r == forall|i: int| 0 <= i < cs@.len() ==> counters_view(cs@)[i].name != name@,
{
    let mut i: usize = 0;
    while i < cs.len()
        invariant
            0 <= i <= cs.len(),
            forall|j: int| 0 <= j < i ==> counters_view(cs@)[j].name != name@,
        decreases cs.len() - i,
    {
        if bytes_eq(&cs[i].name, name) {
            assert(counters_view(cs@)[i as int].name == name@);
            return false;
        }
        i += 1;
    }
    true
}

impl StateMachine {
    /// The image's bytes (see `encode_image`), which a snapshot carries.
    pub fn encode(&self) -> (r: Vec<u8>)
        ensures
            r@ == encode_image(self@),
    {
        let la = self.last_applied();
        let kvs = self.kv_entries();
        let cs = self.counter_entries();
        let mut out: Vec<u8> = Vec::new();
        write_u64(&mut out, la.term);
        write_u64(&mut out, la.index);
        write_u64(&mut out, kvs.len() as u64);
        let ghost head = out@;
        let ghost kv = kv_view(kvs@);
        let mut i: usize = 0;
        while i < kvs.len()
            invariant
                0 <= i <= kvs.len(),
                kv == kv_view(kvs@),
                out@ == head + enc_all(kv.take(i as int), kv_enc()),
            decreases kvs.len() - i,
        {
            let ghost o = out@;
            write_bytes(&mut out, &kvs[i].key);
            write_bytes(&mut out, &kvs[i].value);
            write_u64(&mut out, kvs[i].version);
            proof {
                lemma_enc_all_push(kv.take(i as int), kv_enc(), kv[i as int]);
                assert(kv.take(i + 1) =~= kv.take(i as int).push(kv[i as int]));
                assert(out@ =~= head + enc_all(kv.take(i + 1), kv_enc()));
            }
            i += 1;
        }
        assert(kv.take(kvs.len() as int) =~= kv);
        write_u64(&mut out, cs.len() as u64);
        let ghost head2 = out@;
        let ghost cv = counters_view(cs@);
        let mut j: usize = 0;
        while j < cs.len()
            invariant
                0 <= j <= cs.len(),
                cv == counters_view(cs@),
                out@ == head2 + enc_all(cv.take(j as int), counter_enc()),
            decreases cs.len() - j,
        {
            write_bytes(&mut out, &cs[j].name);
            write_u64(&mut out, cs[j].value);
            proof {
                lemma_enc_all_push(cv.take(j as int), counter_enc(), cv[j as int]);
                assert(cv.take(j + 1) =~= cv.take(j as int).push(cv[j as int]));
                assert(out@ =~= head2 + enc_all(cv.take(j + 1), counter_enc()));
            }
            j += 1;
        }
        assert(cv.take(cs.len() as int) =~= cv);
        assert(out@ =~= encode_image(self@));
        out
    }

    /// Rebuilds a state machine from the bytes of an image. What it gives
    /// encodes to exactly these bytes, and it gives one whenever the bytes
    /// encode a well formed image whose lengths fit in a `u64`.
    pub fn decode(b: &Vec<u8>) -> (r: Option<StateMachine>)
        ensures
            r matches Some(sm) ==> sm.wf() && image_fits(sm@) && encode_image(sm@) == b@,
            (exists|m: SmView| m.wf() && image_fits(m) && encode_image(m) == b@) ==> r is Some,
    {
        let ghost good = exists|m: SmView| m.wf() && image_fits(m) && encode_image(m) == b@;
        let ghost m = choose|m: SmView| m.wf() && image_fits(m) && encode_image(m) == b@;
        let ghost cpart = enc_u64(m.counters.len() as u64) + enc_all(m.counters, counter_enc());
        let ghost kpart = enc_all(m.kv, kv_enc()) + cpart;
        proof {
            if good {
                assert(b@.subrange(0, b@.len() as int) =~= enc_u64(m.last_applied.term) + (enc_u64(
                    m.last_applied.index,
                ) + (enc_u64(m.kv.len() as u64) + kpart)));
                lemma_split_at(
                    b@,
                    0,
                    enc_u64(m.last_applied.term),
                    enc_u64(m.last_applied.index) + (enc_u64(m.kv.len() as u64) + kpart),
                );
                lemma_enc_u64_len(m.last_applied.term);
                lemma_enc_u64_len(m.last_applied.index);
                lemma_enc_u64_len(m.kv.len() as u64);
                lemma_split_at(
                    b@,
                    8,
                    enc_u64(m.last_applied.index),
                    enc_u64(m.kv.len() as u64) + kpart,
                );
                lemma_split_at(b@, 16, enc_u64(m.kv.len() as u64), kpart);
            }
        }
        let term = match read_u64(b, 0) {
            Some(t) => t,
            None => {
                return None;
            },
        };
        let index = match read_u64(b, 8) {
            Some(t) => t,
            None => {
                return None;
            },
        };
        let nkv = match read_u64(b, 16) {
            Some(t) => t,
            None => {
                return None;
            },
        };
        proof {
            lemma_enc_u64_of_read(b@.subrange(0, 8));
            lemma_enc_u64_of_read(b@.subrange(8, 16));
            lemma_enc_u64_of_read(b@.subrange(16, 24));
        }
        let (kvs, kv_end) = match decode_kvs(
            b,
            24,
            nkv,
            Ghost(
                if good {
                    Some((m.kv, cpart))
                } else {
                    None
                },
            ),
        ) {
            Some(x) => x,
            None => {
                return None;
            },
        };
        proof {
            if good {
                lemma_enc_u64_len(m.counters.len() as u64);
                lemma_split_at(b@, kv_end as int, enc_u64(m.counters.len() as u64), enc_all(m.counters, counter_enc()));
            }
        }
        let nc = match read_u64(b, kv_end) {
            Some(t) => t,
            None => {
                return None;
            },
        };
        let len = b.len();
        assert(kv_end + 8 <= len);
        let counters_start = kv_end + 8;
        proof {
            lemma_enc_u64_of_read(b@.subrange(kv_end as int, counters_start as int));
            if good {
                assert(enc_all(m.counters, counter_enc()) + Seq::<u8>::empty() =~= enc_all(
                    m.counters,
                    counter_enc(),
                ));
            }
        }
        let (cs, end) = match decode_counters(
            b,
            counters_start,
            nc,
            Ghost(
                if good {
                    Some((m.counters, Seq::<u8>::empty()))
                } else {
                    None
                },
            ),
        ) {
            Some(x) => x,
            None => {
                return None;
            },
        };
        if end != len {
            return None;
        }
        let sm = StateMachine::from_parts(kvs, cs, LogId { term, index });
        proof {
            lemma_join(b@, 0, 8, 16);
            lemma_join(b@, 0, 16, 24);
            lemma_join(b@, 0, 24, kv_end as int);
            lemma_join(b@, 0, kv_end as int, counters_start as int);
            lemma_join(b@, 0, counters_start as int, end as int);
            assert(b@.subrange(0, b@.len() as int) =~= b@);
            assert(b@ =~= encode_image(sm@));
        }
        Some(sm)
    }
}

fn decode_kvs(b: &Vec<u8>, start: usize, n: u64, expect: Ghost<Option<(Seq<KvView>, Seq<u8>)>>) -> (r:
    Option<(Vec<KvEntry>, usize)>)
    requires
        start <= b@.len(),
    ensures
        r matches Some((kvs, p)) ==> start <= p <= b@.len() && kvs@.len() == n && b@.subrange(
            start as int,
            p as int,
        ) == enc_all(kv_view(kvs@), kv_enc()) && unique_keys(kv_view(kvs@)) && (forall|i: int|
            0 <= i < kvs@.len() ==> (#[trigger] kv_view(kvs@)[i]).key.len() <= u64::MAX && kv_view(
                kvs@,
            )[i].value.len() <= u64::MAX),
        expect@ matches Some((s, rest)) ==> (s.len() == n && unique_keys(s) && (forall|i: int|
            0 <= i < s.len() ==> (#[trigger] s[i]).key.len() <= u64::MAX && s[i].value.len()
                <= u64::MAX) && b@.subrange(start as int, b@.len() as int) == enc_all(s, kv_enc())
            + rest ==> (r matches Some((kvs, p)) && kv_view(kvs@) == s && b@.subrange(
            p as int,
            b@.len() as int,
        ) == rest)),
{
    let ghost ok = expect@ matches Some((s, rest)) && (s.len() == n && unique_keys(s) && (forall|i: int|
        0 <= i < s.len() ==> (#[trigger] s[i]).key.len() <= u64::MAX && s[i].value.len()
            <= u64::MAX) && b@.subrange(start as int, b@.len() as int) == enc_all(s, kv_enc())
        + rest);
    let ghost s = expect@->Some_0.0;
    let ghost rest = expect@->Some_0.1;
    let mut kvs: Vec<KvEntry> = Vec::new();
    let mut pos = start;
    let mut i: u64 = 0;
    proof {
        assert(b@.subrange(start as int, start as int) =~= Seq::<u8>::empty());
        assert(kv_view(kvs@) =~= Seq::<KvView>::empty());
        if ok {
            assert(s.skip(0) =~= s);
            assert(s.take(0) =~= Seq::<KvView>::empty());
        }
    }
    while i < n
        invariant
            start <= pos <= b@.len(),
            i <= n,
            kvs@.len() == i,
            b@.subrange(start as int, pos as int) == enc_all(kv_view(kvs@), kv_enc()),
            unique_keys(kv_view(kvs@)),
            forall|k: int|
                0 <= k < kvs@.len() ==> (#[trigger] kv_view(kvs@)[k]).key.len() <= u64::MAX
                    && kv_view(kvs@)[k].value.len() <= u64::MAX,
            s == expect@->Some_0.0,
            rest == expect@->Some_0.1,
            ok == (expect@ matches Some((s, rest)) && (s.len() == n && unique_keys(s) && (forall|i: int|
        0 <= i < s.len() ==> (#[trigger] s[i]).key.len() <= u64::MAX && s[i].value.len()
            <= u64::MAX) && b@.subrange(start as int, b@.len() as int) == enc_all(s, kv_enc())
        + rest)),
            ok ==> s.len() == n && unique_keys(s) && kv_view(kvs@) == s.take(i as int) && b@.subrange(
                pos as int,
                b@.len() as int,
            ) == enc_all(s.skip(i as int), kv_enc()) + rest,
            ok ==> forall|k: int|
                0 <= k < s.len() ==> (#[trigger] s[k]).key.len() <= u64::MAX && s[k].value.len()
                    <= u64::MAX,
        decreases n - i,
    {
        let ghost e = s[i as int];
        let ghost after = enc_all(s.skip(i + 1), kv_enc()) + rest;
        proof {
            if ok {
                lemma_enc_all_first(s.skip(i as int), kv_enc());
                assert(s.skip(i as int).skip(1) =~= s.skip(i + 1));
                assert(b@.subrange(pos as int, b@.len() as int) =~= enc_bytes(e.key) + (enc_bytes(e.value) + (
                enc_u64(e.version) + after)));
                lemma_split_at(b@, pos as int, enc_bytes(e.key), enc_bytes(e.value) + (enc_u64(e.version) + after));
            }
        }
        let (key, after_key) = match read_bytes(b, pos, Ghost(if ok { Some(e.key) } else { None })) {
            Some(x) => x,
            None => {
                return None;
            },
        };
        proof {
            if ok {
                lemma_split_at(b@, after_key as int, enc_bytes(e.value), enc_u64(e.version) + after);
            }
        }
        let (value, after_value) = match read_bytes(b, after_key, Ghost(if ok { Some(e.value) } else { None })) {
            Some(x) => x,
            None => {
                return None;
            },
        };
        proof {
            if ok {
                lemma_enc_u64_len(e.version);
                lemma_split_at(b@, after_value as int, enc_u64(e.version), after);
            }
        }
        let version = match read_u64(b, after_value) {
            Some(v) => v,
            None => {
                return None;
            },
        };
        let len = b.len();
        assert(after_value + 8 <= len);
        let after_entry = after_value + 8;
        proof {
            if ok {
                assert forall|j: int| 0 <= j < kvs@.len() implies kv_view(kvs@)[j].key != key@ by {
                    assert(kv_view(kvs@)[j] == s[j]);
                    assert(s[j].key != s[i as int].key);
                }
            }
        }
        if !key_absent(&kvs, &key) {
            return None;
        }
        let entry = KvEntry { key, value, version };
        let ghost before = kv_view(kvs@);
        kvs.push(entry);
        proof {
            assert(kv_view(kvs@) =~= before.push(entry@));
            lemma_enc_u64_of_read(b@.subrange(after_value as int, after_entry as int));
            lemma_join(b@, pos as int, after_key as int, after_value as int);
            lemma_join(b@, pos as int, after_value as int, after_entry as int);
            lemma_join(b@, start as int, pos as int, after_entry as int);
            lemma_enc_all_push(before, kv_enc(), entry@);
            assert(b@.subrange(pos as int, after_entry as int) =~= enc_kv(entry@));
            assert(b@.subrange(start as int, after_entry as int) =~= enc_all(kv_view(kvs@), kv_enc()));
            if ok {
                assert(entry@ == e);
                assert(s.take(i + 1) =~= s.take(i as int).push(e));
            }
        }
        pos = after_entry;
        i = i + 1;
    }
    proof {
        if ok {
            assert(s.skip(n as int) =~= Seq::<KvView>::empty());
            assert(s.take(n as int) =~= s);
            assert(enc_all(s.skip(n as int), kv_enc()) + rest =~= rest);
        }
    }
    Some((kvs, pos))
}

fn decode_counters(
    b: &Vec<u8>,
    start: usize,
    n: u64,
    expect: Ghost<Option<(Seq<CounterView>, Seq<u8>)>>,
) -> (r: Option<(Vec<Counter>, usize)>)
    requires
        start <= b@.len(),
    ensures
        r matches Some((cs, p)) ==> start <= p <= b@.len() && cs@.len() == n && b@.subrange(
            start as int,
            p as int,
        ) == enc_all(counters_view(cs@), counter_enc()) && unique_names(counters_view(cs@)) && (
        forall|i: int|
            0 <= i < cs@.len() ==> (#[trigger] counters_view(cs@)[i]).name.len() <= u64::MAX),
        expect@ matches Some((s, rest)) ==> (s.len() == n && unique_names(s) && (forall|i: int|
            0 <= i < s.len() ==> (#[trigger] s[i]).name.len() <= u64::MAX) && b@.subrange(
            start as int,
            b@.len() as int,
        ) == enc_all(s, counter_enc()) + rest ==> (r matches Some((cs, p)) && counters_view(cs@)
            == s && b@.subrange(p as int, b@.len() as int) == rest)),
{
    let ghost ok = expect@ matches Some((s, rest)) && (s.len() == n && unique_names(s) && (forall|i: int|
        0 <= i < s.len() ==> (#[trigger] s[i]).name.len() <= u64::MAX) && b@.subrange(
        start as int,
        b@.len() as int,
    ) == enc_all(s, counter_enc()) + rest);
    let ghost s = expect@->Some_0.0;
    let ghost rest = expect@->Some_0.1;
    let mut cs: Vec<Counter> = Vec::new();
    let mut pos = start;
    let mut i: u64 = 0;
    proof {
        assert(b@.subrange(start as int, start as int) =~= Seq::<u8>::empty());
        assert(counters_view(cs@) =~= Seq::<CounterView>::empty());
        if ok {
            assert(s.skip(0) =~= s);
            assert(s.take(0) =~= Seq::<CounterView>::empty());
        }
    }
    while i < n
        invariant
            start <= pos <= b@.len(),
            i <= n,
            cs@.len() == i,
            b@.subrange(start as int, pos as int) == enc_all(counters_view(cs@), counter_enc()),
            unique_names(counters_view(cs@)),
            forall|k: int|
                0 <= k < cs@.len() ==> (#[trigger] counters_view(cs@)[k]).name.len() <= u64::MAX,
            s == expect@->Some_0.0,
            rest == expect@->Some_0.1,
            ok == (expect@ matches Some((s, rest)) && (s.len() == n && unique_names(s) && (forall|i: int|
        0 <= i < s.len() ==> (#[trigger] s[i]).name.len() <= u64::MAX) && b@.subrange(
        start as int,
        b@.len() as int,
    ) == enc_all(s, counter_enc()) + rest)),
            ok ==> s.len() == n && unique_names(s) && counters_view(cs@) == s.take(i as int)
                && b@.subrange(pos as int, b@.len() as int) == enc_all(s.skip(i as int), counter_enc())
                + rest,
            ok ==> forall|k: int| 0 <= k < s.len() ==> (#[trigger] s[k]).name.len() <= u64::MAX,
        decreases n - i,
    {
        let ghost e = s[i as int];
        let ghost after = enc_all(s.skip(i + 1), counter_enc()) + rest;
        proof {
            if ok {
                lemma_enc_all_first(s.skip(i as int), counter_enc());
                assert(s.skip(i as int).skip(1) =~= s.skip(i + 1));
                assert(b@.subrange(pos as int, b@.len() as int) =~= enc_bytes(e.name) + (enc_u64(e.value) + after));
                lemma_split_at(b@, pos as int, enc_bytes(e.name), enc_u64(e.value) + after);
            }
        }
        let (name, after_name) = match read_bytes(b, pos, Ghost(if ok { Some(e.name) } else { None })) {
            Some(x) => x,
            None => {
                return None;
            },
        };
        proof {
            if ok {
                lemma_enc_u64_len(e.value);
                lemma_split_at(b@, after_name as int, enc_u64(e.value), after);
            }
        }
        let value = match read_u64(b, after_name) {
            Some(v) => v,
            None => {
                return None;
            },
        };
        let len = b.len();
        assert(after_name + 8 <= len);
        let after_entry = after_name + 8;
        proof {
            if ok {
                assert forall|j: int| 0 <= j < cs@.len() implies counters_view(cs@)[j].name != name@ by {
                    assert(counters_view(cs@)[j] == s[j]);
                    assert(s[j].name != s[i as int].name);
                }
            }
        }
        if !name_absent(&cs, &name) {
            return None;
        }
        let c = Counter { name, value };
        let ghost before = counters_view(cs@);
        cs.push(c);
        proof {
            assert(counters_view(cs@) =~= before.push(c@));
            lemma_enc_u64_of_read(b@.subrange(after_name as int, after_entry as int));
            lemma_join(b@, pos as int, after_name as int, after_entry as int);
            lemma_join(b@, start as int, pos as int, after_entry as int);
            lemma_enc_all_push(before, counter_enc(), c@);
            assert(b@.subrange(pos as int, after_entry as int) =~= enc_counter(c@));
            assert(b@.subrange(start as int, after_entry as int) =~= enc_all(counters_view(cs@), counter_enc()));
            if ok {
                assert(c@ == e);
                assert(s.take(i + 1) =~= s.take(i as int).push(e));
            }
        }
        pos = after_entry;
        i = i + 1;
    }
    proof {
        if ok {
            assert(s.skip(n as int) =~= Seq::<CounterView>::empty());
            assert(s.take(n as int) =~= s);
            assert(enc_all(s.skip(n as int), counter_enc()) + rest =~= rest);
        }
    }
    Some((cs, pos))
}

} // verus!
