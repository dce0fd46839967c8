use vstd::prelude::*;

use crate::image::{
    enc_all, enc_bytes, enc_u64, lemma_bytes_prefix, lemma_enc_all_first, lemma_enc_all_push,
    lemma_enc_u64_len, lemma_enc_u64_of_read, lemma_join, lemma_split_at, lemma_u64_prefix,
    read_bytes, read_u64, write_bytes, write_u64,
};
use crate::types::{
    copy_bytes, entries_view, Command, CommandView, Entry, EntryView, LogId, Membership,
    MembershipView, NodeId, Payload, PayloadView,
};

verus! {

pub open spec fn id_enc() -> spec_fn(NodeId) -> Seq<u8> {
    |x: NodeId| enc_u64(x)
}

/// A list of node ids: their number, then each id.
pub open spec fn enc_ids(s: Seq<NodeId>) -> Seq<u8> {
    enc_u64(s.len() as u64) + enc_all(s, id_enc())
}

/// A command: a tag byte (0 put, 1 compare-and-swap, 2 sequence), then its
/// fields in order.
pub open spec fn enc_command(c: CommandView) -> Seq<u8> {
    match c {
        CommandView::Put { key, value } => seq![0u8] + (enc_bytes(key) + enc_bytes(value)),
        CommandView::CompareAndSwap { key, expected_version, value } => seq![1u8] + (enc_bytes(key)
            + (enc_u64(expected_version) + enc_bytes(value))),
        CommandView::SequenceNext { name, step } => seq![2u8] + (enc_bytes(name) + enc_u64(step)),
    }
}

/// The second half of a configuration: a 0 byte, or a 1 byte and the next voters.
pub open spec fn enc_next(n: Option<Seq<NodeId>>) -> Seq<u8> {
    match n {
        None => seq![0u8],
        Some(ids) => seq![1u8] + enc_ids(ids),
    }
}

/// A payload: a tag byte (0 empty, 1 configuration, 2 command), then its data.
pub open spec fn enc_payload(p: PayloadView) -> Seq<u8> {
    match p {
        PayloadView::Noop => seq![0u8],
        PayloadView::Membership(m) => seq![1u8] + (enc_ids(m.voters) + enc_next(m.next)),
        PayloadView::Write(c) => seq![2u8] + enc_command(c),
    }
}

/// An entry: its term, its index, then its payload.
pub open spec fn enc_entry(e: EntryView) -> Seq<u8> {
    enc_u64(e.log_id.term) + (enc_u64(e.log_id.index) + enc_payload(e.payload))
}

pub open spec fn entry_enc() -> spec_fn(EntryView) -> Seq<u8> {
    |e: EntryView| enc_entry(e)
}

/// The bytes of a log segment: the number of entries, then each entry.
pub open spec fn segment_bytes(s: Seq<EntryView>) -> Seq<u8> {
    enc_u64(s.len() as u64) + enc_all(s, entry_enc())
}

pub open spec fn command_fits(c: CommandView) -> bool {
    match c {
        CommandView::Put { key, value } => key.len() <= u64::MAX && value.len() <= u64::MAX,
        CommandView::CompareAndSwap { key, value, .. } => key.len() <= u64::MAX && value.len()
            <= u64::MAX,
        CommandView::SequenceNext { name, .. } => name.len() <= u64::MAX,
    }
}

pub open spec fn payload_fits(p: PayloadView) -> bool {
    match p {
        PayloadView::Noop => true,
        PayloadView::Membership(m) => m.voters.len() <= u64::MAX && match m.next {
            Some(n) => n.len() <= u64::MAX,
            None => true,
        },
        PayloadView::Write(c) => command_fits(c),
    }
}

/// Every length in the entries fits in a `u64`.
pub open spec fn entries_fit(s: Seq<EntryView>) -> bool {
    s.len() <= u64::MAX && forall|i: int| 0 <= i < s.len() ==> payload_fits(#[trigger] s[i].payload)
}

fn write_ids(out: &mut Vec<u8>, ids: &Vec<NodeId>)
    ensures
        final(out)@ == old(out)@ + enc_ids(ids@),
{
    write_u64(out, ids.len() as u64);
    let ghost head = out@;
    let mut i: usize = 0;
    while i < ids.len()
        invariant
            0 <= i <= ids.len(),
            out@ == head + enc_all(ids@.take(i as int), id_enc()),
        decreases ids.len() - i,
    {
        write_u64(out, ids[i]);
        proof {
            lemma_enc_all_push(ids@.take(i as int), id_enc(), ids@[i as int]);
            assert(ids@.take(i + 1) =~= ids@.take(i as int).push(ids@[i as int]));
            assert(out@ =~= head + enc_all(ids@.take(i + 1), id_enc()));
        }
        i += 1;
    }
    assert(ids@.take(ids.len() as int) =~= ids@);
    assert(out@ =~= old(out)@ + enc_ids(ids@));
}

fn write_command(out: &mut Vec<u8>, c: &Command)
    ensures
        final(out)@ == old(out)@ + enc_command(c@),
{
    let ghost o = out@;
    match c {
        Command::Put { key, value } => {
            out.push(0u8);
            write_bytes(out, key);
            write_bytes(out, value);
        },
        Command::CompareAndSwap { key, expected_version, value } => {
            out.push(1u8);
            write_bytes(out, key);
            write_u64(out, *expected_version);
            write_bytes(out, value);
        },
        Command::SequenceNext { name, step } => {
            out.push(2u8);
            write_bytes(out, name);
            write_u64(out, *step);
        },
    }
    assert(out@ =~= o + enc_command(c@));
}

fn write_payload(out: &mut Vec<u8>, p: &Payload)
    ensures
        final(out)@ == old(out)@ + enc_payload(p@),
{
    let ghost o = out@;
    match p {
        Payload::Noop => {
            out.push(0u8);
        },
        Payload::Membership(m) => {
            out.push(1u8);
            write_ids(out, &m.voters);
            match &m.next {
                None => {
                    out.push(0u8);
                },
                Some(n) => {
                    out.push(1u8);
                    write_ids(out, n);
                },
            }
        },
        Payload::Write(c) => {
            out.push(2u8);
            write_command(out, c);
        },
    }
    assert(out@ =~= o + enc_payload(p@));
}

/// The bytes of a log segment holding `entries` (see `encode_entries`).
pub fn encode_entries(entries: &Vec<Entry>) -> (r: Vec<u8>)
    ensures
        r@ == segment_bytes(entries_view(entries@)),
{
    let ghost ev = entries_view(entries@);
    let mut out: Vec<u8> = Vec::new();
    write_u64(&mut out, entries.len() as u64);
    let ghost head = out@;
    let mut i: usize = 0;
    while i < entries.len()
        invariant
            0 <= i <= entries.len(),
            ev == entries_view(entries@),
            out@ == head + enc_all(ev.take(i as int), entry_enc()),
        decreases entries.len() - i,
    {
        let ghost o = out@;
        let e = &entries[i];
        write_u64(&mut out, e.log_id.term);
        write_u64(&mut out, e.log_id.index);
        write_payload(&mut out, &e.payload);
        proof {
            assert(out@ =~= o + enc_entry(ev[i as int]));
            lemma_enc_all_push(ev.take(i as int), entry_enc(), ev[i as int]);
            assert(ev.take(i + 1) =~= ev.take(i as int).push(ev[i as int]));
            assert(out@ =~= head + enc_all(ev.take(i + 1), entry_enc()));
        }
        i += 1;
    }
    assert(ev.take(entries.len() as int) =~= ev);
    assert(out@ =~= segment_bytes(ev));
    out
}

proof fn lemma_tag_prefix(t1: u8, t2: u8, r1: Seq<u8>, r2: Seq<u8>)
    requires
        seq![t1] + r1 == seq![t2] + r2,
    ensures
        t1 == t2,
        r1 == r2,
{
    assert((seq![t1] + r1)[0] == t1);
    assert((seq![t2] + r2)[0] == t2);
    assert((seq![t1] + r1).skip(1) =~= r1);
    assert((seq![t2] + r2).skip(1) =~= r2);
}

proof fn lemma_id_list_prefix(s1: Seq<NodeId>, s2: Seq<NodeId>, r1: Seq<u8>, r2: Seq<u8>)
    requires
        s1.len() == s2.len(),
        enc_all(s1, id_enc()) + r1 == enc_all(s2, id_enc()) + r2,
    ensures
        s1 == s2,
        r1 == r2,
    decreases s1.len(),
{
    if s1.len() == 0 {
        assert(enc_all(s1, id_enc()) + r1 =~= r1);
        assert(enc_all(s2, id_enc()) + r2 =~= r2);
        assert(s1 =~= s2);
    } else {
        lemma_enc_all_first(s1, id_enc());
        lemma_enc_all_first(s2, id_enc());
        let t1 = enc_all(s1.skip(1), id_enc()) + r1;
        let t2 = enc_all(s2.skip(1), id_enc()) + r2;
        assert(enc_all(s1, id_enc()) + r1 =~= enc_u64(s1[0]) + t1);
        assert(enc_all(s2, id_enc()) + r2 =~= enc_u64(s2[0]) + t2);
        lemma_u64_prefix(s1[0], s2[0], t1, t2);
        lemma_id_list_prefix(s1.skip(1), s2.skip(1), r1, r2);
        assert(s1 =~= seq![s1[0]] + s1.skip(1));
        assert(s2 =~= seq![s2[0]] + s2.skip(1));
    }
}

proof fn lemma_ids_prefix(s1: Seq<NodeId>, s2: Seq<NodeId>, r1: Seq<u8>, r2: Seq<u8>)
    requires
        s1.len() <= u64::MAX,
        s2.len() <= u64::MAX,
        enc_ids(s1) + r1 == enc_ids(s2) + r2,
    ensures
        s1 == s2,
        r1 == r2,
{
    assert(enc_ids(s1) + r1 =~= enc_u64(s1.len() as u64) + (enc_all(s1, id_enc()) + r1));
    assert(enc_ids(s2) + r2 =~= enc_u64(s2.len() as u64) + (enc_all(s2, id_enc()) + r2));
    lemma_u64_prefix(s1.len() as u64, s2.len() as u64, enc_all(s1, id_enc()) + r1, enc_all(s2, id_enc()) + r2);
    lemma_id_list_prefix(s1, s2, r1, r2);
}

proof fn lemma_command_prefix(c1: CommandView, c2: CommandView, r1: Seq<u8>, r2: Seq<u8>)
    requires
        command_fits(c1),
        command_fits(c2),
        enc_command(c1) + r1 == enc_command(c2) + r2,
    ensures
        c1 == c2,
        r1 == r2,
{
    let body1 = enc_command(c1).skip(1) + r1;
    let body2 = enc_command(c2).skip(1) + r2;
    assert(enc_command(c1) + r1 =~= seq![enc_command(c1)[0]] + body1);
    assert(enc_command(c2) + r2 =~= seq![enc_command(c2)[0]] + body2);
    lemma_tag_prefix(enc_command(c1)[0], enc_command(c2)[0], body1, body2);
    match (c1, c2) {
        (CommandView::Put { key: k1, value: v1 }, CommandView::Put { key: k2, value: v2 }) => {
            assert(body1 =~= enc_bytes(k1) + (enc_bytes(v1) + r1));
            assert(body2 =~= enc_bytes(k2) + (enc_bytes(v2) + r2));
            lemma_bytes_prefix(k1, k2, enc_bytes(v1) + r1, enc_bytes(v2) + r2);
            lemma_bytes_prefix(v1, v2, r1, r2);
        },
        (
            CommandView::CompareAndSwap { key: k1, expected_version: e1, value: v1 },
            CommandView::CompareAndSwap { key: k2, expected_version: e2, value: v2 },
        ) => {
            assert(body1 =~= enc_bytes(k1) + (enc_u64(e1) + (enc_bytes(v1) + r1)));
            assert(body2 =~= enc_bytes(k2) + (enc_u64(e2) + (enc_bytes(v2) + r2)));
            lemma_bytes_prefix(
                k1,
                k2,
                enc_u64(e1) + (enc_bytes(v1) + r1),
                enc_u64(e2) + (enc_bytes(v2) + r2),
            );
            lemma_u64_prefix(e1, e2, enc_bytes(v1) + r1, enc_bytes(v2) + r2);
            lemma_bytes_prefix(v1, v2, r1, r2);
        },
        (
            CommandView::SequenceNext { name: n1, step: s1 },
            CommandView::SequenceNext { name: n2, step: s2 },
        ) => {
            assert(body1 =~= enc_bytes(n1) + (enc_u64(s1) + r1));
            assert(body2 =~= enc_bytes(n2) + (enc_u64(s2) + r2));
            lemma_bytes_prefix(n1, n2, enc_u64(s1) + r1, enc_u64(s2) + r2);
            lemma_u64_prefix(s1, s2, r1, r2);
        },
        _ => {
            assert(enc_command(c1)[0] != enc_command(c2)[0]);
        },
    }
}

proof fn lemma_next_prefix(n1: Option<Seq<NodeId>>, n2: Option<Seq<NodeId>>, r1: Seq<u8>, r2: Seq<u8>)
    requires
        n1 matches Some(x) ==> x.len() <= u64::MAX,
        n2 matches Some(x) ==> x.len() <= u64::MAX,
        enc_next(n1) + r1 == enc_next(n2) + r2,
    ensures
        n1 == n2,
        r1 == r2,
{
    let body1 = enc_next(n1).skip(1) + r1;
    let body2 = enc_next(n2).skip(1) + r2;
    assert(enc_next(n1) + r1 =~= seq![enc_next(n1)[0]] + body1);
    assert(enc_next(n2) + r2 =~= seq![enc_next(n2)[0]] + body2);
    lemma_tag_prefix(enc_next(n1)[0], enc_next(n2)[0], body1, body2);
    match (n1, n2) {
        (Some(x1), Some(x2)) => {
            assert(body1 =~= enc_ids(x1) + r1);
            assert(body2 =~= enc_ids(x2) + r2);
            lemma_ids_prefix(x1, x2, r1, r2);
        },
        (None, None) => {
            assert(body1 =~= r1);
            assert(body2 =~= r2);
        },
        _ => {
            assert(enc_next(n1)[0] != enc_next(n2)[0]);
        },
    }
}

proof fn lemma_payload_prefix(first: PayloadView, second: PayloadView, r1: Seq<u8>, r2: Seq<u8>)
    requires
        payload_fits(first),
        payload_fits(second),
        enc_payload(first) + r1 == enc_payload(second) + r2,
    ensures
        first == second,
        r1 == r2,
{
    let body1 = enc_payload(first).skip(1) + r1;
    let body2 = enc_payload(second).skip(1) + r2;
    assert(enc_payload(first) + r1 =~= seq![enc_payload(first)[0]] + body1);
    assert(enc_payload(second) + r2 =~= seq![enc_payload(second)[0]] + body2);
    lemma_tag_prefix(enc_payload(first)[0], enc_payload(second)[0], body1, body2);
    match (first, second) {
        (PayloadView::Noop, PayloadView::Noop) => {
            assert(body1 =~= r1);
            assert(body2 =~= r2);
        },
        (PayloadView::Membership(m1), PayloadView::Membership(m2)) => {
            assert(body1 =~= enc_ids(m1.voters) + (enc_next(m1.next) + r1));
            assert(body2 =~= enc_ids(m2.voters) + (enc_next(m2.next) + r2));
            lemma_ids_prefix(m1.voters, m2.voters, enc_next(m1.next) + r1, enc_next(m2.next) + r2);
            lemma_next_prefix(m1.next, m2.next, r1, r2);
        },
        (PayloadView::Write(c1), PayloadView::Write(c2)) => {
            assert(body1 =~= enc_command(c1) + r1);
            assert(body2 =~= enc_command(c2) + r2);
            lemma_command_prefix(c1, c2, r1, r2);
        },
        _ => {
            assert(enc_payload(first)[0] != enc_payload(second)[0]);
        },
    }
}

proof fn lemma_entry_prefix(e1: EntryView, e2: EntryView, r1: Seq<u8>, r2: Seq<u8>)
    requires
        payload_fits(e1.payload),
        payload_fits(e2.payload),
        enc_entry(e1) + r1 == enc_entry(e2) + r2,
    ensures
        e1 == e2,
        r1 == r2,
{
    assert(enc_entry(e1) + r1 =~= enc_u64(e1.log_id.term) + (enc_u64(e1.log_id.index) + (enc_payload(
        e1.payload,
    ) + r1)));
    assert(enc_entry(e2) + r2 =~= enc_u64(e2.log_id.term) + (enc_u64(e2.log_id.index) + (enc_payload(
        e2.payload,
    ) + r2)));
    lemma_u64_prefix(
        e1.log_id.term,
        e2.log_id.term,
        enc_u64(e1.log_id.index) + (enc_payload(e1.payload) + r1),
        enc_u64(e2.log_id.index) + (enc_payload(e2.payload) + r2),
    );
    lemma_u64_prefix(
        e1.log_id.index,
        e2.log_id.index,
        enc_payload(e1.payload) + r1,
        enc_payload(e2.payload) + r2,
    );
    lemma_payload_prefix(e1.payload, e2.payload, r1, r2);
}

proof fn lemma_entry_list_prefix(s1: Seq<EntryView>, s2: Seq<EntryView>, r1: Seq<u8>, r2: Seq<u8>)
    requires
        s1.len() == s2.len(),
        entries_fit(s1),
        entries_fit(s2),
        enc_all(s1, entry_enc()) + r1 == enc_all(s2, entry_enc()) + r2,
    ensures
        s1 == s2,
        r1 == r2,
    decreases s1.len(),
{
    if s1.len() == 0 {
        assert(enc_all(s1, entry_enc()) + r1 =~= r1);
        assert(enc_all(s2, entry_enc()) + r2 =~= r2);
        assert(s1 =~= s2);
    } else {
        lemma_enc_all_first(s1, entry_enc());
        lemma_enc_all_first(s2, entry_enc());
        let t1 = enc_all(s1.skip(1), entry_enc()) + r1;
        let t2 = enc_all(s2.skip(1), entry_enc()) + r2;
        assert(enc_all(s1, entry_enc()) + r1 =~= enc_entry(s1[0]) + t1);
        assert(enc_all(s2, entry_enc()) + r2 =~= enc_entry(s2[0]) + t2);
        assert(payload_fits(s1[0].payload));
        assert(payload_fits(s2[0].payload));
        lemma_entry_prefix(s1[0], s2[0], t1, t2);
        assert forall|i: int| 0 <= i < s1.skip(1).len() implies payload_fits(
            #[trigger] s1.skip(1)[i].payload,
        ) by {
            assert(s1.skip(1)[i] == s1[i + 1]);
        }
        assert forall|i: int| 0 <= i < s2.skip(1).len() implies payload_fits(
            #[trigger] s2.skip(1)[i].payload,
        ) by {
            assert(s2.skip(1)[i] == s2[i + 1]);
        }
        lemma_entry_list_prefix(s1.skip(1), s2.skip(1), r1, r2);
        assert(s1 =~= seq![s1[0]] + s1.skip(1));
        assert(s2 =~= seq![s2[0]] + s2.skip(1));
    }
}

/// Two lists of entries whose lengths fit in a `u64` and whose segments are
/// the same bytes are the same entries.
pub proof fn lemma_segment_injective(s1: Seq<EntryView>, s2: Seq<EntryView>)
    requires
        entries_fit(s1),
        entries_fit(s2),
        segment_bytes(s1) == segment_bytes(s2),
    ensures
        s1 == s2,
{
    lemma_u64_prefix(
        s1.len() as u64,
        s2.len() as u64,
        enc_all(s1, entry_enc()),
        enc_all(s2, entry_enc()),
    );
    assert(enc_all(s1, entry_enc()) + Seq::<u8>::empty() =~= enc_all(s1, entry_enc()));
    assert(enc_all(s2, entry_enc()) + Seq::<u8>::empty() =~= enc_all(s2, entry_enc()));
    lemma_entry_list_prefix(s1, s2, Seq::<u8>::empty(), Seq::<u8>::empty());
}

fn read_tag(b: &Vec<u8>, pos: usize) -> (r: Option<u8>)
    ensures
        pos < b@.len() ==> r == Some(b@[pos as int]),
        pos >= b@.len() ==> r is None,
{
    if pos < b.len() {
        Some(b[pos])
    } else {
        None
    }
}

proof fn lemma_read_tag(b: Seq<u8>, pos: int, t: u8, rest: Seq<u8>)
    requires
        0 <= pos <= b.len(),
        b.subrange(pos, b.len() as int) == seq![t] + rest,
    ensures
        pos < b.len(),
        b[pos] == t,
        b.subrange(pos + 1, b.len() as int) == rest,
        b.subrange(pos, pos + 1) == seq![t],
{
    lemma_split_at(b, pos, seq![t], rest);
    assert(b.subrange(pos, pos + 1)[0] == b[pos]);
}

fn read_ids(b: &Vec<u8>, pos: usize, expect: Ghost<Option<(Seq<NodeId>, Seq<u8>)>>) -> (r: Option<
    (Vec<NodeId>, usize),
>)
    requires
        pos <= b@.len(),
    ensures
        r matches Some((v, p)) ==> pos <= p <= b@.len() && b@.subrange(pos as int, p as int)
            == enc_ids(v@) && v@.len() <= u64::MAX,
        expect@ matches Some((x, rest)) ==> (x.len() <= u64::MAX && b@.subrange(
            pos as int,
            b@.len() as int,
        ) == enc_ids(x) + rest ==> (r matches Some((v, p)) && v@ == x && b@.subrange(
            p as int,
            b@.len() as int,
        ) == rest)),
{
    let ghost x = expect@->Some_0.0;
    let ghost rest = expect@->Some_0.1;
    let ghost ok = expect@ matches Some((x, rest)) && (x.len() <= u64::MAX && b@.subrange(
        pos as int,
        b@.len() as int,
    ) == enc_ids(x) + rest);
    proof {
        if ok {
            lemma_enc_u64_len(x.len() as u64);
            assert(enc_ids(x) + rest =~= enc_u64(x.len() as u64) + (enc_all(x, id_enc()) + rest));
            lemma_split_at(b@, pos as int, enc_u64(x.len() as u64), enc_all(x, id_enc()) + rest);
        }
    }
    let n = match read_u64(b, pos) {
        Some(n) => n,
        None => {
            return None;
        },
    };
    let len = b.len();
    assert(pos + 8 <= len);
    let start = pos + 8;
    proof {
        lemma_enc_u64_of_read(b@.subrange(pos as int, start as int));
        assert(b@.subrange(start as int, start as int) =~= Seq::<u8>::empty());
        if ok {
            assert(x.skip(0) =~= x);
            assert(x.take(0) =~= Seq::<NodeId>::empty());
        }
    }
    let mut v: Vec<NodeId> = Vec::new();
    assert(v@ =~= Seq::<NodeId>::empty());
    let mut cur = start;
    let mut i: u64 = 0;
    while i < n
        invariant
            start == pos + 8,
            start <= cur <= b@.len(),
            len == b@.len(),
            v@.len() == i,
            i <= n,
            b@.subrange(start as int, cur as int) == enc_all(v@, id_enc()),
            x == expect@->Some_0.0,
            rest == expect@->Some_0.1,
            ok == (expect@ matches Some((x, rest)) && (x.len() <= u64::MAX && b@.subrange(
                pos as int,
                b@.len() as int,
            ) == enc_ids(x) + rest)),
            ok ==> n == x.len() && v@ == x.take(i as int) && b@.subrange(cur as int, b@.len() as int)
                == enc_all(x.skip(i as int), id_enc()) + rest,
        decreases n - i,
    {
        let ghost e = x[i as int];
        proof {
            if ok {
                lemma_enc_all_first(x.skip(i as int), id_enc());
                assert(x.skip(i as int).skip(1) =~= x.skip(i + 1));
                assert(b@.subrange(cur as int, b@.len() as int) =~= enc_u64(e) + (enc_all(
                    x.skip(i + 1),
                    id_enc(),
                ) + rest));
                lemma_enc_u64_len(e);
                lemma_split_at(b@, cur as int, enc_u64(e), enc_all(x.skip(i + 1), id_enc()) + rest);
            }
        }
        let id = match read_u64(b, cur) {
            Some(id) => id,
            None => {
                return None;
            },
        };
        assert(cur + 8 <= len);
        let next = cur + 8;
        proof {
            lemma_enc_u64_of_read(b@.subrange(cur as int, next as int));
            lemma_join(b@, start as int, cur as int, next as int);
            lemma_enc_all_push(v@, id_enc(), id);
            if ok {
                assert(x.take(i + 1) =~= x.take(i as int).push(e));
            }
        }
        v.push(id);
        cur = next;
        i = i + 1;
    }
    proof {
        lemma_join(b@, pos as int, start as int, cur as int);
        assert(b@.subrange(pos as int, cur as int) =~= enc_ids(v@));
        if ok {
            assert(x.skip(n as int) =~= Seq::<NodeId>::empty());
            assert(x.take(n as int) =~= x);
            assert(enc_all(x.skip(n as int), id_enc()) + rest =~= rest);
        }
    }
    Some((v, cur))
}

/// Splits `x + rest` sitting at `pos` of `b` into its tag byte and the rest.
proof fn lemma_tagged(b: Seq<u8>, pos: int, x: Seq<u8>, rest: Seq<u8>)
    requires
        0 <= pos <= b.len(),
        x.len() > 0,
        b.subrange(pos, b.len() as int) == x + rest,
    ensures
        pos < b.len(),
        b[pos] == x[0],
        b.subrange(pos + 1, b.len() as int) == x.skip(1) + rest,
        b.subrange(pos, pos + 1) == seq![x[0]],
{
    assert(x + rest =~= seq![x[0]] + (x.skip(1) + rest));
    lemma_read_tag(b, pos, x[0], x.skip(1) + rest);
}

#[verifier::spinoff_prover]
#[verifier::rlimit(60)]
fn read_command(b: &Vec<u8>, pos: usize, expect: Ghost<Option<(CommandView, Seq<u8>)>>) -> (r: Option<
    (Command, usize),
>)
    requires
        pos <= b@.len(),
    ensures
        r matches Some((c, p)) ==> pos <= p <= b@.len() && b@.subrange(pos as int, p as int)
            == enc_command(c@) && command_fits(c@),
        expect@ matches Some((x, rest)) ==> (command_fits(x) && b@.subrange(
            pos as int,
            b@.len() as int,
        ) == enc_command(x) + rest ==> (r matches Some((c, p)) && c@ == x && b@.subrange(
            p as int,
            b@.len() as int,
        ) == rest)),
{
    let ghost x = expect@->Some_0.0;
    let ghost rest = expect@->Some_0.1;
    let ghost ok = expect@ matches Some((x, rest)) && (command_fits(x) && b@.subrange(
        pos as int,
        b@.len() as int,
    ) == enc_command(x) + rest);
    let ghost body = enc_command(x).skip(1) + rest;
    proof {
        if ok {
            lemma_tagged(b@, pos as int, enc_command(x), rest);
        }
    }
    let tag = match read_tag(b, pos) {
        Some(t) => t,
        None => {
            return None;
        },
    };
    let len0 = b.len();
    assert(pos < len0);
    let after_tag = pos + 1;
    if tag == 0 {
        proof {
            if ok {
                assert(x is Put);
                assert(body =~= enc_bytes(x->Put_key) + (enc_bytes(x->Put_value) + rest));
                lemma_split_at(b@, after_tag as int, enc_bytes(x->Put_key), enc_bytes(x->Put_value) + rest);
            }
        }
        let (key, after_key) = match read_bytes(b, after_tag, Ghost(if ok { Some(x->Put_key) } else { None })) {
            Some(r) => r,
            None => {
                return None;
            },
        };
        proof {
            if ok {
                lemma_split_at(b@, after_key as int, enc_bytes(x->Put_value), rest);
            }
        }
        let (value, after_field) = match read_bytes(b, after_key, Ghost(if ok { Some(x->Put_value) } else { None })) {
            Some(r) => r,
            None => {
                return None;
            },
        };
        let c = Command::Put { key, value };
        proof {
            lemma_join(b@, pos as int, after_tag as int, after_key as int);
            lemma_join(b@, pos as int, after_key as int, after_field as int);
            assert(b@.subrange(pos as int, after_field as int) =~= enc_command(c@));
        }
        Some((c, after_field))
    } else if tag == 1 {
        proof {
            if ok {
                assert(x is CompareAndSwap);
                assert(body =~= enc_bytes(x->CompareAndSwap_key) + (enc_u64(x->expected_version) + (
                enc_bytes(x->CompareAndSwap_value) + rest)));
                lemma_split_at(
                    b@,
                    after_tag as int,
                    enc_bytes(x->CompareAndSwap_key),
                    enc_u64(x->expected_version) + (enc_bytes(x->CompareAndSwap_value) + rest),
                );
            }
        }
        let (key, after_key) = match read_bytes(
            b,
            after_tag,
            Ghost(if ok { Some(x->CompareAndSwap_key) } else { None }),
        ) {
            Some(r) => r,
            None => {
                return None;
            },
        };
        proof {
            if ok {
                lemma_enc_u64_len(x->expected_version);
                lemma_split_at(
                    b@,
                    after_key as int,
                    enc_u64(x->expected_version),
                    enc_bytes(x->CompareAndSwap_value) + rest,
                );
            }
        }
        let expected_version = match read_u64(b, after_key) {
            Some(v) => v,
            None => {
                return None;
            },
        };
        let len = b.len();
        assert(after_key + 8 <= len);
        let after_field = after_key + 8;
        proof {
            lemma_enc_u64_of_read(b@.subrange(after_key as int, after_field as int));
            if ok {
                lemma_split_at(b@, after_field as int, enc_bytes(x->CompareAndSwap_value), rest);
            }
        }
        let (value, end) = match read_bytes(
            b,
            after_field,
            Ghost(if ok { Some(x->CompareAndSwap_value) } else { None }),
        ) {
            Some(r) => r,
            None => {
                return None;
            },
        };
        let c = Command::CompareAndSwap { key, expected_version, value };
        proof {
            lemma_join(b@, pos as int, after_tag as int, after_key as int);
            lemma_join(b@, pos as int, after_key as int, after_field as int);
            lemma_join(b@, pos as int, after_field as int, end as int);
            assert(b@.subrange(pos as int, end as int) =~= enc_command(c@));
        }
        Some((c, end))
    } else if tag == 2 {
        proof {
            if ok {
                assert(x is SequenceNext);
                assert(body =~= enc_bytes(x->name) + (enc_u64(x->step) + rest));
                lemma_split_at(b@, after_tag as int, enc_bytes(x->name), enc_u64(x->step) + rest);
            }
        }
        let (name, after_key) = match read_bytes(b, after_tag, Ghost(if ok { Some(x->name) } else { None })) {
            Some(r) => r,
            None => {
                return None;
            },
        };
        proof {
            if ok {
                lemma_enc_u64_len(x->step);
                lemma_split_at(b@, after_key as int, enc_u64(x->step), rest);
            }
        }
        let step = match read_u64(b, after_key) {
            Some(v) => v,
            None => {
                return None;
            },
        };
        let len = b.len();
        assert(after_key + 8 <= len);
        let after_field = after_key + 8;
        let c = Command::SequenceNext { name, step };
        proof {
            lemma_enc_u64_of_read(b@.subrange(after_key as int, after_field as int));
            lemma_join(b@, pos as int, after_tag as int, after_key as int);
            lemma_join(b@, pos as int, after_key as int, after_field as int);
            assert(b@.subrange(pos as int, after_field as int) =~= enc_command(c@));
        }
        Some((c, after_field))
    } else {
        None
    }
}

#[verifier::spinoff_prover]
#[verifier::rlimit(60)]
fn read_payload(b: &Vec<u8>, pos: usize, expect: Ghost<Option<(PayloadView, Seq<u8>)>>) -> (r: Option<
    (Payload, usize),
>)
    requires
        pos <= b@.len(),
    ensures
        r matches Some((pl, p)) ==> pos <= p <= b@.len() && b@.subrange(pos as int, p as int)
            == enc_payload(pl@) && payload_fits(pl@),
        expect@ matches Some((x, rest)) ==> (payload_fits(x) && b@.subrange(
            pos as int,
            b@.len() as int,
        ) == enc_payload(x) + rest ==> (r matches Some((pl, p)) && pl@ == x && b@.subrange(
            p as int,
            b@.len() as int,
        ) == rest)),
{
    let ghost x = expect@->Some_0.0;
    let ghost rest = expect@->Some_0.1;
    let ghost ok = expect@ matches Some((x, rest)) && (payload_fits(x) && b@.subrange(
        pos as int,
        b@.len() as int,
    ) == enc_payload(x) + rest);
    let ghost body = enc_payload(x).skip(1) + rest;
    proof {
        if ok {
            lemma_tagged(b@, pos as int, enc_payload(x), rest);
        }
    }
    let tag = match read_tag(b, pos) {
        Some(t) => t,
        None => {
            return None;
        },
    };
    let len = b.len();
    assert(pos < len);
    let at = pos + 1;
    if tag == 0 {
        proof {
            if ok {
                assert(x is Noop);
                assert(body =~= rest);
            }
            assert(b@.subrange(pos as int, at as int) =~= enc_payload(PayloadView::Noop));
        }
        Some((Payload::Noop, at))
    } else if tag == 1 {
        let ghost m = x->Membership_0;
        proof {
            if ok {
                assert(x is Membership);
                assert(body =~= enc_ids(m.voters) + (enc_next(m.next) + rest));
            }
        }
        let (voters, after_voters) = match read_ids(
            b,
            at,
            Ghost(if ok { Some((m.voters, enc_next(m.next) + rest)) } else { None }),
        ) {
            Some(r) => r,
            None => {
                return None;
            },
        };
        proof {
            if ok {
                lemma_tagged(b@, after_voters as int, enc_next(m.next), rest);
            }
        }
        let flag = match read_tag(b, after_voters) {
            Some(t) => t,
            None => {
                return None;
            },
        };
        assert(after_voters < len);
        let after_flag = after_voters + 1;
        let (next, end) = if flag == 0 {
            proof {
                if ok {
                    assert(m.next is None);
                    assert(enc_next(m.next).skip(1) + rest =~= rest);
                }
            }
            (None, after_flag)
        } else if flag == 1 {
            proof {
                if ok {
                    assert(m.next is Some);
                    assert(enc_next(m.next).skip(1) + rest =~= enc_ids(m.next->Some_0) + rest);
                }
            }
            let (ids, after_ids) = match read_ids(
                b,
                after_flag,
                Ghost(if ok { Some((m.next->Some_0, rest)) } else { None }),
            ) {
                Some(r) => r,
                None => {
                    return None;
                },
            };
            (Some(ids), after_ids)
        } else {
            return None;
        };
        let pl = Payload::Membership(Membership { voters, next });
        proof {
            lemma_join(b@, pos as int, at as int, after_voters as int);
            lemma_join(b@, pos as int, after_voters as int, after_flag as int);
            lemma_join(b@, pos as int, after_flag as int, end as int);
            assert(b@.subrange(after_voters as int, after_flag as int) =~= seq![flag]);
            assert(b@.subrange(pos as int, at as int) =~= seq![1u8]);
            assert(b@.subrange(pos as int, end as int) =~= enc_payload(pl@));
        }
        Some((pl, end))
    } else if tag == 2 {
        proof {
            if ok {
                assert(x is Write);
                assert(body =~= enc_command(x->Write_0) + rest);
            }
        }
        let (c, end) = match read_command(
            b,
            at,
            Ghost(if ok { Some((x->Write_0, rest)) } else { None }),
        ) {
            Some(r) => r,
            None => {
                return None;
            },
        };
        let pl = Payload::Write(c);
        proof {
            lemma_join(b@, pos as int, at as int, end as int);
            assert(b@.subrange(pos as int, at as int) =~= seq![2u8]);
            assert(b@.subrange(pos as int, end as int) =~= enc_payload(pl@));
        }
        Some((pl, end))
    } else {
        None
    }
}

/// Reads back the entries of a log segment. What it gives encodes to exactly
/// these bytes; and whenever the bytes are the segment of some entries whose
/// lengths fit in a `u64`, it gives exactly those entries.
#[verifier::rlimit(60)]
pub fn decode_entries(b: &Vec<u8>) -> (r: Option<Vec<Entry>>)
    ensures
        r matches Some(v) ==> segment_bytes(entries_view(v@)) == b@ && entries_fit(
            entries_view(v@),
        ),
        forall|s: Seq<EntryView>|
            entries_fit(s) && segment_bytes(s) == b@ ==> (r matches Some(v) && entries_view(v@)
                == s),
{
    let ghost ok = exists|s: Seq<EntryView>| entries_fit(s) && segment_bytes(s) == b@;
    let ghost x = choose|s: Seq<EntryView>| entries_fit(s) && segment_bytes(s) == b@;
    let ghost rest = Seq::<u8>::empty();
    proof {
        if ok {
            lemma_enc_u64_len(x.len() as u64);
            assert(b@.subrange(0, b@.len() as int) =~= b@);
            lemma_split_at(b@, 0, enc_u64(x.len() as u64), enc_all(x, entry_enc()));
            assert(enc_all(x, entry_enc()) + rest =~= enc_all(x, entry_enc()));
        }
    }
    let n = match read_u64(b, 0) {
        Some(n) => n,
        None => {
            return None;
        },
    };
    let len = b.len();
    assert(8 <= len);
    proof {
        lemma_enc_u64_of_read(b@.subrange(0, 8));
        assert(b@.subrange(8, 8) =~= Seq::<u8>::empty());
        if ok {
            assert(x.skip(0) =~= x);
            assert(x.take(0) =~= Seq::<EntryView>::empty());
        }
    }
    let mut v: Vec<Entry> = Vec::new();
    assert(entries_view(v@) =~= Seq::<EntryView>::empty());
    let mut cur: usize = 8;
    let mut i: u64 = 0;
    while i < n
        invariant
            8 <= cur <= b@.len(),
            len == b@.len(),
            v@.len() == i,
            i <= n,
            b@.subrange(8, cur as int) == enc_all(entries_view(v@), entry_enc()),
            forall|k: int| 0 <= k < v@.len() ==> payload_fits(#[trigger] entries_view(v@)[k].payload),
            rest == Seq::<u8>::empty(),
            ok == exists|s: Seq<EntryView>| entries_fit(s) && segment_bytes(s) == b@,
            ok ==> entries_fit(x) && n == x.len() && entries_view(v@) == x.take(i as int)
                && b@.subrange(cur as int, b@.len() as int) == enc_all(x.skip(i as int), entry_enc())
                + rest,
        decreases n - i,
    {
        let ghost e = x[i as int];
        let ghost after = enc_all(x.skip(i + 1), entry_enc()) + rest;
        proof {
            if ok {
                lemma_enc_all_first(x.skip(i as int), entry_enc());
                assert(x.skip(i as int).skip(1) =~= x.skip(i + 1));
                assert(b@.subrange(cur as int, b@.len() as int) =~= enc_u64(e.log_id.term) + (enc_u64(
                    e.log_id.index,
                ) + (enc_payload(e.payload) + after)));
                lemma_enc_u64_len(e.log_id.term);
                lemma_enc_u64_len(e.log_id.index);
                lemma_split_at(
                    b@,
                    cur as int,
                    enc_u64(e.log_id.term),
                    enc_u64(e.log_id.index) + (enc_payload(e.payload) + after),
                );
                lemma_split_at(
                    b@,
                    cur + 8,
                    enc_u64(e.log_id.index),
                    enc_payload(e.payload) + after,
                );
                assert(payload_fits(x[i as int].payload));
            }
        }
        let term = match read_u64(b, cur) {
            Some(t) => t,
            None => {
                return None;
            },
        };
        assert(cur + 8 <= len);
        let index = match read_u64(b, cur + 8) {
            Some(t) => t,
            None => {
                return None;
            },
        };
        assert(cur + 16 <= len);
        let body = cur + 16;
        let (payload, next) = match read_payload(
            b,
            body,
            Ghost(if ok { Some((e.payload, after)) } else { None }),
        ) {
            Some(r) => r,
            None => {
                return None;
            },
        };
        let entry = Entry { log_id: LogId { term, index }, payload };
        proof {
            lemma_enc_u64_of_read(b@.subrange(cur as int, cur + 8));
            lemma_enc_u64_of_read(b@.subrange(cur + 8, cur + 16));
            lemma_join(b@, cur as int, cur + 8, body as int);
            lemma_join(b@, cur as int, body as int, next as int);
            lemma_join(b@, 8, cur as int, next as int);
            assert(b@.subrange(cur as int, next as int) =~= enc_entry(entry@));
            lemma_enc_all_push(entries_view(v@), entry_enc(), entry@);
            if ok {
                assert(x.take(i + 1) =~= x.take(i as int).push(e));
            }
        }
        let ghost before = entries_view(v@);
        v.push(entry);
        assert(entries_view(v@) =~= before.push(entry@));
        cur = next;
        i = i + 1;
    }
    if cur != len {
        proof {
            if ok {
                assert(x.skip(n as int) =~= Seq::<EntryView>::empty());
                assert(enc_all(x.skip(n as int), entry_enc()) + rest =~= Seq::<u8>::empty());
            }
        }
        return None;
    }
    proof {
        lemma_join(b@, 0, 8, cur as int);
        assert(b@.subrange(0, b@.len() as int) =~= b@);
        assert(b@ =~= segment_bytes(entries_view(v@)));
        if ok {
            assert(x.take(n as int) =~= x);
        }
        assert forall|s: Seq<EntryView>| entries_fit(s) && segment_bytes(s) == b@ implies entries_view(v@)
            == s by {
            lemma_segment_injective(s, entries_view(v@));
        }
    }
    Some(v)
}

} // verus!
