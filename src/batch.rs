//! Grouping records into label-addressed streams.

use vstd::prelude::*;

use vstd::pervasive::VecAdditionalExecFns;

use crate::event::{EventFinalizers, LokiEvent, LokiRecord};
use crate::labels::{
    canonical_key, keys_unique, label_map, labels_view, lemma_distinct_labels_distinct_key,
    lemma_key_injective, lemma_same_label_set_same_key, resolve_labels, sort_labels,
    sorted_labels, stream_key, Label,
};

verus! {

/// Holds of the entries stamped `t`.
pub open spec fn at_time(t: i64) -> spec_fn(LokiEvent) -> bool {
    |e: LokiEvent| e.timestamp == t
}

/// Timestamps never decrease along the sequence.
pub open spec fn ts_sorted(s: Seq<LokiEvent>) -> bool {
    forall|i: int, j: int| 0 <= i < j < s.len() ==> s[i].timestamp <= s[j].timestamp
}

/// `s` is `src` stably sorted by timestamp: timestamps never decrease, and
/// the entries sharing a timestamp keep their order in `src`.
pub open spec fn stable_sorted_of(s: Seq<LokiEvent>, src: Seq<LokiEvent>) -> bool {
    &&& ts_sorted(s)
    &&& s.len() == src.len()
    &&& forall|t: i64| #[trigger] s.filter(at_time(t)) == src.filter(at_time(t))
}

proof fn lemma_filter_none(s: Seq<LokiEvent>, t: i64)
    requires
        forall|i: int| 0 <= i < s.len() ==> s[i].timestamp != t,
    ensures
        s.filter(at_time(t)) == Seq::<LokiEvent>::empty(),
{
    s.lemma_all_neg_filter_empty(at_time(t));
    assert(s.filter(at_time(t)) =~= Seq::<LokiEvent>::empty());
}

proof fn lemma_filter_single(x: LokiEvent, t: i64)
    ensures
        seq![x].filter(at_time(t)) == (if x.timestamp == t { seq![x] } else { Seq::<LokiEvent>::empty() }),
{
    let e = Seq::<LokiEvent>::empty();
    e.lemma_filter_push(x, at_time(t));
    lemma_filter_none(e, t);
    assert(e.push(x) =~= seq![x]);
    assert(seq![x].filter(at_time(t)) =~= (if x.timestamp == t { seq![x] } else { Seq::<LokiEvent>::empty() }));
}

/// Inserts `x` after every entry whose timestamp is not later than its own,
/// which keeps the entries a stable sort of their sources with `x` appended.
fn insert_by_timestamp(values: &mut Vec<LokiEvent>, x: LokiEvent, Ghost(src): Ghost<Seq<LokiEvent>>)
    requires
        stable_sorted_of(old(values)@, src),
    ensures
        stable_sorted_of(final(values)@, src.push(x)),
{
    let ghost old_v = values@;
    let mut p: usize = 0;
    while p < values.len() && values[p].timestamp <= x.timestamp
        invariant
            values@ == old_v,
            p <= values.len(),
            forall|i: int| 0 <= i < p ==> old_v[i].timestamp <= x.timestamp,
        decreases values.len() - p,
    {
        p = p + 1;
    }
    let ghost xt = x.timestamp;
    values.insert(p, x);
    proof {
        let out = values@;
        assert forall|i: int| p <= i < old_v.len() implies old_v[i].timestamp > xt by {
            if i > p {
                assert(old_v[p as int].timestamp <= old_v[i].timestamp);
            }
        }
        assert forall|i: int, j: int| 0 <= i < j < out.len() implies out[i].timestamp <= out[j].timestamp by {
            if j < p {
                assert(out[i] == old_v[i] && out[j] == old_v[j]);
            } else if j == p {
                assert(out[i] == old_v[i]);
            } else if i < p {
                assert(out[i] == old_v[i] && out[j] == old_v[j - 1]);
            } else if i == p {
                assert(out[j] == old_v[j - 1]);
            } else {
                assert(out[i] == old_v[i - 1] && out[j] == old_v[j - 1]);
            }
        }
        let before = old_v.subrange(0, p as int);
        let after = old_v.subrange(p as int, old_v.len() as int);
        assert(out =~= before + seq![x] + after);
        assert(old_v =~= before + after);
        assert forall|t: i64| #[trigger] out.filter(at_time(t)) == src.push(x).filter(at_time(t)) by {
            Seq::filter_distributes_over_add(before + seq![x], after, at_time(t));
            Seq::filter_distributes_over_add(before, seq![x], at_time(t));
            Seq::filter_distributes_over_add(before, after, at_time(t));
            src.lemma_filter_push(x, at_time(t));
            lemma_filter_single(x, t);
            assert(old_v.filter(at_time(t)) == src.filter(at_time(t)));
            if xt == t {
                lemma_filter_none(after, t);
                assert(before.filter(at_time(t)) + Seq::<LokiEvent>::empty() =~= before.filter(at_time(t)));
                assert(before.filter(at_time(t)) + seq![x] + Seq::<LokiEvent>::empty() =~= before.filter(at_time(t)).push(x));
            } else {
                assert(before.filter(at_time(t)) + Seq::<LokiEvent>::empty() =~= before.filter(at_time(t)));
            }
        }
    }
}

/// The entries of one label set: its resolved labels and its entries.
#[derive(Debug)]
pub struct LokiStream {
    /// The labels, each key once.
    pub stream: Vec<Label>,
    pub values: Vec<LokiEvent>,
}

/// Records grouped into streams, each under its grouping key, with the
/// handles of all the records.
#[derive(Debug)]
pub struct LokiBatch {
    pub stream_by_labels: Vec<(String, LokiStream)>,
    pub finalizers: EventFinalizers,
}

/// The grouping key of a record's labels.
#[verifier::opaque]
pub open spec fn record_key(r: LokiRecord) -> Seq<char> {
    stream_key(labels_view(r.labels@))
}

/// The entries of the records under key `k`, in input order.
pub open spec fn events_for(rs: Seq<LokiRecord>, k: Seq<char>) -> Seq<LokiEvent>
    decreases rs.len(),
{
    if rs.len() == 0 {
        Seq::empty()
    } else if record_key(rs.last()) == k {
        events_for(rs.drop_last(), k).push(rs.last().event)
    } else {
        events_for(rs.drop_last(), k)
    }
}

/// The handles of the records, in input order.
pub open spec fn all_handles(rs: Seq<LokiRecord>) -> Seq<u64>
    decreases rs.len(),
{
    if rs.len() == 0 {
        Seq::empty()
    } else {
        all_handles(rs.drop_last()) + rs.last().finalizers.handles@
    }
}

/// The number of entries over all streams.
pub open spec fn total_values(s: Seq<(String, LokiStream)>) -> nat
    decreases s.len(),
{
    if s.len() == 0 {
        0
    } else {
        total_values(s.drop_last()) + s.last().1.values@.len()
    }
}

/// No two streams share a key.
#[verifier::opaque]
pub open spec fn keys_distinct(s: Seq<(String, LokiStream)>) -> bool {
    forall|a: int, b: int| 0 <= a < b < s.len() ==> #[trigger] s[a].0@ != #[trigger] s[b].0@
}

/// Each stream's key is the grouping key of some record.
#[verifier::opaque]
pub open spec fn streams_have_records(s: Seq<(String, LokiStream)>, rs: Seq<LokiRecord>) -> bool {
    forall|a: int| #![trigger s[a]] 0 <= a < s.len() ==> exists|j: int| 0 <= j < rs.len() && #[trigger] record_key(rs[j]) == #[trigger] s[a].0@
}

/// Each record's grouping key is the key of some stream.
#[verifier::opaque]
pub open spec fn records_have_streams(s: Seq<(String, LokiStream)>, rs: Seq<LokiRecord>) -> bool {
    forall|j: int| #![trigger rs[j]] 0 <= j < rs.len() ==> exists|a: int| 0 <= a < s.len() && #[trigger] s[a].0@ == #[trigger] record_key(rs[j])
}

/// Each stream holds each label key once, and the mapping that the labels
/// of each of its records give in canonical order.
#[verifier::opaque]
pub open spec fn streams_labelled(s: Seq<(String, LokiStream)>, rs: Seq<LokiRecord>) -> bool {
    &&& forall|a: int| 0 <= a < s.len() ==> keys_unique(labels_view(#[trigger] s[a].1.stream@))
    &&& forall|a: int, j: int| 0 <= a < s.len() && 0 <= j < rs.len() && #[trigger] record_key(rs[j]) == #[trigger] s[a].0@
        ==> label_map(labels_view(s[a].1.stream@)) == label_map(sorted_labels(labels_view(rs[j].labels@)))
}

/// Each stream holds the entries of its records stably sorted by timestamp.
#[verifier::opaque]
pub open spec fn streams_filled(s: Seq<(String, LokiStream)>, rs: Seq<LokiRecord>) -> bool {
    forall|a: int| 0 <= a < s.len() ==> stable_sorted_of(#[trigger] s[a].1.values@, events_for(rs, s[a].0@))
}

/// The streams `s` group the records `rs`: one stream for each grouping key
/// that occurs and no other, each with the resolved labels of its records
/// and their entries.
pub open spec fn groups(s: Seq<(String, LokiStream)>, rs: Seq<LokiRecord>) -> bool {
    &&& keys_distinct(s)
    &&& streams_have_records(s, rs)
    &&& records_have_streams(s, rs)
    &&& streams_labelled(s, rs)
    &&& streams_filled(s, rs)
}

proof fn lemma_events_for_absent(rs: Seq<LokiRecord>, k: Seq<char>)
    requires
        forall|j: int| 0 <= j < rs.len() ==> record_key(rs[j]) != k,
    ensures
        events_for(rs, k) == Seq::<LokiEvent>::empty(),
    decreases rs.len(),
{
    if rs.len() > 0 {
        lemma_events_for_absent(rs.drop_last(), k);
    }
}

proof fn lemma_total_values_update(s: Seq<(String, LokiStream)>, a: int, x: (String, LokiStream))
    requires
        0 <= a < s.len(),
    ensures
        total_values(s.update(a, x)) + s[a].1.values@.len() == total_values(s) + x.1.values@.len(),
    decreases s.len(),
{
    let u = s.update(a, x);
    if a == s.len() - 1 {
        assert(u.drop_last() =~= s.drop_last());
    } else {
        assert(u.drop_last() =~= s.drop_last().update(a, x));
        lemma_total_values_update(s.drop_last(), a, x);
    }
}

impl LokiStream {
    fn empty() -> (r: LokiStream)
        ensures
            r.stream@ == Seq::<Label>::empty(),
            r.values@ == Seq::<LokiEvent>::empty(),
    {
        LokiStream { stream: Vec::new(), values: Vec::new() }
    }
}

proof fn lemma_events_for_push(prefix: Seq<LokiRecord>, rec: LokiRecord)
    ensures
        forall|k: Seq<char>| #[trigger] events_for(prefix.push(rec), k) == if k == record_key(rec) {
            events_for(prefix, k).push(rec.event)
        } else {
            events_for(prefix, k)
        },
        all_handles(prefix.push(rec)) == all_handles(prefix) + rec.finalizers.handles@,
{
    assert(prefix.push(rec).drop_last() =~= prefix);
}

proof fn lemma_key_absent(s0: Seq<(String, LokiStream)>, prefix: Seq<LokiRecord>, k: Seq<char>)
    requires
        records_have_streams(s0, prefix),
        forall|m: int| 0 <= m < s0.len() ==> s0[m].0@ != k,
    ensures
        forall|jj: int| 0 <= jj < prefix.len() ==> record_key(prefix[jj]) != k,
        events_for(prefix, k) == Seq::<LokiEvent>::empty(),
{
    reveal(records_have_streams);
    assert forall|jj: int| 0 <= jj < prefix.len() implies record_key(prefix[jj]) != k by {
        let a = choose|a: int| 0 <= a < s0.len() && #[trigger] s0[a].0@ == #[trigger] record_key(prefix[jj]);
    }
    lemma_events_for_absent(prefix, k);
}

proof fn lemma_add_new(
    s0: Seq<(String, LokiStream)>,
    s1: Seq<(String, LokiStream)>,
    prefix: Seq<LokiRecord>,
    rec: LokiRecord,
)
    requires
        groups(s0, prefix),
        total_values(s0) == prefix.len(),
        forall|m: int| 0 <= m < s0.len() ==> s0[m].0@ != record_key(rec),
        s1.len() == s0.len() + 1,
        forall|m: int| 0 <= m < s0.len() ==> s1[m] == s0[m],
        s1.last().0@ == record_key(rec),
        keys_unique(labels_view(s1.last().1.stream@)),
        label_map(labels_view(s1.last().1.stream@)) == label_map(sorted_labels(labels_view(rec.labels@))),
        s1.last().1.values@ == seq![rec.event],
    ensures
        groups(s1, prefix.push(rec)),
        total_values(s1) == prefix.len() + 1,
{
    let next = prefix.push(rec);
    let rk = record_key(rec);
    let n = s0.len() as int;
    assert(s1.drop_last() =~= s0);
    lemma_events_for_push(prefix, rec);
    lemma_key_absent(s0, prefix, rk);
    assert(events_for(next, rk) =~= seq![rec.event]);
    assert(streams_have_records(s1, next)) by {
        reveal(streams_have_records);
        assert forall|a: int| #![trigger s1[a]] 0 <= a < s1.len() implies exists|jj: int| 0 <= jj < next.len() && #[trigger] record_key(next[jj]) == #[trigger] s1[a].0@ by {
            if a < n {
                let jj = choose|jj: int| 0 <= jj < prefix.len() && #[trigger] record_key(prefix[jj]) == #[trigger] s0[a].0@;
                assert(record_key(next[jj]) == s1[a].0@);
            } else {
                assert(record_key(next[prefix.len() as int]) == s1[a].0@);
            }
        }
    }
    assert(records_have_streams(s1, next)) by {
        reveal(records_have_streams);
        assert forall|jj: int| #![trigger next[jj]] 0 <= jj < next.len() implies exists|a: int| 0 <= a < s1.len() && #[trigger] s1[a].0@ == #[trigger] record_key(next[jj]) by {
            if jj < prefix.len() {
                let a = choose|a: int| 0 <= a < s0.len() && #[trigger] s0[a].0@ == #[trigger] record_key(prefix[jj]);
                assert(s1[a].0@ == record_key(next[jj]));
            } else {
                assert(s1[n].0@ == record_key(next[jj]));
            }
        }
    }
    assert(streams_labelled(s1, next)) by {
        reveal(streams_labelled);
        assert forall|a: int, jj: int| 0 <= a < s1.len() && 0 <= jj < next.len() && #[trigger] record_key(next[jj]) == #[trigger] s1[a].0@
            implies label_map(labels_view(s1[a].1.stream@)) == label_map(sorted_labels(labels_view(next[jj].labels@))) by {
            if a < n {
                if jj == prefix.len() {
                    assert(s0[a].0@ != rk);
                } else {
                    assert(record_key(prefix[jj]) == s0[a].0@);
                }
            } else if jj < prefix.len() {
                assert(record_key(prefix[jj]) != rk);
            }
        }
        assert forall|a: int| 0 <= a < s1.len() implies keys_unique(labels_view(#[trigger] s1[a].1.stream@)) by {
            if a < n {
                assert(s1[a] == s0[a]);
            }
        }
    }
    assert(keys_distinct(s1)) by {
        reveal(keys_distinct);
        assert forall|a: int, b: int| 0 <= a < b < s1.len() implies #[trigger] s1[a].0@ != #[trigger] s1[b].0@ by {
            if b < n {
                assert(s0[a].0@ != s0[b].0@);
            }
        }
    }
    assert(streams_filled(s1, next)) by {
        reveal(streams_filled);
        assert forall|a: int| 0 <= a < s1.len() implies stable_sorted_of(#[trigger] s1[a].1.values@, events_for(next, s1[a].0@)) by {
            if a < n {
                assert(s1[a] == s0[a]);
                assert(stable_sorted_of(s0[a].1.values@, events_for(prefix, s0[a].0@)));
            } else {
                assert(s1[a].1.values@ == events_for(next, s1[a].0@));
            }
        }
    }
}

proof fn lemma_add_existing(
    s0: Seq<(String, LokiStream)>,
    s1: Seq<(String, LokiStream)>,
    prefix: Seq<LokiRecord>,
    rec: LokiRecord,
    j: int,
)
    requires
        groups(s0, prefix),
        total_values(s0) == prefix.len(),
        0 <= j < s0.len(),
        s0[j].0@ == record_key(rec),
        s1 == s0.update(j, s1[j]),
        s1[j].0 == s0[j].0,
        s1[j].1.stream == s0[j].1.stream,
        stable_sorted_of(s1[j].1.values@, events_for(prefix, s0[j].0@).push(rec.event)),
    ensures
        groups(s1, prefix.push(rec)),
        total_values(s1) == prefix.len() + 1,
{
    let next = prefix.push(rec);
    let rk = record_key(rec);
    lemma_events_for_push(prefix, rec);
    lemma_total_values_update(s0, j, s1[j]);
    assert(stable_sorted_of(s0[j].1.values@, events_for(prefix, s0[j].0@))) by {
        reveal(streams_filled);
    }
    reveal(keys_distinct);
    assert(streams_have_records(s1, next)) by {
        reveal(streams_have_records);
        assert forall|a: int| #![trigger s1[a]] 0 <= a < s1.len() implies exists|jj: int| 0 <= jj < next.len() && #[trigger] record_key(next[jj]) == #[trigger] s1[a].0@ by {
            let jj = choose|jj: int| 0 <= jj < prefix.len() && #[trigger] record_key(prefix[jj]) == #[trigger] s0[a].0@;
            assert(record_key(next[jj]) == s1[a].0@);
        }
    }
    assert(records_have_streams(s1, next)) by {
        reveal(records_have_streams);
        assert forall|jj: int| #![trigger next[jj]] 0 <= jj < next.len() implies exists|a: int| 0 <= a < s1.len() && #[trigger] s1[a].0@ == #[trigger] record_key(next[jj]) by {
            if jj < prefix.len() {
                let a = choose|a: int| 0 <= a < s0.len() && #[trigger] s0[a].0@ == #[trigger] record_key(prefix[jj]);
                assert(s1[a].0@ == record_key(next[jj]));
            } else {
                assert(s1[j].0@ == record_key(next[jj]));
            }
        }
    }
    assert(streams_labelled(s1, next)) by {
        reveal(streams_labelled);
        reveal(streams_have_records);
        let w = choose|jj: int| 0 <= jj < prefix.len() && #[trigger] record_key(prefix[jj]) == #[trigger] s0[j].0@;
        assert(sorted_labels(labels_view(prefix[w].labels@)) == sorted_labels(labels_view(rec.labels@))) by {
            reveal(record_key);
            lemma_key_injective(sorted_labels(labels_view(prefix[w].labels@)), sorted_labels(labels_view(rec.labels@)));
        }
        assert forall|a: int, jj: int| 0 <= a < s1.len() && 0 <= jj < next.len() && #[trigger] record_key(next[jj]) == #[trigger] s1[a].0@
            implies label_map(labels_view(s1[a].1.stream@)) == label_map(sorted_labels(labels_view(next[jj].labels@))) by {
            if jj == prefix.len() {
                if a != j {
                    assert(s0[a].0@ != s0[j].0@);
                }
                assert(record_key(prefix[w]) == s0[j].0@);
            } else {
                assert(record_key(prefix[jj]) == s0[a].0@);
            }
        }
        assert forall|a: int| 0 <= a < s1.len() implies keys_unique(labels_view(#[trigger] s1[a].1.stream@)) by {
            assert(keys_unique(labels_view(s0[a].1.stream@)));
        }
    }
    assert(keys_distinct(s1)) by {
        assert forall|a: int, b: int| 0 <= a < b < s1.len() implies #[trigger] s1[a].0@ != #[trigger] s1[b].0@ by {
            assert(s0[a].0@ != s0[b].0@);
        }
    }
    assert(streams_filled(s1, next)) by {
        reveal(streams_filled);
        assert forall|a: int| 0 <= a < s1.len() implies stable_sorted_of(#[trigger] s1[a].1.values@, events_for(next, s1[a].0@)) by {
            assert(stable_sorted_of(s0[a].1.values@, events_for(prefix, s0[a].0@)));
            if a != j {
                assert(s0[a].0@ != s0[j].0@);
            }
        }
    }
}

/// Adds the next record's entry to the streams: to the stream of its key,
/// or to a new one after the others.
fn add_record(
    streams: &mut Vec<(String, LokiStream)>,
    labels: Vec<Label>,
    event: LokiEvent,
    Ghost(prefix): Ghost<Seq<LokiRecord>>,
    Ghost(rec): Ghost<LokiRecord>,
)
    requires
        labels == rec.labels,
        event == rec.event,
        groups(old(streams)@, prefix),
        total_values(old(streams)@) == prefix.len(),
    ensures
        groups(final(streams)@, prefix.push(rec)),
        total_values(final(streams)@) == prefix.len() + 1,
{
    let ghost s0 = streams@;
    let ghost grec = rec;
    let sorted = sort_labels(labels);
    let key = canonical_key(&sorted);
    assert(key@ == record_key(grec)) by {
        reveal(record_key);
    }
    let mut j: usize = 0;
    let mut found = false;
    while !found && j < streams.len()
        invariant
            streams@ == s0,
            j <= streams.len(),
            forall|m: int| 0 <= m < j ==> s0[m].0@ != key@,
            found ==> j < streams.len() && s0[j as int].0@ == key@,
        decreases streams.len() - j + (if found { 0int } else { 1 }),
    {
        if streams[j].0 == key {
            found = true;
        } else {
            j = j + 1;
        }
    }
    let mut slot = (String::new(), LokiStream::empty());
    if !found {
        let resolved = resolve_labels(&sorted);
        streams.push((key, LokiStream::empty()));
        streams.set_and_swap(j, &mut slot);
        slot.1.stream = resolved;
        slot.1.values.push(event);
        streams.set_and_swap(j, &mut slot);
        proof {
            lemma_add_new(s0, streams@, prefix, grec);
        }
    } else {
        let ghost src = events_for(prefix, s0[j as int].0@);
        assert(stable_sorted_of(s0[j as int].1.values@, src)) by {
            reveal(streams_filled);
        }
        streams.set_and_swap(j, &mut slot);
        insert_by_timestamp(&mut slot.1.values, event, Ghost(src));
        streams.set_and_swap(j, &mut slot);
        proof {
            assert(streams@ =~= s0.update(j as int, streams@[j as int]));
            lemma_add_existing(s0, streams@, prefix, grec, j as int);
        }
    }
}

/// Two records whose label lists hold the same set of labels, with no key
/// repeated, have the same grouping key, so their entries share a stream.
pub proof fn lemma_same_label_set_same_stream(a: LokiRecord, b: LokiRecord)
    requires
        keys_unique(labels_view(a.labels@)),
        keys_unique(labels_view(b.labels@)),
        labels_view(a.labels@).to_set() == labels_view(b.labels@).to_set(),
    ensures
        record_key(a) == record_key(b),
{
    reveal(record_key);
    lemma_same_label_set_same_key(labels_view(a.labels@), labels_view(b.labels@));
}

/// Two records whose label sets differ in at least one label have distinct
/// grouping keys, so their entries go to distinct streams.
pub proof fn lemma_distinct_label_sets_distinct_streams(a: LokiRecord, b: LokiRecord)
    requires
        labels_view(a.labels@).to_set() != labels_view(b.labels@).to_set(),
    ensures
        record_key(a) != record_key(b),
{
    broadcast use vstd::seq_lib::group_to_multiset_ensures;

    reveal(record_key);
    let la = labels_view(a.labels@);
    let lb = labels_view(b.labels@);
    if la.to_multiset() == lb.to_multiset() {
        assert(la.to_set() =~= lb.to_set()) by {
            assert forall|x: (Seq<char>, Seq<char>)| la.to_set().contains(x) == lb.to_set().contains(x) by {
                assert(la.contains(x) == la.to_multiset().contains(x));
                assert(lb.contains(x) == lb.to_multiset().contains(x));
            }
        }
    }
    lemma_distinct_labels_distinct_key(la, lb);
}

/// In grouped streams each record's entry lies in exactly one stream: the
/// one under its grouping key.
pub proof fn lemma_record_in_one_stream(s: Seq<(String, LokiStream)>, rs: Seq<LokiRecord>, j: int)
    requires
        groups(s, rs),
        0 <= j < rs.len(),
    ensures
        exists|a: int| 0 <= a < s.len() && #[trigger] s[a].0@ == record_key(rs[j]),
        forall|a: int, b: int| 0 <= a < s.len() && 0 <= b < s.len() && #[trigger] s[a].0@ == record_key(rs[j])
            && #[trigger] s[b].0@ == record_key(rs[j]) ==> a == b,
{
    reveal(records_have_streams);
    reveal(keys_distinct);
    let r = rs[j];
    assert forall|a: int, b: int| 0 <= a < s.len() && 0 <= b < s.len() && #[trigger] s[a].0@ == record_key(rs[j])
        && #[trigger] s[b].0@ == record_key(rs[j]) implies a == b by {
        if a < b {
            assert(s[a].0@ != s[b].0@);
        } else if b < a {
            assert(s[b].0@ != s[a].0@);
        }
    }
}

proof fn lemma_events_for_contains(rs: Seq<LokiRecord>, j: int)
    requires
        0 <= j < rs.len(),
    ensures
        events_for(rs, record_key(rs[j])).contains(rs[j].event),
    decreases rs.len(),
{
    let k = record_key(rs[j]);
    if j == rs.len() - 1 {
        assert(events_for(rs, k).last() == rs[j].event);
    } else {
        lemma_events_for_contains(rs.drop_last(), j);
        assert(rs.drop_last()[j] == rs[j]);
        let prev = events_for(rs.drop_last(), k);
        let c = choose|c: int| 0 <= c < prev.len() && prev[c] == rs[j].event;
        assert(events_for(rs, k)[c] == rs[j].event);
    }
}

/// In grouped streams, the entry of each record lies in the stream under
/// its grouping key; with `lemma_record_in_one_stream` and the entry count
/// of `LokiBatch::from`, each record's entry is placed exactly once.
pub proof fn lemma_record_entry_in_its_stream(s: Seq<(String, LokiStream)>, rs: Seq<LokiRecord>, j: int, a: int)
    requires
        groups(s, rs),
        0 <= j < rs.len(),
        0 <= a < s.len(),
        s[a].0@ == record_key(rs[j]),
    ensures
        s[a].1.values@.contains(rs[j].event),
{
    reveal(streams_filled);
    let e = rs[j].event;
    let src = events_for(rs, s[a].0@);
    lemma_events_for_contains(rs, j);
    assert(stable_sorted_of(s[a].1.values@, src));
    let c = choose|c: int| 0 <= c < src.len() && src[c] == e;
    src.filter_lemma(at_time(e.timestamp));
    assert(src.filter(at_time(e.timestamp)).contains(src[c]));
    assert(s[a].1.values@.filter(at_time(e.timestamp)) == src.filter(at_time(e.timestamp)));
    s[a].1.values@.lemma_filter_contains_rev(at_time(e.timestamp), e);
}

impl LokiBatch {
    /// Groups records into streams by the canonical form of their labels,
    /// taking over each record's handles, and sorts each stream's entries
    /// stably by timestamp. Every record gives exactly one entry to exactly
    /// one stream.
    pub fn from(records: Vec<LokiRecord>) -> (r: LokiBatch)
        ensures
            groups(r.stream_by_labels@, records@),
            total_values(r.stream_by_labels@) == records@.len(),
            r.finalizers.handles@ == all_handles(records@),
    {
        let ghost rs = records@;
        let ghost n = rs.len() as int;
        let mut input = records;
        let mut stack: Vec<LokiRecord> = Vec::new();
        while input.len() > 0
            invariant
                input.len() + stack.len() == n,
                n == rs.len(),
                input@ == rs.subrange(0, input.len() as int),
                forall|k: int| 0 <= k < stack.len() ==> #[trigger] stack@[k] == rs[n - 1 - k],
            decreases input.len(),
        {
            let ghost before = input@;
            let rec = input.pop().unwrap();
            assert(before =~= input@.push(rec));
            assert(before == rs.subrange(0, input.len() + 1));
            assert(before[input.len() as int] == rec);
            assert(rec == rs[input.len() as int]);
            stack.push(rec);
            assert(input@ =~= rs.subrange(0, input.len() as int));
        }
        let mut streams: Vec<(String, LokiStream)> = Vec::new();
        let mut finalizers = EventFinalizers::new();
        assert(rs.subrange(0, 0) =~= Seq::<LokiRecord>::empty());
        assert(groups(streams@, Seq::<LokiRecord>::empty())) by {
            reveal(keys_distinct);
            reveal(streams_have_records);
            reveal(records_have_streams);
            reveal(streams_labelled);
            reveal(streams_filled);
        }
        while stack.len() > 0
            invariant
                stack.len() <= n,
                n == rs.len(),
                forall|k: int| 0 <= k < stack.len() ==> #[trigger] stack@[k] == rs[n - 1 - k],
                groups(streams@, rs.subrange(0, n - stack.len())),
                total_values(streams@) == n - stack.len(),
                finalizers.handles@ == all_handles(rs.subrange(0, n - stack.len())),
            decreases stack.len(),
        {
            let ghost i = n - stack.len();
            let ghost prefix = rs.subrange(0, i);
            let mut rec = stack.pop().unwrap();
            let ghost current = rec;
            assert(rec == rs[i]);
            assert(rs.subrange(0, i + 1) =~= prefix.push(rec));
            proof {
                lemma_events_for_push(prefix, rec);
            }
            let taken = rec.take_finalizers();
            finalizers.merge(taken);
            let LokiRecord { partition: _, labels, event, finalizers: _ } = rec;
            add_record(&mut streams, labels, event, Ghost(prefix), Ghost(current));
        }
        assert(rs.subrange(0, n) =~= rs);
        LokiBatch { stream_by_labels: streams, finalizers }
    }
}

} // verus!
