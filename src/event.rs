//! Log entries, the records that carry them, and their size estimates.

use vstd::prelude::*;
use vstd::utf8::encode_utf8;

use crate::labels::Label;

verus! {

/// The byte length of a string in UTF-8 (a string in memory has a length
/// that fits in `usize`).
pub open spec fn utf8_len(s: Seq<char>) -> nat {
    (encode_utf8(s).len() as usize) as nat
}

/// The summed UTF-8 byte lengths of a list of strings.
pub open spec fn strings_len(l: Seq<String>) -> nat
    decreases l.len(),
{
    if l.len() == 0 {
        0
    } else {
        strings_len(l.drop_last()) + utf8_len(l.last()@)
    }
}

/// The summed UTF-8 byte lengths of the keys and values of a list of pairs.
pub open spec fn pairs_len(l: Seq<Label>) -> nat
    decreases l.len(),
{
    if l.len() == 0 {
        0
    } else {
        pairs_len(l.drop_last()) + utf8_len(l.last().0@) + utf8_len(l.last().1@)
    }
}

/// `n`, or `usize::MAX` where `n` is larger.
pub open spec fn saturate(n: nat) -> nat {
    if n > usize::MAX {
        usize::MAX as nat
    } else {
        n
    }
}

/// The number of decimal digits of a natural number.
pub open spec fn digits(n: nat) -> nat
    decreases n,
{
    if n < 10 {
        1
    } else {
        1 + digits(n / 10)
    }
}

/// Ten to the power `k`.
pub open spec fn pow10(k: nat) -> nat
    decreases k,
{
    if k == 0 {
        1
    } else {
        10 * pow10((k - 1) as nat)
    }
}

proof fn lemma_digits_bound(n: nat, k: nat)
    requires
        n < pow10(k),
        k >= 1,
    ensures
        digits(n) <= k,
    decreases k,
{
    if n >= 10 {
        let k1 = (k - 1) as nat;
        assert(k1 >= 1) by {
            if k1 == 0 {
                assert(pow10(k) == 10 * pow10(0));
            }
        }
        assert(n / 10 < pow10(k1)) by (nonlinear_arith)
            requires
                n < 10 * pow10(k1),
        ;
        lemma_digits_bound(n / 10, k1);
    }
}

/// The length of an integer written in decimal, with a minus sign where it
/// is negative.
pub open spec fn decimal_len(n: int) -> nat {
    if n < 0 {
        1 + digits((-n) as nat)
    } else {
        digits(n as nat)
    }
}

/// Adds two sizes, stopping at `usize::MAX`.
pub fn saturating_sum(a: usize, b: usize) -> (r: usize)
    ensures
        r == saturate((a + b) as nat),
{
    if a > usize::MAX - b {
        usize::MAX
    } else {
        a + b
    }
}

/// The UTF-8 byte length of a string.
fn byte_len(s: &String) -> (r: usize)
    ensures
        r == utf8_len(s@),
{
    s.as_str().len()
}

/// The summed UTF-8 byte lengths of a list of strings, stopping at `usize::MAX`.
pub fn strings_bytes(l: &Vec<String>) -> (r: usize)
    ensures
        r == saturate(strings_len(l@)),
{
    let mut total: usize = 0;
    let mut i: usize = 0;
    assert(l@.subrange(0, 0) =~= Seq::<String>::empty());
    while i < l.len()
        invariant
            i <= l.len(),
            total == saturate(strings_len(l@.subrange(0, i as int))),
        decreases l.len() - i,
    {
        assert(l@.subrange(0, i + 1).drop_last() =~= l@.subrange(0, i as int));
        total = saturating_sum(total, byte_len(&l[i]));
        i = i + 1;
    }
    assert(l@.subrange(0, l.len() as int) =~= l@);
    total
}

/// The summed UTF-8 byte lengths of the keys and values of a list of pairs,
/// stopping at `usize::MAX`.
pub fn pairs_bytes(l: &Vec<Label>) -> (r: usize)
    ensures
        r == saturate(pairs_len(l@)),
{
    let mut total: usize = 0;
    let mut i: usize = 0;
    assert(l@.subrange(0, 0) =~= Seq::<Label>::empty());
    while i < l.len()
        invariant
            i <= l.len(),
            total == saturate(pairs_len(l@.subrange(0, i as int))),
        decreases l.len() - i,
    {
        assert(l@.subrange(0, i + 1).drop_last() =~= l@.subrange(0, i as int));
        total = saturating_sum(total, byte_len(&l[i].0));
        total = saturating_sum(total, byte_len(&l[i].1));
        i = i + 1;
    }
    assert(l@.subrange(0, l.len() as int) =~= l@);
    total
}

/// The length of `v` written in decimal.
pub fn decimal_length(v: i64) -> (r: usize)
    ensures
        r == decimal_len(v as int),
        r <= 21,
{
    let mut u: u64 = if v < 0 {
        (-(v as i128)) as u64
    } else {
        v as u64
    };
    let ghost start = u as nat;
    proof {
        reveal_with_fuel(pow10, 21);
        lemma_digits_bound(start, 20);
    }
    let mut n: usize = 1;
    while u >= 10
        invariant
            n + digits(u as nat) == 1 + digits(start),
            digits(start) <= 20,
        decreases u,
    {
        u = u / 10;
        n = n + 1;
    }
    if v < 0 {
        n + 1
    } else {
        n
    }
}

/// Where a record is routed: the tenant it belongs to, if any.
#[derive(Clone, Debug, PartialEq, Eq, Hash)]
pub struct PartitionKey {
    pub tenant_id: Option<String>,
}

impl PartitionKey {
    /// Heap bytes held: those of the tenant identifier, if there is one.
    pub fn allocated_bytes(&self) -> (r: usize)
        ensures
            r == match self.tenant_id {
                Some(t) => utf8_len(t@),
                None => 0,
            },
    {
        match &self.tenant_id {
            Some(t) => byte_len(t),
            None => 0,
        }
    }
}

/// The acknowledgement handles owed to the pipeline that produced some
/// records, each one once.
#[derive(Debug)]
pub struct EventFinalizers {
    pub handles: Vec<u64>,
}

impl EventFinalizers {
    /// No handle.
    pub fn new() -> (r: EventFinalizers)
        ensures
            r.handles@ == Seq::<u64>::empty(),
    {
        EventFinalizers { handles: Vec::new() }
    }

    /// Takes over every handle of `other`, after those already held.
    pub fn merge(&mut self, other: EventFinalizers)
        ensures
            final(self).handles@ == old(self).handles@ + other.handles@,
    {
        let mut other = other;
        self.handles.append(&mut other.handles);
    }
}

/// One log entry.
#[derive(Clone, Debug)]
pub struct LokiEvent {
    /// Milliseconds since the epoch.
    pub timestamp: i64,
    /// The raw payload, which need not be valid UTF-8.
    pub event: Vec<u8>,
    pub tags: Vec<String>,
    /// Structured metadata, as key and value pairs.
    pub attachment: Vec<Label>,
}

/// The heap bytes of an entry: payload, tags, and attachment keys and values.
pub open spec fn event_allocated(e: LokiEvent) -> nat {
    saturate(e.event@.len() + strings_len(e.tags@) + pairs_len(e.attachment@))
}

/// The estimated size of an entry in the JSON encoding: two brackets, the
/// timestamp in decimal between two quotes, a separator, and the payload
/// between two quotes.
pub open spec fn event_json_size(e: LokiEvent) -> nat {
    saturate(2 + 2 + decimal_len(e.timestamp as int) + 1 + (2 + e.event@.len()))
}

impl LokiEvent {
    /// Heap bytes held by the entry; the timestamp holds none.
    pub fn allocated_bytes(&self) -> (r: usize)
        ensures
            r == event_allocated(*self),
    {
        let a = saturating_sum(self.event.len(), strings_bytes(&self.tags));
        saturating_sum(a, pairs_bytes(&self.attachment))
    }

    /// An estimate of the entry's size in the JSON encoding, computed
    /// without encoding it: it grows by exactly one with each payload byte
    /// and is never below the share of the timestamp, quotes and separators.
    pub fn estimated_json_encoded_size_of(&self) -> (r: usize)
        ensures
            r == event_json_size(*self),
            r >= saturate(5 + decimal_len(self.timestamp as int)),
    {
        let fixed = 5 + decimal_length(self.timestamp);
        saturating_sum(fixed, saturating_sum(2, self.event.len()))
    }
}

/// One input record: its routing key, its labels, one entry, and the
/// acknowledgement handles owed for it.
#[derive(Debug)]
pub struct LokiRecord {
    pub partition: PartitionKey,
    pub labels: Vec<Label>,
    pub event: LokiEvent,
    pub finalizers: EventFinalizers,
}

impl LokiRecord {
    /// Heap bytes held by the record: routing key, labels and entry.
    pub fn allocated_bytes(&self) -> (r: usize)
        ensures
            r == saturate(
                (match self.partition.tenant_id {
                    Some(t) => utf8_len(t@),
                    None => 0,
                }) + saturate(pairs_len(self.labels@)) + event_allocated(self.event),
            ),
    {
        let a = saturating_sum(self.partition.allocated_bytes(), pairs_bytes(&self.labels));
        saturating_sum(a, self.event.allocated_bytes())
    }

    /// The estimated JSON size of the record's one entry.
    pub fn estimated_json_encoded_size_of(&self) -> (r: usize)
        ensures
            r == event_json_size(self.event),
    {
        self.event.estimated_json_encoded_size_of()
    }

    /// A record carries exactly one entry.
    pub fn event_count(&self) -> (r: usize)
        ensures
            r == 1,
    {
        1
    }

    /// Hands over the record's handles, leaving it none.
    pub fn take_finalizers(&mut self) -> (r: EventFinalizers)
        ensures
            r.handles@ == old(self).finalizers.handles@,
            final(self).finalizers.handles@ == Seq::<u64>::empty(),
            final(self).labels == old(self).labels,
            final(self).event == old(self).event,
            final(self).partition == old(self).partition,
    {
        let mut taken = EventFinalizers::new();
        std::mem::swap(&mut self.finalizers, &mut taken);
        taken
    }
}

} // verus!
