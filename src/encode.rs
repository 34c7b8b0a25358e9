//! Rendering a batch as JSON text or as the plain structure of the binary
//! log protocol.

use vstd::prelude::*;
use vstd::string::StrSliceExecFns;
use vstd::string::StringExecFns;

use crate::batch::{groups, total_values, LokiBatch, LokiStream};
use crate::event::{decimal_len, digits, LokiEvent, LokiRecord};
use crate::labels::{labels_view, resolve_labels, resolved, Label, LabelView};

verus! {

#[verifier::external_type_specification]
#[verifier::external_body]
pub struct ExJsonError(serde_json::Error);

/// The lowercase hexadecimal digit for `d` in `0..16`.
pub open spec fn hex_digit(d: int) -> char {
    seq!['0', '1', '2', '3', '4', '5', '6', '7', '8', '9', 'a', 'b', 'c', 'd', 'e', 'f'][d]
}

/// One character inside a JSON string literal: a quote and a backslash get
/// a backslash before them, the control characters below U+0020 take their
/// short escape (`\b`, `\t`, `\n`, `\f`, `\r`) or `\u00` with two hex digits,
/// and every other character stands as it is.
pub open spec fn json_escape_char(c: char) -> Seq<char> {
    let n = c as int;
    if c == '"' {
        seq!['\\', '"']
    } else if c == '\\' {
        seq!['\\', '\\']
    } else if n == 8 {
        seq!['\\', 'b']
    } else if n == 9 {
        seq!['\\', 't']
    } else if n == 10 {
        seq!['\\', 'n']
    } else if n == 12 {
        seq!['\\', 'f']
    } else if n == 13 {
        seq!['\\', 'r']
    } else if n < 32 {
        seq!['\\', 'u', '0', '0', hex_digit(n / 16), hex_digit(n % 16)]
    } else {
        seq![c]
    }
}

/// The characters of a string, each escaped for a JSON string literal.
pub open spec fn json_escape(s: Seq<char>) -> Seq<char>
    decreases s.len(),
{
    if s.len() == 0 {
        Seq::empty()
    } else {
        json_escape(s.drop_last()) + json_escape_char(s.last())
    }
}

/// The JSON string literal of a string: its escaped characters between quotes.
pub open spec fn json_string_of(s: Seq<char>) -> Seq<char> {
    seq!['"'] + json_escape(s) + seq!['"']
}

/// What lossy UTF-8 decoding makes of bytes: valid sequences decoded,
/// each invalid one replaced by U+FFFD.
pub uninterp spec fn utf8_lossy(b: Seq<u8>) -> Seq<char>;

/// Relies on `serde_json::to_string` on a `str`: it writes the JSON string
/// literal of its argument into a `Vec`, which cannot fail.
#[verifier::external_body]
fn json_quote(s: &str) -> (r: Result<String, serde_json::Error>)
    ensures
        r is Ok,
        r matches Ok(q) ==> q@ == json_string_of(s@),
{
    serde_json::to_string(s)
}

/// Relies on `String::from_utf8_lossy`: the text of the bytes, invalid
/// sequences replaced.
#[verifier::external_body]
fn lossy_text(b: &Vec<u8>) -> (r: String)
    ensures
        r@ == utf8_lossy(b@),
{
    String::from_utf8_lossy(b.as_slice()).into_owned()
}

/// The wire format of a batch.
#[derive(Clone, Copy, Debug, PartialEq, Eq)]
pub enum LokiBatchEncoding {
    Json,
    Protobuf,
}

/// Encodes batches in the format it holds.
#[derive(Clone, Copy, Debug)]
pub struct LokiBatchEncoder(pub LokiBatchEncoding);

/// Why encoding failed.
#[derive(Clone, Copy, Debug, PartialEq, Eq)]
pub enum EncodeError {
    /// A string could not be written as JSON.
    Json,
}

/// The decimal digit for `d` in `0..10`.
pub open spec fn digit_char(d: int) -> char {
    seq!['0', '1', '2', '3', '4', '5', '6', '7', '8', '9'][d]
}

/// A natural number in decimal.
pub open spec fn digits_str(n: nat) -> Seq<char>
    decreases n,
{
    if n < 10 {
        seq![digit_char(n as int)]
    } else {
        digits_str(n / 10).push(digit_char((n % 10) as int))
    }
}

/// An integer in decimal, with a minus sign where it is negative.
pub open spec fn decimal_str(n: int) -> Seq<char> {
    if n < 0 {
        seq!['-'] + digits_str((-n) as nat)
    } else {
        digits_str(n as nat)
    }
}

proof fn lemma_digits_str_len(n: nat)
    ensures
        digits_str(n).len() == digits(n),
    decreases n,
{
    if n >= 10 {
        lemma_digits_str_len(n / 10);
    }
}

/// The decimal text of a timestamp is as long as the size estimate takes
/// it to be.
pub proof fn lemma_decimal_text_len(n: int)
    ensures
        decimal_str(n).len() == decimal_len(n),
{
    if n < 0 {
        lemma_digits_str_len((-n) as nat);
    } else {
        lemma_digits_str_len(n as nat);
    }
}

fn push_digits(out: &mut String, n: u64)
    ensures
        final(out)@ == old(out)@ + digits_str(n as nat),
    decreases n,
{
    if n >= 10 {
        push_digits(out, n / 10);
    }
    let d = (n % 10) as usize;
    let all = "0123456789";
    proof {
        reveal_strlit("0123456789");
    }
    let one = all.substring_char(d, d + 1);
    assert(one@ =~= seq![digit_char(d as int)]);
    out.append(one);
    assert(out@ =~= old(out)@ + digits_str(n as nat));
}

/// `v` in decimal.
pub fn decimal_string(v: i64) -> (r: String)
    ensures
        r@ == decimal_str(v as int),
{
    let mut out = String::new();
    if v < 0 {
        proof {
            reveal_strlit("-");
        }
        out.append("-");
        push_digits(&mut out, (-(v as i128)) as u64);
    } else {
        push_digits(&mut out, v as u64);
    }
    out
}

/// Parts joined by commas.
pub open spec fn join(parts: Seq<Seq<char>>) -> Seq<char>
    decreases parts.len(),
{
    if parts.len() == 0 {
        Seq::empty()
    } else if parts.len() == 1 {
        parts[0]
    } else {
        join(parts.drop_last()) + ","@ + parts.last()
    }
}

proof fn lemma_join_step(parts: Seq<Seq<char>>, i: int)
    requires
        0 <= i < parts.len(),
    ensures
        join(parts.subrange(0, i + 1)) == if i == 0 {
            parts[0]
        } else {
            join(parts.subrange(0, i)) + ","@ + parts[i]
        },
{
    assert(parts.subrange(0, i + 1).drop_last() =~= parts.subrange(0, i));
}

/// A key and value pair as a JSON object member.
pub open spec fn json_member(p: LabelView) -> Seq<char> {
    json_string_of(p.0) + ":"@ + json_string_of(p.1)
}

/// Pairs as a JSON object.
pub open spec fn json_object(l: Seq<LabelView>) -> Seq<char> {
    "{"@ + join(Seq::new(l.len(), |i: int| json_member(l[i]))) + "}"@
}

/// Strings as a JSON array.
pub open spec fn json_strings(l: Seq<String>) -> Seq<char> {
    "["@ + join(Seq::new(l.len(), |i: int| json_string_of(l[i]@))) + "]"@
}

/// An entry as a JSON array of four: its timestamp in decimal as a string,
/// its payload as text, its tags and its attachment, each key once.
pub open spec fn json_event(e: LokiEvent) -> Seq<char> {
    "["@ + json_string_of(decimal_str(e.timestamp as int)) + ","@ + json_string_of(utf8_lossy(e.event@))
        + ","@ + json_strings(e.tags@) + ","@ + json_object(resolved(labels_view(e.attachment@))) + "]"@
}

/// A stream as a JSON object with its labels and its entries.
pub open spec fn json_stream(st: LokiStream) -> Seq<char> {
    "{\"stream\":"@ + json_object(labels_view(st.stream@)) + ",\"values\":["@
        + join(Seq::new(st.values@.len(), |i: int| json_event(st.values@[i]))) + "]}"@
}

/// Streams as the JSON body: an object whose one member holds them.
pub open spec fn json_body(s: Seq<(String, LokiStream)>) -> Seq<char> {
    "{\"streams\":["@ + join(Seq::new(s.len(), |i: int| json_stream(s[i].1))) + "]}"@
}

fn push_quoted(out: &mut String, s: &str) -> (r: Result<(), EncodeError>)
    ensures
        r is Ok,
        r is Ok ==> final(out)@ == old(out)@ + json_string_of(s@),
{
    match json_quote(s) {
        Ok(q) => {
            out.append(q.as_str());
            Ok(())
        },
        Err(_) => Err(EncodeError::Json),
    }
}

fn push_object(out: &mut String, l: &Vec<Label>) -> (r: Result<(), EncodeError>)
    ensures
        r is Ok,
        r is Ok ==> final(out)@ == old(out)@ + json_object(labels_view(l@)),
{
    let ghost start = out@;
    let ghost parts = Seq::new(l@.len(), |i: int| json_member(labels_view(l@)[i]));
    out.append("{");
    let mut i: usize = 0;
    while i < l.len()
        invariant
            i <= l.len(),
            parts == Seq::new(l@.len(), |i: int| json_member(labels_view(l@)[i])),
            out@ == start + "{"@ + join(parts.subrange(0, i as int)),
        decreases l.len() - i,
    {
        proof {
            lemma_join_step(parts, i as int);
        }
        if i > 0 {
            out.append(",");
        }
        match push_quoted(out, l[i].0.as_str()) {
            Ok(()) => {},
            Err(e) => return Err(e),
        }
        out.append(":");
        match push_quoted(out, l[i].1.as_str()) {
            Ok(()) => {},
            Err(e) => return Err(e),
        }
        assert(out@ =~= start + "{"@ + join(parts.subrange(0, i + 1)));
        i = i + 1;
    }
    out.append("}");
    assert(parts.subrange(0, l.len() as int) =~= parts);
    assert(out@ =~= start + json_object(labels_view(l@)));
    Ok(())
}

fn push_strings(out: &mut String, l: &Vec<String>) -> (r: Result<(), EncodeError>)
    ensures
        r is Ok,
        r is Ok ==> final(out)@ == old(out)@ + json_strings(l@),
{
    let ghost start = out@;
    let ghost parts = Seq::new(l@.len(), |i: int| json_string_of(l@[i]@));
    out.append("[");
    let mut i: usize = 0;
    while i < l.len()
        invariant
            i <= l.len(),
            parts == Seq::new(l@.len(), |i: int| json_string_of(l@[i]@)),
            out@ == start + "["@ + join(parts.subrange(0, i as int)),
        decreases l.len() - i,
    {
        proof {
            lemma_join_step(parts, i as int);
        }
        if i > 0 {
            out.append(",");
        }
        match push_quoted(out, l[i].as_str()) {
            Ok(()) => {},
            Err(e) => return Err(e),
        }
        assert(out@ =~= start + "["@ + join(parts.subrange(0, i + 1)));
        i = i + 1;
    }
    out.append("]");
    assert(parts.subrange(0, l.len() as int) =~= parts);
    assert(out@ =~= start + json_strings(l@));
    Ok(())
}

fn push_event(out: &mut String, e: &LokiEvent) -> (r: Result<(), EncodeError>)
    ensures
        r is Ok,
        r is Ok ==> final(out)@ == old(out)@ + json_event(*e),
{
    let ghost start = out@;
    out.append("[");
    let ts = decimal_string(e.timestamp);
    match push_quoted(out, ts.as_str()) {
        Ok(()) => {},
        Err(err) => return Err(err),
    }
    out.append(",");
    let text = lossy_text(&e.event);
    match push_quoted(out, text.as_str()) {
        Ok(()) => {},
        Err(err) => return Err(err),
    }
    out.append(",");
    match push_strings(out, &e.tags) {
        Ok(()) => {},
        Err(err) => return Err(err),
    }
    out.append(",");
    let attachment = resolve_labels(&e.attachment);
    match push_object(out, &attachment) {
        Ok(()) => {},
        Err(err) => return Err(err),
    }
    out.append("]");
    assert(out@ =~= start + json_event(*e));
    Ok(())
}

fn push_stream(out: &mut String, st: &LokiStream) -> (r: Result<(), EncodeError>)
    ensures
        r is Ok,
        r is Ok ==> final(out)@ == old(out)@ + json_stream(*st),
{
    let ghost start = out@;
    let ghost parts = Seq::new(st.values@.len(), |i: int| json_event(st.values@[i]));
    out.append("{\"stream\":");
    match push_object(out, &st.stream) {
        Ok(()) => {},
        Err(err) => return Err(err),
    }
    out.append(",\"values\":[");
    let ghost mid = out@;
    let mut i: usize = 0;
    assert(parts.subrange(0, 0) =~= Seq::<Seq<char>>::empty());
    while i < st.values.len()
        invariant
            i <= st.values.len(),
            parts == Seq::new(st.values@.len(), |i: int| json_event(st.values@[i])),
            out@ == mid + join(parts.subrange(0, i as int)),
        decreases st.values.len() - i,
    {
        proof {
            lemma_join_step(parts, i as int);
        }
        if i > 0 {
            out.append(",");
        }
        match push_event(out, &st.values[i]) {
            Ok(()) => {},
            Err(err) => return Err(err),
        }
        assert(out@ =~= mid + join(parts.subrange(0, i + 1)));
        i = i + 1;
    }
    out.append("]}");
    assert(parts.subrange(0, st.values.len() as int) =~= parts);
    assert(out@ =~= start + json_stream(*st));
    Ok(())
}

/// The JSON body of grouped streams.
pub fn json_encode(streams: &Vec<(String, LokiStream)>) -> (r: Result<String, EncodeError>)
    ensures
        r is Ok,
        r matches Ok(body) ==> body@ == json_body(streams@),
{
    let ghost parts = Seq::new(streams@.len(), |i: int| json_stream(streams@[i].1));
    let mut out = String::new();
    out.append("{\"streams\":[");
    let ghost mid = out@;
    let mut i: usize = 0;
    assert(parts.subrange(0, 0) =~= Seq::<Seq<char>>::empty());
    while i < streams.len()
        invariant
            i <= streams.len(),
            parts == Seq::new(streams@.len(), |i: int| json_stream(streams@[i].1)),
            out@ == mid + join(parts.subrange(0, i as int)),
        decreases streams.len() - i,
    {
        proof {
            lemma_join_step(parts, i as int);
        }
        if i > 0 {
            out.append(",");
        }
        match push_stream(&mut out, &streams[i].1) {
            Ok(()) => {},
            Err(err) => return Err(err),
        }
        assert(out@ =~= mid + join(parts.subrange(0, i + 1)));
        i = i + 1;
    }
    out.append("]}");
    assert(parts.subrange(0, streams.len() as int) =~= parts);
    assert(out@ =~= json_body(streams@));
    Ok(out)
}

/// One entry of the binary log protocol.
#[derive(Debug)]
pub struct ProtoEntry {
    pub timestamp: i64,
    pub line: String,
    pub tags: Vec<String>,
    pub attachment: Vec<Label>,
}

/// One stream of the binary log protocol: its labels and its entries.
#[derive(Debug)]
pub struct ProtoStream {
    pub labels: Vec<Label>,
    pub entries: Vec<ProtoEntry>,
}

/// `p` carries the entry `e`, its payload as text and its attachment with
/// each key once.
pub open spec fn entry_of(p: ProtoEntry, e: LokiEvent) -> bool {
    &&& p.timestamp == e.timestamp
    &&& p.line@ == utf8_lossy(e.event@)
    &&& p.tags == e.tags
    &&& labels_view(p.attachment@) == resolved(labels_view(e.attachment@))
}

/// `p` carries the stream `st`, entry for entry.
pub open spec fn proto_stream_of(p: ProtoStream, st: LokiStream) -> bool {
    &&& p.labels == st.stream
    &&& p.entries@.len() == st.values@.len()
    &&& forall|i: int| 0 <= i < p.entries@.len() ==> entry_of(#[trigger] p.entries@[i], st.values@[i])
}

/// `p` carries the streams `s`, stream for stream.
pub open spec fn protos_of(p: Seq<ProtoStream>, s: Seq<(String, LokiStream)>) -> bool {
    &&& p.len() == s.len()
    &&& forall|i: int| 0 <= i < p.len() ==> proto_stream_of(#[trigger] p[i], s[i].1)
}

fn proto_stream(st: LokiStream) -> (r: ProtoStream)
    ensures
        proto_stream_of(r, st),
{
    let ghost orig = st;
    let LokiStream { stream, values } = st;
    let mut rest = values;
    let mut entries: Vec<ProtoEntry> = Vec::new();
    while rest.len() > 0
        invariant
            rest@ == orig.values@.subrange(0, rest.len() as int),
            rest.len() + entries.len() == orig.values@.len(),
            forall|i: int| 0 <= i < entries@.len() ==> entry_of(#[trigger] entries@[i], orig.values@[rest.len() + i]),
        decreases rest.len(),
    {
        let ghost before = rest@;
        let e = rest.pop().unwrap();
        assert(before =~= rest@.push(e));
        assert(before[rest.len() as int] == e);
        let line = lossy_text(&e.event);
        let attachment = resolve_labels(&e.attachment);
        let LokiEvent { timestamp, event: _, tags, attachment: _ } = e;
        let ghost prev = entries@;
        entries.insert(0, ProtoEntry { timestamp, line, tags, attachment });
        assert(rest@ =~= orig.values@.subrange(0, rest.len() as int));
        assert forall|i: int| 0 <= i < entries@.len() implies entry_of(#[trigger] entries@[i], orig.values@[rest.len() + i]) by {
            if i > 0 {
                assert(entries@[i] == prev[i - 1]);
            }
        }
    }
    ProtoStream { labels: stream, entries }
}

/// The binary log protocol's structure for grouped streams.
pub fn proto_encode(streams: Vec<(String, LokiStream)>) -> (r: Vec<ProtoStream>)
    ensures
        protos_of(r@, streams@),
{
    let ghost orig = streams@;
    let mut rest = streams;
    let mut out: Vec<ProtoStream> = Vec::new();
    while rest.len() > 0
        invariant
            rest@ == orig.subrange(0, rest.len() as int),
            rest.len() + out.len() == orig.len(),
            forall|i: int| 0 <= i < out@.len() ==> proto_stream_of(#[trigger] out@[i], orig[rest.len() + i].1),
        decreases rest.len(),
    {
        let ghost before = rest@;
        let (_, st) = rest.pop().unwrap();
        assert(before[rest.len() as int].1 == st);
        let ghost prev = out@;
        out.insert(0, proto_stream(st));
        assert(rest@ =~= orig.subrange(0, rest.len() as int));
        assert forall|i: int| 0 <= i < out@.len() implies proto_stream_of(#[trigger] out@[i], orig[rest.len() + i].1) by {
            if i > 0 {
                assert(out@[i] == prev[i - 1]);
            }
        }
    }
    out
}

/// An encoded body in the selected format.
#[derive(Debug)]
pub enum EncodedBody {
    /// The JSON text.
    Json(String),
    /// The streams in the binary protocol's structure.
    Protobuf(Vec<ProtoStream>),
}

/// An encoded batch and the number of records in it.
#[derive(Debug)]
pub struct EncodedBatch {
    pub count: usize,
    pub body: EncodedBody,
}

/// The body encodes streams `s` in format `f`.
pub open spec fn body_of(body: EncodedBody, f: LokiBatchEncoding, s: Seq<(String, LokiStream)>) -> bool {
    match body {
        EncodedBody::Json(text) => f == LokiBatchEncoding::Json && text@ == json_body(s),
        EncodedBody::Protobuf(p) => f == LokiBatchEncoding::Protobuf && protos_of(p@, s),
    }
}

impl LokiBatchEncoder {
    /// Groups the records into a batch and encodes it in the encoder's
    /// format, with the number of records. Both formats always succeed.
    pub fn encode_input(&self, input: Vec<LokiRecord>) -> (r: Result<EncodedBatch, EncodeError>)
        ensures
            r is Ok,
            r matches Ok(b) ==> b.count == input@.len() && exists|s: Seq<(String, LokiStream)>|
                groups(s, input@) && total_values(s) == input@.len() && #[trigger] body_of(b.body, self.0, s),
    {
        let count = input.len();
        let batch = LokiBatch::from(input);
        let ghost s = batch.stream_by_labels@;
        let LokiBatch { stream_by_labels, finalizers: _ } = batch;
        match self.0 {
            LokiBatchEncoding::Json => {
                match json_encode(&stream_by_labels) {
                    Ok(text) => {
                        let b = EncodedBatch { count, body: EncodedBody::Json(text) };
                        assert(body_of(b.body, self.0, s));
                        Ok(b)
                    },
                    Err(e) => Err(e),
                }
            },
            LokiBatchEncoding::Protobuf => {
                let b = EncodedBatch { count, body: EncodedBody::Protobuf(proto_encode(stream_by_labels)) };
                assert(body_of(b.body, self.0, s));
                Ok(b)
            },
        }
    }
}

} // verus!
