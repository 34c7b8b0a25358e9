use loki_event::batch::LokiBatch;
use loki_event::encode::{
    decimal_string, EncodedBody, LokiBatchEncoder, LokiBatchEncoding,
};
use loki_event::event::{EventFinalizers, LokiEvent, LokiRecord, PartitionKey};
use loki_event::labels::{canonical_key, resolve_labels, sort_labels, str_le};

fn s(x: &str) -> String {
    x.to_string()
}

fn labels(pairs: &[(&str, &str)]) -> Vec<(String, String)> {
    pairs.iter().map(|(k, v)| (s(k), s(v))).collect()
}

fn event(ts: i64, payload: &[u8]) -> LokiEvent {
    LokiEvent {
        timestamp: ts,
        event: payload.to_vec(),
        tags: Vec::new(),
        attachment: Vec::new(),
    }
}

fn record(pairs: &[(&str, &str)], ts: i64, payload: &str) -> LokiRecord {
    LokiRecord {
        partition: PartitionKey { tenant_id: None },
        labels: labels(pairs),
        event: event(ts, payload.as_bytes()),
        finalizers: EventFinalizers::new(),
    }
}

fn payloads(values: &[LokiEvent]) -> Vec<(i64, String)> {
    values
        .iter()
        .map(|e| (e.timestamp, String::from_utf8(e.event.clone()).unwrap()))
        .collect()
}

#[test]
fn reordered_labels_share_one_stream_sorted_by_time() {
    let batch = LokiBatch::from(vec![
        record(&[("a", "1"), ("b", "2")], 100, "x"),
        record(&[("b", "2"), ("a", "1")], 50, "y"),
    ]);
    assert_eq!(batch.stream_by_labels.len(), 1);
    let (key, stream) = &batch.stream_by_labels[0];
    assert_eq!(key, "a,1,b,2,");
    assert_eq!(stream.stream, labels(&[("a", "1"), ("b", "2")]));
    assert_eq!(payloads(&stream.values), vec![(50, s("y")), (100, s("x"))]);
}

#[test]
fn comma_in_value_does_not_merge_streams() {
    let batch = LokiBatch::from(vec![
        record(&[("k", "v,v")], 1, "one"),
        record(&[("k", "v"), ("v", "")], 2, "two"),
    ]);
    assert_eq!(batch.stream_by_labels.len(), 2);
    assert_eq!(batch.stream_by_labels[0].0, "k,v\\,v,");
    assert_eq!(batch.stream_by_labels[1].0, "k,v,v,,");
}

#[test]
fn backslash_and_comma_are_escaped() {
    let key = canonical_key(&labels(&[("a\\b", "c,d")]));
    assert_eq!(key, "a\\\\b,c\\,d,");
}

#[test]
fn distinct_label_sets_get_distinct_streams() {
    let batch = LokiBatch::from(vec![
        record(&[("a", "1")], 1, "p"),
        record(&[("a", "2")], 2, "q"),
        record(&[("a", "1")], 3, "r"),
    ]);
    assert_eq!(batch.stream_by_labels.len(), 2);
    assert_eq!(payloads(&batch.stream_by_labels[0].1.values), vec![(1, s("p")), (3, s("r"))]);
    assert_eq!(payloads(&batch.stream_by_labels[1].1.values), vec![(2, s("q"))]);
}

#[test]
fn equal_timestamps_keep_input_order() {
    let batch = LokiBatch::from(vec![
        record(&[("a", "1")], 5, "first"),
        record(&[("a", "1")], 3, "early"),
        record(&[("a", "1")], 5, "second"),
        record(&[("a", "1")], 5, "third"),
    ]);
    let values = payloads(&batch.stream_by_labels[0].1.values);
    assert_eq!(
        values,
        vec![(3, s("early")), (5, s("first")), (5, s("second")), (5, s("third"))]
    );
}

#[test]
fn every_record_gives_one_entry() {
    let mut records = Vec::new();
    for i in 0..10i64 {
        let v = format!("{}", i % 3);
        records.push(record(&[("app", v.as_str())], 10 - i, "x"));
    }
    let batch = LokiBatch::from(records);
    let total: usize = batch.stream_by_labels.iter().map(|(_, st)| st.values.len()).sum();
    assert_eq!(total, 10);
    assert_eq!(batch.stream_by_labels.len(), 3);
}

#[test]
fn empty_input_gives_empty_batch() {
    let batch = LokiBatch::from(Vec::new());
    assert!(batch.stream_by_labels.is_empty());
    assert!(batch.finalizers.handles.is_empty());
}

#[test]
fn empty_label_list_is_a_stream() {
    let batch = LokiBatch::from(vec![record(&[], 1, "x")]);
    assert_eq!(batch.stream_by_labels.len(), 1);
    assert_eq!(batch.stream_by_labels[0].0, "");
    assert!(batch.stream_by_labels[0].1.stream.is_empty());
}

#[test]
fn duplicate_keys_group_by_full_list_and_resolve_last_value() {
    let batch = LokiBatch::from(vec![
        record(&[("k", "2"), ("k", "1")], 1, "a"),
        record(&[("k", "2")], 2, "b"),
    ]);
    assert_eq!(batch.stream_by_labels.len(), 2);
    assert_eq!(batch.stream_by_labels[0].0, "k,1,k,2,");
    assert_eq!(batch.stream_by_labels[0].1.stream, labels(&[("k", "2")]));
    assert_eq!(batch.stream_by_labels[1].1.stream, labels(&[("k", "2")]));
}

#[test]
fn handles_are_merged_in_order() {
    let mut a = record(&[("a", "1")], 1, "x");
    a.finalizers.handles = vec![1, 2];
    let mut b = record(&[("b", "1")], 2, "y");
    b.finalizers.handles = vec![3];
    let batch = LokiBatch::from(vec![a, b]);
    assert_eq!(batch.finalizers.handles, vec![1, 2, 3]);
}

#[test]
fn take_finalizers_leaves_none() {
    let mut a = record(&[("a", "1")], 1, "x");
    a.finalizers.handles = vec![7];
    let taken = a.take_finalizers();
    assert_eq!(taken.handles, vec![7]);
    assert!(a.finalizers.handles.is_empty());
    assert_eq!(a.event_count(), 1);
}

#[test]
fn sort_labels_orders_by_key_then_value() {
    let sorted = sort_labels(labels(&[("b", "1"), ("a", "2"), ("a", "1"), ("ab", "0")]));
    assert_eq!(sorted, labels(&[("a", "1"), ("a", "2"), ("ab", "0"), ("b", "1")]));
    assert!(str_le("a", "ab"));
    assert!(!str_le("b", "ab"));
}

#[test]
fn resolve_labels_keeps_last_value() {
    let r = resolve_labels(&labels(&[("x", "1"), ("y", "2"), ("x", "3")]));
    assert_eq!(r, labels(&[("x", "3"), ("y", "2")]));
}

#[test]
fn event_size_estimate_formula() {
    let e = event(1234, b"hello");
    // 2 brackets + 2 quotes + 4 digits + 1 separator + 5 bytes + 2 quotes
    assert_eq!(e.estimated_json_encoded_size_of(), 16);
    let n = event(-5, b"");
    assert_eq!(n.estimated_json_encoded_size_of(), 2 + 2 + 2 + 1 + 2);
}

#[test]
fn event_size_estimate_is_linear_in_payload() {
    let base = event(100, b"").estimated_json_encoded_size_of();
    assert!(base >= 2 + 2 + 3 + 1);
    for n in [1usize, 10, 1000] {
        let e = event(100, &vec![b'a'; n]);
        assert_eq!(e.estimated_json_encoded_size_of(), base + n);
    }
}

#[test]
fn allocated_bytes_count_owned_strings() {
    let mut e = event(1, b"abc");
    e.tags = vec![s("t1"), s("tag")];
    e.attachment = vec![(s("k"), s("vv"))];
    assert_eq!(e.allocated_bytes(), 3 + 2 + 3 + 1 + 2);
    let rec = LokiRecord {
        partition: PartitionKey { tenant_id: Some(s("tenant")) },
        labels: labels(&[("a", "bc")]),
        event: e,
        finalizers: EventFinalizers::new(),
    };
    assert_eq!(rec.partition.allocated_bytes(), 6);
    assert_eq!(rec.allocated_bytes(), 6 + 3 + 11);
    assert_eq!(rec.estimated_json_encoded_size_of(), 2 + 2 + 1 + 1 + 2 + 3);
}

#[test]
fn decimal_string_writes_sign_and_digits() {
    assert_eq!(decimal_string(0), "0");
    assert_eq!(decimal_string(1234567), "1234567");
    assert_eq!(decimal_string(-42), "-42");
    assert_eq!(decimal_string(i64::MIN), "-9223372036854775808");
}

#[test]
fn json_body_exact_text() {
    let mut r = record(&[("b", "2"), ("a", "1")], 7, "hi \"there\"");
    r.event.tags = vec![s("t")];
    r.event.attachment = vec![(s("k"), s("v"))];
    let encoded = LokiBatchEncoder(LokiBatchEncoding::Json).encode_input(vec![r]).unwrap();
    assert_eq!(encoded.count, 1);
    match encoded.body {
        EncodedBody::Json(text) => assert_eq!(
            text,
            "{\"streams\":[{\"stream\":{\"a\":\"1\",\"b\":\"2\"},\"values\":[[\"7\",\"hi \\\"there\\\"\",[\"t\"],{\"k\":\"v\"}]]}]}"
        ),
        EncodedBody::Protobuf(_) => panic!("expected JSON"),
    }
}

#[test]
fn json_round_trip_keeps_entries() {
    let mut a = record(&[("app", "web")], 20, "second");
    a.event.tags = vec![s("x"), s("y")];
    a.event.attachment = vec![(s("trace"), s("abc"))];
    let b = record(&[("app", "web")], 10, "first");
    let c = record(&[("app", "db")], 30, "other");
    let encoded = LokiBatchEncoder(LokiBatchEncoding::Json)
        .encode_input(vec![a, b, c])
        .unwrap();
    assert_eq!(encoded.count, 3);
    let text = match encoded.body {
        EncodedBody::Json(t) => t,
        EncodedBody::Protobuf(_) => panic!("expected JSON"),
    };
    let v: serde_json::Value = serde_json::from_str(&text).unwrap();
    let streams = v.get("streams").unwrap().as_array().unwrap();
    assert_eq!(streams.len(), 2);
    let web = &streams[0];
    assert_eq!(web.get("stream").unwrap().get("app").unwrap().as_str(), Some("web"));
    let values = web.get("values").unwrap().as_array().unwrap();
    assert_eq!(values[0][0].as_str(), Some("10"));
    assert_eq!(values[0][1].as_str(), Some("first"));
    assert_eq!(values[1][0].as_str(), Some("20"));
    assert_eq!(values[1][1].as_str(), Some("second"));
    assert_eq!(values[1][2][0].as_str(), Some("x"));
    assert_eq!(values[1][2][1].as_str(), Some("y"));
    assert_eq!(values[1][3].get("trace").unwrap().as_str(), Some("abc"));
    let db = &streams[1];
    assert_eq!(db.get("values").unwrap()[0][1].as_str(), Some("other"));
}

#[test]
fn invalid_utf8_payload_is_replaced() {
    let mut r = record(&[("a", "1")], 1, "");
    r.event.event = vec![b'o', b'k', 0xff];
    let encoded = LokiBatchEncoder(LokiBatchEncoding::Protobuf).encode_input(vec![r]).unwrap();
    match encoded.body {
        EncodedBody::Protobuf(streams) => {
            assert_eq!(streams.len(), 1);
            assert_eq!(streams[0].entries[0].line, "ok\u{FFFD}");
        }
        EncodedBody::Json(_) => panic!("expected binary structure"),
    }
}

#[test]
fn protobuf_structure_carries_entries() {
    let mut a = record(&[("k", "v")], 9, "late");
    a.event.tags = vec![s("t")];
    let b = record(&[("k", "v")], 1, "early");
    let encoded = LokiBatchEncoder(LokiBatchEncoding::Protobuf).encode_input(vec![a, b]).unwrap();
    assert_eq!(encoded.count, 2);
    match encoded.body {
        EncodedBody::Protobuf(streams) => {
            assert_eq!(streams.len(), 1);
            assert_eq!(streams[0].labels, labels(&[("k", "v")]));
            assert_eq!(streams[0].entries.len(), 2);
            assert_eq!(streams[0].entries[0].timestamp, 1);
            assert_eq!(streams[0].entries[0].line, "early");
            assert_eq!(streams[0].entries[1].line, "late");
            assert_eq!(streams[0].entries[1].tags, vec![s("t")]);
        }
        EncodedBody::Json(_) => panic!("expected binary structure"),
    }
}

#[test]
fn record_count_ignores_stream_count() {
    let records = vec![
        record(&[("a", "1")], 1, "x"),
        record(&[("a", "1")], 2, "y"),
        record(&[("a", "1")], 3, "z"),
    ];
    let encoded = LokiBatchEncoder(LokiBatchEncoding::Protobuf).encode_input(records).unwrap();
    assert_eq!(encoded.count, 3);
    let empty = LokiBatchEncoder(LokiBatchEncoding::Json).encode_input(Vec::new()).unwrap();
    assert_eq!(empty.count, 0);
    match empty.body {
        EncodedBody::Json(text) => assert_eq!(text, "{\"streams\":[]}"),
        EncodedBody::Protobuf(_) => panic!("expected JSON"),
    }
}

fn json_text(records: Vec<LokiRecord>) -> String {
    let encoded = LokiBatchEncoder(LokiBatchEncoding::Json).encode_input(records).unwrap();
    match encoded.body {
        EncodedBody::Json(text) => text,
        EncodedBody::Protobuf(_) => panic!("expected JSON"),
    }
}

#[test]
fn json_single_entry_plain() {
    let text = json_text(vec![record(&[("a", "1")], 100, "x")]);
    assert_eq!(
        text,
        "{\"streams\":[{\"stream\":{\"a\":\"1\"},\"values\":[[\"100\",\"x\",[],{}]]}]}"
    );
}

#[test]
fn json_single_entry_negative_timestamp_with_tag_and_attachment() {
    let mut r = record(&[], -5, "");
    r.event.tags = vec![s("t")];
    r.event.attachment = vec![(s("k"), s("v"))];
    let text = json_text(vec![r]);
    assert_eq!(
        text,
        "{\"streams\":[{\"stream\":{},\"values\":[[\"-5\",\"\",[\"t\"],{\"k\":\"v\"}]]}]}"
    );
}

#[test]
fn json_invalid_byte_becomes_replacement_character() {
    let mut r = record(&[], 0, "");
    r.event.event = vec![b'a', 0xff, b'b'];
    let text = json_text(vec![r]);
    assert_eq!(
        text,
        "{\"streams\":[{\"stream\":{},\"values\":[[\"0\",\"a\u{FFFD}b\",[],{}]]}]}"
    );
}

#[test]
fn json_control_characters_are_escaped() {
    let text = json_text(vec![record(&[("k", "q\"\\")], 1, "a\u{1}\u{8}\t\n\u{c}\r\u{1f}")]);
    assert_eq!(
        text,
        "{\"streams\":[{\"stream\":{\"k\":\"q\\\"\\\\\"},\"values\":[[\"1\",\"a\\u0001\\b\\t\\n\\f\\r\\u001f\",[],{}]]}]}"
    );
}

#[test]
fn json_same_labels_give_one_stream_and_count_records() {
    let records = vec![
        record(&[("a", "1")], 1, "p"),
        record(&[("a", "1")], 2, "q"),
        record(&[("a", "1")], 3, "r"),
    ];
    let encoded = LokiBatchEncoder(LokiBatchEncoding::Json).encode_input(records).unwrap();
    assert_eq!(encoded.count, 3);
    let text = match encoded.body {
        EncodedBody::Json(t) => t,
        EncodedBody::Protobuf(_) => panic!("expected JSON"),
    };
    let v: serde_json::Value = serde_json::from_str(&text).unwrap();
    let streams = v.get("streams").unwrap().as_array().unwrap();
    assert_eq!(streams.len(), 1);
    assert_eq!(streams[0].get("values").unwrap().as_array().unwrap().len(), 3);
}

#[test]
fn json_two_record_example() {
    let text = json_text(vec![
        record(&[("a", "1"), ("b", "2")], 100, "x"),
        record(&[("b", "2"), ("a", "1")], 50, "y"),
    ]);
    assert_eq!(
        text,
        "{\"streams\":[{\"stream\":{\"a\":\"1\",\"b\":\"2\"},\"values\":[[\"50\",\"y\",[],{}],[\"100\",\"x\",[],{}]]}]}"
    );
}

#[test]
fn repeated_attachment_keys_keep_last_value() {
    let mut r = record(&[], 1, "x");
    r.event.attachment = vec![(s("k"), s("1")), (s("j"), s("2")), (s("k"), s("3"))];
    let text = json_text(vec![r]);
    assert_eq!(
        text,
        "{\"streams\":[{\"stream\":{},\"values\":[[\"1\",\"x\",[],{\"k\":\"3\",\"j\":\"2\"}]]}]}"
    );
    let mut r = record(&[], 1, "x");
    r.event.attachment = vec![(s("k"), s("1")), (s("k"), s("3"))];
    let encoded = LokiBatchEncoder(LokiBatchEncoding::Protobuf).encode_input(vec![r]).unwrap();
    match encoded.body {
        EncodedBody::Protobuf(streams) => {
            assert_eq!(streams[0].entries[0].attachment, labels(&[("k", "3")]));
        }
        EncodedBody::Json(_) => panic!("expected binary structure"),
    }
}
