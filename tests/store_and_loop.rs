use mavlink2rest::ingest::{ingest_step, message_type_of, Next, Poll, IDLE_BACKOFF_MILLIS};
use mavlink2rest::json::JsonValue;
use mavlink2rest::link::{heartbeat_message, request_stream, JsonConfiguration};
use mavlink2rest::query::query;
use mavlink2rest::store::{payload_with_info, SnapshotStore};
use mavlink2rest::frequency::FrequencyBlock;

fn s(x: &str) -> String {
    x.to_string()
}

fn num(x: &str) -> JsonValue {
    JsonValue::Number(s(x))
}

fn obj(members: Vec<(&str, JsonValue)>) -> JsonValue {
    JsonValue::Object(members.into_iter().map(|(k, v)| (s(k), v)).collect())
}

fn message(kind: &str, value: &str) -> JsonValue {
    obj(vec![("type", JsonValue::Str(s(kind))), ("value", num(value))])
}

fn info(counter: &str, frequency: &str) -> JsonValue {
    obj(vec![("counter", num(counter)), ("frequency", num(frequency))])
}

#[test]
fn snapshot_of_empty_store() {
    let store = SnapshotStore::new();
    assert_eq!(store.snapshot(), obj(vec![("mavlink", obj(vec![]))]));
}

#[test]
fn snapshot_shows_payload_with_statistics() {
    let mut store = SnapshotStore::new();
    store.put(s("HEARTBEAT"), message("HEARTBEAT", "1"), 1_000_000);
    let expected = obj(vec![(
        "mavlink",
        obj(vec![(
            "HEARTBEAT",
            obj(vec![
                ("type", JsonValue::Str(s("HEARTBEAT"))),
                ("value", num("1")),
                ("message_information", info("1", "0.000000")),
            ]),
        )]),
    )]);
    assert_eq!(store.snapshot(), expected);
}

#[test]
fn second_put_gives_frequency() {
    let mut store = SnapshotStore::new();
    store.put(s("HEARTBEAT"), message("HEARTBEAT", "1"), 1_000_000);
    store.put(s("HEARTBEAT"), message("HEARTBEAT", "2"), 1_250_000);
    assert_eq!(
        query(&store, "/mavlink/HEARTBEAT/message_information"),
        Some(info("2", "4.000000"))
    );
    let b = store.info_of(&s("HEARTBEAT")).unwrap();
    assert_eq!(b.rate, 4_000_000);
}

#[test]
fn last_write_wins() {
    let mut store = SnapshotStore::new();
    store.put(s("T"), obj(vec![("a", num("1")), ("b", num("2"))]), 10);
    store.put(s("T"), obj(vec![("c", num("3"))]), 20);
    assert_eq!(
        query(&store, "/mavlink/T"),
        Some(obj(vec![("c", num("3")), ("message_information", info("2", "100000.000000"))]))
    );
    assert_eq!(query(&store, "/mavlink/T/a"), None);
}

#[test]
fn types_are_kept_apart_in_arrival_order() {
    let mut store = SnapshotStore::new();
    store.put(s("B"), message("B", "1"), 10);
    store.put(s("A"), message("A", "2"), 20);
    store.put(s("B"), message("B", "3"), 30);
    let snap = store.snapshot();
    let names: Vec<String> = match &snap {
        JsonValue::Object(root) => match &root[0].1 {
            JsonValue::Object(m) => m.iter().map(|(k, _)| k.clone()).collect(),
            _ => panic!("namespace is not an object"),
        },
        _ => panic!("root is not an object"),
    };
    assert_eq!(names, vec![s("B"), s("A")]);
    assert_eq!(query(&store, "/mavlink/A/value"), Some(num("2")));
    assert_eq!(query(&store, "/mavlink/B/value"), Some(num("3")));
    assert_eq!(store.info_of(&s("A")).unwrap().count, 1);
    assert_eq!(store.info_of(&s("C")), None);
}

#[test]
fn snapshot_is_independent_of_later_puts() {
    let mut store = SnapshotStore::new();
    store.put(s("T"), message("T", "1"), 10);
    let before = store.snapshot();
    store.put(s("T"), message("T", "2"), 20);
    let again = store.snapshot();
    assert_ne!(before, again);
    let mut other = SnapshotStore::new();
    other.put(s("T"), message("T", "1"), 10);
    assert_eq!(before, other.snapshot());
}

#[test]
fn payload_statistics_replace_existing_member() {
    let b = FrequencyBlock { count: 3, previous: Some(7), rate: 1_500_000, rated: true };
    let p = obj(vec![("message_information", num("0")), ("x", num("1"))]);
    assert_eq!(
        payload_with_info(&p, b),
        obj(vec![("message_information", info("3", "1.500000")), ("x", num("1"))])
    );
    assert_eq!(
        payload_with_info(&JsonValue::Null, b),
        obj(vec![("message_information", info("3", "1.500000"))])
    );
    assert_eq!(payload_with_info(&num("5"), b), num("5"));
}

#[test]
fn message_type_names() {
    assert_eq!(message_type_of(&message("ATTITUDE", "0")), "ATTITUDE");
    assert_eq!(message_type_of(&obj(vec![("x", num("1"))])), "null");
    assert_eq!(message_type_of(&obj(vec![("type", num("1"))])), "null");
    assert_eq!(message_type_of(&JsonValue::Bool(false)), "null");
}

#[test]
fn message_step_stores_under_type_name() {
    let mut store = SnapshotStore::new();
    let next = ingest_step(&mut store, Poll::Message(message("GPS_RAW_INT", "9")), 5);
    assert_eq!(next, Next::Continue);
    assert_eq!(query(&store, "/mavlink/GPS_RAW_INT/value"), Some(num("9")));
}

#[test]
fn idle_polls_back_off_and_change_nothing() {
    let mut store = SnapshotStore::new();
    ingest_step(&mut store, Poll::Message(message("HEARTBEAT", "1")), 1_000_000);
    let before = store.snapshot();
    for t in 0..5u64 {
        assert_eq!(ingest_step(&mut store, Poll::Idle, 2_000_000 + t), Next::Backoff(IDLE_BACKOFF_MILLIS));
    }
    assert_eq!(IDLE_BACKOFF_MILLIS, 1000);
    assert_eq!(store.snapshot(), before);
    assert_eq!(ingest_step(&mut store, Poll::Message(message("HEARTBEAT", "2")), 1_500_000), Next::Continue);
    assert_eq!(query(&store, "/mavlink/HEARTBEAT/value"), Some(num("2")));
    assert_eq!(store.info_of(&s("HEARTBEAT")).unwrap().rate, 2_000_000);
}

#[test]
fn failure_stops_and_keeps_store() {
    let mut store = SnapshotStore::new();
    ingest_step(&mut store, Poll::Message(message("HEARTBEAT", "1")), 10);
    let before = store.snapshot();
    assert_eq!(ingest_step(&mut store, Poll::Failed, 20), Next::Stop);
    assert_eq!(store.snapshot(), before);
    assert_eq!(query(&store, "/mavlink/HEARTBEAT/value"), Some(num("1")));
}

#[test]
fn fixed_outbound_messages() {
    let h = heartbeat_message();
    assert_eq!(h.custom_mode, 0);
    assert_eq!(h.mavtype, 2);
    assert_eq!(h.autopilot, 3);
    assert_eq!(h.base_mode, 0);
    assert_eq!(h.system_status, 3);
    assert_eq!(h.mavlink_version, 3);
    let r = request_stream();
    assert_eq!((r.target_system, r.target_component, r.req_stream_id), (0, 0, 0));
    assert_eq!((r.req_message_rate, r.start_stop), (10, 1));
}

#[test]
fn pretty_option() {
    assert!(JsonConfiguration { pretty: Some(true) }.is_pretty());
    assert!(!JsonConfiguration { pretty: Some(false) }.is_pretty());
    assert!(!JsonConfiguration { pretty: None }.is_pretty());
}

#[test]
fn rates_in_arrival_order() {
    let mut store = SnapshotStore::new();
    store.put(s("B"), message("B", "1"), 0);
    store.put(s("A"), message("A", "1"), 100);
    store.put(s("B"), message("B", "2"), 500_000);
    assert_eq!(store.rates(), vec![(s("B"), 2_000_000), (s("A"), 0)]);
}

#[test]
fn served_frequency_path_after_first_and_second_arrival() {
    let mut store = SnapshotStore::new();
    ingest_step(&mut store, Poll::Message(message("T", "1")), 10_000_000);
    assert_eq!(query(&store, "/mavlink/T/message_information/frequency"), Some(num("0.000000")));
    ingest_step(&mut store, Poll::Message(message("T", "2")), 10_500_000);
    assert_eq!(query(&store, "/mavlink/T/message_information/frequency"), Some(num("2.000000")));
    assert_eq!(query(&store, "/mavlink/T/value"), Some(num("2")));
}
