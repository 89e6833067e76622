use gun::json::{Json, JsonNumber};
use gun::plugins::{
    check_put, handle_message, handle_message_with_soul, peer_url, receive_message, replace_http,
    replace_http_secure, sweep_to_schedule, DummyPlugin, MessageFault, Store, Websockets, WebsocketsWASM,
};
use gun::util::GunError;

fn s(x: &str) -> Json {
    Json::Str(x.to_string())
}

fn n(u: u64) -> Json {
    Json::Number(JsonNumber::PosInt(u))
}

fn obj(entries: Vec<(&str, Json)>) -> Json {
    let mut o = Json::new_object();
    for (k, v) in entries {
        assert!(o.insert(k.to_string(), v));
    }
    o
}

fn put_msg(id: &str) -> Json {
    let meta = obj(vec![("#", s("cat")), (">", obj(vec![("Name", n(1))]))]);
    obj(vec![("#", s(id)), ("put", obj(vec![("cat", obj(vec![("Name", s("henry")), ("_", meta)]))]))])
}

fn get_msg(id: &str) -> Json {
    obj(vec![("#", s(id)), ("get", obj(vec![("#", s("cat")), (".", s("Name"))]))])
}

fn handle(store: &mut Store, msg: Json, now: u64, ack: &str) -> Result<Vec<String>, MessageFault> {
    let text = msg.to_text();
    handle_message_with_soul(store, text, Some(msg), now, ack.to_string())
}

#[test]
fn plugins_are_made() {
    let _ = DummyPlugin::new();
    let _ = Websockets::new();
    let _ = WebsocketsWASM::new();
}

#[test]
fn new_store_is_empty() {
    let store = Store::new();
    assert_eq!(store.graph.to_text(), "{}");
    assert!(store.last_msg.is_none());
    assert!(!store.dedup.sweep_pending());
}

#[test]
fn write_is_merged_and_passed_on() {
    let mut store = Store::new();
    let msg = put_msg("m1");
    let text = msg.to_text();
    let out = handle(&mut store, msg, 1000, "ack").ok().unwrap();
    assert_eq!(out, vec![text.clone()]);
    assert_eq!(store.last_msg, Some(text));
    assert_eq!(store.graph.to_text(), r##"{"cat":{"Name":"\"henry\"","_":{"#":"cat",">":{"Name":1}}}}"##);
}

#[test]
fn request_is_answered_then_passed_on() {
    let mut store = Store::new();
    handle(&mut store, put_msg("m1"), 1000, "a1").ok().unwrap();
    let q = get_msg("m2");
    let qt = q.to_text();
    let out = handle(&mut store, q, 1001, "a2").ok().unwrap();
    assert_eq!(out.len(), 2);
    assert_eq!(out[0], r##"{"#":"a2","@":"m2","put":{"cat":{"Name":"\"henry\"","_":{">":{"Name":1}}}}}"##);
    assert_eq!(out[1], qt);
    // the answer's identifier is remembered too
    assert!(store.dedup.check("a2".to_string(), 1002).is_some());
}

#[test]
fn unanswerable_request_is_only_passed_on() {
    let mut store = Store::new();
    let q = get_msg("m2");
    let qt = q.to_text();
    let out = handle(&mut store, q, 1001, "a2").ok().unwrap();
    assert_eq!(out, vec![qt]);
}

#[test]
fn message_is_handled_once() {
    let mut store = Store::new();
    handle(&mut store, put_msg("m1"), 1000, "a1").ok().unwrap();
    let graph = store.graph.to_text();
    let out = handle(&mut store, put_msg("m1"), 1500, "a2").ok().unwrap();
    assert!(out.is_empty());
    assert_eq!(store.graph.to_text(), graph);
}

#[test]
fn non_json_message_is_only_remembered() {
    let mut store = Store::new();
    let out = handle_message_with_soul(&mut store, "not json".to_string(), None, 1, "a".to_string())
        .ok()
        .unwrap();
    assert!(out.is_empty());
    assert_eq!(store.last_msg, Some("not json".to_string()));
}

#[test]
fn message_faults() {
    let mut store = Store::new();
    let r = handle(&mut store, obj(vec![("#", n(5))]), 1, "a");
    assert!(matches!(r, Err(MessageFault::SoulNotString)));
    let r = handle(&mut store, obj(vec![("#", s("m")), ("put", s("x"))]), 1, "a");
    assert!(matches!(r, Err(MessageFault::UnmergeablePut)));
    assert_eq!(store.graph.to_text(), "{}");
}

#[test]
fn random_answer_identifier() {
    let mut store = Store::new();
    let m = put_msg("m1");
    handle_message(&mut store, m.to_text(), Some(m), 1000).ok().unwrap();
    let q = get_msg("m2");
    let out = handle_message(&mut store, q.to_text(), Some(q), 1001).ok().unwrap();
    assert_eq!(out.len(), 2);
    assert!(out[0].starts_with(r##"{"#":""##));
    assert!(out[0].ends_with(r##"","@":"m2","put":{"cat":{"Name":"\"henry\"","_":{">":{"Name":1}}}}}"##));
}

#[test]
fn receiving_merges_without_answering() {
    let mut store = Store::new();
    let m = put_msg("m1");
    assert!(receive_message(&mut store, m.to_text(), Some(m), 1000).is_ok());
    assert_eq!(store.graph.to_text(), r##"{"cat":{"Name":"\"henry\"","_":{"#":"cat",">":{"Name":1}}}}"##);
    // a message without a string identifier is ignored
    let bad = obj(vec![("#", n(1))]);
    assert!(receive_message(&mut store, bad.to_text(), Some(bad), 1001).is_ok());
    let r = receive_message(&mut store, "x".to_string(), Some(obj(vec![("#", s("m3")), ("put", n(1))])), 1002);
    assert!(matches!(r, Err(MessageFault::UnmergeablePut)));
}

#[test]
fn check_put_reads_written_data() {
    let m = put_msg("m1");
    let data = check_put(&m, "cat").unwrap();
    assert_eq!(data.to_text(), r#"{"Name":"henry","_":null}"#);
    assert!(check_put(&m, "dog").is_none());
    assert!(check_put(&get_msg("m2"), "cat").is_none());
}

#[test]
fn websocket_addresses() {
    assert_eq!(replace_http("https://e2eec.herokuapp.com/gun"), "ws://e2eec.herokuapp.com/gun");
    assert_eq!(replace_http("http://localhost:8765/gun"), "http://localhost:8765/gun");
    assert_eq!(replace_http("ws://localhost/gun"), "ws://localhost/gun");
    assert_eq!(replace_http_secure("https://host/gun"), "wss://host/gun");
    assert_eq!(replace_http_secure("http://host/gun"), "wss://host/gun");
    assert_eq!(replace_http_secure("ws://host"), "ws://host");
}

#[test]
fn peer_urls_are_parsed() {
    match peer_url("https://E2EEC.herokuapp.com/gun") {
        Ok(u) => assert_eq!(u, "ws://e2eec.herokuapp.com/gun"),
        Err(_) => panic!("expected a URL"),
    }
    match peer_url("ws://localhost:8765") {
        Ok(u) => assert_eq!(u, "ws://localhost:8765/"),
        Err(_) => panic!("expected a URL"),
    }
    match peer_url("not a url") {
        Err(e) => {
            assert!(matches!(e, GunError::InvalidUrl(_)));
            assert_eq!(e.message(), "relative URL without a base");
        },
        _ => panic!("expected an invalid URL"),
    }
}

fn from_serde(v: &serde_json::Value) -> Json {
    match v {
        serde_json::Value::Null => Json::Null,
        serde_json::Value::Bool(b) => Json::Bool(*b),
        serde_json::Value::Number(x) => match x.as_u64() {
            Some(u) => Json::Number(JsonNumber::PosInt(u)),
            None => Json::Number(JsonNumber::NegInt(x.as_i64().unwrap())),
        },
        serde_json::Value::String(t) => Json::Str(t.clone()),
        serde_json::Value::Array(a) => Json::Array(a.iter().map(from_serde).collect()),
        serde_json::Value::Object(m) => Json::Object(m.iter().map(|(k, x)| (k.clone(), from_serde(x))).collect()),
    }
}

#[test]
fn written_data_is_read_back() {
    let data = obj(vec![("name", s("henry")), ("color", s("grey"))]);
    let text = gun::gun::put_message_with_soul("cat", data.deep_copy(), &Json::new_object(), "abc".to_string())
        .unwrap();
    let parsed: serde_json::Value = serde_json::from_str(&text).unwrap();
    let msg = from_serde(&parsed);
    let back = check_put(&msg, "cat").unwrap();
    let mut expected = data;
    assert!(expected.assign("_".to_string(), Json::Null));
    assert!(back.equals(&expected));
    assert_eq!(back.to_text(), r#"{"_":null,"color":"grey","name":"henry"}"#);
}

#[test]
fn a_sweep_is_scheduled_once() {
    let mut store = Store::new();
    let before = store.dedup.sweep_pending();
    handle(&mut store, put_msg("m1"), 1000, "ack").ok().unwrap();
    assert!(sweep_to_schedule(before, &store));
    let before = store.dedup.sweep_pending();
    handle(&mut store, put_msg("m2"), 1200, "ack").ok().unwrap();
    assert!(!sweep_to_schedule(before, &store));
    store.dedup.sweep(20000);
    let before = store.dedup.sweep_pending();
    assert!(!before);
    handle(&mut store, put_msg("m3"), 20001, "ack").ok().unwrap();
    assert!(sweep_to_schedule(before, &store));
}
