use gun::gun::{
    get_message, get_message_with_soul, once_step, put_message, put_message_with_soul, GunBuilder,
    GunOptions, OnceAction, RETRY_MS,
};
use gun::json::{Json, JsonNumber};

#[derive(Default, Clone, Debug, PartialEq)]
struct TestPlugin(u32);

fn s(x: &str) -> Json {
    Json::Str(x.to_string())
}

fn obj(entries: Vec<(&str, Json)>) -> Json {
    let mut o = Json::new_object();
    for (k, v) in entries {
        assert!(o.insert(k.to_string(), v));
    }
    o
}

#[test]
fn default_options() {
    let o = GunOptions::default();
    assert!(o.peers.is_empty());
    assert!(o.radisk);
    assert!(o.local_storage);
    assert_eq!(o.port, 8080);
    assert_eq!(o.uuid.generate(), "");
}

#[test]
fn builder_sets_options() {
    let peers = ["ws://a", "ws://b"];
    let b = GunBuilder::<TestPlugin>::new()
        .peers(&peers)
        .radisk(false)
        .local_storage(false)
        .port(9000);
    assert_eq!(b.options.peers, &peers);
    assert!(!b.options.radisk);
    assert!(!b.options.local_storage);
    assert_eq!(b.options.port, 9000);
    let gun = b.build();
    assert_eq!(gun.options().port, 9000);
    assert_eq!(gun.plugin(), &TestPlugin(0));
}

#[test]
fn builder_with_options_and_generator() {
    let o = GunOptions { peers: &[], radisk: true, local_storage: false, uuid: (), port: 1 };
    let b = GunBuilder::<TestPlugin, ()>::new_with_options(o);
    assert_eq!(b.options.port, 1);
    fn make() -> String {
        "id".to_string()
    }
    let b2 = b.uuid(make as fn() -> String);
    assert_eq!((b2.options.uuid)(), "id");
    assert!(!b2.options.local_storage);
}

#[test]
fn gun_opt_and_get() {
    let mut gun = GunBuilder::<TestPlugin>::new().build();
    let mut o = GunOptions::default();
    o.port = 4000;
    gun.opt(o);
    assert_eq!(gun.options().port, 4000);
    let handle = gun.get("cat");
    assert_eq!(handle.key(), "cat");
    assert_eq!(handle.plugin(), &TestPlugin(0));
}

#[test]
fn get_request_text() {
    assert_eq!(get_message_with_soul("cat", "abc".to_string()), r##"{"#":"abc","get":{"#":"cat"}}"##);
    let m = get_message("cat");
    assert!(m.starts_with(r##"{"#":""##));
    assert!(m.ends_with(r##"","get":{"#":"cat"}}"##));
    assert_eq!(m.len(), r##"{"#":"abc","get":{"#":"cat"}}"##.len());
}

#[test]
fn put_request_text() {
    let data = obj(vec![("name", s("henry"))]);
    let m = put_message_with_soul("cat", data, &Json::new_object(), "abc".to_string()).unwrap();
    assert_eq!(m, r##"{"#":"abc","put":{"cat":{"_":{"#":"cat",">":{"name":1}},"name":"henry"}}}"##);
}

#[test]
fn put_request_against_known_node() {
    let mut node = obj(vec![("name", s("henry"))]);
    node.insert("_".to_string(), obj(vec![(">", obj(vec![("name", Json::Number(JsonNumber::PosInt(3)))]))]));
    let graph = obj(vec![("cat", node)]);
    let m = put_message("cat", obj(vec![("name", s("tom"))]), &graph).unwrap();
    assert!(m.ends_with(r##"","put":{"cat":{"_":{"#":"cat",">":{"name":4}},"name":"tom"}}}"##));
}

#[test]
fn put_request_of_non_object_is_refused() {
    assert!(put_message_with_soul("cat", s("x"), &Json::new_object(), "abc".to_string()).is_none());
    assert!(put_message_with_soul("cat", Json::Null, &Json::new_object(), "abc".to_string()).is_none());
}

#[test]
fn once_asks_again_after_ten_seconds() {
    assert_eq!(RETRY_MS, 10000);
    assert!(matches!(once_step(true, 0), OnceAction::Deliver));
    assert!(matches!(once_step(true, 50000), OnceAction::Deliver));
    assert!(matches!(once_step(false, 10000), OnceAction::Wait));
    assert!(matches!(once_step(false, 10001), OnceAction::AskAgain));
    assert!(matches!(once_step(false, 3), OnceAction::Wait));
}
