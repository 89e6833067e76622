use gun::ham::{ham, mix_ham, try_mix_ham, HAM};
use gun::json::{Json, JsonNumber};
use gun::util::{lex_from_graph, next_state, try_next_state, GunError};

fn s(x: &str) -> Json {
    Json::Str(x.to_string())
}

fn n(u: u64) -> Json {
    Json::Number(JsonNumber::PosInt(u))
}

fn obj(entries: Vec<(&str, Json)>) -> Json {
    let mut o = Json::new_object();
    for (k, v) in entries {
        assert!(o.insert(k.to_string(), v));
    }
    o
}

fn flags(h: &HAM) -> (bool, bool, bool, bool, bool, bool) {
    (h.converge, h.current, h.defer, h.historical, h.incoming, h.state)
}

fn decide(machine: u64, incoming: u64, current: u64, iv: &str, cv: &str) -> HAM {
    match ham(machine, incoming, current, iv.to_string(), cv.to_string()) {
        Ok(h) => h,
        Err(_) => panic!("ham failed"),
    }
}

#[test]
fn default_ham_has_no_flag() {
    let h = HAM::default();
    assert_eq!(flags(&h), (false, false, false, false, false, false));
}

#[test]
fn ham_defers_future_states() {
    assert_eq!(flags(&decide(1, 2, 0, "a", "b")), (false, false, true, false, false, false));
}

#[test]
fn ham_ignores_historical_states() {
    assert_eq!(flags(&decide(10, 1, 2, "a", "b")), (false, false, false, true, false, false));
}

#[test]
fn ham_takes_newer_states() {
    assert_eq!(flags(&decide(10, 3, 2, "a", "b")), (true, false, false, false, true, false));
}

#[test]
fn ham_same_state_same_value() {
    assert_eq!(flags(&decide(10, 2, 2, "a", "a")), (false, false, false, false, false, true));
}

#[test]
fn ham_same_state_greater_value_wins_either_way() {
    assert_eq!(flags(&decide(10, 2, 2, "a", "b")), (true, true, false, false, false, false));
    assert_eq!(flags(&decide(10, 2, 2, "b", "a")), (true, false, false, false, true, false));
    // the one law: exactly one of two conflicting values is taken, whatever the order
    assert_ne!(decide(5, 5, 5, "x", "y").incoming, decide(5, 5, 5, "y", "x").incoming);
}

fn cat_change(key: &str, value: Json, state: u64) -> Json {
    let meta = obj(vec![("#", s("cat")), (">", obj(vec![(key, n(state))]))]);
    obj(vec![("cat", obj(vec![(key, value), ("_", meta)]))])
}

#[test]
fn mix_ham_merges_an_accepted_field() {
    let mut graph = Json::new_object();
    let diff = mix_ham(cat_change("Name", s("henry"), 1), &mut graph, 1000);
    let expected = r##"{"cat":{"Name":"\"henry\"","_":{"#":"cat",">":{"Name":1}}}}"##;
    assert_eq!(diff.to_text(), expected);
    assert_eq!(graph.to_text(), expected);
}

#[test]
fn mix_ham_stops_at_the_metadata_key() {
    // "_" sorts before lowercase keys, so a node's lowercase fields are not reached
    let mut graph = Json::new_object();
    let diff = mix_ham(cat_change("name", s("henry"), 1), &mut graph, 1000);
    assert_eq!(diff.to_text(), "{}");
    assert_eq!(graph.to_text(), "{}");
}

#[test]
fn mix_ham_defers_future_states() {
    let mut graph = Json::new_object();
    let diff = mix_ham(cat_change("Name", s("henry"), 5000), &mut graph, 1000);
    assert_eq!(diff.to_text(), "{}");
    assert_eq!(graph.to_text(), "{}");
}

#[test]
fn mix_ham_keeps_newer_graph_state() {
    let mut graph = Json::new_object();
    mix_ham(cat_change("Name", s("henry"), 7), &mut graph, 1000);
    let diff = mix_ham(cat_change("Name", s("tom"), 3), &mut graph, 1000);
    assert_eq!(diff.to_text(), "{}");
    assert_eq!(graph.to_text(), r##"{"cat":{"Name":"\"henry\"","_":{"#":"cat",">":{"Name":7}}}}"##);
}

#[test]
fn try_mix_ham_refuses_what_would_panic() {
    let graph = Json::new_object();
    assert!(try_mix_ham(&s("x"), &graph, 10).is_none());
    assert!(try_mix_ham(&obj(vec![("cat", s("x"))]), &graph, 10).is_none());
    // a field without a state
    assert!(try_mix_ham(&obj(vec![("cat", obj(vec![("Name", s("x"))]))]), &graph, 10).is_none());
    // a graph that is no object
    assert!(try_mix_ham(&cat_change("Name", s("henry"), 1), &Json::Null, 10).is_none());
    // an empty change is fine
    let r = try_mix_ham(&Json::new_object(), &graph, 10).unwrap();
    assert_eq!(r.1.to_text(), "{}");
}

fn graph_with_cat() -> Json {
    let mut graph = Json::new_object();
    mix_ham(cat_change("Name", s("henry"), 2), &mut graph, 1000);
    graph
}

#[test]
fn read_after_merge_answers_value_and_state() {
    let graph = graph_with_cat();
    let lex = obj(vec![("#", s("cat")), (".", s("Name"))]);
    let ack = match lex_from_graph(lex, &graph) {
        Ok(a) => a,
        Err(_) => panic!("query failed"),
    };
    assert_eq!(ack.to_text(), r#"{"cat":{"Name":"\"henry\"","_":{">":{"Name":2}}}}"#);
}

#[test]
fn lex_whole_node() {
    let graph = graph_with_cat();
    let ack = match lex_from_graph(obj(vec![("#", s("cat"))]), &graph) {
        Ok(a) => a,
        Err(_) => panic!("query failed"),
    };
    assert_eq!(ack.to_text(), graph.to_text());
}

#[test]
fn lex_errors() {
    let graph = graph_with_cat();
    assert!(matches!(lex_from_graph(obj(vec![]), &graph), Err(GunError::SoulMissing)));
    assert!(matches!(lex_from_graph(s("cat"), &graph), Err(GunError::SoulMissing)));
    assert!(matches!(lex_from_graph(obj(vec![("#", n(1))]), &graph), Err(GunError::SoulNotString)));
    match lex_from_graph(obj(vec![("#", s("dog"))]), &graph) {
        Err(GunError::NodeNotFound(soul)) => assert_eq!(soul, "dog"),
        _ => panic!("expected a missing node"),
    }
    assert!(matches!(
        lex_from_graph(obj(vec![("#", s("cat")), (".", n(1))]), &graph),
        Err(GunError::KeyNotString)
    ));
    match lex_from_graph(obj(vec![("#", s("cat")), (".", s("age"))]), &graph) {
        Err(GunError::KeyNotFound(key)) => assert_eq!(key, "age"),
        _ => panic!("expected a missing key"),
    }
}

fn lex_message(lex: Json, graph: &Json) -> String {
    match lex_from_graph(lex, graph) {
        Err(e) => e.message(),
        Ok(_) => panic!("expected an error"),
    }
}

#[test]
fn lex_error_messages() {
    let graph = graph_with_cat();
    assert_eq!(lex_message(obj(vec![]), &graph), "Soul ('#') property is missing from lex");
    assert_eq!(lex_message(obj(vec![("#", n(1))]), &graph), "Soul must be a string");
    assert_eq!(lex_message(obj(vec![("#", s("dog"))]), &graph), "Could not find node: dog");
    assert_eq!(lex_message(obj(vec![("#", s("cat")), (".", n(1))]), &graph), "Key must be a string");
    assert_eq!(
        lex_message(obj(vec![("#", s("cat")), (".", s("age"))]), &graph),
        "Could not find key: age"
    );
    let crdt = GunError::InvalidCrdt {
        incoming_value: "a".to_string(),
        current_value: "b".to_string(),
        incoming_state: 3,
        current_state: 12,
    };
    assert_eq!(crdt.message(), "Invalid CRDT Data: a to b at 3 to 12!");
}

#[test]
fn next_state_without_node_is_one_per_key() {
    let data = obj(vec![("name", s("henry")), ("color", s("grey"))]);
    let st = next_state("cat", &data, Json::new_object());
    assert_eq!(st.to_text(), r#"{"color":1,"name":1}"#);
}

#[test]
fn next_state_counts_changes() {
    let mut node = obj(vec![("a", s("same")), ("b", s("old"))]);
    node.insert("_".to_string(), obj(vec![(">", obj(vec![("a", n(4)), ("b", n(4))]))]));
    let graph = obj(vec![("cat", node)]);
    let data = obj(vec![("a", s("same")), ("b", s("new")), ("c", s("fresh"))]);
    let st = next_state("cat", &data, graph);
    assert_eq!(st.to_text(), r#"{"a":4,"b":5,"c":1}"#);
}

#[test]
fn next_state_keeps_state_for_the_same_float() {
    let f = |t: &str| Json::Number(JsonNumber::Float(t.to_string()));
    let mut node = obj(vec![("z", f("-0.0")), ("h", f("0.5"))]);
    node.insert("_".to_string(), obj(vec![(">", obj(vec![("h", n(2)), ("z", n(2))]))]));
    let graph = obj(vec![("cat", node)]);
    let data = obj(vec![("z", f("0.0")), ("h", f("0.25"))]);
    let st = next_state("cat", &data, graph);
    assert_eq!(st.to_text(), r#"{"h":3,"z":2}"#);
}

#[test]
fn next_state_refuses_what_would_panic() {
    let graph = Json::new_object();
    assert!(try_next_state("cat", &s("x"), &graph).is_none());
    let mut node = obj(vec![("a", s("x"))]);
    node.insert("_".to_string(), obj(vec![(">", obj(vec![("a", s("not a number"))]))]));
    let graph = obj(vec![("cat", node)]);
    assert!(try_next_state("cat", &obj(vec![("a", s("y"))]), &graph).is_none());
}

#[test]
fn merge_of_equal_states_depends_on_order() {
    // values are stored as their JSON text and compared with the text of what is stored
    let a = cat_change("Name", s("a"), 1);
    let b = cat_change("Name", s("b"), 1);
    let mut g1 = Json::new_object();
    mix_ham(a.deep_copy(), &mut g1, 10);
    mix_ham(b.deep_copy(), &mut g1, 10);
    let mut g2 = Json::new_object();
    mix_ham(b, &mut g2, 10);
    mix_ham(a, &mut g2, 10);
    assert_eq!(g1.to_text(), r##"{"cat":{"Name":"\"b\"","_":{"#":"cat",">":{"Name":1}}}}"##);
    assert_eq!(g2.to_text(), r##"{"cat":{"Name":"\"a\"","_":{"#":"cat",">":{"Name":1}}}}"##);
}

#[test]
fn merging_again_leaves_the_graph_alone() {
    let change = obj(vec![("cat", obj(vec![
        ("A", s("x")),
        ("B", s("y")),
        ("_", obj(vec![(">", obj(vec![("A", n(1)), ("B", n(2))]))])),
    ]))]);
    let mut graph = Json::new_object();
    mix_ham(change.deep_copy(), &mut graph, 10);
    let once = graph.to_text();
    mix_ham(change, &mut graph, 10);
    assert_eq!(graph.to_text(), once);
}

#[test]
fn merged_graph_keeps_keys_in_order() {
    // nodes and fields come in unordered; the graph and the diff hold them sorted
    let mut dog = Json::new_object();
    assert!(dog.insert("Z".to_string(), s("z")));
    assert!(dog.insert("B".to_string(), s("b")));
    assert!(dog.insert("_".to_string(), obj(vec![(">", obj(vec![("B", n(1)), ("Z", n(1))]))])));
    let mut change = Json::new_object();
    assert!(change.insert("dog".to_string(), dog));
    assert!(change.insert("ant".to_string(), obj(vec![
        ("A", s("a")),
        ("_", obj(vec![(">", obj(vec![("A", n(1))]))])),
    ])));
    let mut graph = Json::new_object();
    let diff = mix_ham(change, &mut graph, 10);
    let expected = r##"{"ant":{"A":"\"a\"","_":{"#":"ant",">":{"A":1}}},"dog":{"B":"\"b\"","Z":"\"z\"","_":{"#":"dog",">":{"B":1,"Z":1}}}}"##;
    assert_eq!(graph.to_text(), expected);
    assert_eq!(diff.to_text(), expected);
}

#[test]
fn merging_only_raises_states() {
    let mut graph = Json::new_object();
    mix_ham(cat_change("Name", s("henry"), 2), &mut graph, 1000);
    mix_ham(cat_change("Age", n(3), 4), &mut graph, 1000);
    // a newer state raises the field's state, an older one leaves it
    mix_ham(cat_change("Name", s("tom"), 5), &mut graph, 1000);
    mix_ham(cat_change("Age", n(9), 1), &mut graph, 1000);
    assert_eq!(
        graph.to_text(),
        r##"{"cat":{"Age":"3","Name":"\"tom\"","_":{"#":"cat",">":{"Age":4,"Name":5}}}}"##
    );
}
