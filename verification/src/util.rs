//! Keys of the wire format, the library's errors, and queries on the graph.
use vstd::prelude::*;

use crate::text::{decimal, push_decimal};

use crate::json::{
    Entries, Json, JsonView, empty_object, entries_insert, int_view, lemma_insert_get,
    lemma_key_pos, json_eq, sorted_deep, lemma_sorted_deep_object, lemma_insert_sorted_deep,
    lemma_get_sorted_deep, lemma_at_sorted_deep, lemma_single_sorted_deep,
};

verus! {

/// Key of a message's or a node's identifier (its "soul").
pub const SOUL: &'static str = "#";

/// Key of a node's metadata.
pub const METADATA: &'static str = "_";

/// Key, inside the metadata, of the per-field states.
pub const STATE: &'static str = ">";

/// Key of the identifier of the message that a reply answers.
pub const ACK: &'static str = "@";

pub open spec fn soul_key() -> Seq<char> {
    seq!['#']
}

pub open spec fn meta_key() -> Seq<char> {
    seq!['_']
}

pub open spec fn state_key() -> Seq<char> {
    seq!['>']
}

pub open spec fn ack_key() -> Seq<char> {
    seq!['@']
}

pub open spec fn get_key() -> Seq<char> {
    seq!['g', 'e', 't']
}

pub open spec fn put_key() -> Seq<char> {
    seq!['p', 'u', 't']
}

pub open spec fn dot_key() -> Seq<char> {
    seq!['.']
}

/// The views of the key constants.
pub proof fn lemma_keys()
    ensures
        SOUL@ == soul_key(),
        METADATA@ == meta_key(),
        STATE@ == state_key(),
        ACK@ == ack_key(),
        "get"@ == get_key(),
        "put"@ == put_key(),
        "."@ == dot_key(),
{
    reveal_strlit("#");
    reveal_strlit("_");
    reveal_strlit(">");
    reveal_strlit("@");
    reveal_strlit("get");
    reveal_strlit("put");
    reveal_strlit(".");
}

/// A string with the characters of `s`.
pub fn owned(s: &str) -> (r: String)
    ensures
        r@ == s@,
{
    s.to_owned()
}

/// What can go wrong in the library's operations.
pub enum GunError {
    /// Two values claimed the same state but could not be ordered.
    InvalidCrdt {
        incoming_value: String,
        current_value: String,
        incoming_state: u64,
        current_state: u64,
    },
    /// A query's soul is not a string.
    SoulNotString,
    /// A query has no soul.
    SoulMissing,
    /// A query's key is not a string.
    KeyNotString,
    /// The queried node has no (non-null) value under the key.
    KeyNotFound(String),
    /// The graph has no node with the queried soul.
    NodeNotFound(String),
    /// A peer's address is no URL: the URL parser's description of why.
    InvalidUrl(String),
}

/// The content of a [`GunError`].
pub enum GunErrorView {
    InvalidCrdt {
        incoming_value: Seq<char>,
        current_value: Seq<char>,
        incoming_state: u64,
        current_state: u64,
    },
    SoulNotString,
    SoulMissing,
    KeyNotString,
    KeyNotFound(Seq<char>),
    NodeNotFound(Seq<char>),
    InvalidUrl(Seq<char>),
}

impl View for GunError {
    type V = GunErrorView;

    open spec fn view(&self) -> GunErrorView {
        match self {
            GunError::InvalidCrdt { incoming_value, current_value, incoming_state, current_state } =>
                GunErrorView::InvalidCrdt {
                incoming_value: incoming_value@,
                current_value: current_value@,
                incoming_state: *incoming_state,
                current_state: *current_state,
            },
            GunError::SoulNotString => GunErrorView::SoulNotString,
            GunError::SoulMissing => GunErrorView::SoulMissing,
            GunError::KeyNotString => GunErrorView::KeyNotString,
            GunError::KeyNotFound(k) => GunErrorView::KeyNotFound(k@),
            GunError::NodeNotFound(s) => GunErrorView::NodeNotFound(s@),
            GunError::InvalidUrl(u) => GunErrorView::InvalidUrl(u@),
        }
    }
}

/// The text an error is reported with.
pub open spec fn error_message(e: GunErrorView) -> Seq<char> {
    match e {
        GunErrorView::InvalidCrdt { incoming_value, current_value, incoming_state, current_state } =>
            "Invalid CRDT Data: "@ + incoming_value + " to "@ + current_value + " at "@ + decimal(
            incoming_state as nat,
        ) + " to "@ + decimal(current_state as nat) + "!"@,
        GunErrorView::SoulNotString => "Soul must be a string"@,
        GunErrorView::SoulMissing => "Soul ('#') property is missing from lex"@,
        GunErrorView::KeyNotString => "Key must be a string"@,
        GunErrorView::KeyNotFound(k) => "Could not find key: "@ + k,
        GunErrorView::NodeNotFound(soul) => "Could not find node: "@ + soul,
        GunErrorView::InvalidUrl(why) => why,
    }
}

impl GunError {
    /// The text this error is reported with.
    pub fn message(&self) -> (r: String)
        ensures
            r@ == error_message(self@),
    {
        match self {
            GunError::InvalidCrdt { incoming_value, current_value, incoming_state, current_state } => {
                let mut m = owned("Invalid CRDT Data: ");
                m.append(incoming_value.as_str());
                m.append(" to ");
                m.append(current_value.as_str());
                m.append(" at ");
                push_decimal(&mut m, *incoming_state);
                m.append(" to ");
                push_decimal(&mut m, *current_state);
                m.append("!");
                m
            },
            GunError::SoulNotString => owned("Soul must be a string"),
            GunError::SoulMissing => owned("Soul ('#') property is missing from lex"),
            GunError::KeyNotString => owned("Key must be a string"),
            GunError::KeyNotFound(k) => {
                let mut m = owned("Could not find key: ");
                m.append(k.as_str());
                m
            },
            GunError::NodeNotFound(soul) => {
                let mut m = owned("Could not find node: ");
                m.append(soul.as_str());
                m
            },
            GunError::InvalidUrl(why) => why.clone(),
        }
    }
}

// ---------------------------------------------------------------------------
// Reading the graph
// ---------------------------------------------------------------------------

/// The answer to a query `lex` on `graph`.
///
/// The query names a node by its soul (`"#"`) and, optionally, one of its
/// keys (`"."`). Without a key the answer is the whole node; with one, the
/// node reduced to that key's value and state. Either way it comes wrapped
/// as `{soul: node}`.
pub open spec fn spec_lex_from_graph(lex: JsonView, graph: JsonView) -> Result<JsonView, GunErrorView> {
    match lex.get(soul_key()) {
        None => Err(GunErrorView::SoulMissing),
        Some(s) => match s.as_str() {
            None => Err(GunErrorView::SoulNotString),
            Some(soul) => match graph.get(soul) {
                None => Err(GunErrorView::NodeNotFound(soul)),
                Some(node) => match lex.get(dot_key()) {
                    None => Ok(JsonView::Object(seq![(soul, node)])),
                    Some(k) => match k.as_str() {
                        None => Err(GunErrorView::KeyNotString),
                        Some(key) => if node.at(key).is_null() {
                            Err(GunErrorView::KeyNotFound(key))
                        } else {
                            let states = JsonView::Object(
                                seq![(key, node.at(meta_key()).at(state_key()).at(key))],
                            );
                            let metadata = JsonView::Object(seq![(state_key(), states)]);
                            let reduced = entries_insert(seq![(meta_key(), metadata)], key, node.at(key));
                            Ok(JsonView::Object(seq![(soul, JsonView::Object(reduced))]))
                        },
                    },
                },
            },
        },
    }
}

fn single(k: String, v: Json) -> (r: Json)
    ensures
        r@ == JsonView::Object(seq![(k@, v@)]),
{
    let ghost kv = k@;
    let ghost vv = v@;
    let entries: Vec<(String, Json)> = vec![(k, v)];
    proof {
        crate::json::lemma_object_view(entries@);
        assert(crate::json::entries_view(entries@, entries@.len()) =~= seq![(kv, vv)]);
    }
    Json::Object(entries)
}

/// Answers the query `lex` from `graph`.
pub fn lex_from_graph(lex: Json, graph: &Json) -> (r: Result<Json, GunError>)
    ensures
        match r {
            Ok(v) => spec_lex_from_graph(lex@, graph@) == Ok::<JsonView, GunErrorView>(v@),
            Err(e) => spec_lex_from_graph(lex@, graph@) == Err::<JsonView, GunErrorView>(e@),
        },
        sorted_deep(graph@) ==> (r matches Ok(v) ==> sorted_deep(v@)),
{
    proof {
        lemma_keys();
        if sorted_deep(graph@) && spec_lex_from_graph(lex@, graph@) is Ok {
            lex_answer_sorted(lex@, graph@);
        }
    }
    let soul = match lex.get(SOUL) {
        Some(s) => match s.as_str() {
            Some(soul) => soul,
            None => return Err(GunError::SoulNotString),
        },
        None => return Err(GunError::SoulMissing),
    };
    if let Some(node) = graph.get(soul) {
        let key = lex.get(".");
        let node = if let Some(key) = key {
            let key = match key.as_str() {
                Some(key) => key,
                None => return Err(GunError::KeyNotString),
            };
            match node.get(key) {
                Some(v) if !v.is_null() => {
                    let st = match node.get(METADATA) {
                        Some(m) => match m.get(STATE) {
                            Some(states) => match states.get(key) {
                                Some(x) => x.deep_copy(),
                                None => Json::Null,
                            },
                            None => Json::Null,
                        },
                        None => Json::Null,
                    };
                    let metadata = single(owned(STATE), single(owned(key), st));
                    let mut reduced = single(owned(METADATA), metadata);
                    reduced.insert(owned(key), v.deep_copy());
                    reduced
                },
                _ => return Err(GunError::KeyNotFound(owned(key))),
            }
        } else {
            node.deep_copy()
        };
        Ok(single(owned(soul), node))
    } else {
        Err(GunError::NodeNotFound(owned(soul)))
    }
}

// ---------------------------------------------------------------------------
// States for a write
// ---------------------------------------------------------------------------

/// The state a write of `val` under `key` gets against the graph's node
/// `node`: 1 for a key the node has no state for, the known state when the
/// value is unchanged (equal as `Value`'s `==` has it, [`json_eq`]), one more
/// when it changed. `None` when no state can be given (a known state that is
/// no `i64`, or one that cannot grow).
pub open spec fn field_state(node: JsonView, key: Seq<char>, val: JsonView) -> Option<JsonView> {
    match node.at(meta_key()).at(state_key()).get(key) {
        None => Some(int_view(1)),
        Some(x) => match x.as_i64() {
            None => None,
            Some(n) => if json_eq(node.at(key), val) {
                Some(int_view(n))
            } else if n < i64::MAX {
                Some(int_view((n + 1) as i64))
            } else {
                None
            },
        },
    }
}

/// The states of the first `n` fields.
pub open spec fn states_upto(node: Option<JsonView>, fields: Entries, n: int) -> Option<JsonView>
    decreases n,
{
    if n <= 0 {
        Some(empty_object())
    } else {
        match states_upto(node, fields, n - 1) {
            None => None,
            Some(acc) => {
                let v = match node {
                    Some(nd) => field_state(nd, fields[n - 1].0, fields[n - 1].1),
                    None => Some(int_view(1)),
                };
                match v {
                    None => None,
                    Some(v) => acc.assign(fields[n - 1].0, v),
                }
            },
        }
    }
}

/// The states that a write of the object `data` to the node `soul` records,
/// one per key of `data`; `None` when they cannot be drawn (`data` is no
/// object, or a state as [`field_state`] says).
pub open spec fn spec_next_state(soul: Seq<char>, data: JsonView, graph: JsonView) -> Option<JsonView> {
    match data {
        JsonView::Object(fields) => states_upto(graph.get(soul), fields, fields.len() as int),
        _ => None,
    }
}

/// Once a prefix of the fields fails, every longer one does.
proof fn lemma_states_upto_none(node: Option<JsonView>, fields: Entries, a: int, b: int)
    requires
        a <= b,
        states_upto(node, fields, a) is None,
    ensures
        states_upto(node, fields, b) is None,
    decreases b - a,
{
    if a < b {
        lemma_states_upto_none(node, fields, a, b - 1);
    }
}

proof fn lemma_states_upto_keys(node: Option<JsonView>, fields: Entries, n: int)
    requires
        0 <= n <= fields.len(),
        states_upto(node, fields, n) is Some,
    ensures
        states_upto(node, fields, n)->Some_0.is_object(),
        forall|i: int|
            0 <= i < n ==> (#[trigger] states_upto(node, fields, n)->Some_0.get(fields[i].0)) is Some,
    decreases n,
{
    if n > 0 {
        lemma_states_upto_keys(node, fields, n - 1);
        let acc = states_upto(node, fields, n - 1)->Some_0;
        let v = match node {
            Some(nd) => field_state(nd, fields[n - 1].0, fields[n - 1].1),
            None => Some(int_view(1)),
        };
        if let JsonView::Object(es) = acc {
            assert forall|i: int| 0 <= i < n implies (#[trigger] states_upto(
                node,
                fields,
                n,
            )->Some_0.get(fields[i].0)) is Some by {
                lemma_insert_get(es, fields[n - 1].0, v->Some_0, fields[i].0);
            }
        }
    }
}

/// The states drawn for a write form an object with its keys in order.
proof fn lemma_states_upto_sorted(node: Option<JsonView>, fields: Entries, n: int)
    requires
        states_upto(node, fields, n) is Some,
    ensures
        sorted_deep(states_upto(node, fields, n)->Some_0),
        states_upto(node, fields, n)->Some_0.is_object(),
    decreases n,
{
    if n <= 0 {
        lemma_sorted_deep_object(Seq::empty());
    } else {
        lemma_states_upto_sorted(node, fields, n - 1);
        let acc = states_upto(node, fields, n - 1)->Some_0;
        let v = match node {
            Some(nd) => field_state(nd, fields[n - 1].0, fields[n - 1].1),
            None => Some(int_view(1)),
        };
        if let JsonView::Object(es) = acc {
            lemma_insert_sorted_deep(es, fields[n - 1].0, v->Some_0);
        }
    }
}

/// The states a write records form an object with its keys in order.
pub proof fn next_state_sorted(soul: Seq<char>, data: JsonView, graph: JsonView)
    requires
        spec_next_state(soul, data, graph) is Some,
    ensures
        sorted_deep(spec_next_state(soul, data, graph)->Some_0),
        spec_next_state(soul, data, graph)->Some_0.is_object(),
{
    if let JsonView::Object(fields) = data {
        lemma_states_upto_sorted(graph.get(soul), fields, fields.len() as int);
    }
}

/// Answers from a graph whose objects have their keys in order have their
/// keys in order.
pub proof fn lex_answer_sorted(lex: JsonView, graph: JsonView)
    requires
        sorted_deep(graph),
        spec_lex_from_graph(lex, graph) is Ok,
    ensures
        sorted_deep(spec_lex_from_graph(lex, graph)->Ok_0),
{
    let soul = lex.get(soul_key())->Some_0.as_str()->Some_0;
    let node = graph.get(soul)->Some_0;
    lemma_get_sorted_deep(graph, soul);
    match lex.get(dot_key()) {
        None => {
            lemma_single_sorted_deep(soul, node);
        },
        Some(k) => {
            let key = k.as_str()->Some_0;
            lemma_at_sorted_deep(node, meta_key());
            lemma_at_sorted_deep(node.at(meta_key()), state_key());
            lemma_at_sorted_deep(node.at(meta_key()).at(state_key()), key);
            let states = JsonView::Object(seq![(key, node.at(meta_key()).at(state_key()).at(key))]);
            lemma_single_sorted_deep(key, node.at(meta_key()).at(state_key()).at(key));
            let metadata = JsonView::Object(seq![(state_key(), states)]);
            lemma_single_sorted_deep(state_key(), states);
            lemma_single_sorted_deep(meta_key(), metadata);
            lemma_at_sorted_deep(node, key);
            lemma_insert_sorted_deep(seq![(meta_key(), metadata)], key, node.at(key));
            let reduced = entries_insert(seq![(meta_key(), metadata)], key, node.at(key));
            lemma_single_sorted_deep(soul, JsonView::Object(reduced));
        },
    }
}

/// A write records a state for every field it writes.
pub proof fn next_state_covers_fields(soul: Seq<char>, data: JsonView, graph: JsonView, k: Seq<char>)
    requires
        spec_next_state(soul, data, graph) is Some,
        data.get(k) is Some,
    ensures
        spec_next_state(soul, data, graph)->Some_0.get(k) is Some,
{
    if let JsonView::Object(fields) = data {
        lemma_key_pos(fields, k);
        lemma_states_upto_keys(graph.get(soul), fields, fields.len() as int);
        let p = crate::json::key_pos(fields, k);
        assert(fields[p].0 == k);
    }
}

fn field_state_exec(node: &Json, key: &str, val: &Json) -> (r: Option<Json>)
    ensures
        match r {
            Some(v) => field_state(node@, key@, val@) == Some(v@),
            None => field_state(node@, key@, val@) is None,
        },
{
    proof {
        lemma_keys();
    }
    let known = match node.get(METADATA) {
        Some(m) => match m.get(STATE) {
            Some(states) => states.get(key),
            None => None,
        },
        None => None,
    };
    match known {
        None => Some(Json::from_i64(1)),
        Some(x) => match x.as_i64() {
            None => None,
            Some(n) => {
                let same = match node.get(key) {
                    Some(cur) => cur.equals(val),
                    None => Json::Null.equals(val),
                };
                if same {
                    Some(Json::from_i64(n))
                } else if n < 9223372036854775807i64 {
                    Some(Json::from_i64(n + 1))
                } else {
                    None
                }
            },
        },
    }
}

/// The states of a write of `data` to the node `soul`, or `None` where
/// [`next_state`] cannot be called.
pub fn try_next_state(soul: &str, data: &Json, graph: &Json) -> (r: Option<Json>)
    ensures
        match r {
            Some(v) => spec_next_state(soul@, data@, graph@) == Some(v@),
            None => spec_next_state(soul@, data@, graph@) is None,
        },
        r matches Some(v) ==> sorted_deep(v@),
{
    let fields = match data {
        Json::Object(f) => f,
        _ => return None,
    };
    let ghost fv = crate::json::entries_view(fields@, fields@.len());
    proof {
        crate::json::lemma_object_view(fields@);
    }
    let node = graph.get(soul);
    let ghost nodev = graph@.get(soul@);
    assert(match node {
        Some(x) => nodev == Some(x@),
        None => nodev is None,
    });
    let mut state = Json::new_object();
    let mut i: usize = 0;
    while i < fields.len()
        invariant
            data@ == JsonView::Object(fv),
            fv.len() == fields@.len(),
            forall|m: int|
                0 <= m < fields@.len() ==> #[trigger] fv[m] == (fields@[m].0@, fields@[m].1@),
            nodev == graph@.get(soul@),
            match node {
                Some(x) => nodev == Some(x@),
                None => nodev is None,
            },
            i <= fields@.len(),
            states_upto(nodev, fv, i as int) == Some(state@),
        decreases fields.len() - i,
    {
        assert(fv[i as int] == (fields@[i as int].0@, fields@[i as int].1@));
        let v = match node {
            Some(nd) => field_state_exec(nd, fields[i].0.as_str(), &fields[i].1),
            None => Some(Json::from_i64(1)),
        };
        match v {
            None => {
                proof {
                    lemma_states_upto_none(nodev, fv, i + 1, fv.len() as int);
                }
                return None;
            },
            Some(v) => {
                state.assign(fields[i].0.clone(), v);
            },
        }
        i = i + 1;
    }
    proof {
        next_state_sorted(soul@, data@, graph@);
    }
    Some(state)
}

/// The states that a write of the object `data` to the node `soul` of
/// `graph` records.
pub fn next_state(soul: &str, data: &Json, graph: Json) -> (r: Json)
    requires
        spec_next_state(soul@, data@, graph@) is Some,
    ensures
        spec_next_state(soul@, data@, graph@) == Some(r@),
        sorted_deep(r@),
{
    match try_next_state(soul, data, &graph) {
        Some(v) => v,
        None => Json::new_object(),
    }
}

} // verus!
