//! The Hypothetical Amnesia Machine: conflict resolution between an incoming
//! value and the value a node already holds, and the merge of a change into
//! the graph.
use vstd::prelude::*;

use crate::json::{
    empty_object, entries_insert, lemma_get_sorted_deep, lemma_insert_get, lemma_insert_same,
    lemma_insert_sorted_deep, lemma_key_pos, lemma_sorted_deep_object, sorted_deep, text, Entries,
    Json,
    JsonNumber, JsonView, NumberView,
};
use crate::text::{lemma_seq_lt_trichotomy, seq_lt, str_eq, str_lt};
use crate::util::{
    dot_key, lemma_keys, meta_key, owned, soul_key, spec_lex_from_graph, state_key, GunError,
    GunErrorView, METADATA, SOUL, STATE,
};

verus! {

/// The outcome of comparing an incoming value with the current one.
pub struct HAM {
    pub converge: bool,
    pub current: bool,
    pub defer: bool,
    pub historical: bool,
    pub incoming: bool,
    pub state: bool,
}

/// The outcome with no flag set.
pub open spec fn ham_none() -> HAM {
    HAM {
        converge: false,
        current: false,
        defer: false,
        historical: false,
        incoming: false,
        state: false,
    }
}

impl Default for HAM {
    fn default() -> (r: Self)
        ensures
            r == ham_none(),
    {
        HAM {
            converge: false,
            current: false,
            defer: false,
            historical: false,
            incoming: false,
            state: false,
        }
    }
}

/// The decision, stated directly:
/// - an incoming state ahead of the machine's clock is deferred;
/// - one older than the current state is historical;
/// - a newer one converges to the incoming value;
/// - at equal states, equal values are the same state, and otherwise the
///   lexicographically greater value wins.
pub open spec fn spec_ham(
    machine_state: u64,
    incoming_state: u64,
    current_state: u64,
    incoming_value: Seq<char>,
    current_value: Seq<char>,
) -> HAM {
    if machine_state < incoming_state {
        HAM { defer: true, ..ham_none() }
    } else if incoming_state < current_state {
        HAM { historical: true, ..ham_none() }
    } else if current_state < incoming_state {
        HAM { converge: true, incoming: true, ..ham_none() }
    } else if incoming_value == current_value {
        HAM { state: true, ..ham_none() }
    } else if seq_lt(incoming_value, current_value) {
        HAM { converge: true, current: true, ..ham_none() }
    } else {
        HAM { converge: true, incoming: true, ..ham_none() }
    }
}

/// Decides between an incoming value and the current one by their states.
/// It never fails: any two different values are ordered.
pub fn ham(
    machine_state: u64,
    incoming_state: u64,
    current_state: u64,
    incoming_value: String,
    current_value: String,
) -> (r: Result<HAM, GunError>)
    ensures
        r == Ok::<HAM, GunError>(
            spec_ham(machine_state, incoming_state, current_state, incoming_value@, current_value@),
        ),
{
    if machine_state < incoming_state {
        return Ok(HAM { defer: true, ..HAM::default() });
    } else if incoming_state < current_state {
        return Ok(HAM { historical: true, ..HAM::default() });
    } else if current_state < incoming_state {
        return Ok(HAM { converge: true, incoming: true, ..HAM::default() });
    } else if incoming_state == current_state {
        if str_eq(incoming_value.as_str(), current_value.as_str()) {
            return Ok(HAM { state: true, ..HAM::default() });
        } else if str_lt(incoming_value.as_str(), current_value.as_str()) {
            return Ok(HAM { converge: true, current: true, ..HAM::default() });
        } else if str_lt(current_value.as_str(), incoming_value.as_str()) {
            return Ok(HAM { converge: true, incoming: true, ..HAM::default() });
        }
    }
    proof {
        lemma_seq_lt_trichotomy(incoming_value@, current_value@);
    }
    Err(
        GunError::InvalidCrdt {
            incoming_value,
            current_value,
            incoming_state,
            current_state,
        },
    )
}

pub open spec fn flag(b: bool) -> int {
    if b {
        1
    } else {
        0
    }
}

/// Every decision is exactly one of: deferred, historical, the same state,
/// or a convergence, and a convergence keeps exactly one of the two values.
pub proof fn ham_decides_one_way(
    machine_state: u64,
    incoming_state: u64,
    current_state: u64,
    incoming_value: Seq<char>,
    current_value: Seq<char>,
)
    ensures
        ({
            let h = spec_ham(machine_state, incoming_state, current_state, incoming_value, current_value);
            &&& flag(h.defer) + flag(h.historical) + flag(h.state) + flag(h.converge) == 1
            &&& h.converge <==> (h.incoming || h.current)
            &&& !(h.incoming && h.current)
        }),
{
}

/// A value with a newer state than the current one, and not ahead of the
/// machine's clock, is taken.
pub proof fn ham_newer_state_wins(
    machine_state: u64,
    incoming_state: u64,
    current_state: u64,
    incoming_value: Seq<char>,
    current_value: Seq<char>,
)
    requires
        current_state < incoming_state <= machine_state,
    ensures
        spec_ham(machine_state, incoming_state, current_state, incoming_value, current_value).incoming,
{
}

/// Of two different values with the same state (not ahead of the machine's
/// clock), exactly one wins, whichever of them is the current one: peers
/// that receive the two in either order keep the same value.
pub proof fn ham_resolves_conflicts_symmetrically(machine_state: u64, state: u64, a: Seq<char>, b: Seq<char>)
    requires
        state <= machine_state,
        a != b,
    ensures
        spec_ham(machine_state, state, state, a, b).converge,
        spec_ham(machine_state, state, state, b, a).converge,
        spec_ham(machine_state, state, state, a, b).incoming != spec_ham(
            machine_state,
            state,
            state,
            b,
            a,
        ).incoming,
{
    lemma_seq_lt_trichotomy(a, b);
}

/// At equal states not ahead of the machine's clock, of two different
/// values the lexicographically greater one wins: the incoming value is
/// taken exactly when it is greater than the current one, and the current
/// value kept exactly when it is the greater.
pub proof fn ham_greater_value_wins(machine_state: u64, state: u64, a: Seq<char>, b: Seq<char>)
    requires
        state <= machine_state,
        a != b,
    ensures
        spec_ham(machine_state, state, state, a, b).incoming <==> seq_lt(b, a),
        spec_ham(machine_state, state, state, a, b).current <==> seq_lt(a, b),
{
    lemma_seq_lt_trichotomy(a, b);
}

/// The incoming value is taken exactly when its state is not ahead of the
/// machine's clock and either newer than the current state, or equal to it
/// with a lexicographically greater value.
pub proof fn ham_takes_incoming_exactly(
    machine_state: u64,
    incoming_state: u64,
    current_state: u64,
    incoming_value: Seq<char>,
    current_value: Seq<char>,
)
    ensures
        spec_ham(machine_state, incoming_state, current_state, incoming_value, current_value).incoming
            <==> (incoming_state <= machine_state && (current_state < incoming_state || (
        current_state == incoming_state && seq_lt(current_value, incoming_value)))),
{
    lemma_seq_lt_trichotomy(incoming_value, current_value);
}

// ---------------------------------------------------------------------------
// Merging a change into the graph
// ---------------------------------------------------------------------------

/// The metadata skeleton of a node: `{"_":{"#":soul,">":{}}}`.
pub open spec fn meta_node(soul: Seq<char>) -> JsonView {
    JsonView::Object(
        seq![
            (
                meta_key(),
                JsonView::Object(
                    seq![(soul_key(), JsonView::Str(soul)), (state_key(), empty_object())],
                ),
            ),
        ],
    )
}

/// What one field of a change does to the graph and to the difference.
pub enum Step {
    /// The field cannot be merged: a state that must be there is not, or
    /// a value that must be an object is not.
    Panic,
    /// The rest of this node's fields are skipped.
    Stop,
    /// The field was accepted: the new graph and difference.
    Next(JsonView, JsonView),
}

/// The state a node records for `key`: `node["_"][">"][key]`.
pub open spec fn recorded_state(node: JsonView, key: Seq<char>) -> JsonView {
    node.at(meta_key()).at(state_key()).at(key)
}

/// The state the graph knows for `key` of `soul` (0 when none), or `None`
/// when it holds one that is no `u64`.
pub open spec fn known_state(graph: JsonView, soul: Seq<char>, key: Seq<char>) -> Option<u64> {
    match graph.get(soul) {
        Some(n) => match n.at(meta_key()).at(state_key()).get(key) {
            Some(x) => x.as_u64(),
            None => Some(0),
        },
        None => Some(0),
    }
}

/// The text of the value the graph knows for `key` of `soul` (empty when
/// the graph has no such node).
pub open spec fn known_text(graph: JsonView, soul: Seq<char>, key: Seq<char>) -> Seq<char> {
    match graph.get(soul) {
        Some(n) => text(n.at(key)),
        None => Seq::empty(),
    }
}

/// Writes `key` with the value text `vt` and the state `state` into the node
/// `soul` of `g` (which has that node): `g[soul][key] = vt` and
/// `g[soul]["_"][">"][key] = state`. `None` when a value on the way is missing
/// or no object.
pub open spec fn write_field(
    g: JsonView,
    soul: Seq<char>,
    key: Seq<char>,
    vt: Seq<char>,
    state: u64,
) -> Option<JsonView> {
    match g.at(soul).insert(key, JsonView::Str(vt)) {
        None => None,
        Some(n2) => match n2.get(meta_key()) {
            None => None,
            Some(meta) => match meta.get(state_key()) {
                None => None,
                Some(states) => match states.insert(key, JsonView::Number(NumberView::PosInt(state))) {
                    None => None,
                    Some(states2) => match meta.insert(state_key(), states2) {
                        None => None,
                        Some(meta2) => match n2.insert(meta_key(), meta2) {
                            None => None,
                            Some(n3) => g.insert(soul, n3),
                        },
                    },
                },
            },
        },
    }
}

/// The graph with a node for `soul`, adding the skeleton where it has none.
pub open spec fn with_node(g: JsonView, soul: Seq<char>) -> Option<JsonView> {
    if g.get(soul) is None {
        g.insert(soul, meta_node(soul))
    } else {
        Some(g)
    }
}

/// One field `key: val` of the node `node` of a change, against the graph
/// `g` and the difference `d` so far, at machine state `machine`.
pub open spec fn mix_step(
    g: JsonView,
    d: JsonView,
    soul: Seq<char>,
    node: JsonView,
    key: Seq<char>,
    val: JsonView,
    machine: u64,
) -> Step {
    if key == meta_key() {
        Step::Stop
    } else {
        match recorded_state(node, key).as_u64() {
            None => Step::Panic,
            Some(state) => match known_state(g, soul, key) {
                None => Step::Panic,
                Some(was) => {
                    let vt = text(val);
                    let h = spec_ham(machine, state, was, vt, known_text(g, soul, key));
                    if !h.incoming {
                        Step::Stop
                    } else {
                        match with_node(d, soul) {
                            None => Step::Panic,
                            Some(d1) => match with_node(g, soul) {
                                None => Step::Panic,
                                Some(g1) => match write_field(g1, soul, key, vt, state) {
                                    None => Step::Panic,
                                    Some(g2) => match write_field(d1, soul, key, vt, state) {
                                        None => Step::Panic,
                                        Some(d2) => Step::Next(g2, d2),
                                    },
                                },
                            },
                        }
                    }
                },
            },
        }
    }
}

/// The fields of one node from the `i`-th on; `None` when one cannot be merged.
pub open spec fn mix_fields(
    g: JsonView,
    d: JsonView,
    soul: Seq<char>,
    node: JsonView,
    fields: Seq<(Seq<char>, JsonView)>,
    i: int,
    machine: u64,
) -> Option<(JsonView, JsonView)>
    decreases fields.len() - i,
{
    if i < 0 || i >= fields.len() {
        Some((g, d))
    } else {
        match mix_step(g, d, soul, node, fields[i].0, fields[i].1, machine) {
            Step::Panic => None,
            Step::Stop => Some((g, d)),
            Step::Next(g2, d2) => mix_fields(g2, d2, soul, node, fields, i + 1, machine),
        }
    }
}

/// The nodes of a change from the `i`-th on.
pub open spec fn mix_nodes(
    g: JsonView,
    d: JsonView,
    nodes: Seq<(Seq<char>, JsonView)>,
    i: int,
    machine: u64,
) -> Option<(JsonView, JsonView)>
    decreases nodes.len() - i,
{
    if i < 0 || i >= nodes.len() {
        Some((g, d))
    } else {
        match nodes[i].1 {
            JsonView::Object(fields) => match mix_fields(
                g,
                d,
                nodes[i].0,
                nodes[i].1,
                fields,
                0,
                machine,
            ) {
                None => None,
                Some((g2, d2)) => mix_nodes(g2, d2, nodes, i + 1, machine),
            },
            _ => None,
        }
    }
}

/// Merging `change` into `graph` at machine state `machine`: the new graph
/// and the difference (the accepted fields), or `None` when the change cannot be
/// merged (it or one of its nodes is no object, or a field cannot be merged).
///
/// Fields are taken node by node, in each node in key order. A node's
/// fields stop at the metadata key `_` or at the first field that is not
/// accepted. An accepted field's value is stored as the JSON text of the
/// incoming value, together with its state.
pub open spec fn spec_mix_ham(change: JsonView, graph: JsonView, machine: u64) -> Option<
    (JsonView, JsonView),
> {
    match change {
        JsonView::Object(nodes) => mix_nodes(graph, empty_object(), nodes, 0, machine),
        _ => None,
    }
}

fn meta_node_exec(soul: &str) -> (r: Json)
    ensures
        r@ == meta_node(soul@),
{
    proof {
        lemma_keys();
    }
    let inner: Vec<(String, Json)> = vec![
        (owned(SOUL), Json::Str(owned(soul))),
        (owned(STATE), Json::new_object()),
    ];
    proof {
        crate::json::lemma_object_view(inner@);
    }
    assert(crate::json::entries_view(inner@, inner@.len()) =~= seq![
        (soul_key(), JsonView::Str(soul@)),
        (state_key(), empty_object()),
    ]);
    let inner_json = Json::Object(inner);
    let outer: Vec<(String, Json)> = vec![(owned(METADATA), inner_json)];
    proof {
        crate::json::lemma_object_view(outer@);
    }
    assert(crate::json::entries_view(outer@, outer@.len()) =~= seq![
        (meta_key(), inner_json@),
    ]);
    let r = Json::Object(outer);
    r
}

fn recorded_state_exec(node: &Json, key: &str) -> (r: Option<u64>)
    ensures
        r == recorded_state(node@, key@).as_u64(),
{
    proof {
        lemma_keys();
    }
    match node.get(METADATA) {
        None => None,
        Some(m) => match m.get(STATE) {
            None => None,
            Some(st) => match st.get(key) {
                None => None,
                Some(x) => x.as_u64(),
            },
        },
    }
}

fn known_state_exec(g: &Json, soul: &str, key: &str) -> (r: Option<u64>)
    ensures
        r == known_state(g@, soul@, key@),
{
    proof {
        lemma_keys();
    }
    match g.get(soul) {
        None => Some(0),
        Some(n) => match n.get(METADATA) {
            None => Some(0),
            Some(m) => match m.get(STATE) {
                None => Some(0),
                Some(st) => match st.get(key) {
                    None => Some(0),
                    Some(x) => x.as_u64(),
                },
            },
        },
    }
}

fn known_text_exec(g: &Json, soul: &str, key: &str) -> (r: String)
    ensures
        r@ == known_text(g@, soul@, key@),
{
    match g.get(soul) {
        None => String::new(),
        Some(n) => match n.get(key) {
            None => Json::Null.to_text(),
            Some(x) => x.to_text(),
        },
    }
}

fn with_node_exec(g: &mut Json, soul: &str) -> (ok: bool)
    ensures
        ok == (with_node(old(g)@, soul@) is Some),
        ok ==> with_node(old(g)@, soul@) == Some(final(g)@),
{
    if g.get(soul).is_none() {
        let fresh = meta_node_exec(soul);
        g.insert(owned(soul), fresh)
    } else {
        true
    }
}

fn write_field_exec(g: &mut Json, soul: &str, key: &str, vt: &String, state: u64) -> (ok: bool)
    ensures
        ok == (write_field(old(g)@, soul@, key@, vt@, state) is Some),
        ok ==> write_field(old(g)@, soul@, key@, vt@, state) == Some(final(g)@),
{
    proof {
        lemma_keys();
    }
    let mut n = match g.get(soul) {
        Some(x) => x.deep_copy(),
        None => Json::Null,
    };
    if !n.insert(owned(key), Json::Str(vt.clone())) {
        return false;
    }
    let mut meta = match n.get(METADATA) {
        Some(m) => m.deep_copy(),
        None => return false,
    };
    let mut states = match meta.get(STATE) {
        Some(st) => st.deep_copy(),
        None => return false,
    };
    if !states.insert(owned(key), Json::Number(JsonNumber::PosInt(state))) {
        return false;
    }
    if !meta.insert(owned(STATE), states) {
        return false;
    }
    if !n.insert(owned(METADATA), meta) {
        return false;
    }
    g.insert(owned(soul), n)
}

enum StepOutcome {
    Panic,
    Stop,
    Next,
}

fn mix_step_exec(
    g: &mut Json,
    d: &mut Json,
    soul: &str,
    node: &Json,
    key: &str,
    val: &Json,
    machine: u64,
) -> (r: StepOutcome)
    ensures
        match r {
            StepOutcome::Panic => mix_step(old(g)@, old(d)@, soul@, node@, key@, val@, machine) is Panic,
            StepOutcome::Stop => mix_step(old(g)@, old(d)@, soul@, node@, key@, val@, machine) is Stop,
            StepOutcome::Next => mix_step(old(g)@, old(d)@, soul@, node@, key@, val@, machine)
                == Step::Next(final(g)@, final(d)@),
        },
        r is Stop ==> final(g)@ == old(g)@ && final(d)@ == old(d)@,
{
    proof {
        lemma_keys();
    }
    if str_eq(key, METADATA) {
        return StepOutcome::Stop;
    }
    let state = match recorded_state_exec(node, key) {
        Some(st) => st,
        None => return StepOutcome::Panic,
    };
    let was = match known_state_exec(g, soul, key) {
        Some(w) => w,
        None => return StepOutcome::Panic,
    };
    let vt = val.to_text();
    let known = known_text_exec(g, soul, key);
    let h = match ham(machine, state, was, vt.clone(), known) {
        Ok(h) => h,
        Err(_) => return StepOutcome::Stop,
    };
    if !h.incoming {
        return StepOutcome::Stop;
    }
    if !with_node_exec(d, soul) {
        return StepOutcome::Panic;
    }
    if !with_node_exec(g, soul) {
        return StepOutcome::Panic;
    }
    if !write_field_exec(g, soul, key, &vt, state) {
        return StepOutcome::Panic;
    }
    if !write_field_exec(d, soul, key, &vt, state) {
        return StepOutcome::Panic;
    }
    StepOutcome::Next
}

/// Merges `change` into `graph` when it can be merged: the new graph and
/// the difference, or `None`.
pub fn try_mix_ham(change: &Json, graph: &Json, machine: u64) -> (r: Option<(Json, Json)>)
    ensures
        match r {
            Some((g, d)) => spec_mix_ham(change@, graph@, machine) == Some((g@, d@)),
            None => spec_mix_ham(change@, graph@, machine) is None,
        },
{
    let nodes = match change {
        Json::Object(v) => v,
        _ => return None,
    };
    let ghost nv = crate::json::entries_view(nodes@, nodes@.len());
    proof {
        crate::json::lemma_object_view(nodes@);
    }
    let mut g = graph.deep_copy();
    let mut d = Json::new_object();
    let mut i: usize = 0;
    while i < nodes.len()
        invariant
            change@ == JsonView::Object(nv),
            nv.len() == nodes@.len(),
            forall|m: int|
                0 <= m < nodes@.len() ==> #[trigger] nv[m] == (nodes@[m].0@, nodes@[m].1@),
            i <= nodes@.len(),
            mix_nodes(g@, d@, nv, i as int, machine) == spec_mix_ham(change@, graph@, machine),
        decreases nodes.len() - i,
    {
        let soul = nodes[i].0.as_str();
        let node = &nodes[i].1;
        let fields = match node {
            Json::Object(f) => f,
            _ => return None,
        };
        let ghost fv = crate::json::entries_view(fields@, fields@.len());
        proof {
            crate::json::lemma_object_view(fields@);
        }
        let ghost g0 = g@;
        let ghost d0 = d@;
        assert(nv[i as int] == (soul@, node@));
        let mut j: usize = 0;
        while j < fields.len()
            invariant
                node@ == JsonView::Object(fv),
                fv.len() == fields@.len(),
                forall|m: int|
                    0 <= m < fields@.len() ==> #[trigger] fv[m] == (fields@[m].0@, fields@[m].1@),
                j <= fields@.len(),
                i < nodes@.len(),
                nv.len() == nodes@.len(),
                nv[i as int] == (soul@, node@),
                mix_nodes(g0, d0, nv, i as int, machine) == spec_mix_ham(change@, graph@, machine),
                mix_fields(g@, d@, soul@, node@, fv, j as int, machine) == mix_fields(
                    g0,
                    d0,
                    soul@,
                    node@,
                    fv,
                    0,
                    machine,
                ),
            decreases fields.len() - j,
        {
            assert(fv[j as int] == (fields@[j as int].0@, fields@[j as int].1@));
            let ghost gb = g@;
            let ghost db = d@;
            let key = fields[j].0.as_str();
            let val = &fields[j].1;
            assert(key@ == fv[j as int].0 && val@ == fv[j as int].1);
            match mix_step_exec(&mut g, &mut d, soul, node, key, val, machine) {
                StepOutcome::Panic => {
                    assert(mix_fields(gb, db, soul@, node@, fv, j as int, machine) is None);
                    assert(mix_nodes(g0, d0, nv, i as int, machine) is None);
                    return None;
                },
                StepOutcome::Stop => {
                    assert(mix_fields(gb, db, soul@, node@, fv, j as int, machine) == Some((gb, db)));
                    j = fields.len();
                },
                StepOutcome::Next => {
                    assert(mix_fields(gb, db, soul@, node@, fv, j as int, machine) == mix_fields(
                        g@,
                        d@,
                        soul@,
                        node@,
                        fv,
                        j + 1,
                        machine,
                    ));
                    j = j + 1;
                },
            }
        }
        i = i + 1;
    }
    Some((g, d))
}

/// Merges `change` into `graph` at machine state `machine` and returns the
/// difference: the fields that were accepted, with their states.
pub fn mix_ham(change: Json, graph: &mut Json, machine: u64) -> (diff: Json)
    requires
        spec_mix_ham(change@, old(graph)@, machine) is Some,
    ensures
        spec_mix_ham(change@, old(graph)@, machine) == Some((final(graph)@, diff@)),
{
    match try_mix_ham(&change, graph, machine) {
        Some((g, d)) => {
            *graph = g;
            d
        },
        None => Json::new_object(),
    }
}

/// `{"#": soul, ".": key}`: a query for one key of a node.
pub open spec fn key_query(soul: Seq<char>, key: Seq<char>) -> JsonView {
    JsonView::Object(seq![(soul_key(), JsonView::Str(soul)), (dot_key(), JsonView::Str(key))])
}

/// The answer to [`key_query`] for a key holding `value` with state `state`.
pub open spec fn key_answer(soul: Seq<char>, key: Seq<char>, value: JsonView, state: u64) -> JsonView {
    let states = JsonView::Object(seq![(key, JsonView::Number(NumberView::PosInt(state)))]);
    let metadata = JsonView::Object(seq![(state_key(), states)]);
    JsonView::Object(
        seq![(soul, JsonView::Object(entries_insert(seq![(meta_key(), metadata)], key, value)))],
    )
}

/// The node `soul` of `g` holds `key` with the value text `vt` and the
/// state `state`, in the shape [`write_field`] leaves it.
pub open spec fn holds_field(g: JsonView, soul: Seq<char>, key: Seq<char>, vt: Seq<char>, state: u64) -> bool {
    &&& g.is_object()
    &&& g.get(soul) is Some
    &&& g.at(soul).is_object()
    &&& g.at(soul).get(key) == Some(JsonView::Str(vt))
    &&& g.at(soul).get(meta_key()) is Some
    &&& g.at(soul).at(meta_key()).is_object()
    &&& g.at(soul).at(meta_key()).get(state_key()) is Some
    &&& g.at(soul).at(meta_key()).at(state_key()).is_object()
    &&& g.at(soul).at(meta_key()).at(state_key()).get(key) == Some(
        JsonView::Number(NumberView::PosInt(state)),
    )
}

/// What [`write_field`] writes is held.
proof fn lemma_write_field_holds(g: JsonView, soul: Seq<char>, key: Seq<char>, vt: Seq<char>, state: u64)
    requires
        key != meta_key(),
        write_field(g, soul, key, vt, state) is Some,
    ensures
        holds_field(write_field(g, soul, key, vt, state)->Some_0, soul, key, vt, state),
{
    let n = g.at(soul);
    let n2 = n.insert(key, JsonView::Str(vt))->Some_0;
    let meta = n2.get(meta_key())->Some_0;
    let states = meta.get(state_key())->Some_0;
    let pst = JsonView::Number(NumberView::PosInt(state));
    let states2 = states.insert(key, pst)->Some_0;
    let meta2 = meta.insert(state_key(), states2)->Some_0;
    let n3 = n2.insert(meta_key(), meta2)->Some_0;
    if let JsonView::Object(es) = n {
        lemma_insert_get(es, key, JsonView::Str(vt), key);
    }
    if let JsonView::Object(es) = states {
        lemma_insert_get(es, key, pst, key);
    }
    if let JsonView::Object(es) = meta {
        lemma_insert_get(es, state_key(), states2, state_key());
    }
    if let JsonView::Object(es) = n2 {
        lemma_insert_get(es, meta_key(), meta2, key);
        lemma_insert_get(es, meta_key(), meta2, meta_key());
    }
    if let JsonView::Object(es) = g {
        lemma_insert_get(es, soul, n3, soul);
    }
}

/// Writing what is held changes nothing.
proof fn lemma_write_field_same(g: JsonView, soul: Seq<char>, key: Seq<char>, vt: Seq<char>, state: u64)
    requires
        holds_field(g, soul, key, vt, state),
    ensures
        write_field(g, soul, key, vt, state) == Some(g),
{
    let n = g.at(soul);
    let meta = n.at(meta_key());
    let states = meta.at(state_key());
    let pst = JsonView::Number(NumberView::PosInt(state));
    if let JsonView::Object(es) = n {
        lemma_insert_same(es, key, JsonView::Str(vt));
        lemma_insert_same(es, meta_key(), meta);
    }
    if let JsonView::Object(es) = states {
        lemma_insert_same(es, key, pst);
    }
    if let JsonView::Object(es) = meta {
        lemma_insert_same(es, state_key(), states);
    }
    if let JsonView::Object(es) = g {
        lemma_insert_same(es, soul, n);
    }
}

/// A field merged twice in a row is merged once: the second time it is
/// either skipped or written as it already is, and the graph and the
/// difference stay as the first merge left them.
pub proof fn merge_field_twice(
    g: JsonView,
    d: JsonView,
    soul: Seq<char>,
    node: JsonView,
    key: Seq<char>,
    val: JsonView,
    machine: u64,
)
    requires
        mix_step(g, d, soul, node, key, val, machine) is Next,
    ensures
        ({
            let g1 = mix_step(g, d, soul, node, key, val, machine)->Next_0;
            let d1 = mix_step(g, d, soul, node, key, val, machine)->Next_1;
            ||| mix_step(g1, d1, soul, node, key, val, machine) is Stop
            ||| mix_step(g1, d1, soul, node, key, val, machine) == Step::Next(g1, d1)
        }),
{
    let state = recorded_state(node, key).as_u64()->Some_0;
    let vt = text(val);
    let g0 = with_node(g, soul)->Some_0;
    let d0 = with_node(d, soul)->Some_0;
    lemma_write_field_holds(g0, soul, key, vt, state);
    lemma_write_field_holds(d0, soul, key, vt, state);
    let g1 = write_field(g0, soul, key, vt, state)->Some_0;
    let d1 = write_field(d0, soul, key, vt, state)->Some_0;
    lemma_write_field_same(g1, soul, key, vt, state);
    lemma_write_field_same(d1, soul, key, vt, state);
    assert(known_state(g1, soul, key) == Some(state));
    assert(with_node(g1, soul) == Some(g1));
    assert(with_node(d1, soul) == Some(d1));
}

/// An accepted field is in both results of its step: the graph and the
/// difference each hold it with the incoming value's text and the incoming
/// state, whatever the graph held for it before.
pub proof fn accepted_field_in_diff(
    g: JsonView,
    d: JsonView,
    soul: Seq<char>,
    node: JsonView,
    key: Seq<char>,
    val: JsonView,
    machine: u64,
)
    requires
        mix_step(g, d, soul, node, key, val, machine) is Next,
    ensures
        ({
            let state = recorded_state(node, key).as_u64()->Some_0;
            &&& holds_field(mix_step(g, d, soul, node, key, val, machine)->Next_0, soul, key, text(val), state)
            &&& holds_field(mix_step(g, d, soul, node, key, val, machine)->Next_1, soul, key, text(val), state)
        }),
{
    let state = recorded_state(node, key).as_u64()->Some_0;
    let vt = text(val);
    let g0 = with_node(g, soul)->Some_0;
    let d0 = with_node(d, soul)->Some_0;
    lemma_write_field_holds(g0, soul, key, vt, state);
    lemma_write_field_holds(d0, soul, key, vt, state);
}

/// What is merged is read back: after a field of a change is accepted, a
/// query for that key of that node answers the merged value (the JSON text
/// of the incoming value) with the incoming state.
pub proof fn read_after_merge(
    g: JsonView,
    d: JsonView,
    soul: Seq<char>,
    node: JsonView,
    key: Seq<char>,
    val: JsonView,
    machine: u64,
)
    requires
        mix_step(g, d, soul, node, key, val, machine) is Next,
    ensures
        ({
            let g2 = mix_step(g, d, soul, node, key, val, machine)->Next_0;
            let state = recorded_state(node, key).as_u64()->Some_0;
            spec_lex_from_graph(key_query(soul, key), g2) == Ok::<JsonView, GunErrorView>(
                key_answer(soul, key, JsonView::Str(text(val)), state),
            )
        }),
{
    let state = recorded_state(node, key).as_u64()->Some_0;
    let g1 = with_node(g, soul)->Some_0;
    lemma_write_field_holds(g1, soul, key, text(val), state);
    let q = key_query(soul, key);
    assert(soul_key() != dot_key()) by {
        assert(soul_key()[0] != dot_key()[0]);
    }
    let qes = seq![(soul_key(), JsonView::Str(soul)), (dot_key(), JsonView::Str(key))];
    lemma_key_pos(qes, soul_key());
    lemma_key_pos(qes, dot_key());
    assert(q.get(soul_key()) == Some(JsonView::Str(soul)));
    assert(q.get(dot_key()) == Some(JsonView::Str(key)));
}

// ---------------------------------------------------------------------------
// Merging the same change twice
// ---------------------------------------------------------------------------

/// A node in the shape the merge gives the nodes of a difference: an object
/// whose metadata is an object holding an object of states.
pub open spec fn shaped(n: JsonView) -> bool {
    &&& n.is_object()
    &&& n.get(meta_key()) is Some
    &&& n.at(meta_key()).is_object()
    &&& n.at(meta_key()).get(state_key()) is Some
    &&& n.at(meta_key()).at(state_key()).is_object()
}

/// A difference in the making: an object of shaped nodes.
pub open spec fn shaped_diff(d: JsonView) -> bool {
    &&& d.is_object()
    &&& forall|s: Seq<char>| #[trigger] d.get(s) is Some ==> shaped(d.at(s))
}

/// No two entries have the same key.
pub open spec fn unique_keys(es: Entries) -> bool {
    forall|a: int, b: int| 0 <= a < b < es.len() ==> es[a].0 != es[b].0
}

/// A change whose nodes, and each node's fields, have distinct keys (as a
/// change parsed from JSON text has).
pub open spec fn change_keys_unique(change: JsonView) -> bool {
    match change {
        JsonView::Object(nodes) => {
            &&& unique_keys(nodes)
            &&& forall|i: int|
                0 <= i < nodes.len() ==> match #[trigger] nodes[i].1 {
                    JsonView::Object(fields) => unique_keys(fields),
                    _ => true,
                }
        },
        _ => true,
    }
}

proof fn lemma_meta_node_shaped(soul: Seq<char>)
    ensures
        shaped(meta_node(soul)),
{
    let inner = seq![(soul_key(), JsonView::Str(soul)), (state_key(), empty_object())];
    let outer = seq![(meta_key(), JsonView::Object(inner))];
    assert(soul_key() != state_key()) by {
        assert(soul_key()[0] != state_key()[0]);
    }
    lemma_key_pos(outer, meta_key());
    lemma_key_pos(inner, state_key());
}

/// Inserting under `s` leaves every other key's value alone.
proof fn lemma_object_insert_other(g: JsonView, s: Seq<char>, v: JsonView, s2: Seq<char>)
    requires
        g.is_object(),
    ensures
        g.insert(s, v) is Some,
        g.insert(s, v)->Some_0.is_object(),
        g.insert(s, v)->Some_0.get(s2) == if s2 == s {
            Some(v)
        } else {
            g.get(s2)
        },
{
    if let JsonView::Object(es) = g {
        lemma_insert_get(es, s, v, s2);
    }
}

proof fn lemma_with_node_shaped(d: JsonView, soul: Seq<char>)
    requires
        shaped_diff(d),
    ensures
        with_node(d, soul) is Some,
        shaped_diff(with_node(d, soul)->Some_0),
        with_node(d, soul)->Some_0.get(soul) is Some,
{
    if d.get(soul) is None {
        lemma_meta_node_shaped(soul);
        let d1 = d.insert(soul, meta_node(soul))->Some_0;
        assert forall|s: Seq<char>| #[trigger] d1.get(s) is Some implies shaped(d1.at(s)) by {
            lemma_object_insert_other(d, soul, meta_node(soul), s);
        }
        lemma_object_insert_other(d, soul, meta_node(soul), soul);
    }
}

/// Writing a field into a shaped node of a difference succeeds and keeps the
/// difference shaped.
proof fn lemma_write_field_shaped(d: JsonView, soul: Seq<char>, key: Seq<char>, vt: Seq<char>, state: u64)
    requires
        shaped_diff(d),
        d.get(soul) is Some,
        key != meta_key(),
    ensures
        write_field(d, soul, key, vt, state) is Some,
        shaped_diff(write_field(d, soul, key, vt, state)->Some_0),
{
    let n = d.at(soul);
    assert(shaped(n));
    let pst = JsonView::Number(NumberView::PosInt(state));
    lemma_object_insert_other(n, key, JsonView::Str(vt), meta_key());
    let n2 = n.insert(key, JsonView::Str(vt))->Some_0;
    let meta = n2.get(meta_key())->Some_0;
    assert(meta == n.at(meta_key()));
    let states = meta.get(state_key())->Some_0;
    lemma_object_insert_other(states, key, pst, key);
    let states2 = states.insert(key, pst)->Some_0;
    lemma_object_insert_other(meta, state_key(), states2, state_key());
    let meta2 = meta.insert(state_key(), states2)->Some_0;
    lemma_object_insert_other(n2, meta_key(), meta2, meta_key());
    let n3 = n2.insert(meta_key(), meta2)->Some_0;
    assert(shaped(n3));
    lemma_object_insert_other(d, soul, n3, soul);
    let d2 = d.insert(soul, n3)->Some_0;
    assert forall|s: Seq<char>| #[trigger] d2.get(s) is Some implies shaped(d2.at(s)) by {
        lemma_object_insert_other(d, soul, n3, s);
    }
}

/// A field held stays held when another field is written.
proof fn lemma_holds_after_write(
    g: JsonView,
    soul: Seq<char>,
    key: Seq<char>,
    vt: Seq<char>,
    state: u64,
    soul2: Seq<char>,
    key2: Seq<char>,
    vt2: Seq<char>,
    state2: u64,
)
    requires
        holds_field(g, soul, key, vt, state),
        key != meta_key(),
        key2 != meta_key(),
        soul2 != soul || key2 != key,
        write_field(g, soul2, key2, vt2, state2) is Some,
    ensures
        holds_field(write_field(g, soul2, key2, vt2, state2)->Some_0, soul, key, vt, state),
{
    let n = g.at(soul2);
    let pst = JsonView::Number(NumberView::PosInt(state2));
    let n2 = n.insert(key2, JsonView::Str(vt2))->Some_0;
    let meta = n2.get(meta_key())->Some_0;
    let states = meta.get(state_key())->Some_0;
    let states2 = states.insert(key2, pst)->Some_0;
    let meta2 = meta.insert(state_key(), states2)->Some_0;
    let n3 = n2.insert(meta_key(), meta2)->Some_0;
    lemma_object_insert_other(g, soul2, n3, soul);
    if soul2 == soul {
        lemma_object_insert_other(n, key2, JsonView::Str(vt2), key);
        lemma_object_insert_other(n, key2, JsonView::Str(vt2), meta_key());
        lemma_object_insert_other(states, key2, pst, key);
        lemma_object_insert_other(meta, state_key(), states2, state_key());
        lemma_object_insert_other(n2, meta_key(), meta2, key);
        lemma_object_insert_other(n2, meta_key(), meta2, meta_key());
    }
}

/// A field held stays held when a node is made for some soul.
proof fn lemma_holds_after_with_node(
    g: JsonView,
    soul: Seq<char>,
    key: Seq<char>,
    vt: Seq<char>,
    state: u64,
    soul2: Seq<char>,
)
    requires
        holds_field(g, soul, key, vt, state),
    ensures
        with_node(g, soul2) is Some,
        holds_field(with_node(g, soul2)->Some_0, soul, key, vt, state),
{
    if g.get(soul2) is None {
        lemma_object_insert_other(g, soul2, meta_node(soul2), soul);
    }
}

/// A merged field leaves the nodes of other souls alone.
proof fn lemma_step_other_soul(
    g: JsonView,
    d: JsonView,
    soul: Seq<char>,
    node: JsonView,
    key: Seq<char>,
    val: JsonView,
    machine: u64,
    soul2: Seq<char>,
)
    requires
        mix_step(g, d, soul, node, key, val, machine) is Next,
        soul2 != soul,
    ensures
        mix_step(g, d, soul, node, key, val, machine)->Next_0.get(soul2) == g.get(soul2),
{
    let state = recorded_state(node, key).as_u64()->Some_0;
    let vt = text(val);
    let g1 = with_node(g, soul)->Some_0;
    if g.get(soul) is None {
        lemma_object_insert_other(g, soul, meta_node(soul), soul2);
    }
    let n = g1.at(soul);
    let n2 = n.insert(key, JsonView::Str(vt))->Some_0;
    let meta = n2.get(meta_key())->Some_0;
    let states = meta.get(state_key())->Some_0;
    let states2 = states.insert(key, JsonView::Number(NumberView::PosInt(state)))->Some_0;
    let meta2 = meta.insert(state_key(), states2)->Some_0;
    let n3 = n2.insert(meta_key(), meta2)->Some_0;
    lemma_object_insert_other(g1, soul, n3, soul2);
}

/// A field held stays held when another field of the node is merged.
proof fn lemma_holds_after_step(
    g: JsonView,
    d: JsonView,
    soul: Seq<char>,
    node: JsonView,
    key: Seq<char>,
    val: JsonView,
    machine: u64,
    k0: Seq<char>,
    vt0: Seq<char>,
    st0: u64,
)
    requires
        mix_step(g, d, soul, node, key, val, machine) is Next,
        holds_field(g, soul, k0, vt0, st0),
        k0 != key,
        k0 != meta_key(),
    ensures
        holds_field(mix_step(g, d, soul, node, key, val, machine)->Next_0, soul, k0, vt0, st0),
{
    let state = recorded_state(node, key).as_u64()->Some_0;
    let vt = text(val);
    lemma_holds_after_with_node(g, soul, k0, vt0, st0, soul);
    let g1 = with_node(g, soul)->Some_0;
    lemma_holds_after_write(g1, soul, k0, vt0, st0, soul, key, vt, state);
}

/// Merging the fields of one node leaves the nodes of other souls alone.
proof fn lemma_fields_other_soul(
    g: JsonView,
    d: JsonView,
    soul: Seq<char>,
    node: JsonView,
    fields: Entries,
    i: int,
    machine: u64,
    soul2: Seq<char>,
)
    requires
        mix_fields(g, d, soul, node, fields, i, machine) is Some,
        soul2 != soul,
    ensures
        mix_fields(g, d, soul, node, fields, i, machine)->Some_0.0.get(soul2) == g.get(soul2),
    decreases fields.len() - i,
{
    if 0 <= i < fields.len() {
        let st = mix_step(g, d, soul, node, fields[i].0, fields[i].1, machine);
        if let Step::Next(g2, d2) = st {
            lemma_step_other_soul(g, d, soul, node, fields[i].0, fields[i].1, machine, soul2);
            lemma_fields_other_soul(g2, d2, soul, node, fields, i + 1, machine, soul2);
        }
    }
}

/// A field held stays held while fields with other keys are merged.
proof fn lemma_fields_hold(
    g: JsonView,
    d: JsonView,
    soul: Seq<char>,
    node: JsonView,
    fields: Entries,
    i: int,
    machine: u64,
    k0: Seq<char>,
    vt0: Seq<char>,
    st0: u64,
)
    requires
        mix_fields(g, d, soul, node, fields, i, machine) is Some,
        holds_field(g, soul, k0, vt0, st0),
        k0 != meta_key(),
        forall|j: int| i <= j < fields.len() ==> #[trigger] fields[j].0 != k0,
    ensures
        holds_field(mix_fields(g, d, soul, node, fields, i, machine)->Some_0.0, soul, k0, vt0, st0),
    decreases fields.len() - i,
{
    if 0 <= i < fields.len() {
        let st = mix_step(g, d, soul, node, fields[i].0, fields[i].1, machine);
        if let Step::Next(g2, d2) = st {
            assert(fields[i].0 != k0);
            lemma_holds_after_step(g, d, soul, node, fields[i].0, fields[i].1, machine, k0, vt0, st0);
            lemma_fields_hold(g2, d2, soul, node, fields, i + 1, machine, k0, vt0, st0);
        }
    }
}

/// Merging nodes of other souls leaves a soul's node alone.
proof fn lemma_nodes_other_soul(
    g: JsonView,
    d: JsonView,
    nodes: Entries,
    i: int,
    machine: u64,
    soul2: Seq<char>,
)
    requires
        mix_nodes(g, d, nodes, i, machine) is Some,
        forall|j: int| i <= j < nodes.len() ==> #[trigger] nodes[j].0 != soul2,
    ensures
        mix_nodes(g, d, nodes, i, machine)->Some_0.0.get(soul2) == g.get(soul2),
    decreases nodes.len() - i,
{
    if 0 <= i < nodes.len() {
        if let JsonView::Object(fields) = nodes[i].1 {
            assert(nodes[i].0 != soul2);
            let r = mix_fields(g, d, nodes[i].0, nodes[i].1, fields, 0, machine)->Some_0;
            lemma_fields_other_soul(g, d, nodes[i].0, nodes[i].1, fields, 0, machine, soul2);
            lemma_nodes_other_soul(r.0, r.1, nodes, i + 1, machine, soul2);
        }
    }
}

/// Merging a node's fields again, against a graph that holds that node as
/// the first merge left it, changes nothing in the graph.
proof fn lemma_fields_again(
    ga: JsonView,
    da: JsonView,
    soul: Seq<char>,
    node: JsonView,
    fields: Entries,
    i: int,
    machine: u64,
    g: JsonView,
    d: JsonView,
)
    requires
        mix_fields(ga, da, soul, node, fields, i, machine) is Some,
        unique_keys(fields),
        g.get(soul) == mix_fields(ga, da, soul, node, fields, i, machine)->Some_0.0.get(soul),
        shaped_diff(d),
    ensures
        mix_fields(g, d, soul, node, fields, i, machine) is Some,
        mix_fields(g, d, soul, node, fields, i, machine)->Some_0.0 == g,
        shaped_diff(mix_fields(g, d, soul, node, fields, i, machine)->Some_0.1),
    decreases fields.len() - i,
{
    if 0 <= i < fields.len() {
        let key = fields[i].0;
        let val = fields[i].1;
        match mix_step(ga, da, soul, node, key, val, machine) {
            Step::Next(ga2, da2) => {
                let state = recorded_state(node, key).as_u64()->Some_0;
                let vt = text(val);
                let g1 = with_node(ga, soul)->Some_0;
                lemma_write_field_holds(g1, soul, key, vt, state);
                assert forall|j: int| i + 1 <= j < fields.len() implies #[trigger] fields[j].0 != key by {
                    assert(fields[i].0 != fields[j].0);
                }
                lemma_fields_hold(ga2, da2, soul, node, fields, i + 1, machine, key, vt, state);
                assert(holds_field(g, soul, key, vt, state));
                assert(known_state(g, soul, key) == Some(state));
                let h = spec_ham(machine, state, state, vt, known_text(g, soul, key));
                if h.incoming {
                    lemma_with_node_shaped(d, soul);
                    let d1 = with_node(d, soul)->Some_0;
                    lemma_write_field_shaped(d1, soul, key, vt, state);
                    lemma_write_field_same(g, soul, key, vt, state);
                    let d2 = write_field(d1, soul, key, vt, state)->Some_0;
                    assert(mix_step(g, d, soul, node, key, val, machine) == Step::Next(g, d2));
                    lemma_fields_again(ga2, da2, soul, node, fields, i + 1, machine, g, d2);
                } else {
                    assert(mix_step(g, d, soul, node, key, val, machine) is Stop);
                }
            },
            Step::Stop => {
                assert(g.get(soul) == ga.get(soul));
                assert(known_state(g, soul, key) == known_state(ga, soul, key));
                assert(known_text(g, soul, key) == known_text(ga, soul, key));
                assert(mix_step(g, d, soul, node, key, val, machine) is Stop);
            },
            Step::Panic => {},
        }
    }
}

/// Merging nodes again, against the graph the first merge of them left,
/// changes nothing in the graph.
proof fn lemma_nodes_again(ga: JsonView, da: JsonView, nodes: Entries, i: int, machine: u64, g: JsonView, d: JsonView)
    requires
        mix_nodes(ga, da, nodes, i, machine) is Some,
        g == mix_nodes(ga, da, nodes, i, machine)->Some_0.0,
        change_keys_unique(JsonView::Object(nodes)),
        shaped_diff(d),
    ensures
        mix_nodes(g, d, nodes, i, machine) is Some,
        mix_nodes(g, d, nodes, i, machine)->Some_0.0 == g,
    decreases nodes.len() - i,
{
    if 0 <= i < nodes.len() {
        let soul = nodes[i].0;
        let node = nodes[i].1;
        if let JsonView::Object(fields) = node {
            let r1 = mix_fields(ga, da, soul, node, fields, 0, machine)->Some_0;
            assert forall|j: int| i + 1 <= j < nodes.len() implies #[trigger] nodes[j].0 != soul by {
                assert(nodes[i].0 != nodes[j].0);
            }
            lemma_nodes_other_soul(r1.0, r1.1, nodes, i + 1, machine, soul);
            assert(match nodes[i].1 {
                JsonView::Object(f) => unique_keys(f),
                _ => true,
            });
            lemma_fields_again(ga, da, soul, node, fields, 0, machine, g, d);
            let r2 = mix_fields(g, d, soul, node, fields, 0, machine)->Some_0;
            lemma_nodes_again(r1.0, r1.1, nodes, i + 1, machine, g, r2.1);
        }
    }
}

/// Merging a change a second time leaves the graph as the first merge left
/// it (for a change whose nodes, and each node's fields, have distinct
/// keys, as any change parsed from JSON text has).
pub proof fn merge_change_twice(change: JsonView, graph: JsonView, machine: u64)
    requires
        change_keys_unique(change),
        spec_mix_ham(change, graph, machine) is Some,
    ensures
        ({
            let g1 = spec_mix_ham(change, graph, machine)->Some_0.0;
            &&& spec_mix_ham(change, g1, machine) is Some
            &&& spec_mix_ham(change, g1, machine)->Some_0.0 == g1
        }),
{
    if let JsonView::Object(nodes) = change {
        let g1 = spec_mix_ham(change, graph, machine)->Some_0.0;
        assert(shaped_diff(empty_object()));
        lemma_nodes_again(graph, empty_object(), nodes, 0, machine, g1, empty_object());
    }
}

// ---------------------------------------------------------------------------
// Merging keeps keys in order
// ---------------------------------------------------------------------------

proof fn lemma_meta_node_sorted(soul: Seq<char>)
    ensures
        sorted_deep(meta_node(soul)),
{
    let inner = seq![(soul_key(), JsonView::Str(soul)), (state_key(), empty_object())];
    let outer = seq![(meta_key(), JsonView::Object(inner))];
    lemma_sorted_deep_object(Seq::empty());
    assert(crate::text::seq_lt(soul_key(), state_key()));
    lemma_sorted_deep_object(inner);
    lemma_sorted_deep_object(outer);
}

/// Inserting a sorted value into a sorted value that is an object keeps it sorted.
proof fn lemma_object_insert_sorted(j: JsonView, k: Seq<char>, v: JsonView)
    requires
        sorted_deep(j),
        sorted_deep(v),
        j.insert(k, v) is Some,
    ensures
        sorted_deep(j.insert(k, v)->Some_0),
{
    if let JsonView::Object(es) = j {
        lemma_insert_sorted_deep(es, k, v);
    }
}

proof fn lemma_with_node_sorted(g: JsonView, soul: Seq<char>)
    requires
        sorted_deep(g),
        with_node(g, soul) is Some,
    ensures
        sorted_deep(with_node(g, soul)->Some_0),
{
    if g.get(soul) is None {
        lemma_meta_node_sorted(soul);
        lemma_object_insert_sorted(g, soul, meta_node(soul));
    }
}

proof fn lemma_write_field_sorted(g: JsonView, soul: Seq<char>, key: Seq<char>, vt: Seq<char>, state: u64)
    requires
        sorted_deep(g),
        g.get(soul) is Some,
        write_field(g, soul, key, vt, state) is Some,
    ensures
        sorted_deep(write_field(g, soul, key, vt, state)->Some_0),
{
    let n = g.at(soul);
    lemma_get_sorted_deep(g, soul);
    let pst = JsonView::Number(NumberView::PosInt(state));
    lemma_object_insert_sorted(n, key, JsonView::Str(vt));
    let n2 = n.insert(key, JsonView::Str(vt))->Some_0;
    let meta = n2.get(meta_key())->Some_0;
    lemma_get_sorted_deep(n2, meta_key());
    let states = meta.get(state_key())->Some_0;
    lemma_get_sorted_deep(meta, state_key());
    lemma_object_insert_sorted(states, key, pst);
    let states2 = states.insert(key, pst)->Some_0;
    lemma_object_insert_sorted(meta, state_key(), states2);
    let meta2 = meta.insert(state_key(), states2)->Some_0;
    lemma_object_insert_sorted(n2, meta_key(), meta2);
    let n3 = n2.insert(meta_key(), meta2)->Some_0;
    lemma_object_insert_sorted(g, soul, n3);
}

proof fn lemma_step_sorted(
    g: JsonView,
    d: JsonView,
    soul: Seq<char>,
    node: JsonView,
    key: Seq<char>,
    val: JsonView,
    machine: u64,
)
    requires
        sorted_deep(g),
        sorted_deep(d),
        mix_step(g, d, soul, node, key, val, machine) is Next,
    ensures
        sorted_deep(mix_step(g, d, soul, node, key, val, machine)->Next_0),
        sorted_deep(mix_step(g, d, soul, node, key, val, machine)->Next_1),
{
    let state = recorded_state(node, key).as_u64()->Some_0;
    let vt = text(val);
    lemma_with_node_sorted(g, soul);
    lemma_with_node_sorted(d, soul);
    let g1 = with_node(g, soul)->Some_0;
    let d1 = with_node(d, soul)->Some_0;
    if g.get(soul) is None {
        lemma_object_insert_other(g, soul, meta_node(soul), soul);
    }
    if d.get(soul) is None {
        lemma_object_insert_other(d, soul, meta_node(soul), soul);
    }
    lemma_write_field_sorted(g1, soul, key, vt, state);
    lemma_write_field_sorted(d1, soul, key, vt, state);
}

proof fn lemma_fields_sorted(
    g: JsonView,
    d: JsonView,
    soul: Seq<char>,
    node: JsonView,
    fields: Entries,
    i: int,
    machine: u64,
)
    requires
        sorted_deep(g),
        sorted_deep(d),
        mix_fields(g, d, soul, node, fields, i, machine) is Some,
    ensures
        sorted_deep(mix_fields(g, d, soul, node, fields, i, machine)->Some_0.0),
        sorted_deep(mix_fields(g, d, soul, node, fields, i, machine)->Some_0.1),
    decreases fields.len() - i,
{
    if 0 <= i < fields.len() {
        if let Step::Next(g2, d2) = mix_step(g, d, soul, node, fields[i].0, fields[i].1, machine) {
            lemma_step_sorted(g, d, soul, node, fields[i].0, fields[i].1, machine);
            lemma_fields_sorted(g2, d2, soul, node, fields, i + 1, machine);
        }
    }
}

proof fn lemma_nodes_sorted(g: JsonView, d: JsonView, nodes: Entries, i: int, machine: u64)
    requires
        sorted_deep(g),
        sorted_deep(d),
        mix_nodes(g, d, nodes, i, machine) is Some,
    ensures
        sorted_deep(mix_nodes(g, d, nodes, i, machine)->Some_0.0),
        sorted_deep(mix_nodes(g, d, nodes, i, machine)->Some_0.1),
    decreases nodes.len() - i,
{
    if 0 <= i < nodes.len() {
        if let JsonView::Object(fields) = nodes[i].1 {
            lemma_fields_sorted(g, d, nodes[i].0, nodes[i].1, fields, 0, machine);
            let r = mix_fields(g, d, nodes[i].0, nodes[i].1, fields, 0, machine)->Some_0;
            lemma_nodes_sorted(r.0, r.1, nodes, i + 1, machine);
        }
    }
}

/// Merging keeps keys in order: when every object of the graph has its keys
/// in increasing order, so does every object of the merged graph and of the
/// difference.
pub proof fn merge_keeps_keys_sorted(change: JsonView, graph: JsonView, machine: u64)
    requires
        sorted_deep(graph),
        spec_mix_ham(change, graph, machine) is Some,
    ensures
        sorted_deep(spec_mix_ham(change, graph, machine)->Some_0.0),
        sorted_deep(spec_mix_ham(change, graph, machine)->Some_0.1),
{
    if let JsonView::Object(nodes) = change {
        lemma_sorted_deep_object(Seq::empty());
        lemma_nodes_sorted(graph, empty_object(), nodes, 0, machine);
    }
}

// ---------------------------------------------------------------------------
// Merging only adds and raises
// ---------------------------------------------------------------------------

/// A change parsed from JSON text (every object with its keys in increasing
/// order) has distinct keys in its nodes and in each node's fields.
proof fn lemma_sorted_change_keys_unique(change: JsonView)
    requires
        sorted_deep(change),
    ensures
        change_keys_unique(change),
{
    if let JsonView::Object(nodes) = change {
        lemma_sorted_deep_object(nodes);
        assert forall|a: int, b: int| 0 <= a < b < nodes.len() implies nodes[a].0 != nodes[b].0 by {
            lemma_seq_lt_trichotomy(nodes[a].0, nodes[b].0);
        }
        assert forall|i: int| 0 <= i < nodes.len() implies match #[trigger] nodes[i].1 {
            JsonView::Object(fields) => unique_keys(fields),
            _ => true,
        } by {
            assert(sorted_deep(nodes[i].1));
            if let JsonView::Object(fields) = nodes[i].1 {
                lemma_sorted_deep_object(fields);
                assert forall|a: int, b: int| 0 <= a < b < fields.len() implies fields[a].0
                    != fields[b].0 by {
                    lemma_seq_lt_trichotomy(fields[a].0, fields[b].0);
                }
            }
        }
    }
}

/// Merging a change parsed from JSON text a second time leaves the graph as
/// the first merge left it.
pub proof fn merge_parsed_change_twice(change: JsonView, graph: JsonView, machine: u64)
    requires
        sorted_deep(change),
        spec_mix_ham(change, graph, machine) is Some,
    ensures
        ({
            let g1 = spec_mix_ham(change, graph, machine)->Some_0.0;
            &&& spec_mix_ham(change, g1, machine) is Some
            &&& spec_mix_ham(change, g1, machine)->Some_0.0 == g1
        }),
{
    lemma_sorted_change_keys_unique(change);
    merge_change_twice(change, graph, machine);
}

/// The state `graph[soul]["_"][">"][key]`, when the graph records one that
/// is a `u64`.
pub open spec fn state_of(g: JsonView, soul: Seq<char>, key: Seq<char>) -> Option<u64> {
    match g.get(soul) {
        Some(n) => match n.at(meta_key()).at(state_key()).get(key) {
            Some(x) => x.as_u64(),
            None => None,
        },
        None => None,
    }
}

/// `g2` keeps every node of `g1`, every key of those nodes, and every state
/// `g1` records, at least as high.
pub open spec fn grows_from(g1: JsonView, g2: JsonView) -> bool {
    &&& forall|s: Seq<char>| #[trigger] g1.get(s) is Some ==> g2.get(s) is Some
    &&& forall|s: Seq<char>, k: Seq<char>|
        g1.get(s) is Some && #[trigger] g1.at(s).get(k) is Some ==> g2.at(s).get(k) is Some
    &&& forall|s: Seq<char>, k: Seq<char>|
        #[trigger] state_of(g1, s, k) is Some ==> state_of(g2, s, k) is Some && state_of(g1, s, k)->Some_0
            <= state_of(g2, s, k)->Some_0
}

proof fn lemma_grows_refl(g: JsonView)
    ensures
        grows_from(g, g),
{
}

proof fn lemma_grows_trans(g1: JsonView, g2: JsonView, g3: JsonView)
    requires
        grows_from(g1, g2),
        grows_from(g2, g3),
    ensures
        grows_from(g1, g3),
{
    assert forall|s: Seq<char>| #[trigger] g1.get(s) is Some implies g3.get(s) is Some by {
        assert(g2.get(s) is Some);
    }
    assert forall|s: Seq<char>, k: Seq<char>|
        g1.get(s) is Some && #[trigger] g1.at(s).get(k) is Some implies g3.at(s).get(k) is Some by {
        assert(g2.get(s) is Some);
        assert(g2.at(s).get(k) is Some);
    }
    assert forall|s: Seq<char>, k: Seq<char>| #[trigger] state_of(g1, s, k) is Some implies state_of(
        g3,
        s,
        k,
    ) is Some && state_of(g1, s, k)->Some_0 <= state_of(g3, s, k)->Some_0 by {
        assert(state_of(g2, s, k) is Some);
    }
}

/// Adding a node skeleton where there is none keeps everything the graph had.
proof fn lemma_with_node_grows(g: JsonView, soul: Seq<char>)
    requires
        with_node(g, soul) is Some,
    ensures
        grows_from(g, with_node(g, soul)->Some_0),
{
    if g.get(soul) is None {
        let g1 = with_node(g, soul)->Some_0;
        assert forall|s: Seq<char>| #[trigger] g.get(s) is Some implies g1.get(s) is Some by {
            lemma_object_insert_other(g, soul, meta_node(soul), s);
        }
        assert forall|s: Seq<char>, k: Seq<char>|
            g.get(s) is Some && #[trigger] g.at(s).get(k) is Some implies g1.at(s).get(k) is Some by {
            lemma_object_insert_other(g, soul, meta_node(soul), s);
        }
        assert forall|s: Seq<char>, k: Seq<char>| #[trigger] state_of(g, s, k) is Some implies state_of(
            g1,
            s,
            k,
        ) is Some && state_of(g, s, k)->Some_0 <= state_of(g1, s, k)->Some_0 by {
            lemma_object_insert_other(g, soul, meta_node(soul), s);
        }
    }
}

/// Writing a field keeps everything the graph had, and raises the field's
/// state to `state` when it held no higher one.
proof fn lemma_write_field_grows(g: JsonView, soul: Seq<char>, key: Seq<char>, vt: Seq<char>, state: u64)
    requires
        write_field(g, soul, key, vt, state) is Some,
        key != meta_key(),
        state_of(g, soul, key) is Some ==> state_of(g, soul, key)->Some_0 <= state,
    ensures
        grows_from(g, write_field(g, soul, key, vt, state)->Some_0),
{
    let pst = JsonView::Number(NumberView::PosInt(state));
    let n = g.at(soul);
    let n2 = n.insert(key, JsonView::Str(vt))->Some_0;
    let meta = n2.get(meta_key())->Some_0;
    let states = meta.get(state_key())->Some_0;
    let states2 = states.insert(key, pst)->Some_0;
    let meta2 = meta.insert(state_key(), states2)->Some_0;
    let n3 = n2.insert(meta_key(), meta2)->Some_0;
    let g2 = g.insert(soul, n3)->Some_0;
    lemma_object_insert_other(n, key, JsonView::Str(vt), meta_key());
    assert(meta == n.at(meta_key()));
    lemma_object_insert_other(meta, state_key(), states2, state_key());
    lemma_object_insert_other(n2, meta_key(), meta2, meta_key());
    assert(n3.at(meta_key()).at(state_key()) == states2);
    assert(g.get(soul) is Some) by {
        if g.get(soul) is None {
            assert(n == JsonView::Null);
        }
    }
    assert forall|s: Seq<char>| #[trigger] g.get(s) is Some implies g2.get(s) is Some by {
        lemma_object_insert_other(g, soul, n3, s);
    }
    assert forall|s: Seq<char>, k: Seq<char>|
        g.get(s) is Some && #[trigger] g.at(s).get(k) is Some implies g2.at(s).get(k) is Some by {
        lemma_object_insert_other(g, soul, n3, s);
        if s == soul {
            lemma_object_insert_other(n, key, JsonView::Str(vt), k);
            lemma_object_insert_other(n2, meta_key(), meta2, k);
        }
    }
    assert forall|s: Seq<char>, k: Seq<char>| #[trigger] state_of(g, s, k) is Some implies state_of(
        g2,
        s,
        k,
    ) is Some && state_of(g, s, k)->Some_0 <= state_of(g2, s, k)->Some_0 by {
        lemma_object_insert_other(g, soul, n3, s);
        if s == soul {
            lemma_object_insert_other(states, key, pst, k);
        }
    }
}

/// An accepted field keeps everything the graph had and raises one state.
proof fn lemma_step_grows(
    g: JsonView,
    d: JsonView,
    soul: Seq<char>,
    node: JsonView,
    key: Seq<char>,
    val: JsonView,
    machine: u64,
)
    requires
        mix_step(g, d, soul, node, key, val, machine) is Next,
    ensures
        grows_from(g, mix_step(g, d, soul, node, key, val, machine)->Next_0),
{
    let state = recorded_state(node, key).as_u64()->Some_0;
    let was = known_state(g, soul, key)->Some_0;
    let vt = text(val);
    let g1 = with_node(g, soul)->Some_0;
    lemma_with_node_grows(g, soul);
    assert(state_of(g1, soul, key) is Some ==> state_of(g1, soul, key)->Some_0 <= state) by {
        if g.get(soul) is None {
            lemma_object_insert_other(g, soul, meta_node(soul), soul);
            lemma_keys();
            lemma_key_pos(
                seq![(soul_key(), JsonView::Str(soul)), (state_key(), empty_object())],
                state_key(),
            );
            lemma_key_pos(
                seq![
                    (
                        meta_key(),
                        JsonView::Object(
                            seq![(soul_key(), JsonView::Str(soul)), (state_key(), empty_object())],
                        ),
                    ),
                ],
                meta_key(),
            );
            lemma_key_pos(Seq::<(Seq<char>, JsonView)>::empty(), key);
        }
    }
    lemma_write_field_grows(g1, soul, key, vt, state);
    lemma_grows_trans(g, g1, mix_step(g, d, soul, node, key, val, machine)->Next_0);
}

proof fn lemma_fields_grow(
    g: JsonView,
    d: JsonView,
    soul: Seq<char>,
    node: JsonView,
    fields: Entries,
    i: int,
    machine: u64,
)
    requires
        mix_fields(g, d, soul, node, fields, i, machine) is Some,
    ensures
        grows_from(g, mix_fields(g, d, soul, node, fields, i, machine)->Some_0.0),
    decreases fields.len() - i,
{
    lemma_grows_refl(g);
    if 0 <= i < fields.len() {
        let st = mix_step(g, d, soul, node, fields[i].0, fields[i].1, machine);
        if let Step::Next(g2, d2) = st {
            lemma_step_grows(g, d, soul, node, fields[i].0, fields[i].1, machine);
            lemma_fields_grow(g2, d2, soul, node, fields, i + 1, machine);
            lemma_grows_trans(g, g2, mix_fields(g2, d2, soul, node, fields, i + 1, machine)->Some_0.0);
        }
    }
}

proof fn lemma_nodes_grow(g: JsonView, d: JsonView, nodes: Entries, i: int, machine: u64)
    requires
        mix_nodes(g, d, nodes, i, machine) is Some,
    ensures
        grows_from(g, mix_nodes(g, d, nodes, i, machine)->Some_0.0),
    decreases nodes.len() - i,
{
    lemma_grows_refl(g);
    if 0 <= i < nodes.len() {
        if let JsonView::Object(fields) = nodes[i].1 {
            let r = mix_fields(g, d, nodes[i].0, nodes[i].1, fields, 0, machine)->Some_0;
            lemma_fields_grow(g, d, nodes[i].0, nodes[i].1, fields, 0, machine);
            lemma_nodes_grow(r.0, r.1, nodes, i + 1, machine);
            lemma_grows_trans(g, r.0, mix_nodes(r.0, r.1, nodes, i + 1, machine)->Some_0.0);
        }
    }
}

/// Merging only adds and raises: every node of the graph, every key of
/// those nodes and every state the graph records stays, and no state goes
/// down.
pub proof fn merge_only_raises_states(change: JsonView, graph: JsonView, machine: u64)
    requires
        spec_mix_ham(change, graph, machine) is Some,
    ensures
        grows_from(graph, spec_mix_ham(change, graph, machine)->Some_0.0),
{
    if let JsonView::Object(nodes) = change {
        lemma_nodes_grow(graph, empty_object(), nodes, 0, machine);
    }
}

// ---------------------------------------------------------------------------
// The difference holds every change
// ---------------------------------------------------------------------------

/// The value and the recorded state of `key` in the node `soul`:
/// `(g[soul][key], g[soul]["_"][">"][key])`, each `None` where absent.
pub open spec fn field_view(g: JsonView, soul: Seq<char>, key: Seq<char>) -> (Option<JsonView>, Option<JsonView>) {
    (g.at(soul).get(key), g.at(soul).at(meta_key()).at(state_key()).get(key))
}

/// `d` is the difference between `g0` and `g`: every field whose value or
/// state differs between them is in `d` with the value and state `g` has
/// for it, and every field `d` has is so in `g`.
pub open spec fn diff_covers(g0: JsonView, g: JsonView, d: JsonView) -> bool {
    &&& forall|s: Seq<char>, k: Seq<char>|
        k != meta_key() && #[trigger] field_view(g, s, k) != field_view(g0, s, k) ==> field_view(d, s, k)
            == field_view(g, s, k)
    &&& forall|s: Seq<char>, k: Seq<char>|
        k != meta_key() && #[trigger] d.at(s).get(k) is Some ==> field_view(d, s, k) == field_view(g, s, k)
}

/// Adding a node skeleton changes no field.
proof fn lemma_with_node_fields(g: JsonView, soul: Seq<char>, s: Seq<char>, k: Seq<char>)
    requires
        with_node(g, soul) is Some,
        k != meta_key(),
    ensures
        field_view(with_node(g, soul)->Some_0, s, k) == field_view(g, s, k),
{
    if g.get(soul) is None {
        lemma_object_insert_other(g, soul, meta_node(soul), s);
        if s == soul {
            lemma_keys();
            let inner = seq![(soul_key(), JsonView::Str(soul)), (state_key(), empty_object())];
            let outer = seq![(meta_key(), JsonView::Object(inner))];
            lemma_key_pos(outer, k);
            lemma_key_pos(outer, meta_key());
            lemma_key_pos(inner, state_key());
            lemma_key_pos(Seq::<(Seq<char>, JsonView)>::empty(), k);
        }
    }
}

/// Writing a field changes no other field.
proof fn lemma_write_field_others(
    g: JsonView,
    soul: Seq<char>,
    key: Seq<char>,
    vt: Seq<char>,
    state: u64,
    s: Seq<char>,
    k: Seq<char>,
)
    requires
        write_field(g, soul, key, vt, state) is Some,
        key != meta_key(),
        k != meta_key(),
        s != soul || k != key,
    ensures
        field_view(write_field(g, soul, key, vt, state)->Some_0, s, k) == field_view(g, s, k),
{
    let pst = JsonView::Number(NumberView::PosInt(state));
    let n = g.at(soul);
    let n2 = n.insert(key, JsonView::Str(vt))->Some_0;
    let meta = n2.get(meta_key())->Some_0;
    let states = meta.get(state_key())->Some_0;
    let states2 = states.insert(key, pst)->Some_0;
    let meta2 = meta.insert(state_key(), states2)->Some_0;
    let n3 = n2.insert(meta_key(), meta2)->Some_0;
    lemma_object_insert_other(g, soul, n3, s);
    if s == soul {
        lemma_object_insert_other(n, key, JsonView::Str(vt), meta_key());
        lemma_object_insert_other(n, key, JsonView::Str(vt), k);
        lemma_object_insert_other(n2, meta_key(), meta2, k);
        lemma_object_insert_other(n2, meta_key(), meta2, meta_key());
        lemma_object_insert_other(meta, state_key(), states2, state_key());
        lemma_object_insert_other(states, key, pst, k);
    }
}

/// A step keeps the difference covering every change since `g0`.
proof fn lemma_step_covers(
    g0: JsonView,
    g: JsonView,
    d: JsonView,
    soul: Seq<char>,
    node: JsonView,
    key: Seq<char>,
    val: JsonView,
    machine: u64,
)
    requires
        diff_covers(g0, g, d),
        mix_step(g, d, soul, node, key, val, machine) is Next,
    ensures
        diff_covers(
            g0,
            mix_step(g, d, soul, node, key, val, machine)->Next_0,
            mix_step(g, d, soul, node, key, val, machine)->Next_1,
        ),
{
    let state = recorded_state(node, key).as_u64()->Some_0;
    let vt = text(val);
    let g1 = with_node(g, soul)->Some_0;
    let d1 = with_node(d, soul)->Some_0;
    let g2 = mix_step(g, d, soul, node, key, val, machine)->Next_0;
    let d2 = mix_step(g, d, soul, node, key, val, machine)->Next_1;
    accepted_field_in_diff(g, d, soul, node, key, val, machine);
    assert forall|s: Seq<char>, k: Seq<char>|
        k != meta_key() && #[trigger] field_view(g2, s, k) != field_view(g0, s, k) implies field_view(
        d2,
        s,
        k,
    ) == field_view(g2, s, k) by {
        if s == soul && k == key {
        } else {
            lemma_with_node_fields(g, soul, s, k);
            lemma_with_node_fields(d, soul, s, k);
            lemma_write_field_others(g1, soul, key, vt, state, s, k);
            lemma_write_field_others(d1, soul, key, vt, state, s, k);
            assert(field_view(g, s, k) != field_view(g0, s, k));
        }
    }
    assert forall|s: Seq<char>, k: Seq<char>|
        k != meta_key() && #[trigger] d2.at(s).get(k) is Some implies field_view(d2, s, k) == field_view(
        g2,
        s,
        k,
    ) by {
        if s == soul && k == key {
        } else {
            lemma_with_node_fields(g, soul, s, k);
            lemma_with_node_fields(d, soul, s, k);
            lemma_write_field_others(g1, soul, key, vt, state, s, k);
            lemma_write_field_others(d1, soul, key, vt, state, s, k);
            assert(d.at(s).get(k) is Some);
        }
    }
}

proof fn lemma_fields_cover(
    g0: JsonView,
    g: JsonView,
    d: JsonView,
    soul: Seq<char>,
    node: JsonView,
    fields: Entries,
    i: int,
    machine: u64,
)
    requires
        diff_covers(g0, g, d),
        mix_fields(g, d, soul, node, fields, i, machine) is Some,
    ensures
        diff_covers(
            g0,
            mix_fields(g, d, soul, node, fields, i, machine)->Some_0.0,
            mix_fields(g, d, soul, node, fields, i, machine)->Some_0.1,
        ),
    decreases fields.len() - i,
{
    if 0 <= i < fields.len() {
        let st = mix_step(g, d, soul, node, fields[i].0, fields[i].1, machine);
        if let Step::Next(g2, d2) = st {
            lemma_step_covers(g0, g, d, soul, node, fields[i].0, fields[i].1, machine);
            lemma_fields_cover(g0, g2, d2, soul, node, fields, i + 1, machine);
        }
    }
}

proof fn lemma_nodes_cover(g0: JsonView, g: JsonView, d: JsonView, nodes: Entries, i: int, machine: u64)
    requires
        diff_covers(g0, g, d),
        mix_nodes(g, d, nodes, i, machine) is Some,
    ensures
        diff_covers(
            g0,
            mix_nodes(g, d, nodes, i, machine)->Some_0.0,
            mix_nodes(g, d, nodes, i, machine)->Some_0.1,
        ),
    decreases nodes.len() - i,
{
    if 0 <= i < nodes.len() {
        if let JsonView::Object(fields) = nodes[i].1 {
            let r = mix_fields(g, d, nodes[i].0, nodes[i].1, fields, 0, machine)->Some_0;
            lemma_fields_cover(g0, g, d, nodes[i].0, nodes[i].1, fields, 0, machine);
            lemma_nodes_cover(g0, r.0, r.1, nodes, i + 1, machine);
        }
    }
}

/// The difference a merge returns is exactly what it changed: each field
/// whose value or state in the merged graph differs from the graph before
/// stands in the difference with the merged value and state, and every
/// field of the difference is so in the merged graph.
pub proof fn merge_diff_holds_every_change(change: JsonView, graph: JsonView, machine: u64)
    requires
        spec_mix_ham(change, graph, machine) is Some,
    ensures
        diff_covers(
            graph,
            spec_mix_ham(change, graph, machine)->Some_0.0,
            spec_mix_ham(change, graph, machine)->Some_0.1,
        ),
{
    if let JsonView::Object(nodes) = change {
        assert(forall|s: Seq<char>, k: Seq<char>| #[trigger] empty_object().at(s).get(k) is None);
        lemma_nodes_cover(graph, graph, empty_object(), nodes, 0, machine);
    }
}

} // verus!
