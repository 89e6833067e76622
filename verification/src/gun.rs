//! Options, the builder, and the handles through which an application reads
//! and writes the graph.
use vstd::prelude::*;

use crate::dedup::{random_soul, soul_of};
use crate::json::{
    Json, JsonView, lemma_insert_sorted_deep, lemma_insert_twice, lemma_key_pos,
    lemma_pair_sorted_deep, lemma_single_sorted_deep, sorted_deep, text,
};
use crate::text::seq_lt;
use crate::plugins::spec_check_put;
use crate::util::{
    get_key, lemma_keys, meta_key, next_state_sorted, owned, put_key, soul_key, spec_next_state, state_key,
    try_next_state, METADATA, SOUL, STATE,
};

verus! {

/// The identifier generator of the default options: it makes empty
/// identifiers.
#[derive(Clone, Copy)]
pub struct EmptyUuid;

impl EmptyUuid {
    pub fn generate(&self) -> (r: String)
        ensures
            r@ == Seq::<char>::empty(),
    {
        String::new()
    }
}

/// How a node is configured. `U` is the identifier generator the
/// application supplies (a `fn() -> String` in practice).
#[derive(Clone, Copy)]
pub struct GunOptions<'a, U = EmptyUuid> {
    pub peers: &'a [&'a str],
    pub radisk: bool,
    pub local_storage: bool,
    pub uuid: U,
    pub port: u16,
}

impl<'a> Default for GunOptions<'a, EmptyUuid> {
    fn default() -> (r: Self)
        ensures
            r.peers@.len() == 0,
            r.radisk,
            r.local_storage,
            r.uuid == EmptyUuid,
            r.port == 8080,
    {
        GunOptions { peers: &[], radisk: true, local_storage: true, uuid: EmptyUuid, port: 8080 }
    }
}

/// A copy of the options, the generator cloned.
fn copy_options<'a, U: Clone>(o: &GunOptions<'a, U>) -> (r: GunOptions<'a, U>)
    ensures
        r.peers == o.peers,
        r.radisk == o.radisk,
        r.local_storage == o.local_storage,
        r.port == o.port,
        cloned(o.uuid, r.uuid),
{
    GunOptions {
        peers: o.peers,
        radisk: o.radisk,
        local_storage: o.local_storage,
        uuid: o.uuid.clone(),
        port: o.port,
    }
}

/// Builds a [`Gun`]: a network plugin `P` and the options.
#[derive(Clone)]
pub struct GunBuilder<'a, P, U = EmptyUuid> {
    pub plugin: P,
    pub options: GunOptions<'a, U>,
}

impl<'a, P: Default> GunBuilder<'a, P, EmptyUuid> {
    /// The default plugin with the default options.
    pub fn new() -> (r: Self)
        ensures
            r.options.peers@.len() == 0,
            r.options.radisk,
            r.options.local_storage,
            r.options.port == 8080,
    {
        GunBuilder { plugin: P::default(), options: GunOptions::default() }
    }
}

impl<'a, P: Default, U> GunBuilder<'a, P, U> {
    /// The default plugin with the given options.
    pub fn new_with_options(options: GunOptions<'a, U>) -> (r: Self)
        ensures
            r.options == options,
    {
        GunBuilder { plugin: P::default(), options }
    }
}

impl<'a, P: Clone, U: Clone> GunBuilder<'a, P, U> {
    /// A copy of this builder with the given peers.
    pub fn peers(&self, peers: &'a [&'a str]) -> (r: Self)
        ensures
            r.options.peers == peers,
            r.options.radisk == self.options.radisk,
            r.options.local_storage == self.options.local_storage,
            r.options.port == self.options.port,
            cloned(self.options.uuid, r.options.uuid),
            cloned(self.plugin, r.plugin),
    {
        let mut options = copy_options(&self.options);
        options.peers = peers;
        GunBuilder { plugin: self.plugin.clone(), options }
    }

    /// A copy of this builder with the given disk setting.
    pub fn radisk(&self, radisk: bool) -> (r: Self)
        ensures
            r.options.peers == self.options.peers,
            r.options.radisk == radisk,
            r.options.local_storage == self.options.local_storage,
            r.options.port == self.options.port,
            cloned(self.options.uuid, r.options.uuid),
            cloned(self.plugin, r.plugin),
    {
        let mut options = copy_options(&self.options);
        options.radisk = radisk;
        GunBuilder { plugin: self.plugin.clone(), options }
    }

    /// A copy of this builder with the given local-storage setting.
    pub fn local_storage(&self, local_storage: bool) -> (r: Self)
        ensures
            r.options.peers == self.options.peers,
            r.options.radisk == self.options.radisk,
            r.options.local_storage == local_storage,
            r.options.port == self.options.port,
            cloned(self.options.uuid, r.options.uuid),
            cloned(self.plugin, r.plugin),
    {
        let mut options = copy_options(&self.options);
        options.local_storage = local_storage;
        GunBuilder { plugin: self.plugin.clone(), options }
    }

    /// A copy of this builder with the given identifier generator.
    pub fn uuid<V>(&self, uuid: V) -> (r: GunBuilder<'a, P, V>)
        ensures
            r.options.peers == self.options.peers,
            r.options.radisk == self.options.radisk,
            r.options.local_storage == self.options.local_storage,
            r.options.port == self.options.port,
            r.options.uuid == uuid,
            cloned(self.plugin, r.plugin),
    {
        let options = GunOptions {
            peers: self.options.peers,
            radisk: self.options.radisk,
            local_storage: self.options.local_storage,
            uuid,
            port: self.options.port,
        };
        GunBuilder { plugin: self.plugin.clone(), options }
    }

    /// A copy of this builder with the given port.
    pub fn port(&self, port: u16) -> (r: Self)
        ensures
            r.options.peers == self.options.peers,
            r.options.radisk == self.options.radisk,
            r.options.local_storage == self.options.local_storage,
            r.options.port == port,
            cloned(self.options.uuid, r.options.uuid),
            cloned(self.plugin, r.plugin),
    {
        let mut options = copy_options(&self.options);
        options.port = port;
        GunBuilder { plugin: self.plugin.clone(), options }
    }

    /// The node this builder describes.
    pub fn build(&self) -> (r: Gun<'a, P, U>)
        ensures
            r.spec_options().peers == self.options.peers,
            r.spec_options().radisk == self.options.radisk,
            r.spec_options().local_storage == self.options.local_storage,
            r.spec_options().port == self.options.port,
            cloned(self.options.uuid, r.spec_options().uuid),
            cloned(self.plugin, r.spec_plugin()),
    {
        Gun { plugin: self.plugin.clone(), options: copy_options(&self.options) }
    }
}

/// A node: its network plugin and its options.
pub struct Gun<'a, P, U = EmptyUuid> {
    plugin: P,
    options: GunOptions<'a, U>,
}

impl<'a, P, U> Gun<'a, P, U> {
    pub closed spec fn spec_plugin(&self) -> P {
        self.plugin
    }

    pub closed spec fn spec_options(&self) -> GunOptions<'a, U> {
        self.options
    }

    /// Replaces the options.
    pub fn opt(&mut self, options: GunOptions<'a, U>)
        ensures
            final(self).spec_options() == options,
            final(self).spec_plugin() == old(self).spec_plugin(),
    {
        self.options = options;
    }

    /// The plugin.
    pub fn plugin(&self) -> (r: &P)
        ensures
            *r == self.spec_plugin(),
    {
        &self.plugin
    }

    /// The options.
    pub fn options(&self) -> (r: &GunOptions<'a, U>)
        ensures
            *r == self.spec_options(),
    {
        &self.options
    }
}

impl<'a, P: Clone, U> Gun<'a, P, U> {
    /// The handle of the node `key`.
    pub fn get(&self, key: &'a str) -> (r: GunGet<'a, P>)
        ensures
            r.spec_key() == key,
            cloned(self.spec_plugin(), r.spec_plugin()),
    {
        GunGet::new(self.plugin.clone(), key)
    }
}

/// A handle on one node of the graph, by its key.
pub struct GunGet<'a, P> {
    plugin: P,
    key: &'a str,
}

impl<'a, P> GunGet<'a, P> {
    pub closed spec fn spec_plugin(&self) -> P {
        self.plugin
    }

    pub closed spec fn spec_key(&self) -> &'a str {
        self.key
    }

    pub fn new(plugin: P, key: &'a str) -> (r: Self)
        ensures
            r.spec_plugin() == plugin,
            r.spec_key() == key,
    {
        GunGet { plugin, key }
    }

    /// The plugin.
    pub fn plugin(&self) -> (r: &P)
        ensures
            *r == self.spec_plugin(),
    {
        &self.plugin
    }

    /// The node's key.
    pub fn key(&self) -> (r: &'a str)
        ensures
            r == self.spec_key(),
    {
        self.key
    }
}

// ---------------------------------------------------------------------------
// Requests
// ---------------------------------------------------------------------------

/// `{"#": soul, "get": {"#": key}}`: a request for the node `key`.
pub open spec fn get_request(soul: Seq<char>, key: Seq<char>) -> JsonView {
    JsonView::Object(
        seq![
            (soul_key(), JsonView::Str(soul)),
            (get_key(), JsonView::Object(seq![(soul_key(), JsonView::Str(key))])),
        ],
    )
}

/// `{"#": soul, "put": {key: data}}`: a write of `data` to the node `key`.
pub open spec fn put_request(soul: Seq<char>, key: Seq<char>, data: JsonView) -> JsonView {
    JsonView::Object(
        seq![(soul_key(), JsonView::Str(soul)), (put_key(), JsonView::Object(seq![(key, data)]))],
    )
}

/// `data` with its metadata set: `data["_"] = {"#": key, ">": states}`.
pub open spec fn with_metadata(key: Seq<char>, data: JsonView, states: JsonView) -> Option<JsonView> {
    data.assign(
        meta_key(),
        JsonView::Object(seq![(soul_key(), JsonView::Str(key)), (state_key(), states)]),
    )
}

/// The text of a write of `data` to the node `key` against the graph
/// `graph`, with message identifier `soul`; `None` when `data` cannot be written
/// (it is no object, or its states cannot be drawn).
pub open spec fn spec_put_message(soul: Seq<char>, key: Seq<char>, data: JsonView, graph: JsonView) -> Option<Seq<char>> {
    match spec_next_state(key, data, graph) {
        None => None,
        Some(states) => match with_metadata(key, data, states) {
            None => None,
            Some(d2) => Some(text(put_request(soul, key, d2))),
        },
    }
}

/// A write message built from data whose objects have their keys in order
/// has its keys in order too.
pub proof fn put_request_sorted(soul: Seq<char>, key: Seq<char>, data: JsonView, states: JsonView)
    requires
        sorted_deep(data),
        sorted_deep(states),
        with_metadata(key, data, states) is Some,
    ensures
        sorted_deep(put_request(soul, key, with_metadata(key, data, states)->Some_0)),
{
    let meta = JsonView::Object(seq![(soul_key(), JsonView::Str(key)), (state_key(), states)]);
    assert(seq_lt(soul_key(), state_key()));
    assert(seq_lt(soul_key(), put_key()));
    lemma_pair_sorted_deep(soul_key(), JsonView::Str(key), state_key(), states);
    let d2 = with_metadata(key, data, states)->Some_0;
    match data {
        JsonView::Object(es) => {
            lemma_insert_sorted_deep(es, meta_key(), meta);
        },
        _ => {
            lemma_single_sorted_deep(meta_key(), meta);
        },
    }
    lemma_single_sorted_deep(key, d2);
    lemma_pair_sorted_deep(
        soul_key(),
        JsonView::Str(soul),
        put_key(),
        JsonView::Object(seq![(key, d2)]),
    );
}

fn pair(k1: String, v1: Json, k2: String, v2: Json) -> (r: Json)
    ensures
        r@ == JsonView::Object(seq![(k1@, v1@), (k2@, v2@)]),
{
    let ghost e = seq![(k1@, v1@), (k2@, v2@)];
    let entries: Vec<(String, Json)> = vec![(k1, v1), (k2, v2)];
    proof {
        crate::json::lemma_object_view(entries@);
        assert(crate::json::entries_view(entries@, entries@.len()) =~= e);
    }
    Json::Object(entries)
}

fn one(k: String, v: Json) -> (r: Json)
    ensures
        r@ == JsonView::Object(seq![(k@, v@)]),
{
    let ghost e = seq![(k@, v@)];
    let entries: Vec<(String, Json)> = vec![(k, v)];
    proof {
        crate::json::lemma_object_view(entries@);
        assert(crate::json::entries_view(entries@, entries@.len()) =~= e);
    }
    Json::Object(entries)
}

/// The text of a request for the node `key`, with identifier `soul`.
pub fn get_message_with_soul(key: &str, soul: String) -> (r: String)
    ensures
        r@ == text(get_request(soul@, key@)),
{
    proof {
        lemma_keys();
    }
    let inner = one(owned(SOUL), Json::Str(owned(key)));
    let msg = pair(owned(SOUL), Json::Str(soul), owned("get"), inner);
    msg.to_text()
}

/// The text of a request for the node `key`, with a fresh random identifier.
pub fn get_message(key: &str) -> (r: String)
    ensures
        exists|n: nat| 1296 <= n < 46656 && r@ == text(get_request(soul_of(n), key@)),
{
    let soul = random_soul();
    get_message_with_soul(key, soul)
}

/// The text of a write of `data` to the node `key`, with identifier `soul`,
/// the states drawn from `graph`; `None` when `data` cannot be written.
pub fn put_message_with_soul(key: &str, data: Json, graph: &Json, soul: String) -> (r: Option<String>)
    ensures
        match r {
            Some(t) => spec_put_message(soul@, key@, data@, graph@) == Some(t@),
            None => spec_put_message(soul@, key@, data@, graph@) is None,
        },
        r is Some && sorted_deep(data@) ==> sorted_deep(
            put_request(
                soul@,
                key@,
                with_metadata(key@, data@, spec_next_state(key@, data@, graph@)->Some_0)->Some_0,
            ),
        ),
{
    proof {
        lemma_keys();
        if spec_next_state(key@, data@, graph@) is Some {
            next_state_sorted(key@, data@, graph@);
            let st = spec_next_state(key@, data@, graph@)->Some_0;
            if sorted_deep(data@) && with_metadata(key@, data@, st) is Some {
                put_request_sorted(soul@, key@, data@, st);
            }
        }
    }
    let states = match try_next_state(key, &data, graph) {
        Some(st) => st,
        None => return None,
    };
    let mut data = data;
    let meta = pair(owned(SOUL), Json::Str(owned(key)), owned(STATE), states);
    if !data.assign(owned(METADATA), meta) {
        return None;
    }
    let msg = pair(owned(SOUL), Json::Str(soul), owned("put"), one(owned(key), data));
    Some(msg.to_text())
}

/// The text of a write of `data` to the node `key`, with a fresh random
/// identifier; `None` when `data` cannot be written.
pub fn put_message(key: &str, data: Json, graph: &Json) -> (r: Option<String>)
    ensures
        exists|n: nat|
            1296 <= n < 46656 && match r {
                Some(t) => spec_put_message(soul_of(n), key@, data@, graph@) == Some(t@),
                None => spec_put_message(soul_of(n), key@, data@, graph@) is None,
            },
{
    let soul = random_soul();
    put_message_with_soul(key, data, graph, soul)
}

/// What is written is read back: the data a write message carries for its
/// node, as [`crate::plugins::check_put`] reads it, is the written object
/// with its metadata blanked.
pub proof fn put_then_check(soul: Seq<char>, key: Seq<char>, data: JsonView, states: JsonView)
    requires
        data.is_object(),
    ensures
        spec_check_put(put_request(soul, key, with_metadata(key, data, states)->Some_0), key)
            == data.assign(meta_key(), JsonView::Null),
{
    let meta = JsonView::Object(seq![(soul_key(), JsonView::Str(key)), (state_key(), states)]);
    let d2 = with_metadata(key, data, states)->Some_0;
    let req = put_request(soul, key, d2);
    let res = seq![(soul_key(), JsonView::Str(soul)), (put_key(), JsonView::Object(seq![(key, d2)]))];
    assert(soul_key() != put_key()) by {
        assert(soul_key()[0] != put_key()[0]);
    }
    lemma_key_pos(res, put_key());
    lemma_key_pos(seq![(key, d2)], key);
    assert(req.at(put_key()).at(key) == d2);
    if let JsonView::Object(es) = data {
        lemma_insert_twice(es, meta_key(), meta, JsonView::Null);
    }
}

// ---------------------------------------------------------------------------
// Waiting for an answer
// ---------------------------------------------------------------------------

/// How long, in milliseconds, a request waits for its answer before it is
/// sent again.
pub const RETRY_MS: u64 = 10000;

/// What a one-time read does next.
pub enum OnceAction {
    /// Data for the node arrived: hand it to the caller, and stop.
    Deliver,
    /// No answer for more than [`RETRY_MS`]: send the request again.
    AskAgain,
    /// Keep waiting.
    Wait,
}

/// The decision of a one-time read, given whether data for the node has
/// arrived and how long (ms) since the request was last sent.
pub fn once_step(answered: bool, elapsed_ms: u64) -> (r: OnceAction)
    ensures
        answered ==> r is Deliver,
        !answered && elapsed_ms > RETRY_MS ==> r is AskAgain,
        !answered && elapsed_ms <= RETRY_MS ==> r is Wait,
{
    if answered {
        OnceAction::Deliver
    } else if elapsed_ms > RETRY_MS {
        OnceAction::AskAgain
    } else {
        OnceAction::Wait
    }
}

} // verus!
