//! What a network plugin decides: the state a peer keeps, how it handles an
//! incoming message, what it answers, and how it reads a peer's address.
//! The sockets themselves are the application's.
use vstd::prelude::*;

use crate::dedup::{Dedup, random_soul, soul_of};
use crate::ham::{spec_mix_ham, try_mix_ham};
use crate::json::{Json, JsonView, empty_object, text};
use crate::text::{replace_all, seq_contains, str_contains, str_replace};
use crate::util::{
    ack_key, get_key, lemma_keys, lex_from_graph, meta_key, owned, put_key, soul_key,
    spec_lex_from_graph, GunError, ACK, SOUL,
};

verus! {

/// A plugin that does nothing.
pub struct DummyPlugin {}

impl DummyPlugin {
    pub fn new() -> Self {
        Self {}
    }
}

/// The plain websockets plugin.
pub struct Websockets {}

impl Websockets {
    pub fn new() -> Self {
        Self {}
    }
}

/// The browser websockets plugin.
pub struct WebsocketsWASM {}

impl WebsocketsWASM {
    pub fn new() -> Self {
        Self {}
    }
}

/// What a peer keeps between messages: the identifiers seen, the graph, and
/// the last message received.
pub struct Store {
    pub dedup: Dedup,
    pub graph: Json,
    pub last_msg: Option<String>,
}

/// The content of a [`Store`].
pub struct StoreView {
    pub timeline: Map<Seq<char>, u64>,
    pub timeout: bool,
    pub graph: JsonView,
    pub last_msg: Option<Seq<char>>,
}

pub open spec fn opt_string_view(s: Option<String>) -> Option<Seq<char>> {
    match s {
        Some(t) => Some(t@),
        None => None,
    }
}

impl View for Store {
    type V = StoreView;

    open spec fn view(&self) -> StoreView {
        StoreView {
            timeline: self.dedup@.timeline,
            timeout: self.dedup@.timeout,
            graph: self.graph@,
            last_msg: opt_string_view(self.last_msg),
        }
    }
}

impl Store {
    /// Nothing seen, an empty graph, no message yet.
    pub fn new() -> (r: Self)
        ensures
            r@.timeline == crate::dedup::no_entries(),
            !r@.timeout,
            r@.graph == empty_object(),
            r@.last_msg is None,
    {
        Store { dedup: Dedup::new(), graph: Json::new_object(), last_msg: None }
    }
}

/// Why a message cannot be handled.
pub enum MessageFault {
    /// The message's identifier is not a string.
    SoulNotString,
    /// The message's write cannot be merged into the graph.
    UnmergeablePut,
}

/// `{"#": ack_soul, "@": msg_soul, "put": ack}`: the answer to a request.
pub open spec fn ack_message(ack_soul: Seq<char>, msg_soul: JsonView, ack: JsonView) -> JsonView {
    JsonView::Object(
        seq![(soul_key(), JsonView::Str(ack_soul)), (ack_key(), msg_soul), (put_key(), ack)],
    )
}

/// The outcome of handling a message: the new store, the messages to send
/// to every peer (in order), and why the message cannot be handled, if it cannot.
pub struct Handled {
    pub store: StoreView,
    pub emits: Seq<Seq<char>>,
    pub fault: Option<MessageFault>,
}

/// Handling the message `msg_str` (parsed as `msg`, `None` when it is no
/// JSON) at time `now`, answering with identifier `ack_soul`.
///
/// The message is remembered as the last one. A message seen before is only
/// seen again. A new one is merged into the graph when it writes (`"put"`),
/// answered when it asks (`"get"`) and the graph has the answer, and passed on
/// to the peers.
pub open spec fn spec_handle_message(
    st: StoreView,
    msg_str: Seq<char>,
    msg: Option<JsonView>,
    now: u64,
    ack_soul: Seq<char>,
) -> Handled {
    let st0 = StoreView { last_msg: Some(msg_str), ..st };
    match msg {
        None => Handled { store: st0, emits: seq![], fault: None },
        Some(m) => match m.at(soul_key()).as_str() {
            None => Handled { store: st0, emits: seq![], fault: Some(MessageFault::SoulNotString) },
            Some(soul) => {
                let st1 = StoreView { timeline: st0.timeline.insert(soul, now), timeout: true, ..st0 };
                if st.timeline.contains_key(soul) {
                    Handled { store: st1, emits: seq![], fault: None }
                } else {
                    let put = m.at(put_key());
                    let merged = if put.is_null() {
                        Some(st1.graph)
                    } else {
                        match spec_mix_ham(put, st1.graph, now) {
                            Some((g, _)) => Some(g),
                            None => None,
                        }
                    };
                    match merged {
                        None => Handled {
                            store: st1,
                            emits: seq![],
                            fault: Some(MessageFault::UnmergeablePut),
                        },
                        Some(g) => {
                            let st2 = StoreView { graph: g, ..st1 };
                            let get = m.at(get_key());
                            match spec_lex_from_graph(get, g) {
                                Ok(ack) if !get.is_null() => Handled {
                                    store: StoreView {
                                        timeline: st2.timeline.insert(ack_soul, now),
                                        ..st2
                                    },
                                    emits: seq![
                                        text(ack_message(ack_soul, m.at(soul_key()), ack)),
                                        msg_str,
                                    ],
                                    fault: None,
                                },
                                _ => Handled { store: st2, emits: seq![msg_str], fault: None },
                            }
                        },
                    }
                }
            },
        },
    }
}

pub open spec fn strings_view(v: Seq<String>) -> Seq<Seq<char>> {
    v.map_values(|s: String| s@)
}

fn triple(k1: String, v1: Json, k2: String, v2: Json, k3: String, v3: Json) -> (r: Json)
    ensures
        r@ == JsonView::Object(seq![(k1@, v1@), (k2@, v2@), (k3@, v3@)]),
{
    let ghost e = seq![(k1@, v1@), (k2@, v2@), (k3@, v3@)];
    let entries: Vec<(String, Json)> = vec![(k1, v1), (k2, v2), (k3, v3)];
    proof {
        crate::json::lemma_object_view(entries@);
        assert(crate::json::entries_view(entries@, entries@.len()) =~= e);
    }
    Json::Object(entries)
}

/// Handles the message `msg_str`, parsed as `msg`, at time `now`; an answer
/// gets the identifier `ack_soul`. Returns the messages to send to every
/// peer, or why the message cannot be handled.
pub fn handle_message_with_soul(
    store: &mut Store,
    msg_str: String,
    msg: Option<Json>,
    now: u64,
    ack_soul: String,
) -> (r: Result<Vec<String>, MessageFault>)
    ensures
        ({
            let h = spec_handle_message(
                old(store)@,
                msg_str@,
                match msg {
                    Some(m) => Some(m@),
                    None => None,
                },
                now,
                ack_soul@,
            );
            &&& final(store)@ == h.store
            &&& match r {
                Ok(v) => h.fault is None && strings_view(v@) == h.emits,
                Err(e) => h.fault == Some(e),
            }
        }),
{
    proof {
        lemma_keys();
    }
    let ghost st = store@;
    let ghost ms = msg_str@;
    store.last_msg = Some(msg_str.clone());
    let m = match msg {
        Some(m) => m,
        None => {
            let v: Vec<String> = Vec::new();
            assert(strings_view(v@) =~= Seq::<Seq<char>>::empty());
            return Ok(v);
        },
    };
    let soul = match m.get(SOUL) {
        Some(s) => match s.as_str() {
            Some(soul) => soul,
            None => return Err(MessageFault::SoulNotString),
        },
        None => return Err(MessageFault::SoulNotString),
    };
    let mut emits: Vec<String> = Vec::new();
    if store.dedup.check(owned(soul), now).is_some() {
        assert(strings_view(emits@) =~= Seq::<Seq<char>>::empty());
        return Ok(emits);
    }
    store.dedup.track(owned(soul), now);
    match m.get("put") {
        Some(put) => {
            if !put.is_null() {
                match try_mix_ham(put, &store.graph, now) {
                    Some((g, _diff)) => {
                        store.graph = g;
                    },
                    None => return Err(MessageFault::UnmergeablePut),
                }
            }
        },
        None => {},
    }
    match m.get("get") {
        Some(get) => {
            if !get.is_null() {
                match lex_from_graph(get.deep_copy(), &store.graph) {
                    Ok(ack) => {
                        let ack_id = store.dedup.track(ack_soul, now);
                        let msg_soul = match m.get(SOUL) {
                            Some(x) => x.deep_copy(),
                            None => Json::Null,
                        };
                        let data = triple(
                            owned(SOUL),
                            Json::Str(ack_id),
                            owned(ACK),
                            msg_soul,
                            owned("put"),
                            ack,
                        );
                        emits.push(data.to_text());
                    },
                    Err(_) => {},
                }
            }
        },
        None => {},
    }
    emits.push(msg_str);
    assert(strings_view(emits@) =~= spec_handle_message(
        st,
        ms,
        Some(m@),
        now,
        ack_soul@,
    ).emits);
    Ok(emits)
}

/// Handles the message `msg_str`, parsed as `msg`, at time `now`, answering
/// under a fresh random identifier.
pub fn handle_message(store: &mut Store, msg_str: String, msg: Option<Json>, now: u64) -> (r: Result<
    Vec<String>,
    MessageFault,
>)
    ensures
        exists|n: nat|
            #![trigger soul_of(n)]
            1296 <= n < 46656 && {
                let h = spec_handle_message(
                    old(store)@,
                    msg_str@,
                    match msg {
                        Some(m) => Some(m@),
                        None => None,
                    },
                    now,
                    soul_of(n),
                );
                &&& final(store)@ == h.store
                &&& match r {
                    Ok(v) => h.fault is None && strings_view(v@) == h.emits,
                    Err(e) => h.fault == Some(e),
                }
            },
{
    let ack_soul = random_soul();
    handle_message_with_soul(store, msg_str, msg, now, ack_soul)
}

/// Whether a sweep of old identifiers must be scheduled after a message:
/// none was pending before it (`pending_before`) and one is now.
pub fn sweep_to_schedule(pending_before: bool, store: &Store) -> (r: bool)
    ensures
        r == (!pending_before && store.dedup@.timeout),
{
    !pending_before && store.dedup.sweep_pending()
}

/// Receiving the message `msg_str` (parsed as `msg`) at time `now` without
/// answering or passing it on: remembered as the last message; a message
/// without a string identifier is ignored; a new one is merged into the
/// graph when it writes. The result says why it cannot be received, if it
/// cannot.
pub open spec fn spec_receive_message(
    st: StoreView,
    msg_str: Seq<char>,
    msg: Option<JsonView>,
    now: u64,
) -> (StoreView, Option<MessageFault>) {
    let st0 = StoreView { last_msg: Some(msg_str), ..st };
    match msg {
        None => (st0, None),
        Some(m) => match m.at(soul_key()).as_str() {
            None => (st0, None),
            Some(soul) => {
                let st1 = StoreView { timeline: st0.timeline.insert(soul, now), timeout: true, ..st0 };
                if st.timeline.contains_key(soul) {
                    (st1, None)
                } else {
                    let put = m.at(put_key());
                    if put.is_null() {
                        (st1, None)
                    } else {
                        match spec_mix_ham(put, st1.graph, now) {
                            Some((g, _)) => (StoreView { graph: g, ..st1 }, None),
                            None => (st1, Some(MessageFault::UnmergeablePut)),
                        }
                    }
                }
            },
        },
    }
}

/// Receives the message `msg_str`, parsed as `msg`, at time `now`, as the
/// browser plugin does: nothing is sent.
pub fn receive_message(store: &mut Store, msg_str: String, msg: Option<Json>, now: u64) -> (r: Result<
    (),
    MessageFault,
>)
    ensures
        ({
            let (st, fault) = spec_receive_message(
                old(store)@,
                msg_str@,
                match msg {
                    Some(m) => Some(m@),
                    None => None,
                },
                now,
            );
            &&& final(store)@ == st
            &&& match r {
                Ok(()) => fault is None,
                Err(e) => fault == Some(e),
            }
        }),
{
    proof {
        lemma_keys();
    }
    store.last_msg = Some(msg_str);
    let m = match msg {
        Some(m) => m,
        None => return Ok(()),
    };
    let soul = match m.get(SOUL) {
        Some(s) => match s.as_str() {
            Some(soul) => soul,
            None => return Ok(()),
        },
        None => return Ok(()),
    };
    if store.dedup.check(owned(soul), now).is_some() {
        return Ok(());
    }
    store.dedup.track(owned(soul), now);
    match m.get("put") {
        Some(put) => {
            if !put.is_null() {
                match try_mix_ham(put, &store.graph, now) {
                    Some((g, _diff)) => {
                        store.graph = g;
                    },
                    None => return Err(MessageFault::UnmergeablePut),
                }
            }
        },
        None => {},
    }
    Ok(())
}

/// A message is handled once: another message with the same identifier
/// (the same one received again, from any peer) is passed on to nobody,
/// answered by nobody, and leaves the graph alone.
pub proof fn message_handled_once(
    st: StoreView,
    msg_str: Seq<char>,
    m: JsonView,
    now: u64,
    ack_soul: Seq<char>,
    msg_str2: Seq<char>,
    m2: JsonView,
    now2: u64,
    ack_soul2: Seq<char>,
)
    requires
        m.at(soul_key()).as_str() is Some,
        m2.at(soul_key()) == m.at(soul_key()),
        spec_handle_message(st, msg_str, Some(m), now, ack_soul).fault is None,
    ensures
        ({
            let h1 = spec_handle_message(st, msg_str, Some(m), now, ack_soul);
            let h2 = spec_handle_message(h1.store, msg_str2, Some(m2), now2, ack_soul2);
            &&& h2.emits == Seq::<Seq<char>>::empty()
            &&& h2.fault is None
            &&& h2.store.graph == h1.store.graph
        }),
{
}

// ---------------------------------------------------------------------------
// Reading the last message
// ---------------------------------------------------------------------------

/// What a message writes to the node `key`: `msg["put"][key]`.
pub open spec fn put_value(msg: JsonView, key: Seq<char>) -> JsonView {
    msg.at(put_key()).at(key)
}

/// Whether [`check_put`] can read `msg` for `key`: what it writes there is
/// `null` or an object (no other value can have its metadata blanked).
pub open spec fn put_readable(msg: JsonView, key: Seq<char>) -> bool {
    put_value(msg, key).is_null() || put_value(msg, key).is_object()
}

/// The data a message writes to the node `key`, its metadata blanked
/// (`"_": null`); `None` when it writes nothing there.
pub open spec fn spec_check_put(msg: JsonView, key: Seq<char>) -> Option<JsonView> {
    let v = put_value(msg, key);
    if v.is_null() {
        None
    } else {
        v.assign(meta_key(), JsonView::Null)
    }
}

/// The data the message `msg` writes to the node `key`, without its
/// metadata; `None` when it writes nothing there.
pub fn check_put(msg: &Json, key: &str) -> (r: Option<Json>)
    requires
        put_readable(msg@, key@),
    ensures
        match r {
            Some(v) => spec_check_put(msg@, key@) == Some(v@),
            None => spec_check_put(msg@, key@) is None,
        },
{
    proof {
        lemma_keys();
    }
    let v = match msg.get("put") {
        Some(p) => match p.get(key) {
            Some(v) => v,
            None => return None,
        },
        None => return None,
    };
    if v.is_null() {
        return None;
    }
    let mut data = v.deep_copy();
    data.assign(owned(crate::util::METADATA), Json::Null);
    Some(data)
}

// ---------------------------------------------------------------------------
// Peer addresses
// ---------------------------------------------------------------------------

pub open spec fn https() -> Seq<char> {
    seq!['h', 't', 't', 'p', 's']
}

pub open spec fn http() -> Seq<char> {
    seq!['h', 't', 't', 'p']
}

pub open spec fn ws() -> Seq<char> {
    seq!['w', 's']
}

pub open spec fn wss() -> Seq<char> {
    seq!['w', 's', 's']
}

/// The websocket address the native plugin uses for a peer's address.
///
/// Both branches replace `https` with `ws`, so an address with `http` but
/// no `https` comes back unchanged.
pub open spec fn spec_replace_http(url: Seq<char>) -> Seq<char> {
    if seq_contains(url, https()) {
        replace_all(url, https(), ws())
    } else if seq_contains(url, http()) {
        replace_all(url, https(), ws())
    } else {
        url
    }
}

/// The websocket address the browser plugin uses for a peer's address:
/// `https` and otherwise `http` become `wss`.
pub open spec fn spec_replace_http_secure(url: Seq<char>) -> Seq<char> {
    if seq_contains(url, https()) {
        replace_all(url, https(), wss())
    } else if seq_contains(url, http()) {
        replace_all(url, http(), wss())
    } else {
        url
    }
}

proof fn lemma_scheme_literals()
    ensures
        "https"@ == https(),
        "http"@ == http(),
        "ws"@ == ws(),
        "wss"@ == wss(),
{
    reveal_strlit("https");
    reveal_strlit("http");
    reveal_strlit("ws");
    reveal_strlit("wss");
}

/// The websocket address the native plugin uses for a peer's address.
pub fn replace_http(url: &str) -> (r: String)
    ensures
        r@ == spec_replace_http(url@),
{
    proof {
        lemma_scheme_literals();
    }
    if str_contains(url, "https") {
        str_replace(url, "https", "ws")
    } else if str_contains(url, "http") {
        str_replace(url, "https", "ws")
    } else {
        owned(url)
    }
}

/// The websocket address the browser plugin uses for a peer's address.
pub fn replace_http_secure(url: &str) -> (r: String)
    ensures
        r@ == spec_replace_http_secure(url@),
{
    proof {
        lemma_scheme_literals();
    }
    if str_contains(url, "https") {
        str_replace(url, "https", "wss")
    } else if str_contains(url, "http") {
        str_replace(url, "http", "wss")
    } else {
        owned(url)
    }
}

/// What `url::Url::parse` makes of `s`: the serialization of the URL, or
/// the description of the parse error (its `Display` text).
pub uninterp spec fn url_parse(s: Seq<char>) -> Result<Seq<char>, Seq<char>>;

/// `url::Url::parse`, the URL given back by its serialization
/// (`Url::as_str`), or the error's text (`ParseError`'s `to_string`). The
/// parsing and normalising rules (WHATWG URL) are the crate's and are named,
/// not restated.
#[verifier::external_body]
fn parse_url(s: &str) -> (r: Result<String, String>)
    ensures
        match r {
            Ok(u) => url_parse(s@) == Ok::<Seq<char>, Seq<char>>(u@),
            Err(e) => url_parse(s@) == Err::<Seq<char>, Seq<char>>(e@),
        },
{
    match url::Url::parse(s) {
        Ok(u) => Ok(u.as_str().to_owned()),
        Err(e) => Err(e.to_string()),
    }
}

/// The URL the native plugin connects to for the peer `peer`; an error,
/// with the parser's description, when its websocket address is no URL.
pub fn peer_url(peer: &str) -> (r: Result<String, GunError>)
    ensures
        match r {
            Ok(u) => url_parse(spec_replace_http(peer@)) == Ok::<Seq<char>, Seq<char>>(u@),
            Err(e) => url_parse(spec_replace_http(peer@)) is Err && e@
                == crate::util::GunErrorView::InvalidUrl(url_parse(spec_replace_http(peer@))->Err_0),
        },
{
    let url = replace_http(peer);
    match parse_url(url.as_str()) {
        Ok(u) => Ok(u),
        Err(why) => Err(GunError::InvalidUrl(why)),
    }
}

} // verus!
