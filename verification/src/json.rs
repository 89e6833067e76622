//! JSON values as the graph, the messages and the queries of the library hold
//! them, with the operations that the logic reads them by.
//!
//! An object keeps its entries in a vector. JSON text parsed from the wire
//! gives them in increasing key order (as `serde_json`'s default map does), and
//! the insertion below keeps that order: a new key goes before the first key
//! that is greater than it. Lookups find the first entry with the key.
use vstd::prelude::*;

use crate::text::{
    decimal, digit_char, lemma_seq_lt_transitive, lemma_seq_lt_trichotomy, push_char, push_decimal, seq_lt,
    str_eq, str_lt, chars_of,
};

verus! {

/// A JSON number: an integer that fits `u64`, a negative one that fits `i64`,
/// or a floating-point number held by its decimal text.
pub enum JsonNumber {
    PosInt(u64),
    NegInt(i64),
    Float(String),
}

/// A JSON value.
pub enum Json {
    Null,
    Bool(bool),
    Number(JsonNumber),
    Str(String),
    Array(Vec<Json>),
    Object(Vec<(String, Json)>),
}

/// The mathematical content of a [`JsonNumber`].
pub enum NumberView {
    PosInt(u64),
    NegInt(i64),
    Float(Seq<char>),
}

/// The mathematical content of a [`Json`] value.
pub enum JsonView {
    Null,
    Bool(bool),
    Number(NumberView),
    Str(Seq<char>),
    Array(Seq<JsonView>),
    Object(Seq<(Seq<char>, JsonView)>),
}

/// Entries of an object, as sequence of key and value.
pub type Entries = Seq<(Seq<char>, JsonView)>;

pub open spec fn number_view(n: JsonNumber) -> NumberView {
    match n {
        JsonNumber::PosInt(u) => NumberView::PosInt(u),
        JsonNumber::NegInt(i) => NumberView::NegInt(i),
        JsonNumber::Float(s) => NumberView::Float(s@),
    }
}

pub open spec fn json_view(j: Json) -> JsonView
    decreases j, 0nat,
{
    match j {
        Json::Null => JsonView::Null,
        Json::Bool(b) => JsonView::Bool(b),
        Json::Number(n) => JsonView::Number(number_view(n)),
        Json::Str(s) => JsonView::Str(s@),
        Json::Array(v) => JsonView::Array(items_view(v@, v@.len())),
        Json::Object(v) => JsonView::Object(entries_view(v@, v@.len())),
    }
}

pub open spec fn items_view(s: Seq<Json>, n: nat) -> Seq<JsonView>
    decreases s, n,
{
    if n == 0 || n > s.len() {
        Seq::empty()
    } else {
        items_view(s, (n - 1) as nat).push(json_view(s[n - 1]))
    }
}

pub open spec fn entries_view(s: Seq<(String, Json)>, n: nat) -> Entries
    decreases s, n,
{
    if n == 0 || n > s.len() {
        Seq::empty()
    } else {
        entries_view(s, (n - 1) as nat).push((s[n - 1].0@, json_view(s[n - 1].1)))
    }
}

impl View for Json {
    type V = JsonView;

    open spec fn view(&self) -> JsonView {
        json_view(*self)
    }
}

pub proof fn lemma_items_view(s: Seq<Json>, n: nat)
    requires
        n <= s.len(),
    ensures
        items_view(s, n).len() == n,
        forall|i: int| 0 <= i < n ==> #[trigger] items_view(s, n)[i] == json_view(s[i]),
    decreases n,
{
    if n > 0 {
        lemma_items_view(s, (n - 1) as nat);
    }
}

pub proof fn lemma_entries_view(s: Seq<(String, Json)>, n: nat)
    requires
        n <= s.len(),
    ensures
        entries_view(s, n).len() == n,
        forall|i: int|
            0 <= i < n ==> #[trigger] entries_view(s, n)[i] == (s[i].0@, json_view(s[i].1)),
    decreases n,
{
    if n > 0 {
        lemma_entries_view(s, (n - 1) as nat);
    }
}

/// The entries of `s` viewed one by one.
pub proof fn lemma_object_view(s: Seq<(String, Json)>)
    ensures
        entries_view(s, s.len()).len() == s.len(),
        forall|i: int|
            0 <= i < s.len() ==> #[trigger] entries_view(s, s.len())[i] == (
                s[i].0@,
                json_view(s[i].1),
            ),
{
    lemma_entries_view(s, s.len());
}

pub proof fn lemma_array_view(s: Seq<Json>)
    ensures
        items_view(s, s.len()).len() == s.len(),
        forall|i: int| 0 <= i < s.len() ==> #[trigger] items_view(s, s.len())[i] == json_view(s[i]),
{
    lemma_items_view(s, s.len());
}

// ---------------------------------------------------------------------------
// Reading and writing objects
// ---------------------------------------------------------------------------

/// Index of the first entry among the first `n` whose key is `k`, or -1.
pub open spec fn find_key(es: Entries, k: Seq<char>, n: int) -> int
    decreases n,
{
    if n <= 0 {
        -1
    } else {
        let p = find_key(es, k, n - 1);
        if p >= 0 {
            p
        } else if es[n - 1].0 == k {
            n - 1
        } else {
            -1
        }
    }
}

/// Index of the first entry whose key is `k`, or -1.
pub open spec fn key_pos(es: Entries, k: Seq<char>) -> int {
    find_key(es, k, es.len() as int)
}

/// Index of the first entry among the first `n` whose key is greater than `k`, or -1.
pub open spec fn find_greater(es: Entries, k: Seq<char>, n: int) -> int
    decreases n,
{
    if n <= 0 {
        -1
    } else {
        let p = find_greater(es, k, n - 1);
        if p >= 0 {
            p
        } else if seq_lt(k, es[n - 1].0) {
            n - 1
        } else {
            -1
        }
    }
}

/// Where a new key `k` goes: before the first greater key, else at the end.
pub open spec fn insert_pos(es: Entries, k: Seq<char>) -> int {
    let p = find_greater(es, k, es.len() as int);
    if p >= 0 {
        p
    } else {
        es.len() as int
    }
}

/// The entries after `k` is given the value `v`: an existing entry keeps its
/// place, a new one goes in key order.
pub open spec fn entries_insert(es: Entries, k: Seq<char>, v: JsonView) -> Entries {
    let p = key_pos(es, k);
    if p >= 0 {
        es.update(p, (k, v))
    } else {
        es.insert(insert_pos(es, k), (k, v))
    }
}

pub proof fn lemma_find_key(es: Entries, k: Seq<char>, n: int)
    requires
        0 <= n <= es.len(),
    ensures
        -1 <= find_key(es, k, n) < n,
        find_key(es, k, n) >= 0 ==> es[find_key(es, k, n)].0 == k,
        forall|j: int|
            0 <= j < n && (find_key(es, k, n) < 0 || j < find_key(es, k, n)) ==> es[j].0 != k,
    decreases n,
{
    if n > 0 {
        lemma_find_key(es, k, n - 1);
    }
}

pub proof fn lemma_find_greater(es: Entries, k: Seq<char>, n: int)
    requires
        0 <= n <= es.len(),
    ensures
        -1 <= find_greater(es, k, n) < n,
        find_greater(es, k, n) >= 0 ==> seq_lt(k, es[find_greater(es, k, n)].0),
        forall|j: int|
            0 <= j < n && (find_greater(es, k, n) < 0 || j < find_greater(es, k, n))
                ==> !seq_lt(k, es[j].0),
    decreases n,
{
    if n > 0 {
        lemma_find_greater(es, k, n - 1);
    }
}

/// What `key_pos` is, stated by its properties.
pub proof fn lemma_key_pos(es: Entries, k: Seq<char>)
    ensures
        -1 <= key_pos(es, k) < es.len(),
        key_pos(es, k) >= 0 ==> es[key_pos(es, k)].0 == k,
        forall|j: int|
            0 <= j < es.len() && (key_pos(es, k) < 0 || j < key_pos(es, k)) ==> es[j].0 != k,
{
    lemma_find_key(es, k, es.len() as int);
}

/// What `insert_pos` is, stated by its properties.
pub proof fn lemma_insert_pos(es: Entries, k: Seq<char>)
    ensures
        0 <= insert_pos(es, k) <= es.len(),
        insert_pos(es, k) < es.len() ==> seq_lt(k, es[insert_pos(es, k)].0),
        forall|j: int| 0 <= j < insert_pos(es, k) ==> !seq_lt(k, es[j].0),
{
    lemma_find_greater(es, k, es.len() as int);
}

impl JsonView {
    /// `Value::get`: the value under key `k` of an object; `None` for a
    /// missing key or a value that is no object.
    pub open spec fn get(self, k: Seq<char>) -> Option<JsonView> {
        match self {
            JsonView::Object(es) => {
                let p = key_pos(es, k);
                if p >= 0 {
                    Some(es[p].1)
                } else {
                    None
                }
            },
            _ => None,
        }
    }

    /// `value[k]` for reading: the value under `k`, or `null`.
    pub open spec fn at(self, k: Seq<char>) -> JsonView {
        match self.get(k) {
            Some(v) => v,
            None => JsonView::Null,
        }
    }

    /// Inserting into an object; `None` for a value that is no object.
    pub open spec fn insert(self, k: Seq<char>, v: JsonView) -> Option<JsonView> {
        match self {
            JsonView::Object(es) => Some(JsonView::Object(entries_insert(es, k, v))),
            _ => None,
        }
    }

    /// `value[k] = v`: a `null` becomes an object first; a value that is
    /// neither `null` nor an object cannot be indexed (`None`).
    pub open spec fn assign(self, k: Seq<char>, v: JsonView) -> Option<JsonView> {
        match self {
            JsonView::Null => Some(JsonView::Object(seq![(k, v)])),
            JsonView::Object(es) => Some(JsonView::Object(entries_insert(es, k, v))),
            _ => None,
        }
    }

    pub open spec fn is_null(self) -> bool {
        self is Null
    }

    pub open spec fn is_object(self) -> bool {
        self is Object
    }

    /// `Value::as_u64`.
    pub open spec fn as_u64(self) -> Option<u64> {
        match self {
            JsonView::Number(NumberView::PosInt(u)) => Some(u),
            _ => None,
        }
    }

    /// `Value::as_i64`.
    pub open spec fn as_i64(self) -> Option<i64> {
        match self {
            JsonView::Number(NumberView::PosInt(u)) => if u <= i64::MAX {
                Some(u as i64)
            } else {
                None
            },
            JsonView::Number(NumberView::NegInt(i)) => Some(i),
            _ => None,
        }
    }

    /// `Value::as_str`.
    pub open spec fn as_str(self) -> Option<Seq<char>> {
        match self {
            JsonView::Str(s) => Some(s),
            _ => None,
        }
    }
}

/// An empty object.
pub open spec fn empty_object() -> JsonView {
    JsonView::Object(Seq::empty())
}

/// The number that `json!(n)` makes of an `i64`.
pub open spec fn int_view(n: i64) -> JsonView {
    if n < 0 {
        JsonView::Number(NumberView::NegInt(n))
    } else {
        JsonView::Number(NumberView::PosInt(n as u64))
    }
}

/// A key-value insertion leaves the other keys' values alone and puts `v` under `k`.
pub proof fn lemma_insert_get(es: Entries, k: Seq<char>, v: JsonView, k2: Seq<char>)
    ensures
        JsonView::Object(entries_insert(es, k, v)).get(k2) == if k2 == k {
            Some(v)
        } else {
            JsonView::Object(es).get(k2)
        },
{
    let p = key_pos(es, k);
    lemma_key_pos(es, k);
    lemma_key_pos(es, k2);
    let es2 = entries_insert(es, k, v);
    lemma_key_pos(es2, k2);
    if p >= 0 {
        let q = key_pos(es, k2);
        let q2 = key_pos(es2, k2);
        if k2 == k {
            assert(es2[p].0 == k);
            if q2 >= 0 && q2 < p {
                assert(es2[q2] == es[q2]);
            }
            assert(q2 == p);
        } else {
            if q >= 0 {
                assert(es2[q].0 == k2);
                if q2 >= 0 && q2 < q {
                    assert(es2[q2] == es[q2]);
                }
                assert(q2 == q);
            } else {
                if q2 >= 0 {
                    assert(es2[q2] == es[q2]);
                }
            }
        }
    } else {
        let ip = insert_pos(es, k);
        lemma_insert_pos(es, k);
        let q = key_pos(es, k2);
        let q2 = key_pos(es2, k2);
        assert(es2[ip] == (k, v));
        if k2 == k {
            if q2 >= 0 && q2 != ip {
                if q2 < ip {
                    assert(es2[q2] == es[q2]);
                } else {
                    assert(es2[q2] == es[q2 - 1]);
                }
            }
            assert(q2 == ip);
        } else {
            if q >= 0 {
                let e = if q < ip { q } else { q + 1 };
                assert(es2[e] == es[q]);
                if q2 >= 0 && q2 < e {
                    if q2 < ip {
                        assert(es2[q2] == es[q2]);
                    } else if q2 > ip {
                        assert(es2[q2] == es[q2 - 1]);
                    }
                }
                assert(q2 == e);
            } else {
                if q2 >= 0 {
                    if q2 < ip {
                        assert(es2[q2] == es[q2]);
                    } else if q2 > ip {
                        assert(es2[q2] == es[q2 - 1]);
                    }
                }
            }
        }
    }
}

/// Giving a key the value it has changes nothing.
pub proof fn lemma_insert_same(es: Entries, k: Seq<char>, v: JsonView)
    requires
        JsonView::Object(es).get(k) == Some(v),
    ensures
        entries_insert(es, k, v) == es,
{
    lemma_key_pos(es, k);
    let p = key_pos(es, k);
    assert(es.update(p, (k, v)) =~= es);
}

/// Giving a key a value twice is giving it the second value once.
pub proof fn lemma_insert_twice(es: Entries, k: Seq<char>, v1: JsonView, v2: JsonView)
    ensures
        entries_insert(entries_insert(es, k, v1), k, v2) == entries_insert(es, k, v2),
{
    let p = key_pos(es, k);
    lemma_key_pos(es, k);
    let es1 = entries_insert(es, k, v1);
    lemma_key_pos(es1, k);
    if p >= 0 {
        let q = key_pos(es1, k);
        assert(es1[p].0 == k);
        if q >= 0 && q < p {
            assert(es1[q] == es[q]);
        }
        assert(q == p);
        assert(entries_insert(es1, k, v2) =~= entries_insert(es, k, v2));
    } else {
        let ip = insert_pos(es, k);
        lemma_insert_pos(es, k);
        let q = key_pos(es1, k);
        assert(es1[ip] == (k, v1));
        if q >= 0 && q != ip {
            if q < ip {
                assert(es1[q] == es[q]);
            } else {
                assert(es1[q] == es[q - 1]);
            }
        }
        assert(q == ip);
        assert(entries_insert(es1, k, v2) =~= entries_insert(es, k, v2));
    }
}

/// Keys in strictly increasing order, as a parsed JSON object has them.
pub open spec fn keys_sorted(es: Entries) -> bool {
    forall|i: int, j: int| 0 <= i < j < es.len() ==> seq_lt(es[i].0, es[j].0)
}

/// Every object within the value, the value included, has its keys in
/// strictly increasing order, as values parsed from JSON text have.
pub open spec fn sorted_deep(j: JsonView) -> bool
    decreases j, 0nat,
{
    match j {
        JsonView::Object(es) => keys_sorted(es) && values_sorted_deep(es, es.len()),
        JsonView::Array(items) => items_sorted_deep(items, items.len()),
        _ => true,
    }
}

/// The first `n` values of the entries are [`sorted_deep`].
pub open spec fn values_sorted_deep(es: Entries, n: nat) -> bool
    decreases es, n,
{
    if n == 0 || n > es.len() {
        true
    } else {
        values_sorted_deep(es, (n - 1) as nat) && sorted_deep(es[n - 1].1)
    }
}

/// The first `n` items are [`sorted_deep`].
pub open spec fn items_sorted_deep(items: Seq<JsonView>, n: nat) -> bool
    decreases items, n,
{
    if n == 0 || n > items.len() {
        true
    } else {
        items_sorted_deep(items, (n - 1) as nat) && sorted_deep(items[n - 1])
    }
}

proof fn lemma_values_sorted_deep(es: Entries, n: nat)
    requires
        n <= es.len(),
    ensures
        values_sorted_deep(es, n) <==> forall|i: int| 0 <= i < n ==> #[trigger] sorted_deep(es[i].1),
    decreases n,
{
    if n > 0 {
        lemma_values_sorted_deep(es, (n - 1) as nat);
        if forall|i: int| 0 <= i < n ==> #[trigger] sorted_deep(es[i].1) {
            assert(sorted_deep(es[n - 1].1));
            assert forall|i: int| 0 <= i < n - 1 implies #[trigger] sorted_deep(es[i].1) by {
                assert(sorted_deep(es[i].1));
            }
        }
    }
}

/// An object is [`sorted_deep`] when its keys are in order and each of its
/// values is.
pub proof fn lemma_sorted_deep_object(es: Entries)
    ensures
        sorted_deep(JsonView::Object(es)) <==> keys_sorted(es) && forall|i: int|
            0 <= i < es.len() ==> #[trigger] sorted_deep(es[i].1),
{
    lemma_values_sorted_deep(es, es.len());
}

/// Inserting a [`sorted_deep`] value into a [`sorted_deep`] object keeps it so.
pub proof fn lemma_insert_sorted_deep(es: Entries, k: Seq<char>, v: JsonView)
    requires
        sorted_deep(JsonView::Object(es)),
        sorted_deep(v),
    ensures
        sorted_deep(JsonView::Object(entries_insert(es, k, v))),
{
    lemma_sorted_deep_object(es);
    lemma_insert_keeps_order(es, k, v);
    let es2 = entries_insert(es, k, v);
    lemma_key_pos(es, k);
    lemma_insert_pos(es, k);
    assert forall|i: int| 0 <= i < es2.len() implies #[trigger] sorted_deep(es2[i].1) by {
        let p = key_pos(es, k);
        if p < 0 {
            let ip = insert_pos(es, k);
            if i > ip {
                assert(es2[i] == es[i - 1]);
            }
        }
    }
    lemma_sorted_deep_object(es2);
}

/// What an object holds under a key (`null` where it holds nothing) is
/// [`sorted_deep`] when the object is.
pub proof fn lemma_at_sorted_deep(j: JsonView, k: Seq<char>)
    requires
        sorted_deep(j),
    ensures
        sorted_deep(j.at(k)),
{
    if j.get(k) is Some {
        lemma_get_sorted_deep(j, k);
    }
}

/// An object of one entry with a [`sorted_deep`] value is [`sorted_deep`].
pub proof fn lemma_single_sorted_deep(k: Seq<char>, v: JsonView)
    requires
        sorted_deep(v),
    ensures
        sorted_deep(JsonView::Object(seq![(k, v)])),
{
    lemma_sorted_deep_object(seq![(k, v)]);
}

/// An object of two entries in key order with [`sorted_deep`] values is
/// [`sorted_deep`].
pub proof fn lemma_pair_sorted_deep(k1: Seq<char>, v1: JsonView, k2: Seq<char>, v2: JsonView)
    requires
        seq_lt(k1, k2),
        sorted_deep(v1),
        sorted_deep(v2),
    ensures
        sorted_deep(JsonView::Object(seq![(k1, v1), (k2, v2)])),
{
    let es = seq![(k1, v1), (k2, v2)];
    lemma_sorted_deep_object(es);
    assert(forall|i: int| 0 <= i < es.len() ==> #[trigger] sorted_deep(es[i].1));
}

/// The values of a [`sorted_deep`] object are [`sorted_deep`].
pub proof fn lemma_get_sorted_deep(j: JsonView, k: Seq<char>)
    requires
        sorted_deep(j),
        j.get(k) is Some,
    ensures
        sorted_deep(j.at(k)),
{
    if let JsonView::Object(es) = j {
        lemma_sorted_deep_object(es);
        lemma_key_pos(es, k);
    }
}

/// Inserting into an object whose keys are in order keeps them in order.
pub proof fn lemma_insert_keeps_order(es: Entries, k: Seq<char>, v: JsonView)
    requires
        keys_sorted(es),
    ensures
        keys_sorted(entries_insert(es, k, v)),
{
    let p = key_pos(es, k);
    lemma_key_pos(es, k);
    let es2 = entries_insert(es, k, v);
    if p >= 0 {
        assert forall|i: int, j: int| 0 <= i < j < es2.len() implies seq_lt(es2[i].0, es2[j].0) by {
            assert(es2[i].0 == es[i].0);
            assert(es2[j].0 == es[j].0);
        }
    } else {
        let ip = insert_pos(es, k);
        lemma_insert_pos(es, k);
        assert forall|i: int, j: int| 0 <= i < j < es2.len() implies seq_lt(es2[i].0, es2[j].0) by {
            if j < ip {
            } else if j == ip {
                // es[i] <= k is not greater, and differs from k
                lemma_seq_lt_trichotomy(k, es[i].0);
            } else if i == ip {
                assert(es2[j] == es[j - 1]);
                if j - 1 > ip {
                    lemma_seq_lt_transitive(k, es[ip].0, es[j - 1].0);
                }
            } else if i < ip {
                assert(es2[j] == es[j - 1]);
            } else {
                assert(es2[i] == es[i - 1]);
                assert(es2[j] == es[j - 1]);
            }
        }
    }
}

// ---------------------------------------------------------------------------
// JSON text
// ---------------------------------------------------------------------------

/// A lowercase hexadecimal digit.
pub open spec fn hex_digit(d: nat) -> char {
    if d < 10 {
        digit_char(d)
    } else if d == 10 {
        'a'
    } else if d == 11 {
        'b'
    } else if d == 12 {
        'c'
    } else if d == 13 {
        'd'
    } else if d == 14 {
        'e'
    } else {
        'f'
    }
}

/// How `serde_json` writes one character inside a string literal: `"` and
/// `\` behind a backslash; backspace, tab, line feed, form feed and
/// carriage return as `\b`, `\t`, `\n`, `\f`, `\r`; the other characters
/// below U+0020 as `\u00` and two lowercase hex digits; every other
/// character as it is.
pub open spec fn escape_char(c: char) -> Seq<char> {
    let code = (c as u32) as nat;
    if c == '"' {
        seq!['\\', '"']
    } else if c == '\\' {
        seq!['\\', '\\']
    } else if code == 8 {
        seq!['\\', 'b']
    } else if code == 9 {
        seq!['\\', 't']
    } else if code == 10 {
        seq!['\\', 'n']
    } else if code == 12 {
        seq!['\\', 'f']
    } else if code == 13 {
        seq!['\\', 'r']
    } else if code < 32 {
        seq!['\\', 'u', '0', '0', hex_digit(code / 16), hex_digit(code % 16)]
    } else {
        seq![c]
    }
}

/// The characters of `s`, each written as [`escape_char`] says.
pub open spec fn escaped(s: Seq<char>) -> Seq<char>
    decreases s.len(),
{
    if s.len() == 0 {
        Seq::empty()
    } else {
        escaped(s.drop_last()) + escape_char(s.last())
    }
}

/// The JSON string literal that `serde_json` writes for `s`: the escaped
/// characters between double quotes.
pub open spec fn json_quote(s: Seq<char>) -> Seq<char> {
    seq!['"'] + escaped(s) + seq!['"']
}

/// `serde_json::to_string` on a string slice: the string literal
/// [`json_quote`] describes (its escape table, `ESCAPE` in serde_json's
/// `ser.rs`). Serialising a `str` into a vector does not fail (the writer
/// is a `Vec<u8>` and a string has no map keys), so the error arm is never
/// taken.
#[verifier::external_body]
fn quote(s: &str) -> (r: String)
    ensures
        r@ == json_quote(s@),
{
    match serde_json::to_string(s) {
        Ok(t) => t,
        Err(_) => String::new(),
    }
}

pub open spec fn number_text(n: NumberView) -> Seq<char> {
    match n {
        NumberView::PosInt(u) => decimal(u as nat),
        NumberView::NegInt(i) => if i < 0 {
            seq!['-'] + decimal((-i) as nat)
        } else {
            decimal(i as nat)
        },
        NumberView::Float(t) => t,
    }
}

/// The compact JSON text of a value, as `Value::to_string` writes it: no
/// spaces, object entries in the order they are held.
pub open spec fn text(j: JsonView) -> Seq<char>
    decreases j, 0nat,
{
    match j {
        JsonView::Null => seq!['n', 'u', 'l', 'l'],
        JsonView::Bool(b) => if b {
            seq!['t', 'r', 'u', 'e']
        } else {
            seq!['f', 'a', 'l', 's', 'e']
        },
        JsonView::Number(n) => number_text(n),
        JsonView::Str(s) => json_quote(s),
        JsonView::Array(items) => seq!['['] + items_text(items, items.len()) + seq![']'],
        JsonView::Object(es) => seq!['{'] + entries_text(es, es.len()) + seq!['}'],
    }
}

/// The first `n` items, separated by commas.
pub open spec fn items_text(items: Seq<JsonView>, n: nat) -> Seq<char>
    decreases items, n,
{
    if n == 0 || n > items.len() {
        Seq::empty()
    } else if n == 1 {
        text(items[0])
    } else {
        items_text(items, (n - 1) as nat) + seq![','] + text(items[n - 1])
    }
}

/// The first `n` entries, separated by commas.
pub open spec fn entries_text(es: Entries, n: nat) -> Seq<char>
    decreases es, n,
{
    if n == 0 || n > es.len() {
        Seq::empty()
    } else if n == 1 {
        json_quote(es[0].0) + seq![':'] + text(es[0].1)
    } else {
        entries_text(es, (n - 1) as nat) + seq![','] + json_quote(es[n - 1].0) + seq![':']
            + text(es[n - 1].1)
    }
}

/// A float's text without its leading minus sign, if it has one.
pub open spec fn unsigned_text(t: Seq<char>) -> Seq<char> {
    if t.len() > 0 && t[0] == '-' {
        t.subrange(1, t.len() as int)
    } else {
        t
    }
}

/// Digits that denote zero: a `0` first, then only `0`s and `.`s.
pub open spec fn zero_digits(m: Seq<char>) -> bool {
    &&& m.len() > 0
    &&& m[0] == '0'
    &&& forall|i: int| 0 <= i < m.len() ==> (m[i] == '0' || m[i] == '.')
}

/// A float's text denotes zero (`0.0`, `-0.0`, `0`, and the like).
pub open spec fn zero_text(t: Seq<char>) -> bool {
    zero_digits(unsigned_text(t))
}

/// Number equality as `serde_json::Number`'s `==`: integers by value and
/// kind; floats, held as their shortest text, when the texts are the same or
/// both denote zero (`f64`'s `==` takes `0.0` and `-0.0` as equal).
pub open spec fn number_eq(a: NumberView, b: NumberView) -> bool {
    match (a, b) {
        (NumberView::Float(x), NumberView::Float(y)) => x == y || (zero_text(x) && zero_text(y)),
        _ => a == b,
    }
}

/// Value equality as `serde_json::Value`'s `==`: numbers by [`number_eq`],
/// arrays item by item, objects entry by entry (the same keys in the same
/// order, as the sorted objects of parsed values have them).
pub open spec fn json_eq(a: JsonView, b: JsonView) -> bool
    decreases a, 0nat,
{
    match (a, b) {
        (JsonView::Number(x), JsonView::Number(y)) => number_eq(x, y),
        (JsonView::Array(xs), JsonView::Array(ys)) => xs.len() == ys.len() && items_eq(
            xs,
            ys,
            xs.len(),
        ),
        (JsonView::Object(xs), JsonView::Object(ys)) => xs.len() == ys.len() && entries_eq(
            xs,
            ys,
            xs.len(),
        ),
        (JsonView::Number(_), _) => false,
        (JsonView::Array(_), _) => false,
        (JsonView::Object(_), _) => false,
        _ => a == b,
    }
}

/// The first `n` items are pairwise [`json_eq`].
pub open spec fn items_eq(xs: Seq<JsonView>, ys: Seq<JsonView>, n: nat) -> bool
    decreases xs, n,
{
    if n == 0 || n > xs.len() || n > ys.len() {
        true
    } else {
        items_eq(xs, ys, (n - 1) as nat) && json_eq(xs[n - 1], ys[n - 1])
    }
}

/// Two entries have the same key and [`json_eq`] values.
pub open spec fn entry_eq(x: (Seq<char>, JsonView), y: (Seq<char>, JsonView)) -> bool {
    x.0 == y.0 && json_eq(x.1, y.1)
}

/// The first `n` entries are pairwise [`entry_eq`].
pub open spec fn entries_eq(xs: Entries, ys: Entries, n: nat) -> bool
    decreases xs, n,
{
    if n == 0 || n > xs.len() || n > ys.len() {
        true
    } else {
        entries_eq(xs, ys, (n - 1) as nat) && xs[n - 1].0 == ys[n - 1].0 && json_eq(
            xs[n - 1].1,
            ys[n - 1].1,
        )
    }
}

proof fn lemma_items_eq(xs: Seq<JsonView>, ys: Seq<JsonView>, n: nat)
    requires
        n <= xs.len(),
        n <= ys.len(),
    ensures
        items_eq(xs, ys, n) <==> forall|i: int| 0 <= i < n ==> #[trigger] json_eq(xs[i], ys[i]),
    decreases n,
{
    if n > 0 {
        lemma_items_eq(xs, ys, (n - 1) as nat);
        if forall|i: int| 0 <= i < n ==> #[trigger] json_eq(xs[i], ys[i]) {
            assert(json_eq(xs[n - 1], ys[n - 1]));
            assert forall|i: int| 0 <= i < n - 1 implies #[trigger] json_eq(xs[i], ys[i]) by {
                assert(json_eq(xs[i], ys[i]));
            }
        }
    }
}

proof fn lemma_entries_eq(xs: Entries, ys: Entries, n: nat)
    requires
        n <= xs.len(),
        n <= ys.len(),
    ensures
        entries_eq(xs, ys, n) <==> forall|i: int| 0 <= i < n ==> #[trigger] entry_eq(xs[i], ys[i]),
    decreases n,
{
    if n > 0 {
        lemma_entries_eq(xs, ys, (n - 1) as nat);
        if forall|i: int| 0 <= i < n ==> #[trigger] entry_eq(xs[i], ys[i]) {
            assert(entry_eq(xs[n - 1], ys[n - 1]));
            assert forall|i: int| 0 <= i < n - 1 implies #[trigger] entry_eq(xs[i], ys[i]) by {
                assert(entry_eq(xs[i], ys[i]));
            }
        }
    }
}

// ---------------------------------------------------------------------------
// Executable operations
// ---------------------------------------------------------------------------

fn entries_key_index(entries: &Vec<(String, Json)>, k: &str) -> (r: Option<usize>)
    ensures
        ({
            let es = entries_view(entries@, entries@.len());
            match r {
                Some(i) => key_pos(es, k@) == i,
                None => key_pos(es, k@) == -1,
            }
        }),
{
    let ghost es = entries_view(entries@, entries@.len());
    proof {
        lemma_object_view(entries@);
        lemma_key_pos(es, k@);
    }
    let mut i: usize = 0;
    while i < entries.len()
        invariant
            es == entries_view(entries@, entries@.len()),
            es.len() == entries@.len(),
            i <= entries@.len(),
            forall|m: int|
                0 <= m < entries@.len() ==> #[trigger] es[m] == (
                    entries@[m].0@,
                    json_view(entries@[m].1),
                ),
            forall|j: int| 0 <= j < i ==> es[j].0 != k@,
        decreases entries.len() - i,
    {
        if str_eq(entries[i].0.as_str(), k) {
            assert(es[i as int].0 == k@);
            proof {
                lemma_key_pos(es, k@);
            }
            return Some(i);
        }
        i = i + 1;
    }
    None
}

fn entries_insert_index(entries: &Vec<(String, Json)>, k: &str) -> (r: usize)
    ensures
        r == insert_pos(entries_view(entries@, entries@.len()), k@),
{
    let ghost es = entries_view(entries@, entries@.len());
    proof {
        lemma_object_view(entries@);
        lemma_insert_pos(es, k@);
    }
    let mut i: usize = 0;
    while i < entries.len()
        invariant
            es == entries_view(entries@, entries@.len()),
            es.len() == entries@.len(),
            i <= entries@.len(),
            forall|m: int|
                0 <= m < entries@.len() ==> #[trigger] es[m] == (
                    entries@[m].0@,
                    json_view(entries@[m].1),
                ),
            forall|j: int| 0 <= j < i ==> !seq_lt(k@, #[trigger] es[j].0),
        decreases entries.len() - i,
    {
        if str_lt(k, entries[i].0.as_str()) {
            assert(seq_lt(k@, es[i as int].0));
            proof {
                lemma_insert_pos(es, k@);
            }
            return i;
        }
        i = i + 1;
    }
    i
}

fn entries_insert_exec(entries: &mut Vec<(String, Json)>, k: String, v: Json)
    ensures
        entries_view(final(entries)@, final(entries)@.len()) == entries_insert(
            entries_view(old(entries)@, old(entries)@.len()),
            k@,
            v@,
        ),
{
    let ghost es = entries_view(entries@, entries@.len());
    let ghost kv = k@;
    let ghost vv = v@;
    proof {
        lemma_object_view(entries@);
        lemma_key_pos(es, kv);
    }
    match entries_key_index(entries, k.as_str()) {
        Some(i) => {
            entries.set(i, (k, v));
            proof {
                lemma_object_view(entries@);
                assert(entries_view(entries@, entries@.len()) =~= es.update(i as int, (kv, vv)));
            }
        },
        None => {
            let p = entries_insert_index(entries, k.as_str());
            proof {
                lemma_insert_pos(es, kv);
            }
            entries.insert(p, (k, v));
            proof {
                lemma_object_view(entries@);
                assert(entries_view(entries@, entries@.len()) =~= es.insert(p as int, (kv, vv)));
            }
        },
    }
}

fn write_quoted(out: &mut String, s: &str)
    ensures
        final(out)@ == old(out)@ + json_quote(s@),
{
    let q = quote(s);
    out.append(q.as_str());
}

fn write_number(out: &mut String, n: &JsonNumber)
    ensures
        final(out)@ == old(out)@ + number_text(number_view(*n)),
{
    match n {
        JsonNumber::PosInt(u) => push_decimal(out, *u),
        JsonNumber::NegInt(i) => {
            if *i < 0 {
                push_char(out, '-');
                let m: u64 = (-(*i as i128)) as u64;
                push_decimal(out, m);
            } else {
                push_decimal(out, *i as u64);
            }
            assert(out@ =~= old(out)@ + number_text(number_view(*n)));
        },
        JsonNumber::Float(t) => out.append(t.as_str()),
    }
}

/// Appends the JSON text of `j` to `out`.
fn write_json(out: &mut String, j: &Json)
    ensures
        final(out)@ == old(out)@ + text(j@),
    decreases j,
{
    match j {
        Json::Null => {
            push_char(out, 'n');
            push_char(out, 'u');
            push_char(out, 'l');
            push_char(out, 'l');
            assert(out@ =~= old(out)@ + text(j@));
        },
        Json::Bool(b) => {
            if *b {
                push_char(out, 't');
                push_char(out, 'r');
                push_char(out, 'u');
                push_char(out, 'e');
            } else {
                push_char(out, 'f');
                push_char(out, 'a');
                push_char(out, 'l');
                push_char(out, 's');
                push_char(out, 'e');
            }
            assert(out@ =~= old(out)@ + text(j@));
        },
        Json::Number(n) => write_number(out, n),
        Json::Str(s) => write_quoted(out, s.as_str()),
        Json::Array(v) => {
            let ghost items = items_view(v@, v@.len());
            proof {
                lemma_array_view(v@);
            }
            push_char(out, '[');
            let ghost start = out@;
            let mut i: usize = 0;
            while i < v.len()
                invariant
                    items == items_view(v@, v@.len()),
                    items.len() == v@.len(),
                    forall|m: int| 0 <= m < v@.len() ==> #[trigger] items[m] == json_view(v@[m]),
                    i <= v@.len(),
                    out@ == start + items_text(items, i as nat),
                    forall|m: int| 0 <= m < v@.len() ==> decreases_to!(*j => #[trigger] v@[m]),
                decreases v.len() - i,
            {
                if i > 0 {
                    push_char(out, ',');
                }
                write_json(out, &v[i]);
                assert(out@ =~= start + items_text(items, (i + 1) as nat));
                i = i + 1;
            }
            push_char(out, ']');
            assert(out@ =~= old(out)@ + text(j@));
        },
        Json::Object(v) => {
            let ghost es = entries_view(v@, v@.len());
            proof {
                lemma_object_view(v@);
            }
            push_char(out, '{');
            let ghost start = out@;
            let mut i: usize = 0;
            while i < v.len()
                invariant
                    es == entries_view(v@, v@.len()),
                    es.len() == v@.len(),
                    forall|m: int|
                        0 <= m < v@.len() ==> #[trigger] es[m] == (v@[m].0@, json_view(v@[m].1)),
                    i <= v@.len(),
                    out@ == start + entries_text(es, i as nat),
                    forall|m: int| 0 <= m < v@.len() ==> decreases_to!(*j => #[trigger] v@[m].1),
                decreases v.len() - i,
            {
                if i > 0 {
                    push_char(out, ',');
                }
                write_quoted(out, v[i].0.as_str());
                push_char(out, ':');
                write_json(out, &v[i].1);
                assert(out@ =~= start + entries_text(es, (i + 1) as nat));
                i = i + 1;
            }
            push_char(out, '}');
            assert(out@ =~= old(out)@ + text(j@));
        },
    }
}

fn number_copy(n: &JsonNumber) -> (r: JsonNumber)
    ensures
        number_view(r) == number_view(*n),
{
    match n {
        JsonNumber::PosInt(u) => JsonNumber::PosInt(*u),
        JsonNumber::NegInt(i) => JsonNumber::NegInt(*i),
        JsonNumber::Float(t) => JsonNumber::Float(t.clone()),
    }
}

/// Whether a float's text denotes zero.
fn float_is_zero(t: &str) -> (r: bool)
    ensures
        r == zero_text(t@),
{
    let c = chars_of(t);
    let start: usize = if c.len() > 0 && c[0] == '-' { 1 } else { 0 };
    let ghost m = unsigned_text(t@);
    assert(m =~= c@.subrange(start as int, c@.len() as int));
    if start >= c.len() {
        return false;
    }
    assert(m[0] == c@[start as int]);
    if c[start] != '0' {
        return false;
    }
    let mut i: usize = start;
    while i < c.len()
        invariant
            c@ == t@,
            start <= i <= c@.len(),
            m == c@.subrange(start as int, c@.len() as int),
            m == unsigned_text(t@),
            m.len() > 0,
            m[0] == '0',
            forall|j: int| 0 <= j < i - start ==> (m[j] == '0' || m[j] == '.'),
        decreases c.len() - i,
    {
        if c[i] != '0' && c[i] != '.' {
            assert(m[i - start] == c@[i as int]);
            return false;
        }
        assert(m[i - start] == c@[i as int]);
        i = i + 1;
    }
    true
}

fn number_equal(a: &JsonNumber, b: &JsonNumber) -> (r: bool)
    ensures
        r == number_eq(number_view(*a), number_view(*b)),
{
    match (a, b) {
        (JsonNumber::PosInt(x), JsonNumber::PosInt(y)) => *x == *y,
        (JsonNumber::NegInt(x), JsonNumber::NegInt(y)) => *x == *y,
        (JsonNumber::Float(x), JsonNumber::Float(y)) => str_eq(x.as_str(), y.as_str()) || (
        float_is_zero(x.as_str()) && float_is_zero(y.as_str())),
        _ => false,
    }
}

impl Json {
    /// A copy of this value, with the same content.
    pub fn deep_copy(&self) -> (r: Json)
        ensures
            r@ == self@,
        decreases self,
    {
        match self {
            Json::Null => Json::Null,
            Json::Bool(b) => Json::Bool(*b),
            Json::Number(n) => Json::Number(number_copy(n)),
            Json::Str(s) => Json::Str(s.clone()),
            Json::Array(v) => {
                let mut w: Vec<Json> = Vec::new();
                let mut i: usize = 0;
                while i < v.len()
                    invariant
                        i <= v@.len(),
                        w@.len() == i,
                        forall|m: int| 0 <= m < i ==> #[trigger] json_view(w@[m]) == json_view(v@[m]),
                        forall|m: int| 0 <= m < v@.len() ==> decreases_to!(*self => #[trigger] v@[m]),
                    decreases v.len() - i,
                {
                    let c = v[i].deep_copy();
                    w.push(c);
                    i = i + 1;
                }
                proof {
                    lemma_array_view(v@);
                    lemma_array_view(w@);
                    assert(items_view(w@, w@.len()) =~= items_view(v@, v@.len()));
                }
                Json::Array(w)
            },
            Json::Object(v) => {
                let mut w: Vec<(String, Json)> = Vec::new();
                let mut i: usize = 0;
                while i < v.len()
                    invariant
                        i <= v@.len(),
                        w@.len() == i,
                        forall|m: int|
                            0 <= m < i ==> #[trigger] w@[m].0@ == v@[m].0@ && json_view(w@[m].1)
                                == json_view(v@[m].1),
                        forall|m: int|
                            0 <= m < v@.len() ==> decreases_to!(*self => #[trigger] v@[m].1),
                    decreases v.len() - i,
                {
                    let c = v[i].1.deep_copy();
                    w.push((v[i].0.clone(), c));
                    i = i + 1;
                }
                proof {
                    lemma_object_view(v@);
                    lemma_object_view(w@);
                    assert(entries_view(w@, w@.len()) =~= entries_view(v@, v@.len()));
                }
                Json::Object(w)
            },
        }
    }

    /// Whether two values are equal (`Value`'s `==`, as [`json_eq`] says).
    #[verifier::spinoff_prover]
    pub fn equals(&self, other: &Json) -> (r: bool)
        ensures
            r == json_eq(self@, other@),
        decreases self,
    {
        match (self, other) {
            (Json::Null, Json::Null) => true,
            (Json::Bool(a), Json::Bool(b)) => *a == *b,
            (Json::Number(a), Json::Number(b)) => number_equal(a, b),
            (Json::Str(a), Json::Str(b)) => str_eq(a.as_str(), b.as_str()),
            (Json::Array(a), Json::Array(b)) => {
                proof {
                    lemma_array_view(a@);
                    lemma_array_view(b@);
                }
                let ghost xs = items_view(a@, a@.len());
                let ghost ys = items_view(b@, b@.len());
                if a.len() != b.len() {
                    return false;
                }
                let mut i: usize = 0;
                while i < a.len()
                    invariant
                        a@.len() == b@.len(),
                        i <= a@.len(),
                        xs.len() == a@.len(),
                        ys.len() == b@.len(),
                        forall|m: int| 0 <= m < a@.len() ==> #[trigger] xs[m] == json_view(a@[m]),
                        forall|m: int| 0 <= m < b@.len() ==> #[trigger] ys[m] == json_view(b@[m]),
                        forall|m: int| 0 <= m < i ==> #[trigger] json_eq(xs[m], ys[m]),
                        self@ == JsonView::Array(xs),
                        other@ == JsonView::Array(ys),
                        forall|m: int| 0 <= m < a@.len() ==> decreases_to!(*self => #[trigger] a@[m]),
                    decreases a.len() - i,
                {
                    assert(xs[i as int] == json_view(a@[i as int]));
                    assert(ys[i as int] == json_view(b@[i as int]));
                    if !a[i].equals(&b[i]) {
                        proof {
                            lemma_items_eq(xs, ys, xs.len());
                        }
                        return false;
                    }
                    i = i + 1;
                }
                proof {
                    lemma_items_eq(xs, ys, xs.len());
                }
                true
            },
            (Json::Object(a), Json::Object(b)) => {
                proof {
                    lemma_object_view(a@);
                    lemma_object_view(b@);
                }
                let ghost xs = entries_view(a@, a@.len());
                let ghost ys = entries_view(b@, b@.len());
                if a.len() != b.len() {
                    return false;
                }
                let mut i: usize = 0;
                while i < a.len()
                    invariant
                        a@.len() == b@.len(),
                        i <= a@.len(),
                        xs.len() == a@.len(),
                        ys.len() == b@.len(),
                        forall|m: int|
                            0 <= m < a@.len() ==> #[trigger] xs[m] == (a@[m].0@, json_view(a@[m].1)),
                        forall|m: int|
                            0 <= m < b@.len() ==> #[trigger] ys[m] == (b@[m].0@, json_view(b@[m].1)),
                        forall|m: int| 0 <= m < i ==> #[trigger] entry_eq(xs[m], ys[m]),
                        self@ == JsonView::Object(xs),
                        other@ == JsonView::Object(ys),
                        forall|m: int|
                            0 <= m < a@.len() ==> decreases_to!(*self => #[trigger] a@[m].1),
                    decreases a.len() - i,
                {
                    assert(xs[i as int] == (a@[i as int].0@, json_view(a@[i as int].1)));
                    assert(ys[i as int] == (b@[i as int].0@, json_view(b@[i as int].1)));
                    let same_key = str_eq(a[i].0.as_str(), b[i].0.as_str());
                    let same_value = same_key && a[i].1.equals(&b[i].1);
                    if !same_value {
                        proof {
                            assert(!entry_eq(xs[i as int], ys[i as int]));
                            lemma_entries_eq(xs, ys, xs.len());
                        }
                        return false;
                    }
                    assert(entry_eq(xs[i as int], ys[i as int]));
                    i = i + 1;
                }
                proof {
                    lemma_entries_eq(xs, ys, xs.len());
                }
                true
            },
            _ => false,
        }
    }

    /// `Value::get`: the value under key `k` of an object.
    pub fn get(&self, k: &str) -> (r: Option<&Json>)
        ensures
            match r {
                Some(x) => self@.get(k@) == Some(x@),
                None => self@.get(k@) is None,
            },
    {
        match self {
            Json::Object(v) => {
                proof {
                    lemma_object_view(v@);
                    lemma_key_pos(entries_view(v@, v@.len()), k@);
                }
                match entries_key_index(v, k) {
                    Some(i) => Some(&v[i].1),
                    None => None,
                }
            },
            _ => None,
        }
    }

    /// Inserts `v` under `k` into an object; `false`, leaving the value
    /// alone, when it is no object.
    pub fn insert(&mut self, k: String, v: Json) -> (ok: bool)
        ensures
            ok == old(self)@.is_object(),
            ok ==> old(self)@.insert(k@, v@) == Some(final(self)@),
            !ok ==> final(self)@ == old(self)@,
    {
        match self {
            Json::Object(entries) => {
                entries_insert_exec(entries, k, v);
                true
            },
            _ => false,
        }
    }

    /// `self[k] = v`: a `null` becomes an object first; `false`, leaving the
    /// value alone, when it is neither `null` nor an object.
    pub fn assign(&mut self, k: String, v: Json) -> (ok: bool)
        ensures
            ok == (old(self)@.is_null() || old(self)@.is_object()),
            ok ==> old(self)@.assign(k@, v@) == Some(final(self)@),
            !ok ==> final(self)@ == old(self)@,
    {
        if let Json::Null = self {
            let mut entries: Vec<(String, Json)> = Vec::new();
            let ghost kv = k@;
            let ghost vv = v@;
            entries.push((k, v));
            proof {
                lemma_object_view(entries@);
                assert(entries_view(entries@, entries@.len()) =~= seq![(kv, vv)]);
            }
            *self = Json::Object(entries);
            return true;
        }
        self.insert(k, v)
    }

    pub fn is_null(&self) -> (r: bool)
        ensures
            r == self@.is_null(),
    {
        match self {
            Json::Null => true,
            _ => false,
        }
    }

    pub fn is_object(&self) -> (r: bool)
        ensures
            r == self@.is_object(),
    {
        match self {
            Json::Object(_) => true,
            _ => false,
        }
    }

    /// `Value::as_u64`.
    pub fn as_u64(&self) -> (r: Option<u64>)
        ensures
            r == self@.as_u64(),
    {
        match self {
            Json::Number(JsonNumber::PosInt(u)) => Some(*u),
            _ => None,
        }
    }

    /// `Value::as_i64`.
    pub fn as_i64(&self) -> (r: Option<i64>)
        ensures
            r == self@.as_i64(),
    {
        match self {
            Json::Number(JsonNumber::PosInt(u)) => if *u <= 9223372036854775807u64 {
                Some(*u as i64)
            } else {
                None
            },
            Json::Number(JsonNumber::NegInt(i)) => Some(*i),
            _ => None,
        }
    }

    /// `Value::as_str`.
    pub fn as_str(&self) -> (r: Option<&str>)
        ensures
            match r {
                Some(s) => self@.as_str() == Some(s@),
                None => self@.as_str() is None,
            },
    {
        match self {
            Json::Str(s) => Some(s.as_str()),
            _ => None,
        }
    }

    /// An object without entries.
    pub fn new_object() -> (r: Json)
        ensures
            r@ == empty_object(),
    {
        let v: Vec<(String, Json)> = Vec::new();
        proof {
            lemma_object_view(v@);
        }
        assert(entries_view(v@, 0) =~= Seq::<(Seq<char>, JsonView)>::empty());
        Json::Object(v)
    }

    /// The number `json!(n)` makes of an `i64`.
    pub fn from_i64(n: i64) -> (r: Json)
        ensures
            r@ == int_view(n),
    {
        if n < 0 {
            Json::Number(JsonNumber::NegInt(n))
        } else {
            Json::Number(JsonNumber::PosInt(n as u64))
        }
    }

    /// The compact JSON text of this value (`Value::to_string`).
    pub fn to_text(&self) -> (r: String)
        ensures
            r@ == text(self@),
    {
        let mut out = String::new();
        write_json(&mut out, self);
        assert(out@ =~= text(self@));
        out
    }
}

} // verus!
