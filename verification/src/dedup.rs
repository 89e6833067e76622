//! Remembering which message identifiers were seen recently, and making new
//! random identifiers.
use vstd::prelude::*;

use fnv::{FnvHashMap, FnvHasher};
use rand::Rng;
use std::hash::BuildHasherDefault;

use crate::text::push_char;

verus! {

/// How long, in milliseconds, a seen identifier is remembered.
pub const AGE: u64 = 9000;

#[verifier::external_type_specification]
#[verifier::external_body]
pub struct ExFnvHasher(FnvHasher);

#[verifier::external_type_specification]
#[verifier::external_body]
#[verifier::reject_recursive_types(H)]
pub struct ExBuildHasherDefault<H>(BuildHasherDefault<H>);

/// The entries of a timeline: identifier to the time (ms) it was last seen.
pub uninterp spec fn timeline_entries(t: FnvHashMap<String, u64>) -> Map<Seq<char>, u64>;

/// The timeline with no entries.
pub open spec fn no_entries() -> Map<Seq<char>, u64> {
    Map::empty()
}

/// `FnvHashMap::default()`: an empty map.
#[verifier::external_body]
fn timeline_new() -> (t: FnvHashMap<String, u64>)
    ensures
        timeline_entries(t) == no_entries(),
{
    FnvHashMap::default()
}

/// `HashMap::contains_key` on the FNV map: whether an entry has the key.
#[verifier::external_body]
fn timeline_contains(t: &FnvHashMap<String, u64>, k: &str) -> (r: bool)
    ensures
        r == timeline_entries(*t).contains_key(k@),
{
    t.contains_key(k)
}

/// `HashMap::insert` on the FNV map: the key now maps to `v`, the rest stays.
#[verifier::external_body]
fn timeline_insert(t: &mut FnvHashMap<String, u64>, k: String, v: u64)
    ensures
        timeline_entries(*final(t)) == timeline_entries(*old(t)).insert(k@, v),
{
    t.insert(k, v);
}

/// `HashMap::remove` on the FNV map: the key's entry is gone, the rest stays.
#[verifier::external_body]
fn timeline_remove(t: &mut FnvHashMap<String, u64>, k: &str)
    ensures
        timeline_entries(*final(t)) == timeline_entries(*old(t)).remove(k@),
{
    t.remove(k);
}

/// `HashMap::get` on the FNV map, copying the value out.
#[verifier::external_body]
fn timeline_get(t: &FnvHashMap<String, u64>, k: &str) -> (r: Option<u64>)
    ensures
        r == (if timeline_entries(*t).contains_key(k@) {
            Some(timeline_entries(*t)[k@])
        } else {
            None
        }),
{
    t.get(k).copied()
}

/// `HashMap::keys` on the FNV map, each key copied: every key once, in the
/// map's own (hash) order, which is left unsaid.
#[verifier::external_body]
fn timeline_keys(t: &FnvHashMap<String, u64>) -> (r: Vec<String>)
    ensures
        forall|i: int, j: int| 0 <= i < j < r@.len() ==> r@[i]@ != r@[j]@,
        forall|i: int| 0 <= i < r@.len() ==> timeline_entries(*t).contains_key(#[trigger] r@[i]@),
        forall|k: Seq<char>|
            timeline_entries(*t).contains_key(k) ==> exists|i: int| 0 <= i < r@.len() && #[trigger] r@[i]@ == k,
{
    t.keys().cloned().collect()
}

/// What a [`Dedup`] remembers.
pub struct DedupView {
    /// Identifier to the time (ms) it was last seen.
    pub timeline: Map<Seq<char>, u64>,
    /// Whether a sweep of old identifiers is pending.
    pub timeout: bool,
}

/// The entries of `m` that are younger than [`AGE`] at time `now`.
pub open spec fn fresh_entries(m: Map<Seq<char>, u64>, now: u64) -> Map<Seq<char>, u64> {
    m.restrict(m.dom().filter(|k: Seq<char>| now < m[k] + AGE))
}

/// An identifier seen at time `t` survives a sweep at time `now` exactly
/// when the sweep comes less than [`AGE`] after `t`; the other identifiers
/// keep their times.
pub proof fn seen_identifier_kept_until_age(m: Map<Seq<char>, u64>, soul: Seq<char>, t: u64, now: u64)
    ensures
        fresh_entries(m.insert(soul, t), now).contains_key(soul) <==> now < t + AGE,
        forall|k: Seq<char>|
            #[trigger] fresh_entries(m.insert(soul, t), now).contains_key(k) ==> fresh_entries(
                m.insert(soul, t),
                now,
            )[k] == m.insert(soul, t)[k],
{
}

/// Remembers message identifiers for a while, so that a message seen twice
/// is handled once.
pub struct Dedup {
    timeline: FnvHashMap<String, u64>,
    timeout: bool,
}

impl View for Dedup {
    type V = DedupView;

    closed spec fn view(&self) -> DedupView {
        DedupView { timeline: timeline_entries(self.timeline), timeout: self.timeout }
    }
}

impl Dedup {
    /// Nothing remembered, no sweep pending.
    pub fn new() -> (r: Self)
        ensures
            r@.timeline == no_entries(),
            !r@.timeout,
    {
        Dedup { timeline: timeline_new(), timeout: false }
    }

    /// If `soul` was seen, it is seen again now (see [`Dedup::track`]) and
    /// returned; otherwise nothing changes and the result is `None`.
    pub fn check(&mut self, soul: String, now: u64) -> (r: Option<String>)
        ensures
            old(self)@.timeline.contains_key(soul@) ==> (r matches Some(s) && s@ == soul@),
            old(self)@.timeline.contains_key(soul@) ==> final(self)@.timeline == old(
                self,
            )@.timeline.insert(soul@, now) && final(self)@.timeout,
            !old(self)@.timeline.contains_key(soul@) ==> r is None && final(self)@ == old(self)@,
    {
        if timeline_contains(&self.timeline, soul.as_str()) {
            Some(self.track(soul, now))
        } else {
            None
        }
    }

    /// Remembers `soul` as seen at time `now` and returns it. A sweep
    /// becomes pending (the caller schedules it when none was).
    pub fn track(&mut self, soul: String, now: u64) -> (r: String)
        ensures
            r@ == soul@,
            final(self)@.timeline == old(self)@.timeline.insert(soul@, now),
            final(self)@.timeout,
    {
        let back = soul.clone();
        timeline_insert(&mut self.timeline, soul, now);
        if !self.timeout {
            self.timeout = true;
        }
        back
    }

    /// Whether a sweep is pending.
    pub fn sweep_pending(&self) -> (r: bool)
        ensures
            r == self@.timeout,
    {
        self.timeout
    }

    /// The pending sweep, at time `now`: forgets the identifiers last seen
    /// [`AGE`] or more ago, and clears the pending flag.
    pub fn sweep(&mut self, now: u64)
        ensures
            final(self)@.timeline == fresh_entries(old(self)@.timeline, now),
            !final(self)@.timeout,
    {
        let keys = timeline_keys(&self.timeline);
        let ghost m0 = timeline_entries(self.timeline);
        let mut i: usize = 0;
        while i < keys.len()
            invariant
                i <= keys@.len(),
                forall|a: int, b: int| 0 <= a < b < keys@.len() ==> keys@[a]@ != keys@[b]@,
                forall|a: int| 0 <= a < keys@.len() ==> m0.contains_key(#[trigger] keys@[a]@),
                forall|k: Seq<char>|
                    m0.contains_key(k) ==> exists|a: int| 0 <= a < keys@.len() && #[trigger] keys@[a]@ == k,
                forall|k: Seq<char>|
                    #![trigger timeline_entries(self.timeline).contains_key(k)]
                    (exists|a: int| 0 <= a < i && #[trigger] keys@[a]@ == k) ==> (
                        timeline_entries(self.timeline).contains_key(k) <==> (m0.contains_key(k)
                            && now < m0[k] + AGE)),
                forall|k: Seq<char>|
                    #![trigger timeline_entries(self.timeline).contains_key(k)]
                    !(exists|a: int| 0 <= a < i && #[trigger] keys@[a]@ == k) ==> (
                        timeline_entries(self.timeline).contains_key(k) <==> m0.contains_key(k)),
                forall|k: Seq<char>|
                    timeline_entries(self.timeline).contains_key(k) ==> timeline_entries(
                        self.timeline,
                    )[k] == m0[k],
            decreases keys.len() - i,
        {
            let k = keys[i].as_str();
            match timeline_get(&self.timeline, k) {
                Some(time) => {
                    if now >= AGE && now - AGE >= time {
                        timeline_remove(&mut self.timeline, k);
                    }
                },
                None => {},
            }
            i = i + 1;
        }
        assert(timeline_entries(self.timeline) =~= fresh_entries(m0, now));
        self.timeout = false;
    }
}

/// The base-36 digit of `d < 36`: `0`-`9`, then `a`-`z`.
pub open spec fn digit36(d: nat) -> char {
    if d < 10 {
        (('0' as nat) + d) as char
    } else {
        (('a' as nat) + (d - 10)) as char
    }
}

/// The identifier made of `n`: its three lowest base-36 digits, lowest first.
pub open spec fn soul_of(n: nat) -> Seq<char> {
    seq![digit36(n % 36), digit36((n / 36) % 36), digit36((n / 1296) % 36)]
}

/// A number drawn uniformly from `low..high` by the thread's generator
/// (`rand::thread_rng().gen_range(low, high)`); it panics unless `low < high`.
#[verifier::external_body]
fn random_in(low: u32, high: u32) -> (n: u32)
    requires
        low < high,
    ensures
        low <= n < high,
{
    rand::thread_rng().gen_range(low, high)
}

fn digit36_exec(d: u32) -> (c: char)
    requires
        d < 36,
    ensures
        c == digit36(d as nat),
{
    if d < 10 {
        ((48 + d) as u8) as char
    } else {
        ((97 + (d - 10)) as u8) as char
    }
}

/// The identifier made of the number `n` ([`soul_of`]).
pub fn soul_from_number(n: u32) -> (r: String)
    ensures
        r@ == soul_of(n as nat),
{
    let radix: u32 = 36;
    let mut m = n;
    let mut r = String::new();
    let mut i: usize = 0;
    while i < 3
        invariant
            radix == 36,
            i <= 3,
            r@.len() == i,
            i == 0 ==> m == n,
            i == 1 ==> m == n / 36,
            i == 2 ==> m == n / 1296,
            i >= 1 ==> r@[0] == digit36((n % 36) as nat),
            i >= 2 ==> r@[1] == digit36(((n / 36) % 36) as nat),
            i >= 3 ==> r@[2] == digit36(((n / 1296) % 36) as nat),
        decreases 3 - i,
    {
        let d = m % radix;
        m = m / radix;
        push_char(&mut r, digit36_exec(d));
        i = i + 1;
    }
    assert(r@ =~= soul_of(n as nat));
    r
}

/// A fresh random identifier: three base-36 digits of a number drawn from
/// `1296..46656`, lowest digit first.
pub fn random_soul() -> (r: String)
    ensures
        exists|n: nat| 1296 <= n < 46656 && r@ == soul_of(n),
{
    let radix: u32 = 36;
    let n = random_in(radix * radix, radix * radix * radix);
    soul_from_number(n)
}

} // verus!
