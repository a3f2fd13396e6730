//! The key-value store: string values under string keys, each with an
//! optional expiry time, and a count of the stored keys.
//!
//! Times are nanoseconds on the store's own monotonic clock, which starts at
//! zero when the store is made.  The store remembers the latest time at which
//! it was changed, and its clock never reads an earlier time than that.

use vstd::prelude::*;
use crate::error::StorageError;
use crate::response::Response;
use crate::text::{
    chars_of, contains_char, contains_substring, decimal_text, has_substring, push_decimal_text,
    strip_stars, without_stars,
};

pub mod converter;

verus! {

broadcast use vstd::string::group_string_axioms;

/// The monotonic clock instant of `std::time`.
#[verifier::external_type_specification]
#[verifier::external_body]
pub struct ExInstant(std::time::Instant);

/// `Instant::now`: the present instant of the monotonic clock.  Nothing is
/// claimed of it.
pub assume_specification[ std::time::Instant::now ]() -> std::time::Instant;

/// `Instant::elapsed`: the time since the instant, which depends on when the
/// call is made.  Nothing is claimed of it.
pub assume_specification[ std::time::Instant::elapsed ](i: &std::time::Instant) -> core::time::Duration;

/// `Duration::as_nanos`: the duration in whole nanoseconds.  `Duration` is
/// opaque here, so nothing is claimed of the number.
pub assume_specification[ core::time::Duration::as_nanos ](d: &core::time::Duration) -> u128;

/// A stored value: its text, the time from which it counts as expired, if
/// any, and the time it was stored.
pub struct StorageValue {
    value: String,
    expires_at: Option<u128>,
    created_at: u128,
}

/// What the logic of the store reads of a stored value.
pub struct ValueView {
    pub value: Seq<char>,
    pub expires_at: Option<u128>,
}

impl View for StorageValue {
    type V = ValueView;

    closed spec fn view(&self) -> ValueView {
        ValueView { value: self.value@, expires_at: self.expires_at }
    }
}

/// Counters that the store keeps about itself.
#[derive(Debug, Clone, Copy)]
pub struct StorageStats {
    pub total_keys: usize,
}

impl Default for StorageStats {
    /// Counters of an empty store.
    fn default() -> (r: Self)
        ensures
            r.total_keys == 0,
    {
        StorageStats { total_keys: 0 }
    }
}

/// The key-value store.
pub struct Storage {
    slots: Vec<(String, StorageValue)>,
    stats: StorageStats,
    origin: std::time::Instant,
    last_time: u128,
}

/// The later of the times `a` and `b`.
pub open spec fn later(a: u128, b: u128) -> u128 {
    if a < b {
        b
    } else {
        a
    }
}

/// Whether a value with this expiry is still live at time `now`: it is unless
/// its expiry time has come.
pub open spec fn is_live(v: ValueView, now: u128) -> bool {
    match v.expires_at {
        Some(e) => now < e,
        None => true,
    }
}

/// The expiry time of a value given `ttl_secs` seconds to live at time `now`;
/// a time past the clock's range is held at its end.
pub open spec fn expiry(now: u128, ttl_secs: u64) -> u128 {
    if now + ttl_secs * 1_000_000_000 > u128::MAX {
        u128::MAX
    } else {
        (now + ttl_secs * 1_000_000_000) as u128
    }
}

/// Whether no key occurs twice in `s`.
pub open spec fn no_dup_keys(s: Seq<(Seq<char>, ValueView)>) -> bool {
    forall|i: int, j: int|
        0 <= i < s.len() && 0 <= j < s.len() && i != j ==> #[trigger] s[i].0 != #[trigger] s[j].0
}

/// The map from each key in `s` to its value.
pub open spec fn slots_map(s: Seq<(Seq<char>, ValueView)>) -> Map<Seq<char>, ValueView> {
    Map::new(
        |k: Seq<char>| exists|i: int| 0 <= i < s.len() && #[trigger] s[i].0 == k,
        |k: Seq<char>| s[choose|i: int| 0 <= i < s.len() && #[trigger] s[i].0 == k].1,
    )
}

/// The live value under `k` at time `now`, if any.
pub open spec fn spec_get(m: Map<Seq<char>, ValueView>, k: Seq<char>, now: u128) -> Option<
    Seq<char>,
> {
    if m.contains_key(k) && is_live(m[k], now) {
        Some(m[k].value)
    } else {
        None
    }
}

/// The store after the live value under `k` is given `ttl_secs` seconds to
/// live from `now`; unchanged when there is no live value under `k`.
pub open spec fn spec_set_ttl(m: Map<Seq<char>, ValueView>, k: Seq<char>, ttl_secs: u64, now: u128) -> Map<
    Seq<char>,
    ValueView,
> {
    if spec_get(m, k, now) is Some {
        m.insert(k, ValueView { value: m[k].value, expires_at: Some(expiry(now, ttl_secs)) })
    } else {
        m
    }
}

/// The store without the values that have expired at time `now`.
pub open spec fn spec_purge(m: Map<Seq<char>, ValueView>, now: u128) -> Map<Seq<char>, ValueView> {
    Map::new(|k: Seq<char>| m.contains_key(k) && is_live(m[k], now), |k: Seq<char>| m[k])
}

/// Whether `key` is listed for `pattern`: every key is when there is no
/// pattern; a pattern with a `*` lists the keys that contain it without its
/// stars; any other pattern lists the key equal to it.
pub open spec fn key_matches(key: Seq<char>, pattern: Option<Seq<char>>) -> bool {
    match pattern {
        None => true,
        Some(p) => if p.contains('*') {
            has_substring(key, without_stars(p))
        } else {
            key == p
        },
    }
}

/// The keys of `ks` that are listed for `pattern`, in order.
pub open spec fn matching_keys(ks: Seq<Seq<char>>, pattern: Option<Seq<char>>) -> Seq<Seq<char>>
    decreases ks.len(),
{
    if ks.len() == 0 {
        Seq::empty()
    } else if key_matches(ks.last(), pattern) {
        matching_keys(ks.drop_last(), pattern).push(ks.last())
    } else {
        matching_keys(ks.drop_last(), pattern)
    }
}

/// The keys of `ks` other than `k`, in order.
pub open spec fn without_key(ks: Seq<Seq<char>>, k: Seq<char>) -> Seq<Seq<char>>
    decreases ks.len(),
{
    if ks.len() == 0 {
        Seq::empty()
    } else if ks.last() == k {
        without_key(ks.drop_last(), k)
    } else {
        without_key(ks.drop_last(), k).push(ks.last())
    }
}

proof fn lemma_without_absent_key(ks: Seq<Seq<char>>, k: Seq<char>)
    requires
        forall|j: int| 0 <= j < ks.len() ==> ks[j] != k,
    ensures
        without_key(ks, k) == ks,
    decreases ks.len(),
{
    if ks.len() > 0 {
        assert(ks.last() == ks[ks.len() - 1]);
        lemma_without_absent_key(ks.drop_last(), k);
        assert(ks.drop_last().push(ks.last()) =~= ks);
    }
}

proof fn lemma_without_key_at(ks: Seq<Seq<char>>, i: int)
    requires
        ks.no_duplicates(),
        0 <= i < ks.len(),
    ensures
        without_key(ks, ks[i]) == ks.remove(i),
    decreases ks.len(),
{
    let k = ks[i];
    let d = ks.drop_last();
    if i == ks.len() - 1 {
        assert forall|j: int| 0 <= j < d.len() implies d[j] != k by {
            assert(d[j] == ks[j]);
        }
        lemma_without_absent_key(d, k);
        assert(ks.remove(i) =~= d);
    } else {
        assert(ks.last() != k);
        assert(d.no_duplicates()) by {
            assert forall|a: int, b: int| 0 <= a < d.len() && 0 <= b < d.len() && a != b implies d[a]
                != d[b] by {
                assert(d[a] == ks[a] && d[b] == ks[b]);
            }
        }
        assert(d[i] == k);
        lemma_without_key_at(d, i);
        assert(ks.remove(i) =~= d.remove(i).push(ks.last()));
    }
}

/// Whether `r` is the bulk-string reply of `s` (the null bulk string for `None`).
pub open spec fn is_bulk(r: Response, s: Option<Seq<char>>) -> bool {
    match r {
        Response::BulkString(Some(x)) => s == Some(x@),
        Response::BulkString(None) => s is None,
        _ => false,
    }
}

/// Whether `r` is the reply `+OK`.
pub open spec fn is_ok_reply(r: Response) -> bool {
    r matches Response::SimpleString(s) && s@ == seq!['O', 'K']
}

/// Whether `r` is an array reply that lists `keys` in order, each as a bulk string.
pub open spec fn is_key_list(r: Response, keys: Seq<Seq<char>>) -> bool {
    &&& r matches Response::Array(items)
    &&& items@.len() == keys.len()
    &&& forall|i: int|
        0 <= i < keys.len() ==> is_bulk(#[trigger] r->Array_0@[i], Some(keys[i]))
}

/// The text of the `INFO` reply for `n` stored keys.
pub open spec fn info_text(n: nat) -> Seq<char> {
    "Stats:\r\ntotal_keys: "@ + decimal_text(n) + "\r\n"@
}

proof fn lemma_map_at(s: Seq<(Seq<char>, ValueView)>, i: int)
    requires
        no_dup_keys(s),
        0 <= i < s.len(),
    ensures
        slots_map(s).contains_key(s[i].0),
        slots_map(s)[s[i].0] == s[i].1,
{
    let k = s[i].0;
    assert(s[i].0 == k);
    let j = choose|j: int| 0 <= j < s.len() && #[trigger] s[j].0 == k;
    assert(j == i);
}

proof fn lemma_map_absent(s: Seq<(Seq<char>, ValueView)>, k: Seq<char>)
    requires
        forall|i: int| 0 <= i < s.len() ==> #[trigger] s[i].0 != k,
    ensures
        !slots_map(s).contains_key(k),
{
}

proof fn lemma_map_update(s: Seq<(Seq<char>, ValueView)>, i: int, v: ValueView)
    requires
        no_dup_keys(s),
        0 <= i < s.len(),
    ensures
        no_dup_keys(s.update(i, (s[i].0, v))),
        slots_map(s.update(i, (s[i].0, v))) == slots_map(s).insert(s[i].0, v),
{
    let k = s[i].0;
    let t = s.update(i, (k, v));
    assert(no_dup_keys(t)) by {
        assert forall|a: int, b: int|
            0 <= a < t.len() && 0 <= b < t.len() && a != b implies #[trigger] t[a].0
            != #[trigger] t[b].0 by {
            assert(t[a].0 == s[a].0 && t[b].0 == s[b].0);
        }
    }
    assert forall|k2: Seq<char>| #[trigger]
        slots_map(t).contains_key(k2) == slots_map(s).insert(k, v).contains_key(k2) by {
        if slots_map(s).contains_key(k2) {
            let j = choose|j: int| 0 <= j < s.len() && #[trigger] s[j].0 == k2;
            assert(t[j].0 == k2);
        }
        if slots_map(t).contains_key(k2) {
            let j = choose|j: int| 0 <= j < t.len() && #[trigger] t[j].0 == k2;
            assert(s[j].0 == k2);
        }
        if k2 == k {
            assert(t[i].0 == k2);
        }
    }
    assert forall|k2: Seq<char>| #[trigger] slots_map(t).contains_key(k2) implies slots_map(t)[k2]
        == slots_map(s).insert(k, v)[k2] by {
        let j = choose|j: int| 0 <= j < t.len() && #[trigger] t[j].0 == k2;
        lemma_map_at(t, j);
        if j != i {
            lemma_map_at(s, j);
        }
    }
    assert(slots_map(t) =~= slots_map(s).insert(k, v));
}

proof fn lemma_map_push(s: Seq<(Seq<char>, ValueView)>, k: Seq<char>, v: ValueView)
    requires
        no_dup_keys(s),
        forall|i: int| 0 <= i < s.len() ==> #[trigger] s[i].0 != k,
    ensures
        no_dup_keys(s.push((k, v))),
        slots_map(s.push((k, v))) == slots_map(s).insert(k, v),
{
    let t = s.push((k, v));
    assert(no_dup_keys(t)) by {
        assert forall|a: int, b: int|
            0 <= a < t.len() && 0 <= b < t.len() && a != b implies #[trigger] t[a].0
            != #[trigger] t[b].0 by {
            if a < s.len() {
                assert(t[a] == s[a]);
            }
            if b < s.len() {
                assert(t[b] == s[b]);
            }
        }
    }
    assert forall|k2: Seq<char>| #[trigger]
        slots_map(t).contains_key(k2) == slots_map(s).insert(k, v).contains_key(k2) by {
        if slots_map(s).contains_key(k2) {
            let j = choose|j: int| 0 <= j < s.len() && #[trigger] s[j].0 == k2;
            assert(t[j].0 == k2);
        }
        if slots_map(t).contains_key(k2) {
            let j = choose|j: int| 0 <= j < t.len() && #[trigger] t[j].0 == k2;
            if j < s.len() {
                assert(s[j].0 == k2);
            }
        }
        if k2 == k {
            assert(t[s.len() as int].0 == k2);
        }
    }
    assert forall|k2: Seq<char>| #[trigger] slots_map(t).contains_key(k2) implies slots_map(t)[k2]
        == slots_map(s).insert(k, v)[k2] by {
        let j = choose|j: int| 0 <= j < t.len() && #[trigger] t[j].0 == k2;
        lemma_map_at(t, j);
        if j < s.len() {
            assert(t[j] == s[j]);
            lemma_map_at(s, j);
        }
    }
    assert(slots_map(t) =~= slots_map(s).insert(k, v));
}

proof fn lemma_map_remove(s: Seq<(Seq<char>, ValueView)>, i: int)
    requires
        no_dup_keys(s),
        0 <= i < s.len(),
    ensures
        no_dup_keys(s.remove(i)),
        slots_map(s.remove(i)) == slots_map(s).remove(s[i].0),
{
    let k = s[i].0;
    let t = s.remove(i);
    assert forall|a: int| 0 <= a < t.len() implies #[trigger] t[a] == s[if a < i {
        a
    } else {
        a + 1
    }] by {}
    assert(no_dup_keys(t)) by {
        assert forall|a: int, b: int|
            0 <= a < t.len() && 0 <= b < t.len() && a != b implies #[trigger] t[a].0
            != #[trigger] t[b].0 by {
            let sa = if a < i {
                a
            } else {
                a + 1
            };
            let sb = if b < i {
                b
            } else {
                b + 1
            };
            assert(t[a] == s[sa] && t[b] == s[sb]);
        }
    }
    assert forall|k2: Seq<char>| #[trigger]
        slots_map(t).contains_key(k2) == slots_map(s).remove(k).contains_key(k2) by {
        if slots_map(s).contains_key(k2) && k2 != k {
            let j = choose|j: int| 0 <= j < s.len() && #[trigger] s[j].0 == k2;
            assert(j != i);
            let tj = if j < i {
                j
            } else {
                j - 1
            };
            assert(t[tj] == s[j]);
        }
        if slots_map(t).contains_key(k2) {
            let j = choose|j: int| 0 <= j < t.len() && #[trigger] t[j].0 == k2;
            let sj = if j < i {
                j
            } else {
                j + 1
            };
            assert(t[j] == s[sj]);
            assert(s[sj].0 == k2);
            assert(sj != i);
        }
    }
    assert forall|k2: Seq<char>| #[trigger] slots_map(t).contains_key(k2) implies slots_map(t)[k2]
        == slots_map(s).remove(k)[k2] by {
        let j = choose|j: int| 0 <= j < t.len() && #[trigger] t[j].0 == k2;
        let sj = if j < i {
            j
        } else {
            j + 1
        };
        assert(t[j] == s[sj]);
        lemma_map_at(t, j);
        lemma_map_at(s, sj);
    }
    assert(slots_map(t) =~= slots_map(s).remove(k));
}

impl View for Storage {
    type V = Map<Seq<char>, ValueView>;

    /// Each stored key with its value.
    closed spec fn view(&self) -> Map<Seq<char>, ValueView> {
        slots_map(self.slot_seq())
    }
}

impl Storage {
    /// The stored keys and values in the order of the store.
    pub closed spec fn slot_seq(&self) -> Seq<(Seq<char>, ValueView)> {
        self.slots@.map_values(|p: (String, StorageValue)| (p.0@, p.1@))
    }

    /// The stored keys in the order of the store.
    pub closed spec fn key_order(&self) -> Seq<Seq<char>> {
        self.slot_seq().map_values(|p: (Seq<char>, ValueView)| p.0)
    }

    /// The latest time given to a write that depends on the time; the store's
    /// clock reads no earlier time.
    pub closed spec fn clock_floor(&self) -> u128 {
        self.last_time
    }

    /// The number of keys the store counts.
    pub closed spec fn total_keys(&self) -> nat {
        self.stats.total_keys as nat
    }

    /// The store's invariant: no key is stored twice, and the count of keys is
    /// the number of stored keys.
    pub closed spec fn wf(&self) -> bool {
        &&& no_dup_keys(self.slot_seq())
        &&& self.stats.total_keys == self.slots@.len()
    }

    /// What holds of a well-formed store: the keys in order are the keys of
    /// the map, each once, and the count is their number.
    pub proof fn lemma_wf(&self)
        requires
            self.wf(),
        ensures
            self.key_order().no_duplicates(),
            self.key_order().len() == self.total_keys(),
            forall|k: Seq<char>| #[trigger] self@.contains_key(k) <==> self.key_order().contains(k),
            self@.dom().finite(),
            self@.len() == self.total_keys(),
    {
        let s = self.slot_seq();
        let ko = self.key_order();
        assert forall|k: Seq<char>| #[trigger] self@.contains_key(k) <==> ko.contains(k) by {
            if self@.contains_key(k) {
                let j = choose|j: int| 0 <= j < s.len() && #[trigger] s[j].0 == k;
                assert(ko[j] == k);
            }
            if ko.contains(k) {
                let j = choose|j: int| 0 <= j < ko.len() && ko[j] == k;
                assert(s[j].0 == k);
            }
        }
        assert(ko.no_duplicates()) by {
            assert forall|a: int, b: int|
                0 <= a < ko.len() && 0 <= b < ko.len() && a != b implies ko[a] != ko[b] by {
                assert(ko[a] == s[a].0 && ko[b] == s[b].0);
            }
        }
        assert(self@.dom() =~= ko.to_set());
        ko.unique_seq_to_set();
    }

    /// An empty store whose clock starts now.
    pub fn new() -> (r: Self)
        ensures
            r.wf(),
            r@ == Map::<Seq<char>, ValueView>::empty(),
            r.key_order() == Seq::<Seq<char>>::empty(),
            r.clock_floor() == 0,
    {
        let r = Storage {
            slots: Vec::new(),
            stats: StorageStats::default(),
            origin: std::time::Instant::now(),
            last_time: 0,
        };
        assert(r@ =~= Map::<Seq<char>, ValueView>::empty());
        assert(r.key_order() =~= Seq::<Seq<char>>::empty());
        r
    }

    /// The present time on the store's clock, in nanoseconds since the store
    /// was made; never earlier than the latest time at which it was changed.
    pub fn now(&self) -> (r: u128)
        ensures
            r >= self.clock_floor(),
    {
        let elapsed = self.origin.elapsed().as_nanos();
        if elapsed < self.last_time {
            self.last_time
        } else {
            elapsed
        }
    }

    /// Records that the store is changed at time `now`.
    pub(crate) fn note_time(&mut self, now: u128)
        requires
            old(self).wf(),
        ensures
            final(self).wf(),
            final(self)@ == old(self)@,
            final(self).slot_seq() == old(self).slot_seq(),
            final(self).key_order() == old(self).key_order(),
            final(self).total_keys() == old(self).total_keys(),
            final(self).clock_floor() == later(old(self).clock_floor(), now),
    {
        if self.last_time < now {
            self.last_time = now;
        }
    }

    /// The place of `key` in the store, if it is stored.
    fn find(&self, key: &String) -> (r: Option<usize>)
        requires
            self.wf(),
        ensures
            r matches Some(i) ==> i < self.slots@.len() && self.slot_seq()[i as int].0 == key@,
            r is None ==> !self@.contains_key(key@),
            r is None ==> forall|i: int|
                0 <= i < self.slot_seq().len() ==> #[trigger] self.slot_seq()[i].0 != key@,
    {
        let mut i: usize = 0;
        while i < self.slots.len()
            invariant
                0 <= i <= self.slots@.len(),
                forall|j: int| 0 <= j < i ==> #[trigger] self.slot_seq()[j].0 != key@,
            decreases self.slots@.len() - i,
        {
            if self.slots[i].0 == *key {
                return Some(i);
            }
            i = i + 1;
        }
        proof {
            lemma_map_absent(self.slot_seq(), key@);
        }
        None
    }

    /// Stores `v` under `key`, in place of any value it had; a new key goes
    /// last in the order of the store.
    fn upsert(&mut self, key: String, v: StorageValue)
        requires
            old(self).wf(),
        ensures
            final(self).wf(),
            final(self)@ == old(self)@.insert(key@, v@),
            old(self)@.contains_key(key@) ==> final(self).key_order() == old(self).key_order(),
            !old(self)@.contains_key(key@) ==> final(self).key_order() == old(self).key_order().push(
                key@,
            ),
            final(self).clock_floor() == old(self).clock_floor(),
    {
        let ghost s = self.slot_seq();
        match self.find(&key) {
            Some(i) => {
                let ghost k = key@;
                self.slots.set(i, (key, v));
                proof {
                    lemma_map_update(s, i as int, v@);
                    assert(self.slot_seq() =~= s.update(i as int, (k, v@)));
                    assert(self.key_order() =~= old(self).key_order());
                }
            },
            None => {
                let ghost k = key@;
                self.slots.push((key, v));
                proof {
                    lemma_map_push(s, k, v@);
                    assert(self.slot_seq() =~= s.push((k, v@)));
                    assert(self.key_order() =~= old(self).key_order().push(k));
                }
            },
        }
        self.stats.total_keys = self.slots.len();
    }

    /// Stores `value` under `key` at time `now` with no expiry, in place of
    /// any value it had.  Replies `+OK`.
    pub fn set_at(&mut self, key: String, value: String, now: u128) -> (r: Response)
        requires
            old(self).wf(),
        ensures
            final(self).wf(),
            final(self)@ == old(self)@.insert(key@, ValueView { value: value@, expires_at: None }),
            old(self)@.contains_key(key@) ==> final(self).key_order() == old(self).key_order(),
            !old(self)@.contains_key(key@) ==> final(self).key_order() == old(self).key_order().push(
                key@,
            ),
            final(self).clock_floor() == later(old(self).clock_floor(), now),
            is_ok_reply(r),
    {
        self.note_time(now);
        self.upsert(key, StorageValue { value, expires_at: None, created_at: now });
        Response::ok()
    }

    /// Stores `value` under `key` with no expiry, in place of any value it had.
    /// Replies `+OK`.
    pub fn set(&mut self, key: String, value: String) -> (r: Result<Response, StorageError>)
        requires
            old(self).wf(),
        ensures
            final(self).wf(),
            final(self)@ == old(self)@.insert(key@, ValueView { value: value@, expires_at: None }),
            old(self)@.contains_key(key@) ==> final(self).key_order() == old(self).key_order(),
            !old(self)@.contains_key(key@) ==> final(self).key_order() == old(self).key_order().push(
                key@,
            ),
            final(self).clock_floor() >= old(self).clock_floor(),
            r matches Ok(resp) && is_ok_reply(resp),
    {
        let now = self.now();
        Ok(self.set_at(key, value, now))
    }

    /// Stores `value` under `key`, in place of any value it had, to expire
    /// `ttl_secs` seconds after the time `now`.  Replies `+OK`.
    pub fn set_ex_at(&mut self, key: String, value: String, ttl_secs: u64, now: u128) -> (r: Response)
        requires
            old(self).wf(),
        ensures
            final(self).wf(),
            final(self)@ == old(self)@.insert(
                key@,
                ValueView { value: value@, expires_at: Some(expiry(now, ttl_secs)) },
            ),
            old(self)@.contains_key(key@) ==> final(self).key_order() == old(self).key_order(),
            !old(self)@.contains_key(key@) ==> final(self).key_order() == old(self).key_order().push(
                key@,
            ),
            final(self).clock_floor() == later(old(self).clock_floor(), now),
            is_ok_reply(r),
    {
        self.note_time(now);
        let expires_at = Some(expires(now, ttl_secs));
        self.upsert(key, StorageValue { value, expires_at, created_at: now });
        Response::ok()
    }

    /// Stores `value` under `key`, in place of any value it had, to expire
    /// `ttl_secs` seconds from now.  Replies `+OK`.
    pub fn set_ex(&mut self, key: String, value: String, ttl_secs: u64) -> (r: Result<
        Response,
        StorageError,
    >)
        requires
            old(self).wf(),
        ensures
            final(self).wf(),
            exists|now: u128|
                {
                    &&& now >= old(self).clock_floor()
                    &&& final(self).clock_floor() == now
                    &&& final(self)@ == old(self)@.insert(
                        key@,
                        ValueView { value: value@, expires_at: Some(#[trigger] expiry(now, ttl_secs)) },
                    )
                },
            old(self)@.contains_key(key@) ==> final(self).key_order() == old(self).key_order(),
            !old(self)@.contains_key(key@) ==> final(self).key_order() == old(self).key_order().push(
                key@,
            ),
            r matches Ok(resp) && is_ok_reply(resp),
    {
        let now = self.now();
        Ok(self.set_ex_at(key, value, ttl_secs, now))
    }

    /// The live value under `key` at time `now` as a bulk string; the null
    /// bulk string when there is none or it has expired.
    pub fn get_at(&self, key: &str, now: u128) -> (r: Response)
        requires
            self.wf(),
        ensures
            is_bulk(r, spec_get(self@, key@, now)),
    {
        let k = key.to_string();
        match self.find(&k) {
            Some(i) => {
                proof {
                    lemma_map_at(self.slot_seq(), i as int);
                }
                let v = &self.slots[i].1;
                let live = match v.expires_at {
                    Some(e) => now < e,
                    None => true,
                };
                if live {
                    Response::BulkString(Some(v.value.clone()))
                } else {
                    Response::BulkString(None)
                }
            },
            None => Response::BulkString(None),
        }
    }

    /// The live value under `key` as a bulk string; the null bulk string when
    /// there is none or it has expired.
    pub fn get(&self, key: &str) -> (r: Result<Response, StorageError>)
        requires
            self.wf(),
        ensures
            r matches Ok(resp) && exists|now: u128|
                now >= self.clock_floor() && is_bulk(resp, #[trigger] spec_get(self@, key@, now)),
    {
        let now = self.now();
        Ok(self.get_at(key, now))
    }

    /// Removes `key`.  Replies 1 when it was stored, expired or not, and 0 otherwise.
    pub fn delete(&mut self, key: &str) -> (r: Result<Response, StorageError>)
        requires
            old(self).wf(),
        ensures
            final(self).wf(),
            final(self)@ == old(self)@.remove(key@),
            final(self).key_order() == without_key(old(self).key_order(), key@),
            final(self).clock_floor() == old(self).clock_floor(),
            r == Ok::<Response, StorageError>(
                Response::Integer(
                    if old(self)@.contains_key(key@) {
                        1
                    } else {
                        0
                    },
                ),
            ),
    {
        let k = key.to_string();
        match self.find(&k) {
            Some(i) => {
                let ghost s = self.slot_seq();
                proof {
                    lemma_map_at(s, i as int);
                    lemma_map_remove(s, i as int);
                }
                self.slots.remove(i);
                self.stats.total_keys = self.slots.len();
                proof {
                    assert(self.slot_seq() =~= s.remove(i as int));
                    let ko = old(self).key_order();
                    assert(self.key_order() =~= ko.remove(i as int));
                    old(self).lemma_wf();
                    lemma_without_key_at(ko, i as int);
                }
                Ok(Response::Integer(1))
            },
            None => {
                assert(old(self)@.remove(key@) =~= old(self)@);
                proof {
                    let ko = old(self).key_order();
                    assert forall|j: int| 0 <= j < ko.len() implies ko[j] != key@ by {
                        assert(ko[j] == self.slot_seq()[j].0);
                    }
                    lemma_without_absent_key(ko, key@);
                }
                Ok(Response::Integer(0))
            },
        }
    }

    /// Replies 1 when a live value is stored under `key` at time `now`, and 0 otherwise.
    pub fn key_exists_at(&self, key: &str, now: u128) -> (r: Response)
        requires
            self.wf(),
        ensures
            r == Response::Integer(
                if spec_get(self@, key@, now) is Some {
                    1
                } else {
                    0
                },
            ),
    {
        let k = key.to_string();
        match self.find(&k) {
            Some(i) => {
                proof {
                    lemma_map_at(self.slot_seq(), i as int);
                }
                let live = match self.slots[i].1.expires_at {
                    Some(e) => now < e,
                    None => true,
                };
                Response::Integer(
                    if live {
                        1
                    } else {
                        0
                    },
                )
            },
            None => Response::Integer(0),
        }
    }

    /// Replies 1 when a live value is stored under `key`, and 0 otherwise.
    pub fn key_exists(&self, key: &str) -> (r: Result<Response, StorageError>)
        requires
            self.wf(),
        ensures
            r matches Ok(resp) && exists|now: u128|
                now >= self.clock_floor() && resp == Response::Integer(
                    if #[trigger] spec_get(self@, key@, now) is Some {
                        1
                    } else {
                        0
                    },
                ),
    {
        let now = self.now();
        Ok(self.key_exists_at(key, now))
    }

    /// Gives the live value under `key` `ttl_secs` seconds to live from the
    /// time `now`, in place of any expiry it had.  Replies 1 when there was
    /// such a value, and 0, leaving the store as it is, otherwise.
    pub fn set_ttl_at(&mut self, key: &str, ttl_secs: u64, now: u128) -> (r: Response)
        requires
            old(self).wf(),
        ensures
            final(self).wf(),
            final(self)@ == spec_set_ttl(old(self)@, key@, ttl_secs, now),
            final(self).key_order() == old(self).key_order(),
            final(self).clock_floor() == later(old(self).clock_floor(), now),
            r == Response::Integer(
                if spec_get(old(self)@, key@, now) is Some {
                    1
                } else {
                    0
                },
            ),
    {
        self.note_time(now);
        let k = key.to_string();
        match self.find(&k) {
            Some(i) => {
                let ghost s = self.slot_seq();
                proof {
                    lemma_map_at(s, i as int);
                }
                let live = match self.slots[i].1.expires_at {
                    Some(e) => now < e,
                    None => true,
                };
                if live {
                    let value = self.slots[i].1.value.clone();
                    let created_at = self.slots[i].1.created_at;
                    let nv = StorageValue {
                        value,
                        expires_at: Some(expires(now, ttl_secs)),
                        created_at,
                    };
                    let ghost nvv = nv@;
                    self.slots.set(i, (k, nv));
                    proof {
                        lemma_map_update(s, i as int, nvv);
                        assert(self.slot_seq() =~= s.update(i as int, (key@, nvv)));
                        assert(self.key_order() =~= old(self).key_order());
                    }
                    Response::Integer(1)
                } else {
                    Response::Integer(0)
                }
            },
            None => Response::Integer(0),
        }
    }

    /// Gives the live value under `key` `ttl_secs` seconds to live from now.
    /// Replies 1 when there was such a value, and 0 otherwise.
    pub fn set_ttl(&mut self, key: &str, ttl_secs: u64) -> (r: Result<Response, StorageError>)
        requires
            old(self).wf(),
        ensures
            final(self).wf(),
            final(self).key_order() == old(self).key_order(),
            exists|now: u128|
                {
                    &&& now >= old(self).clock_floor()
                    &&& final(self).clock_floor() == now
                    &&& final(self)@ == #[trigger] spec_set_ttl(old(self)@, key@, ttl_secs, now)
                    &&& r == Ok::<Response, StorageError>(
                        Response::Integer(
                            if spec_get(old(self)@, key@, now) is Some {
                                1
                            } else {
                                0
                            },
                        ),
                    )
                },
    {
        let now = self.now();
        Ok(self.set_ttl_at(key, ttl_secs, now))
    }
}

impl Storage {
    /// Lists the stored keys, expired or not, in the order of the store: all
    /// of them when there is no pattern; for a pattern with a `*`, those that
    /// contain the pattern without its stars; for any other pattern, the key
    /// equal to it.
    pub fn keys(&self, pattern: Option<&str>) -> (r: Result<Response, StorageError>)
        requires
            self.wf(),
        ensures
            r matches Ok(resp) && is_key_list(
                resp,
                matching_keys(
                    self.key_order(),
                    match pattern {
                        Some(p) => Some(p@),
                        None => None,
                    },
                ),
            ),
    {
        let ghost pat = match pattern {
            Some(p) => Some(p@),
            None => None::<Seq<char>>,
        };
        let (use_star, fragment, exact) = match pattern {
            Some(p) => {
                let pcs = chars_of(p);
                let star = contains_char(&pcs, '*');
                (star, strip_stars(&pcs), Some(p.to_string()))
            },
            None => (false, Vec::new(), None),
        };
        let ghost ko = self.key_order();
        let mut items: Vec<Response> = Vec::new();
        let mut i: usize = 0;
        while i < self.slots.len()
            invariant
                0 <= i <= self.slots@.len(),
                ko == self.key_order(),
                ko.len() == self.slots@.len(),
                pat == (match pattern {
                    Some(p) => Some(p@),
                    None => None::<Seq<char>>,
                }),
                pattern is Some ==> (use_star == pat->0.contains('*') && fragment@ == without_stars(
                    pat->0,
                ) && (exact matches Some(e) && e@ == pat->0)),
                pattern is None ==> exact is None && pat is None,
                items@.len() == matching_keys(ko.take(i as int), pat).len(),
                forall|j: int|
                    0 <= j < items@.len() ==> is_bulk(
                        #[trigger] items@[j],
                        Some(matching_keys(ko.take(i as int), pat)[j]),
                    ),
            decreases self.slots@.len() - i,
        {
            let key = &self.slots[i].0;
            assert(ko[i as int] == key@);
            assert(ko.take(i + 1).drop_last() =~= ko.take(i as int));
            assert(ko.take(i + 1).last() == key@);
            let listed = match &exact {
                None => true,
                Some(e) => if use_star {
                    let kcs = chars_of(key.as_str());
                    contains_substring(&kcs, &fragment)
                } else {
                    *key == *e
                },
            };
            assert(listed == key_matches(key@, pat));
            if listed {
                items.push(Response::BulkString(Some(key.clone())));
            }
            i = i + 1;
        }
        assert(ko.take(self.slots@.len() as int) =~= ko);
        let r = Response::Array(items);
        assert(is_key_list(r, matching_keys(ko, pat))) by {
            assert forall|j: int| 0 <= j < matching_keys(ko, pat).len() implies is_bulk(
                #[trigger] r->Array_0@[j],
                Some(matching_keys(ko, pat)[j]),
            ) by {
                assert(r->Array_0@[j] == items@[j]);
            }
        }
        Ok(r)
    }

    /// Removes every key.  Replies `+OK`.
    pub fn clear(&mut self) -> (r: Result<Response, StorageError>)
        requires
            old(self).wf(),
        ensures
            final(self).wf(),
            final(self)@ == Map::<Seq<char>, ValueView>::empty(),
            final(self).key_order() == Seq::<Seq<char>>::empty(),
            final(self).clock_floor() == old(self).clock_floor(),
            r matches Ok(resp) && is_ok_reply(resp),
    {
        self.slots = Vec::new();
        self.stats.total_keys = 0;
        assert(self@ =~= Map::<Seq<char>, ValueView>::empty());
        assert(self.key_order() =~= Seq::<Seq<char>>::empty());
        Ok(Response::ok())
    }

    /// Reports the number of stored keys, expired or not, as the bulk string
    /// `Stats:` CR LF `total_keys: ` count CR LF.
    pub fn info(&self) -> (r: Result<Response, StorageError>)
        requires
            self.wf(),
        ensures
            r matches Ok(resp) && is_bulk(resp, Some(info_text(self.total_keys()))),
    {
        let mut text = "Stats:\r\ntotal_keys: ".to_string();
        push_decimal_text(&mut text, self.stats.total_keys as u64);
        text.append("\r\n");
        Ok(Response::BulkString(Some(text)))
    }

    /// Removes the values that have expired at time `now`, keeping the others
    /// in their order.
    pub fn remove_expired(&mut self, now: u128)
        requires
            old(self).wf(),
        ensures
            final(self).wf(),
            final(self)@ == spec_purge(old(self)@, now),
            final(self).key_order() == old(self).slot_seq().filter(
                |p: (Seq<char>, ValueView)| is_live(p.1, now),
            ).map_values(|p: (Seq<char>, ValueView)| p.0),
            final(self).clock_floor() == later(old(self).clock_floor(), now),
    {
        self.note_time(now);
        let ghost s = self.slot_seq();
        let mut kept: Vec<(String, StorageValue)> = Vec::new();
        let mut i: usize = 0;
        while i < self.slots.len()
            invariant
                0 <= i <= self.slots@.len(),
                s == self.slot_seq(),
                s.len() == self.slots@.len(),
                kept@.map_values(|p: (String, StorageValue)| (p.0@, p.1@)) == live_slots(
                    s.take(i as int),
                    now,
                ),
            decreases self.slots@.len() - i,
        {
            let ghost before = kept@.map_values(|p: (String, StorageValue)| (p.0@, p.1@));
            assert(s.take(i + 1).drop_last() =~= s.take(i as int));
            assert(s.take(i + 1).last() == s[i as int]);
            let slot = &self.slots[i];
            let live = match slot.1.expires_at {
                Some(e) => now < e,
                None => true,
            };
            if live {
                let copy = StorageValue {
                    value: slot.1.value.clone(),
                    expires_at: slot.1.expires_at,
                    created_at: slot.1.created_at,
                };
                kept.push((slot.0.clone(), copy));
                assert(kept@.map_values(|p: (String, StorageValue)| (p.0@, p.1@)) =~= before.push(
                    s[i as int],
                ));
            }
            i = i + 1;
        }
        proof {
            assert(s.take(s.len() as int) =~= s);
            lemma_live_slots(s, now);
        }
        self.slots = kept;
        self.stats.total_keys = self.slots.len();
        proof {
            assert(self.key_order() =~= live_slots(s, now).map_values(
                |p: (Seq<char>, ValueView)| p.0,
            ));
        }
    }
}

/// The stored keys and values of `s` that are live at time `now`, in order.
pub open spec fn live_slots(s: Seq<(Seq<char>, ValueView)>, now: u128) -> Seq<
    (Seq<char>, ValueView),
>
    decreases s.len(),
{
    if s.len() == 0 {
        Seq::empty()
    } else if is_live(s.last().1, now) {
        live_slots(s.drop_last(), now).push(s.last())
    } else {
        live_slots(s.drop_last(), now)
    }
}

proof fn lemma_live_slots(s: Seq<(Seq<char>, ValueView)>, now: u128)
    requires
        no_dup_keys(s),
    ensures
        no_dup_keys(live_slots(s, now)),
        slots_map(live_slots(s, now)) == spec_purge(slots_map(s), now),
        forall|j: int|
            0 <= j < live_slots(s, now).len() ==> exists|i: int|
                0 <= i < s.len() && s[i] == #[trigger] live_slots(s, now)[j],
        live_slots(s, now) == s.filter(|p: (Seq<char>, ValueView)| is_live(p.1, now)),
    decreases s.len(),
{
    reveal_with_fuel(Seq::filter, 1);
    if s.len() == 0 {
        assert(slots_map(s) =~= Map::<Seq<char>, ValueView>::empty());
        assert(slots_map(live_slots(s, now)) =~= spec_purge(slots_map(s), now));
    } else {
        let d = s.drop_last();
        let (k, v) = s.last();
        assert(no_dup_keys(d)) by {
            assert forall|a: int, b: int|
                0 <= a < d.len() && 0 <= b < d.len() && a != b implies #[trigger] d[a].0
                != #[trigger] d[b].0 by {
                assert(d[a] == s[a] && d[b] == s[b]);
            }
        }
        lemma_live_slots(d, now);
        assert forall|i: int| 0 <= i < d.len() implies #[trigger] d[i].0 != k by {
            assert(d[i] == s[i]);
            assert(s[s.len() - 1].0 == k);
        }
        assert(s =~= d.push((k, v)));
        lemma_map_push(d, k, v);
        let l = live_slots(d, now);
        assert forall|j: int| 0 <= j < l.len() implies #[trigger] l[j].0 != k by {
            let i = choose|i: int| 0 <= i < d.len() && d[i] == l[j];
        }
        if is_live(v, now) {
            lemma_map_push(l, k, v);
            assert(spec_purge(slots_map(s), now) =~= spec_purge(slots_map(d), now).insert(k, v));
            assert forall|j: int| 0 <= j < live_slots(s, now).len() implies exists|i: int|
                0 <= i < s.len() && s[i] == #[trigger] live_slots(s, now)[j] by {
                if j < l.len() {
                    let i = choose|i: int| 0 <= i < d.len() && d[i] == l[j];
                    assert(s[i] == live_slots(s, now)[j]);
                } else {
                    assert(s[s.len() - 1] == live_slots(s, now)[j]);
                }
            }
        } else {
            assert(spec_purge(slots_map(s), now) =~= spec_purge(slots_map(d), now));
            assert forall|j: int| 0 <= j < live_slots(s, now).len() implies exists|i: int|
                0 <= i < s.len() && s[i] == #[trigger] live_slots(s, now)[j] by {
                let i = choose|i: int| 0 <= i < d.len() && d[i] == l[j];
                assert(s[i] == live_slots(s, now)[j]);
            }
        }
    }
}

/// The expiry time of a value given `ttl_secs` seconds to live at time `now`.
fn expires(now: u128, ttl_secs: u64) -> (r: u128)
    ensures
        r == expiry(now, ttl_secs),
{
    let ttl = ttl_secs as u128;
    if ttl > (u128::MAX - now) / 1_000_000_000 {
        u128::MAX
    } else {
        now + ttl * 1_000_000_000
    }
}

} // verus!
