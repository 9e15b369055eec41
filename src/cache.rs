//! The keyspace: string keys bound to values with expiries, and the
//! randomized purge that evicts expired entries.

use vstd::prelude::*;
use rand::Rng;
use rand::rngs::ThreadRng;
use crate::entry::Entry;
use crate::expiry::{Expiry, now};
use vstd::map_lib::lemma_submap_of_trans;

verus! {

/// rand's per-thread random generator, carried through the purge unopened.
#[verifier::external_type_specification]
#[verifier::external_body]
pub struct ExThreadRng(rand::rngs::ThreadRng);

/// Relies on rand's `thread_rng`: the random generator of the calling thread.
#[verifier::external_body]
fn thread_generator() -> ThreadRng {
    rand::thread_rng()
}

/// Relies on rand's `Rng::gen_range` over `0..=hi`, a range that is never
/// empty: a value no larger than `hi`.
#[verifier::external_body]
fn draw_at_most(rng: &mut ThreadRng, hi: usize) -> (r: usize)
    ensures
        r <= hi,
{
    rng.gen_range(0..=hi)
}

/// What a key is bound to: the value and its expiry.
pub open spec fn entry_view(e: Entry) -> (Seq<char>, Expiry) {
    (e.value@, e.expiration)
}

/// The bindings that a sequence of slots holds, later slots winning.
pub open spec fn map_of(s: Seq<(String, Entry)>) -> Map<Seq<char>, (Seq<char>, Expiry)>
    decreases s.len(),
{
    if s.len() == 0 {
        Map::empty()
    } else {
        map_of(s.drop_last()).insert(s.last().0@, entry_view(s.last().1))
    }
}

/// No two slots hold the same key.
pub open spec fn keys_distinct(s: Seq<(String, Entry)>) -> bool {
    forall|i: int, j: int| 0 <= i < s.len() && 0 <= j < s.len() && i != j ==> #[trigger] s[i].0@ != #[trigger] s[j].0@
}

/// With distinct keys, the bindings are exactly the slots.
pub proof fn lemma_map_of(s: Seq<(String, Entry)>)
    requires
        keys_distinct(s),
    ensures
        forall|k: Seq<char>| #[trigger] map_of(s).contains_key(k) <==> exists|i: int| 0 <= i < s.len() && s[i].0@ == k,
        forall|i: int| 0 <= i < s.len() ==> #[trigger] map_of(s)[s[i].0@] == entry_view(s[i].1),
        map_of(s).dom().finite(),
        map_of(s).dom().len() == s.len(),
    decreases s.len(),
{
    if s.len() > 0 {
        let t = s.drop_last();
        let n = s.len() - 1;
        assert forall|i: int, j: int| 0 <= i < t.len() && 0 <= j < t.len() && i != j implies #[trigger] t[i].0@ != #[trigger] t[j].0@ by {
            assert(t[i] == s[i] && t[j] == s[j]);
        }
        lemma_map_of(t);
        let k = s.last().0@;
        if map_of(t).contains_key(k) {
            let i = choose|i: int| 0 <= i < t.len() && t[i].0@ == k;
            assert(s[i] == t[i]);
            assert(s[i].0@ != s[n].0@);
        }
        assert forall|k2: Seq<char>| #[trigger] map_of(s).contains_key(k2) <==> exists|i: int| 0 <= i < s.len() && s[i].0@ == k2 by {
            if map_of(t).contains_key(k2) {
                let i = choose|i: int| 0 <= i < t.len() && t[i].0@ == k2;
                assert(s[i] == t[i]);
            }
            if exists|i: int| 0 <= i < s.len() && s[i].0@ == k2 {
                let i = choose|i: int| 0 <= i < s.len() && s[i].0@ == k2;
                if i < n {
                    assert(t[i] == s[i]);
                }
            }
        }
        assert forall|i: int| 0 <= i < s.len() implies #[trigger] map_of(s)[s[i].0@] == entry_view(s[i].1) by {
            if i < n {
                assert(t[i] == s[i]);
                assert(s[i].0@ != s[n].0@);
            }
        }
    }
}

/// Dropping a slot drops its key's binding.
pub proof fn lemma_map_of_remove(s: Seq<(String, Entry)>, i: int)
    requires
        keys_distinct(s),
        0 <= i < s.len(),
    ensures
        keys_distinct(s.remove(i)),
        map_of(s.remove(i)) == map_of(s).remove(s[i].0@),
{
    let t = s.remove(i);
    assert forall|a: int, b: int| 0 <= a < t.len() && 0 <= b < t.len() && a != b implies #[trigger] t[a].0@ != #[trigger] t[b].0@ by {
        let a2 = if a < i { a } else { a + 1 };
        let b2 = if b < i { b } else { b + 1 };
        assert(t[a] == s[a2] && t[b] == s[b2]);
    }
    lemma_map_of(s);
    lemma_map_of(t);
    let k = s[i].0@;
    let m = map_of(s).remove(k);
    assert forall|k2: Seq<char>| #[trigger] map_of(t).contains_key(k2) <==> m.contains_key(k2) by {
        if map_of(t).contains_key(k2) {
            let a = choose|a: int| 0 <= a < t.len() && t[a].0@ == k2;
            let a2 = if a < i { a } else { a + 1 };
            assert(t[a] == s[a2]);
        }
        if m.contains_key(k2) {
            let a = choose|a: int| 0 <= a < s.len() && s[a].0@ == k2;
            assert(a != i);
            let a2 = if a < i { a } else { a - 1 };
            assert(t[a2] == s[a]);
        }
    }
    assert forall|k2: Seq<char>| #[trigger] map_of(t).contains_key(k2) implies map_of(t)[k2] == m[k2] by {
        let a = choose|a: int| 0 <= a < t.len() && t[a].0@ == k2;
        let a2 = if a < i { a } else { a + 1 };
        assert(t[a] == s[a2]);
    }
    assert(map_of(t) =~= m);
}

/// The keys of `m` whose binding has expired at `now` (or, with `expired`
/// false, has not).
pub open spec fn keys_where(m: Map<Seq<char>, (Seq<char>, Expiry)>, now: u64, expired: bool) -> Set<Seq<char>> {
    m.dom().filter(|k: Seq<char>| m[k].1.expired_at(now) == expired)
}

/// How many slots hold a binding that has expired at `now` (or, with
/// `expired` false, has not).
pub open spec fn count_where(s: Seq<(String, Entry)>, now: u64, expired: bool) -> nat
    decreases s.len(),
{
    if s.len() == 0 {
        0
    } else {
        count_where(s.drop_last(), now, expired) + if s.last().1.expiration.expired_at(now) == expired { 1nat } else { 0nat }
    }
}

/// With distinct keys, counting slots counts keys.
pub proof fn lemma_count_where(s: Seq<(String, Entry)>, now: u64, expired: bool)
    requires
        keys_distinct(s),
    ensures
        keys_where(map_of(s), now, expired).finite(),
        keys_where(map_of(s), now, expired).len() == count_where(s, now, expired),
    decreases s.len(),
{
    lemma_map_of(s);
    if s.len() == 0 {
        assert(keys_where(map_of(s), now, expired) =~= Set::<Seq<char>>::empty());
    } else {
        let t = s.drop_last();
        let n = s.len() - 1;
        assert forall|i: int, j: int| 0 <= i < t.len() && 0 <= j < t.len() && i != j implies #[trigger] t[i].0@ != #[trigger] t[j].0@ by {
            assert(t[i] == s[i] && t[j] == s[j]);
        }
        lemma_map_of(t);
        lemma_count_where(t, now, expired);
        let k = s.last().0@;
        if map_of(t).contains_key(k) {
            let i = choose|i: int| 0 <= i < t.len() && t[i].0@ == k;
            assert(s[i] == t[i]);
            assert(s[i].0@ != s[n].0@);
        }
        let a = keys_where(map_of(s), now, expired);
        let b = keys_where(map_of(t), now, expired);
        if s.last().1.expiration.expired_at(now) == expired {
            assert(a =~= b.insert(k));
        } else {
            assert(a =~= b);
        }
    }
}

/// Distinct indices, all below `n`.
pub open spec fn distinct_below(s: Seq<usize>, n: int) -> bool {
    (forall|i: int| 0 <= i < s.len() ==> #[trigger] s[i] < n)
        && forall|i: int, j: int| 0 <= i < s.len() && 0 <= j < s.len() && i != j ==> #[trigger] s[i] != #[trigger] s[j]
}

/// Whether `x` occurs in `v`.
fn holds(v: &Vec<usize>, x: usize) -> (r: bool)
    ensures
        r <==> exists|i: int| 0 <= i < v@.len() && v@[i] == x,
{
    let mut i: usize = 0;
    while i < v.len()
        invariant
            i <= v@.len(),
            forall|j: int| 0 <= j < i ==> #[trigger] v@[j] != x,
        decreases v@.len() - i,
    {
        if v[i] == x {
            return true;
        }
        i = i + 1;
    }
    false
}

/// `count` distinct random indices below `n`, drawn by Floyd's method, which
/// makes every set of `count` indices equally likely.
fn sample_indices(rng: &mut ThreadRng, n: usize, count: usize) -> (r: Vec<usize>)
    requires
        count <= n,
    ensures
        r@.len() == count,
        distinct_below(r@, n as int),
        count == n ==> forall|i: int| 0 <= i < n ==> #[trigger] r@[i] == i,
{
    let mut out: Vec<usize> = Vec::new();
    if count == n {
        let mut i: usize = 0;
        while i < n
            invariant
                i <= n,
                out@.len() == i,
                forall|a: int| 0 <= a < i ==> #[trigger] out@[a] == a,
            decreases n - i,
        {
            out.push(i);
            i = i + 1;
        }
        return out;
    }
    let mut j: usize = n - count;
    while j < n
        invariant
            n - count <= j <= n,
            out@.len() == j - (n - count),
            distinct_below(out@, j as int),
        decreases n - j,
    {
        let t = draw_at_most(rng, j);
        let pick = if holds(&out, t) { j } else { t };
        proof {
            let o = out@.push(pick);
            assert forall|a: int, b: int| 0 <= a < o.len() && 0 <= b < o.len() && a != b implies #[trigger] o[a] != #[trigger] o[b] by {
                if a < out@.len() && b < out@.len() {
                    assert(o[a] == out@[a] && o[b] == out@[b]);
                } else if a < out@.len() {
                    assert(o[a] == out@[a]);
                } else {
                    assert(o[b] == out@[b]);
                }
            }
            assert forall|a: int| 0 <= a < o.len() implies #[trigger] o[a] < j + 1 by {
                if a < out@.len() {
                    assert(o[a] == out@[a]);
                }
            }
        }
        out.push(pick);
        j = j + 1;
    }
    out
}

/// Every binding of `before` that `after` lacks had expired at `now`.
pub open spec fn only_expired_dropped(
    before: Map<Seq<char>, (Seq<char>, Expiry)>,
    after: Map<Seq<char>, (Seq<char>, Expiry)>,
    now: u64,
) -> bool {
    forall|k: Seq<char>| #[trigger] before.contains_key(k) && !after.contains_key(k) ==> before[k].1.expired_at(now)
}

/// Every key of `keys` is bound in `m` and expired at `now`.
pub open spec fn all_expired_in(m: Map<Seq<char>, (Seq<char>, Expiry)>, keys: Seq<String>, now: u64) -> bool {
    forall|d: int| 0 <= d < keys.len() ==> #[trigger] m.contains_key(keys[d]@) && m[keys[d]@].1.expired_at(now)
}

/// No two keys are the same.
pub open spec fn distinct_keys(keys: Seq<String>) -> bool {
    forall|d1: int, d2: int| 0 <= d1 < keys.len() && 0 <= d2 < keys.len() && d1 != d2
        ==> #[trigger] keys[d1]@ != #[trigger] keys[d2]@
}

/// The smaller of two numbers.
pub open spec fn min_of(a: int, b: int) -> int {
    if a < b { a } else { b }
}

/// Every binding of `m` has expired at `now`.
pub open spec fn all_expired(m: Map<Seq<char>, (Seq<char>, Expiry)>, now: u64) -> bool {
    forall|k: Seq<char>| #[trigger] m.contains_key(k) ==> m[k].1.expired_at(now)
}

/// No binding of `m` has expired at `now`.
pub open spec fn no_expired(m: Map<Seq<char>, (Seq<char>, Expiry)>, now: u64) -> bool {
    forall|k: Seq<char>| #[trigger] m.contains_key(k) ==> !m[k].1.expired_at(now)
}

/// What a purge at `now` leaves of `before`: a part of it, missing only
/// bindings expired at `now`; nothing when every binding had expired; and
/// no expired binding when `before` fits in one sample of `sample` keys.
pub open spec fn purged_at(
    before: Map<Seq<char>, (Seq<char>, Expiry)>,
    after: Map<Seq<char>, (Seq<char>, Expiry)>,
    now: u64,
    sample: usize,
) -> bool {
    &&& after.submap_of(before)
    &&& only_expired_dropped(before, after, now)
    &&& all_expired(before, now) ==> after.len() == 0
    &&& before.len() <= sample ==> keys_where(after, now, true).len() == 0
}

/// What one call of the purge did in its last pass.
#[derive(Clone, Copy, Debug, PartialEq, Eq, Structural)]
pub struct PurgeStats {
    /// Entries removed over all passes.
    pub removed: usize,
    /// Entries sampled in the last pass.
    pub last_sampled: usize,
    /// Sampled entries found expired in the last pass.
    pub last_expired: usize,
}

/// The sampled-expired share has reached the threshold (a percentage), so
/// the purge goes on.
pub open spec fn keeps_purging(expired: int, sampled: int, threshold: int) -> bool {
    expired * 100 >= sampled * threshold
}

/// The keyspace and the purge's configuration.
///
/// The bindings live in a vector of slots whose keys are kept distinct. A
/// `BTreeMap<String, Entry>` would give proofs nothing here: vstd states its
/// behaviour only for key types whose ordering it specifies, and it
/// specifies none for `String`.
pub struct Cache {
    store: Vec<(String, Entry)>,
    sample: usize,
    threshold: u64,
    frequency: u64,
}

impl View for Cache {
    type V = Map<Seq<char>, (Seq<char>, Expiry)>;

    closed spec fn view(&self) -> Map<Seq<char>, (Seq<char>, Expiry)> {
        map_of(self.store@)
    }
}

impl Default for Cache {
    fn default() -> (r: Cache)
        ensures
            r.wf(),
            r@ == Map::<Seq<char>, (Seq<char>, Expiry)>::empty(),
            r.sample_spec() == 25,
            r.threshold_spec() == 25,
            r.frequency_spec() == 1000,
    {
        Cache::with_defaults()
    }
}

/// The value that a read finds for `k` at `now`, if any.
pub open spec fn read_spec(m: Map<Seq<char>, (Seq<char>, Expiry)>, k: Seq<char>, now: u64) -> Option<Seq<char>> {
    if m.contains_key(k) && !m[k].1.expired_at(now) {
        Some(m[k].0)
    } else {
        None
    }
}

/// The bindings after a read of `k` at `now`: an expired binding is dropped.
pub open spec fn after_read(m: Map<Seq<char>, (Seq<char>, Expiry)>, k: Seq<char>, now: u64) -> Map<Seq<char>, (Seq<char>, Expiry)> {
    if m.contains_key(k) && m[k].1.expired_at(now) {
        m.remove(k)
    } else {
        m
    }
}

/// Whether a key is absent from the cache.
#[derive(Clone, Copy, Debug, PartialEq, Eq, Structural)]
pub enum CacheError {
    /// No entry is stored under the key.
    NoSuchKey,
}

impl Cache {
    /// The cache's invariant: keys are distinct and the configuration is in range.
    pub closed spec fn wf(&self) -> bool {
        keys_distinct(self.store@) && 0 < self.sample && 0 < self.threshold <= 100
    }

    /// How many keys one purge pass samples at most.
    pub closed spec fn sample_spec(&self) -> usize {
        self.sample
    }

    /// How often the purge is meant to run, in milliseconds.
    pub closed spec fn frequency_spec(&self) -> u64 {
        self.frequency
    }

    /// The purge's threshold, as a percentage.
    pub closed spec fn threshold_spec(&self) -> u64 {
        self.threshold
    }

    /// A cache with no entries, sampling `sample` keys per purge pass and
    /// going on while at least `threshold` percent of a sample was expired;
    /// the purge is meant to run every `frequency` milliseconds.
    pub fn new(sample: usize, threshold: u64, frequency: u64) -> (r: Cache)
        requires
            sample > 0,
            0 < threshold <= 100,
        ensures
            r.wf(),
            r@ == Map::<Seq<char>, (Seq<char>, Expiry)>::empty(),
            r.sample_spec() == sample,
            r.threshold_spec() == threshold,
            r.frequency_spec() == frequency,
    {
        let r = Cache { store: Vec::new(), sample, threshold, frequency };
        proof {
            assert(r.store@ =~= Seq::<(String, Entry)>::empty());
        }
        r
    }

    /// A cache that samples 25 keys per pass, with a threshold of 25 percent,
    /// purging every second.
    pub fn with_defaults() -> (r: Cache)
        ensures
            r.wf(),
            r@ == Map::<Seq<char>, (Seq<char>, Expiry)>::empty(),
            r.sample_spec() == 25,
            r.threshold_spec() == 25,
            r.frequency_spec() == 1000,
    {
        Cache::new(25, 25, 1000)
    }

    /// How many keys one purge pass samples at most.
    pub fn sample(&self) -> (r: usize)
        ensures
            r == self.sample_spec(),
    {
        self.sample
    }

    /// The purge's threshold, as a percentage.
    pub fn threshold(&self) -> (r: u64)
        ensures
            r == self.threshold_spec(),
    {
        self.threshold
    }

    /// How often the purge is meant to run, in milliseconds.
    pub fn frequency(&self) -> (r: u64)
        ensures
            r == self.frequency_spec(),
    {
        self.frequency
    }

    /// Where `key` is stored, if anywhere.
    fn find(&self, key: &String) -> (r: Option<usize>)
        requires
            self.wf(),
        ensures
            match r {
                Some(i) => i < self.store@.len() && self.store@[i as int].0@ == key@,
                None => !self@.contains_key(key@),
            },
    {
        let mut i: usize = 0;
        while i < self.store.len()
            invariant
                i <= self.store@.len(),
                forall|j: int| 0 <= j < i ==> #[trigger] self.store@[j].0@ != key@,
            decreases self.store@.len() - i,
        {
            if self.store[i].0 == *key {
                return Some(i);
            }
            i = i + 1;
        }
        proof {
            lemma_map_of(self.store@);
        }
        None
    }

    /// Drops the slot at `i`.
    fn remove_slot(&mut self, i: usize)
        requires
            old(self).wf(),
            i < old(self).store@.len(),
        ensures
            final(self).wf(),
            final(self)@ == old(self)@.remove(old(self).store@[i as int].0@),
            final(self).store@.len() == old(self).store@.len() - 1,
            final(self).sample == old(self).sample,
            final(self).threshold == old(self).threshold,
            final(self).frequency == old(self).frequency,
    {
        proof {
            lemma_map_of_remove(self.store@, i as int);
        }
        self.store.remove(i);
    }

    /// Binds `key` to `entry`, replacing what it was bound to.
    fn insert(&mut self, key: String, entry: Entry)
        requires
            old(self).wf(),
        ensures
            final(self).wf(),
            final(self)@ == old(self)@.insert(key@, entry_view(entry)),
            final(self).sample == old(self).sample,
            final(self).threshold == old(self).threshold,
    {
        let ghost k = key@;
        match self.find(&key) {
            Some(i) => {
                self.remove_slot(i);
            },
            None => {
                proof {
                    assert(self@.remove(k) =~= self@);
                }
            },
        }
        proof {
            lemma_map_of(self.store@);
            let s = self.store@;
            let t = s.push((key, entry));
            assert forall|a: int, b: int| 0 <= a < t.len() && 0 <= b < t.len() && a != b implies #[trigger] t[a].0@ != #[trigger] t[b].0@ by {
                if a < s.len() && b < s.len() {
                    assert(t[a] == s[a] && t[b] == s[b]);
                } else if a < s.len() {
                    assert(t[a] == s[a]);
                    assert(map_of(s).contains_key(s[a].0@));
                } else {
                    assert(t[b] == s[b]);
                    assert(map_of(s).contains_key(s[b].0@));
                }
            }
            assert(t.drop_last() =~= s);
            assert(old(self)@.remove(k).insert(k, entry_view(entry)) =~= old(self)@.insert(k, entry_view(entry)));
        }
        self.store.push((key, entry));
    }

    /// Binds `key` to `value`, never to expire.
    pub fn set(&mut self, key: String, value: String)
        requires
            old(self).wf(),
        ensures
            final(self).wf(),
            final(self)@ == old(self)@.insert(key@, (value@, Expiry { instant: None })),
            final(self).sample_spec() == old(self).sample_spec(),
            final(self).threshold_spec() == old(self).threshold_spec(),
    {
        let entry = Entry::new(value, Expiry::none());
        self.insert(key, entry);
    }

    /// Binds `key` to `value` until `expiry`.
    pub fn set_with_expiry(&mut self, key: String, value: String, expiry: Expiry)
        requires
            old(self).wf(),
        ensures
            final(self).wf(),
            final(self)@ == old(self)@.insert(key@, (value@, expiry)),
            final(self).sample_spec() == old(self).sample_spec(),
            final(self).threshold_spec() == old(self).threshold_spec(),
    {
        let entry = Entry::new(value, expiry);
        self.insert(key, entry);
    }

    /// The value bound to `key` at `now`; a binding found expired is dropped.
    pub fn get_at(&mut self, key: String, now: u64) -> (r: Option<String>)
        requires
            old(self).wf(),
        ensures
            final(self).wf(),
            match r {
                Some(v) => read_spec(old(self)@, key@, now) == Some(v@),
                None => read_spec(old(self)@, key@, now) is None,
            },
            final(self)@ == after_read(old(self)@, key@, now),
            final(self).sample_spec() == old(self).sample_spec(),
            final(self).threshold_spec() == old(self).threshold_spec(),
    {
        proof {
            lemma_map_of(self.store@);
        }
        match self.find(&key) {
            None => None,
            Some(i) => {
                if self.store[i].1.expiration.is_expired_at(now) {
                    self.remove_slot(i);
                    None
                } else {
                    Some(self.store[i].1.value.clone())
                }
            },
        }
    }

    /// What a read of `key` at `now` finds, when the read leaves the bindings
    /// as they are; `None` when the key is bound to an expired entry, which
    /// a read must drop (`get_at`).
    pub fn peek_at(&self, key: &String, now: u64) -> (r: Option<Option<String>>)
        requires
            self.wf(),
        ensures
            r is None <==> (self@.contains_key(key@) && self@[key@].1.expired_at(now)),
            r matches Some(found) ==> match found {
                Some(v) => read_spec(self@, key@, now) == Some(v@),
                None => read_spec(self@, key@, now) is None,
            },
    {
        proof {
            lemma_map_of(self.store@);
        }
        match self.find(key) {
            None => Some(None),
            Some(i) => {
                if self.store[i].1.expiration.is_expired_at(now) {
                    None
                } else {
                    Some(Some(self.store[i].1.value.clone()))
                }
            },
        }
    }

    /// The value bound to `key` on the clock's present reading; a binding
    /// found expired is dropped.
    pub fn get(&mut self, key: String) -> (r: Option<String>)
        requires
            old(self).wf(),
        ensures
            final(self).wf(),
            exists|t: u64|
                (match r {
                    Some(v) => read_spec(old(self)@, key@, t) == Some(v@),
                    None => read_spec(old(self)@, key@, t) is None,
                }) && final(self)@ == after_read(old(self)@, key@, t),
            final(self).sample_spec() == old(self).sample_spec(),
            final(self).threshold_spec() == old(self).threshold_spec(),
    {
        let t = now();
        self.get_at(key, t)
    }

    /// Drops the binding of `key`; fails when there is none.
    pub fn remove(&mut self, key: String) -> (r: Result<(), CacheError>)
        requires
            old(self).wf(),
        ensures
            final(self).wf(),
            r is Ok <==> old(self)@.contains_key(key@),
            final(self)@ == old(self)@.remove(key@),
            final(self).sample_spec() == old(self).sample_spec(),
            final(self).threshold_spec() == old(self).threshold_spec(),
    {
        match self.find(&key) {
            None => {
                proof {
                    assert(self@.remove(key@) =~= self@);
                }
                Err(CacheError::NoSuchKey)
            },
            Some(i) => {
                proof {
                    lemma_map_of(self.store@);
                }
                self.remove_slot(i);
                Ok(())
            },
        }
    }

    /// Whether `key` is bound, expired or not.
    pub fn key_exists(&self, key: String) -> (r: bool)
        requires
            self.wf(),
        ensures
            r == self@.contains_key(key@),
    {
        proof {
            lemma_map_of(self.store@);
        }
        self.find(&key).is_some()
    }

    /// How many keys are bound.
    pub fn len(&self) -> (r: usize)
        requires
            self.wf(),
        ensures
            r == self@.len(),
    {
        proof {
            lemma_map_of(self.store@);
        }
        self.store.len()
    }

    /// Whether no key is bound.
    pub fn is_empty(&self) -> (r: bool)
        requires
            self.wf(),
        ensures
            r == (self@.len() == 0),
    {
        proof {
            lemma_map_of(self.store@);
        }
        self.store.len() == 0
    }

    /// Drops the binding of `key` if it has expired at `now`.
    fn evict_if_expired(&mut self, key: &String, now: u64) -> (r: bool)
        requires
            old(self).wf(),
        ensures
            final(self).wf(),
            r == (old(self)@.contains_key(key@) && old(self)@[key@].1.expired_at(now)),
            final(self)@ == (if r { old(self)@.remove(key@) } else { old(self)@ }),
            final(self).store@.len() == old(self).store@.len() - (if r { 1int } else { 0int }),
            final(self).sample == old(self).sample,
            final(self).threshold == old(self).threshold,
            final(self).frequency == old(self).frequency,
    {
        proof {
            lemma_map_of(self.store@);
        }
        match self.find(key) {
            None => false,
            Some(i) => {
                if self.store[i].1.expiration.is_expired_at(now) {
                    self.remove_slot(i);
                    true
                } else {
                    false
                }
            },
        }
    }

    /// The sampling phase of one purge pass, which leaves the cache as it
    /// is: draws `min(S, N)` distinct random keys out of the `N` stored and
    /// gives the ones expired at `now`, with the number drawn.
    pub fn sample_expired_at(&self, now: u64) -> (r: (Vec<String>, usize))
        requires
            self.wf(),
        ensures
            r.1 == min_of(self.sample_spec() as int, self@.len() as int),
            r.0@.len() <= r.1,
            all_expired_in(self@, r.0@, now),
            distinct_keys(r.0@),
            all_expired(self@, now) ==> r.0@.len() == r.1,
            r.1 == self@.len() ==> forall|k: Seq<char>| #[trigger] self@.contains_key(k) && self@[k].1.expired_at(now)
                ==> exists|d: int| 0 <= d < r.0@.len() && r.0@[d]@ == k,
    {
        proof {
            lemma_map_of(self.store@);
        }
        let n = self.store.len();
        let count = if self.sample < n { self.sample } else { n };
        let mut rng = thread_generator();
        let picks = sample_indices(&mut rng, n, count);
        let ghost snapshot = self@;
        let ghost slots = self.store@;
        let mut doomed: Vec<String> = Vec::new();
        let ghost mut from: Seq<int> = Seq::empty();
        let ghost mut hit: Seq<int> = Seq::new(n as nat, |x: int| 0int);
        let mut i: usize = 0;
        while i < picks.len()
            invariant
                self.wf(),
                self.store@ == slots,
                slots.len() == n,
                snapshot == self@,
                snapshot == map_of(slots),
                picks@.len() == count,
                count <= n,
                distinct_below(picks@, n as int),
                count == n ==> forall|a: int| 0 <= a < n ==> #[trigger] picks@[a] == a,
                i <= picks@.len(),
                doomed@.len() <= i,
                all_expired_in(snapshot, doomed@, now),
                from.len() == doomed@.len(),
                hit.len() == n,
                forall|d: int| 0 <= d < doomed@.len() ==> 0 <= #[trigger] from[d] < i
                    && doomed@[d]@ == slots[picks@[from[d]] as int].0@,
                forall|d1: int, d2: int| 0 <= d1 < d2 < doomed@.len() ==> #[trigger] from[d1] < #[trigger] from[d2],
                count == n ==> forall|a: int| 0 <= a < i && #[trigger] slots[a].1.expiration.expired_at(now)
                    ==> 0 <= hit[a] < doomed@.len() && doomed@[hit[a]]@ == slots[a].0@,
                all_expired(snapshot, now) ==> doomed@.len() == i,
            decreases picks@.len() - i,
        {
            let idx = picks[i];
            if self.store[idx].1.expiration.is_expired_at(now) {
                let key = self.store[idx].0.clone();
                let ghost prior = doomed@;
                proof {
                    lemma_map_of(self.store@);
                    assert(self@.contains_key(self.store@[idx as int].0@));
                    assert(self@[self.store@[idx as int].0@] == entry_view(self.store@[idx as int].1));
                    assert(key@ == self.store@[idx as int].0@);
                }
                doomed.push(key);
                proof {
                    let old_from = from;
                    from = from.push(i as int);
                    if count == n {
                        hit = hit.update(i as int, prior.len() as int);
                    }
                    assert forall|d: int| 0 <= d < doomed@.len() implies #[trigger] snapshot.contains_key(doomed@[d]@)
                        && snapshot[doomed@[d]@].1.expired_at(now) by {
                        if d < prior.len() {
                            assert(doomed@[d] == prior[d]);
                        }
                    }
                    assert forall|d: int| 0 <= d < doomed@.len() implies 0 <= #[trigger] from[d] < i + 1
                        && doomed@[d]@ == slots[picks@[from[d]] as int].0@ by {
                        if d < prior.len() {
                            assert(doomed@[d] == prior[d]);
                            assert(from[d] == old_from[d]);
                        }
                    }
                    assert forall|d1: int, d2: int| 0 <= d1 < d2 < doomed@.len() implies #[trigger] from[d1] < #[trigger] from[d2] by {
                        if d2 < prior.len() {
                            assert(from[d1] == old_from[d1] && from[d2] == old_from[d2]);
                        } else {
                            assert(from[d1] == old_from[d1]);
                        }
                    }
                    if count == n {
                        assert forall|a: int| 0 <= a < i + 1 && #[trigger] slots[a].1.expiration.expired_at(now)
                            implies 0 <= hit[a] < doomed@.len() && doomed@[hit[a]]@ == slots[a].0@ by {
                            if a < i {
                                assert(doomed@[hit[a]] == prior[hit[a]]);
                            } else {
                                assert(picks@[i as int] == i);
                            }
                        }
                    }
                }
            } else {
                proof {
                    if all_expired(snapshot, now) {
                        lemma_map_of(self.store@);
                        assert(snapshot.contains_key(slots[idx as int].0@));
                    }
                    if count == n {
                        assert(picks@[i as int] == i);
                    }
                }
            }
            i = i + 1;
        }
        proof {
            assert forall|d1: int, d2: int| 0 <= d1 < doomed@.len() && 0 <= d2 < doomed@.len() && d1 != d2
                implies #[trigger] doomed@[d1]@ != #[trigger] doomed@[d2]@ by {
                let (a, b) = if d1 < d2 { (d1, d2) } else { (d2, d1) };
                assert(from[a] < from[b]);
                assert(picks@[from[a]] != picks@[from[b]]);
            }
            if count == n {
                assert forall|k: Seq<char>| #[trigger] snapshot.contains_key(k) && snapshot[k].1.expired_at(now)
                    implies exists|d: int| 0 <= d < doomed@.len() && doomed@[d]@ == k by {
                    let a = choose|a: int| 0 <= a < slots.len() && slots[a].0@ == k;
                    assert(snapshot[k] == entry_view(slots[a].1));
                    assert(doomed@[hit[a]]@ == k);
                }
            }
        }
        (doomed, count)
    }

    /// The eviction phase of one purge pass: drops each listed key that is
    /// bound to an entry expired at `now`, and no other, giving how many went.
    pub fn evict_expired_at(&mut self, keys: &Vec<String>, now: u64) -> (gone: usize)
        requires
            old(self).wf(),
        ensures
            final(self).wf(),
            final(self).sample_spec() == old(self).sample_spec(),
            final(self).threshold_spec() == old(self).threshold_spec(),
            final(self).frequency_spec() == old(self).frequency_spec(),
            final(self)@.submap_of(old(self)@),
            only_expired_dropped(old(self)@, final(self)@, now),
            forall|d: int| 0 <= d < keys@.len() ==> !(#[trigger] final(self)@.contains_key(keys@[d]@)
                && final(self)@[keys@[d]@].1.expired_at(now)),
            forall|k: Seq<char>| #[trigger] old(self)@.contains_key(k) && !final(self)@.contains_key(k)
                ==> exists|d: int| 0 <= d < keys@.len() && keys@[d]@ == k,
            final(self)@.len() == old(self)@.len() - gone,
            all_expired_in(old(self)@, keys@, now) && distinct_keys(keys@) ==> gone == keys@.len(),
    {
        let ghost start = self@;
        proof {
            lemma_map_of(self.store@);
        }
        let mut gone: usize = 0;
        let mut j: usize = 0;
        while j < keys.len()
            invariant
                self.wf(),
                self.sample == old(self).sample,
                self.threshold == old(self).threshold,
                self.frequency == old(self).frequency,
                start == old(self)@,
                j <= keys@.len(),
                gone <= j,
                self.store@.len() == old(self).store@.len() - gone,
                old(self).store@.len() == start.len(),
                self@.submap_of(start),
                only_expired_dropped(start, self@, now),
                forall|d: int| 0 <= d < j ==> !(#[trigger] self@.contains_key(keys@[d]@) && self@[keys@[d]@].1.expired_at(now)),
                forall|k: Seq<char>| #[trigger] start.contains_key(k) && !self@.contains_key(k)
                    ==> exists|d: int| 0 <= d < j && keys@[d]@ == k,
                all_expired_in(start, keys@, now) && distinct_keys(keys@) ==> gone == j
                    && forall|d: int| j <= d < keys@.len() ==> #[trigger] self@.contains_key(keys@[d]@),
            decreases keys@.len() - j,
        {
            let ghost before = self@;
            let evicted = self.evict_if_expired(&keys[j], now);
            proof {
                let kj = keys@[j as int]@;
                lemma_submap_of_trans(self@, before, start);
                assert forall|k: Seq<char>| #[trigger] start.contains_key(k) && !self@.contains_key(k)
                    implies start[k].1.expired_at(now) by {
                    if before.contains_key(k) {
                        assert(k == kj);
                        assert(before[k] == start[k]);
                    }
                }
                assert forall|d: int| 0 <= d < j + 1 implies !(#[trigger] self@.contains_key(keys@[d]@) && self@[keys@[d]@].1.expired_at(now)) by {
                    if d < j && self@.contains_key(keys@[d]@) {
                        assert(before.contains_key(keys@[d]@) && self@[keys@[d]@] == before[keys@[d]@]);
                    }
                }
                assert forall|k: Seq<char>| #[trigger] start.contains_key(k) && !self@.contains_key(k)
                    implies exists|d: int| 0 <= d < j + 1 && keys@[d]@ == k by {
                    if before.contains_key(k) {
                        assert(k == kj);
                        assert(keys@[j as int]@ == k);
                    } else {
                        let d = choose|d: int| 0 <= d < j && keys@[d]@ == k;
                        assert(keys@[d]@ == k);
                    }
                }
                if all_expired_in(start, keys@, now) && distinct_keys(keys@) {
                    assert(0 <= j < keys@.len());
                    assert(start.contains_key(keys@[j as int]@) && start[keys@[j as int]@].1.expired_at(now));
                    assert(before.contains_key(kj));
                    assert(before[kj] == start[kj]);
                    assert forall|d: int| j + 1 <= d < keys@.len() implies #[trigger] self@.contains_key(keys@[d]@) by {
                        assert(before.contains_key(keys@[d]@));
                        assert(keys@[d]@ != kj);
                    }
                }
            }
            if evicted {
                gone = gone + 1;
            }
            j = j + 1;
        }
        proof {
            lemma_map_of(self.store@);
            lemma_map_of(old(self).store@);
        }
        gone
    }

    /// Evicts expired entries by sampling: each pass reads `min(S, N)`
    /// distinct random keys out of the `N` stored, drops those expired at
    /// `now`, and the purge goes on while at least the threshold's share of
    /// the sample was expired. Only keys expired at `now` are dropped; when
    /// every key has expired the cache ends empty, and when one sample covers
    /// the whole cache every expired key goes.
    pub fn purge_at(&mut self, now: u64) -> (stats: PurgeStats)
        requires
            old(self).wf(),
        ensures
            final(self).wf(),
            final(self).sample_spec() == old(self).sample_spec(),
            final(self).threshold_spec() == old(self).threshold_spec(),
            final(self).frequency_spec() == old(self).frequency_spec(),
            purged_at(old(self)@, final(self)@, now, old(self).sample_spec()),
            stats.removed == old(self)@.len() - final(self)@.len(),
            stats.last_expired <= stats.last_sampled <= old(self).sample_spec(),
            old(self)@.len() > 0 ==> stats.last_sampled == min_of(
                old(self).sample_spec() as int,
                final(self)@.len() + stats.last_expired,
            ),
            final(self)@.len() == 0 || !keeps_purging(stats.last_expired as int, stats.last_sampled as int, old(self).threshold_spec() as int),
            old(self)@.len() == 0 ==> final(self)@ == old(self)@ && stats.removed == 0,
    {
        let ghost start = self@;
        proof {
            lemma_map_of(self.store@);
        }
        let total = self.store.len();
        let mut stats = PurgeStats { removed: 0, last_sampled: 0, last_expired: 0 };
        let ghost mut first = true;
        loop
            invariant
                self.wf(),
                self.sample == old(self).sample,
                self.threshold == old(self).threshold,
                self.frequency == old(self).frequency,
                start == old(self)@,
                self@.submap_of(start),
                only_expired_dropped(start, self@, now),
                stats.removed + self.store@.len() == old(self).store@.len(),
                total == old(self).store@.len(),
                old(self).store@.len() == start.len(),
                stats.last_expired <= stats.last_sampled <= self.sample,
                first ==> self@ == start && self.store@.len() == total,
                !first ==> stats.last_sampled == min_of(self.sample as int, self.store@.len() + stats.last_expired),
                !first && start.len() <= self.sample ==> no_expired(self@, now),
                all_expired(start, now) ==> all_expired(self@, now),
            ensures
                self.wf(),
                self.sample == old(self).sample,
                self.threshold == old(self).threshold,
                self.frequency == old(self).frequency,
                self@.submap_of(start),
                only_expired_dropped(start, self@, now),
                stats.removed + self.store@.len() == old(self).store@.len(),
                stats.last_expired <= stats.last_sampled <= self.sample,
                self.store@.len() == 0 || !keeps_purging(stats.last_expired as int, stats.last_sampled as int, self.threshold as int),
                first ==> self@ == start && self.store@.len() == 0,
                !first ==> stats.last_sampled == min_of(self.sample as int, self.store@.len() + stats.last_expired),
                !first && start.len() <= self.sample ==> no_expired(self@, now),
                all_expired(start, now) ==> self.store@.len() == 0,
            decreases self.store@.len(),
        {
            let n = self.store.len();
            if n == 0 {
                break;
            }
            proof {
                lemma_map_of(self.store@);
            }
            let ghost snapshot = self@;
            let (doomed, count) = self.sample_expired_at(now);
            let expired = doomed.len();
            let gone = self.evict_expired_at(&doomed, now);
            proof {
                lemma_map_of(self.store@);
                assert(gone == expired);
                assert forall|k: Seq<char>| #[trigger] start.contains_key(k) && !self@.contains_key(k) implies start[k].1.expired_at(now) by {
                    if snapshot.contains_key(k) {
                        assert(snapshot[k] == start[k]);
                    }
                }
                lemma_submap_of_trans(self@, snapshot, start);
                if count == n {
                    let ghost cur = self@;
                    assert forall|k: Seq<char>| #[trigger] cur.contains_key(k) implies !cur[k].1.expired_at(now) by {
                        assert(cur.dom().contains(k));
                        assert(snapshot.dom().contains(k));
                        assert(cur[k] == snapshot[k]);
                        if cur[k].1.expired_at(now) {
                            let d = choose|d: int| 0 <= d < doomed@.len() && doomed@[d]@ == k;
                            assert(!(cur.contains_key(doomed@[d]@) && cur[doomed@[d]@].1.expired_at(now)));
                        }
                    }
                }
                if all_expired(start, now) {
                    assert forall|k: Seq<char>| #[trigger] snapshot.contains_key(k) implies snapshot[k].1.expired_at(now) by {
                        assert(start.contains_key(k) && snapshot[k] == start[k]);
                    }
                    assert(expired == count);
                }
                if !first && start.len() <= self.sample {
                    let ghost cur = self@;
                    assert forall|k: Seq<char>| #[trigger] cur.contains_key(k) implies !cur[k].1.expired_at(now) by {
                        assert(cur.dom().contains(k));
                        assert(snapshot.dom().contains(k));
                        assert(cur[k] == snapshot[k]);
                    }
                }
                if first && start.len() <= self.sample {
                    assert(count == n);
                }
                if all_expired(start, now) {
                    assert forall|k: Seq<char>| #[trigger] self@.contains_key(k) implies self@[k].1.expired_at(now) by {
                        assert(start.contains_key(k) && self@[k] == start[k]);
                    }
                }
                first = false;
            }
            stats.removed = stats.removed + gone;
            stats.last_sampled = count;
            stats.last_expired = expired;
            proof {
                assert(count * self.threshold <= 0xffff_ffff_ffff_ffffu128 * 100) by (nonlinear_arith)
                    requires self.threshold <= 100, count <= 0xffff_ffff_ffff_ffffu128;
            }
            if !self.purge_continues(expired, count) {
                proof {
                    if all_expired(start, now) {
                        assert(count * self.threshold <= count * 100) by (nonlinear_arith)
                            requires self.threshold <= 100;
                    }
                }
                break;
            }
            proof {
                assert(count > 0);
                assert(count * self.threshold >= 1) by (nonlinear_arith)
                    requires count > 0, self.threshold > 0;
            }
        }
        proof {
            lemma_map_of(self.store@);
            lemma_map_of(old(self).store@);
            if start.len() == 0 {
                assert(self@ =~= start);
            }
            if start.len() <= self.sample {
                if first {
                    assert(no_expired(self@, now));
                }
                assert(keys_where(self@, now, true) =~= Set::<Seq<char>>::empty());
            }
        }
        stats
    }

    /// Whether a purge goes on after a pass that found `expired` of
    /// `sampled` keys expired: when at least the threshold's share was.
    pub fn purge_continues(&self, expired: usize, sampled: usize) -> (r: bool)
        ensures
            r == keeps_purging(expired as int, sampled as int, self.threshold_spec() as int),
    {
        proof {
            assert(sampled * self.threshold <= 0xffff_ffff_ffff_ffffu128 * 0xffff_ffff_ffff_ffffu128) by (nonlinear_arith)
                requires self.threshold <= 0xffff_ffff_ffff_ffffu128, sampled <= 0xffff_ffff_ffff_ffffu128;
        }
        (expired as u128) * 100 >= (sampled as u128) * (self.threshold as u128)
    }

    /// Runs the purge with the clock's present reading: only keys expired
    /// at that reading are dropped; when every key has expired at it the
    /// cache ends empty, and when one sample covers the whole cache every key
    /// expired at it goes.
    pub fn purge(&mut self) -> (stats: PurgeStats)
        requires
            old(self).wf(),
        ensures
            final(self).wf(),
            final(self).sample_spec() == old(self).sample_spec(),
            final(self).threshold_spec() == old(self).threshold_spec(),
            final(self).frequency_spec() == old(self).frequency_spec(),
            exists|t: u64| #[trigger] purged_at(old(self)@, final(self)@, t, old(self).sample_spec()),
            forall|k: Seq<char>| #[trigger] old(self)@.contains_key(k) && old(self)@[k].1.instant is None
                ==> final(self)@.contains_key(k),
            stats.removed == old(self)@.len() - final(self)@.len(),
            stats.last_expired <= stats.last_sampled <= old(self).sample_spec(),
            old(self)@.len() > 0 ==> stats.last_sampled == min_of(
                old(self).sample_spec() as int,
                final(self)@.len() + stats.last_expired,
            ),
            final(self)@.len() == 0 || !keeps_purging(stats.last_expired as int, stats.last_sampled as int, old(self).threshold_spec() as int),
            old(self)@.len() == 0 ==> final(self)@ == old(self)@,
    {
        let t = now();
        self.purge_at(t)
    }

    /// How many slots from the start hold a binding that has expired at
    /// `now` (or, with `expired` false, has not).
    fn count_at(&self, now: u64, expired: bool) -> (r: usize)
        requires
            self.wf(),
        ensures
            r == keys_where(self@, now, expired).len(),
    {
        let mut count: usize = 0;
        let mut i: usize = 0;
        while i < self.store.len()
            invariant
                i <= self.store@.len(),
                count == count_where(self.store@.subrange(0, i as int), now, expired),
                count <= i,
            decreases self.store@.len() - i,
        {
            proof {
                let p = self.store@.subrange(0, i + 1);
                assert(p.drop_last() =~= self.store@.subrange(0, i as int));
            }
            if self.store[i].1.expiration.is_expired_at(now) == expired {
                count = count + 1;
            }
            i = i + 1;
        }
        proof {
            assert(self.store@.subrange(0, i as int) =~= self.store@);
            lemma_count_where(self.store@, now, expired);
        }
        count
    }

    /// How many keys are bound to an entry expired at `now`.
    pub fn expired_at(&self, now: u64) -> (r: usize)
        requires
            self.wf(),
        ensures
            r == keys_where(self@, now, true).len(),
    {
        self.count_at(now, true)
    }

    /// How many keys are bound to an entry not expired at `now`.
    pub fn existing_at(&self, now: u64) -> (r: usize)
        requires
            self.wf(),
        ensures
            r == keys_where(self@, now, false).len(),
    {
        self.count_at(now, false)
    }

    /// How many keys are bound to an entry expired on the clock's present reading.
    pub fn expired(&self) -> (r: usize)
        requires
            self.wf(),
        ensures
            exists|t: u64| r == #[trigger] keys_where(self@, t, true).len(),
    {
        self.expired_at(now())
    }

    /// How many keys are bound to an entry not expired on the clock's present reading.
    pub fn existing(&self) -> (r: usize)
        requires
            self.wf(),
        ensures
            exists|t: u64| r == #[trigger] keys_where(self@, t, false).len(),
    {
        self.existing_at(now())
    }

    /// Drops every binding.
    pub fn clear(&mut self)
        requires
            old(self).wf(),
        ensures
            final(self).wf(),
            final(self)@ == Map::<Seq<char>, (Seq<char>, Expiry)>::empty(),
            final(self).sample_spec() == old(self).sample_spec(),
            final(self).threshold_spec() == old(self).threshold_spec(),
    {
        self.store.clear();
        proof {
            assert(self.store@ =~= Seq::<(String, Entry)>::empty());
        }
    }
}

/// After a key is set with no expiry, a read finds its value at any time.
pub proof fn lemma_set_then_get(m: Map<Seq<char>, (Seq<char>, Expiry)>, k: Seq<char>, v: Seq<char>, now: u64)
    ensures
        read_spec(m.insert(k, (v, Expiry { instant: None })), k, now) == Some(v),
        after_read(m.insert(k, (v, Expiry { instant: None })), k, now) == m.insert(k, (v, Expiry { instant: None })),
{
}

/// After the bindings are cleared, a read finds nothing.
pub proof fn lemma_cleared_then_get(k: Seq<char>, now: u64)
    ensures
        read_spec(Map::<Seq<char>, (Seq<char>, Expiry)>::empty(), k, now) is None,
{
}

/// A key set with a deadline is read back until the deadline and not after it.
pub proof fn lemma_deadline_then_get(m: Map<Seq<char>, (Seq<char>, Expiry)>, k: Seq<char>, v: Seq<char>, deadline: u64, now: u64)
    ensures
        now <= deadline ==> read_spec(m.insert(k, (v, Expiry { instant: Some(deadline) })), k, now) == Some(v),
        deadline < now ==> read_spec(m.insert(k, (v, Expiry { instant: Some(deadline) })), k, now) is None,
{
}

/// After a key is removed, a read finds nothing.
pub proof fn lemma_removed_then_get(m: Map<Seq<char>, (Seq<char>, Expiry)>, k: Seq<char>, now: u64)
    ensures
        read_spec(m.remove(k), k, now) is None,
{
}

/// A key just set is present, whatever its expiry.
pub proof fn lemma_set_then_present(m: Map<Seq<char>, (Seq<char>, Expiry)>, k: Seq<char>, v: Seq<char>, e: Expiry)
    ensures
        m.insert(k, (v, e)).contains_key(k),
{
}

} // verus!
