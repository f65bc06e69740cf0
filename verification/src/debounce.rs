//! Per-key debouncer used by plugin workers to suppress repeats of the
//! same logical event inside a configurable window.
//!
//! A key is a `(producer_idx, identity_hash)` pair: the producer index
//! tells rules apart (it stays 0 for a plugin with a single producer), the
//! identity hash comes from [`crate::event_key::event_key_hash`].
//!
//! Fire times are kept as nanoseconds since the debouncer was created.
//! When more than [`GC_THRESHOLD`] keys are remembered, keys older than
//! ten times the largest window seen (and at least a minute) are dropped.
use vstd::prelude::*;
use std::time::Instant;

verus! {

#[verifier::external_type_specification]
#[verifier::external_body]
pub struct ExInstant(Instant);

/// Reads the monotonic clock with `Instant::now`. Nothing is stated of
/// the result: it is a clock reading.
#[verifier::external_body]
fn instant_now() -> Instant {
    Instant::now()
}

/// Calls `Instant::elapsed` on `origin` and converts the `Duration` to
/// whole nanoseconds with `Duration::as_nanos`. Nothing is stated of the
/// result: it is a clock reading.
#[verifier::external_body]
fn elapsed_nanos(origin: &Instant) -> u128 {
    origin.elapsed().as_nanos()
}

/// Above this many remembered keys, a fire also collects stale keys.
pub const GC_THRESHOLD: usize = 1024;

/// Lower bound of the collection horizon, in milliseconds.
pub const MIN_GC_HORIZON_MS: u64 = 60_000;

/// `(producer_idx, identity_hash)`.
pub type DebounceKey = (usize, u64);

/// Tracks the last fire time of each key.
#[derive(Debug)]
pub struct Debouncer {
    origin: Instant,
    last: Vec<(DebounceKey, u128)>,
    max_debounce_ms: u64,
}

/// What a [`Debouncer`] holds: the last fire time (nanoseconds since
/// creation) of each key, and the largest window seen.
pub struct DebouncerModel {
    pub last: Map<DebounceKey, u128>,
    pub max_debounce_ms: u64,
}

pub open spec fn keys_of(s: Seq<(DebounceKey, u128)>) -> Seq<DebounceKey> {
    s.map_values(|e: (DebounceKey, u128)| e.0)
}

pub open spec fn has_entry(s: Seq<(DebounceKey, u128)>, k: DebounceKey) -> bool {
    exists|i: int| 0 <= i < s.len() && (#[trigger] s[i]).0 == k
}

/// An index of an entry for `k`.
pub open spec fn entry_index(s: Seq<(DebounceKey, u128)>, k: DebounceKey) -> int {
    choose|i: int| 0 <= i < s.len() && (#[trigger] s[i]).0 == k
}

/// The map an entry list stands for (its keys are distinct).
pub open spec fn fired_map(s: Seq<(DebounceKey, u128)>) -> Map<DebounceKey, u128> {
    Map::new(|k: DebounceKey| has_entry(s, k), |k: DebounceKey| s[entry_index(s, k)].1)
}

impl View for Debouncer {
    type V = DebouncerModel;

    closed spec fn view(&self) -> DebouncerModel {
        DebouncerModel { last: fired_map(self.last@), max_debounce_ms: self.max_debounce_ms }
    }
}

/// A window of `ms` milliseconds, in nanoseconds.
pub open spec fn window_nanos(ms: u64) -> int {
    ms * 1_000_000
}

/// Time from `then` to `now`, or zero when `now` is earlier.
pub open spec fn age(now: u128, then: u128) -> int {
    if now >= then {
        now - then
    } else {
        0
    }
}

/// Whether an event with `key` fires at `now` under a window of `ms`:
/// the key never fired, or its last fire is at least a window old.
pub open spec fn fires(m: Map<DebounceKey, u128>, key: DebounceKey, ms: u64, now: u128) -> bool {
    !m.contains_key(key) || age(now, m[key]) >= window_nanos(ms)
}

/// `10 × max_ms` (saturating), but at least [`MIN_GC_HORIZON_MS`], in
/// nanoseconds.
pub open spec fn horizon_nanos(max_ms: u64) -> int {
    let tenfold: int = if max_ms * 10 > u64::MAX {
        u64::MAX as int
    } else {
        max_ms * 10
    };
    (if tenfold > MIN_GC_HORIZON_MS {
        tenfold
    } else {
        MIN_GC_HORIZON_MS as int
    }) * 1_000_000
}

/// Collection: above [`GC_THRESHOLD`] keys, only keys younger than the
/// horizon stay.
pub open spec fn collected(m: Map<DebounceKey, u128>, now: u128, max_ms: u64) -> Map<DebounceKey, u128> {
    if m.dom().len() > GC_THRESHOLD {
        m.restrict(m.dom().filter(|k: DebounceKey| age(now, m[k]) < horizon_nanos(max_ms)))
    } else {
        m
    }
}

pub open spec fn raised_max(max: u64, ms: u64) -> u64 {
    if ms > max {
        ms
    } else {
        max
    }
}

/// The state after an event with `key` is offered at `now` under a window
/// of `ms`.
pub open spec fn after_offer(m: DebouncerModel, key: DebounceKey, ms: u64, now: u128) -> DebouncerModel {
    let max = raised_max(m.max_debounce_ms, ms);
    if fires(m.last, key, ms, now) {
        DebouncerModel { last: collected(m.last.insert(key, now), now, max), max_debounce_ms: max }
    } else {
        DebouncerModel { last: m.last, max_debounce_ms: max }
    }
}

proof fn lemma_fired_at(s: Seq<(DebounceKey, u128)>, i: int)
    requires
        keys_of(s).no_duplicates(),
        0 <= i < s.len(),
    ensures
        fired_map(s).contains_key(s[i].0),
        fired_map(s)[s[i].0] == s[i].1,
{
    let k = s[i].0;
    assert(has_entry(s, k));
    let j = entry_index(s, k);
    assert(0 <= j < s.len() && s[j].0 == k);
    if j != i {
        assert(keys_of(s)[i] == s[i].0);
        assert(keys_of(s)[j] == s[j].0);
        assert(keys_of(s)[i] == keys_of(s)[j]);
    }
    assert(fired_map(s)[k] == s[j].1);
}

proof fn lemma_dom_len(s: Seq<(DebounceKey, u128)>)
    requires
        keys_of(s).no_duplicates(),
    ensures
        fired_map(s).dom() == keys_of(s).to_set(),
        fired_map(s).dom().len() == s.len(),
{
    assert forall|k: DebounceKey| fired_map(s).dom().contains(k) <==> keys_of(s).to_set().contains(k) by {
        if has_entry(s, k) {
            let i = choose|i: int| 0 <= i < s.len() && (#[trigger] s[i]).0 == k;
            assert(keys_of(s)[i] == k);
        }
        if keys_of(s).contains(k) {
            let i = choose|i: int| 0 <= i < keys_of(s).len() && keys_of(s)[i] == k;
            assert(s[i].0 == k);
        }
    }
    assert(fired_map(s).dom() =~= keys_of(s).to_set());
    keys_of(s).unique_seq_to_set();
}

impl Debouncer {
    /// The entry list names each key at most once.
    pub closed spec fn wf(self) -> bool {
        keys_of(self.last@).no_duplicates()
    }

    /// A debouncer that remembers no key, with `max_debounce_ms` as the
    /// largest window seen so far.
    pub fn new(max_debounce_ms: u64) -> (r: Debouncer)
        ensures
            r.wf(),
            r@.last == Map::<DebounceKey, u128>::empty(),
            r@.max_debounce_ms == max_debounce_ms,
    {
        let r = Debouncer { origin: instant_now(), last: Vec::new(), max_debounce_ms };
        assert(fired_map(r.last@) =~= Map::<DebounceKey, u128>::empty());
        r
    }

    /// Index of the entry for `key`.
    fn find(&self, key: DebounceKey) -> (r: Option<usize>)
        ensures
            match r {
                Some(i) => i < self.last.len() && self.last@[i as int].0 == key,
                None => !has_entry(self.last@, key),
            },
    {
        let mut i: usize = 0;
        while i < self.last.len()
            invariant
                i <= self.last.len(),
                forall|j: int| 0 <= j < i ==> (#[trigger] self.last@[j]).0 != key,
            decreases self.last.len() - i,
        {
            let e = &self.last[i];
            if e.0.0 == key.0 && e.0.1 == key.1 {
                return Some(i);
            }
            i = i + 1;
        }
        None
    }

    /// Raises the largest window seen to `ms`.
    fn note_max(&mut self, ms: u64)
        ensures
            final(self).last@ == old(self).last@,
            final(self).max_debounce_ms == raised_max(old(self).max_debounce_ms, ms),
    {
        if ms > self.max_debounce_ms {
            self.max_debounce_ms = ms;
        }
    }

    /// Records that `key` fired at `now`.
    fn record(&mut self, key: DebounceKey, now: u128)
        requires
            old(self).wf(),
        ensures
            final(self).wf(),
            final(self)@.last == old(self)@.last.insert(key, now),
            final(self).max_debounce_ms == old(self).max_debounce_ms,
    {
        let ghost s = self.last@;
        match self.find(key) {
            Some(i) => {
                self.last.set(i, (key, now));
                proof {
                    let t = self.last@;
                    assert(keys_of(t) =~= keys_of(s));
                    assert forall|k: DebounceKey| #[trigger] fired_map(t).contains_key(k) == fired_map(s).insert(key, now).contains_key(k) by {
                        if has_entry(s, k) {
                            let j = choose|j: int| 0 <= j < s.len() && (#[trigger] s[j]).0 == k;
                            assert(t[j].0 == k);
                        }
                        if has_entry(t, k) {
                            let j = choose|j: int| 0 <= j < t.len() && (#[trigger] t[j]).0 == k;
                            assert(s[j].0 == k);
                        }
                    }
                    assert forall|k: DebounceKey| fired_map(t).contains_key(k) implies #[trigger] fired_map(t)[k] == fired_map(s).insert(key, now)[k] by {
                        let j = choose|j: int| 0 <= j < t.len() && (#[trigger] t[j]).0 == k;
                        lemma_fired_at(t, j);
                        if j != i {
                            assert(s[j] == t[j]);
                            assert(keys_of(t)[j] != keys_of(t)[i as int]);
                            assert(k != key);
                            lemma_fired_at(s, j);
                        }
                    }
                    assert(fired_map(t) =~= fired_map(s).insert(key, now));
                }
            },
            None => {
                self.last.push((key, now));
                proof {
                    let t = self.last@;
                    assert(keys_of(t) =~= keys_of(s).push(key));
                    assert forall|a: int, b: int| 0 <= a < keys_of(t).len() && 0 <= b < keys_of(t).len() && a != b implies keys_of(t)[a] != keys_of(t)[b] by {
                        if a < s.len() && b < s.len() {
                            assert(keys_of(s)[a] != keys_of(s)[b]);
                        } else if a == s.len() {
                            assert(s[b].0 != key);
                        } else {
                            assert(s[a].0 != key);
                        }
                    }
                    assert forall|k: DebounceKey| #[trigger] fired_map(t).contains_key(k) == fired_map(s).insert(key, now).contains_key(k) by {
                        if has_entry(s, k) {
                            let j = choose|j: int| 0 <= j < s.len() && (#[trigger] s[j]).0 == k;
                            assert(t[j].0 == k);
                        }
                        if k == key {
                            assert(t[s.len() as int].0 == k);
                        }
                        if has_entry(t, k) && k != key {
                            let j = choose|j: int| 0 <= j < t.len() && (#[trigger] t[j]).0 == k;
                            assert(s[j].0 == k);
                        }
                    }
                    assert forall|k: DebounceKey| fired_map(t).contains_key(k) implies #[trigger] fired_map(t)[k] == fired_map(s).insert(key, now)[k] by {
                        let j = choose|j: int| 0 <= j < t.len() && (#[trigger] t[j]).0 == k;
                        lemma_fired_at(t, j);
                        if j < s.len() {
                            assert(s[j] == t[j]);
                            lemma_fired_at(s, j);
                        }
                    }
                    assert(fired_map(t) =~= fired_map(s).insert(key, now));
                }
            },
        }
    }

    /// Above [`GC_THRESHOLD`] keys, drops the keys whose last fire is at
    /// least the horizon old at `now`.
    fn gc(&mut self, now: u128)
        requires
            old(self).wf(),
        ensures
            final(self).wf(),
            final(self)@.last == collected(old(self)@.last, now, old(self).max_debounce_ms),
            final(self).max_debounce_ms == old(self).max_debounce_ms,
    {
        let ghost s = self.last@;
        proof {
            lemma_dom_len(s);
        }
        if self.last.len() <= GC_THRESHOLD {
            return;
        }
        let tenfold: u64 = if self.max_debounce_ms > u64::MAX / 10 {
            u64::MAX
        } else {
            self.max_debounce_ms * 10
        };
        let h_ms = if tenfold > MIN_GC_HORIZON_MS {
            tenfold
        } else {
            MIN_GC_HORIZON_MS
        };
        let horizon: u128 = (h_ms as u128) * 1_000_000;
        assert(horizon == horizon_nanos(self.max_debounce_ms));
        let mut kept: Vec<(DebounceKey, u128)> = Vec::new();
        let ghost mut src: Seq<int> = Seq::empty();
        let mut i: usize = 0;
        while i < self.last.len()
            invariant
                s == self.last@,
                keys_of(s).no_duplicates(),
                i <= s.len(),
                src.len() == kept@.len(),
                forall|j: int| 0 <= j < src.len() ==> 0 <= #[trigger] src[j] < i && kept@[j] == s[src[j]],
                forall|j: int| 0 <= j < src.len() ==> age(now, (#[trigger] kept@[j]).1) < horizon,
                forall|a: int, b: int| 0 <= a < b < src.len() ==> #[trigger] src[a] < #[trigger] src[b],
                forall|x: int| 0 <= x < i && age(now, (#[trigger] s[x]).1) < horizon ==> exists|j: int| 0 <= j < src.len() && src[j] == x,
            decreases s.len() - i,
        {
            let e = self.last[i];
            let age_now: u128 = if now >= e.1 {
                now - e.1
            } else {
                0
            };
            let ghost old_src = src;
            if age_now < horizon {
                kept.push(e);
                proof {
                    src = src.push(i as int);
                    assert(src[src.len() - 1] == i);
                }
            }
            proof {
                assert forall|x: int| 0 <= x < i + 1 && age(now, (#[trigger] s[x]).1) < horizon implies exists|j: int| 0 <= j < src.len() && src[j] == x by {
                    if x < i {
                        let j = choose|j: int| 0 <= j < old_src.len() && old_src[j] == x;
                        assert(src[j] == old_src[j]);
                    } else {
                        assert(src[src.len() - 1] == x);
                    }
                }
            }
            i = i + 1;
        }
        let ghost t = kept@;
        let ghost m = fired_map(s);
        let ghost target = m.restrict(m.dom().filter(|k: DebounceKey| age(now, m[k]) < horizon_nanos(self.max_debounce_ms)));
        proof {
            assert forall|a: int, b: int| 0 <= a < keys_of(t).len() && 0 <= b < keys_of(t).len() && a != b implies keys_of(t)[a] != keys_of(t)[b] by {
                assert(src[a] != src[b]) by {
                    if a < b {
                        assert(src[a] < src[b]);
                    } else {
                        assert(src[b] < src[a]);
                    }
                }
                assert(keys_of(s)[src[a]] != keys_of(s)[src[b]]);
            }
            assert forall|k: DebounceKey| #[trigger] fired_map(t).contains_key(k) == target.contains_key(k) by {
                if has_entry(t, k) {
                    let j = choose|j: int| 0 <= j < t.len() && (#[trigger] t[j]).0 == k;
                    assert(s[src[j]].0 == k);
                    lemma_fired_at(s, src[j]);
                }
                if target.contains_key(k) {
                    let x = choose|x: int| 0 <= x < s.len() && (#[trigger] s[x]).0 == k;
                    lemma_fired_at(s, x);
                    let j = choose|j: int| 0 <= j < src.len() && src[j] == x;
                    assert(t[j].0 == k);
                }
            }
            assert forall|k: DebounceKey| fired_map(t).contains_key(k) implies #[trigger] fired_map(t)[k] == target[k] by {
                let j = choose|j: int| 0 <= j < t.len() && (#[trigger] t[j]).0 == k;
                lemma_fired_at(t, j);
                lemma_fired_at(s, src[j]);
            }
            assert(fired_map(t) =~= target);
        }
        self.last = kept;
    }

    /// Offers an event with `key` at `now` (nanoseconds since creation)
    /// under a window of `effective_ms`. It fires when the key never fired
    /// or last fired at least a window ago; a fire is remembered and may
    /// trigger collection.
    pub fn allow_at(&mut self, key: DebounceKey, effective_ms: u64, now: u128) -> (r: bool)
        requires
            old(self).wf(),
        ensures
            final(self).wf(),
            r == fires(old(self)@.last, key, effective_ms, now),
            final(self)@ == after_offer(old(self)@, key, effective_ms, now),
            effective_ms == 0 ==> r,
            !old(self)@.last.contains_key(key) ==> r,
    {
        self.note_max(effective_ms);
        let window: u128 = (effective_ms as u128) * 1_000_000;
        let allow = match self.find(key) {
            None => true,
            Some(i) => {
                let prev = self.last[i].1;
                proof {
                    lemma_fired_at(self.last@, i as int);
                }
                let age_now: u128 = if now >= prev {
                    now - prev
                } else {
                    0
                };
                age_now >= window
            },
        };
        if allow {
            self.record(key, now);
            self.gc(now);
        }
        allow
    }

    /// Offers an event with `key` now, under a window of `effective_ms`:
    /// returns whether it fires (see [`Debouncer::allow_at`]).
    pub fn allow(&mut self, key: DebounceKey, effective_ms: u64) -> (r: bool)
        requires
            old(self).wf(),
        ensures
            final(self).wf(),
            exists|now: u128|
                r == fires(old(self)@.last, key, effective_ms, now) && final(self)@ == after_offer(
                    old(self)@,
                    key,
                    effective_ms,
                    now,
                ),
            effective_ms == 0 ==> r,
            !old(self)@.last.contains_key(key) ==> r,
    {
        let now = elapsed_nanos(&self.origin);
        self.allow_at(key, effective_ms, now)
    }
}

/// Once a key fires, offers of the same key under the same window are
/// refused until that window has passed.
pub proof fn law_fire_blocks_its_window(m: DebouncerModel, key: DebounceKey, ms: u64, t1: u128, t2: u128)
    requires
        fires(m.last, key, ms, t1),
        t1 <= t2 < t1 + window_nanos(ms),
    ensures
        !fires(after_offer(m, key, ms, t1).last, key, ms, t2),
{
    let max = raised_max(m.max_debounce_ms, ms);
    let ins = m.last.insert(key, t1);
    assert(age(t1, ins[key]) < horizon_nanos(max));
    if ins.dom().len() > GC_THRESHOLD {
        assert(ins.dom().filter(|k: DebounceKey| age(t1, ins[k]) < horizon_nanos(max)).contains(key));
    }
}

/// Offering one key never makes another key's offer refused.
pub proof fn law_keys_independent(
    m: DebouncerModel,
    k1: DebounceKey,
    ms1: u64,
    t1: u128,
    k2: DebounceKey,
    ms2: u64,
    t2: u128,
)
    requires
        k1 != k2,
        fires(m.last, k2, ms2, t2),
    ensures
        fires(after_offer(m, k1, ms1, t1).last, k2, ms2, t2),
{
}

/// A zero window never refuses.
pub proof fn law_zero_window_always_fires(m: DebouncerModel, key: DebounceKey, now: u128)
    ensures
        fires(m.last, key, 0, now),
{
}

/// The state after the offers `h`, each `(key, window_ms, now)`, in turn.
pub open spec fn run_offers(m: DebouncerModel, h: Seq<(DebounceKey, u64, u128)>) -> DebouncerModel
    decreases h.len(),
{
    if h.len() == 0 {
        m
    } else {
        let p = run_offers(m, h.drop_last());
        after_offer(p, h.last().0, h.last().1, h.last().2)
    }
}

/// Whether the `i`-th offer of `h` fires.
pub open spec fn offer_fires(m: DebouncerModel, h: Seq<(DebounceKey, u64, u128)>, i: int) -> bool {
    fires(run_offers(m, h.take(i)).last, h[i].0, h[i].1, h[i].2)
}

/// Time of the latest fire of `k` among the first `n` offers, else the
/// fire the debouncer remembered at the start.
pub open spec fn last_fire(m: DebouncerModel, h: Seq<(DebounceKey, u64, u128)>, n: int, k: DebounceKey) -> Option<u128>
    decreases n,
{
    if n <= 0 {
        if m.last.contains_key(k) {
            Some(m.last[k])
        } else {
            None
        }
    } else if h[n - 1].0 == k && offer_fires(m, h, n - 1) {
        Some(h[n - 1].2)
    } else {
        last_fire(m, h, n - 1, k)
    }
}

/// What the law says the `i`-th offer gives: it fires when its key never
/// fired, or fired at least a window before.
pub open spec fn expected_fire(m: DebouncerModel, h: Seq<(DebounceKey, u64, u128)>, i: int) -> bool {
    match last_fire(m, h, i, h[i].0) {
        None => true,
        Some(l) => h[i].2 - l >= window_nanos(h[i].1),
    }
}

/// The largest window known once the first offer of `h` is taken.
pub open spec fn first_max(m: DebouncerModel, h: Seq<(DebounceKey, u64, u128)>) -> u64 {
    raised_max(m.max_debounce_ms, h[0].1)
}

/// What the state after `n` offers remembers, in terms of [`last_fire`].
pub open spec fn remembers(m: DebouncerModel, h: Seq<(DebounceKey, u64, u128)>, n: int) -> bool {
    let r = run_offers(m, h.take(n));
    let bound: u128 = if n == 0 { h[0].2 } else { h[n - 1].2 };
    &&& (n == 0 ==> r.max_debounce_ms == m.max_debounce_ms)
    &&& (n > 0 ==> r.max_debounce_ms >= first_max(m, h))
    &&& forall|k: DebounceKey| #[trigger] r.last.contains_key(k) ==> last_fire(m, h, n, k) == Some(r.last[k]) && r.last[k] <= bound
    &&& forall|k: DebounceKey| !(#[trigger] r.last.contains_key(k)) ==> (last_fire(m, h, n, k) is None || (n > 0
        && last_fire(m, h, n, k)->0 + horizon_nanos(first_max(m, h)) <= h[n - 1].2))
}

proof fn lemma_horizon_monotone(a: u64, b: u64)
    requires
        a <= b,
    ensures
        horizon_nanos(a) <= horizon_nanos(b),
{
    let ta: int = if a * 10 > u64::MAX { u64::MAX as int } else { a * 10 };
    let tb: int = if b * 10 > u64::MAX { u64::MAX as int } else { b * 10 };
    assert(ta <= tb);
    let ha: int = if ta > MIN_GC_HORIZON_MS { ta } else { MIN_GC_HORIZON_MS as int };
    let hb: int = if tb > MIN_GC_HORIZON_MS { tb } else { MIN_GC_HORIZON_MS as int };
    assert(ha <= hb);
    assert(ha * 1_000_000 <= hb * 1_000_000) by (nonlinear_arith)
        requires
            ha <= hb,
    ;
}

proof fn lemma_history_step(m: DebouncerModel, h: Seq<(DebounceKey, u64, u128)>, n: int)
    requires
        0 <= n < h.len(),
        forall|i: int, j: int| 0 <= i < j < h.len() ==> (#[trigger] h[i]).2 <= (#[trigger] h[j]).2,
        forall|i: int| 0 <= i < h.len() ==> window_nanos((#[trigger] h[i]).1) <= horizon_nanos(first_max(m, h)),
        remembers(m, h, n),
    ensures
        remembers(m, h, n + 1),
        offer_fires(m, h, n) == expected_fire(m, h, n),
{
    let p = run_offers(m, h.take(n));
    let (key, ms, t) = h[n];
    assert(h.take(n + 1).drop_last() =~= h.take(n));
    assert(h.take(n + 1).last() == h[n]);
    let r = run_offers(m, h.take(n + 1));
    assert(r == after_offer(p, key, ms, t));
    let bound: u128 = if n == 0 { h[0].2 } else { h[n - 1].2 };
    if n > 0 {
        assert(h[n - 1].2 <= h[n].2);
    }
    assert(bound <= t);
    let max = raised_max(p.max_debounce_ms, ms);
    lemma_horizon_monotone(first_max(m, h), max);
    // The offer's own outcome.
    if p.last.contains_key(key) {
        assert(last_fire(m, h, n, key) == Some(p.last[key]));
    } else if last_fire(m, h, n, key) is Some {
        assert(n > 0);
    }
    assert(offer_fires(m, h, n) == fires(p.last, key, ms, t));
    if fires(p.last, key, ms, t) {
        let ins = p.last.insert(key, t);
        assert forall|k: DebounceKey| #[trigger] r.last.contains_key(k) implies last_fire(m, h, n + 1, k) == Some(r.last[k]) && r.last[k] <= t by {
            assert(ins.contains_key(k));
            assert(r.last[k] == ins[k]);
            if k != key {
                assert(p.last.contains_key(k));
            }
        }
        assert forall|k: DebounceKey| !(#[trigger] r.last.contains_key(k)) implies (last_fire(m, h, n + 1, k) is None || (n + 1 > 0
            && last_fire(m, h, n + 1, k)->0 + horizon_nanos(first_max(m, h)) <= h[n].2)) by {
            if k == key {
                assert(ins.dom().filter(|q: DebounceKey| age(t, ins[q]) < horizon_nanos(max)).contains(key));
            } else if p.last.contains_key(k) {
                assert(ins.contains_key(k));
                if ins.dom().len() > GC_THRESHOLD {
                    assert(!ins.dom().filter(|q: DebounceKey| age(t, ins[q]) < horizon_nanos(max)).contains(k));
                }
            }
        }
    } else {
        assert(r.last == p.last);
        assert forall|k: DebounceKey| #[trigger] r.last.contains_key(k) implies last_fire(m, h, n + 1, k) == Some(r.last[k]) && r.last[k] <= t by {
            assert(p.last.contains_key(k));
        }
        assert forall|k: DebounceKey| !(#[trigger] r.last.contains_key(k)) implies (last_fire(m, h, n + 1, k) is None || (n + 1 > 0
            && last_fire(m, h, n + 1, k)->0 + horizon_nanos(first_max(m, h)) <= h[n].2)) by {
            assert(!p.last.contains_key(k));
        }
    }
}

/// Debouncing over a history of offers whose clock never runs backwards:
/// each offer fires exactly when its key never fired before, or last
/// fired at least its window earlier; refused offers do not move the
/// window. This holds while every window stays within the collection
/// horizon of the largest window known after the first offer (collection
/// then only drops fires that no later window reaches). It fails when a
/// collection past [`GC_THRESHOLD`] keys drops a fire and a later, larger
/// window would still have covered it.
pub proof fn law_debounce_history(m: DebouncerModel, h: Seq<(DebounceKey, u64, u128)>)
    requires
        forall|i: int, j: int| 0 <= i < j < h.len() ==> (#[trigger] h[i]).2 <= (#[trigger] h[j]).2,
        h.len() > 0 ==> forall|k: DebounceKey| #[trigger] m.last.contains_key(k) ==> m.last[k] <= h[0].2,
        forall|i: int| 0 <= i < h.len() ==> window_nanos((#[trigger] h[i]).1) <= horizon_nanos(first_max(m, h)),
    ensures
        forall|i: int| 0 <= i < h.len() ==> offer_fires(m, h, i) == expected_fire(m, h, i),
{
    if h.len() > 0 {
        lemma_history_upto(m, h, h.len() as int);
    }
}

proof fn lemma_window_within_horizon(w: u64, max: u64)
    requires
        w <= max,
    ensures
        window_nanos(w) <= horizon_nanos(max),
{
    let t: int = if max * 10 > u64::MAX { u64::MAX as int } else { max * 10 };
    assert(w <= t);
    let hz: int = if t > MIN_GC_HORIZON_MS { t } else { MIN_GC_HORIZON_MS as int };
    assert(w * 1_000_000 <= hz * 1_000_000) by (nonlinear_arith)
        requires
            w <= hz,
    ;
}

/// With one window `w` for every offer, collection never lets a key
/// through early: each offer fires exactly as with an unbounded memory of
/// fires, whatever the debouncer was created with.
pub proof fn law_debounce_fixed_window(m: DebouncerModel, h: Seq<(DebounceKey, u64, u128)>, w: u64)
    requires
        forall|i: int, j: int| 0 <= i < j < h.len() ==> (#[trigger] h[i]).2 <= (#[trigger] h[j]).2,
        h.len() > 0 ==> forall|k: DebounceKey| #[trigger] m.last.contains_key(k) ==> m.last[k] <= h[0].2,
        forall|i: int| 0 <= i < h.len() ==> (#[trigger] h[i]).1 == w,
    ensures
        forall|i: int| 0 <= i < h.len() ==> offer_fires(m, h, i) == expected_fire(m, h, i),
{
    if h.len() > 0 {
        lemma_window_within_horizon(w, first_max(m, h));
        law_debounce_history(m, h);
    }
}

proof fn lemma_history_upto(m: DebouncerModel, h: Seq<(DebounceKey, u64, u128)>, n: int)
    requires
        0 <= n <= h.len(),
        h.len() > 0,
        forall|i: int, j: int| 0 <= i < j < h.len() ==> (#[trigger] h[i]).2 <= (#[trigger] h[j]).2,
        forall|k: DebounceKey| #[trigger] m.last.contains_key(k) ==> m.last[k] <= h[0].2,
        forall|i: int| 0 <= i < h.len() ==> window_nanos((#[trigger] h[i]).1) <= horizon_nanos(first_max(m, h)),
    ensures
        remembers(m, h, n),
        forall|i: int| 0 <= i < n ==> offer_fires(m, h, i) == expected_fire(m, h, i),
    decreases n,
{
    if n == 0 {
        assert(h.take(0) =~= Seq::<(DebounceKey, u64, u128)>::empty());
    } else {
        lemma_history_upto(m, h, n - 1);
        lemma_history_step(m, h, n - 1);
    }
}

} // verus!
