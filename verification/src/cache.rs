//! The fetch cache: rendered minute blobs keyed by matcher pattern and
//! time window, held in a bounded least-recently-used store, with a
//! freshness gate that keeps windows that ended less than five minutes
//! ago out of the cache.
use vstd::prelude::*;

verus! {

/// A fetch window: first and last instant, UTC milliseconds.
#[derive(Clone, Debug, Eq, PartialEq, Hash, Structural)]
pub struct TimeBounds {
    pub first_event_time: i64,
    pub last_event_time: i64,
}

/// A cache key: the matcher's source pattern (matchers compare by
/// pattern text) and the window fetched.
#[derive(Clone, Debug, Eq, PartialEq, Hash)]
pub struct CacheKey {
    pub matcher_pattern: String,
    pub time_bounds: TimeBounds,
}

impl View for CacheKey {
    type V = (Seq<char>, (int, int));

    open spec fn view(&self) -> (Seq<char>, (int, int)) {
        (
            self.matcher_pattern@,
            (self.time_bounds.first_event_time as int, self.time_bounds.last_event_time as int),
        )
    }
}

/// Position of `k` in the model, or -1.
pub open spec fn key_index(s: Seq<((Seq<char>, (int, int)), Seq<u8>)>, k: (Seq<char>, (int, int))) -> int
    decreases s.len(),
{
    if s.len() == 0 {
        -1
    } else if s[0].0 == k {
        0
    } else {
        let r = key_index(s.drop_first(), k);
        if r == -1 {
            -1
        } else {
            r + 1
        }
    }
}

/// The bytes stored under `k`, if any.
pub open spec fn cache_lookup(
    s: Seq<((Seq<char>, (int, int)), Seq<u8>)>,
    k: (Seq<char>, (int, int)),
) -> Option<Seq<u8>> {
    if key_index(s, k) >= 0 {
        Some(s[key_index(s, k)].1)
    } else {
        None
    }
}

/// The display cache: an LRU store of rendered blobs. The store itself
/// is an outside crate's; its contents are named by `cache_seq` and its
/// bound by `cache_cap`, and the trusted operations below say how each
/// call moves them.
#[verifier::external_body]
pub struct LogsDisplayCache {
    inner: lru::LruCache<CacheKey, Vec<u8>>,
}

pub uninterp spec fn cache_seq(c: &LogsDisplayCache) -> Seq<((Seq<char>, (int, int)), Seq<u8>)>;

pub uninterp spec fn cache_cap(c: &LogsDisplayCache) -> nat;

/// Relies on lru::LruCache::new: an empty cache holding at most `cap`
/// entries.
#[verifier::external_body]
fn lru_new(cap: usize) -> (r: LogsDisplayCache)
    requires
        cap >= 1,
    ensures
        cache_seq(&r) == Seq::<((Seq<char>, (int, int)), Seq<u8>)>::empty(),
        cache_cap(&r) == cap,
{
    LogsDisplayCache {
        inner: lru::LruCache::new(std::num::NonZeroUsize::new(cap).unwrap()),
    }
}

/// Relies on lru::LruCache::get: a hit hands the entry back and marks
/// it most recently used; a miss changes nothing.
#[verifier::external_body]
fn lru_get(c: &mut LogsDisplayCache, key: &CacheKey) -> (r: Option<Vec<u8>>)
    ensures
        cache_cap(final(c)) == cache_cap(old(c)),
        ({
            let s = cache_seq(old(c));
            let i = key_index(s, key@);
            if i >= 0 {
                &&& r matches Some(v) && v@ == s[i].1
                &&& cache_seq(final(c)) == seq![s[i]] + s.remove(i)
            } else {
                &&& r is None
                &&& cache_seq(final(c)) == s
            }
        }),
{
    c.inner.get(key).cloned()
}

/// Relies on lru::LruCache::put: the entry lands at the most recently
/// used spot; an existing entry under the key is replaced, and at
/// capacity the least recently used entry leaves.
#[verifier::external_body]
fn lru_put(c: &mut LogsDisplayCache, key: CacheKey, value: Vec<u8>)
    ensures
        cache_cap(final(c)) == cache_cap(old(c)),
        ({
            let s = cache_seq(old(c));
            let i = key_index(s, key@);
            if i >= 0 {
                cache_seq(final(c)) == seq![(key@, value@)] + s.remove(i)
            } else if s.len() < cache_cap(old(c)) {
                cache_seq(final(c)) == seq![(key@, value@)] + s
            } else {
                cache_seq(final(c)) == seq![(key@, value@)] + s.drop_last()
            }
        }),
{
    c.inner.put(key, value);
}

/// A fresh display cache holding at most `cap` entries.
pub fn new_logs_cache(cap: usize) -> (r: LogsDisplayCache)
    requires
        cap >= 1,
    ensures
        cache_seq(&r) == Seq::<((Seq<char>, (int, int)), Seq<u8>)>::empty(),
        cache_cap(&r) == cap,
{
    lru_new(cap)
}

/// Look a key up: a hit hands the cached bytes back and marks the
/// entry most recently used; a miss changes nothing.
pub fn cache_get(c: &mut LogsDisplayCache, key: &CacheKey) -> (r: Option<Vec<u8>>)
    ensures
        cache_cap(final(c)) == cache_cap(old(c)),
        ({
            let s = cache_seq(old(c));
            let i = key_index(s, key@);
            if i >= 0 {
                &&& r matches Some(v) && v@ == s[i].1
                &&& cache_seq(final(c)) == seq![s[i]] + s.remove(i)
            } else {
                &&& r is None
                &&& cache_seq(final(c)) == s
            }
        }),
        r is Some <==> cache_lookup(cache_seq(old(c)), key@) is Some,
{
    lru_get(c, key)
}

/// Five minutes, in milliseconds: the freshness gate's width.
pub const FRESHNESS_GATE_MILLIS: i64 = 300_000;

/// A window may be cached only once its end is more than five minutes
/// in the past; a recent window may still be backfilled by the service.
pub open spec fn spec_is_cacheable(now: int, last_event_time: int) -> bool {
    now - last_event_time > 300_000
}

/// Decide the freshness gate for a key at the given current time.
pub fn is_cacheable(now_millis: i64, cache_key: &CacheKey) -> (r: bool)
    ensures
        r == spec_is_cacheable(now_millis as int, cache_key.time_bounds.last_event_time as int),
{
    (now_millis as i128) - (cache_key.time_bounds.last_event_time as i128)
        > FRESHNESS_GATE_MILLIS as i128
}

/// Store a rendered blob under its key if the freshness gate allows;
/// a fetch of a recent window leaves the cache unchanged.
pub fn store_if_cacheable(
    c: &mut LogsDisplayCache,
    now_millis: i64,
    key: CacheKey,
    blob: &Vec<u8>,
) -> (stored: bool)
    ensures
        stored == spec_is_cacheable(now_millis as int, key.time_bounds.last_event_time as int),
        cache_cap(final(c)) == cache_cap(old(c)),
        !stored ==> cache_seq(final(c)) == cache_seq(old(c)),
        stored ==> cache_seq(final(c)).len() > 0 && cache_seq(final(c))[0] == (key@, blob@),
        stored ==> cache_lookup(cache_seq(final(c)), key@) == Some(blob@),
{
    if is_cacheable(now_millis, &key) {
        let bytes = clone_bytes(blob);
        let ghost k = key@;
        lru_put(c, key, bytes);
        proof {
            assert(key_index(cache_seq(c), k) == 0);
        }
        true
    } else {
        false
    }
}

/// Copy a blob byte for byte.
fn clone_bytes(v: &Vec<u8>) -> (r: Vec<u8>)
    ensures
        r@ == v@,
{
    let mut out: Vec<u8> = Vec::new();
    let n = v.len();
    let mut i: usize = 0;
    while i < n
        invariant
            n == v@.len(),
            i <= n,
            out@ =~= v@.subrange(0, i as int),
        decreases n - i,
    {
        out.push(v[i]);
        proof {
            assert(out@ =~= v@.subrange(0, i + 1 as int));
        }
        i = i + 1;
    }
    proof {
        assert(v@.subrange(0, n as int) =~= v@);
    }
    out
}

/// Round-trip law: after a blob is stored under a key, looking that
/// key up yields exactly those bytes — so a second fetch of a cached
/// window is answered from the cache, with no remote call.
pub proof fn lemma_cache_round_trip(c: &LogsDisplayCache, k: (Seq<char>, (int, int)), v: Seq<u8>)
    requires
        cache_seq(c).len() > 0,
        cache_seq(c)[0] == (k, v),
    ensures
        cache_lookup(cache_seq(c), k) == Some(v),
{
    assert(key_index(cache_seq(c), k) == 0);
}

} // verus!
