//! The client side of the relay DHT: the pool of `peer/1` connections with
//! its least-recently-used and idle eviction, the short-lived cache of
//! K-closest answers, the routing keys, and how replies from several homes
//! combine into one answer.

use vstd::prelude::*;

use crate::codec::push_bytes;
use crate::digest::blake3_digest;
use crate::digest::blake3_hash;
use crate::net::SockAddr;

verus! {

/// Most pooled connections (and most cached K-closest answers).
pub const DHT_POOL_MAX: usize = 16;

/// A pooled connection idle longer than this is dropped (5 minutes).
pub const DHT_CONN_IDLE_TTL_MS: u64 = 300_000;

/// A cached K-closest answer is reused for this long (30 seconds).
pub const FINDNODE_CACHE_TTL_MS: u64 = 30_000;

/// How many of the returned homes a fan-out contacts.
pub const HOMES_TRIED: usize = 3;

#[verifier::external_type_specification]
#[verifier::external_body]
pub struct ExConnection(quinn::Connection);

/// `Connection::close_reason().is_none()`: whether the connection is still
/// open. It depends on the network; nothing is stated of it.
#[verifier::external_body]
fn connection_open(c: &quinn::Connection) -> (open: bool) {
    c.close_reason().is_none()
}

/// `Connection::clone`: another handle to the same connection (the derived
/// clone of its shared reference).
#[verifier::external_body]
fn connection_handle(c: &quinn::Connection) -> (d: quinn::Connection)
    ensures
        d == *c,
{
    c.clone()
}

/// One pooled connection, with the ephemeral identity its hello announced.
pub struct PoolEntry {
    pub id: [u8; 32],
    pub last_used_ms: u64,
    pub ephemeral_pub: [u8; 32],
    pub conn: quinn::Connection,
}

/// Pooled connections in least-recently-used order: the front is the
/// oldest, the back the one used last.
pub struct ConnPool {
    pub entries: Vec<PoolEntry>,
}

/// The peer ids of a pool, in order.
pub open spec fn pool_ids(s: Seq<PoolEntry>) -> Seq<[u8; 32]> {
    s.map_values(|e: PoolEntry| e.id)
}

/// `s` holds an entry for `id`.
pub open spec fn pooled(s: Seq<PoolEntry>, id: [u8; 32]) -> bool {
    exists|k: int| 0 <= k < s.len() && (#[trigger] s[k]).id == id
}

/// An entry idle for longer than the TTL at `now` (a clock behind the
/// entry counts as no time passed).
pub open spec fn idle_expired(e: PoolEntry, now_ms: u64) -> bool {
    now_ms > e.last_used_ms && now_ms - e.last_used_ms > DHT_CONN_IDLE_TTL_MS
}

/// A pooled connection is dropped as idle only once more than
/// [`DHT_CONN_IDLE_TTL_MS`] has passed since it was last used; up to that
/// long, or with a clock behind its use, it stays.
pub proof fn law_idle_after_ttl(e: PoolEntry, now_ms: u64)
    ensures
        now_ms <= e.last_used_ms + DHT_CONN_IDLE_TTL_MS ==> !idle_expired(e, now_ms),
        now_ms > e.last_used_ms + DHT_CONN_IDLE_TTL_MS ==> idle_expired(e, now_ms),
{
}

/// The entries of `s` not idle-expired at `now`, in order.
pub open spec fn fresh(s: Seq<PoolEntry>, now_ms: u64) -> Seq<PoolEntry>
    decreases s.len(),
{
    if s.len() == 0 {
        Seq::empty()
    } else if idle_expired(s.last(), now_ms) {
        fresh(s.drop_last(), now_ms)
    } else {
        fresh(s.drop_last(), now_ms).push(s.last())
    }
}

/// `s` with entry `k` moved to the back, marked used at `now`.
pub open spec fn touched(s: Seq<PoolEntry>, k: int, now_ms: u64) -> Seq<PoolEntry> {
    s.remove(k).push(PoolEntry { last_used_ms: now_ms, ..s[k] })
}

/// A new peer joins a pool at the back, the least recently used entry making
/// room when the pool is full.
pub open spec fn pool_insert_spec(s: Seq<PoolEntry>, e: PoolEntry) -> Seq<PoolEntry> {
    if s.len() < DHT_POOL_MAX {
        s.push(e)
    } else {
        s.drop_first().push(e)
    }
}

/// The index of `id` in `s`.
pub open spec fn index_of(s: Seq<PoolEntry>, id: [u8; 32]) -> int {
    choose|k: int| 0 <= k < s.len() && (#[trigger] s[k]).id == id
}

impl ConnPool {
    /// No peer twice, never over [`DHT_POOL_MAX`].
    pub open spec fn wf(&self) -> bool {
        &&& self.entries@.len() <= DHT_POOL_MAX
        &&& forall|i: int, j: int| 0 <= i < j < self.entries@.len() ==> #[trigger] self.entries@[i].id != #[trigger] self.entries@[j].id
    }

    pub fn new() -> (p: ConnPool)
        ensures
            p.wf(),
            p.entries@.len() == 0,
    {
        ConnPool { entries: Vec::new() }
    }

    /// The position of `id`, if pooled.
    pub fn find(&self, id: &[u8; 32]) -> (r: Option<usize>)
        requires
            self.wf(),
        ensures
            r is None <==> !pooled(self.entries@, *id),
            r matches Some(k) ==> k < self.entries@.len() && self.entries@[k as int].id == *id && k
                == index_of(self.entries@, *id),
    {
        let n = self.entries.len();
        let mut k: usize = 0;
        while k < n
            invariant
                self.wf(),
                n == self.entries@.len(),
                k <= n,
                forall|j: int| 0 <= j < k ==> (#[trigger] self.entries@[j]).id != *id,
            decreases n - k,
        {
            if crate::bytes::eq32(&self.entries[k].id, id) {
                proof {
                    let c = index_of(self.entries@, *id);
                    assert(self.entries@[k as int].id == *id);
                    assert(0 <= c < self.entries@.len() && self.entries@[c].id == *id);
                    if c != k {
                        if c < k {
                            assert(self.entries@[c].id != self.entries@[k as int].id);
                        } else {
                            assert(self.entries@[k as int].id != self.entries@[c].id);
                        }
                    }
                }
                return Some(k);
            }
            k += 1;
        }
        None
    }

    /// Drop every entry idle past the TTL, keeping the order of the rest.
    pub fn evict_expired(&mut self, now_ms: u64)
        requires
            old(self).wf(),
        ensures
            final(self).wf(),
            final(self).entries@ == fresh(old(self).entries@, now_ms),
    {
        let ghost orig = self.entries@;
        let mut p: usize = 0;
        let mut j: usize = 0;
        let n = self.entries.len();
        while p < n
            invariant
                n == orig.len(),
                p <= n,
                j == fresh(orig.take(p as int), now_ms).len(),
                self.entries@ == fresh(orig.take(p as int), now_ms) + orig.skip(p as int),
                forall|x: int, y: int| 0 <= x < y < orig.len() ==> #[trigger] orig[x].id != #[trigger] orig[y].id,
                orig.len() <= DHT_POOL_MAX,
            decreases n - p,
        {
            proof {
                lemma_fresh_len(orig.take(p as int), now_ms);
                assert(orig.take(p + 1).drop_last() =~= orig.take(p as int));
                assert(orig.take(p + 1).last() == orig[p as int]);
                assert(self.entries@[j as int] == orig[p as int]);
            }
            if self.entries[j].last_used_ms < now_ms && now_ms - self.entries[j].last_used_ms > DHT_CONN_IDLE_TTL_MS {
                let _gone = self.entries.remove(j);
                assert(self.entries@ =~= fresh(orig.take(p + 1), now_ms) + orig.skip(p + 1));
            } else {
                assert(fresh(orig.take(p + 1), now_ms) + orig.skip(p + 1) =~= fresh(orig.take(p as int), now_ms) + orig.skip(p as int));
                j += 1;
            }
            p += 1;
        }
        proof {
            assert(orig.take(n as int) =~= orig);
            assert(self.entries@ =~= fresh(orig, now_ms));
            lemma_fresh_sub(orig, now_ms);
        }
    }

    /// Move entry `k` to the back, marked used at `now`.
    pub fn touch(&mut self, k: usize, now_ms: u64)
        requires
            old(self).wf(),
            k < old(self).entries@.len(),
        ensures
            final(self).wf(),
            final(self).entries@ == touched(old(self).entries@, k as int, now_ms),
    {
        let e = self.entries.remove(k);
        let ghost rest = self.entries@;
        self.entries.push(PoolEntry { last_used_ms: now_ms, ..e });
        proof {
            let s = old(self).entries@;
            assert forall|i: int, j: int| 0 <= i < j < self.entries@.len() implies #[trigger] self.entries@[i].id != #[trigger] self.entries@[j].id by {
                if j == self.entries@.len() - 1 {
                    let oi = if i < k { i } else { i + 1 };
                    assert(self.entries@[i] == s[oi]);
                    assert(self.entries@[j].id == s[k as int].id);
                    if oi < k { assert(s[oi].id != s[k as int].id); } else { assert(s[k as int].id != s[oi].id); }
                } else {
                    let oi = if i < k { i } else { i + 1 };
                    let oj = if j < k { j } else { j + 1 };
                    assert(self.entries@[i] == s[oi]);
                    assert(self.entries@[j] == s[oj]);
                }
            }
        }
    }

    /// Settle a pooled hit at `k` once its connection was probed: an open one
    /// is marked used, moved to the back and handed out; a closed one is
    /// dropped from the pool.
    pub fn settle_hit(&mut self, k: usize, open: bool, now_ms: u64) -> (r: Option<quinn::Connection>)
        requires
            old(self).wf(),
            k < old(self).entries@.len(),
        ensures
            final(self).wf(),
            open ==> r == Some(old(self).entries@[k as int].conn) && final(self).entries@ == touched(
                old(self).entries@,
                k as int,
                now_ms,
            ),
            !open ==> r is None && final(self).entries@ == old(self).entries@.remove(k as int),
    {
        if open {
            let c = connection_handle(&self.entries[k].conn);
            self.touch(k, now_ms);
            Some(c)
        } else {
            self.remove_at(k);
            None
        }
    }

    /// A cached connection to `id`, if one is pooled and still open: stale
    /// entries go first; then the pooled entry for `id`, if any, has its
    /// connection probed and is settled by [`Self::settle_hit`].
    pub fn take_cached(&mut self, id: &[u8; 32], now_ms: u64) -> (r: Option<quinn::Connection>)
        requires
            old(self).wf(),
        ensures
            final(self).wf(),
            !pooled(fresh(old(self).entries@, now_ms), *id) ==> r is None && final(self).entries@ == fresh(
                old(self).entries@,
                now_ms,
            ),
            pooled(fresh(old(self).entries@, now_ms), *id) ==> {
                let f = fresh(old(self).entries@, now_ms);
                let k = index_of(f, *id);
                ||| r == Some(f[k].conn) && final(self).entries@ == touched(f, k, now_ms)
                ||| r is None && final(self).entries@ == f.remove(k)
            },
    {
        self.evict_expired(now_ms);
        match self.find(id) {
            None => None,
            Some(k) => {
                let open = connection_open(&self.entries[k].conn);
                self.settle_hit(k, open, now_ms)
            },
        }
    }

    /// Drop entry `k`.
    pub fn remove_at(&mut self, k: usize)
        requires
            old(self).wf(),
            k < old(self).entries@.len(),
        ensures
            final(self).wf(),
            final(self).entries@ == old(self).entries@.remove(k as int),
    {
        let _gone = self.entries.remove(k);
        proof {
            let s = old(self).entries@;
            assert forall|i: int, j: int| 0 <= i < j < self.entries@.len() implies #[trigger] self.entries@[i].id != #[trigger] self.entries@[j].id by {
                let oi = if i < k { i } else { i + 1 };
                let oj = if j < k { j } else { j + 1 };
                assert(self.entries@[i] == s[oi]);
                assert(self.entries@[j] == s[oj]);
            }
        }
    }

    /// Pool a freshly dialled connection once the pooled entry for the same
    /// peer, if any, was probed (`existing_open`). If that one is open it is
    /// kept, marked used and handed back; otherwise it goes, the least
    /// recently used entry makes room when the pool is full, and the new one
    /// joins at the back and is handed back.
    pub fn settle_dialed(&mut self, dialed: PoolEntry, existing_open: bool, now_ms: u64) -> (r: quinn::Connection)
        requires
            old(self).wf(),
        ensures
            final(self).wf(),
            r == final(self).entries@.last().conn,
            final(self).entries@.last().id == dialed.id,
            !pooled(old(self).entries@, dialed.id) ==> final(self).entries@ == pool_insert_spec(
                old(self).entries@,
                dialed,
            ) && r == dialed.conn,
            pooled(old(self).entries@, dialed.id) && existing_open ==> {
                let k = index_of(old(self).entries@, dialed.id);
                final(self).entries@ == touched(old(self).entries@, k, now_ms) && r == old(self).entries@[k].conn
            },
            pooled(old(self).entries@, dialed.id) && !existing_open ==> {
                let k = index_of(old(self).entries@, dialed.id);
                final(self).entries@ == old(self).entries@.remove(k).push(dialed) && r == dialed.conn
            },
    {
        let id = dialed.id;
        match self.find(&id) {
            Some(k) => {
                if existing_open {
                    let c = connection_handle(&self.entries[k].conn);
                    self.touch(k, now_ms);
                    return c;
                }
                self.remove_at(k);
            },
            None => {},
        }
        proof {
            assert(!pooled(self.entries@, id)) by {
                if pooled(self.entries@, id) {
                    let j = choose|j: int| 0 <= j < self.entries@.len() && (#[trigger] self.entries@[j]).id == id;
                    if pooled(old(self).entries@, id) {
                        let k = index_of(old(self).entries@, id);
                        let oj = if j < k { j } else { j + 1 };
                        assert(old(self).entries@[oj].id == id);
                    }
                }
            }
        }
        if self.entries.len() >= DHT_POOL_MAX {
            self.remove_at(0);
        }
        let c = connection_handle(&dialed.conn);
        let ghost before = self.entries@;
        self.entries.push(dialed);
        proof {
            assert(self.entries@.last() == dialed);
            assert forall|i: int, j: int| 0 <= i < j < self.entries@.len() implies #[trigger] self.entries@[i].id != #[trigger] self.entries@[j].id by {
                if j == self.entries@.len() - 1 {
                    assert(self.entries@[i] == before[i]);
                    if before[i].id == id {
                        assert(pooled(before, id));
                    }
                } else {
                    assert(self.entries@[i] == before[i]);
                    assert(self.entries@[j] == before[j]);
                }
            }
            if !pooled(old(self).entries@, id) {
                if old(self).entries@.len() == DHT_POOL_MAX {
                    assert(before =~= old(self).entries@.remove(0));
                    assert(old(self).entries@.remove(0) =~= old(self).entries@.drop_first());
                }
            }
        }
        c
    }

    /// Pool a freshly dialled connection. If another dial to the same peer
    /// won the race and is still open, that one is kept, marked used, and
    /// handed back instead; otherwise [`Self::settle_dialed`] pools the new
    /// one. The connection handed back is the pool's last entry's.
    pub fn insert_dialed(&mut self, dialed: PoolEntry, now_ms: u64) -> (r: quinn::Connection)
        requires
            old(self).wf(),
        ensures
            final(self).wf(),
            pooled(final(self).entries@, dialed.id),
            r == final(self).entries@.last().conn,
            final(self).entries@.last().id == dialed.id,
            final(self).entries@.last().last_used_ms == now_ms || final(self).entries@.last() == dialed,
            !pooled(old(self).entries@, dialed.id) ==> final(self).entries@ == pool_insert_spec(
                old(self).entries@,
                dialed,
            ) && r == dialed.conn,
            // a pooled peer: its connection is probed; an open one is reused
            // and moved to the back, a closed one is replaced by the new dial;
            // the other entries stay as they were, in order
            pooled(old(self).entries@, dialed.id) ==> {
                let k = index_of(old(self).entries@, dialed.id);
                ||| final(self).entries@ == touched(old(self).entries@, k, now_ms) && r == old(self).entries@[k].conn
                ||| final(self).entries@ == old(self).entries@.remove(k).push(dialed) && r == dialed.conn
            },
    {
        let open = match self.find(&dialed.id) {
            Some(k) => connection_open(&self.entries[k].conn),
            None => false,
        };
        let r = self.settle_dialed(dialed, open, now_ms);
        proof {
            let n = self.entries@.len();
            assert(self.entries@[n - 1].id == dialed.id);
            assert(pooled(self.entries@, dialed.id));
        }
        r
    }

    /// The ephemeral identity our hello announced on the connection to
    /// `id`, or all zeros when none is pooled.
    pub fn ephemeral_for(&self, id: &[u8; 32]) -> (e: [u8; 32])
        requires
            self.wf(),
        ensures
            pooled(self.entries@, *id) ==> e == self.entries@[index_of(self.entries@, *id)].ephemeral_pub,
            !pooled(self.entries@, *id) ==> is_zero32(e),
    {
        match self.find(id) {
            Some(k) => self.entries[k].ephemeral_pub,
            None => {
                let z = [0u8; 32];
                assert(is_zero32(z));
                z
            },
        }
    }
}

/// The pool after dialling the peers of `es` one after another, none of
/// them pooled yet and none idle.
pub open spec fn dial_seq(es: Seq<PoolEntry>) -> Seq<PoolEntry>
    decreases es.len(),
{
    if es.len() == 0 {
        Seq::empty()
    } else {
        pool_insert_spec(dial_seq(es.drop_last()), es.last())
    }
}

/// Dialling distinct peers one after another keeps the last
/// [`DHT_POOL_MAX`] of them, least recently used first: each new peer is
/// not yet pooled when it is dialled, and after one dial more than the pool
/// holds the first peer is gone and the newest is last.
pub proof fn law_pool_keeps_latest_dials(es: Seq<PoolEntry>)
    requires
        forall|i: int, j: int| 0 <= i < j < es.len() ==> #[trigger] es[i].id != #[trigger] es[j].id,
    ensures
        dial_seq(es) == es.subrange(if es.len() > DHT_POOL_MAX { es.len() - DHT_POOL_MAX } else { 0 }, es.len() as int),
        es.len() > 0 ==> !pooled(dial_seq(es.drop_last()), es.last().id),
        es.len() == DHT_POOL_MAX + 1 ==> {
            &&& dial_seq(es).len() == DHT_POOL_MAX
            &&& !pooled(dial_seq(es), es[0].id)
            &&& dial_seq(es).last() == es[DHT_POOL_MAX as int]
        },
    decreases es.len(),
{
    if es.len() > 0 {
        let init = es.drop_last();
        assert forall|i: int, j: int| 0 <= i < j < init.len() implies #[trigger] init[i].id != #[trigger] init[j].id by {
            assert(init[i] == es[i] && init[j] == es[j]);
        }
        law_pool_keeps_latest_dials(init);
        let n = es.len() as int;
        let lo_init: int = if n - 1 > DHT_POOL_MAX { n - 1 - DHT_POOL_MAX } else { 0 };
        let p = dial_seq(init);
        assert(p == es.subrange(lo_init, n - 1));
        assert(!pooled(p, es.last().id)) by {
            if pooled(p, es.last().id) {
                let k = choose|k: int| 0 <= k < p.len() && (#[trigger] p[k]).id == es.last().id;
                assert(p[k] == es[lo_init + k]);
                assert(es[lo_init + k].id != es[n - 1].id);
            }
        }
        if n - 1 < DHT_POOL_MAX {
            assert(dial_seq(es) =~= es.subrange(0, n));
        } else {
            assert(dial_seq(es) =~= es.subrange(n - DHT_POOL_MAX, n));
        }
        if n == DHT_POOL_MAX + 1 {
            let d = dial_seq(es);
            assert(!pooled(d, es[0].id)) by {
                if pooled(d, es[0].id) {
                    let k = choose|k: int| 0 <= k < d.len() && (#[trigger] d[k]).id == es[0].id;
                    assert(d[k] == es[1 + k]);
                    assert(es[0].id != es[1 + k].id);
                }
            }
        }
    }
}

/// Looking peers up and dialling them one after another, starting from an
/// empty pool, at a time when none of them has idled out: at each peer's
/// turn its lookup misses (no entry is evicted as idle and the peer is not
/// pooled), so the dial pools it, and after `n` turns the pool is the
/// `dial_seq` of the first `n` peers.
pub proof fn law_lookups_miss_and_dials_pool(es: Seq<PoolEntry>, now_ms: u64, n: int)
    requires
        forall|i: int, j: int| 0 <= i < j < es.len() ==> #[trigger] es[i].id != #[trigger] es[j].id,
        forall|i: int| 0 <= i < es.len() ==> !idle_expired(#[trigger] es[i], now_ms),
        0 <= n < es.len(),
    ensures
        fresh(dial_seq(es.take(n)), now_ms) == dial_seq(es.take(n)),
        !pooled(dial_seq(es.take(n)), es[n].id),
        pool_insert_spec(dial_seq(es.take(n)), es[n]) == dial_seq(es.take(n + 1)),
{
    let a = es.take(n);
    let b = es.take(n + 1);
    assert forall|i: int, j: int| 0 <= i < j < a.len() implies #[trigger] a[i].id != #[trigger] a[j].id by {
        assert(a[i] == es[i] && a[j] == es[j]);
    }
    assert forall|i: int, j: int| 0 <= i < j < b.len() implies #[trigger] b[i].id != #[trigger] b[j].id by {
        assert(b[i] == es[i] && b[j] == es[j]);
    }
    assert(b.drop_last() =~= a);
    assert(b.last() == es[n]);
    law_pool_keeps_latest_dials(a);
    law_pool_keeps_latest_dials(b);
    let d = dial_seq(a);
    assert forall|k: int| 0 <= k < d.len() implies !idle_expired(#[trigger] d[k], now_ms) by {
        let lo: int = if a.len() > DHT_POOL_MAX { a.len() - DHT_POOL_MAX } else { 0 };
        assert(d[k] == a[lo + k]);
        assert(a[lo + k] == es[lo + k]);
    }
    lemma_fresh_all(d, now_ms);
}

/// A pool with no idle entry keeps every entry.
proof fn lemma_fresh_all(s: Seq<PoolEntry>, now_ms: u64)
    requires
        forall|k: int| 0 <= k < s.len() ==> !idle_expired(#[trigger] s[k], now_ms),
    ensures
        fresh(s, now_ms) == s,
    decreases s.len(),
{
    if s.len() > 0 {
        let init = s.drop_last();
        assert forall|k: int| 0 <= k < init.len() implies !idle_expired(#[trigger] init[k], now_ms) by {
            assert(init[k] == s[k]);
        }
        lemma_fresh_all(init, now_ms);
        assert(!idle_expired(s[s.len() - 1], now_ms));
        assert(init.push(s.last()) =~= s);
    }
}

proof fn lemma_fresh_len(s: Seq<PoolEntry>, now_ms: u64)
    ensures
        fresh(s, now_ms).len() <= s.len(),
    decreases s.len(),
{
    if s.len() > 0 {
        lemma_fresh_len(s.drop_last(), now_ms);
    }
}

/// The fresh entries are some of the old ones, in order: no peer twice.
proof fn lemma_fresh_sub(s: Seq<PoolEntry>, now_ms: u64)
    requires
        forall|x: int, y: int| 0 <= x < y < s.len() ==> #[trigger] s[x].id != #[trigger] s[y].id,
    ensures
        forall|x: int, y: int| 0 <= x < y < fresh(s, now_ms).len() ==> #[trigger] fresh(s, now_ms)[x].id != #[trigger] fresh(s, now_ms)[y].id,
        forall|x: int| 0 <= x < fresh(s, now_ms).len() ==> pooled(s, #[trigger] fresh(s, now_ms)[x].id),
        fresh(s, now_ms).len() <= s.len(),
    decreases s.len(),
{
    lemma_fresh_len(s, now_ms);
    if s.len() > 0 {
        let init = s.drop_last();
        lemma_fresh_sub(init, now_ms);
        let f0 = fresh(init, now_ms);
        assert forall|x: int| 0 <= x < f0.len() implies pooled(s, #[trigger] f0[x].id) by {
            let k = choose|k: int| 0 <= k < init.len() && (#[trigger] init[k]).id == f0[x].id;
            assert(s[k] == init[k]);
        }
        if !idle_expired(s.last(), now_ms) {
            let f = fresh(s, now_ms);
            assert forall|x: int| 0 <= x < f0.len() implies (#[trigger] f0[x]).id != s.last().id by {
                let k = choose|k: int| 0 <= k < init.len() && (#[trigger] init[k]).id == f0[x].id;
                assert(s[k].id != s[s.len() - 1].id);
            }
            assert(pooled(s, s.last().id)) by {
                assert(s[s.len() - 1].id == s.last().id);
            }
            assert forall|x: int, y: int| 0 <= x < y < f.len() implies #[trigger] f[x].id != #[trigger] f[y].id by {
                if y == f.len() - 1 {
                    assert(f[x] == f0[x]);
                } else {
                    assert(f[x] == f0[x]);
                    assert(f[y] == f0[y]);
                }
            }
            assert forall|x: int| 0 <= x < f.len() implies pooled(s, #[trigger] f[x].id) by {
                if x < f0.len() {
                    assert(f[x] == f0[x]);
                }
            }
        }
    }
}

/// Every byte of `a` is zero.
pub open spec fn is_zero32(a: [u8; 32]) -> bool {
    forall|i: int| 0 <= i < 32 ==> a@[i] == 0
}

// ---------------------------------------------------------------------------
// K-closest cache
// ---------------------------------------------------------------------------

/// A peer as a K-closest answer lists it.
#[derive(Clone, Copy, Debug, PartialEq, Eq)]
pub struct NodeDescriptor {
    pub id: [u8; 32],
    pub addr: SockAddr,
    pub pubkey: [u8; 32],
}

/// One cached K-closest answer.
pub struct CacheEntry {
    pub key: [u8; 32],
    pub cached_at_ms: u64,
    pub descriptors: Vec<NodeDescriptor>,
}

/// Cached K-closest answers by lookup key.
pub struct FindNodeCache {
    pub entries: Vec<CacheEntry>,
}

/// A cached answer is reused up to [`FINDNODE_CACHE_TTL_MS`] after it was
/// stored (a clock behind the entry counts as no time passed).
pub open spec fn cache_live(e: CacheEntry, now_ms: u64) -> bool {
    now_ms <= e.cached_at_ms || now_ms - e.cached_at_ms <= FINDNODE_CACHE_TTL_MS
}

/// A cached answer is reused from when it was stored until
/// [`FINDNODE_CACHE_TTL_MS`] later, that instant included, and not after;
/// a clock that reads before the store keeps it.
pub proof fn law_cached_answer_window(e: CacheEntry, now_ms: u64)
    ensures
        e.cached_at_ms <= now_ms && now_ms <= e.cached_at_ms + FINDNODE_CACHE_TTL_MS ==> cache_live(e, now_ms),
        now_ms > e.cached_at_ms + FINDNODE_CACHE_TTL_MS ==> !cache_live(e, now_ms),
        now_ms < e.cached_at_ms ==> cache_live(e, now_ms),
{
}

/// The last entry for `key`, by position.
pub open spec fn cache_find(s: Seq<CacheEntry>, key: [u8; 32]) -> Option<int>
    decreases s.len(),
{
    if s.len() == 0 {
        None
    } else if s.last().key == key {
        Some(s.len() - 1)
    } else {
        cache_find(s.drop_last(), key)
    }
}

/// Index of the first entry with the smallest `cached_at_ms` among the
/// first `n` entries.
pub open spec fn oldest_in(s: Seq<CacheEntry>, n: int) -> int
    decreases n,
{
    if n <= 1 {
        0
    } else {
        let m = oldest_in(s, n - 1);
        if s[n - 1].cached_at_ms < s[m].cached_at_ms { n - 1 } else { m }
    }
}

/// Past the cap, drop the oldest answer (first among equals, the newest one
/// never) until the cache fits.
pub open spec fn cache_trim(s: Seq<CacheEntry>) -> Seq<CacheEntry>
    decreases s.len(),
{
    if s.len() <= DHT_POOL_MAX {
        s
    } else {
        let m = oldest_in(s, s.len() - 1);
        if 0 <= m < s.len() {
            cache_trim(s.remove(m))
        } else {
            s
        }
    }
}

proof fn lemma_oldest_in_bounds(s: Seq<CacheEntry>, n: int)
    requires
        1 <= n <= s.len(),
    ensures
        0 <= oldest_in(s, n) < n,
    decreases n,
{
    if n > 1 {
        lemma_oldest_in_bounds(s, n - 1);
    }
}

/// The cache entries not expired at `now`, in order.
pub open spec fn cache_fresh(s: Seq<CacheEntry>, now_ms: u64) -> Seq<CacheEntry>
    decreases s.len(),
{
    if s.len() == 0 {
        Seq::empty()
    } else if cache_live(s.last(), now_ms) {
        cache_fresh(s.drop_last(), now_ms).push(s.last())
    } else {
        cache_fresh(s.drop_last(), now_ms)
    }
}

/// No two cached answers share a key.
pub open spec fn cache_keys_distinct(s: Seq<CacheEntry>) -> bool {
    forall|i: int, j: int| 0 <= i < j < s.len() ==> #[trigger] s[i].key != #[trigger] s[j].key
}

/// The answers other than the one for `key`.
pub open spec fn cache_without(s: Seq<CacheEntry>, key: [u8; 32]) -> Seq<CacheEntry> {
    match cache_find(s, key) {
        Some(k) => s.remove(k),
        None => s,
    }
}

proof fn lemma_cache_find(s: Seq<CacheEntry>, key: [u8; 32])
    ensures
        cache_find(s, key) matches Some(k) ==> 0 <= k < s.len() && s[k].key == key,
        cache_find(s, key) is None <==> forall|i: int| 0 <= i < s.len() ==> (#[trigger] s[i]).key != key,
        cache_keys_distinct(s) ==> forall|i: int|
            0 <= i < s.len() && (#[trigger] s[i]).key == key ==> cache_find(s, key) == Some(i),
    decreases s.len(),
{
    if s.len() > 0 {
        lemma_cache_find(s.drop_last(), key);
        assert forall|i: int| 0 <= i < s.len() - 1 implies s.drop_last()[i] == s[i] by {}
        if cache_keys_distinct(s) {
            assert(cache_keys_distinct(s.drop_last())) by {
                assert forall|i: int, j: int| 0 <= i < j < s.drop_last().len()
                    implies #[trigger] s.drop_last()[i].key != #[trigger] s.drop_last()[j].key by {
                    assert(s.drop_last()[i] == s[i] && s.drop_last()[j] == s[j]);
                }
            }
            assert forall|i: int| 0 <= i < s.len() && (#[trigger] s[i]).key == key implies cache_find(s, key) == Some(i) by {
                if i < s.len() - 1 {
                    assert(s[i].key != s[s.len() - 1].key);
                    assert(s.drop_last()[i] == s[i]);
                }
            }
        }
    }
}

proof fn lemma_cache_remove(s: Seq<CacheEntry>, p: int)
    requires
        0 <= p < s.len(),
        cache_keys_distinct(s),
    ensures
        cache_keys_distinct(s.remove(p)),
        s.remove(p).len() == s.len() - 1,
        forall|i: int| 0 <= i < s.remove(p).len() ==> #[trigger] s.remove(p)[i] == s[if i < p { i } else { i + 1 }],
{
    let r = s.remove(p);
    assert forall|i: int| 0 <= i < r.len() implies #[trigger] r[i] == s[if i < p { i } else { i + 1 }] by {}
    assert forall|i: int, j: int| 0 <= i < j < r.len() implies #[trigger] r[i].key != #[trigger] r[j].key by {
        let a = if i < p { i } else { i + 1 };
        let b = if j < p { j } else { j + 1 };
        assert(r[i] == s[a] && r[j] == s[b]);
    }
}

impl FindNodeCache {
    pub fn new() -> (c: FindNodeCache)
        ensures
            c.wf(),
            c.entries@.len() == 0,
    {
        FindNodeCache { entries: Vec::new() }
    }

    fn find(&self, key: &[u8; 32]) -> (r: Option<usize>)
        ensures
            match (r, cache_find(self.entries@, *key)) {
                (Some(k), Some(sk)) => k == sk && k < self.entries@.len(),
                (None, None) => true,
                _ => false,
            },
    {
        let mut i: usize = self.entries.len();
        proof {
            assert(self.entries@.take(i as int) =~= self.entries@);
        }
        while i > 0
            invariant
                i <= self.entries@.len(),
                cache_find(self.entries@, *key) == cache_find(self.entries@.take(i as int), *key),
            decreases i,
        {
            let ghost t = self.entries@.take(i as int);
            assert(t.drop_last() =~= self.entries@.take(i - 1));
            if crate::bytes::eq32(&self.entries[i - 1].key, key) {
                return Some(i - 1);
            }
            i -= 1;
        }
        None
    }

    /// The cached answer for `key`, if one is stored and still live.
    pub fn lookup(&self, key: &[u8; 32], now_ms: u64) -> (r: Option<Vec<NodeDescriptor>>)
        ensures
            match cache_find(self.entries@, *key) {
                Some(k) => if cache_live(self.entries@[k], now_ms) {
                    r matches Some(v) && v@ == self.entries@[k].descriptors@
                } else {
                    r is None
                },
                None => r is None,
            },
    {
        match self.find(key) {
            None => None,
            Some(k) => {
                let e = &self.entries[k];
                if now_ms <= e.cached_at_ms || now_ms - e.cached_at_ms <= FINDNODE_CACHE_TTL_MS {
                    let mut out: Vec<NodeDescriptor> = Vec::new();
                    let n = e.descriptors.len();
                    let mut i: usize = 0;
                    while i < n
                        invariant
                            n == e.descriptors@.len(),
                            i <= n,
                            out@ == e.descriptors@.take(i as int),
                        decreases n - i,
                    {
                        out.push(e.descriptors[i]);
                        assert(e.descriptors@.take(i + 1) =~= e.descriptors@.take(i as int).push(e.descriptors@[i as int]));
                        i += 1;
                    }
                    assert(e.descriptors@.take(n as int) =~= e.descriptors@);
                    Some(out)
                } else {
                    None
                }
            },
        }
    }

    /// No two answers share a key.
    pub open spec fn wf(&self) -> bool {
        cache_keys_distinct(self.entries@)
    }

    /// Store a fresh answer for `key` (replacing an older one). If the cache
    /// then holds more than [`DHT_POOL_MAX`] answers, the expired ones go,
    /// and then the oldest until it fits.
    #[verifier::rlimit(60)]
    #[verifier::spinoff_prover]
    pub fn store(&mut self, key: [u8; 32], descriptors: Vec<NodeDescriptor>, now_ms: u64)
        requires
            old(self).wf(),
            old(self).entries@.len() <= DHT_POOL_MAX,
        ensures
            final(self).wf(),
            final(self).entries@.len() <= DHT_POOL_MAX,
            final(self).entries@.len() >= 1,
            final(self).entries@.last().key == key,
            final(self).entries@.last().cached_at_ms == now_ms,
            final(self).entries@.last().descriptors@ == descriptors@,
            cache_find(final(self).entries@, key) == Some(final(self).entries@.len() - 1),
            // every other answer kept is one held before, for another key
            forall|i: int|
                0 <= i < final(self).entries@.len() - 1 ==> old(self).entries@.contains(
                    #[trigger] final(self).entries@[i],
                ) && final(self).entries@[i].key != key,
            // with room to spare, nothing else is dropped
            old(self).entries@.len() < DHT_POOL_MAX || cache_find(old(self).entries@, key) is Some
                ==> final(self).entries@ == cache_without(old(self).entries@, key).push(
                final(self).entries@.last(),
            ),
            // past the cap, no expired answer survives
            !(old(self).entries@.len() < DHT_POOL_MAX || cache_find(old(self).entries@, key) is Some)
                ==> forall|i: int|
                0 <= i < final(self).entries@.len() ==> cache_live(#[trigger] final(self).entries@[i], now_ms),
            // past the cap: the expired answers go first, then the oldest
            !(old(self).entries@.len() < DHT_POOL_MAX || cache_find(old(self).entries@, key) is Some)
                ==> final(self).entries@ == cache_trim(
                cache_fresh(cache_without(old(self).entries@, key).push(final(self).entries@.last()), now_ms),
            ),
    {
        let ghost start = self.entries@;
        proof {
            lemma_cache_find(start, key);
        }
        match self.find(&key) {
            Some(k) => {
                let _old = self.entries.remove(k);
                proof {
                    lemma_cache_remove(start, k as int);
                }
            },
            None => {},
        }
        let ghost mid = self.entries@;
        proof {
            assert(mid == cache_without(start, key));
            assert(forall|i: int| 0 <= i < mid.len() ==> start.contains(#[trigger] mid[i]) && mid[i].key != key) by {
                assert forall|i: int| 0 <= i < mid.len() implies start.contains(#[trigger] mid[i]) && mid[i].key != key by {
                    match cache_find(start, key) {
                        Some(k) => {
                            let j = if i < k { i } else { i + 1 };
                            assert(mid[i] == start[j]);
                            assert(start[j].key != start[k].key);
                        },
                        None => {
                            assert(mid[i] == start[i]);
                        },
                    }
                }
            }
        }
        let ghost d = descriptors@;
        self.entries.push(CacheEntry { key, cached_at_ms: now_ms, descriptors });
        proof {
            assert(self.entries@.drop_last() =~= mid);
            assert forall|i: int, j: int| 0 <= i < j < self.entries@.len()
                implies #[trigger] self.entries@[i].key != #[trigger] self.entries@[j].key by {
                if j < mid.len() {
                    assert(self.entries@[i] == mid[i] && self.entries@[j] == mid[j]);
                } else {
                    assert(self.entries@[i] == mid[i]);
                }
            }
            lemma_cache_find(self.entries@, key);
        }
        let ghost base = self.entries@;
        proof {
            assert(base == mid.push(base.last()));
        }
        if self.entries.len() > DHT_POOL_MAX {
            // The new entry is live at `now`, so it survives the sweep and,
            // being the newest, is never the oldest while others remain.
            let mut p: usize = 0;
            let ghost mut q: int = 0;
            while p < self.entries.len()
                invariant
                    0 <= q <= base.len(),
                    p == cache_fresh(base.take(q), now_ms).len(),
                    self.entries@ == cache_fresh(base.take(q), now_ms) + base.skip(q),
                    self.entries@.last() == base.last(),
                    p <= self.entries@.len(),
                    self.entries@.len() >= 1,
                    self.entries@.last().key == key,
                    self.entries@.last().cached_at_ms == now_ms,
                    self.entries@.last().descriptors@ == d,
                    cache_keys_distinct(self.entries@),
                    forall|i: int| 0 <= i < self.entries@.len() - 1 ==> mid.contains(#[trigger] self.entries@[i]),
                    forall|i: int| 0 <= i < mid.len() ==> start.contains(#[trigger] mid[i]) && mid[i].key != key,
                    forall|i: int| 0 <= i < p ==> cache_live(#[trigger] self.entries@[i], now_ms),
                decreases self.entries@.len() - p,
            {
                proof {
                    assert(base.take(q + 1).drop_last() =~= base.take(q));
                    assert(base.take(q + 1).last() == base[q]);
                    assert(self.entries@[p as int] == base[q]);
                }
                let e = &self.entries[p];
                if !(now_ms <= e.cached_at_ms || now_ms - e.cached_at_ms <= FINDNODE_CACHE_TTL_MS) {
                    let ghost before = self.entries@;
                    assert(p < before.len() - 1);
                    let _gone = self.entries.remove(p);
                    proof {
                        lemma_cache_remove(before, p as int);
                        assert forall|i: int| 0 <= i < self.entries@.len() - 1 implies mid.contains(
                            #[trigger] self.entries@[i],
                        ) by {
                            let j = if i < p { i } else { i + 1 };
                            assert(self.entries@[i] == before[j]);
                        }
                        assert forall|i: int| 0 <= i < p implies cache_live(#[trigger] self.entries@[i], now_ms) by {
                            assert(self.entries@[i] == before[i]);
                        }
                    }
                    assert(self.entries@.last() == before.last());
                    proof {
                        assert(self.entries@ =~= cache_fresh(base.take(q + 1), now_ms) + base.skip(q + 1));
                        q = q + 1;
                    }
                } else {
                    proof {
                        assert(cache_fresh(base.take(q + 1), now_ms) + base.skip(q + 1) =~= cache_fresh(
                            base.take(q),
                            now_ms,
                        ) + base.skip(q));
                        q = q + 1;
                    }
                    p += 1;
                }
            }
            proof {
                assert(base.take(q) =~= base);
                assert(self.entries@ =~= cache_fresh(base, now_ms));
            }
            while self.entries.len() > DHT_POOL_MAX
                invariant
                    cache_trim(self.entries@) == cache_trim(cache_fresh(base, now_ms)),
                    self.entries@.last() == base.last(),
                    self.entries@.len() >= 1,
                    self.entries@.last().key == key,
                    self.entries@.last().cached_at_ms == now_ms,
                    self.entries@.last().descriptors@ == d,
                    cache_keys_distinct(self.entries@),
                    forall|i: int| 0 <= i < self.entries@.len() - 1 ==> mid.contains(#[trigger] self.entries@[i]),
                    forall|i: int| 0 <= i < mid.len() ==> start.contains(#[trigger] mid[i]) && mid[i].key != key,
                    forall|i: int| 0 <= i < self.entries@.len() ==> cache_live(#[trigger] self.entries@[i], now_ms),
                decreases self.entries@.len(),
            {
                let n = self.entries.len();
                let mut m: usize = 0;
                let mut i: usize = 1;
                while i < n - 1
                    invariant
                        n == self.entries@.len(),
                        n > DHT_POOL_MAX,
                        1 <= i <= n - 1,
                        m < i,
                        m == oldest_in(self.entries@, i as int),
                    decreases n - i,
                {
                    if self.entries[i].cached_at_ms < self.entries[m].cached_at_ms {
                        m = i;
                    }
                    i += 1;
                }
                let ghost before = self.entries@;
                let _gone = self.entries.remove(m);
                proof {
                    assert(cache_trim(before) == cache_trim(before.remove(m as int)));
                    lemma_cache_remove(before, m as int);
                    assert forall|i: int| 0 <= i < self.entries@.len() - 1 implies mid.contains(
                        #[trigger] self.entries@[i],
                    ) by {
                        let j = if i < m { i } else { i + 1 };
                        assert(self.entries@[i] == before[j]);
                    }
                    assert forall|i: int| 0 <= i < self.entries@.len() implies cache_live(
                        #[trigger] self.entries@[i],
                        now_ms,
                    ) by {
                        let j = if i < m { i } else { i + 1 };
                        assert(self.entries@[i] == before[j]);
                    }
                }
                assert(self.entries@.last() == before.last());
            }
            proof {
                assert(cache_trim(self.entries@) == self.entries@);
            }
        }
        proof {
            lemma_cache_find(self.entries@, key);
            assert forall|i: int| 0 <= i < self.entries@.len() - 1 implies start.contains(
                #[trigger] self.entries@[i],
            ) && self.entries@[i].key != key by {
                assert(mid.contains(self.entries@[i]));
                let j = choose|j: int| 0 <= j < mid.len() && mid[j] == self.entries@[i];
                assert(start.contains(mid[j]));
            }
        }
    }

    /// Forget every cached answer.
    pub fn clear(&mut self)
        ensures
            final(self).wf(),
            final(self).entries@.len() == 0,
    {
        self.entries = Vec::new();
    }
}

// ---------------------------------------------------------------------------
// Routing keys and combining replies
// ---------------------------------------------------------------------------

/// An all-zero key in a descriptor means "not known": the dial is not
/// pinned to it.
pub fn pubkey_pin(pk: [u8; 32]) -> (r: Option<[u8; 32]>)
    ensures
        is_zero32(pk) ==> r is None,
        !is_zero32(pk) ==> r == Some(pk),
{
    let mut i: usize = 0;
    while i < 32
        invariant
            i <= 32,
            forall|j: int| 0 <= j < i ==> pk@[j] == 0,
        decreases 32 - i,
    {
        if pk[i] != 0 {
            return Some(pk);
        }
        i += 1;
    }
    None
}

/// The 32-byte stash key for `(domain, ipk)`: the digest of the domain tag
/// and the identity key, which keeps the key-package and welcome stashes
/// apart in one keyspace.
pub fn stash_prefix(domain: &[u8], ipk: &[u8; 32]) -> (k: [u8; 32])
    ensures
        k@ == blake3_digest(domain@ + ipk@),
{
    let mut buf: Vec<u8> = Vec::new();
    push_bytes(&mut buf, domain);
    push_bytes(&mut buf, ipk);
    blake3_hash(&buf)
}

/// What a key-package stash is routed by: the digest of `"kp:"` and the
/// identity key.
pub open spec fn kp_stash_preimage(ipk: Seq<u8>) -> Seq<u8> {
    seq![107u8, 112, 58] + ipk
}

pub fn kp_stash_key(ipk: &[u8; 32]) -> (k: [u8; 32])
    ensures
        k@ == blake3_digest(kp_stash_preimage(ipk@)),
{
    let domain: [u8; 3] = [107u8, 112, 58];
    assert(domain@ =~= seq![107u8, 112, 58]);
    stash_prefix(&domain, ipk)
}

/// Welcomes are routed by the recipient's identity key itself.
pub fn welcome_routing_key(recipient_ipk: &[u8; 32]) -> (k: [u8; 32])
    ensures
        k == *recipient_ipk,
{
    *recipient_ipk
}

/// Welcomes gathered from several homes: each welcome once, the first copy
/// kept; whether any home answered; the last failure.
pub struct WelcomeGather {
    pub seen: Vec<[u8; 8]>,
    pub any_success: bool,
    pub last_err: Option<String>,
}

/// `seen` names `id`.
pub open spec fn seen8(seen: Seq<[u8; 8]>, id: [u8; 8]) -> bool {
    exists|k: int| 0 <= k < seen.len() && seen[k] == id
}

impl WelcomeGather {
    pub open spec fn wf(&self) -> bool {
        forall|i: int, j: int| 0 <= i < j < self.seen@.len() ==> #[trigger] self.seen@[i] != #[trigger] self.seen@[j]
    }

    pub fn new() -> (g: WelcomeGather)
        ensures
            g.wf(),
            g.seen@.len() == 0,
            !g.any_success,
            g.last_err is None,
    {
        WelcomeGather { seen: Vec::new(), any_success: false, last_err: None }
    }

    /// A home answered with its welcomes.
    pub fn home_answered(&mut self)
        ensures
            final(self).any_success,
            final(self).seen@ == old(self).seen@,
            final(self).last_err == old(self).last_err,
    {
        self.any_success = true;
    }

    /// Take one welcome of an answer: `true` the first time its id is seen,
    /// when the caller keeps it.
    pub fn keep_first(&mut self, id: [u8; 8]) -> (keep: bool)
        requires
            old(self).wf(),
        ensures
            final(self).wf(),
            keep == !seen8(old(self).seen@, id),
            keep ==> final(self).seen@ == old(self).seen@.push(id),
            !keep ==> final(self).seen@ == old(self).seen@,
            seen8(final(self).seen@, id),
            final(self).any_success == old(self).any_success,
            final(self).last_err == old(self).last_err,
    {
        let n = self.seen.len();
        let mut k: usize = 0;
        while k < n
            invariant
                self.wf(),
                self.seen@ == old(self).seen@,
                self.any_success == old(self).any_success,
                self.last_err == old(self).last_err,
                n == self.seen@.len(),
                k <= n,
                forall|j: int| 0 <= j < k ==> self.seen@[j] != id,
            decreases n - k,
        {
            let s = self.seen[k];
            if s[0] == id[0] && s[1] == id[1] && s[2] == id[2] && s[3] == id[3] && s[4] == id[4] && s[5]
                == id[5] && s[6] == id[6] && s[7] == id[7] {
                assert(s =~= id);
                return false;
            }
            assert(s != id) by {
                if s == id {
                    assert(s[0] == id[0]);
                }
            }
            k += 1;
        }
        self.seen.push(id);
        assert(self.seen@[n as int] == id);
        true
    }

    /// A home failed; its error is the one reported if none answers.
    pub fn home_failed(&mut self, message: String)
        ensures
            final(self).last_err == Some(message),
            final(self).seen@ == old(self).seen@,
            final(self).any_success == old(self).any_success,
    {
        self.last_err = Some(message);
    }

    /// The gathered welcomes stand if any home answered; otherwise the last
    /// failure, or nothing at all when no home failed either.
    pub fn outcome(&self) -> (r: Result<(), String>)
        ensures
            self.any_success ==> r is Ok,
            !self.any_success ==> match self.last_err {
                Some(m) => r == Err::<(), String>(m),
                None => r is Ok,
            },
    {
        if self.any_success {
            return Ok(());
        }
        match &self.last_err {
            Some(m) => Err(m.clone()),
            None => Ok(()),
        }
    }
}

// ---------------------------------------------------------------------------
// Publishing or refilling key packages
// ---------------------------------------------------------------------------

/// What a publish or refill of `len` key packages does before any network
/// step.
#[derive(Clone, Copy, Debug, PartialEq, Eq, Structural)]
pub enum KpBatch {
    /// Nothing to send: the call succeeds at once.
    Empty,
    /// Go on to find the homes and send.
    Send,
}

/// A batch larger than the stash holds is refused as a protocol error.
#[derive(Clone, Copy, Debug, PartialEq, Eq)]
pub struct KpBatchTooLarge {
    pub size: usize,
    pub target: usize,
}

/// Gate a key-package batch of `len` records against the stash target: an
/// empty batch is done at once, one larger than the target is refused,
/// anything else is sent.
pub fn kp_batch_gate(len: usize, target: usize) -> (r: Result<KpBatch, KpBatchTooLarge>)
    ensures
        len == 0 ==> r == Ok::<KpBatch, KpBatchTooLarge>(KpBatch::Empty),
        len != 0 && len > target ==> r == Err::<KpBatch, KpBatchTooLarge>(KpBatchTooLarge { size: len, target }),
        len != 0 && len <= target ==> r == Ok::<KpBatch, KpBatchTooLarge>(KpBatch::Send),
{
    if len == 0 {
        Ok(KpBatch::Empty)
    } else if len > target {
        Err(KpBatchTooLarge { size: len, target })
    } else {
        Ok(KpBatch::Send)
    }
}

// ---------------------------------------------------------------------------
// Fetching another user's key package
// ---------------------------------------------------------------------------

/// What one home did with a key-package fetch, in the order homes are asked.
pub enum KpFetchReply {
    /// Dialling the home or the RPC failed with this message.
    Transport(String),
    /// The home answered with a reply of another kind.
    Unexpected(String),
    /// The home returned a key package.
    Found,
    NoStash,
    NotOwner,
    RateLimited,
}

/// Why no key package was fetched.
#[derive(Clone, Debug, PartialEq, Eq)]
pub enum KpFetchError {
    /// The last transport failure, when no home answered.
    Transport(String),
    /// A home answered with the wrong reply kind.
    Protocol(String),
    /// No home holds a stash for the user.
    NoStash,
}

/// The outcome from the `i`-th reply on: the first home that returned a
/// key package or a wrong reply decides; otherwise the last transport
/// failure, or `NoStash` when there was none.
pub open spec fn kp_fetch_from(s: Seq<KpFetchReply>, i: int) -> Result<int, KpFetchError>
    decreases s.len() - i,
{
    if i < 0 || i >= s.len() {
        Err(KpFetchError::NoStash)
    } else {
        match s[i] {
            KpFetchReply::Found => Ok(i),
            KpFetchReply::Unexpected(m) => Err(KpFetchError::Protocol(m)),
            KpFetchReply::Transport(m) => match kp_fetch_from(s, i + 1) {
                Err(KpFetchError::NoStash) => Err(KpFetchError::Transport(m)),
                o => o,
            },
            _ => kp_fetch_from(s, i + 1),
        }
    }
}

/// A reply that decides a fetch: a key package or a reply of the wrong kind.
pub open spec fn kp_decisive(r: KpFetchReply) -> bool {
    r is Found || r is Unexpected
}

/// A reply that says nothing: no stash, not a home, or rate limited.
pub open spec fn kp_quiet(r: KpFetchReply) -> bool {
    r is NoStash || r is NotOwner || r is RateLimited
}

proof fn lemma_kp_fetch_from(s: Seq<KpFetchReply>, i: int)
    requires
        0 <= i <= s.len(),
    ensures
        forall|k: int|
            i <= k < s.len() && (#[trigger] s[k]) is Found && (forall|j: int| i <= j < k ==> !kp_decisive(s[j]))
                ==> kp_fetch_from(s, i) == Ok::<int, KpFetchError>(k),
        forall|k: int|
            i <= k < s.len() && (#[trigger] s[k]) is Unexpected && (forall|j: int| i <= j < k ==> !kp_decisive(s[j]))
                ==> kp_fetch_from(s, i) == Err::<int, KpFetchError>(KpFetchError::Protocol(s[k]->Unexpected_0)),
        (forall|j: int| i <= j < s.len() ==> kp_quiet(#[trigger] s[j])) ==> kp_fetch_from(s, i) == Err::<
            int,
            KpFetchError,
        >(KpFetchError::NoStash),
        forall|t: int|
            i <= t < s.len() && (#[trigger] s[t]) is Transport && (forall|j: int| i <= j < t ==> !kp_decisive(s[j]))
                && (forall|j: int| t < j < s.len() ==> kp_quiet(s[j])) ==> kp_fetch_from(s, i) == Err::<
                int,
                KpFetchError,
            >(KpFetchError::Transport(s[t]->Transport_0)),
    decreases s.len() - i,
{
    if i < s.len() {
        lemma_kp_fetch_from(s, i + 1);
        assert forall|t: int|
            i < t < s.len() && (#[trigger] s[t]) is Transport && (forall|j: int| i <= j < t ==> !kp_decisive(s[j]))
                && (forall|j: int| t < j < s.len() ==> kp_quiet(s[j])) implies kp_fetch_from(s, i + 1) == Err::<
                int,
                KpFetchError,
            >(KpFetchError::Transport(s[t]->Transport_0)) by {
            assert(forall|j: int| i + 1 <= j < t ==> !kp_decisive(s[j]));
        }
        if s[i] is Transport {
            if forall|j: int| i < j < s.len() ==> kp_quiet(#[trigger] s[j]) {
                assert(forall|j: int| i + 1 <= j < s.len() ==> kp_quiet(#[trigger] s[j]));
            }
        }
    }
}

/// The first home that returns a key package or a reply of the wrong kind
/// decides a fetch (`Ok` with its position, or a protocol error), whatever
/// follows; until then homes that had nothing or failed to answer are
/// passed over. When no home decides, the fetch fails with the last
/// transport failure, or finds no stash when every home answered without
/// one.
pub proof fn law_first_decisive_home_wins(s: Seq<KpFetchReply>)
    ensures
        forall|k: int|
            0 <= k < s.len() && (#[trigger] s[k]) is Found && (forall|j: int| 0 <= j < k ==> !kp_decisive(s[j]))
                ==> kp_fetch_from(s, 0) == Ok::<int, KpFetchError>(k),
        forall|k: int|
            0 <= k < s.len() && (#[trigger] s[k]) is Unexpected && (forall|j: int| 0 <= j < k ==> !kp_decisive(s[j]))
                ==> kp_fetch_from(s, 0) == Err::<int, KpFetchError>(KpFetchError::Protocol(s[k]->Unexpected_0)),
        (forall|j: int| 0 <= j < s.len() ==> kp_quiet(#[trigger] s[j])) ==> kp_fetch_from(s, 0) == Err::<
            int,
            KpFetchError,
        >(KpFetchError::NoStash),
        forall|t: int|
            0 <= t < s.len() && (#[trigger] s[t]) is Transport && (forall|j: int| 0 <= j < t ==> !kp_decisive(s[j]))
                && (forall|j: int| t < j < s.len() ==> kp_quiet(s[j])) ==> kp_fetch_from(s, 0) == Err::<
                int,
                KpFetchError,
            >(KpFetchError::Transport(s[t]->Transport_0)),
{
    lemma_kp_fetch_from(s, 0);
}

/// An outcome with the transport failure seen so far in place of `NoStash`.
pub open spec fn with_last_failure(last: Option<String>, o: Result<int, KpFetchError>) -> Result<int, KpFetchError> {
    match o {
        Err(KpFetchError::NoStash) => match last {
            Some(m) => Err(KpFetchError::Transport(m)),
            None => Err(KpFetchError::NoStash),
        },
        _ => o,
    }
}

/// Combine the homes' replies to a key-package fetch: `Ok(k)` when the
/// `k`-th home's key package is the answer.
pub fn kp_fetch_outcome(replies: &Vec<KpFetchReply>) -> (r: Result<usize, KpFetchError>)
    ensures
        match kp_fetch_from(replies@, 0) {
            Ok(k) => r == Ok::<usize, KpFetchError>(k as usize),
            Err(e) => r == Err::<usize, KpFetchError>(e),
        },
{
    let n = replies.len();
    let mut last: Option<String> = None;
    let mut k: usize = 0;
    while k < n
        invariant
            n == replies@.len(),
            k <= n,
            kp_fetch_from(replies@, 0) == with_last_failure(last, kp_fetch_from(replies@, k as int)),
        decreases n - k,
    {
        match &replies[k] {
            KpFetchReply::Found => {
                return Ok(k);
            },
            KpFetchReply::Unexpected(m) => {
                return Err(KpFetchError::Protocol(m.clone()));
            },
            KpFetchReply::Transport(m) => {
                last = Some(m.clone());
            },
            _ => {},
        }
        k += 1;
    }
    match last {
        Some(m) => Err(KpFetchError::Transport(m)),
        None => Err(KpFetchError::NoStash),
    }
}

} // verus!
