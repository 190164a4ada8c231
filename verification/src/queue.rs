//! A relay's offline message queue: the key a queued message is stored
//! under, who may dispatch, whether a recipient's queue has room, and which
//! rows a drain hands back to the recipient.

use vstd::prelude::*;

use crate::codec::push_bytes;
use crate::codec::u64_be_spec;
use crate::codec::u64_to_be;
use crate::handshake::ed25519_verify_strict;
use crate::handshake::verify_signature;

verus! {

/// A queue key: `recipient(32) || accepted_at_ms(8, big-endian) || id(16)`.
pub const MESSAGE_KEY_LEN: usize = 56;

/// A queue key, split into its parts.
#[derive(Clone, Copy, Debug, PartialEq, Eq)]
pub struct MessageKey {
    pub recipient: [u8; 32],
    pub ts_be: [u8; 8],
    pub id: [u8; 16],
}

/// The bytes a key is stored under.
pub open spec fn message_key_bytes(k: MessageKey) -> Seq<u8> {
    k.recipient@ + k.ts_be@ + k.id@
}

/// A key's bytes are one key long and determine the key, so parsing what
/// `as_bytes` stored gives the same key back.
pub proof fn law_message_key_bytes_injective(a: MessageKey, b: MessageKey)
    ensures
        message_key_bytes(a).len() == MESSAGE_KEY_LEN,
        message_key_bytes(a) == message_key_bytes(b) ==> a == b,
{
    if message_key_bytes(a) == message_key_bytes(b) {
        let x = message_key_bytes(a);
        let y = message_key_bytes(b);
        assert(a.recipient@ =~= x.subrange(0, 32));
        assert(b.recipient@ =~= y.subrange(0, 32));
        assert(a.ts_be@ =~= x.subrange(32, 40));
        assert(b.ts_be@ =~= y.subrange(32, 40));
        assert(a.id@ =~= x.subrange(40, 56));
        assert(b.id@ =~= y.subrange(40, 56));
        assert(a.recipient =~= b.recipient);
        assert(a.ts_be =~= b.ts_be);
        assert(a.id =~= b.id);
    }
}

impl MessageKey {
    /// The key of a message for `recipient` accepted at `ts_ms`.
    pub fn new(recipient: &[u8; 32], ts_ms: u64, id: &[u8; 16]) -> (k: MessageKey)
        ensures
            k.recipient == *recipient,
            k.ts_be@ == u64_be_spec(ts_ms),
            k.id == *id,
    {
        MessageKey { recipient: *recipient, ts_be: u64_to_be(ts_ms), id: *id }
    }

    /// Split stored key bytes; `None` unless they are exactly one key long.
    pub fn parse(key: &[u8]) -> (r: Option<MessageKey>)
        ensures
            r is Some <==> key@.len() == MESSAGE_KEY_LEN,
            r matches Some(k) ==> message_key_bytes(k) == key@,
    {
        if key.len() != MESSAGE_KEY_LEN {
            return None;
        }
        let mut recipient = [0u8; 32];
        let mut ts_be = [0u8; 8];
        let mut id = [0u8; 16];
        let mut i: usize = 0;
        while i < MESSAGE_KEY_LEN
            invariant
                key@.len() == MESSAGE_KEY_LEN,
                i <= MESSAGE_KEY_LEN,
                forall|j: int| 0 <= j < i && j < 32 ==> recipient@[j] == key@[j],
                forall|j: int| 32 <= j < i && j < 40 ==> ts_be@[j - 32] == key@[j],
                forall|j: int| 40 <= j < i ==> id@[j - 40] == key@[j],
            decreases MESSAGE_KEY_LEN - i,
        {
            if i < 32 {
                recipient[i] = key[i];
            } else if i < 40 {
                ts_be[i - 32] = key[i];
            } else {
                id[i - 40] = key[i];
            }
            i += 1;
        }
        let k = MessageKey { recipient, ts_be, id };
        assert(message_key_bytes(k) =~= key@);
        Some(k)
    }

    /// The bytes the key is stored under.
    pub fn as_bytes(&self) -> (v: Vec<u8>)
        ensures
            v@ == message_key_bytes(*self),
    {
        let mut v: Vec<u8> = Vec::new();
        push_bytes(&mut v, &self.recipient);
        push_bytes(&mut v, &self.ts_be);
        push_bytes(&mut v, &self.id);
        assert(v@ =~= message_key_bytes(*self));
        v
    }
}

// ---------------------------------------------------------------------------
// Dispatch
// ---------------------------------------------------------------------------

/// What the relay answers a dispatch with.
#[derive(Clone, Debug, PartialEq, Eq)]
pub enum DispatchAck {
    /// Handed straight to the connected recipient.
    Delivered,
    /// Durably queued for the recipient.
    Queued,
    /// The recipient's queue is at its cap; the message was not stored.
    QueueFull,
    /// The sender is not the session's identity, or the signature fails.
    InvalidSig,
    Error(String),
}

/// A dispatch is accepted only from the session's own identity, signed by
/// it over the dispatch transcript.
pub fn dispatch_authorized(from: &[u8; 32], session_ipk: &[u8; 32], transcript: &[u8], sig: &[u8]) -> (ok: bool)
    ensures
        ok == (*from == *session_ipk && sig@.len() == 64 && ed25519_verify_strict(from@, transcript@, sig@)),
{
    if !crate::bytes::eq32(from, session_ipk) {
        return false;
    }
    verify_signature(from, transcript, sig)
}

// ---------------------------------------------------------------------------
// Scanning one recipient's queue
// ---------------------------------------------------------------------------

/// One step of a prefix scan over the queue, in key order. The scan is only
/// a seek hint: it runs on past the recipient's rows into other users'.
pub enum ScanRow {
    /// A row; `value_ok` when its value decodes as a delivery.
    Row { key: Vec<u8>, value_ok: bool },
    /// The scan failed here.
    Failed,
}

/// A row of `recipient`'s queue.
pub open spec fn owns(r: ScanRow, recipient: [u8; 32]) -> bool {
    match r {
        ScanRow::Row { key, .. } => key@.len() >= 32 && key@.subrange(0, 32) == recipient@,
        ScanRow::Failed => false,
    }
}

/// Where the run of `recipient`'s rows that starts at `i` ends.
pub open spec fn run_end(s: Seq<ScanRow>, recipient: [u8; 32], i: int) -> int
    decreases s.len() - i,
{
    if i < 0 || i >= s.len() || !owns(s[i], recipient) {
        i
    } else {
        run_end(s, recipient, i + 1)
    }
}

proof fn lemma_run_end_skip(s: Seq<ScanRow>, recipient: [u8; 32], i: int)
    requires
        0 <= i <= s.len(),
        forall|j: int| 0 <= j < i ==> owns(#[trigger] s[j], recipient),
    ensures
        run_end(s, recipient, 0) == run_end(s, recipient, i),
    decreases i,
{
    if i > 0 {
        lemma_run_end_skip(s, recipient, i - 1);
    }
}

proof fn lemma_run_end_bounds(s: Seq<ScanRow>, recipient: [u8; 32], i: int)
    requires
        0 <= i <= s.len(),
    ensures
        i <= run_end(s, recipient, i) <= s.len(),
        run_end(s, recipient, i) < s.len() ==> !owns(s[run_end(s, recipient, i)], recipient),
        forall|j: int| i <= j < run_end(s, recipient, i) ==> owns(#[trigger] s[j], recipient),
    decreases s.len() - i,
{
    if i < s.len() && owns(s[i], recipient) {
        lemma_run_end_bounds(s, recipient, i + 1);
    }
}

/// Whether a recipient's queue has room for one more message.
#[derive(Clone, Copy, Debug, PartialEq, Eq)]
pub enum QueueRoom {
    Room,
    Full,
    /// The scan failed before the count was known.
    ScanFailed,
}

/// Whether a message for `recipient` may be queued, given `cap` rows per
/// recipient: the scan stops once it has seen `cap + 1` of the recipient's
/// rows (`cap` when that overflows). A scan failure before that refuses the
/// message; at `cap` rows or more the queue is full.
pub open spec fn queue_room_spec(s: Seq<ScanRow>, recipient: [u8; 32], cap: usize) -> QueueRoom {
    let m = run_end(s, recipient, 0);
    let stop: int = if cap < usize::MAX { cap + 1 } else { cap as int };
    if m < stop && m < s.len() && s[m] is Failed {
        QueueRoom::ScanFailed
    } else if m >= cap {
        QueueRoom::Full
    } else {
        QueueRoom::Room
    }
}

/// Room is decided by the recipient's own rows at the front of the scan:
/// with `m` of them, a queue holding fewer than `cap` has room when the
/// scan then reaches another user's row or its end, and is refused when the
/// scan fails there; at `cap` rows or more the queue is full unless the
/// scan failed right after exactly `cap` of them.
pub proof fn law_queue_room_counts_own_rows(s: Seq<ScanRow>, recipient: [u8; 32], cap: usize, m: int)
    requires
        0 <= m <= s.len(),
        forall|j: int| 0 <= j < m ==> owns(#[trigger] s[j], recipient),
    ensures
        m < cap && m == s.len() ==> queue_room_spec(s, recipient, cap) == QueueRoom::Room,
        m < cap && m < s.len() && s[m] is Row && !owns(s[m], recipient) ==> queue_room_spec(s, recipient, cap)
            == QueueRoom::Room,
        m < cap && m < s.len() && s[m] is Failed ==> queue_room_spec(s, recipient, cap) == QueueRoom::ScanFailed,
        m >= cap && (m == s.len() || !(s[m] is Failed)) ==> queue_room_spec(s, recipient, cap) == QueueRoom::Full,
{
    lemma_run_end_skip(s, recipient, m);
    lemma_run_end_bounds(s, recipient, m);
    if m < s.len() && owns(s[m], recipient) {
        lemma_run_end_bounds(s, recipient, m + 1);
    }
}

/// Whether `key` starts with `recipient`.
fn has_prefix(key: &[u8], recipient: &[u8; 32]) -> (b: bool)
    ensures
        b == (key@.len() >= 32 && key@.subrange(0, 32) == recipient@),
{
    if key.len() < 32 {
        return false;
    }
    let mut i: usize = 0;
    while i < 32
        invariant
            key@.len() >= 32,
            i <= 32,
            forall|j: int| 0 <= j < i ==> key@[j] == recipient@[j],
        decreases 32 - i,
    {
        if key[i] != recipient[i] {
            assert(key@.subrange(0, 32)[i as int] != recipient@[i as int]);
            return false;
        }
        i += 1;
    }
    assert(key@.subrange(0, 32) =~= recipient@);
    true
}

/// Count `recipient`'s rows of a scan, as far as the cap needs.
pub fn queue_room(scan: &Vec<ScanRow>, recipient: &[u8; 32], cap: usize) -> (r: QueueRoom)
    ensures
        r == queue_room_spec(scan@, *recipient, cap),
{
    let n = scan.len();
    let stop_at = cap.saturating_add(1);
    let mut count: usize = 0;
    proof {
        lemma_run_end_bounds(scan@, *recipient, 0);
    }
    while count < n
        invariant
            n == scan@.len(),
            stop_at == cap.saturating_add(1),
            count <= n,
            count < stop_at,
            forall|j: int| 0 <= j < count ==> owns(#[trigger] scan@[j], *recipient),
        ensures
            count < stop_at,
            count <= n,
            forall|j: int| 0 <= j < count ==> owns(#[trigger] scan@[j], *recipient),
            count == n || !owns(scan@[count as int], *recipient),
            count < n ==> scan@[count as int] is Row,
        decreases n - count,
    {
        let owned = match &scan[count] {
            ScanRow::Row { key, .. } => has_prefix(key, recipient),
            ScanRow::Failed => {
                proof {
                    lemma_run_end_skip(scan@, *recipient, count as int);
                }
                return QueueRoom::ScanFailed;
            },
        };
        if !owned {
            break;
        }
        count += 1;
        if count >= stop_at {
            proof {
                lemma_run_end_skip(scan@, *recipient, count as int);
                lemma_run_end_bounds(scan@, *recipient, count as int);
            }
            return QueueRoom::Full;
        }
    }
    proof {
        lemma_run_end_skip(scan@, *recipient, count as int);
        lemma_run_end_bounds(scan@, *recipient, count as int);
    }
    if count >= cap {
        QueueRoom::Full
    } else {
        QueueRoom::Room
    }
}

/// The rows a drain sends, in scan order: the recipient's run of rows up to
/// the first row of another user or a scan failure, without those whose key
/// or value does not decode.
pub open spec fn deliverable(r: ScanRow) -> bool {
    match r {
        ScanRow::Row { key, value_ok } => key@.len() == MESSAGE_KEY_LEN && value_ok,
        ScanRow::Failed => false,
    }
}

/// Indices below `k` of deliverable rows, in order.
pub open spec fn deliverable_below(s: Seq<ScanRow>, k: int) -> Seq<usize>
    decreases k,
{
    if k <= 0 {
        Seq::empty()
    } else if deliverable(s[k - 1]) {
        deliverable_below(s, k - 1).push((k - 1) as usize)
    } else {
        deliverable_below(s, k - 1)
    }
}

proof fn lemma_deliverable_below(s: Seq<ScanRow>, recipient: [u8; 32], k: int)
    requires
        0 <= k <= s.len(),
        s.len() <= usize::MAX,
        forall|j: int| 0 <= j < k ==> owns(#[trigger] s[j], recipient),
    ensures
        forall|i: int| 0 <= i < deliverable_below(s, k).len() ==> {
            let x = #[trigger] deliverable_below(s, k)[i] as int;
            0 <= x < k && owns(s[x], recipient) && deliverable(s[x])
        },
    decreases k,
{
    if k > 0 {
        lemma_deliverable_below(s, recipient, k - 1);
        let prev = deliverable_below(s, k - 1);
        let cur = deliverable_below(s, k);
        assert forall|i: int| 0 <= i < cur.len() implies {
            let x = #[trigger] cur[i] as int;
            0 <= x < k && owns(s[x], recipient) && deliverable(s[x])
        } by {
            if i < prev.len() {
                assert(cur[i] == prev[i]);
            } else {
                assert(cur[i] == (k - 1) as usize);
            }
        }
    }
}

/// A drain sends only rows of its recipient's own queue, never another
/// user's, whatever the scan walks into.
pub fn drain_rows(scan: &Vec<ScanRow>, recipient: &[u8; 32]) -> (r: Vec<usize>)
    ensures
        r@ == deliverable_below(scan@, run_end(scan@, *recipient, 0)),
        forall|i: int| 0 <= i < r@.len() ==> {
            let x = #[trigger] r@[i] as int;
            0 <= x < scan@.len() && owns(scan@[x], *recipient) && deliverable(scan@[x])
        },
{
    let n = scan.len();
    let mut out: Vec<usize> = Vec::new();
    let mut k: usize = 0;
    while k < n
        invariant
            n == scan@.len(),
            k <= n,
            forall|j: int| 0 <= j < k ==> owns(#[trigger] scan@[j], *recipient),
            out@ == deliverable_below(scan@, k as int),
        ensures
            k <= n,
            forall|j: int| 0 <= j < k ==> owns(#[trigger] scan@[j], *recipient),
            out@ == deliverable_below(scan@, k as int),
            k == n || !owns(scan@[k as int], *recipient),
        decreases n - k,
    {
        let ok = match &scan[k] {
            ScanRow::Row { key, value_ok } => {
                if !has_prefix(key, recipient) {
                    break;
                }
                key.len() == MESSAGE_KEY_LEN && *value_ok
            },
            ScanRow::Failed => {
                break;
            },
        };
        if ok {
            out.push(k);
        }
        k += 1;
    }
    proof {
        lemma_run_end_skip(scan@, *recipient, k as int);
        lemma_run_end_bounds(scan@, *recipient, k as int);
        lemma_deliverable_below(scan@, *recipient, k as int);
    }
    out
}

/// The key bytes of a scan row.
pub open spec fn row_key_bytes(r: ScanRow) -> Seq<u8> {
    match r {
        ScanRow::Row { key, .. } => key@,
        ScanRow::Failed => Seq::empty(),
    }
}

/// The keys, as stored bytes and in order, of the rows a drain of
/// `recipient`'s queue sends.
pub open spec fn drain_key_bytes(s: Seq<ScanRow>, recipient: [u8; 32]) -> Seq<Seq<u8>> {
    deliverable_below(s, run_end(s, recipient, 0)).map_values(|x: usize| row_key_bytes(s[x as int]))
}

/// The stored bytes of a list of keys, in order.
pub open spec fn keys_bytes(keys: Seq<MessageKey>) -> Seq<Seq<u8>> {
    keys.map_values(|k: MessageKey| message_key_bytes(k))
}

/// The keys the last drain sent that the client has not acknowledged yet.
pub struct PendingDrain {
    pub keys: Vec<MessageKey>,
}

impl PendingDrain {
    pub fn new() -> (p: PendingDrain)
        ensures
            p.keys@ == Seq::<MessageKey>::empty(),
    {
        PendingDrain { keys: Vec::new() }
    }

    /// Sends `recipient`'s queued rows and remembers their keys. The queue
    /// itself is only read: nothing leaves it before the client acknowledges.
    /// The keys remembered replace those of an earlier drain that was not
    /// acknowledged, so a second drain does not count a message twice.
    pub fn drain(&mut self, scan: &Vec<ScanRow>, recipient: &[u8; 32]) -> (sent: Vec<usize>)
        ensures
            sent@ == deliverable_below(scan@, run_end(scan@, *recipient, 0)),
            keys_bytes(final(self).keys@) == drain_key_bytes(scan@, *recipient),
    {
        let sent = drain_rows(scan, recipient);
        let mut keys: Vec<MessageKey> = Vec::new();
        let mut i: usize = 0;
        while i < sent.len()
            invariant
                i <= sent@.len(),
                sent@ == deliverable_below(scan@, run_end(scan@, *recipient, 0)),
                forall|j: int| 0 <= j < sent@.len() ==> {
                    let x = #[trigger] sent@[j] as int;
                    0 <= x < scan@.len() && deliverable(scan@[x])
                },
                keys@.len() == i,
                forall|j: int| 0 <= j < i ==> message_key_bytes(#[trigger] keys@[j]) == row_key_bytes(
                    scan@[sent@[j] as int],
                ),
            decreases sent@.len() - i,
        {
            let x = sent[i];
            assert(0 <= x < scan@.len() && deliverable(scan@[x as int]));
            match &scan[x] {
                ScanRow::Row { key, .. } => {
                    match MessageKey::parse(key.as_slice()) {
                        Some(k) => {
                            keys.push(k);
                        },
                        None => {},
                    }
                },
                ScanRow::Failed => {},
            }
            i += 1;
        }
        assert(keys_bytes(keys@) =~= drain_key_bytes(scan@, *recipient));
        self.keys = keys;
        sent
    }

    /// The client acknowledged the drain: the stored keys to delete, in the
    /// order they were sent, and nothing left pending.
    pub fn take_for_ack(&mut self) -> (delete: Vec<Vec<u8>>)
        ensures
            delete@.len() == old(self).keys@.len(),
            forall|i: int| 0 <= i < delete@.len() ==> (#[trigger] delete@[i])@ == message_key_bytes(
                old(self).keys@[i],
            ),
            final(self).keys@ == Seq::<MessageKey>::empty(),
    {
        let mut keys: Vec<MessageKey> = Vec::new();
        std::mem::swap(&mut keys, &mut self.keys);
        let mut delete: Vec<Vec<u8>> = Vec::new();
        let mut i: usize = 0;
        while i < keys.len()
            invariant
                i <= keys@.len(),
                delete@.len() == i,
                forall|j: int| 0 <= j < i ==> (#[trigger] delete@[j])@ == message_key_bytes(keys@[j]),
            decreases keys@.len() - i,
        {
            delete.push(keys[i].as_bytes());
            i += 1;
        }
        delete
    }
}

} // verus!
