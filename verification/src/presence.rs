//! Presence on one relay: who may subscribe, who learns whose state (only
//! mutual contacts), what a subscriber is shown, how a contact's state reads
//! when it backgrounds or leaves, and the version every relayed state carries.

use vstd::prelude::*;

use crate::storage::PresenceState;

verus! {

/// Most contacts one subscribe may name.
pub const MAX_PRESENCE_CONTACTS: usize = 256;

/// Most consents one subscribe may carry.
pub const MAX_PRESENCE_CONSENTS: usize = 256;

/// What the relay reads of the lease in a subscribe; `valid` is whether its
/// signature and lifetime check out now.
#[derive(Clone, Copy, Debug)]
pub struct LeaseClaims {
    pub user: [u8; 32],
    pub relay_id: [u8; 32],
    pub valid: bool,
}

/// What the relay reads of one consent in a subscribe; `valid` is whether
/// its signature and lifetime check out now.
#[derive(Clone, Copy, Debug)]
pub struct ConsentClaims {
    pub owner: [u8; 32],
    pub recipient: [u8; 32],
    pub granted: bool,
    pub valid: bool,
}

/// A subscribe small enough to look at.
pub fn subscribe_sizes_ok(contacts: usize, consents: usize) -> (b: bool)
    ensures
        b == (contacts <= MAX_PRESENCE_CONTACTS && consents <= MAX_PRESENCE_CONSENTS),
{
    contacts <= MAX_PRESENCE_CONTACTS && consents <= MAX_PRESENCE_CONSENTS
}

/// Some consent grants `contact` sight of us.
pub open spec fn granted_to(consents: Seq<ConsentClaims>, contact: [u8; 32]) -> bool {
    exists|k: int| 0 <= k < consents.len() && (#[trigger] consents[k]).recipient == contact && consents[k].granted
}

/// A subscribe is honoured when its lease is ours, for this relay and
/// valid; every consent is ours and valid; and every contact named is
/// granted by one of them.
pub open spec fn subscribe_authorized_spec(
    contacts: Seq<[u8; 32]>,
    consents: Seq<ConsentClaims>,
    lease: LeaseClaims,
    me: [u8; 32],
    node_id: [u8; 32],
) -> bool {
    &&& lease.user == me
    &&& lease.relay_id == node_id
    &&& lease.valid
    &&& forall|k: int| 0 <= k < consents.len() ==> (#[trigger] consents[k]).owner == me && consents[k].valid
    &&& forall|i: int| 0 <= i < contacts.len() ==> granted_to(consents, #[trigger] contacts[i])
}

fn is_granted(consents: &Vec<ConsentClaims>, contact: &[u8; 32]) -> (b: bool)
    ensures
        b == granted_to(consents@, *contact),
{
    let n = consents.len();
    let mut k: usize = 0;
    while k < n
        invariant
            n == consents@.len(),
            k <= n,
            forall|j: int| 0 <= j < k ==> !((#[trigger] consents@[j]).recipient == *contact && consents@[j].granted),
        decreases n - k,
    {
        if crate::bytes::eq32(&consents[k].recipient, contact) && consents[k].granted {
            return true;
        }
        k += 1;
    }
    false
}

pub fn subscribe_authorized(
    contacts: &Vec<[u8; 32]>,
    consents: &Vec<ConsentClaims>,
    lease: &LeaseClaims,
    me: &[u8; 32],
    node_id: &[u8; 32],
) -> (b: bool)
    ensures
        b == subscribe_authorized_spec(contacts@, consents@, *lease, *me, *node_id),
{
    if !crate::bytes::eq32(&lease.user, me) || !crate::bytes::eq32(&lease.relay_id, node_id)
        || !lease.valid {
        return false;
    }
    let m = consents.len();
    let mut k: usize = 0;
    while k < m
        invariant
            m == consents@.len(),
            k <= m,
            forall|j: int| 0 <= j < k ==> (#[trigger] consents@[j]).owner == *me && consents@[j].valid,
        decreases m - k,
    {
        if !crate::bytes::eq32(&consents[k].owner, me) || !consents[k].valid {
            return false;
        }
        k += 1;
    }
    let n = contacts.len();
    let mut i: usize = 0;
    while i < n
        invariant
            n == contacts@.len(),
            i <= n,
            forall|j: int| 0 <= j < i ==> granted_to(consents@, #[trigger] contacts@[j]),
        decreases n - i,
    {
        if !is_granted(consents, &contacts[i]) {
            return false;
        }
        i += 1;
    }
    true
}

// ---------------------------------------------------------------------------
// Mutuality
// ---------------------------------------------------------------------------

/// `list` names `x`.
pub open spec fn names(list: Seq<[u8; 32]>, x: [u8; 32]) -> bool {
    exists|k: int| 0 <= k < list.len() && list[k] == x
}

fn contains32(list: &Vec<[u8; 32]>, x: &[u8; 32]) -> (b: bool)
    ensures
        b == names(list@, *x),
{
    let n = list.len();
    let mut k: usize = 0;
    while k < n
        invariant
            n == list@.len(),
            k <= n,
            forall|j: int| 0 <= j < k ==> list@[j] != *x,
        decreases n - k,
    {
        if crate::bytes::eq32(&list[k], x) {
            return true;
        }
        k += 1;
    }
    false
}

/// Each contact once, at its first occurrence, in order.
pub open spec fn first_occurrences(s: Seq<[u8; 32]>) -> Seq<[u8; 32]>
    decreases s.len(),
{
    if s.len() == 0 {
        Seq::empty()
    } else if names(s.drop_last(), s.last()) {
        first_occurrences(s.drop_last())
    } else {
        first_occurrences(s.drop_last()).push(s.last())
    }
}

proof fn lemma_first_occurrences(s: Seq<[u8; 32]>)
    ensures
        forall|x: [u8; 32]| names(first_occurrences(s), x) <==> names(s, x),
        forall|i: int, j: int|
            0 <= i < j < first_occurrences(s).len() ==> #[trigger] first_occurrences(s)[i] != #[trigger] first_occurrences(s)[j],
    decreases s.len(),
{
    if s.len() > 0 {
        let init = s.drop_last();
        lemma_first_occurrences(init);
        let f0 = first_occurrences(init);
        let f = first_occurrences(s);
        assert forall|x: [u8; 32]| names(f, x) <==> names(s, x) by {
            let dup = names(init, s.last());
            if dup {
                assert(f == f0);
            } else {
                assert(f == f0.push(s.last()));
            }
            if names(s, x) {
                let k = choose|k: int| 0 <= k < s.len() && s[k] == x;
                if k < s.len() - 1 {
                    assert(init[k] == s[k]);
                    assert(names(init, x));
                    assert(names(f0, x));
                    let j = choose|j: int| 0 <= j < f0.len() && f0[j] == x;
                    assert(f[j] == f0[j]);
                } else if dup {
                    assert(x == s.last());
                    assert(names(f0, x));
                    let j = choose|j: int| 0 <= j < f0.len() && f0[j] == x;
                    assert(f[j] == f0[j]);
                } else {
                    assert(f[f.len() - 1] == x);
                }
            }
            if names(f, x) {
                let j = choose|j: int| 0 <= j < f.len() && f[j] == x;
                if j < f0.len() {
                    assert(f0[j] == f[j]);
                    assert(names(f0, x));
                    assert(names(init, x));
                    let k = choose|k: int| 0 <= k < init.len() && init[k] == x;
                    assert(s[k] == init[k]);
                } else {
                    assert(s[s.len() - 1] == x);
                }
            }
        }
        if !names(init, s.last()) {
            assert(!names(f0, s.last()));
            assert forall|i: int, j: int| 0 <= i < j < f.len() implies #[trigger] f[i] != #[trigger] f[j] by {
                if j == f.len() - 1 {
                    assert(f[i] == f0[i]);
                    if f0[i] == s.last() {
                        assert(names(f0, s.last()));
                    }
                } else {
                    assert(f[i] == f0[i] && f[j] == f0[j]);
                }
            }
        }
    }
}

/// The contacts of a subscription as a set: each once, in the order first
/// given, none lost. Repeats in the request are dropped before anything
/// else reads the contacts.
pub fn distinct_contacts(contacts: &Vec<[u8; 32]>) -> (r: Vec<[u8; 32]>)
    ensures
        r@ == first_occurrences(contacts@),
        forall|x: [u8; 32]| names(r@, x) <==> names(contacts@, x),
        forall|i: int, j: int| 0 <= i < j < r@.len() ==> #[trigger] r@[i] != #[trigger] r@[j],
{
    let mut out: Vec<[u8; 32]> = Vec::new();
    let n = contacts.len();
    let mut i: usize = 0;
    while i < n
        invariant
            n == contacts@.len(),
            i <= n,
            out@ == first_occurrences(contacts@.take(i as int)),
        decreases n - i,
    {
        let ghost t = contacts@.take(i + 1);
        assert(t.drop_last() =~= contacts@.take(i as int));
        assert(t.last() == contacts@[i as int]);
        proof {
            lemma_first_occurrences(contacts@.take(i as int));
        }
        if !contains32(&out, &contacts[i]) {
            out.push(contacts[i]);
        }
        i += 1;
    }
    assert(contacts@.take(n as int) =~= contacts@);
    proof {
        lemma_first_occurrences(contacts@);
    }
    out
}

/// Contacts subscribed here whose own contact set names `me`.
pub open spec fn subscribed_mutual(contacts: Seq<[u8; 32]>, theirs: Seq<Option<Vec<[u8; 32]>>>, me: [u8; 32]) -> Seq<[u8; 32]>
    decreases contacts.len(),
{
    if contacts.len() == 0 {
        Seq::empty()
    } else {
        let rest = subscribed_mutual(contacts.drop_last(), theirs, me);
        match theirs[contacts.len() - 1] {
            Some(t) => if names(t@, me) { rest.push(contacts.last()) } else { rest },
            None => rest,
        }
    }
}

/// Contacts not subscribed here at all.
pub open spec fn unsubscribed(contacts: Seq<[u8; 32]>, theirs: Seq<Option<Vec<[u8; 32]>>>) -> Seq<[u8; 32]>
    decreases contacts.len(),
{
    if contacts.len() == 0 {
        Seq::empty()
    } else {
        let rest = unsubscribed(contacts.drop_last(), theirs);
        match theirs[contacts.len() - 1] {
            Some(_) => rest,
            None => rest.push(contacts.last()),
        }
    }
}

/// Split our contacts by what their own subscriptions here say: mutual
/// (they subscribed to us), and unsubscribed (they have no subscription
/// here; their stored consent decides). `theirs[i]` is contact `i`'s
/// contact set if it is subscribed here. `contacts` is the subscription's
/// contact set as [`distinct_contacts`] gives it.
pub fn classify_contacts(contacts: &Vec<[u8; 32]>, theirs: &Vec<Option<Vec<[u8; 32]>>>, me: &[u8; 32]) -> (r: (
    Vec<[u8; 32]>,
    Vec<[u8; 32]>,
))
    requires
        theirs@.len() == contacts@.len(),
    ensures
        r.0@ == subscribed_mutual(contacts@, theirs@, *me),
        r.1@ == unsubscribed(contacts@, theirs@),
{
    let mut mutual: Vec<[u8; 32]> = Vec::new();
    let mut unsub: Vec<[u8; 32]> = Vec::new();
    let n = contacts.len();
    let mut i: usize = 0;
    while i < n
        invariant
            n == contacts@.len(),
            theirs@.len() == n,
            i <= n,
            mutual@ == subscribed_mutual(contacts@.take(i as int), theirs@, *me),
            unsub@ == unsubscribed(contacts@.take(i as int), theirs@),
        decreases n - i,
    {
        let ghost t = contacts@.take(i + 1);
        assert(t.drop_last() =~= contacts@.take(i as int));
        assert(t.last() == contacts@[i as int]);
        match &theirs[i] {
            Some(list) => {
                if contains32(list, me) {
                    mutual.push(contacts[i]);
                }
            },
            None => {
                unsub.push(contacts[i]);
            },
        }
        i += 1;
    }
    assert(contacts@.take(n as int) =~= contacts@);
    (mutual, unsub)
}

/// Presence is mutual: a contact classed as mutual is one of ours whose own
/// subscription here names us, and one classed as unsubscribed is one of
/// ours with no subscription here (its stored consent is then what decides).
pub proof fn law_presence_is_mutual(contacts: Seq<[u8; 32]>, theirs: Seq<Option<Vec<[u8; 32]>>>, me: [u8; 32])
    requires
        theirs.len() == contacts.len(),
    ensures
        forall|k: int| 0 <= k < subscribed_mutual(contacts, theirs, me).len() ==> exists|i: int|
            0 <= i < contacts.len() && contacts[i] == #[trigger] subscribed_mutual(contacts, theirs, me)[k]
                && (theirs[i] matches Some(t) && names(t@, me)),
        forall|k: int| 0 <= k < unsubscribed(contacts, theirs).len() ==> exists|i: int|
            0 <= i < contacts.len() && contacts[i] == #[trigger] unsubscribed(contacts, theirs)[k] && theirs[i] is None,
    decreases contacts.len(),
{
    if contacts.len() > 0 {
        let c = contacts.drop_last();
        let t = theirs.drop_last();
        let n = contacts.len() - 1;
        lemma_mutual_prefix(contacts, theirs, me);
        law_presence_is_mutual(c, t, me);
        let m = subscribed_mutual(contacts, theirs, me);
        let pm = subscribed_mutual(c, t, me);
        assert forall|k: int| 0 <= k < m.len() implies exists|i: int|
            0 <= i < contacts.len() && contacts[i] == #[trigger] m[k] && (theirs[i] matches Some(tt) && names(tt@, me)) by {
            if k < pm.len() {
                assert(m[k] == pm[k]);
                let i = choose|i: int| 0 <= i < c.len() && c[i] == #[trigger] pm[k] && (t[i] matches Some(tt) && names(tt@, me));
                assert(contacts[i] == c[i] && theirs[i] == t[i]);
            } else {
                assert(m[k] == contacts[n]);
            }
        }
        let u = unsubscribed(contacts, theirs);
        let pu = unsubscribed(c, t);
        assert forall|k: int| 0 <= k < u.len() implies exists|i: int|
            0 <= i < contacts.len() && contacts[i] == #[trigger] u[k] && theirs[i] is None by {
            if k < pu.len() {
                assert(u[k] == pu[k]);
                let i = choose|i: int| 0 <= i < c.len() && c[i] == #[trigger] pu[k] && t[i] is None;
                assert(contacts[i] == c[i] && theirs[i] == t[i]);
            } else {
                assert(u[k] == contacts[n]);
            }
        }
    }
}

/// Cutting the last contact leaves the classification of the others as it
/// was, whatever the last contact's subscription.
proof fn lemma_mutual_prefix(contacts: Seq<[u8; 32]>, theirs: Seq<Option<Vec<[u8; 32]>>>, me: [u8; 32])
    requires
        contacts.len() > 0,
        theirs.len() == contacts.len(),
    ensures
        subscribed_mutual(contacts.drop_last(), theirs, me) == subscribed_mutual(contacts.drop_last(), theirs.drop_last(), me),
        unsubscribed(contacts.drop_last(), theirs) == unsubscribed(contacts.drop_last(), theirs.drop_last()),
{
    lemma_classify_ignores_tail(contacts.drop_last(), theirs, theirs.drop_last(), me);
}

proof fn lemma_classify_ignores_tail(
    contacts: Seq<[u8; 32]>,
    a: Seq<Option<Vec<[u8; 32]>>>,
    b: Seq<Option<Vec<[u8; 32]>>>,
    me: [u8; 32],
)
    requires
        a.len() >= contacts.len(),
        b.len() >= contacts.len(),
        forall|i: int| 0 <= i < contacts.len() ==> a[i] == b[i],
    ensures
        subscribed_mutual(contacts, a, me) == subscribed_mutual(contacts, b, me),
        unsubscribed(contacts, a) == unsubscribed(contacts, b),
    decreases contacts.len(),
{
    if contacts.len() > 0 {
        lemma_classify_ignores_tail(contacts.drop_last(), a, b, me);
        assert(a[contacts.len() - 1] == b[contacts.len() - 1]);
    }
}

/// The items whose flag is set, in order.
pub open spec fn flagged(items: Seq<[u8; 32]>, flags: Seq<bool>) -> Seq<[u8; 32]>
    decreases items.len(),
{
    if items.len() == 0 {
        Seq::empty()
    } else if flags[items.len() - 1] {
        flagged(items.drop_last(), flags).push(items.last())
    } else {
        flagged(items.drop_last(), flags)
    }
}

/// Keep the items whose flag is set: the unsubscribed contacts whose stored
/// consent admits us, or the contacts a relayed state may go to.
pub fn keep_flagged(items: &Vec<[u8; 32]>, flags: &Vec<bool>) -> (r: Vec<[u8; 32]>)
    requires
        flags@.len() == items@.len(),
    ensures
        r@ == flagged(items@, flags@),
{
    let mut out: Vec<[u8; 32]> = Vec::new();
    let n = items.len();
    let mut i: usize = 0;
    while i < n
        invariant
            n == items@.len(),
            flags@.len() == n,
            i <= n,
            out@ == flagged(items@.take(i as int), flags@),
        decreases n - i,
    {
        let ghost t = items@.take(i + 1);
        assert(t.drop_last() =~= items@.take(i as int));
        if flags[i] {
            out.push(items[i]);
        }
        i += 1;
    }
    assert(items@.take(n as int) =~= items@);
    out
}

/// The contacts a relayed state goes to: at most the first
/// [`MAX_PRESENCE_CONTACTS`] of the contact set (as [`distinct_contacts`]
/// gives it), then those whose consent admits us.
pub fn forward_targets(contacts: &Vec<[u8; 32]>, consented: &Vec<bool>) -> (r: Vec<[u8; 32]>)
    requires
        consented@.len() == contacts@.len(),
    ensures
        r@ == flagged(
            contacts@.take(if contacts@.len() < MAX_PRESENCE_CONTACTS { contacts@.len() as int } else { MAX_PRESENCE_CONTACTS as int }),
            consented@,
        ),
{
    let n = if contacts.len() < MAX_PRESENCE_CONTACTS { contacts.len() } else { MAX_PRESENCE_CONTACTS };
    let mut head: Vec<[u8; 32]> = Vec::new();
    let mut flags: Vec<bool> = Vec::new();
    let mut i: usize = 0;
    while i < n
        invariant
            n <= contacts@.len(),
            consented@.len() == contacts@.len(),
            i <= n,
            head@ == contacts@.take(i as int),
            flags@ == consented@.take(i as int),
        decreases n - i,
    {
        head.push(contacts[i]);
        flags.push(consented[i]);
        assert(contacts@.take(i + 1) =~= contacts@.take(i as int).push(contacts@[i as int]));
        assert(consented@.take(i + 1) =~= consented@.take(i as int).push(consented@[i as int]));
        i += 1;
    }
    let r = keep_flagged(&head, &flags);
    proof {
        lemma_flagged_prefix_flags(head@, consented@.take(n as int), consented@);
    }
    r
}

proof fn lemma_flagged_prefix_flags(items: Seq<[u8; 32]>, f: Seq<bool>, g: Seq<bool>)
    requires
        f.len() >= items.len(),
        g.len() >= items.len(),
        forall|i: int| 0 <= i < items.len() ==> f[i] == g[i],
    ensures
        flagged(items, f) == flagged(items, g),
    decreases items.len(),
{
    if items.len() > 0 {
        lemma_flagged_prefix_flags(items.drop_last(), f, g);
    }
}

// ---------------------------------------------------------------------------
// States
// ---------------------------------------------------------------------------

/// What a subscriber is shown of a mutual contact: online when connected
/// here and foreground-active; else the contact's last durable state; else
/// offline at its last-seen time (zero when never seen).
pub open spec fn snapshot_state_spec(online: bool, stored: Option<PresenceState>, last_seen: Option<u64>) -> PresenceState {
    if online {
        PresenceState::Online
    } else {
        match stored {
            Some(s) => s,
            None => PresenceState::Offline {
                last_seen: match last_seen {
                    Some(t) => t,
                    None => 0,
                },
            },
        }
    }
}

/// A subscriber sees a connected, foreground contact as online whatever was
/// stored; a contact not online as its last durable state when one is kept;
/// and with none kept, as offline since its last-seen time, or since zero
/// when it was never seen.
pub proof fn law_snapshot_prefers_live_then_stored(online: bool, stored: Option<PresenceState>, last_seen: Option<u64>)
    ensures
        online ==> snapshot_state_spec(online, stored, last_seen) == PresenceState::Online,
        !online && stored is Some ==> snapshot_state_spec(online, stored, last_seen) == stored->0,
        !online && stored is None && last_seen is Some ==> snapshot_state_spec(online, stored, last_seen)
            == (PresenceState::Offline { last_seen: last_seen->0 }),
        !online && stored is None && last_seen is None ==> snapshot_state_spec(online, stored, last_seen)
            == (PresenceState::Offline { last_seen: 0 }),
{
}

pub fn snapshot_state(online: bool, stored: Option<PresenceState>, last_seen: Option<u64>) -> (s: PresenceState)
    ensures
        s == snapshot_state_spec(online, stored, last_seen),
{
    if online {
        return PresenceState::Online;
    }
    match stored {
        Some(s) => s,
        None => PresenceState::Offline {
            last_seen: match last_seen {
                Some(t) => t,
                None => 0,
            },
        },
    }
}

/// The state a subscriber announces of itself: connection alone is not
/// presence, so only a foreground-active client reads online.
pub fn announced_state(active: bool, last_seen: Option<u64>) -> (s: PresenceState)
    ensures
        active ==> s == PresenceState::Online,
        !active ==> s == (PresenceState::Offline {
            last_seen: match last_seen {
                Some(t) => t,
                None => 0,
            },
        }),
{
    if active {
        PresenceState::Online
    } else {
        PresenceState::Offline {
            last_seen: match last_seen {
                Some(t) => t,
                None => 0,
            },
        }
    }
}

/// A client backgrounds or disconnects: only one that was foreground-active
/// counts as seen now, and has its last-seen stamped (the flag returned);
/// any other keeps its real prior last-seen.
pub fn leaving_state(was_active: bool, now_ms: u64, stored_last_seen: Option<u64>) -> (r: (PresenceState, bool))
    ensures
        was_active ==> r == (PresenceState::Offline { last_seen: now_ms }, true),
        !was_active ==> r == (PresenceState::Offline {
            last_seen: match stored_last_seen {
                Some(t) => t,
                None => 0,
            },
        }, false),
{
    if was_active {
        (PresenceState::Offline { last_seen: now_ms }, true)
    } else {
        (PresenceState::Offline {
            last_seen: match stored_last_seen {
                Some(t) => t,
                None => 0,
            },
        }, false)
    }
}

/// The version a relayed state carries: one past both the previous version
/// for this user (zero if none) and the observation time, saturating.
pub open spec fn next_version_spec(prev: Option<u64>, observed_at_ms: u64) -> u64 {
    let base = match prev {
        Some(v) => if v > observed_at_ms { v } else { observed_at_ms },
        None => observed_at_ms,
    };
    if base == u64::MAX { u64::MAX } else { (base + 1) as u64 }
}

pub fn next_version(prev: Option<u64>, observed_at_ms: u64) -> (v: u64)
    ensures
        v == next_version_spec(prev, observed_at_ms),
{
    let base = match prev {
        Some(v) => if v > observed_at_ms { v } else { observed_at_ms },
        None => observed_at_ms,
    };
    base.saturating_add(1)
}

/// Versions only grow: each relayed state of a user carries a version above
/// the one before and above its own observation time, until the counter is
/// exhausted.
pub proof fn law_versions_increase(prev: Option<u64>, observed_at_ms: u64)
    ensures
        next_version_spec(prev, observed_at_ms) >= observed_at_ms,
        prev matches Some(p) ==> next_version_spec(prev, observed_at_ms) >= p,
        next_version_spec(prev, observed_at_ms) < u64::MAX ==> next_version_spec(prev, observed_at_ms) > observed_at_ms
            && (prev matches Some(p) ==> next_version_spec(prev, observed_at_ms) > p),
{
}

} // verus!
