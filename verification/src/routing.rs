//! Kademlia routing table: XOR distance, k-buckets keyed by the number of
//! leading zero bits of the distance to the local id, and closest-node queries.

use vstd::prelude::*;
use vstd::std_specs::bits::u8_leading_zeros;

use crate::bytes::lex_lt;
use crate::bytes::lex_lt32;
use crate::bytes::xor32;
use crate::bytes::xor_seq;
use crate::bytes::eq32;
use crate::net::SockAddr;

verus! {

broadcast use vstd::std_specs::bits::axiom_u8_leading_zeros;

/// Number of k-buckets: the bit length of a 32-byte node id.
pub const NUM_BUCKETS: usize = 256;

/// A known peer: its id, where it was reached, and when it was last seen.
#[derive(Clone, Copy, Debug, PartialEq, Eq)]
pub struct NodeContact {
    pub id: [u8; 32],
    pub addr: SockAddr,
    pub last_seen: u64,
}

/// XOR distance between two node ids (big-endian byte array).
pub fn xor_distance(a: [u8; 32], b: [u8; 32]) -> (d: [u8; 32])
    ensures
        d@ == xor_seq(a@, b@),
{
    xor32(&a, &b)
}

/// Same as [`xor_distance`].
pub fn closest_distance(a: [u8; 32], b: [u8; 32]) -> (d: [u8; 32])
    ensures
        d@ == xor_seq(a@, b@),
{
    xor_distance(a, b)
}

/// Number of leading zero bits of a big-endian byte string.
pub open spec fn leading_zero_bits_spec(s: Seq<u8>) -> nat
    decreases s.len(),
{
    if s.len() == 0 {
        0
    } else if s[0] == 0 {
        8 + leading_zero_bits_spec(s.drop_first())
    } else {
        u8_leading_zeros(s[0]) as nat
    }
}

pub proof fn lemma_leading_zero_bits_bound(s: Seq<u8>)
    ensures
        leading_zero_bits_spec(s) <= 8 * s.len(),
    decreases s.len(),
{
    if s.len() > 0 {
        lemma_leading_zero_bits_bound(s.drop_first());
    }
}

fn leading_zero_bits(xor: &[u8; 32]) -> (n: usize)
    ensures
        n == leading_zero_bits_spec(xor@),
{
    let mut idx: usize = 0;
    let mut i: usize = 0;
    assert(xor@.skip(0) =~= xor@);
    while i < 32
        invariant
            i <= 32,
            idx == 8 * i,
            xor@.len() == 32,
            leading_zero_bits_spec(xor@) == idx + leading_zero_bits_spec(xor@.skip(i as int)),
        decreases 32 - i,
    {
        assert(xor@.skip(i as int).drop_first() =~= xor@.skip(i + 1));
        let byte = xor[i];
        if byte == 0 {
            idx += 8;
            i += 1;
            continue;
        }
        idx += byte.leading_zeros() as usize;
        return idx;
    }
    idx
}

/// The bucket a contact with id `id` belongs to in a table owned by `local`.
pub open spec fn bucket_index_spec(local: Seq<u8>, id: Seq<u8>) -> int {
    let lz = leading_zero_bits_spec(xor_seq(local, id));
    if lz < NUM_BUCKETS - 1 {
        lz as int
    } else {
        NUM_BUCKETS - 1
    }
}

/// Index of the first entry with the smallest `last_seen`.
pub open spec fn oldest_index(s: Seq<NodeContact>) -> int
    decreases s.len(),
{
    if s.len() <= 1 {
        0
    } else {
        let m = oldest_index(s.drop_last());
        if s.last().last_seen < s[m].last_seen {
            s.len() - 1
        } else {
            m
        }
    }
}

pub proof fn lemma_oldest_index_bounds(s: Seq<NodeContact>)
    requires
        s.len() > 0,
    ensures
        0 <= oldest_index(s) < s.len(),
        forall|j: int| 0 <= j < s.len() ==> s[oldest_index(s)].last_seen <= #[trigger] s[j].last_seen,
        forall|j: int| 0 <= j < oldest_index(s) ==> s[oldest_index(s)].last_seen < #[trigger] s[j].last_seen,
    decreases s.len(),
{
    if s.len() > 1 {
        let t = s.drop_last();
        lemma_oldest_index_bounds(t);
        assert forall|j: int| 0 <= j < t.len() implies t[j] == s[j] by {}
    }
}

pub open spec fn has_id(s: Seq<NodeContact>, id: [u8; 32]) -> bool {
    exists|i: int| 0 <= i < s.len() && s[i].id == id
}

pub open spec fn ids_unique(s: Seq<NodeContact>) -> bool {
    forall|i: int, j: int| 0 <= i < s.len() && 0 <= j < s.len() && i != j ==> s[i].id != s[j].id
}

/// What inserting `c` does to a bucket's entries: an entry with the same id is
/// replaced in place; otherwise `c` is appended while there is room; otherwise
/// it replaces the least recently seen entry.
pub open spec fn bucket_insert_spec(s: Seq<NodeContact>, max: nat, c: NodeContact) -> Seq<NodeContact> {
    if has_id(s, c.id) {
        s.update(choose|i: int| 0 <= i < s.len() && s[i].id == c.id, c)
    } else if s.len() < max {
        s.push(c)
    } else if s.len() > 0 {
        s.update(oldest_index(s), c)
    } else {
        s
    }
}

/// Inserting into a bucket with room for at least one contact always leaves
/// that contact in it and the bucket within its capacity; every other
/// contact stays, except that a full bucket with no entry for the contact's
/// id drops exactly its least recently seen entry.
pub proof fn law_bucket_insert(s: Seq<NodeContact>, max: nat, c: NodeContact)
    requires
        ids_unique(s),
        s.len() <= max,
        max > 0,
    ensures
        bucket_insert_spec(s, max, c).contains(c),
        bucket_insert_spec(s, max, c).len() <= max,
        forall|d: NodeContact|
            #![trigger s.contains(d)]
            s.contains(d) && d.id != c.id && !(s.len() == max && !has_id(s, c.id) && d == s[oldest_index(s)])
                ==> bucket_insert_spec(s, max, c).contains(d),
{
    let r = bucket_insert_spec(s, max, c);
    if has_id(s, c.id) {
        let k = choose|i: int| 0 <= i < s.len() && s[i].id == c.id;
        assert(r[k] == c);
        assert forall|d: NodeContact| #![trigger s.contains(d)] s.contains(d) && d.id != c.id implies r.contains(d) by {
            let j = choose|j: int| 0 <= j < s.len() && s[j] == d;
            assert(j != k);
            assert(r[j] == d);
        }
    } else if s.len() < max {
        assert(r[s.len() as int] == c);
        assert forall|d: NodeContact| #![trigger s.contains(d)] s.contains(d) implies r.contains(d) by {
            let j = choose|j: int| 0 <= j < s.len() && s[j] == d;
            assert(r[j] == d);
        }
    } else {
        lemma_oldest_index_bounds(s);
        let o = oldest_index(s);
        assert(r[o] == c);
        assert forall|d: NodeContact| #![trigger s.contains(d)] s.contains(d) && d != s[o] implies r.contains(d) by {
            let j = choose|j: int| 0 <= j < s.len() && s[j] == d;
            assert(j != o);
            assert(r[j] == d);
        }
    }
}

/// A k-bucket: at most `max` contacts with distinct ids.
#[derive(Debug)]
pub struct Bucket {
    pub entries: Vec<NodeContact>,
    pub max: usize,
}

impl Bucket {
    pub open spec fn wf(&self) -> bool {
        &&& self.entries@.len() <= self.max
        &&& ids_unique(self.entries@)
    }

    pub fn new(max: usize) -> (b: Bucket)
        ensures
            b.wf(),
            b.max == max,
            b.entries@.len() == 0,
    {
        Bucket { entries: Vec::new(), max }
    }

    fn find_id(&self, id: &[u8; 32]) -> (r: Option<usize>)
        ensures
            match r {
                Some(i) => i < self.entries@.len() && self.entries@[i as int].id == *id,
                None => !has_id(self.entries@, *id),
            },
    {
        let n = self.entries.len();
        let mut i: usize = 0;
        while i < n
            invariant
                n == self.entries@.len(),
                i <= n,
                forall|j: int| 0 <= j < i ==> self.entries@[j].id != *id,
            decreases n - i,
        {
            if eq32(&self.entries[i].id, id) {
                return Some(i);
            }
            i += 1;
        }
        None
    }

    fn oldest(&self) -> (r: usize)
        requires
            self.entries@.len() > 0,
        ensures
            r == oldest_index(self.entries@),
    {
        let n = self.entries.len();
        let mut best: usize = 0;
        let mut k: usize = 1;
        assert(self.entries@.take(1).len() == 1);
        while k < n
            invariant
                n == self.entries@.len(),
                1 <= k <= n,
                best < k,
                best as int == oldest_index(self.entries@.take(k as int)),
            decreases n - k,
        {
            let ghost s = self.entries@.take(k + 1);
            assert(s.drop_last() =~= self.entries@.take(k as int));
            assert(s.last() == self.entries@[k as int]);
            assert(s[best as int] == self.entries@[best as int]);
            if self.entries[k].last_seen < self.entries[best].last_seen {
                best = k;
            }
            k += 1;
        }
        assert(self.entries@.take(n as int) =~= self.entries@);
        best
    }

    /// Insert or refresh `contact`.
    pub fn insert(&mut self, contact: NodeContact)
        requires
            old(self).wf(),
        ensures
            final(self).wf(),
            final(self).max == old(self).max,
            final(self).entries@ == bucket_insert_spec(old(self).entries@, old(self).max as nat, contact),
    {
        let ghost s = self.entries@;
        match self.find_id(&contact.id) {
            Some(i) => {
                self.entries.set(i, contact);
                proof {
                    let k = choose|k: int| 0 <= k < s.len() && s[k].id == contact.id;
                    assert(k == i as int);
                    assert(ids_unique(self.entries@));
                }
                return;
            },
            None => {},
        }
        if self.entries.len() < self.max {
            self.entries.push(contact);
            proof {
                assert forall|i: int, j: int|
                    0 <= i < self.entries@.len() && 0 <= j < self.entries@.len() && i != j
                    implies self.entries@[i].id != self.entries@[j].id by {
                    if i == s.len() as int {
                        assert(self.entries@[j] == s[j]);
                    } else if j == s.len() as int {
                        assert(self.entries@[i] == s[i]);
                    }
                }
            }
        } else if self.entries.len() > 0 {
            let oi = self.oldest();
            proof {
                lemma_oldest_index_bounds(s);
            }
            self.entries.set(oi, contact);
            proof {
                assert forall|i: int, j: int|
                    0 <= i < self.entries@.len() && 0 <= j < self.entries@.len() && i != j
                    implies self.entries@[i].id != self.entries@[j].id by {
                    if i == oi as int {
                        assert(self.entries@[j] == s[j]);
                    } else if j == oi as int {
                        assert(self.entries@[i] == s[i]);
                    }
                }
            }
        }
    }

    /// The bucket's contacts, in insertion order.
    pub fn nodes(&self) -> (r: &Vec<NodeContact>)
        ensures
            r@ == self.entries@,
    {
        &self.entries
    }
}

/// All contacts of a sequence of buckets, bucket by bucket.
pub open spec fn contacts_of(bs: Seq<Bucket>) -> Seq<NodeContact>
    decreases bs.len(),
{
    if bs.len() == 0 {
        Seq::empty()
    } else {
        contacts_of(bs.drop_last()) + bs.last().entries@
    }
}

/// XOR distance of a contact to `target`.
pub open spec fn dist(target: [u8; 32], c: NodeContact) -> Seq<u8> {
    xor_seq(target@, c.id@)
}

/// `s` is strictly increasing in distance to `target`.
pub open spec fn sorted_by_distance(s: Seq<NodeContact>, target: [u8; 32]) -> bool {
    forall|i: int, j: int| 0 <= i < j < s.len() ==> lex_lt(dist(target, s[i]), dist(target, s[j]))
}

/// A routing table for the node `local_id`.
#[derive(Debug)]
pub struct RoutingTable {
    pub local_id: [u8; 32],
    pub buckets: Vec<Bucket>,
}

impl RoutingTable {
    /// Every bucket is well formed and holds only contacts whose distance to
    /// the local id falls in its class.
    pub open spec fn wf(&self) -> bool {
        &&& self.buckets@.len() == NUM_BUCKETS
        &&& forall|b: int| 0 <= b < NUM_BUCKETS ==> (#[trigger] self.buckets@[b]).wf()
        &&& forall|b: int, i: int|
            0 <= b < NUM_BUCKETS && 0 <= i < self.buckets@[b].entries@.len()
                ==> bucket_index_spec(self.local_id@, (#[trigger] self.buckets@[b].entries@[i]).id@) == b
    }

    /// The contacts the table holds, bucket by bucket.
    pub open spec fn contacts(&self) -> Seq<NodeContact> {
        contacts_of(self.buckets@)
    }

    /// An empty table with [`NUM_BUCKETS`] buckets of capacity `bucket_size`.
    pub fn new(local_id: [u8; 32], bucket_size: usize) -> (t: RoutingTable)
        ensures
            t.wf(),
            t.local_id == local_id,
            forall|b: int| 0 <= b < NUM_BUCKETS ==> (#[trigger] t.buckets@[b]).max == bucket_size
                && t.buckets@[b].entries@.len() == 0,
    {
        let mut buckets: Vec<Bucket> = Vec::new();
        let mut b: usize = 0;
        while b < NUM_BUCKETS
            invariant
                b <= NUM_BUCKETS,
                buckets@.len() == b,
                forall|k: int| 0 <= k < b ==> (#[trigger] buckets@[k]).wf()
                    && buckets@[k].max == bucket_size && buckets@[k].entries@.len() == 0,
            decreases NUM_BUCKETS - b,
        {
            buckets.push(Bucket::new(bucket_size));
            b += 1;
        }
        RoutingTable { local_id, buckets }
    }

    /// The bucket `id` belongs to: the leading-zero-bit count of its distance
    /// to the local id, capped at the last bucket.
    pub fn bucket_index(&self, id: [u8; 32]) -> (i: usize)
        requires
            self.buckets@.len() == NUM_BUCKETS,
        ensures
            i as int == bucket_index_spec(self.local_id@, id@),
            i < NUM_BUCKETS,
    {
        if eq32(&id, &self.local_id) {
            let ghost z = xor_seq(self.local_id@, id@);
            proof {
                assert forall|i: int| 0 <= i < z.len() implies z[i] == 0 by {
                    let x = self.local_id@[i];
                    assert(id@[i] == x);
                    assert(x ^ x == 0) by (bit_vector);
                }
                lemma_all_zero_leading_bits(z);
            }
            return self.buckets.len() - 1;
        }
        let xor = xor_distance(self.local_id, id);
        let lz = leading_zero_bits(&xor);
        if lz < self.buckets.len() - 1 {
            lz
        } else {
            self.buckets.len() - 1
        }
    }

    /// Insert or refresh `contact` in its bucket.
    pub fn insert(&mut self, contact: NodeContact)
        requires
            old(self).wf(),
        ensures
            final(self).wf(),
            final(self).local_id == old(self).local_id,
            ({
                let b = bucket_index_spec(old(self).local_id@, contact.id@);
                &&& final(self).buckets@ == old(self).buckets@.update(
                    b,
                    Bucket {
                        entries: final(self).buckets@[b].entries,
                        max: old(self).buckets@[b].max,
                    },
                )
                &&& final(self).buckets@[b].entries@ == bucket_insert_spec(
                    old(self).buckets@[b].entries@,
                    old(self).buckets@[b].max as nat,
                    contact,
                )
                &&& old(self).buckets@[b].max > 0 ==> final(self).contacts().contains(contact)
            }),
    {
        let idx = self.bucket_index(contact.id);
        let ghost old_buckets = self.buckets@;
        self.buckets[idx].insert(contact);
        proof {
            let nb = self.buckets@;
            assert forall|b: int, i: int|
                0 <= b < NUM_BUCKETS && 0 <= i < nb[b].entries@.len()
                implies bucket_index_spec(self.local_id@, (#[trigger] nb[b].entries@[i]).id@) == b by {
                if b != idx as int {
                    assert(nb[b] == old_buckets[b]);
                } else {
                    let s = old_buckets[b].entries@;
                    let e = nb[b].entries@;
                    if e[i] != contact {
                        if has_id(s, contact.id) {
                            let k = choose|k: int| 0 <= k < s.len() && s[k].id == contact.id;
                            assert(i != k);
                            assert(e[i] == s[i]);
                        } else if s.len() < old_buckets[b].max {
                            assert(i < s.len());
                            assert(e[i] == s[i]);
                        } else {
                            if s.len() > 0 {
                                lemma_oldest_index_bounds(s);
                            }
                            assert(e[i] == s[i]);
                        }
                        assert(old_buckets[b].entries@[i] == e[i]);
                    }
                }
            }
            assert(self.buckets@ =~= old_buckets.update(
                idx as int,
                Bucket { entries: self.buckets@[idx as int].entries, max: old_buckets[idx as int].max },
            ));
            if old_buckets[idx as int].max > 0 {
                law_bucket_insert(old_buckets[idx as int].entries@, old_buckets[idx as int].max as nat, contact);
                let e = self.buckets@[idx as int].entries@;
                let k = choose|k: int| 0 <= k < e.len() && e[k] == contact;
                lemma_contacts_of_contains(self.buckets@, idx as int, k);
            }
        }
    }

    /// Every contact, bucket by bucket.
    fn all_contacts(&self) -> (nodes: Vec<NodeContact>)
        ensures
            nodes@ == self.contacts(),
    {
        let mut nodes: Vec<NodeContact> = Vec::new();
        let nb = self.buckets.len();
        let mut b: usize = 0;
        assert(self.buckets@.take(0) =~= Seq::<Bucket>::empty());
        while b < nb
            invariant
                nb == self.buckets@.len(),
                b <= nb,
                nodes@ == contacts_of(self.buckets@.take(b as int)),
            decreases nb - b,
        {
            let entries = self.buckets[b].nodes();
            let ne = entries.len();
            let ghost start = nodes@;
            let mut i: usize = 0;
            while i < ne
                invariant
                    ne == entries@.len(),
                    i <= ne,
                    nodes@ == start + entries@.take(i as int),
                decreases ne - i,
            {
                nodes.push(entries[i]);
                assert(entries@.take(i + 1) =~= entries@.take(i as int).push(entries@[i as int]));
                i += 1;
            }
            assert(entries@.take(ne as int) =~= entries@);
            assert(self.buckets@.take(b + 1).drop_last() =~= self.buckets@.take(b as int));
            b += 1;
        }
        assert(self.buckets@.take(nb as int) =~= self.buckets@);
        nodes
    }

    /// Up to `count` contacts, nearest to `target` first.
    pub fn closest_nodes(&self, target: [u8; 32], count: usize) -> (r: Vec<NodeContact>)
        requires
            self.wf(),
        ensures
            r@.len() == if count < self.contacts().len() { count as int } else { self.contacts().len() as int },
            sorted_by_distance(r@, target),
            forall|c: NodeContact| #[trigger] r@.contains(c) ==> self.contacts().contains(c),
            forall|c: NodeContact, d: NodeContact|
                self.contacts().contains(c) && !r@.contains(c) && #[trigger] r@.contains(d)
                    ==> lex_lt(dist(target, d), #[trigger] dist(target, c)),
            forall|c: NodeContact|
                #![trigger self.contacts().contains(c)]
                self.contacts().contains(c) && c.id == target && count >= 1 ==> r@[0] == c,
    {
        let nodes = self.all_contacts();
        proof {
            self.lemma_contacts_ids_unique();
        }
        let mut out = sort_by_distance(&nodes, target);
        let ghost full = out@;
        out.truncate(count);
        proof {
            assert(forall|c: NodeContact| #[trigger] full.contains(c) <==> nodes@.contains(c));
            assert(forall|i: int| 0 <= i < out@.len() ==> out@[i] == #[trigger] full[i]);
            assert forall|c: NodeContact, d: NodeContact|
                self.contacts().contains(c) && !out@.contains(c) && #[trigger] out@.contains(d)
                    implies lex_lt(dist(target, d), #[trigger] dist(target, c)) by {
                assert(full.contains(c));
                let j = choose|j: int| 0 <= j < full.len() && full[j] == c;
                let i = choose|i: int| 0 <= i < out@.len() && out@[i] == d;
                assert(full[i] == d);
                if j < out@.len() {
                    assert(out@[j] == c);
                }
            }
            assert forall|c: NodeContact| #[trigger] out@.contains(c) implies self.contacts().contains(c) by {
                let i = choose|i: int| 0 <= i < out@.len() && out@[i] == c;
                assert(full[i] == c);
                assert(full.contains(c));
                assert(nodes@.contains(c));
            }
            assert forall|c: NodeContact|
                #![trigger self.contacts().contains(c)]
                self.contacts().contains(c) && c.id == target && count >= 1 implies out@[0] == c by {
                law_nearest_to_own_id(self.contacts(), target, count as int, out@, c);
            }
        }
        out
    }

    /// The addresses of every contact, bucket by bucket.
    pub fn addrs(&self) -> (r: Vec<SockAddr>)
        ensures
            r@.len() == self.contacts().len(),
            forall|i: int| 0 <= i < r@.len() ==> r@[i] == #[trigger] self.contacts()[i].addr,
    {
        let nodes = self.all_contacts();
        let mut r: Vec<SockAddr> = Vec::new();
        let n = nodes.len();
        let mut i: usize = 0;
        while i < n
            invariant
                n == nodes@.len(),
                i <= n,
                r@.len() == i,
                forall|k: int| 0 <= k < i ==> r@[k] == nodes@[k].addr,
            decreases n - i,
        {
            r.push(nodes[i].addr);
            i += 1;
        }
        r
    }

    /// In a well-formed table no two contacts share an id.
    pub proof fn lemma_contacts_ids_unique(&self)
        requires
            self.wf(),
        ensures
            ids_unique(self.contacts()),
    {
        lemma_prefix_ids_unique(self.local_id@, self.buckets@, NUM_BUCKETS as int);
        assert(self.buckets@.take(NUM_BUCKETS as int) =~= self.buckets@);
    }
}

/// Nothing is nearer to `target` than a contact whose id is `target`: among
/// contacts ordered by distance with no nearer contact left out, such a
/// contact comes first.
pub proof fn law_nearest_to_own_id(
    contacts: Seq<NodeContact>,
    target: [u8; 32],
    count: int,
    r: Seq<NodeContact>,
    c: NodeContact,
)
    requires
        r.len() == if count < contacts.len() { count } else { contacts.len() as int },
        sorted_by_distance(r, target),
        forall|d: NodeContact, e: NodeContact|
            contacts.contains(d) && !r.contains(d) && #[trigger] r.contains(e)
                ==> lex_lt(dist(target, e), #[trigger] dist(target, d)),
        contacts.contains(c),
        c.id == target,
        count >= 1,
    ensures
        r[0] == c,
{
    assert(r.len() >= 1);
    let z = dist(target, c);
    assert forall|i: int| 0 <= i < z.len() implies z[i] == 0 by {
        let x = target@[i];
        assert(x ^ x == 0) by (bit_vector);
    }
    if r[0] != c {
        lemma_nothing_below_zero(dist(target, r[0]), z);
        assert(r.contains(r[0]));
        if r.contains(c) {
            let j = choose|j: int| 0 <= j < r.len() && r[j] == c;
            assert(j != 0);
            assert(lex_lt(dist(target, r[0]), dist(target, r[j])));
        } else {
            assert(lex_lt(dist(target, r[0]), dist(target, c)));
        }
    }
}

/// No byte string of the same length is below all zeros.
proof fn lemma_nothing_below_zero(a: Seq<u8>, z: Seq<u8>)
    requires
        a.len() == z.len(),
        forall|i: int| 0 <= i < z.len() ==> z[i] == 0,
    ensures
        !lex_lt(a, z),
    decreases a.len(),
{
    if a.len() > 0 && a[0] == 0 {
        lemma_nothing_below_zero(a.drop_first(), z.drop_first());
    }
}

/// Every entry of every bucket is among the table's contacts.
proof fn lemma_contacts_of_contains(bs: Seq<Bucket>, b: int, i: int)
    requires
        0 <= b < bs.len(),
        0 <= i < bs[b].entries@.len(),
    ensures
        contacts_of(bs).contains(bs[b].entries@[i]),
    decreases bs.len(),
{
    let prev = contacts_of(bs.drop_last());
    if b == bs.len() - 1 {
        assert(contacts_of(bs)[prev.len() + i] == bs[b].entries@[i]);
    } else {
        lemma_contacts_of_contains(bs.drop_last(), b, i);
        assert(bs.drop_last()[b] == bs[b]);
        let k = choose|k: int| 0 <= k < prev.len() && prev[k] == bs[b].entries@[i];
        assert(contacts_of(bs)[k] == prev[k]);
    }
}

proof fn lemma_all_zero_leading_bits(z: Seq<u8>)
    requires
        forall|i: int| 0 <= i < z.len() ==> z[i] == 0,
    ensures
        leading_zero_bits_spec(z) == 8 * z.len(),
    decreases z.len(),
{
    if z.len() > 0 {
        lemma_all_zero_leading_bits(z.drop_first());
    }
}

proof fn lemma_contacts_of_index(bs: Seq<Bucket>, k: int)
    requires
        0 <= k < contacts_of(bs).len(),
    ensures
        exists|b: int, i: int| 0 <= b < bs.len() && 0 <= i < bs[b].entries@.len()
            && contacts_of(bs)[k] == bs[b].entries@[i],
    decreases bs.len(),
{
    let prev = contacts_of(bs.drop_last());
    if k < prev.len() {
        lemma_contacts_of_index(bs.drop_last(), k);
        let (b, i) = choose|b: int, i: int| 0 <= b < bs.drop_last().len() && 0 <= i < bs.drop_last()[b].entries@.len()
            && prev[k] == bs.drop_last()[b].entries@[i];
        assert(bs[b] == bs.drop_last()[b]);
    } else {
        let i = k - prev.len();
        assert(contacts_of(bs)[k] == bs[bs.len() - 1].entries@[i]);
    }
}

proof fn lemma_prefix_ids_unique(local: Seq<u8>, bs: Seq<Bucket>, n: int)
    requires
        0 <= n <= bs.len(),
        forall|b: int| 0 <= b < bs.len() ==> (#[trigger] bs[b]).wf(),
        forall|b: int, i: int|
            0 <= b < bs.len() && 0 <= i < bs[b].entries@.len()
                ==> bucket_index_spec(local, (#[trigger] bs[b].entries@[i]).id@) == b,
    ensures
        ids_unique(contacts_of(bs.take(n))),
        forall|k: int| 0 <= k < contacts_of(bs.take(n)).len()
            ==> bucket_index_spec(local, (#[trigger] contacts_of(bs.take(n))[k]).id@) < n,
    decreases n,
{
    let t = bs.take(n);
    if n > 0 {
        lemma_prefix_ids_unique(local, bs, n - 1);
        assert(t.drop_last() =~= bs.take(n - 1));
        let prev = contacts_of(bs.take(n - 1));
        let last = bs[n - 1].entries@;
        let all = contacts_of(t);
        assert(all == prev + last);
        assert forall|k: int| 0 <= k < all.len()
            implies bucket_index_spec(local, (#[trigger] all[k]).id@) < n by {
            if k >= prev.len() {
                assert(all[k] == last[k - prev.len()]);
            } else {
                assert(all[k] == prev[k]);
            }
        }
        assert forall|i: int, j: int| 0 <= i < all.len() && 0 <= j < all.len() && i != j
            implies all[i].id != all[j].id by {
            if i < prev.len() && j < prev.len() {
                assert(all[i] == prev[i] && all[j] == prev[j]);
            } else if i >= prev.len() && j >= prev.len() {
                assert(all[i] == last[i - prev.len()] && all[j] == last[j - prev.len()]);
            } else if i < prev.len() {
                assert(all[i] == prev[i] && all[j] == last[j - prev.len()]);
                assert(bucket_index_spec(local, last[j - prev.len()].id@) == n - 1);
                assert(bucket_index_spec(local, prev[i].id@) < n - 1);
            } else {
                assert(all[j] == prev[j] && all[i] == last[i - prev.len()]);
                assert(bucket_index_spec(local, last[i - prev.len()].id@) == n - 1);
                assert(bucket_index_spec(local, prev[j].id@) < n - 1);
            }
        }
    } else {
        assert(t =~= Seq::<Bucket>::empty());
    }
}

/// `nodes` arranged nearest to `target` first (ids must be distinct).
fn sort_by_distance(nodes: &Vec<NodeContact>, target: [u8; 32]) -> (out: Vec<NodeContact>)
    requires
        ids_unique(nodes@),
    ensures
        out@.len() == nodes@.len(),
        sorted_by_distance(out@, target),
        forall|c: NodeContact| #[trigger] out@.contains(c) <==> nodes@.contains(c),
{
    let mut out: Vec<NodeContact> = Vec::new();
    let n = nodes.len();
    let mut k: usize = 0;
    while k < n
        invariant
            n == nodes@.len(),
            k <= n,
            ids_unique(nodes@),
            out@.len() == k,
            sorted_by_distance(out@, target),
            forall|c: NodeContact| #[trigger] out@.contains(c) <==> nodes@.take(k as int).contains(c),
        decreases n - k,
    {
        let x = nodes[k];
        let dx = xor_distance(target, x.id);
        // first position whose distance exceeds x's
        let mut p: usize = 0;
        while p < out.len()
            invariant
                n == nodes@.len(),
                k < n,
                x == nodes@[k as int],
                ids_unique(nodes@),
                forall|c: NodeContact| #[trigger] out@.contains(c) <==> nodes@.take(k as int).contains(c),
                p <= out@.len(),
                out@.len() == k,
                dx@ == dist(target, x),
                forall|j: int| 0 <= j < p ==> lex_lt(dist(target, out@[j]), dist(target, x)),
            ensures
                p <= out@.len(),
                forall|j: int| 0 <= j < p ==> lex_lt(dist(target, out@[j]), dist(target, x)),
                p < out@.len() ==> lex_lt(dist(target, x), dist(target, out@[p as int])),
            decreases out@.len() - p,
        {
            let dp = xor_distance(target, out[p].id);
            if lex_lt32(&dx, &dp) {
                break;
            }
            proof {
                let c = out@[p as int];
                assert(out@.contains(c));
                assert(nodes@.take(k as int).contains(c));
                let q = choose|q: int| 0 <= q < k && #[trigger] nodes@.take(k as int)[q] == c;
                assert(nodes@.take(k as int)[q] == nodes@[q]);
                assert(nodes@[q] == c);
                assert(c.id != x.id);
                if dist(target, c) == dist(target, x) {
                    crate::bytes::lemma_xor_injective(target@, c.id@, x.id@);
                    assert(c.id =~= x.id);
                }
                crate::bytes::lemma_lex_total(dist(target, c), dist(target, x));
            }
            p += 1;
        }
        let ghost before = out@;
        out.insert(p, x);
        proof {
            let s = out@;
            assert(s == before.insert(p as int, x));
            assert forall|i: int, j: int| 0 <= i < j < s.len()
                implies lex_lt(dist(target, s[i]), dist(target, s[j])) by {
                if j < p {
                    assert(s[i] == before[i] && s[j] == before[j]);
                } else if j == p {
                    assert(s[i] == before[i]);
                } else if i == p {
                    assert(s[j] == before[j - 1]);
                    if j - 1 > p {
                        crate::bytes::lemma_lex_transitive(
                            dist(target, x), dist(target, before[p as int]), dist(target, before[j - 1]));
                    }
                } else if i < p {
                    assert(s[i] == before[i] && s[j] == before[j - 1]);
                } else {
                    assert(s[i] == before[i - 1] && s[j] == before[j - 1]);
                }
            }
            assert(nodes@.take(k + 1) =~= nodes@.take(k as int).push(x));
            assert forall|c: NodeContact| #[trigger] s.contains(c) <==> nodes@.take(k + 1).contains(c) by {
                if s.contains(c) {
                    let i = choose|i: int| 0 <= i < s.len() && s[i] == c;
                    if i < p {
                        assert(before[i] == c);
                        assert(before.contains(c));
                    } else if i > p {
                        assert(before[i - 1] == c);
                        assert(before.contains(c));
                    }
                    assert(nodes@.take(k + 1).contains(c) || c == x);
                    if c == x {
                        assert(nodes@.take(k + 1)[k as int] == x);
                    } else {
                        assert(nodes@.take(k as int).contains(c));
                        let q = choose|q: int| 0 <= q < k && nodes@.take(k as int)[q] == c;
                        assert(nodes@.take(k + 1)[q] == c);
                    }
                }
                if nodes@.take(k + 1).contains(c) {
                    let q = choose|q: int| 0 <= q < k + 1 && #[trigger] nodes@.take(k + 1)[q] == c;
                    if q == k {
                        assert(s[p as int] == x);
                    } else {
                        assert(nodes@.take(k as int)[q] == c);
                        assert(before.contains(c));
                        let i = choose|i: int| 0 <= i < before.len() && before[i] == c;
                        if i < p {
                            assert(s[i] == c);
                        } else {
                            assert(s[i + 1] == c);
                        }
                    }
                }
            }
        }
        k += 1;
    }
    assert(nodes@.take(n as int) =~= nodes@);
    out
}

} // verus!
