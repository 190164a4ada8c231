use promtuz::routing::Bucket;
use promtuz::config::DhtConfig;
use promtuz::config::BUCKET_SIZE;
use promtuz::config::FORWARD_K_MIN;
use promtuz::dht_server::closest_excluding;
use promtuz::dht_server::find_value_answer;
use promtuz::dht_server::limiter_key;
use promtuz::dht_server::requester_of;
use promtuz::dht_server::self_in_top_k;
use promtuz::dht_server::FindValueAnswer;
use promtuz::dht_server::PeerConn;
use promtuz::dht_server::PeerConns;
use promtuz::dht_server::RequestKind;
use promtuz::dht_server::MAX_FIND_NODE_RESULTS;
use promtuz::fanout::self_in_k;
use promtuz::fanout::tally_forward;
use promtuz::fanout::ForwardError;
use promtuz::fanout::ForwardOutcome;
use promtuz::fanout::ForwardSummary;
use promtuz::fanout::HomeReply;
use promtuz::net::IpAddress;
use promtuz::net::SockAddr;
use promtuz::routing::xor_distance;
use promtuz::routing::NodeContact;
use promtuz::routing::RoutingTable;

fn id_for(n: u8) -> [u8; 32] {
    let mut b = [0u8; 32];
    b[0] = n;
    b
}

fn node(id_byte: u8) -> [u8; 32] {
    [id_byte; 32]
}

fn addr() -> SockAddr {
    SockAddr { ip: IpAddress::V4([127, 0, 0, 1]), port: 5000 }
}

fn contact(id: [u8; 32]) -> NodeContact {
    NodeContact { id, addr: addr(), last_seen: 1_700_000_000 }
}

#[test]
fn forward_summary_empty_has_zero_success_and_no_delivered() {
    let s = ForwardSummary::default();
    assert_eq!(s.success_count(), 0);
    assert!(!s.any_delivered());
    assert!(!s.meets_k_min());
}

#[test]
fn forward_summary_one_stored_does_not_meet_k_min() {
    let mut s = ForwardSummary::default();
    s.stored_at.push(id_for(1));
    assert_eq!(s.success_count(), 1);
    assert!(!s.any_delivered());
    assert!(!s.meets_k_min());
}

#[test]
fn forward_summary_two_stored_meets_k_min_no_delivered() {
    let mut s = ForwardSummary::default();
    s.stored_at.push(id_for(1));
    s.stored_at.push(id_for(2));
    assert_eq!(s.success_count(), 2);
    assert!(!s.any_delivered());
    assert!(s.meets_k_min());
}

#[test]
fn forward_summary_one_delivered_one_stored_meets_k_min_with_delivered() {
    let mut s = ForwardSummary::default();
    s.delivered_at.push(id_for(1));
    s.stored_at.push(id_for(2));
    assert_eq!(s.success_count(), 2);
    assert!(s.any_delivered());
    assert!(s.meets_k_min());
}

#[test]
fn forward_summary_failed_outcomes_do_not_count_toward_quorum() {
    let mut s = ForwardSummary::default();
    s.stored_at.push(id_for(1));
    s.failed_at.push(HomeReply { node_id: id_for(2), outcome: ForwardOutcome::NotOwner });
    s.failed_at.push(HomeReply { node_id: id_for(3), outcome: ForwardOutcome::QueueFull });
    assert_eq!(s.success_count(), 1);
    assert!(!s.meets_k_min());
}

#[test]
fn forward_summary_all_delivered_meets_k_min() {
    let mut s = ForwardSummary::default();
    for n in 1..=3 {
        s.delivered_at.push(id_for(n));
    }
    assert_eq!(s.success_count(), 3);
    assert!(s.any_delivered());
    assert!(s.meets_k_min());
}

#[test]
fn lone_relay_tally_is_insufficient_with_self_stored() {
    let me = id_for(9);
    match tally_forward(me, Some(ForwardOutcome::Stored), &Vec::new()) {
        Err(ForwardError::InsufficientReplicas { wanted, got, summary }) => {
            assert_eq!(wanted, FORWARD_K_MIN);
            assert_eq!(got, 1);
            assert_eq!(summary.stored_at, vec![me]);
            assert_eq!(summary.homes_tried, vec![me]);
        },
        _ => panic!("a lone relay cannot reach the quorum"),
    }
}

#[test]
fn tally_sorts_replies_by_outcome_in_order() {
    let me = id_for(9);
    let replies = vec![
        HomeReply { node_id: id_for(1), outcome: ForwardOutcome::Delivered },
        HomeReply { node_id: id_for(2), outcome: ForwardOutcome::BadSig },
        HomeReply { node_id: id_for(3), outcome: ForwardOutcome::Stored },
    ];
    let s = match tally_forward(me, Some(ForwardOutcome::QueueFull), &replies) {
        Ok(s) => s,
        Err(_) => panic!("two homes accepted"),
    };
    assert_eq!(s.homes_tried, vec![me, id_for(1), id_for(2), id_for(3)]);
    assert_eq!(s.delivered_at, vec![id_for(1)]);
    assert_eq!(s.stored_at, vec![id_for(3)]);
    assert_eq!(s.failed_at.len(), 2);
    assert_eq!(s.failed_at[0].node_id, me);
    assert_eq!(s.failed_at[1].outcome, ForwardOutcome::BadSig);
}

#[test]
fn insert_and_get_closest() {
    let local = node(0x00);
    let mut rt = RoutingTable::new(local, 4);
    for b in 1..10 {
        rt.insert(contact(node(b)));
    }
    let closest = rt.closest_nodes(node(0x02), 3);
    assert!(!closest.is_empty());
    assert!(closest.len() <= 3);
}

#[test]
fn replaces_oldest_when_full() {
    let local = node(0x00);
    let mut rt = RoutingTable::new(local, 2);
    let mut first = contact(node(1));
    first.last_seen = 1;
    let mut second = contact(node(2));
    second.last_seen = 2;
    let mut third = contact(node(3));
    third.last_seen = 3;
    rt.insert(first);
    rt.insert(second);
    rt.insert(third);
    let nodes = rt.closest_nodes(node(2), 10);
    assert!(nodes.iter().any(|c| c.id == third.id));
}

#[test]
fn an_inserted_contact_is_nearest_to_its_own_id() {
    let mut rt = RoutingTable::new(node(0x00), 2);
    for (n, seen) in [(1u8, 1u64), (2, 2), (3, 3)] {
        let mut c = contact(node(n));
        c.last_seen = seen;
        rt.insert(c);
        let nearest = rt.closest_nodes(c.id, 1);
        assert_eq!(nearest.len(), 1);
        assert_eq!(nearest[0].id, c.id);
        assert_eq!(nearest[0].addr, c.addr);
    }
}

#[test]
fn closest_nodes_come_nearest_first() {
    let mut rt = RoutingTable::new(node(0x00), BUCKET_SIZE);
    for b in [0x40u8, 0x01, 0x80, 0x03] {
        rt.insert(contact(id_for(b)));
    }
    let got: Vec<u8> = rt.closest_nodes(id_for(0x02), 4).iter().map(|c| c.id[0]).collect();
    assert_eq!(got, vec![0x03, 0x01, 0x40, 0x80]);
}

#[test]
fn xor_distance_orders_correctly() {
    let target = [0x00u8; 32];
    let a = [0x01u8; 32];
    let b = [0x02u8; 32];
    let da = xor_distance(target, a);
    let db = xor_distance(target, b);
    assert!(da < db);
}

#[test]
fn bucket_size_defaults_and_overrides() {
    let mut cfg = DhtConfig::default();
    assert!(!cfg.enabled);
    assert_eq!(cfg.bucket_size(), BUCKET_SIZE);
    cfg.bucket_size = Some(4);
    assert_eq!(cfg.bucket_size(), 4);
}

#[test]
fn self_in_k_is_strict_but_top_k_admits_a_tie() {
    let target = [0u8; 32];
    let closest = vec![id_for(1), id_for(2), id_for(3)];
    // Our distance equals the third peer's: a home by the `<=` rule only.
    assert!(!self_in_k(&closest, &id_for(3), &target));
    let contacts: Vec<NodeContact> = closest.iter().map(|i| contact(*i)).collect();
    assert!(self_in_top_k(&contacts, &id_for(3), &target));
    assert!(!self_in_top_k(&contacts, &id_for(4), &target));
    assert!(self_in_k(&vec![id_for(1)], &id_for(200), &target), "a sparse table is permissive");
}

#[test]
fn find_node_answer_excludes_the_requester() {
    let closest: Vec<NodeContact> = (1..=(MAX_FIND_NODE_RESULTS as u8 + 1)).map(|n| contact(id_for(n))).collect();
    let out = closest_excluding(&closest, &id_for(2));
    assert_eq!(out.len(), MAX_FIND_NODE_RESULTS);
    assert!(out.iter().all(|c| c.id != id_for(2)));
    assert_eq!(out[0].id, id_for(1));
    assert_eq!(out[1].id, id_for(3));
}

#[test]
fn find_value_answers_follow_ownership() {
    let target = [0u8; 32];
    let peers: Vec<NodeContact> = (1..=3).map(|n| contact(id_for(n))).collect();
    assert!(matches!(find_value_answer(true, &peers, &id_for(200), &target, &id_for(1)), FindValueAnswer::Found));
    assert!(matches!(find_value_answer(false, &peers, &id_for(1), &target, &id_for(2)), FindValueAnswer::NotPresent));
    match find_value_answer(false, &peers, &id_for(200), &target, &id_for(2)) {
        FindValueAnswer::Closer(c) => {
            let ids: Vec<u8> = c.iter().map(|c| c.id[0]).collect();
            assert_eq!(ids, vec![1, 3]);
        },
        _ => panic!("a relay outside the homes points nearer"),
    }
}

#[test]
fn rate_limit_key_prefers_requester_then_cert_then_connection() {
    assert_eq!(requester_of(RequestKind::FindNode { requester: id_for(5) }), Some(id_for(5)));
    assert_eq!(requester_of(RequestKind::Store), None);
    assert_eq!(limiter_key(Some(id_for(5)), Some([7u8; 32]), 1), id_for(5));
    assert_eq!(limiter_key(None, Some([7u8; 32]), 1), *blake3::hash(&[7u8; 32]).as_bytes());
    let mut seed = [0u8; 32];
    seed[..8].copy_from_slice(&42u64.to_le_bytes());
    assert_eq!(limiter_key(None, None, 42), *blake3::hash(&seed).as_bytes());
}

#[test]
fn peer_conns_keep_the_first_and_drop_only_the_closing_connection() {
    let mut conns = PeerConns::new();
    conns.register_if_absent(PeerConn { id: id_for(1), stable_id: 10, pubkey: [0u8; 32] });
    conns.register_if_absent(PeerConn { id: id_for(1), stable_id: 11, pubkey: [0u8; 32] });
    conns.register_if_absent(PeerConn { id: id_for(2), stable_id: 20, pubkey: [0u8; 32] });
    assert_eq!(conns.entries.len(), 2);
    assert_eq!(conns.entries[0].stable_id, 10);
    assert_eq!(conns.remove_if_same(11), None);
    assert_eq!(conns.remove_if_same(10), Some(id_for(1)));
    assert_eq!(conns.entries.len(), 1);
    assert_eq!(conns.entries[0].id, id_for(2));
}

#[test]
fn bucket_refresh_keeps_others_and_eviction_drops_only_the_oldest() {
    let mut b = Bucket::new(2);
    let mut a = contact(node(1));
    a.last_seen = 5;
    let mut c = contact(node(2));
    c.last_seen = 3;
    b.insert(a);
    b.insert(c);
    let mut a2 = a;
    a2.last_seen = 9;
    b.insert(a2);
    assert_eq!(b.nodes().len(), 2);
    assert!(b.nodes().iter().any(|x| x.id == a.id && x.last_seen == 9));
    assert!(b.nodes().iter().any(|x| x.id == c.id));
    let d = contact(node(3));
    b.insert(d);
    assert_eq!(b.nodes().len(), 2);
    assert!(b.nodes().iter().any(|x| x.id == d.id));
    assert!(b.nodes().iter().any(|x| x.id == a.id));
    assert!(!b.nodes().iter().any(|x| x.id == c.id));
}
