use promtuz::dht_client::KpBatchTooLarge;
use promtuz::dht_client::KpBatch;
use promtuz::dht_client::kp_batch_gate;
use promtuz::net::log_form;
use promtuz::push::gateway_outcome;
use promtuz::push::gateway_order;
use promtuz::cert::build_certificate_der;
use promtuz::cert::build_tbs_certificate;
use promtuz::cert::extract_ed25519_pubkey_from_cert;
use promtuz::dht_client::kp_stash_key;
use promtuz::dht_client::pubkey_pin;
use promtuz::dht_client::stash_prefix;
use promtuz::dht_client::welcome_routing_key;
use promtuz::dht_client::FindNodeCache;
use promtuz::dht_client::NodeDescriptor;
use promtuz::dht_client::WelcomeGather;
use promtuz::dht_client::DHT_POOL_MAX;
use promtuz::dht_client::FINDNODE_CACHE_TTL_MS;
use promtuz::dial::client_handshake_step;
use promtuz::dial::connect_failure;
use promtuz::dial::ClientHandshake;
use promtuz::dial::ClientHandshakeAction;
use promtuz::dial::RelayHandshakePacket;
use promtuz::dht_client::kp_fetch_outcome;
use promtuz::dht_client::KpFetchError;
use promtuz::dht_client::KpFetchReply;
use promtuz::dial::handshake_rejected;
use promtuz::dial::quinn_err;
use promtuz::dial::DialerError;
use promtuz::dial::RelayConnError;
use promtuz::dial::SeedDialer;
use promtuz::fanout::publish_attempts;
use promtuz::fanout::publish_homes_sufficient;
use promtuz::fanout::QuorumNotMet;
use promtuz::fanout::QuorumTally;
use promtuz::fanout::K_MIN;
use promtuz::net::IpAddress;
use promtuz::net::SockAddr;
use promtuz::push::Registration;
use promtuz::push::INITIAL_BACKOFF_MS;
use promtuz::push::MAX_BACKOFF_MS;
use promtuz::push::REFRESH_INTERVAL_MS;
use promtuz::util::node_short;

fn desc(n: u8) -> NodeDescriptor {
    NodeDescriptor { id: [n; 32], addr: SockAddr { ip: IpAddress::V4([10, 0, 0, n]), port: 1 }, pubkey: [0; 32] }
}

#[test]
fn find_k_closest_caches_within_ttl() {
    let mut cache = FindNodeCache::new();
    cache.store([1; 32], vec![desc(1), desc(2)], 1_000);
    assert_eq!(cache.lookup(&[1; 32], 1_000 + FINDNODE_CACHE_TTL_MS), Some(vec![desc(1), desc(2)]));
    assert_eq!(cache.lookup(&[1; 32], 1_001 + FINDNODE_CACHE_TTL_MS), None);
    assert_eq!(cache.lookup(&[2; 32], 1_000), None);
    cache.clear();
    assert_eq!(cache.lookup(&[1; 32], 1_000), None);
}

#[test]
fn find_node_cache_stays_bounded_and_keeps_the_newest() {
    let mut cache = FindNodeCache::new();
    for k in 0..(DHT_POOL_MAX as u8 + 4) {
        cache.store([k; 32], vec![desc(k)], 10 + k as u64);
    }
    assert!(cache.entries.len() <= DHT_POOL_MAX);
    let last = DHT_POOL_MAX as u8 + 3;
    assert_eq!(cache.lookup(&[last; 32], 10 + last as u64), Some(vec![desc(last)]));
    assert_eq!(cache.lookup(&[0; 32], 10), None, "the oldest answer made room");
}

#[test]
fn routing_keys_and_pins() {
    assert_eq!(pubkey_pin([0; 32]), None);
    assert_eq!(pubkey_pin([3; 32]), Some([3; 32]));
    let mut pre = b"kp:".to_vec();
    pre.extend_from_slice(&[5; 32]);
    assert_eq!(kp_stash_key(&[5; 32]), *blake3::hash(&pre).as_bytes());
    assert_eq!(stash_prefix(b"kp:", &[5; 32]), kp_stash_key(&[5; 32]));
    assert_eq!(welcome_routing_key(&[6; 32]), [6; 32]);
}

#[test]
fn welcomes_from_several_homes_are_kept_once() {
    let mut g = WelcomeGather::new();
    g.home_failed("first home down".to_string());
    assert_eq!(g.outcome(), Err("first home down".to_string()));
    g.home_answered();
    assert!(g.keep_first([1; 8]));
    assert!(g.keep_first([2; 8]));
    assert!(!g.keep_first([1; 8]));
    assert_eq!(g.seen, vec![[1; 8], [2; 8]]);
    assert_eq!(g.outcome(), Ok(()));
    assert_eq!(WelcomeGather::new().outcome(), Ok(()));
}

#[test]
fn publish_quorum_needs_k_min_homes() {
    assert_eq!(publish_homes_sufficient(1), Err(QuorumNotMet { succeeded: 0, wanted: K_MIN }));
    assert!(publish_homes_sufficient(K_MIN).is_ok());
    assert_eq!(publish_attempts(5), 3);
    assert_eq!(publish_attempts(2), 2);
    let mut t = QuorumTally::new();
    assert!(!t.record(true));
    assert!(!t.record(false));
    assert_eq!(t.finish(), Err(QuorumNotMet { succeeded: 1, wanted: K_MIN }));
    assert!(t.record(true));
    assert!(t.finish().is_ok());
}

#[test]
fn registration_refreshes_after_success_and_backs_off_after_failure() {
    let mut r = Registration::new();
    assert_eq!(r.start_attempt(), 0);
    r.finish_attempt(false);
    assert_eq!(r.wait_ms, INITIAL_BACKOFF_MS);
    r.finish_attempt(false);
    r.finish_attempt(false);
    r.finish_attempt(false);
    r.finish_attempt(false);
    assert_eq!(r.backoff_ms, MAX_BACKOFF_MS);
    r.finish_attempt(true);
    assert_eq!(r.wait_ms, REFRESH_INTERVAL_MS);
    assert_eq!(r.start_attempt(), REFRESH_INTERVAL_MS);
    r.request_registration();
    r.request_registration();
    assert_eq!(r.start_attempt(), 0, "an asked-for refresh cuts the wait short");
    assert!(!r.refresh_pending);
}

#[test]
fn dial_errors_report_the_last_failure() {
    assert_eq!(quinn_err("endpoint stopping".into()), DialerError::Quinn("endpoint stopping".into()));
    assert_eq!(SeedDialer::new().exhausted(), DialerError::Error("no resolver seed succeeded".into()));
    let mut d = SeedDialer::new();
    d.record_failure("seed one".into());
    d.record_failure("seed two".into());
    assert_eq!(d.exhausted(), DialerError::Error("seed two".into()));
    assert_eq!(connect_failure(true, "timed out".into()), RelayConnError::Continue);
    assert_eq!(connect_failure(false, "refused".into()), RelayConnError::Error("refused".into()));
    assert_eq!(handshake_rejected(), RelayConnError::Continue);
}

#[test]
fn dialer_errors_name_their_kind_and_keep_the_cause() {
    let q = quinn_err("endpoint stopping".into());
    assert_eq!(q.message(), "quinn failure: endpoint stopping");
    assert_eq!(q.cause(), "endpoint stopping");
    let e = SeedDialer::new().exhausted();
    assert_eq!(e.message(), "failed to connect: no resolver seed succeeded");
    assert_eq!(e.cause(), "no resolver seed succeeded");
}

#[test]
fn node_short_takes_eight_bytes_when_it_can() {
    assert_eq!(node_short("abcdefghijklmnop"), "abcdefgh");
    assert_eq!(node_short("abc"), "abc");
    assert_eq!(node_short("aaaaaaaé"), "aaaaaaaé", "a cut inside a character keeps the whole id");
}

#[test]
fn certificate_round_trips_its_key() {
    let pk = [0x42u8; 32];
    let tbs = build_tbs_certificate(&pk);
    let der = build_certificate_der(&tbs, &[1u8; 64]);
    assert_eq!(extract_ed25519_pubkey_from_cert(&der), Some(pk));
    assert_eq!(extract_ed25519_pubkey_from_cert(&[0u8; 10]), None);
}

#[test]
fn client_handshake_signs_the_challenge_then_takes_the_verdict() {
    let nonce = [5u8; 32];
    let r = client_handshake_step(ClientHandshake::AwaitChallenge, RelayHandshakePacket::Challenge { nonce });
    match r {
        Ok((ClientHandshake::AwaitResult, ClientHandshakeAction::SendProof { message })) => {
            assert_eq!(message, promtuz::handshake::client_auth_message(&nonce));
        },
        _ => panic!("expected a proof to send"),
    }
    let r = client_handshake_step(ClientHandshake::AwaitResult, RelayHandshakePacket::Accept { timestamp: 1_700 });
    assert!(matches!(r, Ok((ClientHandshake::Connected, ClientHandshakeAction::Connected { timestamp: 1_700 }))));
    let r = client_handshake_step(ClientHandshake::AwaitResult, RelayHandshakePacket::Reject);
    assert!(matches!(r, Err(RelayConnError::Continue)));
    let r = client_handshake_step(ClientHandshake::AwaitChallenge, RelayHandshakePacket::Reject);
    match r {
        Err(RelayConnError::Error(m)) => assert_eq!(m, "Handshake Packet Order Mismatch"),
        _ => panic!("expected an order mismatch"),
    }
}

#[test]
fn key_package_fetch_takes_the_first_found_or_the_last_transport_error() {
    let r = kp_fetch_outcome(&vec![
        KpFetchReply::Transport("dial a".to_string()),
        KpFetchReply::NoStash,
        KpFetchReply::Found,
        KpFetchReply::Unexpected("late".to_string()),
    ]);
    assert_eq!(r, Ok(2));
    let r = kp_fetch_outcome(&vec![
        KpFetchReply::Transport("dial a".to_string()),
        KpFetchReply::RateLimited,
        KpFetchReply::Transport("dial c".to_string()),
    ]);
    assert_eq!(r, Err(KpFetchError::Transport("dial c".to_string())));
    let r = kp_fetch_outcome(&vec![KpFetchReply::NotOwner, KpFetchReply::NoStash]);
    assert_eq!(r, Err(KpFetchError::NoStash));
    assert_eq!(kp_fetch_outcome(&vec![]), Err(KpFetchError::NoStash));
    let r = kp_fetch_outcome(&vec![KpFetchReply::Unexpected("pong".to_string()), KpFetchReply::Found]);
    assert_eq!(r, Err(KpFetchError::Protocol("pong".to_string())));
}

#[test]
fn gateways_are_tried_by_ascending_id_up_to_the_cap() {
    let ids = vec![[9u8; 32], [3u8; 32], [7u8; 32], [3u8; 32], [1u8; 32]];
    assert_eq!(gateway_order(&ids, 3), vec![4, 1, 3]);
    assert_eq!(gateway_order(&ids, 10), vec![4, 1, 3, 2, 0]);
    assert_eq!(gateway_order(&ids, 0), Vec::<usize>::new());
}

#[test]
fn gateway_registration_stops_at_the_first_success() {
    assert_eq!(gateway_outcome(&vec![Err("a".to_string()), Ok(()), Err("c".to_string())]), Ok(1));
    assert_eq!(gateway_outcome(&vec![Err("a".to_string()), Err("b".to_string())]), Err(Some("b".to_string())));
    assert_eq!(gateway_outcome(&vec![]), Err(None));
}

#[test]
fn log_form_unwraps_mapped_ipv4_and_drops_the_default_port() {
    let mapped = SockAddr { ip: IpAddress::V6([0, 0, 0, 0, 0, 0xffff, 0x0102, 0x0304]), port: 4433 };
    assert_eq!(log_form(mapped, 4433), (IpAddress::V4([1, 2, 3, 4]), None));
    assert_eq!(log_form(mapped, 80), (IpAddress::V4([1, 2, 3, 4]), Some(4433)));
    let v6 = SockAddr { ip: IpAddress::V6([0x2001, 0xdb8, 0, 0, 0, 0xffff, 1, 2]), port: 9 };
    assert_eq!(log_form(v6, 4433), (v6.ip, Some(9)));
}

#[test]
fn find_node_cache_drops_expired_answers_before_live_ones() {
    let mut cache = FindNodeCache::new();
    for k in 1..=16u8 {
        let at = if k <= 4 { 1_000 } else { 20_000 + k as u64 };
        cache.store([k; 32], vec![desc(k)], at);
    }
    cache.store([17; 32], vec![desc(17)], 40_000);
    assert_eq!(cache.entries.len(), 13);
    for k in 1..=4u8 {
        assert!(cache.entries.iter().all(|e| e.key != [k; 32]), "expired answer kept");
    }
    for k in 5..=17u8 {
        assert!(cache.entries.iter().any(|e| e.key == [k; 32]), "live answer dropped");
    }
    assert_eq!(cache.entries.last().unwrap().key, [17; 32]);
}

#[test]
fn find_node_cache_drops_the_oldest_live_answer_when_none_expired() {
    let mut cache = FindNodeCache::new();
    for k in 1..=16u8 {
        cache.store([k; 32], vec![desc(k)], 10_000 + (17 - k) as u64);
    }
    // key 16 is now the oldest answer
    cache.store([17; 32], vec![desc(17)], 10_020);
    assert_eq!(cache.entries.len(), 16);
    assert!(cache.entries.iter().all(|e| e.key != [16; 32]));
    assert!(cache.entries.iter().any(|e| e.key == [1; 32]));
}

#[test]
fn key_package_batches_are_gated_by_size() {
    assert_eq!(kp_batch_gate(0, 10), Ok(KpBatch::Empty));
    assert_eq!(kp_batch_gate(10, 10), Ok(KpBatch::Send));
    assert_eq!(kp_batch_gate(11, 10), Err(KpBatchTooLarge { size: 11, target: 10 }));
}

#[test]
fn a_requested_registration_starts_at_once_and_only_once() {
    let mut r = Registration::new();
    r.start_attempt();
    r.finish_attempt(true);
    r.request_registration();
    r.request_registration();
    assert_eq!(r.start_attempt(), 0);
    r.finish_attempt(true);
    assert_eq!(r.start_attempt(), REFRESH_INTERVAL_MS);
    // asked during an attempt: the next one still starts at once
    r.request_registration();
    r.finish_attempt(false);
    assert_eq!(r.start_attempt(), 0);
}
