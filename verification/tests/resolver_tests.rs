use std::cmp::Ordering;

use promtuz::net::IpAddress;
use promtuz::net::SockAddr;
use promtuz::resolver::admit_registration;
use promtuz::resolver::bootstrap_counts;
use promtuz::resolver::bootstrap_peers;
use promtuz::resolver::descriptor;
use promtuz::resolver::source_group;
use promtuz::resolver::xor_distance_cmp;
use promtuz::resolver::Admission;
use promtuz::resolver::RelaySnapshot;
use promtuz::resolver::Slot;
use promtuz::resolver::HEARTBEAT_TIMEOUT_MS;
use promtuz::resolver::MAX_BOOTSTRAP_RESULTS;
use promtuz::resolver::MAX_REGISTRATIONS_PER_SOURCE;

fn id(seed: u8) -> [u8; 32] {
    let mut b = [0u8; 32];
    b[0] = seed;
    b
}

fn ip(last: u8) -> IpAddress {
    IpAddress::V4([10, 0, 0, last])
}

fn slot(seed: u8, ip: IpAddress, established: bool, last_seen: u64) -> Slot {
    Slot { id: id(seed), ip, established, last_seen }
}

const NOW: u64 = 10_000_000;

#[test]
fn admits_while_under_capacity() {
    let slots = vec![slot(1, ip(1), true, NOW)];
    assert_eq!(admit_registration(&slots, ip(2), 8, NOW), Admission::Insert);
}

#[test]
fn rejects_past_the_per_source_cap() {
    let slots: Vec<Slot> =
        (0..MAX_REGISTRATIONS_PER_SOURCE as u8).map(|i| slot(i, ip(9), false, NOW)).collect();
    assert_eq!(admit_registration(&slots, ip(9), 1024, NOW), Admission::Reject);
    assert_eq!(admit_registration(&slots, ip(8), 1024, NOW), Admission::Insert);
}

#[test]
fn per_source_cap_counts_only_the_applicant_group() {
    let mut slots: Vec<Slot> =
        (0..MAX_REGISTRATIONS_PER_SOURCE as u8).map(|i| slot(i, ip(9), false, NOW)).collect();
    slots.push(slot(100, ip(8), false, NOW));
    assert_eq!(admit_registration(&slots, ip(8), 1024, NOW), Admission::Insert);
}

#[test]
fn ipv6_addresses_share_a_quota_across_the_same_64() {
    let v6 = |host: u16| IpAddress::V6([0x2001, 0xdb8, 1, 2, 0, 0, 0, host]);
    let slots: Vec<Slot> =
        (0..MAX_REGISTRATIONS_PER_SOURCE as u8).map(|i| slot(i, v6(i as u16), false, NOW)).collect();
    assert_eq!(admit_registration(&slots, v6(999), 1024, NOW), Admission::Reject);
    let other_64 = IpAddress::V6([0x2001, 0xdb8, 1, 3, 0, 0, 0, 1]);
    assert_eq!(admit_registration(&slots, other_64, 1024, NOW), Admission::Insert);
}

#[test]
fn at_capacity_evicts_the_oldest_unestablished_slot() {
    let slots = vec![
        slot(1, ip(1), true, NOW),
        slot(2, ip(2), false, NOW - 30_000),
        slot(3, ip(3), false, NOW - 120_000),
    ];
    assert_eq!(admit_registration(&slots, ip(4), slots.len(), NOW), Admission::Evict(id(3)));
}

#[test]
fn at_capacity_never_evicts_a_live_established_slot() {
    let slots = vec![slot(1, ip(1), true, NOW), slot(2, ip(2), true, NOW)];
    assert_eq!(admit_registration(&slots, ip(3), slots.len(), NOW), Admission::Reject);
}

#[test]
fn an_established_slot_that_stopped_heartbeating_ages_out() {
    let slots = vec![slot(1, ip(1), true, NOW - HEARTBEAT_TIMEOUT_MS), slot(2, ip(2), true, NOW)];
    assert_eq!(admit_registration(&slots, ip(3), slots.len(), NOW), Admission::Evict(id(1)));
}

#[test]
fn descriptor_carries_the_observed_socket_addr() {
    let addr = SockAddr { ip: IpAddress::V4([203, 0, 113, 7]), port: 4433 };
    let d = descriptor(id(5), addr, [7u8; 32]);
    assert_eq!(d.addr, addr);
    assert_eq!(d.id, id(5));
    assert_eq!(d.pubkey, [7u8; 32]);
}

#[test]
fn ipv4_groups_as_its_mapped_ipv6_form() {
    let g = source_group(IpAddress::V4([10, 0, 0, 1]));
    assert_eq!(g, [0, 0, 0, 0, 0, 0, 0, 0, 0, 0, 0xff, 0xff, 10, 0, 0, 1]);
    let h = source_group(IpAddress::V6([0x2001, 0xdb8, 1, 2, 9, 9, 9, 9]));
    assert_eq!(h, [0x20, 0x01, 0x0d, 0xb8, 0, 1, 0, 2, 0, 0, 0, 0, 0, 0, 0, 0]);
}

#[test]
fn bootstrap_counts_reject_a_combined_request_over_the_cap() {
    assert!(bootstrap_counts(MAX_BOOTSTRAP_RESULTS, 1).is_err());
    assert!(bootstrap_counts(255, 255).is_err());
}

#[test]
fn bootstrap_counts_allow_exactly_the_cap() {
    let split = MAX_BOOTSTRAP_RESULTS / 2;
    let budget = MAX_BOOTSTRAP_RESULTS as usize;
    let counts = bootstrap_counts(split, MAX_BOOTSTRAP_RESULTS - split).ok();
    assert_eq!(counts, Some((split as usize, budget - split as usize)));
}

#[test]
fn bootstrap_counts_clamp_one_list_to_the_whole_budget() {
    let budget = MAX_BOOTSTRAP_RESULTS as usize;
    assert_eq!(bootstrap_counts(MAX_BOOTSTRAP_RESULTS, 0).ok(), Some((budget, 0)));
}

#[test]
fn xor_distance_orders_by_closeness_to_the_pivot() {
    let pivot = [0u8; 32];
    assert_eq!(xor_distance_cmp(&pivot, &id(1), &id(2)), Ordering::Less);
    assert_eq!(xor_distance_cmp(&pivot, &id(9), &id(9)), Ordering::Equal);
    assert_eq!(xor_distance_cmp(&id(3), &id(3), &id(0)), Ordering::Less);
}

#[test]
fn bootstrap_peers_rank_by_distance_and_by_recency() {
    let entry = |seed: u8, hb: u64| RelaySnapshot {
        id: id(seed),
        addr: SockAddr { ip: IpAddress::V4([10, 0, 0, seed]), port: 4433 },
        pubkey: [seed; 32],
        last_heartbeat: hb,
    };
    let entries = vec![entry(8, 100), entry(1, 300), entry(4, 200)];
    let (near, recent) = bootstrap_peers(&entries, &id(0), 2, 2).unwrap();
    assert_eq!(near.iter().map(|d| d.id[0]).collect::<Vec<_>>(), vec![1, 4]);
    assert_eq!(recent.iter().map(|d| d.id[0]).collect::<Vec<_>>(), vec![1, 4]);
    assert!(bootstrap_peers(&entries, &id(0), 60, 60).is_err());
}
