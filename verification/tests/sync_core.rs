//! Tests of the reconciliation core: summary algebra, diffing, the session
//! state machine, the registry and the scheduler.

use defiads::digest::AdDigest;
use defiads::digest::payload_digest;
use defiads::digest::sort_digests;
use defiads::digest::verify_item;
use defiads::engine::build_iblt;
use defiads::engine::diff;
use defiads::error::SyncError;
use defiads::iblt::Iblt;
use defiads::registry::Ad;
use defiads::registry::AddOutcome;
use defiads::registry::AdRegistry;
use defiads::sched::GossipScheduler;
use defiads::session::DiffOutcome;
use defiads::session::Message;
use defiads::session::Phase;
use defiads::session::serve_want_list;
use defiads::session::SyncSession;

fn d(x: u64) -> AdDigest {
    AdDigest { hi: x.wrapping_mul(0x9e3779b97f4a7c15), lo: x }
}

#[test]
fn insert_erase_round_trip_is_bit_exact() {
    let mut a = Iblt::new(12, 3, 7);
    let before: Vec<_> = (0..12).map(|i| a.buckets[i]).collect();
    a.insert(d(42), 42);
    a.erase(d(42), 42);
    for i in 0..12 {
        assert_eq!(a.buckets[i], before[i]);
    }
}

#[test]
fn empty_summary_decodes_to_nothing() {
    let a = Iblt::new(12, 3, 7);
    let out = a.decode().unwrap();
    assert_eq!(out.len(), 0);
}

#[test]
fn subtract_and_decode_recovers_symmetric_difference() {
    // A = {d1,d2,d3}, B = {d2,d3,d4}, M sized for a difference of 2
    let inv_a = vec![d(1), d(2), d(3)];
    let inv_b = vec![d(2), d(3), d(4)];
    let a = build_iblt(&inv_a, 12, 3, 99);
    let b = build_iblt(&inv_b, 12, 3, 99);
    let res = diff(&a, &b).unwrap();
    assert_eq!(res.only_local, vec![d(1)]);
    assert_eq!(res.only_remote, vec![d(4)]);
}

#[test]
fn diff_of_equal_inventories_is_empty() {
    let inv = vec![d(10), d(11), d(12)];
    let a = build_iblt(&inv, 8, 2, 5);
    let b = build_iblt(&inv, 8, 2, 5);
    let res = diff(&a, &b).unwrap();
    assert!(res.only_local.is_empty());
    assert!(res.only_remote.is_empty());
}

#[test]
fn undersized_summary_reports_undecodable_not_a_wrong_answer() {
    // far more differing items than buckets: decoding must fail loudly
    let inv_a: Vec<AdDigest> = (0..40).map(d).collect();
    let inv_b: Vec<AdDigest> = (100..140).map(d).collect();
    let a = build_iblt(&inv_a, 4, 2, 3);
    let b = build_iblt(&inv_b, 4, 2, 3);
    match diff(&a, &b) {
        Err(SyncError::Undecodable) => {},
        other => panic!("expected Undecodable, got {:?}", other.map(|_| ())),
    }
}

#[test]
fn incompatible_parameters_are_a_protocol_violation() {
    let a = Iblt::new(8, 2, 1);
    let b = Iblt::new(8, 2, 2);
    match diff(&a, &b) {
        Err(SyncError::ProtocolViolation) => {},
        other => panic!("expected ProtocolViolation, got {:?}", other.map(|_| ())),
    }
}

#[test]
fn two_nodes_converge_to_the_union_after_one_round() {
    let mut reg_a = AdRegistry::new(16);
    let mut reg_b = AdRegistry::new(16);
    for p in ["alpha", "beta", "gamma"] {
        reg_a.add(Ad::new(p.as_bytes().to_vec(), 1, 0, 0));
    }
    for p in ["beta", "gamma", "delta"] {
        reg_b.add(Ad::new(p.as_bytes().to_vec(), 1, 0, 0));
    }
    let snap_a = reg_a.snapshot();
    let snap_b = reg_b.snapshot();
    let ia = build_iblt(&snap_a, 16, 4, 77);
    let ib = build_iblt(&snap_b, 16, 4, 77);
    let res = diff(&ia, &ib).unwrap();
    // B fetches what only A has; A fetches what only B has.
    for msg in serve_want_list(&reg_a, &res.only_local) {
        match msg {
            Message::ItemPush { digest, payload } => {
                assert!(verify_item(digest, payload.as_slice()));
                reg_b.add(Ad::new(payload, 1, 0, 0));
            }
            _ => panic!("everything A announced must be served"),
        }
    }
    for msg in serve_want_list(&reg_b, &res.only_remote) {
        match msg {
            Message::ItemPush { digest, payload } => {
                assert!(verify_item(digest, payload.as_slice()));
                reg_a.add(Ad::new(payload, 1, 0, 0));
            }
            _ => panic!("everything B announced must be served"),
        }
    }
    let mut da = reg_a.snapshot();
    let mut db = reg_b.snapshot();
    sort_digests(&mut da);
    sort_digests(&mut db);
    assert_eq!(da, db);
    assert_eq!(da.len(), 4);
}

#[test]
fn absent_digest_elicits_item_not_found_not_failure() {
    let mut reg = AdRegistry::new(4);
    reg.add(Ad::new(b"present".to_vec(), 1, 0, 0));
    let missing = d(999);
    let present = payload_digest(b"present");
    let replies = serve_want_list(&reg, &vec![present, missing]);
    assert_eq!(replies.len(), 2);
    match &replies[0] {
        Message::ItemPush { digest, payload } => {
            assert_eq!(*digest, present);
            assert_eq!(payload.as_slice(), b"present");
        }
        _ => panic!("known digest must be pushed"),
    }
    match &replies[1] {
        Message::ItemNotFound { digest } => assert_eq!(*digest, missing),
        _ => panic!("unknown digest must give ItemNotFound"),
    }
}

#[test]
fn elapsed_deadline_fails_session_then_cooldown_makes_it_retryable() {
    let mut s = SyncSession::new(8, 2, 1, 100, 50, 3);
    assert_eq!(s.phase, Phase::Idle);
    let _ = s.start(1000, &vec![]);
    assert_eq!(s.phase, Phase::FilterSent);
    assert!(!s.on_tick(1099));
    assert_eq!(s.phase, Phase::FilterSent);
    assert!(s.on_tick(1100));
    assert_eq!(s.phase, Phase::Failed);
    assert!(!s.retryable(1149));
    assert!(s.retryable(1150));
    s.reset(1150);
    assert_eq!(s.phase, Phase::Idle);
}

#[test]
fn undecodable_diff_retries_with_doubled_buckets_then_fails() {
    let mut s = SyncSession::new(8, 2, 1, 100, 50, 1);
    let _ = s.start(0, &vec![]);
    s.on_summary();
    s.on_undecodable(10);
    assert_eq!(s.phase, Phase::FilterSent);
    assert_eq!(s.m, 16);
    s.on_summary();
    s.on_undecodable(20);
    assert_eq!(s.phase, Phase::Failed);
}

#[test]
fn adding_at_capacity_evicts_the_lowest_weight_ad() {
    let mut reg = AdRegistry::new(3);
    let heavy = Ad::new(b"heavy".to_vec(), 50, 0, 0);
    let light = Ad::new(b"light".to_vec(), 1, 0, 0);
    let middle = Ad::new(b"middle".to_vec(), 10, 0, 0);
    let light_digest = light.digest;
    reg.add(heavy);
    reg.add(light);
    reg.add(middle);
    assert_eq!(reg.len(), 3);
    let incoming = Ad::new(b"incoming".to_vec(), 20, 0, 0);
    let incoming_digest = incoming.digest;
    match reg.add(incoming) {
        AddOutcome::Evicted(gone) => assert_eq!(gone, light_digest),
        _ => panic!("capacity must evict"),
    }
    assert_eq!(reg.len(), 3);
    assert!(reg.contains(incoming_digest));
    assert!(!reg.contains(light_digest));
}

#[test]
fn expired_ads_are_swept_out_by_height() {
    let mut reg = AdRegistry::new(8);
    let early = Ad::new(b"early".to_vec(), 1, 100, 0);
    let late = Ad::new(b"late".to_vec(), 1, 200, 0);
    let early_digest = early.digest;
    let late_digest = late.digest;
    reg.add(early);
    reg.add(late);
    reg.remove_expired(150);
    assert!(!reg.contains(early_digest));
    assert!(reg.contains(late_digest));
    assert_eq!(reg.len(), 1);
}

#[test]
fn remote_summary_drives_the_diff() {
    let mut s = SyncSession::new(16, 4, 77, 100, 50, 3);
    let inv_a = vec![d(1), d(2), d(3)];
    let inv_b = vec![d(2), d(3), d(4)];
    let _ = s.start(0, &inv_a);
    s.on_summary();
    let remote = build_iblt(&inv_b, 16, 4, 77);
    match s.on_remote_summary(5, &inv_a, &remote) {
        DiffOutcome::Computed => {}
        other => panic!("diff should succeed, got {:?}", other),
    }
    assert_eq!(s.phase, Phase::DiffComputed);
    assert_eq!(s.want, vec![d(4)]);
    assert_eq!(s.have, vec![d(1)]);
}

#[test]
fn foreign_summary_parameters_abort_the_round() {
    let mut s = SyncSession::new(16, 4, 77, 100, 50, 3);
    let inv = vec![d(1)];
    let _ = s.start(0, &inv);
    s.on_summary();
    let foreign = build_iblt(&inv, 8, 2, 5);
    assert_eq!(s.on_remote_summary(5, &inv, &foreign), DiffOutcome::Aborted);
    assert_eq!(s.phase, Phase::Failed);
}

#[test]
fn protocol_violation_aborts_the_round() {
    let mut s = SyncSession::new(8, 2, 1, 100, 50, 3);
    let _ = s.start(0, &vec![]);
    match s.on_protocol_violation(5) {
        Message::SessionAbort { reason } => assert_eq!(reason, SyncError::ProtocolViolation),
        _ => panic!("a violation must abort the round"),
    }
    assert_eq!(s.phase, Phase::Failed);
}

#[test]
fn duplicate_add_is_a_no_op() {
    let mut reg = AdRegistry::new(2);
    reg.add(Ad::new(b"one".to_vec(), 1, 0, 0));
    match reg.add(Ad::new(b"one".to_vec(), 1, 0, 0)) {
        AddOutcome::Duplicate => {}
        _ => panic!("re-adding a digest must be a no-op"),
    }
    assert_eq!(reg.len(), 1);
}

#[test]
fn tampered_payload_fails_verification() {
    let digest = payload_digest(b"genuine content");
    assert!(verify_item(digest, b"genuine content"));
    assert!(!verify_item(digest, b"tampered content"));
}

#[test]
fn scheduler_selects_only_eligible_peers_and_respects_the_cap() {
    let mut sched = GossipScheduler::new(1, 100);
    sched.register(7, 0);
    sched.register(8, 0);
    let first = sched.select(0, 12345).unwrap();
    assert!(first == 7 || first == 8);
    // the cap of one concurrent session blocks a second pick
    assert!(sched.select(0, 999).is_none());
    sched.note_settled(first, 10);
    // pacing: the settled peer waits out its interval, the other can go
    let second = sched.select(10, 3).unwrap();
    assert!(second != first);
    sched.note_failed(second, 20);
    assert!(sched.select(20, 0).is_none());
    assert!(sched.select(120, 0).is_some());
}

#[test]
fn settled_session_walks_the_whole_happy_path() {
    let mut s = SyncSession::new(8, 2, 9, 100, 50, 3);
    match s.start(0, &vec![d(1), d(2)]) {
        Message::FilterAnnounce { m, k, seed, inventory_size, .. } => {
            assert_eq!((m, k, seed, inventory_size), (8, 2, 9, 2));
        }
        _ => panic!("starting must announce the local summary"),
    }
    s.on_summary();
    assert_eq!(s.phase, Phase::FilterReceived);
    s.on_diff_computed(vec![d(4)], vec![d(1)]);
    assert_eq!(s.phase, Phase::DiffComputed);
    match s.send_want() {
        Message::WantList { digests } => assert_eq!(digests, vec![d(4)]),
        _ => panic!("requesting must send the want-list"),
    }
    assert_eq!(s.phase, Phase::Requesting);
    s.on_items_done(30);
    assert_eq!(s.phase, Phase::Settled);
    assert!(!s.retryable(79));
    assert!(s.retryable(80));
    s.reset(80);
    assert_eq!(s.phase, Phase::Idle);
}

#[test]
fn unregistered_peer_is_never_selected() {
    let mut sched = GossipScheduler::new(4, 10);
    sched.register(1, 0);
    sched.unregister(1);
    assert!(sched.select(100, 0).is_none());
}

#[test]
fn sorting_digests_orders_ascending() {
    // the order is by high word first, then low word
    let flat = |x: u64| AdDigest { hi: 0, lo: x };
    let mut v = vec![flat(5), d(2), flat(1), flat(9), flat(1), flat(3)];
    sort_digests(&mut v);
    assert_eq!(v, vec![flat(1), flat(1), flat(3), flat(5), flat(9), d(2)]);
}
