use aleo_pool_server::api::admin_round_reply;
use aleo_pool_server::connection::{
    check_protocol, ConnAction, ConnEvent, ConnState, Connection, ExtChecks,
};
use aleo_pool_server::hub::{Hub, HubAction, NonceSeen};
use aleo_pool_server::message::{MessageId, ResponseElem, ResponseParams, StratumMessage};

const MIN_V: (u64, u64, u64) = (2, 0, 0);
const MAX_V: (u64, u64, u64) = (2, 0, 0);

fn checks_ok() -> ExtChecks {
    ExtChecks { address_ok: true, commitment_ok: true, proof_ok: true }
}

fn subscribe(version: &[u8]) -> ConnEvent {
    ConnEvent::Frame(StratumMessage::Subscribe(
        MessageId::Num(1),
        b"miner/1.0".to_vec(),
        version.to_vec(),
        None,
    ))
}

fn authorize(addr: &[u8]) -> ConnEvent {
    ConnEvent::Frame(StratumMessage::Authorize(
        MessageId::Num(2),
        addr.to_vec(),
        b"pw".to_vec(),
    ))
}

fn submit(job: &[u8], nonce: &[u8]) -> ConnEvent {
    ConnEvent::Frame(StratumMessage::Submit(
        MessageId::Num(3),
        b"worker".to_vec(),
        job.to_vec(),
        nonce.to_vec(),
        b"cc".to_vec(),
        b"dd".to_vec(),
    ))
}

#[test]
fn protocol_version_gate() {
    assert!(check_protocol(&b"AleoStratum/2.0.0".to_vec(), MIN_V, MAX_V));
    assert!(!check_protocol(&b"AleoStratum/1.9.0".to_vec(), MIN_V, MAX_V));
    assert!(!check_protocol(&b"AleoStratum/2.0.1".to_vec(), MIN_V, MAX_V));
    assert!(!check_protocol(&b"OtherProto/2.0.0".to_vec(), MIN_V, MAX_V));
    assert!(!check_protocol(&b"AleoStratum/2.0.0/x".to_vec(), MIN_V, MAX_V));
    assert!(!check_protocol(&b"AleoStratum".to_vec(), MIN_V, MAX_V));
    // a pre-release of the lower bound sorts below it
    assert!(!check_protocol(&b"AleoStratum/2.0.0-rc.1".to_vec(), MIN_V, MAX_V));
    // a wider range accepts versions strictly inside it
    assert!(check_protocol(&b"AleoStratum/2.5.0".to_vec(), (2, 0, 0), (3, 0, 0)));
}

#[test]
fn subscribe_accepted_sends_pool_address() {
    let mut c = Connection::init();
    let pool = b"aleo1pool".to_vec();
    let acts = c.step(subscribe(b"AleoStratum/2.0.0"), checks_ok(), &pool, MIN_V, MAX_V, 0);
    assert_eq!(c.state, ConnState::Subscribed);
    assert_eq!(acts.len(), 1);
    match &acts[0] {
        ConnAction::Send(StratumMessage::Response(MessageId::Num(1), Some(ResponseParams::Array(a)), None)) => {
            assert!(matches!(a[0], ResponseElem::Null));
            assert!(matches!(a[1], ResponseElem::Null));
            match &a[2] {
                ResponseElem::Str(s) => assert_eq!(s, &pool),
                _ => panic!("expected the pool address"),
            }
        }
        _ => panic!("expected a response"),
    }
}

#[test]
fn subscribe_version_rejected_disconnects_once() {
    let mut c = Connection::init();
    let pool = b"aleo1pool".to_vec();
    let acts = c.step(subscribe(b"AleoStratum/1.9.0"), checks_ok(), &pool, MIN_V, MAX_V, 0);
    assert_eq!(c.state, ConnState::Closed);
    assert_eq!(acts.len(), 1);
    assert!(matches!(acts[0], ConnAction::NotifyDisconnected));
    // closed connections never speak again
    let acts = c.step(subscribe(b"AleoStratum/2.0.0"), checks_ok(), &pool, MIN_V, MAX_V, 0);
    assert!(acts.is_empty());
    let acts = c.step(ConnEvent::PeerClosed, checks_ok(), &pool, MIN_V, MAX_V, 0);
    assert!(acts.is_empty());
}

#[test]
fn authorize_registers_with_the_hub() {
    let mut c = Connection::init();
    let pool = b"aleo1pool".to_vec();
    c.step(subscribe(b"AleoStratum/2.0.0"), checks_ok(), &pool, MIN_V, MAX_V, 0);
    let acts = c.step(authorize(b"aleo1worker"), checks_ok(), &pool, MIN_V, MAX_V, 5);
    assert_eq!(c.state, ConnState::Active);
    assert_eq!(acts.len(), 2);
    assert!(matches!(
        &acts[0],
        ConnAction::Send(StratumMessage::Response(MessageId::Num(2), Some(ResponseParams::Bool(true)), None))
    ));
    let mut hub = Hub::new(16);
    assert_eq!(hub.online_provers(), 0);
    match &acts[1] {
        ConnAction::NotifyAuthenticated(addr) => hub.prover_authenticated(1, addr.clone()),
        _ => panic!("expected the hub notice"),
    }
    assert_eq!(hub.online_provers(), 1);
    assert_eq!(hub.online_addresses(), 1);
    assert_eq!(hub.address_prover_count(&b"aleo1worker".to_vec()), 1);
}

#[test]
fn authorize_bad_address_disconnects() {
    let mut c = Connection::init();
    let pool = b"aleo1pool".to_vec();
    c.step(subscribe(b"AleoStratum/2.0.0"), checks_ok(), &pool, MIN_V, MAX_V, 0);
    let mut checks = checks_ok();
    checks.address_ok = false;
    let acts = c.step(authorize(b"nonsense"), checks, &pool, MIN_V, MAX_V, 0);
    assert_eq!(c.state, ConnState::Closed);
    assert_eq!(acts.len(), 1);
    assert!(matches!(acts[0], ConnAction::NotifyDisconnected));
}

fn active_connection() -> Connection {
    let mut c = Connection::init();
    let pool = b"aleo1pool".to_vec();
    c.step(subscribe(b"AleoStratum/2.0.0"), checks_ok(), &pool, MIN_V, MAX_V, 0);
    c.step(authorize(b"aleo1worker"), checks_ok(), &pool, MIN_V, MAX_V, 0);
    c
}

#[test]
fn submit_bad_job_id_closes_without_credit() {
    let mut c = active_connection();
    let pool = b"aleo1pool".to_vec();
    // two bytes instead of four
    let acts = c.step(submit(b"aabb", b"0102030405060708"), checks_ok(), &pool, MIN_V, MAX_V, 1);
    assert_eq!(c.state, ConnState::Closed);
    assert_eq!(acts.len(), 1);
    assert!(matches!(acts[0], ConnAction::NotifyDisconnected));
}

#[test]
fn valid_submit_reads_little_endian_numbers() {
    let mut c = active_connection();
    let pool = b"aleo1pool".to_vec();
    let acts = c.step(submit(b"0a000000", b"0102030405060708"), checks_ok(), &pool, MIN_V, MAX_V, 1);
    assert_eq!(c.state, ConnState::Active);
    assert_eq!(acts.len(), 1);
    match &acts[0] {
        ConnAction::NotifySubmit(MessageId::Num(3), epoch, nonce, cb, pb) => {
            assert_eq!(*epoch, 10);
            assert_eq!(*nonce, 0x0807060504030201u64);
            assert_eq!(cb, &vec![0xccu8]);
            assert_eq!(pb, &vec![0xddu8]);
        }
        _ => panic!("expected a submit notice"),
    }
}

#[test]
fn silent_peer_times_out() {
    let mut c = active_connection();
    let pool = b"aleo1pool".to_vec();
    let job = ConnEvent::Outbound(StratumMessage::SetTarget(5));
    let acts = c.step(job, checks_ok(), &pool, MIN_V, MAX_V, 200_000);
    assert_eq!(c.state, ConnState::Closed);
    assert!(matches!(acts[0], ConnAction::NotifyDisconnected));
}

#[test]
fn nonce_window_accepts_once() {
    let mut seen = NonceSeen::new(3);
    assert!(seen.insert(7));
    assert!(!seen.insert(7));
    assert!(seen.insert(8));
    assert!(seen.insert(9));
    // the window is full; the oldest leaves
    assert!(seen.insert(10));
    assert!(seen.insert(7));
}

#[test]
fn duplicate_nonce_is_refused_by_the_hub() {
    let mut hub = Hub::new(1024);
    hub.prover_authenticated(1, b"aleo1a".to_vec());
    let _ = hub.new_job(b"job".to_vec(), b"chal".to_vec(), 5, true);
    let first = hub.prover_submit(MessageId::Num(1), 1, 5, 99, true, false, 10);
    assert_eq!(first.len(), 2);
    assert!(matches!(&first[0], HubAction::Credit(a, 10) if a == &b"aleo1a".to_vec()));
    assert!(matches!(first[1], HubAction::Reply(1, MessageId::Num(1), true)));
    // the same nonce a second time earns nothing
    let second = hub.prover_submit(MessageId::Num(2), 1, 5, 99, true, false, 10);
    assert_eq!(second.len(), 1);
    assert!(matches!(second[0], HubAction::Reply(1, MessageId::Num(2), false)));
}

#[test]
fn stale_epoch_is_refused() {
    let mut hub = Hub::new(1024);
    hub.prover_authenticated(1, b"aleo1a".to_vec());
    let _ = hub.new_job(b"job".to_vec(), b"chal".to_vec(), 5, true);
    let acts = hub.prover_submit(MessageId::Num(1), 1, 4, 99, true, false, 10);
    assert_eq!(acts.len(), 1);
    assert!(matches!(acts[0], HubAction::Reply(1, MessageId::Num(1), false)));
}

#[test]
fn chain_target_solutions_are_handed_on() {
    let mut hub = Hub::new(1024);
    hub.prover_authenticated(1, b"aleo1a".to_vec());
    let acts = hub.prover_submit(MessageId::Num(1), 1, 0, 99, true, true, 10);
    assert_eq!(acts.len(), 3);
    assert!(matches!(&acts[1], HubAction::Solution(a, 10) if a == &b"aleo1a".to_vec()));
}

#[test]
fn disconnect_is_idempotent() {
    let mut hub = Hub::new(1024);
    hub.prover_authenticated(1, b"aleo1a".to_vec());
    hub.prover_authenticated(2, b"aleo1a".to_vec());
    assert_eq!(hub.online_provers(), 2);
    assert_eq!(hub.online_addresses(), 1);
    hub.prover_disconnected(1);
    hub.prover_disconnected(1);
    assert_eq!(hub.online_provers(), 1);
    // a submit from the departed peer is ignored
    let acts = hub.prover_submit(MessageId::Num(1), 1, 0, 5, true, false, 1);
    assert!(acts.is_empty());
}

#[test]
fn jobs_fan_out_to_every_prover() {
    let mut hub = Hub::new(1024);
    hub.prover_authenticated(1, b"aleo1a".to_vec());
    hub.prover_authenticated(2, b"aleo1b".to_vec());
    let out = hub.new_job(b"0a000000".to_vec(), b"chal".to_vec(), 10, true);
    assert_eq!(out.len(), 2);
    assert_eq!(out[0].0, 1);
    assert_eq!(out[1].0, 2);
    for (_, m) in &out {
        match m {
            StratumMessage::Notify(j, e, None, true) => {
                assert_eq!(j, &b"0a000000".to_vec());
                assert_eq!(e, &b"chal".to_vec());
            }
            _ => panic!("expected a notify"),
        }
    }
}

#[test]
fn admin_round_is_loopback_only() {
    let shares = vec![(b"aleo1a".to_vec(), 5u64), (b"aleo1b".to_vec(), 7u64)];
    let (status, body) = admin_round_reply(true, 10, 12, 2, &shares);
    assert_eq!(status, 200);
    assert_eq!(
        body,
        b"{\"n\":10,\"current_n\":12,\"provers\":2,\"shares\":{\"aleo1a\":5,\"aleo1b\":7}}".to_vec()
    );
    let (status, body) = admin_round_reply(false, 10, 12, 2, &shares);
    assert_eq!(status, 405);
    assert_eq!(body, b"\"Method Not Allowed\"".to_vec());
}

#[test]
fn current_round_body_is_exact() {
    let body = aleo_pool_server::api::current_round_body(10, 7, 2);
    assert_eq!(body, b"{\"n\":10,\"current_n\":7,\"provers\":2}".to_vec());
}

#[test]
fn cache_entries_expire() {
    let mut cache: aleo_pool_server::cache::Cache<u64> = aleo_pool_server::cache::Cache::new(1000);
    cache.set(1, 42, 5000);
    assert_eq!(cache.get(1, 5500), Some(&42));
    assert_eq!(cache.get(1, 6001), None);
    assert_eq!(cache.get(2, 5500), None);
    cache.set(1, 43, 7000);
    assert_eq!(cache.get(1, 7500), Some(&43));
}
