use aleo_pool_server::accounting::{Accounting, AccountingAction, AccountingMessage, OracleReply};
use aleo_pool_server::persist::LoadError;
use aleo_pool_server::pplns::{pplns_to_provers_shares, Share, PPLNS};

fn pplns_with(n: u64, shares: Vec<(u64, &[u8])>) -> PPLNS {
    let mut p = PPLNS::empty();
    p.set_n(n);
    for (v, o) in shares {
        p.add_share(Share::init(v, o.to_vec()));
    }
    p
}

#[test]
fn add_share_keeps_the_window_bound() {
    let mut p = PPLNS::empty();
    p.set_n(10);
    p.add_share(Share::init(3, b"a".to_vec()));
    p.add_share(Share::init(5, b"b".to_vec()));
    p.add_share(Share::init(2, b"a".to_vec()));
    assert_eq!(p.current_n, 10);
    assert_eq!(p.queue.len(), 3);
    // one more drops the head until the total fits again
    p.add_share(Share::init(4, b"c".to_vec()));
    assert_eq!(p.current_n, 3 + 5 + 2 + 4 - 3 - 5);
    assert_eq!(p.queue.len(), 2);
}

#[test]
fn pplns_shrink() {
    let mut p = pplns_with(10, vec![(3, b"a"), (5, b"b"), (2, b"a")]);
    assert_eq!(p.current_n, 10);
    p.set_n(6);
    // shares fall from the head until the total fits the new window
    assert_eq!(p.current_n, 2);
    assert_eq!(p.queue.len(), 1);
    assert_eq!(p.queue[0].value, 2);
    assert_eq!(p.queue[0].owner, b"a".to_vec());
    // shrinking to the same size again changes nothing
    p.set_n(6);
    assert_eq!(p.current_n, 2);
    assert_eq!(p.queue.len(), 1);
}

#[test]
fn set_n_zero_clears() {
    let mut p = pplns_with(10, vec![(3, b"a"), (5, b"b")]);
    p.set_n(0);
    assert_eq!(p.queue.len(), 0);
    assert_eq!(p.current_n, 0);
    assert_eq!(p.n, 0);
}

#[test]
fn oversized_share_empties_the_queue() {
    let mut p = pplns_with(4, vec![(3, b"a")]);
    p.add_share(Share::init(9, b"b".to_vec()));
    assert_eq!(p.queue.len(), 0);
    assert_eq!(p.current_n, 0);
}

#[test]
fn aggregation_groups_by_owner() {
    let p = pplns_with(100, vec![(3, b"a"), (5, b"b"), (2, b"a")]);
    let (count, table) = pplns_to_provers_shares(&p);
    assert_eq!(count, 2);
    let mut a = 0u64;
    let mut b = 0u64;
    for (owner, v) in &table {
        if owner == &b"a".to_vec() {
            a = *v;
        } else if owner == &b"b".to_vec() {
            b = *v;
        } else {
            panic!("unexpected owner");
        }
    }
    assert_eq!(a, 5);
    assert_eq!(b, 5);
}

#[test]
fn save_load_round_trips() {
    let p = pplns_with(10, vec![(3, b"alpha"), (5, b"beta"), (2, b"alpha")]);
    let bytes = p.save();
    let q = PPLNS::load(Some(&bytes)).unwrap();
    assert_eq!(q.n, p.n);
    assert_eq!(q.current_n, p.current_n);
    assert_eq!(q.queue.len(), p.queue.len());
    for i in 0..q.queue.len() {
        assert_eq!(q.queue[i].value, p.queue[i].value);
        assert_eq!(q.queue[i].owner, p.queue[i].owner);
    }
}

#[test]
fn load_of_nothing_is_empty() {
    let p = PPLNS::load(None).unwrap();
    assert_eq!(p.n, 0);
    assert_eq!(p.current_n, 0);
    assert_eq!(p.queue.len(), 0);
}

#[test]
fn load_refuses_corruption() {
    let p = pplns_with(10, vec![(3, b"a")]);
    let mut bytes = p.save();
    // a flipped magic byte
    let mut bad = bytes.clone();
    bad[0] = 0x51;
    assert!(matches!(PPLNS::load(Some(&bad)), Err(LoadError::Malformed)));
    // a truncated image
    bytes.pop();
    assert!(matches!(PPLNS::load(Some(&bytes)), Err(LoadError::Malformed)));
    // trailing garbage
    let mut long = p.save();
    long.push(0);
    assert!(matches!(PPLNS::load(Some(&long)), Err(LoadError::Malformed)));
    // an inconsistent running total
    let mut wrong = p.save();
    wrong[13] = wrong[13].wrapping_add(1);
    assert!(PPLNS::load(Some(&wrong)).is_err());
}

#[test]
fn accounting_consumes_events_in_order() {
    let mut acc = Accounting::init(PPLNS::empty());
    assert!(acc.handle(AccountingMessage::SetN(10)).is_none());
    assert!(acc
        .handle(AccountingMessage::NewShare(b"a".to_vec(), 3))
        .is_none());
    assert!(acc
        .handle(AccountingMessage::NewShare(b"b".to_vec(), 5))
        .is_none());
    // the solution snapshot sees both earlier shares
    match acc.handle(AccountingMessage::NewSolution(b"sol1".to_vec())) {
        Some(AccountingAction::SaveSolution(id, count, table)) => {
            assert_eq!(id, b"sol1".to_vec());
            assert_eq!(count, 2);
            assert_eq!(table.len(), 2);
        }
        _ => panic!("expected a solution hand-off"),
    }
    assert!(!acc.wait_for_exit());
    match acc.handle(AccountingMessage::Exit) {
        Some(AccountingAction::SaveState(bytes)) => {
            let p = PPLNS::load(Some(&bytes)).unwrap();
            assert_eq!(p.n, 10);
            assert_eq!(p.current_n, 8);
        }
        _ => panic!("expected a state save"),
    }
    assert!(acc.wait_for_exit());
}

#[test]
fn current_round_caches_for_ten_seconds() {
    let mut acc = Accounting::init(PPLNS::empty());
    acc.handle(AccountingMessage::SetN(10)).map(|_| ());
    acc.handle(AccountingMessage::NewShare(b"a".to_vec(), 3))
        .map(|_| ());
    let (n, cur, provers, shares) = acc.current_round(1000);
    assert_eq!((n, cur, provers), (10, 3, 1));
    assert_eq!(shares[0], (b"a".to_vec(), 3));
    // a share landing right after is not seen through the cache window
    acc.handle(AccountingMessage::NewShare(b"b".to_vec(), 4))
        .map(|_| ());
    let (n2, cur2, provers2, _) = acc.current_round(2000);
    assert_eq!((n2, cur2), (10, 7));
    assert_eq!(provers2, 1);
    // past the window the table is rebuilt
    let (_, _, provers3, shares3) = acc.current_round(20000);
    assert_eq!(provers3, 2);
    assert_eq!(shares3.len(), 2);
}

#[test]
fn oracle_replies() {
    assert_eq!(
        aleo_pool_server::accounting::parse_oracle_reply(&b"null".to_vec()),
        Ok(OracleReply::Rejected)
    );
    assert_eq!(
        aleo_pool_server::accounting::parse_oracle_reply(
            &b"{\"height\":42,\"reward\":1000}".to_vec()
        ),
        Ok(OracleReply::Accepted(42, 1000))
    );
    assert!(aleo_pool_server::accounting::parse_oracle_reply(&b"{}".to_vec()).is_err());
    assert!(aleo_pool_server::accounting::parse_oracle_reply(&b"oops".to_vec()).is_err());
    assert!(
        aleo_pool_server::accounting::parse_oracle_reply(&b"{\"height\":1.5,\"reward\":2}".to_vec())
            .is_err()
    );
}

#[test]
fn hex_wrapper_decodes() {
    assert_eq!(
        aleo_pool_server::connection::hex_decode(&b"aabb".to_vec()),
        Some(vec![0xaau8, 0xbb])
    );
    assert_eq!(
        aleo_pool_server::connection::hex_decode(&b"AABB01".to_vec()),
        Some(vec![0xaau8, 0xbb, 0x01])
    );
    assert_eq!(aleo_pool_server::connection::hex_decode(&b"abc".to_vec()), None);
    assert_eq!(aleo_pool_server::connection::hex_decode(&b"zz".to_vec()), None);
}
