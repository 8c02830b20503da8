use fair_order::coordinator::Coordinator;
use fair_order::batch_maker::BatchMaker;
use fair_order::codec::{batch_records, parse_batch_records, round_from_bytes, round_to_bytes};
use fair_order::dag::Dag;
use fair_order::debug_timer::DebugTimer;
use fair_order::global_order_processor::{global_order_digest, GlobalOrderProcessor};
use fair_order::missing_edges::MissingEdgeManager;
use fair_order::access::AccessKind;
use fair_order::small_bank::{transaction_access, SmallBank};

fn tx(op: u8, fields: &[u32]) -> Vec<u8> {
    let mut t = vec![1u8, op];
    for f in fields {
        t.extend_from_slice(&f.to_be_bytes());
    }
    t
}

#[test]
fn round_trailer_is_little_endian() {
    let b = round_to_bytes(0x0102030405060708);
    assert_eq!(b, vec![8, 7, 6, 5, 4, 3, 2, 1]);
    assert_eq!(round_from_bytes(&b), Some(0x0102030405060708));
    assert_eq!(round_from_bytes(&vec![1, 2, 3]), None);
}

#[test]
fn batch_records_round_trip() {
    let d = Dag { nodes: vec![0, 1, 2], edges: vec![(0, 1), (1, 2), (0, 2)] };
    let records = batch_records(&d, 7);
    assert_eq!(records.len(), 4);
    assert_eq!(records[0], vec![3, 0, 0, 0, 0, 0, 0, 0, 0, 0, 1, 0, 2, 0]);
    assert_eq!(records[3], vec![7, 0, 0, 0, 0, 0, 0, 0]);
    let (back, round) = parse_batch_records(&records).unwrap();
    assert_eq!(round, 7);
    assert_eq!(back.nodes, vec![0, 1, 2]);
    let mut e = back.edges.clone();
    e.sort();
    assert_eq!(e, vec![(0, 1), (0, 2), (1, 2)]);
}

#[test]
fn malformed_batch_records_are_rejected() {
    assert!(parse_batch_records(&vec![]).is_none());
    assert!(parse_batch_records(&vec![vec![1, 2, 3]]).is_none());
    // An edge to an id that heads no record.
    let bad = vec![vec![2, 0, 0, 0, 0, 0, 0, 0, 0, 0, 9, 0], vec![1, 0, 0, 0, 0, 0, 0, 0]];
    assert!(parse_batch_records(&bad).is_none());
    // A record that does not decode.
    let short = vec![vec![5, 0, 0], vec![1, 0, 0, 0, 0, 0, 0, 0]];
    assert!(parse_batch_records(&short).is_none());
}

#[test]
fn batch_maker_seals_local_dag() {
    let mut maker = BatchMaker::new(1000);
    maker.update_round(4);
    assert!(maker.add_transaction(tx(1, &[5, 10])).is_none());
    assert!(maker.add_transaction(tx(1, &[5, 20])).is_none());
    assert!(maker.add_transaction(tx(6, &[7])).is_none());
    let records = maker.on_timer().unwrap();
    assert!(maker.current_batch.is_empty());
    let (d, round) = parse_batch_records(&records).unwrap();
    assert_eq!(round, 4);
    assert_eq!(d.nodes, vec![0, 1, 2]);
    assert_eq!(d.edges, vec![(0, 1)]);
    assert!(maker.on_timer().is_none());
}

#[test]
fn batch_maker_seals_on_size() {
    let mut maker = BatchMaker::new(20);
    assert!(maker.add_transaction(tx(6, &[1, 0])).is_none());
    let records = maker.add_transaction(tx(6, &[1, 0])).unwrap();
    let (d, round) = parse_batch_records(&records).unwrap();
    assert_eq!(round, 1);
    assert_eq!(d.nodes, vec![0, 1]);
    assert!(d.edges.is_empty());
    assert_eq!(maker.current_batch_size, 0);
}

#[test]
fn conflict_oracle_reads_users() {
    let a = transaction_access(&tx(3, &[4, 9, 100]));
    assert_eq!(a.kind, AccessKind::Write);
    assert_eq!(a.keys, vec![4, 9]);
    let r = transaction_access(&tx(6, &[8]));
    assert_eq!(r.kind, AccessKind::Read);
    assert_eq!(r.keys, vec![8]);
    let split = transaction_access(&tx(4, &[1, 2, 3, 10, 4, 5, 6, 5]));
    assert_eq!(split.keys, vec![3, 4, 6]);
    assert!(transaction_access(&vec![1]).keys.is_empty());
}

#[test]
fn small_bank_accounts() {
    let mut bank = SmallBank::new(3);
    assert_eq!(bank.get_checking_amount(2), 1000);
    bank.deposit_checking(1, 500);
    assert_eq!(bank.get_checking_amount(1), 1500);
    bank.withdraw_checking(1, 2000);
    assert_eq!(bank.get_checking_amount(1), 1500);
    bank.withdraw_saving(0, 300);
    assert_eq!(bank.get_saving_amount(0), 700);
    bank.deposit_saving(0, u32::MAX - 700);
    assert_eq!(bank.get_saving_amount(0), 700);
    bank.deposit_saving(0, 5);
    assert_eq!(bank.get_saving_amount(0), 705);
}

#[test]
fn small_bank_executes_transactions() {
    let mut bank = SmallBank::new(4);
    assert!(bank.execute_transaction(&tx(3, &[0, 1, 250])));
    assert_eq!(bank.get_checking_amount(0), 750);
    assert_eq!(bank.get_checking_amount(1), 1250);
    assert!(bank.execute_transaction(&tx(5, &[2])));
    assert_eq!(bank.get_checking_amount(2), 2000);
    assert_eq!(bank.get_saving_amount(2), 0);
    assert!(bank.execute_transaction(&tx(4, &[1, 2, 3, 30, 0, 15, 1, 15])));
    assert_eq!(bank.get_checking_amount(3), 970);
    assert_eq!(bank.get_checking_amount(0), 765);
    assert_eq!(bank.get_checking_amount(1), 1265);
    // Unknown user and a short transaction change nothing.
    assert!(!bank.execute_transaction(&tx(1, &[9, 10])));
    assert!(!bank.execute_transaction(&vec![1, 0, 0]));
    assert!(bank.execute_transaction(&tx(6, &[3])));
    assert_eq!(bank.get_checking_amount(3), 970);
}

#[test]
fn global_order_processor_records_peer_pairs() {
    let order = vec![1u8, 2, 3, 4];
    let mut m = MissingEdgeManager::new(3);
    let d = GlobalOrderProcessor::process(&order, &vec![(1, 2)], true, &mut m);
    assert!(!m.is_missing_edge(1, 2));
    assert_eq!(d.len(), 32);
    let d2 = GlobalOrderProcessor::process(&order, &vec![(1, 2)], false, &mut m);
    assert_eq!(d, d2);
    assert!(m.is_missing_edge(2, 1));
    assert_eq!(m.get_count(1, 2), Some(1));
    assert_eq!(m.get_count(2, 1), Some(0));
}

#[test]
fn digest_is_sha512_prefix() {
    let d = global_order_digest(&vec![]);
    assert_eq!(d.len(), 32);
    assert_eq!(&d[..4], &[0xcf, 0x83, 0xe1, 0x35]);
    assert_ne!(global_order_digest(&vec![1]), d);
}

#[test]
fn debug_timer_runs() {
    let t = DebugTimer::start();
    assert!(t.elapsed() < 60_000);
}

#[test]
fn coordinator_routes_and_locks_users() {
    let mut c = Coordinator::new(4);
    let t = tx(1, &[10, 5]);
    assert_eq!(c.extract_user_id(&t), Some(10));
    assert_eq!(c.get_shard_id(10), 2);
    assert!(c.acquire_locks(&t));
    assert!(!c.acquire_locks(&tx(3, &[10, 2, 1])));
    assert!(c.acquire_locks(&tx(1, &[11, 5])));
    c.release_locks(&t);
    assert!(c.acquire_locks(&t));
    assert_eq!(c.extract_user_id(&vec![1, 2, 3]), None);
    assert!(!c.acquire_locks(&vec![1, 2, 3]));
}

#[test]
fn batch_maker_seals_at_most_transactions_a_batch_holds() {
    let mut maker = BatchMaker::new(usize::MAX);
    for _ in 0..65535 {
        assert!(maker.add_transaction(vec![1]).is_none());
    }
    let records = maker.add_transaction(vec![1]).expect("sealed at the id limit");
    assert_eq!(records.len(), 65537);
    assert_eq!(records[65535], vec![1, 0, 0, 0, 0, 0, 0, 0, 0xff, 0xff]);
    assert!(maker.current_batch.is_empty());
}
