use aion::indexstorage::{TimewarpData, TimewarpIssuingState};
use aion::signing::{generate_key_and_address, validate_tw_signature};
use aion::strmap::StrMap;
use aion::timewarpissuing::{IssuerAction, TimewarpIssuer};

const SEED: &str = "IHDEENZYITYVYSPKAURUZAQKGVJEREFDJMYTANNXXGPZ9GJWTEOJJ9IPMXOGZNQLSNMFDSQOTZAEETUEA";

fn state_with(unconfirmed: &[(&str, i64)]) -> TimewarpIssuingState {
    let mut ts = StrMap::new();
    for (h, t) in unconfirmed {
        ts.insert(h.to_string(), *t);
    }
    TimewarpIssuingState {
        seed: SEED.to_string(),
        original_tx: "ORIGINALTXHASH".to_string(),
        unconfirmed_txs: unconfirmed.iter().map(|(h, _)| h.to_string()).collect(),
        tx_timestamp: ts,
        latest_confimed_tx: "C0".to_string(),
        latest_timestamp: 500,
        latest_confimed_timestamp: 400,
        latest_index: "99999".to_string(),
        latest_private_key: vec![],
    }
}

fn issuer(st: TimewarpIssuingState) -> TimewarpIssuer {
    TimewarpIssuer::new(Some(st), "http://node".to_string(), 60)
}

#[test]
fn new_issuer_defaults() {
    let i = TimewarpIssuer::new(None, "n".to_string(), 30);
    assert_eq!(i.state.seed.len(), 81);
    assert_eq!(i.state.latest_index, "99999");
    assert_eq!(i.state.original_tx, "999999999");
    assert_eq!(i.state.latest_timestamp, -1);
    assert_eq!(i.state.latest_confimed_timestamp, -1);
    assert_eq!(i.timeout_in_seconds, 30);
    assert_eq!(i.milestone_interval_in_seconds, 120);
    assert_eq!(i.max_queue_size, 20);
    assert_eq!(i.promote_timeout_in_seconds, 15);
    assert!(!i.active);
    assert!(!i.should_promote());
}

#[test]
fn step_decisions() {
    let mut i = issuer(state_with(&[]));
    // Not active: always promote.
    assert_eq!(i.step_action(1000), IssuerAction::Promote);
    i.active = true;
    // Confirmed at 400 > 800 - 480; 800 - 500 > 60.
    assert!(i.should_step(800));
    assert_eq!(i.step_action(800), IssuerAction::IssueNext);
    // Nothing confirmed for five intervals: restart.
    assert!(i.should_restart(1100));
    assert_eq!(i.step_action(1100), IssuerAction::IssueFirst);
    // Too early for the next one.
    assert_eq!(i.step_action(520), IssuerAction::Promote);
    assert!(i.latest_tx_confirmed(520));
    assert!(!i.latest_tx_confirmed(900));
}

#[test]
fn confirmation_drops_earlier_transactions() {
    let mut i = issuer(state_with(&[("T1", 10), ("T2", 20), ("T3", 30)]));
    assert!(i.receive_transactionconfimation(&"T2".to_string()));
    assert_eq!(i.state.unconfirmed_txs, vec!["T3".to_string()]);
    assert_eq!(i.state.latest_confimed_tx, "T2");
    assert_eq!(i.state.latest_confimed_timestamp, 10);
    assert!(!i.state.tx_timestamp.contains_key(&"T1".to_string()));
    assert!(i.state.tx_timestamp.contains_key(&"T2".to_string()));
    assert!(i.state.tx_timestamp.contains_key(&"T3".to_string()));
}

#[test]
fn confirmation_of_first_keeps_its_time() {
    let mut i = issuer(state_with(&[("T1", 10), ("T2", 20)]));
    assert!(i.receive_transactionconfimation(&"T1".to_string()));
    assert_eq!(i.state.unconfirmed_txs, vec!["T2".to_string()]);
    assert_eq!(i.state.latest_confimed_timestamp, 10);
}

#[test]
fn confirmation_of_unknown_changes_nothing() {
    let mut i = issuer(state_with(&[("T1", 10)]));
    assert!(!i.receive_transactionconfimation(&"OTHER".to_string()));
    assert_eq!(i.state.unconfirmed_txs, vec!["T1".to_string()]);
    assert_eq!(i.state.latest_confimed_tx, "C0");
}

fn chain(id: &str, timestamp: i64, index: i64, avg: i64) -> TimewarpData {
    TimewarpData {
        timewarpid: id.to_string(),
        hash: "H".into(),
        trunk: "T".into(),
        branch: "B".into(),
        distance: avg,
        trunk_or_branch: true,
        timestamp,
        avg_distance: avg,
        index_since_id: index,
    }
}

#[test]
fn decide_active_with_few_chains() {
    let mut i = issuer(state_with(&[]));
    i.decide_active(&vec![chain("OTHER", 1000, 100, 120)], 1000);
    assert!(i.active);
}

#[test]
fn decide_active_with_many_mature_chains() {
    let mut i = issuer(state_with(&[]));
    let mut v: Vec<TimewarpData> = (0..5).map(|k| chain(&format!("OTHER{}", k), 1000, 100, 120)).collect();
    i.decide_active(&v, 1000);
    assert!(!i.active);
    v.push(chain("ORIGINALT", 1000, 100, 120));
    i.decide_active(&v, 1000);
    assert!(i.active);
}

#[test]
fn decide_active_among_eligible_chains() {
    let mut i = issuer(state_with(&[]));
    // Twenty eligible chains (score 1000), none mature; ours scores lowest.
    let mut v: Vec<TimewarpData> = (0..20).map(|k| chain(&format!("OTHER{}", k), 1000, 20, 50)).collect();
    v.push(chain("ORIGINALT", 1000, 12, 50));
    i.decide_active(&v, 1000);
    assert!(!i.active);
    // Ours scores highest.
    v.pop();
    v.push(chain("ORIGINALT", 1000, 30, 50));
    i.decide_active(&v, 1000);
    assert!(i.active);
}

#[test]
fn first_transaction_and_next() {
    let mut i = issuer(state_with(&[]));
    let (key, address) = i.begin_first_transaction();
    assert_eq!(i.state.original_tx, "");
    assert_eq!(i.state.latest_index, "99999");
    let (k2, a2) = generate_key_and_address(&i.state.seed, 0);
    assert_eq!(key, k2);
    assert_eq!(address, a2);
    // Transaction hashes are 81 trytes long.
    let first = format!("FIRSTTXHASH{}", "9".repeat(70));
    let second = format!("SECONDTX{}", "9".repeat(73));
    i.record_first_transaction(key, first.clone(), 1_500_123, 77);
    assert_eq!(i.state.original_tx, first);
    assert_eq!(i.state.unconfirmed_txs, vec![first.clone()]);
    assert_eq!(i.state.tx_timestamp.get(&first), Some(&1500));
    assert_eq!(i.state.latest_timestamp, 1500);
    assert_eq!(i.state.latest_confimed_timestamp, 77);
    assert_eq!(i.latest_tx, first);
    assert!(i.ready_to_sign_next());

    let tip = "TIP999999999999999999999999999999999999999999999999999999999999999999999999999999".to_string();
    let prepared = i.prepare_next_transaction(tip.clone(), tip.clone(), true, 1000).unwrap();
    assert_eq!(prepared.next_index, "A9999");
    assert_eq!(prepared.trunk, first);
    assert_eq!(prepared.tag.len(), 27);
    assert_eq!(prepared.branch, tip);
    // The key and address are those of the current index.
    assert_eq!(prepared.private_key, k2);
    assert_eq!(prepared.address, a2);
    let hash = aion::signing::timewarp_hash(&prepared.address, &prepared.trunk, &prepared.branch, &prepared.tag);
    assert!(validate_tw_signature(&address, &hash, &prepared.message));

    i.record_next_transaction(prepared, second.clone(), 1_600_999);
    assert_eq!(i.state.unconfirmed_txs, vec![first.clone(), second.clone()]);
    assert_eq!(i.state.latest_index, "A9999");
    assert_eq!(i.state.latest_timestamp, 1600);
    assert_eq!(i.latest_tx, second);
    i.record_promotion("PROMO".to_string());
    assert_eq!(i.latest_tx, "PROMO");
    assert!(i.should_promote());
}

#[test]
fn not_ready_without_a_key() {
    let i = issuer(state_with(&[]));
    assert!(!i.ready_to_sign_next());
}
