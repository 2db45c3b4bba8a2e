use aion::aionmodel::transaction::TxInfo;
use aion::indexstorage::TimewarpData;
use aion::signing::{generate_key_and_address, sign_tw_hash, timewarp_hash};
use aion::timewarpindexing::{detect_timewarp, index_entries, ConfirmationAction, TimewarpIndexing};
use aion::timewarping::Timewarp;
use aion::timewarpwalker::{signed_transaction, StartTimewarpWalking, TimewarpWalk, WalkPhase, WalkRequest};

const SEED: &str = "IHDEENZYITYVYSPKAURUZAQKGVJEREFDJMYTANNXXGPZ9GJWTEOJJ9IPMXOGZNQLSNMFDSQOTZAEETUEA";

fn h(c: char) -> String {
    std::iter::repeat(c).take(81).collect()
}

fn plain(hash: &str, address: &str, attachment: i64) -> TxInfo {
    TxInfo {
        hash: hash.to_string(),
        signature_fragments: "Q".repeat(2187),
        address: address.to_string(),
        timestamp: attachment,
        trunk_transaction: h('T'),
        branch_transaction: h('B'),
        tag: "PARENTTAG99999999999999999".to_string(),
        attachment_timestamp: attachment,
        nonce: String::new(),
    }
}

/// A timewarp transaction whose trunk is `parent`, signed with the key of `parent`'s address.
fn signed_child(hash: &str, parent: &str, key: &Vec<i8>, attachment: i64) -> TxInfo {
    let tag = format!("{}{}TW", "9".repeat(15), "A".repeat(10));
    let address = h('C');
    let branch = h('D');
    let hash_to_sign = timewarp_hash(&address, parent, &branch, &tag);
    TxInfo {
        hash: hash.to_string(),
        signature_fragments: sign_tw_hash(key, &hash_to_sign),
        address,
        timestamp: attachment,
        trunk_transaction: parent.to_string(),
        branch_transaction: branch,
        tag,
        attachment_timestamp: attachment,
        nonce: String::new(),
    }
}

#[test]
fn unsigned_transactions_are_dropped() {
    let mut t = plain("A", "X", 1);
    t.signature_fragments = "9".repeat(2187);
    assert!(signed_transaction(t).is_none());
    let mut t = plain("A", "X", 1);
    t.signature_fragments = String::new();
    assert!(signed_transaction(t).is_none());
    let mut t = plain("A", "X", 1);
    t.signature_fragments = "99A".to_string();
    assert!(signed_transaction(t).is_some());
    assert!(signed_transaction(plain("A", "X", 1)).is_some());
}

#[test]
fn detect_timewarp_over_the_trunk() {
    let (key, address) = generate_key_and_address(SEED, 0);
    let parent_hash = h('P');
    let mut indexing = TimewarpIndexing::new(100, 0, None);
    indexing.tangle.insert(plain(&parent_hash, &address, 1000));
    let child = signed_child("CHILD", &parent_hash, &key, 1500);
    indexing.tangle.insert(child.duplicate());

    let tw = detect_timewarp(&child, &indexing.tangle, 100, 1000).unwrap();
    assert_eq!(tw.source_hash, "CHILD");
    assert_eq!(tw.distance, 500);
    assert!(tw.trunk_or_branch);
    assert_eq!(tw.source_trunk, parent_hash);
    assert_eq!(tw.source_tag, child.tag);

    // Gap outside the thresholds.
    assert!(detect_timewarp(&child, &indexing.tangle, 600, 1000).is_none());
    assert!(detect_timewarp(&child, &indexing.tangle, 100, 400).is_none());
    // Refused nonce.
    let mut no = child.duplicate();
    no.nonce = "NO".to_string();
    assert!(detect_timewarp(&no, &indexing.tangle, 100, 1000).is_none());
    // Signed for another address.
    let (other_key, _) = generate_key_and_address(SEED, 1);
    let forged = signed_child("FORGED", &parent_hash, &other_key, 1500);
    assert!(detect_timewarp(&forged, &indexing.tangle, 100, 1000).is_none());

    // A confirmation of the child starts a walk: its target is unknown.
    match indexing.receive_transactionconfimation(&"CHILD".to_string(), 100, 1000) {
        ConfirmationAction::StartWalk(start) => {
            assert_eq!(start.source_hash, "CHILD");
            assert_eq!(start.distance, 500);
            assert!(start.trunk_or_branch);
            assert_eq!(start.id(), format!("CHILD | {}", parent_hash));
        }
        _ => panic!("expected a walk"),
    }
    assert!(!indexing.ready_check(10_000, 5));
    assert!(matches!(
        indexing.receive_transactionconfimation(&"UNKNOWN".to_string(), 100, 1000),
        ConfirmationAction::Ignore
    ));
}

fn step(source: &str, target: &str) -> Timewarp {
    Timewarp {
        source_hash: source.to_string(),
        source_branch: "BR".to_string(),
        source_trunk: target.to_string(),
        source_timestamp: 1,
        source_tag: String::new(),
        distance: 10,
        trunk_or_branch: true,
    }
}

#[test]
fn detected_timewarps_extend_or_wait() {
    let mut indexing = TimewarpIndexing::new(10, 0, None);
    let tx = plain("S1", "A", 5);
    // Unknown target: a walk starts and S1 becomes a tip waiting on it.
    let walk_id = match indexing.on_detected_timewarp(step("S1", "T0"), &tx) {
        ConfirmationAction::StartWalk(start) => start.id(),
        _ => panic!("expected a walk"),
    };
    assert_eq!(indexing.known_timewarp_tips.get(&"S1".to_string()), Some(&walk_id));
    // While the walk runs, the next step waits with it.
    let tx2 = plain("S2", "A", 6);
    assert!(matches!(indexing.on_detected_timewarp(step("S2", "S1"), &tx2), ConfirmationAction::CacheLagging));
    assert!(!indexing.known_timewarp_tips.contains_key(&"S1".to_string()));
    assert_eq!(indexing.known_active_walks.get(&walk_id).unwrap().len(), 1);
    // The walk ends: its result, past first, then the waiting step.
    let result = indexing.receive_timewalkresult(&walk_id, vec![step("S1", "T0"), step("T0", "T-1")]);
    let sources: Vec<String> = result.iter().map(|t| t.source_hash.clone()).collect();
    assert_eq!(sources, vec!["T0", "S1", "S2"]);
    assert!(indexing.known_active_walks.is_empty());
    assert!(indexing.ready_check(100, 5));
    // With no walk running, the next step is stored.
    let tx3 = plain("S3", "A", 7);
    match indexing.on_detected_timewarp(step("S3", "S2"), &tx3) {
        ConfirmationAction::Store(tw) => assert_eq!(tw.source_hash, "S3"),
        _ => panic!("expected a store"),
    }
    assert_eq!(indexing.known_timewarp_tips.get(&"S3".to_string()), Some(&String::new()));
}

#[test]
fn index_entries_of_a_step() {
    let data = TimewarpData {
        timewarpid: "CHAIN".into(),
        hash: "LATEST".into(),
        trunk: "T".into(),
        branch: "B".into(),
        distance: 1,
        trunk_or_branch: true,
        timestamp: 1,
        avg_distance: 1,
        index_since_id: 1,
    };
    let e = index_entries(&step("SRC", "TGT"), &data);
    assert_eq!(e, vec![("SRC".to_string(), "TGT".to_string()), ("TW_IDCHAIN".to_string(), "LATEST".to_string())]);
}

#[test]
fn walk_follows_a_signed_chain() {
    let (key0, address0) = generate_key_and_address(SEED, 0);
    let (key1, address1) = generate_key_and_address(SEED, 1);
    let w_hash = h('W');
    let cur_hash = h('K');
    // `cur` references `w` as trunk and is signed with the key of `w`'s address.
    let cur = signed_child(&cur_hash, &w_hash, &key0, 900);
    let mut w = signed_child(&w_hash, &h('V'), &key1, 800);
    w.address = address0.clone();
    let _ = address1;

    let start = StartTimewarpWalking {
        source_hash: "NEWEST".to_string(),
        source_timestamp: 1000,
        source_tag: String::new(),
        source_branch: "BR".to_string(),
        source_trunk: cur_hash.clone(),
        distance: 100,
        trunk_or_branch: true,
        last_picked_tw_tx: String::new(),
    };
    let mut walk = TimewarpWalk::new(&start);
    assert_eq!(walk.phase, WalkPhase::NeedTransaction);
    assert!(matches!(walk.request(100), WalkRequest::GetTransaction(ref x) if *x == cur_hash));
    walk.on_transaction(Some(cur.duplicate()), 10, 500);
    assert_eq!(walk.phase, WalkPhase::NeedWalked);
    assert!(matches!(walk.request(100), WalkRequest::GetTransaction(ref x) if *x == w_hash));
    walk.on_walked(Some(w.duplicate()));
    assert_eq!(walk.phase, WalkPhase::NeedKnown);
    assert_eq!(walk.found.len(), 2);
    assert_eq!(walk.found[1].source_hash, cur_hash);
    assert_eq!(walk.found[1].distance, 100);
    assert_eq!(walk.txid, w_hash);
    assert_eq!(walk.timestamp, 900);
    assert!(matches!(walk.request(100), WalkRequest::CheckKnown(900, ref x) if *x == w_hash));
    // Not known yet: the cached transaction is examined at once.
    walk.on_known(false, 10, 500, 10);
    assert_eq!(walk.phase, WalkPhase::NeedWalked);
    assert_eq!(walk.current.as_ref().unwrap().hash, w_hash);
    // Known: the walk ends.
    let mut done = TimewarpWalk::new(&start);
    done.on_known(true, 10, 500, 10);
    assert_eq!(done.phase, WalkPhase::Done);
    assert!(matches!(done.request(100), WalkRequest::Finished));
}

#[test]
fn walk_ends_on_bad_links() {
    let start = StartTimewarpWalking { source_trunk: "X".to_string(), trunk_or_branch: true, source_timestamp: 1000, ..Default::default() };
    // Missing transaction.
    let mut walk = TimewarpWalk::new(&start);
    walk.on_transaction(None, 10, 500);
    assert_eq!(walk.phase, WalkPhase::Done);
    // Gap too large.
    let mut walk = TimewarpWalk::new(&start);
    walk.on_transaction(Some(plain("X", "A", 100)), 10, 500);
    assert_eq!(walk.phase, WalkPhase::Done);
    // Signature not valid for the referenced address.
    let mut walk = TimewarpWalk::new(&start);
    walk.on_transaction(Some(plain("X", "A", 900)), 10, 500);
    assert_eq!(walk.phase, WalkPhase::NeedWalked);
    walk.on_walked(Some(plain("Y", &h('A'), 800)));
    assert_eq!(walk.phase, WalkPhase::Done);
    assert_eq!(walk.found.len(), 1);
    // Depth reached.
    let mut walk = TimewarpWalk::new(&start);
    walk.start_round(10, 500, 1);
    assert_eq!(walk.phase, WalkPhase::Done);
}
