use aion::aionmodel::tangle::Tangle;
use aion::aionmodel::transaction::{
    parse_tx_trytes, parse_zmq_confirmation_transaction, parse_zmqtransaction, split_on_spaces, TxInfo,
};
use aion::strmap::StrMap;
use aion::timewarping::Timewarp;

fn tx(hash: &str) -> TxInfo {
    TxInfo {
        hash: hash.to_string(),
        signature_fragments: String::new(),
        address: "ADDR".to_string(),
        timestamp: 10,
        trunk_transaction: "T".to_string(),
        branch_transaction: "B".to_string(),
        tag: "TAG".to_string(),
        attachment_timestamp: 20,
        nonce: String::new(),
    }
}

#[test]
fn strmap_insert_get_remove() {
    let mut m: StrMap<i64> = StrMap::new();
    assert!(m.is_empty());
    m.insert("a".to_string(), 1);
    m.insert("b".to_string(), 2);
    m.insert("a".to_string(), 3);
    assert_eq!(m.len(), 2);
    assert_eq!(m.get(&"a".to_string()), Some(&3));
    assert_eq!(m.get(&"c".to_string()), None);
    assert!(m.contains_key(&"b".to_string()));
    assert_eq!(m.keys(), vec!["a".to_string(), "b".to_string()]);
    assert_eq!(m.remove(&"a".to_string()), Some(3));
    assert_eq!(m.remove(&"a".to_string()), None);
    assert_eq!(m.len(), 1);
    assert!(!m.is_empty());
}

#[test]
fn split_on_spaces_keeps_empty_pieces() {
    assert_eq!(split_on_spaces("tx_trytes AAA BBB"), vec!["tx_trytes", "AAA", "BBB"]);
    assert_eq!(split_on_spaces("a  b"), vec!["a", "", "b"]);
    assert_eq!(split_on_spaces(""), vec![""]);
    assert_eq!(split_on_spaces("x "), vec!["x", ""]);
}

fn trytes_with(tag: &str) -> String {
    let mut t = String::new();
    t.push_str(&"S".repeat(2187));
    t.push_str(&"A".repeat(81));
    t.push_str(&"9".repeat(27 + 27));
    t.push_str("AJA999999");
    t.push_str(&"9".repeat(2430 - 2331));
    t.push_str(&"T".repeat(81));
    t.push_str(&"B".repeat(81));
    t.push_str(tag);
    t.push_str(&"9".repeat(2673 - 2619));
    t
}

#[test]
fn parse_tx_trytes_reads_the_fields() {
    let tag = format!("{}TW", "G".repeat(25));
    let trytes = trytes_with(&tag);
    assert_eq!(trytes.len(), 2673);
    let t = parse_tx_trytes(&trytes, "HASH");
    assert_eq!(t.hash, "HASH");
    assert_eq!(t.tag, tag);
    assert_eq!(t.address, "A".repeat(81));
    assert_eq!(t.timestamp, 1000);
    assert_eq!(t.trunk_transaction, "T".repeat(81));
    assert_eq!(t.branch_transaction, "B".repeat(81));
    assert_eq!(t.signature_fragments, "S".repeat(2187));
    assert_eq!(t.attachment_timestamp, 0);
    assert_eq!(t.nonce, "");
}

#[test]
fn parse_tx_trytes_drops_signature_of_untagged() {
    let trytes = trytes_with(&"G".repeat(27));
    let t = parse_tx_trytes(&trytes, "HASH");
    assert_eq!(t.signature_fragments, "");
}

#[test]
fn zmq_messages() {
    let trytes = trytes_with(&"G".repeat(27));
    let msg = format!("tx_trytes {} MYHASH", trytes);
    let t = parse_zmqtransaction(&msg);
    assert_eq!(t.hash, "MYHASH");
    assert_eq!(t.timestamp, 1000);
    assert_eq!(parse_zmq_confirmation_transaction("sn 123 TXHASH ADDR"), "TXHASH");
}

#[test]
fn tangle_keeps_the_newest() {
    let mut t = Tangle::new(2);
    t.insert(tx("A"));
    t.insert(tx("B"));
    t.insert(tx("A"));
    t.insert(tx("C"));
    assert_eq!(t.txs_ages, vec!["A", "B", "C"]);
    t.confirmed_txs.insert("A".to_string(), true);
    assert!(t.is_certainly_confirmed("A".to_string()));
    t.maintain();
    assert_eq!(t.txs_ages, vec!["B", "C"]);
    assert!(!t.contains("A".to_string()));
    assert!(t.contains("C".to_string()));
    assert!(!t.is_certainly_confirmed("A".to_string()));
    assert_eq!(t.get(&"B".to_string()).unwrap().hash, "B");
}

#[test]
fn tangle_without_limit_keeps_all() {
    let mut t = Tangle::new(-1);
    t.insert(tx("A"));
    t.insert(tx("B"));
    t.maintain();
    assert_eq!(t.txs_ages.len(), 2);
}

#[test]
fn txinfo_duplicate_and_timewarp_target() {
    let d = tx("X").duplicate();
    assert_eq!(d.hash, "X");
    assert_eq!(d.attachment_timestamp, 20);
    let w = Timewarp {
        source_hash: "S".into(),
        source_branch: "BR".into(),
        source_trunk: "TR".into(),
        source_timestamp: 1,
        source_tag: String::new(),
        distance: 2,
        trunk_or_branch: false,
    };
    assert_eq!(w.target_hash(), "BR");
    assert_eq!(w.duplicate().source_trunk, "TR");
}
