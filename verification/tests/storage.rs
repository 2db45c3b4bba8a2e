use aion::txstorage::{MemoryTxStore, TXPersistence};
use aion::strmap::StrMap;
use aion::txstorage::{plan_store_txs, IndexLists};
use aion::pathway::{PathwayDescriptor, _T};
use aion::indexstorage::TimewarpData;
use aion::txstorage::{decimal_string, index_fields, page_ref, paging_slot, to_byte_vec, to_vec};
use aion::webapi::{
    lifeline_lookup, merge_trytes, proxy_action, start_status, storage_window, storage_window_too_wide,
    timewarp_activity, CreateStorageReponse, ProxyAction,
};

fn strings(v: &[&str]) -> Vec<String> {
    v.iter().map(|s| s.to_string()).collect()
}

#[test]
fn bytes_written_read_back() {
    let v = strings(&["AAAA", "BBBB", "CCCC"]);
    let bytes = to_byte_vec(&v);
    assert_eq!(bytes, b"AAAABBBBCCCC".to_vec());
    assert_eq!(to_vec(bytes, 4), v);
}

#[test]
fn to_vec_keeps_a_short_last_piece() {
    assert_eq!(to_vec(b"ABCDE".to_vec(), 2), strings(&["AB", "CD", "E"]));
    assert_eq!(to_vec(Vec::new(), 3), Vec::<String>::new());
}

#[test]
fn decimal_strings() {
    assert_eq!(decimal_string(0), "0");
    assert_eq!(decimal_string(1234), "1234");
    assert_eq!(decimal_string(-56), "-56");
    assert_eq!(decimal_string(i64::MIN), "-9223372036854775808");
}

#[test]
fn page_references() {
    assert_eq!(page_ref(0, "ID".to_string()), "ID");
    assert_eq!(page_ref(3, "ID".to_string()), "3_ID");
    assert_eq!(page_ref(12, "X".to_string()), "12_X");
}

#[test]
fn paging_slots() {
    assert_eq!(paging_slot(10, 0, 0), None);
    assert_eq!(paging_slot(50, 2, 10), Some((2, false)));
    assert_eq!(paging_slot(50, 2, 50), Some((3, true)));
}

#[test]
fn index_fields_of_trytes() {
    let mut t = String::new();
    t.push_str(&"9".repeat(2187));
    t.push_str(&"A".repeat(81));
    t.push_str(&"9".repeat(2349 - 2268));
    t.push_str(&"C".repeat(81));
    t.push_str(&"D".repeat(81));
    t.push_str(&"E".repeat(81));
    t.push_str(&"F".repeat(27));
    t.push_str(&"9".repeat(54));
    let f = index_fields(&t);
    assert_eq!(f.address, "A".repeat(81));
    assert_eq!(f.bundle, "C".repeat(81));
    assert_eq!(f.trunk_transaction, "D".repeat(81));
    assert_eq!(f.branch_transaction, "E".repeat(81));
    assert_eq!(f.tag, "F".repeat(27));
}

#[test]
fn storage_response_to_descriptor() {
    let mut p = PathwayDescriptor::new();
    p.add_to_path(_T);
    let resp = CreateStorageReponse {
        start: "START".into(),
        pathway: p,
        node: "n".into(),
        endpoints: strings(&["E1", "E2"]),
        is_lifeline: true,
        dependant: "D".into(),
    };
    let d = resp.to_pin_descriptor(99);
    assert_eq!(d.lifeline_tx, "START");
    assert_eq!(d.endpoints, strings(&["E1", "E2"]));
    assert_eq!(d.timestamp, 99);
    assert_eq!(d.dependant, "D");
    assert_eq!(d.pathway.size, 1);
    assert!(d.lifeline_component.is_none());
    let def = CreateStorageReponse::default();
    assert_eq!(def.start, "");
    assert!(!def.is_lifeline);
}

fn tw(timestamp: i64, avg: i64) -> TimewarpData {
    TimewarpData {
        timewarpid: "ID".into(),
        hash: "H".into(),
        trunk: "T".into(),
        branch: "B".into(),
        distance: avg,
        trunk_or_branch: true,
        timestamp,
        avg_distance: avg,
        index_since_id: 1,
    }
}

#[test]
fn activity_counts() {
    let v = vec![tw(100, 10), tw(40, 10), tw(60, 10)];
    assert_eq!(timewarp_activity(&v, 100), (2, 1));
    assert_eq!(timewarp_activity(&vec![], 100), (0, 0));
}

#[test]
fn start_status_reads_the_flag() {
    assert_eq!(start_status(&b"true".to_vec()), (0, "Ok".to_string()));
    assert_eq!(start_status(&b"false".to_vec()), (1, "Starting".to_string()));
    assert_eq!(start_status(&vec![]), (1, "Starting".to_string()));
}

#[test]
fn proxy_actions() {
    assert_eq!(proxy_action(3, 0), ProxyAction::ServeLocal);
    assert_eq!(proxy_action(3, 3), ProxyAction::Forward);
    assert_eq!(proxy_action(3, 1), ProxyAction::Merge);
}

#[test]
fn merging_fills_the_missing() {
    let local = strings(&["L0", "", "L2", ""]);
    let remote = strings(&["R0", "R1", "R2", "R3"]);
    assert_eq!(merge_trytes(local, &vec![1, 3], &remote), strings(&["L0", "R1", "L2", "R3"]));
}

#[test]
fn storage_windows() {
    assert_eq!(storage_window(&vec![50, 10, 30]), (10, 50));
    assert_eq!(storage_window(&vec![]), (9999999999999999, 0));
    assert!(storage_window_too_wide(0, 181));
    assert!(!storage_window_too_wide(0, 180));
    assert_eq!(lifeline_lookup(1000, 100), Some(280));
    assert_eq!(lifeline_lookup(1000, 900), None);
}

fn trytes_for(address: char, tag: char, bundle: char, trunk: char, branch: char) -> String {
    let mut t = String::new();
    t.push_str(&"9".repeat(2187));
    t.push_str(&address.to_string().repeat(81));
    t.push_str(&"9".repeat(2349 - 2268));
    t.push_str(&bundle.to_string().repeat(81));
    t.push_str(&trunk.to_string().repeat(81));
    t.push_str(&branch.to_string().repeat(81));
    t.push_str(&tag.to_string().repeat(27));
    t.push_str(&"9".repeat(54));
    t
}

#[test]
fn planned_index_writes() {
    let a = "A".repeat(81);
    let mut address = StrMap::new();
    // The address entry is full: the next reference goes to its first page.
    address.insert(a.clone(), (0..50).map(|i| format!("OLD{}", i)).collect::<Vec<String>>());
    let mut lists = IndexLists {
        address,
        tag: StrMap::new(),
        bundle: StrMap::new(),
        approvee: StrMap::new(),
        paging: StrMap::new(),
    };
    let pairs = vec![
        ("H1".to_string(), trytes_for('A', 'G', 'C', 'T', 'B')),
        ("H2".to_string(), trytes_for('A', 'G', 'C', 'T', 'B')),
    ];
    plan_store_txs(&pairs, &vec![false, true], &mut lists);
    assert_eq!(lists.address.get(&format!("1_{}", a)), Some(&vec!["H1".to_string()]));
    assert_eq!(lists.paging.get(&a), Some(&1));
    assert_eq!(lists.tag.get(&"G".repeat(27)), Some(&vec!["H1".to_string()]));
    assert_eq!(lists.bundle.get(&"C".repeat(81)), Some(&vec!["H1".to_string()]));
    assert_eq!(lists.approvee.get(&"T".repeat(81)), Some(&vec!["H1".to_string()]));
    assert_eq!(lists.approvee.get(&"B".repeat(81)), Some(&vec!["H1".to_string()]));
}

#[test]
fn memory_tx_store_reads_back_and_indexes() {
    let mut st = MemoryTxStore::new();
    let t1 = trytes_for('A', 'G', 'C', 'T', 'B');
    assert!(st.store_txs(vec![("H1".to_string(), t1.clone())]).is_ok());
    let (found, missing) = st.get_txs(vec!["H1".to_string(), "NONE".to_string()]).unwrap();
    assert_eq!(found[0], t1);
    assert_eq!(found[1], "9".repeat(2673));
    assert_eq!(missing, vec![1]);
    assert_eq!(st.find_address(vec!["A".repeat(81)]).unwrap(), vec!["H1".to_string()]);
    assert_eq!(st.find_tag(vec!["G".repeat(27)]).unwrap(), vec!["H1".to_string()]);
    assert_eq!(st.find_bundle(vec!["C".repeat(81), "X".to_string()]).unwrap(), vec!["H1".to_string(), String::new()]);
    assert_eq!(st.find_approvees(vec!["B".repeat(81)]).unwrap(), vec!["H1".to_string()]);
    // Storing again does not index twice; unreadable trytes are refused.
    assert!(st.store_txs(vec![("H1".to_string(), t1.clone())]).is_ok());
    assert_eq!(st.find_bundle(vec!["C".repeat(81)]).unwrap(), vec!["H1".to_string()]);
    assert!(st.store_txs(vec![("H2".to_string(), "SHORT".to_string())]).is_err());
}
