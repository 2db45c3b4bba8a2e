use aion::iota_api::{
    find_paths_body, get_trytes_body, is_pinned_body, pin_transaction_hashes_bodies, pin_transaction_trytes_body,
    unpin_transaction_hashes_body, BTtx, PathfindingResult,
};
use aion::pathway::{_B, _E, _T, _Y};

fn strings(v: &[&str]) -> Vec<String> {
    v.iter().map(|s| s.to_string()).collect()
}

#[test]
fn mask_reflects_parent_links() {
    let both = BTtx { branch: Some("B".into()), trunk: Some("T".into()), id: "X".into() };
    let none = BTtx { branch: None, trunk: None, id: "X".into() };
    let branch = BTtx { branch: Some("B".into()), trunk: None, id: "X".into() };
    let trunk = BTtx { branch: None, trunk: Some("T".into()), id: "X".into() };
    assert_eq!(both.mask(), _Y);
    assert_eq!(none.mask(), _E);
    assert_eq!(branch.mask(), _B);
    assert_eq!(trunk.mask(), _T);
}

#[test]
fn to_pathway_follows_a_trunk_chain() {
    let r = PathfindingResult {
        txIDs: Box::new(strings(&["A", "B", "C"])),
        branches: Box::new(vec![]),
        trunks: Box::new(vec![vec![0, 1], vec![1, 2]]),
    };
    let p = r.to_pathway("A".to_string());
    assert_eq!(p.size, 3);
    assert_eq!(p.get_at_index(0), Some(_T));
    assert_eq!(p.get_at_index(1), Some(_T));
    assert_eq!(p.get_at_index(2), Some(_E));
}

#[test]
fn to_pathway_comes_back_to_branches() {
    let r = PathfindingResult {
        txIDs: Box::new(strings(&["A", "B", "C"])),
        branches: Box::new(vec![vec![0, 2]]),
        trunks: Box::new(vec![vec![0, 1]]),
    };
    let p = r.to_pathway("A".to_string());
    assert_eq!(p.size, 3);
    assert_eq!(p.tx_count, 4);
    assert_eq!(p.get_at_index(0), Some(_Y));
    assert_eq!(p.get_at_index(1), Some(_E));
    assert_eq!(p.get_at_index(2), Some(_E));
}

#[test]
fn to_pathway_of_a_tree_is_its_trunk_first_preorder() {
    // A: trunk B, branch C; B: trunk D; C and D have no parents.
    let r = PathfindingResult {
        txIDs: Box::new(strings(&["A", "B", "C", "D"])),
        branches: Box::new(vec![vec![0, 2]]),
        trunks: Box::new(vec![vec![0, 1], vec![1, 3]]),
    };
    let p = r.to_pathway("A".to_string());
    assert_eq!(p.size, 4);
    assert_eq!(p.get_at_index(0), Some(_Y));
    assert_eq!(p.get_at_index(1), Some(_T));
    assert_eq!(p.get_at_index(2), Some(_E));
    assert_eq!(p.get_at_index(3), Some(_E));
}

#[test]
fn request_bodies_hold_the_json_list() {
    let h = strings(&["AAA", "BBB"]);
    assert_eq!(is_pinned_body(&h), "{\"command\": \"isPinned\", \"hashes\": [\"AAA\",\"BBB\"]}");
    assert_eq!(
        pin_transaction_trytes_body(&h),
        "{\"command\": \"pinTransactionsTrytes\", \"trytes\": [\"AAA\",\"BBB\"]}"
    );
    assert_eq!(get_trytes_body(&h), "{\"command\": \"getTrytes\",  \"hashes\": [\"AAA\",\"BBB\"]}");
    assert_eq!(
        unpin_transaction_hashes_body(&h),
        "{\"command\": \"unpinTransactions\", \"hashes\": [\"AAA\",\"BBB\"]}"
    );
    assert_eq!(
        find_paths_body(&"S".to_string(), &h),
        "{\"command\": \"findPaths\", \"start\": \"S\" , \"endpoints\": [\"AAA\",\"BBB\"]}"
    );
    assert_eq!(is_pinned_body(&vec![]), "{\"command\": \"isPinned\", \"hashes\": []}");
}

#[test]
fn pin_hashes_bodies_chunk_from_the_end() {
    let hashes: Vec<String> = (0..120).map(|i| format!("H{}", i)).collect();
    let bodies = pin_transaction_hashes_bodies(&hashes);
    assert_eq!(bodies.len(), 3);
    let first = serde_json::to_string(&hashes[70..120]).unwrap();
    assert_eq!(bodies[0], format!("{{\"command\": \"pinTransactionHashes\", \"hashes\": {}}}", first));
    let last = serde_json::to_string(&hashes[0..20]).unwrap();
    assert_eq!(bodies[2], format!("{{\"command\": \"pinTransactionHashes\", \"hashes\": {}}}", last));
    assert!(pin_transaction_hashes_bodies(&vec![]).is_empty());
}
