use aion::indexstorage::{find_lifeline_after, lifeline_ts_keys};
use aion::indexstorage::{latest_block_heads, lookup_keys};
use aion::indexstorage::{chain_id_of_tag, plan_add_to_lifeline};
use aion::indexstorage::{
    chain_heads, copy_strings, get_time_key, get_time_key_range, has_tw_id_prefix, sort_by_timestamp_desc,
    storage_hash, LifeLineData, LifeLinePathData, PinDescriptor, TimewarpData, TimewarpIssuingState,
    PIN_STATUS_AWAIT,
};
use aion::pathway::{PathwayDescriptor, _B, _T};
use aion::strmap::StrMap;
use aion::timewarping::Timewarp;
use sha2::{Digest, Sha256};

fn data(id: &str, timestamp: i64, index: i64, avg: i64) -> TimewarpData {
    TimewarpData {
        timewarpid: id.to_string(),
        hash: format!("H{}", timestamp),
        trunk: "TRUNK".to_string(),
        branch: "BRANCH".to_string(),
        distance: avg,
        trunk_or_branch: true,
        timestamp,
        avg_distance: avg,
        index_since_id: index,
    }
}

#[test]
fn time_key_rounds_down_to_cluster() {
    assert_eq!(get_time_key(&1234, 100), 1200);
    assert_eq!(get_time_key(&1200, 100), 1200);
    assert_eq!(get_time_key(&99, 100), 0);
    assert_eq!(get_time_key(&1599999999, 3600), 1599998400);
}

#[test]
fn time_key_of_negative_timestamp_truncates_towards_zero() {
    assert_eq!(get_time_key(&-1234, 100), -1200);
    assert_eq!(get_time_key(&-1200, 100), -1200);
}

#[test]
fn time_key_is_idempotent_on_values() {
    let k = get_time_key(&987654, 1000);
    assert_eq!(get_time_key(&k, 1000), k);
    assert!(k <= 987654 && 987654 < k + 1000);
}

#[test]
fn time_key_range_lists_clusters_after_start() {
    assert_eq!(get_time_key_range(&1234, &1500, 100), vec![1300, 1400, 1500]);
    assert_eq!(get_time_key_range(&1234, &1200, 100), Vec::<i64>::new());
    assert_eq!(get_time_key_range(&1200, &1201, 100), vec![1300]);
    // near the top of the range: the last key still fits
    assert_eq!(get_time_key_range(&(i64::MAX - 50), &(i64::MAX - 10), 100), vec![9223372036854775800]);
}

#[test]
fn advance_updates_the_running_mean() {
    let d = data("TWID", 100, 2, 30);
    let step = Timewarp {
        source_hash: "NEW".to_string(),
        source_branch: "NB".to_string(),
        source_trunk: "NT".to_string(),
        source_timestamp: 500,
        source_tag: String::new(),
        distance: 60,
        trunk_or_branch: false,
    };
    let n = d.advance(&step);
    assert_eq!(n.timewarpid, "TWID");
    assert_eq!(n.hash, "NEW");
    assert_eq!(n.trunk, "NT");
    assert_eq!(n.branch, "NB");
    assert_eq!(n.timestamp, 500);
    assert_eq!(n.distance, 60);
    assert_eq!(n.index_since_id, 3);
    assert_eq!(n.avg_distance, 40);
    assert!(n.trunk_or_branch);
}

#[test]
fn score_caps_length_and_mean() {
    assert_eq!(data("A", 0, 10, 20).score(), 200);
    assert_eq!(data("A", 0, 500, 20).score(), 2000);
    assert_eq!(data("A", 0, 10, 5000).score(), 1200);
    assert_eq!(data("A", 0, 500, 5000).score(), TimewarpData::max_score());
    assert_eq!(TimewarpData::max_score(), 12000);
}

#[test]
fn target_hash_follows_trunk_or_branch() {
    let mut d = data("A", 0, 1, 1);
    assert_eq!(d.target_hash(), "TRUNK");
    d.trunk_or_branch = false;
    assert_eq!(d.target_hash(), "BRANCH");
}

fn issuing_state(original: &str, unconfirmed: Vec<&str>, index: &str) -> TimewarpIssuingState {
    TimewarpIssuingState {
        seed: "SEED".to_string(),
        original_tx: original.to_string(),
        unconfirmed_txs: unconfirmed.into_iter().map(|s| s.to_string()).collect(),
        tx_timestamp: StrMap::new(),
        latest_confimed_tx: "CONFIRMED".to_string(),
        latest_timestamp: 0,
        latest_confimed_timestamp: 0,
        latest_index: index.to_string(),
        latest_private_key: vec![],
    }
}

#[test]
fn issuing_state_latest_tx() {
    assert_eq!(issuing_state("X", vec![], "A").latest_tx(), "CONFIRMED");
    assert_eq!(issuing_state("X", vec!["U1", "U2"], "A").latest_tx(), "U2");
}

#[test]
fn issuing_state_random_id() {
    assert_eq!(issuing_state("ABCDEFGHIJKLMNOP", vec![], "A").random_id(), "ABCDEFGHI");
    assert_eq!(issuing_state("ABC", vec![], "A").random_id(), "999999999");
}

#[test]
fn issuing_state_latest_index_num() {
    assert_eq!(issuing_state("X", vec![], "A").latest_index_num(), 1);
    assert_eq!(issuing_state("X", vec![], "9").latest_index_num(), 0);
    assert_eq!(issuing_state("X", vec![], "AA").latest_index_num(), 28);
    assert_eq!(issuing_state("X", vec![], "Z").latest_index_num(), -1);
}

fn path(oldest: &str) -> LifeLinePathData {
    let mut p = PathwayDescriptor::new();
    p.add_to_path(_T);
    p.add_to_path(_B);
    LifeLinePathData {
        transactions_till_oldest: 2,
        oldest_tx: oldest.to_string(),
        oldest_timestamp: 10,
        connecting_pathway: p,
        connecting_timestamp: 20,
        connecting_timewarp: "CONNECT".to_string(),
    }
}

#[test]
fn walk_towards_finds_first_matching_path() {
    let ll = LifeLineData {
        timewarp_tx: "TX".to_string(),
        timestamp: 5,
        unpinned_connecting_txs: vec![],
        paths: vec![path("OLD1"), path("OLD2")],
    };
    let found = ll.walk_towards("OLD2".to_string()).unwrap();
    assert_eq!(found.oldest_tx, "OLD2");
    assert_eq!(found.connecting_pathway.size, 2);
    assert!(ll.walk_towards("NONE".to_string()).is_none());
}

#[test]
fn connecting_empty_ll_data_points_at_connection() {
    let e = path("OLD").connecting_empty_ll_data();
    assert_eq!(e.timewarp_tx, "CONNECT");
    assert_eq!(e.timestamp, 20);
    assert!(e.paths.is_empty());
    assert!(e.unpinned_connecting_txs.is_empty());
}

#[test]
fn default_lifeline_data_is_empty() {
    let d = LifeLineData::default();
    assert_eq!(d.timewarp_tx, "");
    assert_eq!(d.timestamp, 0);
    assert!(d.paths.is_empty());
}

#[test]
fn storage_hash_is_sha256_of_start_and_sorted_endpoints() {
    let endpoints = vec!["CC".to_string(), "AA".to_string(), "BB".to_string()];
    let h = storage_hash("START".to_string(), &endpoints);
    let mut hasher = Sha256::new();
    hasher.input(b"STARTAABBCC");
    assert_eq!(h, hasher.result().to_vec());
    assert_eq!(h.len(), 32);
}

#[test]
fn storage_hash_ignores_endpoint_order() {
    let a = vec!["X1".to_string(), "Y2".to_string(), "Z3".to_string()];
    let b = vec!["Z3".to_string(), "X1".to_string(), "Y2".to_string()];
    assert_eq!(storage_hash("S".to_string(), &a), storage_hash("S".to_string(), &b));
    assert_ne!(storage_hash("S".to_string(), &a), storage_hash("T".to_string(), &a));
}

#[test]
fn pin_descriptor_to_pull_job() {
    let mut p = PathwayDescriptor::new();
    p.add_to_path(_T);
    let desc = PinDescriptor {
        timestamp: 1,
        lifeline_tx: "LL".to_string(),
        pathway: p,
        endpoints: vec!["E2".to_string(), "E1".to_string()],
        pathway_index_splits: vec![],
        metadata: String::new(),
        dependant: "DEP".to_string(),
        lifeline_component: None,
    };
    let job = desc.to_pull_job("http://node".to_string(), 77);
    let id = desc.id();
    assert_eq!(job.id, base64::encode_config(&id, base64::URL_SAFE));
    assert_eq!(job.current_tx, "LL");
    assert_eq!(job.current_index, 0);
    assert_eq!(job.last_update, 77);
    assert_eq!(job.node, "http://node");
    assert_eq!(job.status, PIN_STATUS_AWAIT);
    assert_eq!(job.dependant, "DEP");
    assert_eq!(job.pathway.size, 1);
    assert!(job.lifeline_component.is_none());
    assert_eq!(job.max_steps(), 1);
}

#[test]
fn tw_id_prefix_and_chain_heads() {
    assert!(has_tw_id_prefix(&"TW_IDABC".to_string()));
    assert!(!has_tw_id_prefix(&"TW_I".to_string()));
    assert!(!has_tw_id_prefix(&"LMI".to_string()));
    let entries = vec![
        ("TW_ID1".to_string(), "HEAD1".to_string()),
        ("LMI".to_string(), "X".to_string()),
        ("TW_ID2".to_string(), "HEAD2".to_string()),
    ];
    assert_eq!(chain_heads(&entries), vec!["HEAD1".to_string(), "HEAD2".to_string()]);
}

#[test]
fn sort_by_timestamp_desc_orders_newest_first() {
    let v = vec![data("A", 5, 1, 1), data("B", 9, 1, 1), data("C", 1, 1, 1), data("D", 9, 1, 1)];
    let r = sort_by_timestamp_desc(v);
    let ts: Vec<i64> = r.iter().map(|d| d.timestamp).collect();
    assert_eq!(ts, vec![9, 9, 5, 1]);
    let mut ids: Vec<String> = r.iter().map(|d| d.timewarpid.clone()).collect();
    ids.sort();
    assert_eq!(ids, vec!["A", "B", "C", "D"]);
}

#[test]
fn copy_strings_keeps_contents() {
    let v = vec!["a".to_string(), "b".to_string()];
    assert_eq!(copy_strings(&v), v);
}

#[test]
fn decision_data_starts_or_advances_a_chain() {
    let step = Timewarp {
        source_hash: "S".to_string(),
        source_branch: "B".to_string(),
        source_trunk: "T".to_string(),
        source_timestamp: 700,
        source_tag: String::new(),
        distance: 90,
        trunk_or_branch: true,
    };
    let fresh = TimewarpData::decision_data(None, &step, "NEWCHAIN".to_string());
    assert_eq!(fresh.timewarpid, "NEWCHAIN");
    assert_eq!(fresh.index_since_id, 0);
    assert_eq!(fresh.avg_distance, 90);
    assert_eq!(fresh.hash, "S");
    assert_eq!(fresh.timestamp, 700);
    let prev = data("OLD", 100, 1, 30);
    let next = TimewarpData::decision_data(Some(&prev), &step, "IGNORED".to_string());
    assert_eq!(next.timewarpid, "OLD");
    assert_eq!(next.index_since_id, 2);
    assert_eq!(next.avg_distance, 60);
    assert_eq!(next.hash, "S");
}

fn entry(tx: &str, ts: i64, connecting: Option<&str>) -> LifeLineData {
    LifeLineData {
        timewarp_tx: tx.to_string(),
        timestamp: ts,
        unpinned_connecting_txs: vec![],
        paths: match connecting {
            Some(c) => {
                let mut p = path("OLDEST");
                p.connecting_timewarp = c.to_string();
                vec![p]
            }
            None => vec![],
        },
    }
}

#[test]
fn lifeline_additions_are_planned() {
    let es = vec![entry("E1", 1000, None), entry("E2", 1250, Some("E1"))];
    let w = plan_add_to_lifeline(None, &es, 100).unwrap();
    assert_eq!(w.writes.len(), 2);
    assert_eq!(w.writes[0].keys, vec![1000]);
    assert_eq!(w.writes[1].keys, vec![1100, 1200, 1300]);
    assert_eq!(w.unpinned, vec!["E1", "E2", "E2", "E2"]);
    assert_eq!(w.initialised, Some(("E1".to_string(), 1000)));
    let prev = entry("E0", 900, None);
    let w2 = plan_add_to_lifeline(Some(&prev), &vec![entry("E1", 1000, Some("E0"))], 100).unwrap();
    assert_eq!(w2.writes[0].keys, vec![1000]);
    assert_eq!(w2.initialised, None);
}

#[test]
fn lifeline_additions_must_connect() {
    let prev = entry("E0", 900, None);
    assert_eq!(
        plan_add_to_lifeline(Some(&prev), &vec![entry("E1", 800, Some("E0"))], 100).err(),
        Some("Given timewarp is older then the one provided".to_string())
    );
    assert_eq!(
        plan_add_to_lifeline(Some(&prev), &vec![entry("E1", 1000, Some("OTHER"))], 100).err(),
        Some("Not a connecting lifeline. Connecting_timewarp does not match latest transaction ID.".to_string())
    );
}

#[test]
fn latest_blocks_are_searched_newest_first() {
    let keys = lookup_keys(1234, 100);
    assert_eq!(keys.len(), 100);
    assert_eq!(keys[0], 1200);
    assert_eq!(keys[1], 1100);
    assert_eq!(keys[99], 1200 - 9900);
    let blocks = vec![
        vec![],
        vec![("LMI".to_string(), "X".to_string()), ("TW_IDA".to_string(), "HA".to_string())],
        vec![("TW_IDB".to_string(), "HB".to_string())],
    ];
    assert_eq!(latest_block_heads(&blocks), vec!["HA".to_string()]);
    assert!(latest_block_heads(&vec![vec![], vec![]]).is_empty());
}

#[test]
fn lifeline_entry_after_a_time() {
    let keys = lifeline_ts_keys(1234, 100);
    assert_eq!(keys.len(), 15);
    assert_eq!(keys[0], 1200);
    assert_eq!(keys[14], 2600);
    let blocks = vec![
        vec![("A".to_string(), 1210)],
        vec![("C".to_string(), 1390), ("B".to_string(), 1300), ("D".to_string(), 1300)],
        vec![("E".to_string(), 1400)],
    ];
    assert_eq!(find_lifeline_after(1234, &blocks), Some("B".to_string()));
    assert_eq!(find_lifeline_after(1205, &blocks), Some("A".to_string()));
    assert_eq!(find_lifeline_after(5000, &blocks), None);
}

#[test]
fn chain_id_is_taken_from_the_tag() {
    let tag = "ABCDEFGHIJKLMNOPQRSTUVWXYZ9".to_string();
    assert_eq!(chain_id_of_tag(&tag), "QRSTUVWX");
}
