use aion::indexstorage::{get_n_timewarp_transactions, CleanDB, GenericCachePersistence, TimewarpData, TimewarpDetectionPersistence};
use aion::memstore::{MemoryDetectionStore, MemoryLifelineStore};
use aion::indexstorage::{LifeLineData, LifeLinePathData, LifelinePersistence};
use aion::pathway::PathwayDescriptor;
use aion::timewarping::Timewarp;
use aion::timewarpselecting::{follow_to_lifeline, TimewarpSelectionState};
use aion::strmap::StrMap;
use aion::aionmodel::lifeline_subgraph::{GraphEntryEvent, GraphVertex};

fn step(source: &str, target: &str, distance: i64) -> Timewarp {
    Timewarp {
        source_hash: source.to_string(),
        source_branch: "BR".to_string(),
        source_trunk: target.to_string(),
        source_timestamp: 100,
        source_tag: format!("999999999999999{}CHAINID9TW", source.len()),
        distance,
        trunk_or_branch: true,
    }
}

#[test]
fn store_records_chains_and_blocks() {
    let mut st = MemoryDetectionStore::new();
    let first = st.tw_detection_add_decision_data(step("S1", "S0", 30));
    assert_eq!(first.timewarpid, "CHAINID9");
    assert_eq!(first.index_since_id, 0);
    let second = st.tw_detection_add_decision_data(step("S2", "S1", 90));
    assert_eq!(second.timewarpid, "CHAINID9");
    assert_eq!(second.index_since_id, 1);
    assert_eq!(second.avg_distance, 90);
    assert_eq!(st.tw_detection_get_decision_data("S2".to_string()).unwrap().hash, "S2");
    assert!(st.tw_detection_get_decision_data("NONE".to_string()).is_none());
    // The chain from S2 back: S2 -> S1 -> S0, then no record for S0.
    assert_eq!(get_n_timewarp_transactions("S2".to_string(), 5, &st), vec!["S2", "S1", "S0"]);
    assert_eq!(get_n_timewarp_transactions("S2".to_string(), 1, &st), vec!["S2", "S1"]);
    assert_eq!(get_n_timewarp_transactions("S2".to_string(), 0, &st), vec!["S2"]);

    st.tw_detection_add_to_index(7, vec![("A".into(), "1".into()), ("B".into(), "2".into()), ("A".into(), "3".into())]);
    let block = st.tw_detection_get(&7);
    assert_eq!(block.len(), 2);
    assert_eq!(block.get(&"A".to_string()), Some(&"3".to_string()));
    assert!(st.tw_detection_get(&8).is_empty());
    st.tw_detection_remove_from_index(7, StrMap::new());
    assert_eq!(st.tw_detection_get(&7).len(), 2);
    st.tw_detection_add_to_index(9, vec![("C".into(), "4".into()), ("A".into(), "5".into())]);
    let all = st.tw_detection_get_all(vec![7, 8, 9]);
    assert_eq!(all.len(), 3);
    assert_eq!(all.get(&"A".to_string()), Some(&"5".to_string()));
    assert_eq!(all.get(&"B".to_string()), Some(&"2".to_string()));
    let mut gone = StrMap::new();
    gone.insert("A".to_string(), String::new());
    gone.insert("Z".to_string(), String::new());
    st.tw_detection_remove_from_index(7, gone);
    let left = st.tw_detection_get(&7);
    assert_eq!(left.len(), 1);
    assert!(left.get(&"A".to_string()).is_none());
    assert_eq!(left.get(&"B".to_string()), Some(&"2".to_string()));
    assert_eq!(st.get_picked_tw_index(7).len(), 0);
}

#[test]
fn new_chain_record_holds_the_step() {
    let mut st = MemoryDetectionStore::new();
    let first = st.tw_detection_add_decision_data(step("S1", "S0", 30));
    assert_eq!(first.hash, "S1");
    assert_eq!(first.trunk, "S0");
    assert_eq!(first.distance, 30);
    assert_eq!(first.avg_distance, 30);
    assert_eq!(first.timestamp, 100);
    let back = st.tw_detection_get_decision_data("S1".to_string()).unwrap();
    assert_eq!(back.hash, first.hash);
    assert_eq!(back.timewarpid, first.timewarpid);
    assert_eq!(back.avg_distance, 30);
    let second = st.tw_detection_add_decision_data(step("S2", "S1", 90));
    assert_eq!(second.avg_distance, 90);
    assert_eq!(second.distance, 90);
}

#[test]
fn store_keeps_the_followed_chain() {
    let mut st = MemoryDetectionStore::new();
    assert!(st.get_last_picked_tw().is_none());
    let data = TimewarpData {
        timewarpid: "ID".into(),
        hash: "H".into(),
        trunk: "T".into(),
        branch: "B".into(),
        distance: 1,
        trunk_or_branch: true,
        timestamp: 1,
        avg_distance: 1,
        index_since_id: 1,
    };
    assert!(st.set_last_picked_tw(TimewarpSelectionState::following(&data)).is_ok());
    let back = st.get_last_picked_tw().unwrap();
    assert_eq!(back.last_picked_timewarp.timewarpid, "ID");
    assert_eq!(back.last_picked_timewarp.hash, "H");
    assert!(back.untransitioned_timewarp_heads.is_empty());
}

#[test]
fn cache_reads_back_what_was_set() {
    let mut c = aion::memstore::MemoryCache::new();
    assert!(c.get_generic_cache("K").is_none());
    assert!(c.set_generic_cache("K", vec![1, 2, 3]).is_ok());
    assert_eq!(c.get_generic_cache("K"), Some(vec![1, 2, 3]));
    c.set_generic_cache("K", vec![9]).unwrap();
    assert_eq!(c.get_generic_cache("K"), Some(vec![9]));
}

fn ll(tx: &str, ts: i64, connecting: Option<(&str, i64)>) -> LifeLineData {
    LifeLineData {
        timewarp_tx: tx.to_string(),
        timestamp: ts,
        unpinned_connecting_txs: vec![],
        paths: match connecting {
            Some((c, cts)) => vec![LifeLinePathData {
                transactions_till_oldest: 0,
                oldest_tx: "OLDEST".into(),
                oldest_timestamp: 0,
                connecting_pathway: PathwayDescriptor::trunk(),
                connecting_timestamp: cts,
                connecting_timewarp: c.to_string(),
            }],
            None => vec![],
        },
    }
}

#[test]
fn lifeline_store_adds_and_finds() {
    let mut st = MemoryLifelineStore::new(100);
    assert!(st.add_to_lifeline(vec![]).is_err());
    assert!(st.add_to_lifeline(vec![ll("E1", 1000, None), ll("E2", 1250, Some(("E1", 1000)))]).is_ok());
    assert_eq!(st.get_last_lifeline().unwrap().timewarp_tx, "E2");
    assert_eq!(st.get_unpinned_lifeline(), vec!["E1", "E2", "E2", "E2"]);
    assert_eq!(st.get_lifeline(&1000), vec![("E1".to_string(), 1000)]);
    assert_eq!(st.get_lifeline(&1300), vec![("E2".to_string(), 1250)]);
    assert_eq!(st.get_lifeline_ts(&1100).unwrap().timewarp_tx, "E2");
    assert_eq!(st.get_lifeline_ts(&900).unwrap().timewarp_tx, "E1");
    assert!(st.get_lifeline_ts(&5000).is_none());
    assert_eq!(st.subgraph.top_level, "E1");
    // An entry older than the one it connects to is refused.
    assert_eq!(
        st.add_to_lifeline(vec![ll("E3", 900, Some(("E1", 1000)))]).err(),
        Some("Given timewarp is older then the one provided".to_string())
    );
    // So is a second entry that does not connect to the first.
    assert_eq!(
        st.add_to_lifeline(vec![ll("E3", 1300, Some(("E2", 1250))), ll("E4", 1400, Some(("E1", 1000)))]).err(),
        Some("Not a connecting lifeline. Connecting_timewarp does not match latest transaction ID.".to_string())
    );
    assert!(st.get_lifeline_tx(&"E3".to_string()).is_none());
    // A refused addition writes nothing.
    assert_eq!(st.get_last_lifeline().unwrap().timewarp_tx, "E2");
    assert_eq!(st.get_unpinned_lifeline(), vec!["E1", "E2", "E2", "E2"]);
    assert_eq!(st.get_lifeline(&1400), Vec::<(String, i64)>::new());
    assert!(st.add_to_lifeline(vec![ll("E3", 1300, Some(("E2", 1250)))]).is_ok());
    assert_eq!(st.get_last_lifeline().unwrap().timewarp_tx, "E3");
    assert_eq!(st.get_lifeline_tx(&"E3".to_string()).unwrap().timestamp, 1300);
    assert_eq!(st.find_tx_distance_between_lifelines(&"E1".to_string(), &"E3".to_string()), 0);
    assert_eq!(st.find_tx_distance_between_lifelines(&"E1".to_string(), &"X".to_string()), -1);
}

#[test]
fn prepend_stores_postfixed_entries() {
    let mut st = MemoryLifelineStore::new(100);
    assert!(st.add_to_lifeline(vec![ll("E1", 1000, None)]).is_ok());
    // Not held: refused.
    assert!(st.prepend_to_lifeline(ll("X", 900, Some(("C", 800)))).is_err());
    // Held but without a path: refused.
    assert!(st.prepend_to_lifeline(ll("E1", 900, None)).is_err());
    assert!(st.prepend_to_lifeline(ll("E1", 950, Some(("C", 800)))).is_ok());
    let split = st.get_lifeline_tx(&"E1_1".to_string()).unwrap();
    assert_eq!(split.timestamp, 950);
    let conn = st.get_lifeline_tx(&"C_1".to_string()).unwrap();
    assert_eq!(conn.timewarp_tx, "C");
    assert_eq!(conn.timestamp, 800);
    assert!(conn.paths.is_empty());
    // The earlier entry is kept under its own id.
    assert_eq!(st.get_lifeline_tx(&"E1".to_string()).unwrap().timestamp, 1000);
    assert_eq!(st.get_lifeline(&900)[0], ("C_1".to_string(), 800));
    // A second prepend of the same ids takes the next number.
    assert!(st.prepend_to_lifeline(ll("E1", 960, Some(("C", 810)))).is_ok());
    assert_eq!(st.get_lifeline_tx(&"E1_2".to_string()).unwrap().timestamp, 960);
    assert_eq!(st.get_lifeline_tx(&"C_2".to_string()).unwrap().timestamp, 810);
    assert_eq!(st.get_lifeline(&900)[0], ("C_2".to_string(), 810));
}

fn towards(tx: &str, ts: i64, end: &str, end_ts: i64) -> LifeLineData {
    LifeLineData {
        timewarp_tx: tx.to_string(),
        timestamp: ts,
        unpinned_connecting_txs: vec![],
        paths: vec![LifeLinePathData {
            transactions_till_oldest: 0,
            oldest_tx: end.into(),
            oldest_timestamp: end_ts,
            connecting_pathway: PathwayDescriptor::trunk(),
            connecting_timestamp: end_ts,
            connecting_timewarp: end.to_string(),
        }],
    }
}

fn graph_event(tx: &str, target: &str, start: Option<&str>, end: Option<&str>) -> GraphEntryEvent {
    GraphEntryEvent {
        index: 1,
        timewarp_id: String::new(),
        txid: tx.into(),
        timestamp: 0,
        tx_distance_count: 0,
        target_tx_id: target.into(),
        target_timestamp: 0,
        between_start: start.map(|s| s.to_string()),
        between_end: end.map(|s| s.to_string()),
    }
}

#[test]
fn pull_job_cache_follows_the_lifeline() {
    let mut st = MemoryLifelineStore::new(100);
    assert!(st.add_to_lifeline(vec![ll("E1", 1000, None), towards("E2", 1250, "E1", 1000)]).is_ok());
    assert!(st.add_to_lifeline(vec![towards("E3", 1400, "E2", 1250)]).is_ok());
    assert_eq!(
        st.set_pull_job_cache(&graph_event("E3", "E1", None, None)).err(),
        Some("Must have start or end".to_string())
    );
    // E3 is not a vertex of the subgraph yet.
    assert!(st.set_pull_job_cache(&graph_event("E3", "E1", None, Some("E1"))).is_err());
    st.subgraph.vertices.insert(
        "E3".to_string(),
        GraphVertex { reference_me: StrMap::new(), i_reference: StrMap::new(), timestamp: 1400 },
    );
    // E3 has no path towards E1: its only path leads to E2.
    assert!(st.set_pull_job_cache(&graph_event("E3", "E1", None, Some("E1"))).is_err());
    let d = st.get_pull_job_cache(&"E3".to_string(), &"E2".to_string());
    assert!(d.is_none());
    st.subgraph.vertices.insert(
        "E2".to_string(),
        GraphVertex { reference_me: StrMap::new(), i_reference: StrMap::new(), timestamp: 1250 },
    );
    assert!(st.set_pull_job_cache(&graph_event("E3", "E2", None, Some("E2"))).is_ok());
    let d = st.get_pull_job_cache(&"E3".to_string(), &"E2".to_string()).unwrap();
    assert_eq!(d.lifeline_tx, "E3");
    assert_eq!(d.pathway.size, 2);
    let c = d.lifeline_component.unwrap();
    assert_eq!(c.lifeline_start_ts, 1400);
    assert_eq!(c.lifeline_end_ts, 1250);
    assert_eq!(c.lifeline_end_tx, "E2");
}

#[test]
fn picked_chain_is_followed_to_the_lifeline() {
    let mut st = MemoryDetectionStore::new();
    st.tw_detection_add_decision_data(step("S1", "S0", 30));
    st.tw_detection_add_decision_data(step("S2", "S1", 30));
    let data = st.tw_detection_add_decision_data(step("S3", "S2", 30));
    let head = ll("S0", 50, None);
    let chain = follow_to_lifeline(&st, &data, &head, 100);
    let hashes: Vec<String> = chain.iter().map(|d| d.hash.clone()).collect();
    assert_eq!(hashes, vec!["S3", "S2", "S1"]);
    let chain = follow_to_lifeline(&st, &data, &ll("S1", 50, None), 100);
    assert_eq!(chain.len(), 2);
    // an older head stops the walk
    let chain = follow_to_lifeline(&st, &data, &ll("X", 100, None), 100);
    assert_eq!(chain.len(), 1);
    // so does the step limit
    let chain = follow_to_lifeline(&st, &data, &head, 1);
    assert_eq!(chain.len(), 2);
}

#[test]
fn cleaning_drops_what_is_older() {
    let mut st = MemoryDetectionStore::new();
    st.tw_detection_add_to_index(100, vec![("A".into(), "1".into())]);
    st.tw_detection_add_to_index(200, vec![("B".into(), "2".into())]);
    let mut old_step = step("S1", "S0", 30);
    old_step.source_timestamp = 50;
    st.tw_detection_add_decision_data(old_step);
    let mut new_step = step("S2", "S1", 30);
    new_step.source_timestamp = 200;
    st.tw_detection_add_decision_data(new_step);
    st.clean_db(150);
    assert!(st.tw_detection_get(&100).is_empty());
    assert_eq!(st.tw_detection_get(&200).len(), 1);
    assert!(st.tw_detection_get_decision_data("S1".to_string()).is_none());
    assert_eq!(st.tw_detection_get_decision_data("S2".to_string()).unwrap().hash, "S2");
}

#[test]
fn subgraph_events_on_the_store() {
    let mut st = MemoryLifelineStore::new(100);
    assert!(st.add_to_lifeline(vec![ll("E1", 1000, None)]).is_ok());
    assert!(st.is_in_graph(&"E1".to_string()));
    assert!(!st.is_in_graph(&"E2".to_string()));
    assert_eq!(st.new_index(), 1);
    // A split of an edge that the subgraph does not hold is refused.
    assert!(st.process_subgraph_event(graph_event("X", "E1", Some("E1"), Some("E0"))).is_err());
    assert!(!st.is_in_graph(&"X".to_string()));
    // An event without a start is refused by the subgraph.
    assert!(st.process_subgraph_event(graph_event("X", "E1", None, Some("E1"))).is_err());
}

#[test]
fn step_continues_the_chain_of_its_target() {
    let mut st = MemoryDetectionStore::new();
    let first = st.tw_detection_add_decision_data(step("S1", "S0", 30));
    let second = st.tw_detection_add_decision_data(step("S2", "S1", 90));
    assert_eq!(second.timewarpid, first.timewarpid);
    assert_eq!(second.index_since_id, first.index_since_id + 1);
    assert_eq!(second.hash, "S2");
    let third = st.tw_detection_add_decision_data(step("S3", "S2", 60));
    assert_eq!(third.timewarpid, first.timewarpid);
    assert_eq!(third.index_since_id, 2);
}
