use aion::transactionpulling::{on_pull_event, PullAction, PullEvent, PullRound};
use aion::transactionpulling::pull_job_descriptor;
use aion::indexstorage::LifeLinePathData;
use aion::aionmodel::lifeline_subgraph::{GraphEdge, GraphEntryEvent, GraphVertex, LifelineSubGraph};
use aion::indexstorage::{PullJob, PullJobLifeline, PIN_STATUS_IN_PROGRESS, PIN_STATUS_NODE_ERROR};
use aion::pathway::{PathwayDescriptor, _B, _E, _T, _Y};
use aion::strmap::StrMap;
use aion::transactionpinning::pin_batches;
use std::collections::HashMap;

fn job(steps: &[u8]) -> PullJob {
    let mut p = PathwayDescriptor::new();
    for s in steps {
        p.add_to_path(*s);
    }
    PullJob {
        id: "ID".into(),
        node: "node".into(),
        status: "await".into(),
        last_update: 0,
        current_tx: "START".into(),
        current_index: 0,
        history: vec![],
        validity_pre_check_tx: vec![],
        pathway: p,
        dependant: String::new(),
        lifeline_component: None,
    }
}

#[test]
fn pull_job_walks_its_pathway() {
    let mut j = job(&[_Y, _T, _E, _B, _E]);
    j.start_work(5);
    assert_eq!(j.status, PIN_STATUS_IN_PROGRESS);
    assert_eq!(j.last_update, 5);
    assert_eq!(j.batch_len(2), 2);
    assert_eq!(j.batch_len(10), 5);
    assert_eq!(j.next_step(), Some(_Y));
    assert!(j.advance(_Y, "T1".into(), "B1".into()));
    assert_eq!(j.current_tx, "T1");
    assert_eq!(j.history, vec!["B1".to_string()]);
    assert_eq!(j.next_step(), Some(_T));
    assert!(j.advance(_T, "T2".into(), "B2".into()));
    assert_eq!(j.current_tx, "T2");
    assert!(j.advance(_E, "x".into(), "y".into()));
    assert_eq!(j.current_tx, "B1");
    assert!(j.advance(_B, "T3".into(), "B3".into()));
    assert_eq!(j.current_tx, "B3");
    assert_eq!(j.current_index, 4);
    assert_eq!(j.max_steps(), 1);
    j.history.clear();
    assert!(!j.advance(_E, "x".into(), "y".into()));
    assert_eq!(j.current_tx, "B3");
    assert_eq!(j.next_step(), None);
    j.fail(PIN_STATUS_NODE_ERROR, 9);
    assert_eq!(j.status, PIN_STATUS_NODE_ERROR);
    assert_eq!(j.last_update, 9);
}

#[test]
fn unknown_step_changes_nothing() {
    let mut j = job(&[_T]);
    assert!(j.advance(0b00100000, "T".into(), "B".into()));
    assert_eq!(j.current_tx, "START");
    assert_eq!(j.current_index, 0);
}

#[test]
fn lifeline_component_event() {
    let c = PullJobLifeline {
        lifeline_start_tx: "S".into(),
        lifeline_start_ts: 100,
        lifeline_end_tx: "E".into(),
        lifeline_end_ts: 50,
        lifeline_transitions: HashMap::new(),
        lifeline_prev: None,
        lifeline_prev_index: None,
        between_start: Some("A".into()),
        between_end: None,
    };
    let ev = c.graph_event(3);
    assert_eq!(ev.txid, "S");
    assert_eq!(ev.target_tx_id, "E");
    assert_eq!(ev.timestamp, 100);
    assert_eq!(ev.target_timestamp, 50);
    assert_eq!(ev.index, 3);
    assert_eq!(ev.between_start, Some("A".to_string()));
    assert_eq!(ev.between_end, None);
    assert_eq!(ev.tx_distance_count, 0);
    let d = c.duplicate();
    assert_eq!(d.lifeline_start_tx, "S");
}

#[test]
fn pin_batches_in_twenty_fives() {
    let unpinned: Vec<String> = (0..60).map(|i| format!("U{}", i)).collect();
    let b = pin_batches(&"TW".to_string(), &unpinned);
    assert_eq!(b.len(), 3);
    assert_eq!(b[0], vec!["TW".to_string()]);
    assert_eq!(b[1], unpinned[0..25].to_vec());
    assert_eq!(b[2], unpinned[25..50].to_vec());
    assert!(pin_batches(&"TW".to_string(), &vec![]).is_empty());
}

fn event(index: i64, txid: &str, start: Option<&str>, end: Option<&str>) -> GraphEntryEvent {
    GraphEntryEvent {
        index,
        timewarp_id: String::new(),
        txid: txid.into(),
        timestamp: 150,
        tx_distance_count: 0,
        target_tx_id: "Y".into(),
        target_timestamp: 120,
        between_start: start.map(|s| s.to_string()),
        between_end: end.map(|s| s.to_string()),
    }
}

fn empty_graph() -> LifelineSubGraph {
    LifelineSubGraph {
        current_latest: String::new(),
        top_level_txcount_cutoff: 0,
        lastest_and_top_connected: false,
        top_level: String::new(),
        current_index: 0,
        vertices: StrMap::new(),
    }
}

#[test]
fn first_event_creates_the_top() {
    let mut g = empty_graph();
    assert!(!g.stores_after(&event(0, "TOP", None, None)));
    assert_eq!(g.process_event(event(1, "TOP", None, None)), Err("First event index should be one".to_string()));
    assert_eq!(g.process_event(event(0, "TOP", None, None)), Ok(()));
    assert_eq!(g.top_level, "TOP");
    assert_eq!(g.vertices.len(), 1);
    assert_eq!(g.process_event(event(1, "X", None, Some("D"))), Err("Must have start".to_string()));
    assert_eq!(g.process_event(event(1, "X", Some("A"), None)), Err("Must have end".to_string()));
    assert!(!g.stores_after(&event(1, "X", Some("A"), None)));
    assert!(g.stores_after(&event(1, "X", Some("A"), Some("D"))));
}

#[test]
fn split_edge_inserts_the_vertex() {
    let mut g = empty_graph();
    let mut a_out = StrMap::new();
    a_out.insert("D".to_string(), GraphEdge { tx_distance: 5, time_distance: 100 });
    let mut d_in = StrMap::new();
    d_in.insert("A".to_string(), GraphEdge { tx_distance: 5, time_distance: 100 });
    g.vertices.insert("A".into(), GraphVertex { reference_me: StrMap::new(), i_reference: a_out, timestamp: 200 });
    g.vertices.insert("D".into(), GraphVertex { reference_me: d_in, i_reference: StrMap::new(), timestamp: 100 });
    assert_eq!(g.process_event(event(1, "X", Some("A"), Some("D"))), Ok(()));
    let a = g.vertices.get(&"A".to_string()).unwrap();
    assert!(a.i_reference.contains_key(&"X".to_string()));
    assert!(!a.i_reference.contains_key(&"D".to_string()));
    let x = g.vertices.get(&"X".to_string()).unwrap();
    assert_eq!(x.timestamp, 150);
    assert_eq!(x.reference_me.get(&"A".to_string()), Some(&GraphEdge { tx_distance: 0, time_distance: 50 }));
    assert_eq!(x.i_reference.get(&"Y".to_string()), Some(&GraphEdge { tx_distance: 0, time_distance: 30 }));
    assert_eq!(x.i_reference.get(&"D".to_string()), Some(&GraphEdge { tx_distance: 0, time_distance: 50 }));
    let d = g.vertices.get(&"D".to_string()).unwrap();
    assert!(d.reference_me.contains_key(&"X".to_string()));
    assert!(!d.reference_me.contains_key(&"A".to_string()));
    assert_eq!(g.vertices.len(), 3);
}

fn component(transitions: &[(i64, i64)]) -> PullJobLifeline {
    PullJobLifeline {
        lifeline_start_tx: "S".into(),
        lifeline_start_ts: 100,
        lifeline_end_tx: "END".into(),
        lifeline_end_ts: 10,
        lifeline_transitions: transitions.iter().cloned().collect(),
        lifeline_prev: None,
        lifeline_prev_index: None,
        between_start: None,
        between_end: None,
    }
}

#[test]
fn lifeline_component_links_every_step_without_transitions() {
    let mut c = component(&[]);
    assert!(c.observe_step(1, _T, "A".into(), 90, "TAGA".into()).is_none());
    assert_eq!(c.lifeline_prev, Some(("A".to_string(), 90, "TAGA".to_string())));
    let l = c.observe_step(2, _T, "B".into(), 80, "TAGB".into()).unwrap();
    assert_eq!(l.from_tx, "A");
    assert_eq!(l.from_timestamp, 90);
    assert_eq!(l.from_tag, "TAGA");
    assert!(l.trunk_or_branch);
    assert_eq!(l.oldest_tx, "END");
    assert_eq!(l.oldest_timestamp, 10);
    assert_eq!(l.pathway_span, None);
    assert_eq!(l.connecting_timestamp, 80);
    assert_eq!(l.connecting_tx, "B");
    assert_eq!(c.lifeline_prev, Some(("B".to_string(), 80, "TAGB".to_string())));
    let l2 = c.observe_step(3, _B, "C".into(), 70, "TAGC".into()).unwrap();
    assert!(!l2.trunk_or_branch);
}

#[test]
fn lifeline_component_spans_a_transition() {
    let mut c = component(&[(2, 5)]);
    assert!(c.observe_step(1, _T, "A".into(), 90, "TA".into()).is_none());
    // Position 2 starts a transition: only recorded.
    assert!(c.observe_step(2, _T, "B".into(), 80, "TB".into()).is_none());
    assert_eq!(c.lifeline_prev_index, Some(2));
    // Inside the transition nothing changes.
    assert!(c.observe_step(3, _T, "X".into(), 70, "TX".into()).is_none());
    assert!(c.observe_step(4, _T, "Y".into(), 60, "TY".into()).is_none());
    assert_eq!(c.lifeline_prev, Some(("B".to_string(), 80, "TB".to_string())));
    // Its end links across it.
    let l = c.observe_step(5, _T, "C".into(), 50, "TC".into()).unwrap();
    assert_eq!(l.from_tx, "B");
    assert_eq!(l.pathway_span, Some((2, 5)));
    assert_eq!(l.connecting_tx, "C");
    assert_eq!(c.lifeline_prev_index, None);
}

#[test]
fn cache_edges_of_events() {
    let split = aion::aionmodel::lifeline_subgraph::pull_job_cache_edges(&event(1, "X", Some("A"), Some("D"))).unwrap();
    assert_eq!(
        split,
        vec![("A".to_string(), "X".to_string()), ("X".to_string(), "D".to_string()), ("X".to_string(), "Y".to_string())]
    );
    let prepend = aion::aionmodel::lifeline_subgraph::pull_job_cache_edges(&event(1, "X", Some("A"), None)).unwrap();
    assert_eq!(prepend, vec![("X".to_string(), "Y".to_string())]);
    let append = aion::aionmodel::lifeline_subgraph::pull_job_cache_edges(&event(1, "X", None, Some("D"))).unwrap();
    assert_eq!(append, vec![("X".to_string(), "Y".to_string())]);
    assert_eq!(
        aion::aionmodel::lifeline_subgraph::pull_job_cache_edges(&event(1, "X", None, None)),
        Err("Must have start or end".to_string())
    );
}

#[test]
fn pull_job_descriptor_concatenates_hops() {
    let mut long = PathwayDescriptor::new();
    long.add_to_path(_Y);
    long.add_to_path(_E);
    let hop = |p: PathwayDescriptor| LifeLinePathData {
        transactions_till_oldest: 0,
        oldest_tx: String::new(),
        oldest_timestamp: 0,
        connecting_pathway: p,
        connecting_timestamp: 0,
        connecting_timewarp: String::new(),
    };
    let hops = vec![hop(PathwayDescriptor::trunk()), hop(long)];
    let d = pull_job_descriptor("S".into(), "E".into(), 10, 5, &hops);
    assert_eq!(d.lifeline_tx, "S");
    assert_eq!(d.pathway.size, 4);
    assert_eq!(d.pathway.get_at_index(0), Some(_T));
    assert_eq!(d.pathway.get_at_index(1), Some(_E));
    assert_eq!(d.pathway.get_at_index(2), Some(_Y));
    assert_eq!(d.pathway.get_at_index(3), Some(_E));
    let c = d.lifeline_component.unwrap();
    assert_eq!(c.lifeline_start_tx, "S");
    assert_eq!(c.lifeline_end_ts, 5);
    // Both hops count more than one transaction: transitions at 0 and at 2.
    let mut t: Vec<(i64, i64)> = c.lifeline_transitions.into_iter().collect();
    t.sort();
    assert_eq!(t, vec![(0, 2), (2, 3)]);
}

fn fetched(trytes: &str, trunk: &str, branch: &str) -> PullEvent {
    PullEvent::Fetched(trytes.into(), trunk.into(), branch.into(), 50, "TAG".into())
}

#[test]
fn pull_events_walk_a_job() {
    let mut j = job(&[_T, _E]);
    let mut round = PullRound { batch: vec![], links: vec![], remaining: 0 };
    match on_pull_event(&mut j, &mut round, 10, 7, PullEvent::Start) {
        PullAction::Fetch(h) => assert_eq!(h, "START"),
        _ => panic!("expected a fetch"),
    }
    assert_eq!(j.status, PIN_STATUS_IN_PROGRESS);
    assert_eq!(round.remaining, 2);
    match on_pull_event(&mut j, &mut round, 10, 8, fetched("TRYTES0", "T1", "B1")) {
        PullAction::Fetch(h) => assert_eq!(h, "T1"),
        _ => panic!("expected a fetch"),
    }
    assert!(matches!(on_pull_event(&mut j, &mut round, 10, 9, fetched("TRYTES1", "T2", "B2")), PullAction::Pin));
    assert_eq!(round.batch, vec!["TRYTES0".to_string(), "TRYTES1".to_string()]);
    assert_eq!(j.current_index, 2);
    assert!(matches!(on_pull_event(&mut j, &mut round, 10, 10, PullEvent::Pinned(true)), PullAction::Finish));
    assert!(round.batch.is_empty());
}

#[test]
fn pull_events_small_batches_and_failures() {
    let mut j = job(&[_T, _T, _E]);
    let mut round = PullRound { batch: vec![], links: vec![], remaining: 0 };
    on_pull_event(&mut j, &mut round, 1, 1, PullEvent::Start);
    assert_eq!(round.remaining, 1);
    assert!(matches!(on_pull_event(&mut j, &mut round, 1, 2, fetched("X", "T1", "B1")), PullAction::Pin));
    match on_pull_event(&mut j, &mut round, 1, 3, PullEvent::Pinned(true)) {
        PullAction::Fetch(h) => assert_eq!(h, "T1"),
        _ => panic!("expected a fetch"),
    }
    assert!(matches!(on_pull_event(&mut j, &mut round, 1, 4, PullEvent::FetchFailed), PullAction::Stop));
    assert_eq!(j.status, PIN_STATUS_NODE_ERROR);
    assert!(matches!(on_pull_event(&mut j, &mut round, 1, 5, PullEvent::Pinned(false)), PullAction::Finish));
    assert_eq!(j.status, "pinning error");
    assert_eq!(j.last_update, 5);
}

#[test]
fn completed_link_becomes_a_lifeline_entry() {
    let pathway = job(&[_T, _Y, _E, _B, _E]).pathway;
    let link = aion::transactionpulling::LifelineLink {
        from_tx: "FROM".into(),
        from_timestamp: 10,
        from_tag: "TAG".into(),
        trunk_or_branch: true,
        oldest_tx: "OLD".into(),
        oldest_timestamp: 1,
        pathway_span: Some((1, 4)),
        connecting_timestamp: 5,
        connecting_tx: "CONN".into(),
    };
    let e = link.to_lifeline_data(&pathway);
    assert_eq!(e.timewarp_tx, "FROM");
    assert_eq!(e.timestamp, 10);
    assert_eq!(e.paths.len(), 1);
    let p = &e.paths[0];
    assert_eq!(p.connecting_timewarp, "CONN");
    assert_eq!(p.oldest_tx, "OLD");
    assert_eq!(p.connecting_pathway.size, 3);
    assert_eq!(p.connecting_pathway.get_at_index(0), Some(_Y));
    assert_eq!(p.connecting_pathway.get_at_index(1), Some(_E));
    assert_eq!(p.connecting_pathway.get_at_index(2), Some(_B));
    let direct = aion::transactionpulling::LifelineLink { pathway_span: None, trunk_or_branch: false, ..link };
    let d = direct.to_lifeline_data(&pathway);
    assert_eq!(d.paths[0].connecting_pathway.size, 2);
    assert_eq!(d.paths[0].connecting_pathway.get_at_index(0), Some(_B));
    assert_eq!(d.paths[0].connecting_pathway.get_at_index(1), Some(_E));
}
