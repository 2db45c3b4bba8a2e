use aion::timewarpselecting::plan_newly_pick;
use aion::indexstorage::{LifeLineData, LifeLinePathData, TimewarpData};
use aion::pathway::PathwayDescriptor;
use aion::timewarpselecting::{
    best_timewarp, connecting_lifeline_entry, continue_towards_lifeline, initial_lifeline_entry,
    needs_connecting_path, pick_decision, recent_timewarps, PickDecision, TimewarpSelectionState,
};

fn tw(id: &str, hash: &str, timestamp: i64, index: i64, avg: i64) -> TimewarpData {
    TimewarpData {
        timewarpid: id.to_string(),
        hash: hash.to_string(),
        trunk: format!("{}T", hash),
        branch: format!("{}B", hash),
        distance: avg,
        trunk_or_branch: true,
        timestamp,
        avg_distance: avg,
        index_since_id: index,
    }
}

fn state(picked: TimewarpData) -> Option<TimewarpSelectionState> {
    Some(TimewarpSelectionState { last_picked_timewarp: picked, untransitioned_timewarp_heads: vec![] })
}

#[test]
fn best_timewarp_picks_highest_score() {
    let warps = vec![tw("A", "HA", 0, 10, 10), tw("B", "HB", 0, 20, 10), tw("C", "HC", 0, 5, 10)];
    let best = best_timewarp(&None, &warps, &None, 0);
    assert_eq!(best.timewarpid, "B");
}

#[test]
fn best_timewarp_favours_followed_chain_by_threshold() {
    let warps = vec![tw("A", "HA", 0, 10, 10), tw("B", "HB", 0, 15, 10)];
    // B scores 150, A (followed) 100: B pays 60 and loses.
    let best = best_timewarp(&state(tw("A", "HA", 0, 10, 10)), &warps, &None, 60);
    assert_eq!(best.timewarpid, "A");
    // With a smaller threshold B wins.
    let best = best_timewarp(&state(tw("A", "HA", 0, 10, 10)), &warps, &None, 40);
    assert_eq!(best.timewarpid, "B");
}

#[test]
fn best_timewarp_obeys_the_leader() {
    let warps = vec![tw("A", "HA", 0, 90, 100), tw("L", "HL1", 0, 1, 1), tw("L", "HL2", 0, 2, 1)];
    let best = best_timewarp(&None, &warps, &Some("L".to_string()), 0);
    assert_eq!(best.timewarpid, "L");
    assert_eq!(best.hash, "HL2");
}

#[test]
fn best_timewarp_of_nothing_is_empty() {
    let best = best_timewarp(&None, &vec![], &None, 10);
    assert_eq!(best.timewarpid, "");
    assert_eq!(best.index_since_id, 0);
    // A chain whose adjusted score does not beat the empty record is not chosen.
    let best = best_timewarp(&None, &vec![tw("A", "HA", 0, 1, 1)], &None, 10);
    assert_eq!(best.timewarpid, "A");
    let best = best_timewarp(&state(tw("", "", 0, 0, 0)), &vec![tw("A", "HA", 0, 1, 1)], &None, 10);
    assert_eq!(best.timewarpid, "");
}

#[test]
fn recent_timewarps_keeps_order() {
    let v = vec![tw("A", "HA", 100, 1, 1), tw("B", "HB", 10, 1, 1), tw("C", "HC", 90, 1, 1)];
    let r = recent_timewarps(v, 100, 10);
    let ids: Vec<String> = r.iter().map(|d| d.timewarpid.clone()).collect();
    assert_eq!(ids, vec!["A", "C"]);
}

#[test]
fn pick_decisions() {
    let best = tw("A", "H2", 0, 1, 1);
    assert_eq!(pick_decision(&None, &best), PickDecision::First);
    assert_eq!(pick_decision(&None, &tw("", "", 0, 0, 0)), PickDecision::Nothing);
    assert_eq!(pick_decision(&state(tw("B", "H1", 0, 1, 1)), &best), PickDecision::Switch);
    assert_eq!(pick_decision(&state(tw("A", "H1", 0, 1, 1)), &best), PickDecision::Advance);
    assert_eq!(pick_decision(&state(tw("A", "H2", 0, 1, 1)), &best), PickDecision::Nothing);
}

#[test]
fn selection_state_transitions() {
    let s = TimewarpSelectionState::following(&tw("A", "H", 0, 1, 1));
    assert!(s.untransitioned_timewarp_heads.is_empty());
    let s2 = s.switched(&tw("B", "H2", 0, 1, 1));
    assert_eq!(s2.last_picked_timewarp.timewarpid, "B");
    assert_eq!(s2.untransitioned_timewarp_heads.len(), 1);
    assert_eq!(s2.untransitioned_timewarp_heads[0].timewarpid, "A");
}

#[test]
fn lifeline_entries() {
    let step = tw("A", "STEP", 50, 1, 1);
    let ll = LifeLineData { timewarp_tx: "STEPT".into(), timestamp: 40, unpinned_connecting_txs: vec![], paths: vec![] };
    assert!(!needs_connecting_path(&step, &ll));
    assert!(continue_towards_lifeline(&step, &ll));
    let entry = connecting_lifeline_entry(&step, &ll, vec!["X".into()], PathwayDescriptor::trunk());
    assert_eq!(entry.timewarp_tx, "STEP");
    assert_eq!(entry.timestamp, 50);
    assert_eq!(entry.unpinned_connecting_txs, vec!["X".to_string()]);
    assert_eq!(entry.paths.len(), 1);
    assert_eq!(entry.paths[0].oldest_tx, "STEPT");
    assert_eq!(entry.paths[0].oldest_timestamp, 40);
    assert_eq!(entry.paths[0].connecting_timewarp, "STEPT");
    let ll2 = LifeLineData {
        timewarp_tx: "OTHER".into(),
        timestamp: 60,
        unpinned_connecting_txs: vec![],
        paths: vec![LifeLinePathData {
            transactions_till_oldest: 3,
            oldest_tx: "OLDEST".into(),
            oldest_timestamp: 7,
            connecting_pathway: PathwayDescriptor::new(),
            connecting_timestamp: 0,
            connecting_timewarp: String::new(),
        }],
    };
    assert!(needs_connecting_path(&step, &ll2));
    assert!(!continue_towards_lifeline(&step, &ll2));
    let entry2 = connecting_lifeline_entry(&step, &ll2, vec![], PathwayDescriptor::branch());
    assert_eq!(entry2.paths[0].oldest_tx, "OLDEST");
    assert_eq!(entry2.paths[0].oldest_timestamp, 7);
    let first = initial_lifeline_entry(&step);
    assert_eq!(first.timewarp_tx, "STEP");
    assert!(first.paths.is_empty());
}

#[test]
fn newly_pick_starts_or_extends_the_lifeline() {
    let data = tw("A", "NEW", 300, 3, 10);
    let first = plan_newly_pick(&data, None, &vec![], vec![]);
    assert_eq!(first.len(), 1);
    assert_eq!(first[0].timewarp_tx, "NEW");
    assert!(first[0].paths.is_empty());
    // The lifeline ends at "OLD"; the chain is NEW -> MID -> OLD (present to past).
    let ll = LifeLineData { timewarp_tx: "OLD".into(), timestamp: 100, unpinned_connecting_txs: vec![], paths: vec![] };
    let mut mid = tw("A", "MID", 200, 2, 10);
    mid.trunk = "OLD".into();
    let mut newest = data.duplicate();
    newest.trunk = "ELSEWHERE".into();
    let chain = vec![newest, mid];
    let found = vec![Some((vec!["P1".to_string()], PathwayDescriptor::branch())), None];
    let r = plan_newly_pick(&data, Some(&ll), &chain, found);
    assert_eq!(r.len(), 2);
    assert_eq!(r[0].timewarp_tx, "MID");
    assert_eq!(r[0].paths[0].connecting_timewarp, "OLD");
    assert_eq!(r[0].paths[0].connecting_pathway.size, 2);
    assert_eq!(r[0].paths[0].oldest_tx, "OLD");
    assert_eq!(r[1].timewarp_tx, "NEW");
    assert_eq!(r[1].unpinned_connecting_txs, vec!["P1".to_string()]);
    assert_eq!(r[1].paths[0].connecting_timewarp, "MID");
    assert_eq!(r[1].paths[0].connecting_timestamp, 200);
    assert_eq!(r[1].paths[0].oldest_tx, "OLD");
    // A step with no path found is skipped.
    let chain2 = vec![tw("A", "X", 1, 1, 1)];
    assert!(plan_newly_pick(&data, Some(&ll), &chain2, vec![None]).is_empty());
}
