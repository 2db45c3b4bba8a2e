use aion::indexstorage::{PinDescriptor, PullJob, PullJobsPersistence, TimewarpIssueingPersistence, TimewarpIssuingState};
use aion::indexstorage::{PIN_STATUS_NODE_ERROR, PIN_STATUS_PIN_ERROR, PIN_STATUS_TRANSACTION_NOT_FOUND};
use aion::jobstore::{settle_pull_job, MemoryIssuingStore, MemoryPullJobStore};
use aion::transactionpulling::{on_pull_event, PullAction, PullEvent, PullRound};
use aion::indexstorage::PIN_STATUS_IN_PROGRESS;
use aion::pathway::{PathwayDescriptor, _B, _T};
use aion::strmap::StrMap;

fn job(id: &str, dependant: &str) -> PullJob {
    let mut p = PathwayDescriptor::new();
    p.add_to_path(_T);
    PullJob {
        id: id.into(),
        node: "node".into(),
        status: "await".into(),
        last_update: 0,
        current_tx: "START".into(),
        current_index: 0,
        history: vec![],
        validity_pre_check_tx: vec![],
        pathway: p,
        dependant: dependant.into(),
        lifeline_component: None,
    }
}

fn descriptor(tx: &str, metadata: &str) -> PinDescriptor {
    let mut p = PathwayDescriptor::new();
    p.add_to_path(_B);
    PinDescriptor {
        timestamp: 7,
        lifeline_tx: tx.into(),
        pathway: p,
        endpoints: vec!["E1".into(), "E2".into()],
        pathway_index_splits: vec![1],
        metadata: metadata.into(),
        dependant: String::new(),
        lifeline_component: None,
    }
}

#[test]
fn pull_jobs_queue_in_order_and_read_back() {
    let mut store = MemoryPullJobStore::new();
    store.add_pull_job(&job("A", ""));
    store.add_pull_job(&job("B", ""));
    assert_eq!(store.list_pull_jobs(), vec!["A".to_string(), "B".to_string()]);
    let a = store.get_pull_job(&"A".to_string()).unwrap();
    assert_eq!(a.id, "A");
    assert_eq!(a.current_tx, "START");
    assert_eq!(a.pathway.size, 1);
    assert!(store.get_pull_job(&"C".to_string()).is_none());
}

#[test]
fn failed_jobs_move_to_the_faulty_list() {
    let mut store = MemoryPullJobStore::new();
    store.add_pull_job(&job("A", ""));
    store.add_pull_job(&job("B", ""));
    store.add_pull_job(&job("C", ""));
    let mut b = job("B", "");
    b.status = PIN_STATUS_NODE_ERROR.into();
    store.update_pull_job(&b);
    assert_eq!(store.list_pull_jobs(), vec!["A".to_string(), "C".to_string()]);
    assert_eq!(store.list_faulty_pull_jobs(), vec!["B".to_string()]);
    assert_eq!(store.get_pull_job(&"B".to_string()).unwrap().status, PIN_STATUS_NODE_ERROR);
    let mut c = job("C", "");
    c.status = PIN_STATUS_TRANSACTION_NOT_FOUND.into();
    store.update_pull_job(&c);
    assert_eq!(store.list_faulty_pull_jobs(), vec!["B".to_string(), "C".to_string()]);
    // a pinning error keeps the job queued
    let mut a = job("A", "");
    a.status = PIN_STATUS_PIN_ERROR.into();
    store.update_pull_job(&a);
    assert_eq!(store.list_pull_jobs(), vec!["A".to_string()]);
    assert_eq!(store.get_pull_job(&"A".to_string()).unwrap().status, PIN_STATUS_PIN_ERROR);
}

#[test]
fn popped_job_is_gone() {
    let mut store = MemoryPullJobStore::new();
    store.add_pull_job(&job("A", ""));
    store.add_pull_job(&job("B", ""));
    store.pop_pull_job("A".to_string());
    assert_eq!(store.list_pull_jobs(), vec!["B".to_string()]);
    assert!(store.get_pull_job(&"A".to_string()).is_none());
}

#[test]
fn next_job_follows_held_dependants() {
    let mut store = MemoryPullJobStore::new();
    assert!(store.next_pull_job(&0).is_none());
    store.add_pull_job(&job("A", "B"));
    store.add_pull_job(&job("B", "C"));
    store.add_pull_job(&job("D", "gone"));
    assert_eq!(store.next_pull_job(&0).unwrap().id, "B");
    assert_eq!(store.next_pull_job(&1).unwrap().id, "B");
    assert_eq!(store.next_pull_job(&2).unwrap().id, "D");
    // past the end: the last queued job
    assert_eq!(store.next_pull_job(&9).unwrap().id, "D");
    store.pop_pull_job("B".to_string());
    assert_eq!(store.next_pull_job(&0).unwrap().id, "A");
}

#[test]
fn circular_dependants_give_no_job() {
    let mut store = MemoryPullJobStore::new();
    store.add_pull_job(&job("A", "B"));
    store.add_pull_job(&job("B", "A"));
    assert!(store.next_pull_job(&0).is_none());
}

#[test]
fn pin_descriptor_reads_back_by_id() {
    let mut store = MemoryPullJobStore::new();
    let d = descriptor("TX", "first");
    let id = d.id();
    assert_eq!(id.len(), 32);
    assert!(store.get_pin_descriptor(id.clone()).is_none());
    store.store_pin_descriptor(d).unwrap();
    let back = store.get_pin_descriptor(id.clone()).unwrap();
    assert_eq!(back.metadata, "first");
    assert_eq!(back.endpoints, vec!["E1".to_string(), "E2".to_string()]);
    assert_eq!(back.pathway_index_splits, vec![1]);
    store.store_pin_descriptor(descriptor("TX", "second")).unwrap();
    assert_eq!(store.get_pin_descriptor(id).unwrap().metadata, "second");
    assert!(store.get_pin_descriptor(descriptor("OTHER", "x").id()).is_none());
}

#[test]
fn issuing_state_reads_back() {
    let mut store = MemoryIssuingStore::new();
    assert!(store.get_timewarp_state().is_none());
    let mut stamps = StrMap::new();
    stamps.insert("T1".to_string(), 11i64);
    store.save_timewarp_state(TimewarpIssuingState {
        seed: "SEED".into(),
        original_tx: "ORIG".into(),
        unconfirmed_txs: vec!["T1".into()],
        tx_timestamp: stamps,
        latest_confimed_tx: "C".into(),
        latest_timestamp: 5,
        latest_confimed_timestamp: 4,
        latest_index: "I".into(),
        latest_private_key: vec![1, -1, 0],
    });
    let s = store.get_timewarp_state().unwrap();
    assert_eq!(s.seed, "SEED");
    assert_eq!(s.unconfirmed_txs, vec!["T1".to_string()]);
    assert_eq!(s.tx_timestamp.get(&"T1".to_string()), Some(&11));
    assert_eq!(s.latest_private_key, vec![1, -1, 0]);
    assert_eq!(s.latest_timestamp, 5);
}

fn fetched_event(trytes: &str, trunk: &str, branch: &str) -> PullEvent {
    PullEvent::Fetched(trytes.into(), trunk.into(), branch.into(), 0, String::new())
}

#[test]
fn settled_pull_job_runs_to_its_end() {
    let mut store = MemoryPullJobStore::new();
    let mut j = job("J", "");
    j.pathway = PathwayDescriptor::new();
    j.pathway.add_to_path(_T);
    j.pathway.add_to_path(_T);
    store.add_pull_job(&j);
    let mut round = PullRound { batch: vec![], links: vec![], remaining: 0 };
    let ev = PullEvent::Start;
    let a = on_pull_event(&mut j, &mut round, 10, 7, PullEvent::Start);
    settle_pull_job(&mut store, &j, &ev, &a);
    assert_eq!(store.get_pull_job(&"J".to_string()).unwrap().status, PIN_STATUS_IN_PROGRESS);
    let ev = fetched_event("TR0", "T1", "B1");
    let a = on_pull_event(&mut j, &mut round, 10, 8, fetched_event("TR0", "T1", "B1"));
    settle_pull_job(&mut store, &j, &ev, &a);
    // mid-batch: the stored job is the one taken up
    assert_eq!(store.get_pull_job(&"J".to_string()).unwrap().current_index, 0);
    let ev = fetched_event("TR1", "T2", "B2");
    let a = on_pull_event(&mut j, &mut round, 10, 9, fetched_event("TR1", "T2", "B2"));
    assert!(matches!(a, PullAction::Pin));
    settle_pull_job(&mut store, &j, &ev, &a);
    let ev = PullEvent::Pinned(true);
    let a = on_pull_event(&mut j, &mut round, 10, 10, PullEvent::Pinned(true));
    assert!(matches!(a, PullAction::Finish));
    settle_pull_job(&mut store, &j, &ev, &a);
    assert!(store.get_pull_job(&"J".to_string()).is_none());
    assert!(store.list_pull_jobs().is_empty());
}

#[test]
fn failed_fetch_keeps_the_job_as_faulty() {
    let mut store = MemoryPullJobStore::new();
    let mut j = job("J", "");
    store.add_pull_job(&j);
    let mut round = PullRound { batch: vec![], links: vec![], remaining: 0 };
    let a = on_pull_event(&mut j, &mut round, 10, 7, PullEvent::Start);
    settle_pull_job(&mut store, &j, &PullEvent::Start, &a);
    let a = on_pull_event(&mut j, &mut round, 10, 8, PullEvent::FetchFailed);
    assert!(matches!(a, PullAction::Stop));
    settle_pull_job(&mut store, &j, &PullEvent::FetchFailed, &a);
    let kept = store.get_pull_job(&"J".to_string()).unwrap();
    assert_eq!(kept.status, PIN_STATUS_NODE_ERROR);
    assert_eq!(store.list_faulty_pull_jobs(), vec!["J".to_string()]);
    assert!(store.list_pull_jobs().is_empty());
}
