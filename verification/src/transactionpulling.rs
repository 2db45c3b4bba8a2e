//! The steps of a pull job: walking its pathway one transaction at a time.
use vstd::prelude::*;
use crate::indexstorage::{opt_prev, opt_str, texts, LifeLineData, LifeLinePathData, PinDescriptor, PullJob, PullJobLifeline, PIN_STATUS_IN_PROGRESS, PIN_STATUS_NODE_ERROR, PIN_STATUS_PIN_ERROR};
use crate::aionmodel::lifeline_subgraph::GraphEntryEvent;
use crate::pathway::{model_add, lemma_add_all_push, lemma_model_add_all_size, model_add_all, step_at, tx_increment_of, PathwayDescriptor, PathwayModel, _B, _E, _T, _Y};

verus! {

/// The job `o` after walking `step` from a transaction with parents
/// `trunk` and `branch` is `f`; `going` tells whether the walk goes on.
pub open spec fn stepped(o: PullJob, f: PullJob, step: u8, trunk: Seq<char>, branch: Seq<char>, going: bool) -> bool {
    &&& (step == _Y ==> going && f.current_tx@ == trunk && texts(f.history@) == texts(o.history@).push(branch) && f.current_index == o.current_index + 1)
    &&& (step == _T ==> going && f.current_tx@ == trunk && f.history == o.history && f.current_index == o.current_index + 1)
    &&& (step == _B ==> going && f.current_tx@ == branch && f.history == o.history && f.current_index == o.current_index + 1)
    &&& (step == _E ==> f.current_index == o.current_index + 1 && f.history == o.history && (if o.history@.len() == 0 { !going && f.current_tx == o.current_tx } else { going && f.current_tx@ == o.history@.last()@ }))
    &&& (step != _Y && step != _T && step != _B && step != _E ==> going && f.current_tx == o.current_tx && f.history == o.history && f.current_index == o.current_index)
}

impl PullJob {
    /// The job is being worked on since `now`.
    pub fn start_work(&mut self, now: i64)
        ensures
            final(self).id == old(self).id,
            final(self).node == old(self).node,
            final(self).lifeline_component == old(self).lifeline_component,
            final(self).status@ == PIN_STATUS_IN_PROGRESS@,
            final(self).last_update == now,
            final(self).current_tx == old(self).current_tx,
            final(self).current_index == old(self).current_index,
            final(self).history == old(self).history,
            final(self).pathway == old(self).pathway,
    {
        self.status = PIN_STATUS_IN_PROGRESS.to_owned();
        self.last_update = now;
    }

    /// The job failed with `status` at `now`.
    pub fn fail(&mut self, status: &str, now: i64)
        ensures
            final(self).id == old(self).id,
            final(self).node == old(self).node,
            final(self).lifeline_component == old(self).lifeline_component,
            final(self).status@ == status@,
            final(self).last_update == now,
            final(self).current_tx == old(self).current_tx,
            final(self).current_index == old(self).current_index,
            final(self).history == old(self).history,
            final(self).pathway == old(self).pathway,
    {
        self.status = status.to_owned();
        self.last_update = now;
    }

    /// How many steps the next batch walks.
    pub fn batch_len(&self, batching_size: usize) -> (r: usize)
        requires
            self.current_index <= self.pathway.size,
        ensures
            r == (if batching_size < self.pathway.size - self.current_index {
                batching_size as int
            } else {
                self.pathway.size - self.current_index
            }),
    {
        let left = self.max_steps();
        if batching_size < left {
            batching_size
        } else {
            left
        }
    }

    /// The step of the pathway at the job's position.
    pub fn next_step(&self) -> (r: Option<u8>)
        requires
            self.pathway.wf(),
        ensures
            r == (if self.current_index >= self.pathway.size {
                None
            } else {
                Some(step_at(self.pathway.fields@, self.current_index as int))
            }),
    {
        self.pathway.get_at_index(self.current_index)
    }

    /// Walks one step from the current transaction, whose trunk and branch
    /// are given: both (going to the trunk, the branch kept in the history),
    /// the trunk, the branch, or back to the latest kept branch at an end.
    /// An end with no kept branch finishes the walk (`false`). A value that
    /// is no step changes nothing.
    pub fn advance(&mut self, step: u8, trunk: String, branch: String) -> (going: bool)
        requires
            old(self).current_index < usize::MAX,
        ensures
            stepped(*old(self), *final(self), step, trunk@, branch@, going),
            final(self).lifeline_component == old(self).lifeline_component,
            final(self).last_update == old(self).last_update,
            final(self).dependant == old(self).dependant,
            final(self).validity_pre_check_tx == old(self).validity_pre_check_tx,
            final(self).pathway == old(self).pathway,
            final(self).status == old(self).status,
            final(self).node == old(self).node,
            final(self).id == old(self).id,
    {
        if step == _Y {
            self.current_tx = trunk;
            let ghost before = self.history@;
            self.history.push(branch);
            proof {
                assert(texts(self.history@) =~= texts(before).push(self.history@.last()@));
            }
            self.current_index = self.current_index + 1;
            true
        } else if step == _T {
            self.current_tx = trunk;
            self.current_index = self.current_index + 1;
            true
        } else if step == _B {
            self.current_tx = branch;
            self.current_index = self.current_index + 1;
            true
        } else if step == _E {
            self.current_index = self.current_index + 1;
            if self.history.len() == 0 {
                return false;
            }
            self.current_tx = self.history[self.history.len() - 1].clone();
            true
        } else {
            true
        }
    }
}

impl PullJobLifeline {
    /// The subgraph event of a pulled lifeline component: its start
    /// reaches its end, between the component's bounds.
    pub fn graph_event(&self, index: i64) -> (r: GraphEntryEvent)
        ensures
            crate::indexstorage::opt_str(r.between_end) == crate::indexstorage::opt_str(self.between_end),
            crate::indexstorage::opt_str(r.between_start) == crate::indexstorage::opt_str(self.between_start),
            r.index == index,
            r.target_tx_id@ == self.lifeline_end_tx@,
            r.txid@ == self.lifeline_start_tx@,
            r.timestamp == self.lifeline_start_ts,
            r.target_timestamp == self.lifeline_end_ts,
            r.tx_distance_count == 0,
            r.timewarp_id@ == Seq::<char>::empty(),
    {
        GraphEntryEvent {
            between_end: crate::indexstorage::copy_opt_string(&self.between_end),
            between_start: crate::indexstorage::copy_opt_string(&self.between_start),
            index,
            target_tx_id: self.lifeline_end_tx.clone(),
            txid: self.lifeline_start_tx.clone(),
            timestamp: self.lifeline_start_ts,
            target_timestamp: self.lifeline_end_ts,
            tx_distance_count: 0,
            timewarp_id: String::new(),
        }
    }
}

/// A link of the lifeline completed while a lifeline component is pulled:
/// the lifeline transaction `from_tx` (with the time and tag recorded with
/// it) connects to `connecting_tx`; `pathway_span` names the part of the
/// job's pathway between them when the link closes a transition.
pub struct LifelineLink {
    pub from_tx: String,
    pub from_timestamp: i64,
    pub from_tag: String,
    pub trunk_or_branch: bool,
    pub oldest_tx: String,
    pub oldest_timestamp: i64,
    pub pathway_span: Option<(i64, i64)>,
    pub connecting_timestamp: i64,
    pub connecting_tx: String,
}

/// The pathway of a link within the job's `pathway`: the part its span
/// names, or one step to the trunk or the branch, then the end, when it
/// names none.
pub open spec fn link_pathway(l: LifelineLink, pathway: PathwayDescriptor) -> PathwayModel {
    match l.pathway_span {
        Some((s, e)) => model_add_all(no_steps(), pathway.steps().subrange(s as int, e as int)),
        None => model_add_all(no_steps(), seq![if l.trunk_or_branch { _T } else { _B }, _E]),
    }
}

impl LifelineLink {
    /// The lifeline entry the link stands for: `from_tx` at its time, with one
    /// path to `connecting_tx` along the link's pathway within the job's
    /// `pathway`, towards the component's end.
    pub fn to_lifeline_data(&self, pathway: &PathwayDescriptor) -> (r: LifeLineData)
        requires
            pathway.wf(),
            self.pathway_span matches Some((s, e)) ==> 0 <= s <= e <= pathway.size && 2 * (e - s) <= usize::MAX,
        ensures
            r.timewarp_tx@ == self.from_tx@,
            r.timestamp == self.from_timestamp,
            r.unpinned_connecting_txs@.len() == 0,
            r.paths@.len() == 1,
            r.paths@[0].transactions_till_oldest == 0,
            r.paths@[0].oldest_tx@ == self.oldest_tx@,
            r.paths@[0].oldest_timestamp == self.oldest_timestamp,
            r.paths@[0].connecting_pathway.model() == link_pathway(*self, *pathway),
            r.paths@[0].connecting_timestamp == self.connecting_timestamp,
            r.paths@[0].connecting_timewarp@ == self.connecting_tx@,
    {
        let connecting = match self.pathway_span {
            Some((s, e)) => {
                let p = pathway.slice(s as usize, e as usize);
                assert((s as usize) as int == s as int && (e as usize) as int == e as int);
                p
            },
            None => {
                let p = if self.trunk_or_branch { PathwayDescriptor::trunk() } else { PathwayDescriptor::branch() };
                proof {
                    let st = if self.trunk_or_branch { _T } else { _B };
                    let two = seq![st, _E];
                    let m1 = model_add(no_steps(), st);
                    let m2 = model_add(m1, _E);
                    assert(two.drop_first() =~= seq![_E]);
                    assert(seq![_E].drop_first() =~= Seq::<u8>::empty());
                    assert(model_add_all(m2, Seq::<u8>::empty()) == m2);
                    assert(model_add_all(m1, seq![_E]) == m2);
                    assert(model_add_all(no_steps(), two) == m2);
                }
                p
            },
        };
        let mut paths: Vec<LifeLinePathData> = Vec::new();
        paths.push(LifeLinePathData {
            transactions_till_oldest: 0,
            oldest_tx: self.oldest_tx.clone(),
            oldest_timestamp: self.oldest_timestamp,
            connecting_pathway: connecting,
            connecting_timestamp: self.connecting_timestamp,
            connecting_timewarp: self.connecting_tx.clone(),
        });
        LifeLineData {
            timewarp_tx: self.from_tx.clone(),
            timestamp: self.from_timestamp,
            unpinned_connecting_txs: Vec::new(),
            paths,
        }
    }
}

/// `l` links the recorded transaction `p` to `tx` (reached at time `ts`)
/// along `span`, towards the component's end.
pub open spec fn link_is(
    l: LifelineLink,
    c: PullJobLifeline,
    p: (Seq<char>, i64, Seq<char>),
    trunk: bool,
    span: Option<(i64, i64)>,
    ts: i64,
    tx: Seq<char>,
) -> bool {
    &&& l.from_tx@ == p.0
    &&& l.from_timestamp == p.1
    &&& l.from_tag@ == p.2
    &&& l.trunk_or_branch == trunk
    &&& l.oldest_tx@ == c.lifeline_end_tx@
    &&& l.oldest_timestamp == c.lifeline_end_ts
    &&& l.pathway_span == span
    &&& l.connecting_timestamp == ts
    &&& l.connecting_tx@ == tx
}

/// The recorded transition start is one of the transitions.
pub open spec fn prev_index_valid(c: PullJobLifeline) -> bool {
    c.lifeline_prev_index matches Some(s) ==> c.lifeline_transitions@.dom().contains(s)
}

/// The component is unchanged but for what `observe_step` records.
pub open spec fn same_bounds(a: PullJobLifeline, b: PullJobLifeline) -> bool {
    &&& a.lifeline_start_tx@ == b.lifeline_start_tx@
    &&& a.lifeline_start_ts == b.lifeline_start_ts
    &&& a.lifeline_end_tx@ == b.lifeline_end_tx@
    &&& a.lifeline_end_ts == b.lifeline_end_ts
    &&& a.lifeline_transitions@ == b.lifeline_transitions@
    &&& opt_str(a.between_start) == opt_str(b.between_start)
    &&& opt_str(a.between_end) == opt_str(b.between_end)
}

/// What `observe_step` records in the component `o` (giving `f`) and
/// returns (`r`) for a step to `tx` at position `index`.
pub open spec fn observes(o: PullJobLifeline, f: PullJobLifeline, index: usize, step: u8, tx: Seq<char>, ts: i64, tag: Seq<char>, r: Option<LifelineLink>) -> bool {
        let t = o.lifeline_transitions@;
        let i = index as i64;
        let now_prev = Some((tx, ts, tag));
        match opt_prev(o.lifeline_prev) {
            None => {
                &&& r is None
                &&& opt_prev(f.lifeline_prev) == now_prev
                &&& f.lifeline_prev_index == (if t.dom().contains(i) {
                    Some(i)
                } else {
                    o.lifeline_prev_index
                })
            },
            Some(p) => if t.dom().contains(i) {
                &&& r is None
                &&& opt_prev(f.lifeline_prev) == now_prev
                &&& f.lifeline_prev_index == Some(i)
            } else {
                match o.lifeline_prev_index {
                    Some(s) => if t[s] == i {
                        &&& r matches Some(l) && link_is(l, o, p, step == _T, Some((s, t[s])), ts, tx)
                        &&& opt_prev(f.lifeline_prev) == now_prev
                        &&& f.lifeline_prev_index is None
                    } else {
                        &&& r is None
                        &&& opt_prev(f.lifeline_prev) == opt_prev(o.lifeline_prev)
                        &&& f.lifeline_prev_index == o.lifeline_prev_index
                    },
                    None => {
                        &&& r matches Some(l) && link_is(l, o, p, step == _T, None, ts, tx)
                        &&& opt_prev(f.lifeline_prev) == now_prev
                        &&& f.lifeline_prev_index is None
                    },
                }
            },
        }
}

impl PullJobLifeline {
    /// Records that the walk reached `current_tx` at pathway position
    /// `index` by `step`, having fetched a transaction of time `ts` and tag
    /// `tag`. The first step, and a step at the start of a transition, only
    /// record (and mark the transition start). Any other step links the
    /// recorded transaction to `current_tx`, unless a transition is open and
    /// this is not its end, in which case nothing changes.
    pub fn observe_step(&mut self, index: usize, step: u8, current_tx: String, ts: i64, tag: String) -> (r: Option<LifelineLink>)
        requires
            index <= i64::MAX,
            prev_index_valid(*old(self)),
        ensures
            prev_index_valid(*final(self)),
            same_bounds(*final(self), *old(self)),
            observes(*old(self), *final(self), index, step, current_tx@, ts, tag@, r),
    {
        broadcast use vstd::std_specs::hash::group_hash_axioms;
        let i = index as i64;
        let at_transition = self.lifeline_transitions.contains_key(&i);
        let prev = match &self.lifeline_prev {
            Some(p) => Some((p.0.clone(), p.1, p.2.clone())),
            None => None,
        };
        match prev {
            None => {
                if at_transition {
                    self.lifeline_prev_index = Some(i);
                }
                self.lifeline_prev = Some((current_tx, ts, tag));
                None
            },
            Some(p) => {
                if at_transition {
                    self.lifeline_prev_index = Some(i);
                    self.lifeline_prev = Some((current_tx, ts, tag));
                    return None;
                }
                let span = match self.lifeline_prev_index {
                    Some(s) => {
                        let end = *self.lifeline_transitions.get(&s).unwrap();
                        if end != i {
                            return None;
                        }
                        Some((s, end))
                    },
                    None => None,
                };
                let link = LifelineLink {
                    from_tx: p.0,
                    from_timestamp: p.1,
                    from_tag: p.2,
                    trunk_or_branch: step == _T,
                    oldest_tx: self.lifeline_end_tx.clone(),
                    oldest_timestamp: self.lifeline_end_ts,
                    pathway_span: span,
                    connecting_timestamp: ts,
                    connecting_tx: current_tx.clone(),
                };
                self.lifeline_prev_index = None;
                self.lifeline_prev = Some((current_tx, ts, tag));
                Some(link)
            },
        }
    }
}

/// The steps of the first `k` hops, one pathway after the other.
pub open spec fn hop_steps(hops: Seq<LifeLinePathData>, k: int) -> Seq<u8>
    decreases k,
{
    if k <= 0 {
        Seq::empty()
    } else {
        hop_steps(hops, k - 1) + hops[k - 1].connecting_pathway.steps()
    }
}

/// The transitions of the first `k` hops: where a hop of more than one
/// transaction starts (the transactions counted before it) to its count.
pub open spec fn hop_transitions(hops: Seq<LifeLinePathData>, k: int) -> Map<i64, i64>
    decreases k,
{
    if k <= 0 {
        Map::empty()
    } else {
        let m = hop_transitions(hops, k - 1);
        let c = hops[k - 1].connecting_pathway.tx_count;
        if c > 1 {
            m.insert(tx_increment_of(hop_steps(hops, k - 1)) as i64, c as i64)
        } else {
            m
        }
    }
}

pub(crate) proof fn lemma_hop_steps_grow(hops: Seq<LifeLinePathData>, k: int, n: int)
    requires
        0 <= k <= n,
    ensures
        hop_steps(hops, k).len() <= hop_steps(hops, n).len(),
    decreases n - k,
{
    if k < n {
        lemma_hop_steps_grow(hops, k, n - 1);
    }
}

proof fn lemma_increment_bound(s: Seq<u8>)
    ensures
        tx_increment_of(s) <= 2 * s.len(),
    decreases s.len(),
{
    if s.len() > 0 {
        lemma_increment_bound(s.drop_first());
    }
}

/// The empty pathway model.
pub open spec fn no_steps() -> PathwayModel {
    PathwayModel { size: 0, tx_count: 0, fields: Seq::empty() }
}

/// The pin descriptor that caches the pull job from lifeline transaction
/// `start` to `end` along `hops` (the paths walked from `start` towards
/// `end`, in order): their pathways one after the other, and, for each hop
/// of more than one transaction, a transition from where it starts to its
/// transaction count.
pub fn pull_job_descriptor(start: String, end: String, start_ts: i64, end_ts: i64, hops: &Vec<LifeLinePathData>) -> (r: PinDescriptor)
    requires
        forall|i: int| 0 <= i < hops@.len() ==> (#[trigger] hops@[i]).connecting_pathway.wf()
            && hops@[i].connecting_pathway.tx_count <= i64::MAX,
        2 * hop_steps(hops@, hops@.len() as int).len() + 2 <= i64::MAX,
        2 * hop_steps(hops@, hops@.len() as int).len() + 2 <= usize::MAX,
    ensures
        r.lifeline_tx@ == start@,
        r.timestamp == 0,
        r.pathway.model() == model_add_all(no_steps(), hop_steps(hops@, hops@.len() as int)),
        r.endpoints@.len() == 0,
        r.pathway_index_splits@.len() == 0,
        r.metadata@ == Seq::<char>::empty(),
        r.dependant@ == Seq::<char>::empty(),
        r.lifeline_component matches Some(c) && c.lifeline_start_tx@ == start@ && c.lifeline_start_ts == start_ts
            && c.lifeline_end_tx@ == end@ && c.lifeline_end_ts == end_ts
            && c.lifeline_transitions@ == hop_transitions(hops@, hops@.len() as int)
            && c.lifeline_prev is None && c.lifeline_prev_index is None
            && c.between_start is None && c.between_end is None,
{
    broadcast use vstd::std_specs::hash::group_hash_axioms;
    let ghost n = hops@.len() as int;
    let mut pathway = PathwayDescriptor::new();
    let mut jump_points: std::collections::HashMap<i64, i64> = std::collections::HashMap::new();
    let mut k: usize = 0;
    proof {
        assert(pathway.model() == model_add_all(no_steps(), hop_steps(hops@, 0)));
        assert(jump_points@ =~= hop_transitions(hops@, 0));
    }
    while k < hops.len()
        invariant
            n == hops@.len(),
            k <= n,
            forall|i: int| 0 <= i < hops@.len() ==> (#[trigger] hops@[i]).connecting_pathway.wf()
                && hops@[i].connecting_pathway.tx_count <= i64::MAX,
            2 * hop_steps(hops@, n).len() + 2 <= i64::MAX,
            2 * hop_steps(hops@, n).len() + 2 <= usize::MAX,
            pathway.wf(),
            pathway.model() == model_add_all(no_steps(), hop_steps(hops@, k as int)),
            jump_points@ == hop_transitions(hops@, k as int),
        decreases n - k,
    {
        let hop = &hops[k];
        let ghost prefix = hop_steps(hops@, k as int);
        proof {
            lemma_model_add_all_size(no_steps(), prefix);
            lemma_increment_bound(prefix);
            lemma_hop_steps_grow(hops@, k as int, n);
            lemma_hop_steps_grow(hops@, k + 1, n);
            assert(hop_steps(hops@, k + 1) == prefix + hop.connecting_pathway.steps());
        }
        if hop.connecting_pathway.tx_count > 1 {
            jump_points.insert(pathway.tx_count as i64, hop.connecting_pathway.tx_count as i64);
        }
        let size = hop.connecting_pathway.size;
        let mut i: usize = 0;
        while i < size
            invariant
                i <= size,
                size == hop.connecting_pathway.size,
                hop.connecting_pathway.wf(),
                prefix.len() + size <= hop_steps(hops@, n).len(),
                2 * hop_steps(hops@, n).len() + 2 <= usize::MAX,
                pathway.wf(),
                pathway.model() == model_add_all(no_steps(), prefix + hop.connecting_pathway.steps().subrange(0, i as int)),
            decreases size - i,
        {
            let w = hop.connecting_pathway.get_at_index(i).unwrap();
            let ghost done = prefix + hop.connecting_pathway.steps().subrange(0, i as int);
            proof {
                lemma_model_add_all_size(no_steps(), done);
                lemma_increment_bound(done);
                assert(done.len() == prefix.len() + i);
            }
            pathway.add_to_path(w);
            proof {
                lemma_add_all_push(no_steps(), done, w);
                assert(done.push(w) =~= prefix + hop.connecting_pathway.steps().subrange(0, i + 1));
            }
            i = i + 1;
        }
        proof {
            assert(hop.connecting_pathway.steps().subrange(0, size as int) =~= hop.connecting_pathway.steps());
        }
        k = k + 1;
    }
    PinDescriptor {
        lifeline_tx: start.clone(),
        timestamp: 0,
        pathway,
        metadata: String::new(),
        dependant: String::new(),
        endpoints: Vec::new(),
        pathway_index_splits: Vec::new(),
        lifeline_component: Some(PullJobLifeline {
            between_end: None,
            between_start: None,
            lifeline_start_tx: start,
            lifeline_start_ts: start_ts,
            lifeline_end_tx: end,
            lifeline_end_ts: end_ts,
            lifeline_prev: None,
            lifeline_prev_index: None,
            lifeline_transitions: jump_points,
        }),
    }
}

/// The batch of a pull job under way: the trytes fetched, the lifeline
/// links completed, and the steps left to fetch before pinning.
pub struct PullRound {
    pub batch: Vec<String>,
    pub links: Vec<LifelineLink>,
    pub remaining: usize,
}

/// What happened for a pull job.
pub enum PullEvent {
    /// The job is taken up.
    Start,
    /// The trytes of the current transaction came, with its trunk, branch,
    /// time and tag.
    Fetched(String, String, String, i64, String),
    /// The node could not give the current transaction.
    FetchFailed,
    /// The batch was pinned (`true`) or pinning failed.
    Pinned(bool),
}

/// What to do next for a pull job.
pub enum PullAction {
    /// Fetch this transaction from the job's node.
    Fetch(String),
    /// Pin the batch and prepend its lifeline links, then store the job.
    Pin,
    /// Store the job and stop working on it.
    Stop,
    /// Report the lifeline component (when there is one) and drop the job.
    Finish,
}

/// A new batch: empty, of the next steps (at most `batching`), fetching
/// the current transaction; or the end of the job when no step is left.
pub open spec fn batch_opened(j: PullJob, f: PullRound, batching: usize, r: PullAction) -> bool {
    &&& f.batch@.len() == 0
    &&& f.links@.len() == 0
    &&& if j.current_index < j.pathway.size {
        &&& f.remaining == (if batching < j.pathway.size - j.current_index {
            batching as int
        } else {
            j.pathway.size - j.current_index
        })
        &&& r matches PullAction::Fetch(h) && h@ == j.current_tx@
    } else {
        f.remaining == 0 && r is Finish
    }
}

fn open_batch(job: &PullJob, round: &mut PullRound, batching: usize) -> (r: PullAction)
    requires
        job.current_index <= job.pathway.size,
    ensures
        batch_opened(*job, *final(round), batching, r),
{
    round.batch = Vec::new();
    round.links = Vec::new();
    if job.current_index < job.pathway.size {
        round.remaining = job.batch_len(batching);
        PullAction::Fetch(job.current_tx.clone())
    } else {
        round.remaining = 0;
        PullAction::Finish
    }
}

/// What a pull job is owed on `ev`. Taking it up marks it in progress and
/// opens a batch. Each fetched transaction joins the batch and the job
/// walks one step (an end with nothing to go back to closes the batch);
/// a lifeline component records the step and may complete a link. A full
/// batch is pinned; after a successful pin the next batch opens (or the
/// job finishes); a failed pin marks the job and finishes it; a failed
/// fetch marks the job and stops.
pub fn on_pull_event(job: &mut PullJob, round: &mut PullRound, batching_size: usize, now: i64, ev: PullEvent) -> (r: PullAction)
    requires
        batching_size > 0,
        (ev is Start || (ev matches PullEvent::Pinned(true))) ==> old(job).current_index <= old(job).pathway.size,
        ev is Fetched ==> {
            &&& old(round).remaining > 0
            &&& old(round).remaining <= old(job).pathway.size - old(job).current_index
            &&& old(job).pathway.wf()
            &&& old(job).current_index + 1 <= i64::MAX
            &&& old(job).lifeline_component matches Some(c) ==> prev_index_valid(c)
        },
    ensures
        final(job).pathway == old(job).pathway,
        final(job).id == old(job).id,
        final(job).node == old(job).node,
        ev is Start ==> {
            &&& final(job).status@ == PIN_STATUS_IN_PROGRESS@
            &&& final(job).last_update == now
            &&& final(job).current_tx == old(job).current_tx
            &&& final(job).current_index == old(job).current_index
            &&& final(job).history == old(job).history
            &&& final(job).lifeline_component == old(job).lifeline_component
            &&& batch_opened(*final(job), *final(round), batching_size, r)
        },
        ev is FetchFailed ==> {
            &&& final(job).status@ == PIN_STATUS_NODE_ERROR@
            &&& final(job).last_update == now
            &&& final(job).current_tx == old(job).current_tx
            &&& final(job).current_index == old(job).current_index
            &&& final(job).history == old(job).history
            &&& *final(round) == *old(round)
            &&& r is Stop
        },
        ev matches PullEvent::Pinned(ok) ==> if ok {
            &&& *final(job) == *old(job)
            &&& batch_opened(*final(job), *final(round), batching_size, r)
        } else {
            &&& final(job).status@ == PIN_STATUS_PIN_ERROR@
            &&& final(job).last_update == now
            &&& final(job).current_tx == old(job).current_tx
            &&& final(job).current_index == old(job).current_index
            &&& *final(round) == *old(round)
            &&& r is Finish
        },
        ev matches PullEvent::Fetched(trytes, trunk, branch, ts, tag) ==> ({
            let o = *old(job);
            let f = *final(job);
            let step = step_at(o.pathway.fields@, o.current_index as int);
            let going = !(step == _E && o.history@.len() == 0);
            &&& stepped(o, f, step, trunk@, branch@, going)
            &&& f.status == o.status
            &&& f.last_update == o.last_update
            &&& texts(final(round).batch@) == texts(old(round).batch@).push(trytes@)
            &&& final(round).remaining == (if going { old(round).remaining - 1 } else { 0 })
            &&& if going && o.lifeline_component is Some {
                &&& f.lifeline_component is Some
                &&& exists|l: Option<LifelineLink>|
                    #[trigger] observes(
                        o.lifeline_component->0,
                        f.lifeline_component->0,
                        f.current_index,
                        step,
                        f.current_tx@,
                        ts,
                        tag@,
                        l,
                    ) && final(round).links@ == (match l {
                        Some(x) => old(round).links@.push(x),
                        None => old(round).links@,
                    })
            } else {
                f.lifeline_component == o.lifeline_component && final(round).links@ == old(round).links@
            }
            &&& final(round).remaining > 0 ==> (r matches PullAction::Fetch(h) && h@ == f.current_tx@)
            &&& final(round).remaining == 0 ==> r is Pin
        }),
{
    match ev {
        PullEvent::Start => {
            job.start_work(now);
            open_batch(job, round, batching_size)
        },
        PullEvent::FetchFailed => {
            job.fail(PIN_STATUS_NODE_ERROR, now);
            PullAction::Stop
        },
        PullEvent::Pinned(ok) => {
            if ok {
                open_batch(job, round, batching_size)
            } else {
                job.fail(PIN_STATUS_PIN_ERROR, now);
                PullAction::Finish
            }
        },
        PullEvent::Fetched(trytes, trunk, branch, ts, tag) => {
            let step = job.next_step().unwrap();
            let ghost before = round.batch@;
            round.batch.push(trytes);
            proof {
                assert(texts(round.batch@) =~= texts(before).push(round.batch@.last()@));
            }
            let going = job.advance(step, trunk, branch);
            if !going {
                round.remaining = 0;
            } else {
                round.remaining = round.remaining - 1;
                let comp = job.lifeline_component.take();
                match comp {
                    Some(mut c) => {
                        let l = c.observe_step(job.current_index, step, job.current_tx.clone(), ts, tag);
                        let ghost gl = l;
                        let ghost links0 = round.links@;
                        match l {
                            Some(x) => round.links.push(x),
                            None => {},
                        }
                        job.lifeline_component = Some(c);
                        proof {
                            assert(observes(old(job).lifeline_component->0, job.lifeline_component->0, job.current_index, step, job.current_tx@, ts, tag@, gl));
                            assert(round.links@ == (match gl {
                                Some(x) => links0.push(x),
                                None => links0,
                            }));
                        }
                    },
                    None => {
                        job.lifeline_component = None;
                    },
                }
            }
            if round.remaining > 0 {
                PullAction::Fetch(job.current_tx.clone())
            } else {
                PullAction::Pin
            }
        },
    }
}

} // verus!
