//! Choosing which observed timewarp chain the lifeline follows.
use vstd::prelude::*;
use vstd::string::StrSliceExecFns;
use crate::indexstorage::{score_of, texts, LifeLineData, LifeLinePathData, TimewarpData, TimewarpDetectionPersistence};
use crate::pathway::{lemma_add_appends_step, model_add, model_steps, PathwayDescriptor, PathwayModel, _B, _E, _T};

verus! {

/// The chain currently followed, and the heads of chains followed before
/// that have not been connected to it yet.
pub struct TimewarpSelectionState {
    pub last_picked_timewarp: TimewarpData,
    pub untransitioned_timewarp_heads: Vec<TimewarpData>,
}

/// The penalty a chain pays against the followed one: none for the
/// followed chain, `threshold` for any other.
pub open spec fn penalty(id: Seq<char>, picked: Option<Seq<char>>, threshold: int) -> int {
    if picked is Some && picked->0 == id {
        0
    } else {
        threshold
    }
}

/// A chain's score less its penalty.
pub open spec fn adjusted(tw: TimewarpData, picked: Option<Seq<char>>, threshold: int) -> int {
    score_of(tw.index_since_id as int, tw.avg_distance as int) - penalty(tw.timewarpid@, picked, threshold)
}

/// The chain chosen among the first `n` (`None`: none beat the empty
/// record), and whether it is the leader's.
pub open spec fn best_upto(
    warps: Seq<TimewarpData>,
    n: int,
    picked: Option<Seq<char>>,
    leader: Option<Seq<char>>,
    threshold: int,
) -> (Option<int>, bool)
    decreases n,
{
    if n <= 0 {
        (None, false)
    } else {
        let (sel, leader_selected) = best_upto(warps, n - 1, picked, leader, threshold);
        let x = warps[n - 1];
        let sel_adjusted = match sel {
            None => 0 - penalty(Seq::empty(), picked, threshold),
            Some(i) => adjusted(warps[i], picked, threshold),
        };
        if leader is Some && x.timewarpid@ == leader->0 {
            (Some(n - 1), true)
        } else if !leader_selected && adjusted(x, picked, threshold) > sel_adjusted {
            (Some(n - 1), leader_selected)
        } else {
            (sel, leader_selected)
        }
    }
}

/// The record with empty texts and zero numbers.
pub open spec fn is_empty_record(tw: TimewarpData) -> bool {
    &&& tw.timewarpid@ == Seq::<char>::empty()
    &&& tw.hash@ == Seq::<char>::empty()
    &&& tw.trunk@ == Seq::<char>::empty()
    &&& tw.branch@ == Seq::<char>::empty()
    &&& tw.distance == 0
    &&& !tw.trunk_or_branch
    &&& tw.timestamp == 0
    &&& tw.avg_distance == 0
    &&& tw.index_since_id == 0
}

/// The scores and penalised scores fit in `isize`.
pub open spec fn scores_fit(warps: Seq<TimewarpData>, threshold: int) -> bool {
    &&& 0 <= threshold <= isize::MAX
    &&& forall|i: int|
        0 <= i < warps.len() ==> isize::MIN + threshold <= #[trigger] score_of(
            warps[i].index_since_id as int,
            warps[i].avg_distance as int,
        ) <= isize::MAX
}

fn empty_record() -> (r: TimewarpData)
    ensures
        is_empty_record(r),
{
    TimewarpData {
        timewarpid: String::new(),
        hash: String::new(),
        trunk: String::new(),
        branch: String::new(),
        distance: 0,
        trunk_or_branch: false,
        timestamp: 0,
        avg_distance: 0,
        index_since_id: 0,
    }
}

/// The chain to follow: the leader's chain when `leader` names one of
/// `warps` (the last such), else the one with the best score after the
/// penalty `switch_threshold` that every chain but the followed one pays;
/// the empty record when none beats it.
pub fn best_timewarp(
    picked: &Option<TimewarpSelectionState>,
    warps: &Vec<TimewarpData>,
    leader: &Option<String>,
    switch_threshold: isize,
) -> (r: TimewarpData)
    requires
        scores_fit(warps@, switch_threshold as int),
    ensures
        ({
            let pid = match picked {
                Some(p) => Some(p.last_picked_timewarp.timewarpid@),
                None => None,
            };
            let lid = crate::indexstorage::opt_str(*leader);
            match best_upto(warps@, warps@.len() as int, pid, lid, switch_threshold as int).0 {
                Some(i) => r.same(warps@[i]),
                None => is_empty_record(r),
            }
        }),
{
    let ghost pid = match picked {
        Some(p) => Some(p.last_picked_timewarp.timewarpid@),
        None => None::<Seq<char>>,
    };
    let ghost lid = crate::indexstorage::opt_str(*leader);
    let ghost thr = switch_threshold as int;
    let mut selected: Option<usize> = None;
    let mut leader_selected = false;
    let mut i: usize = 0;
    while i < warps.len()
        invariant
            i <= warps@.len(),
            scores_fit(warps@, thr),
            thr == switch_threshold,
            pid == (match picked {
                Some(p) => Some(p.last_picked_timewarp.timewarpid@),
                None => None::<Seq<char>>,
            }),
            lid == crate::indexstorage::opt_str(*leader),
            (match selected {
                Some(j) => Some(j as int),
                None => None::<int>,
            }, leader_selected) == best_upto(warps@, i as int, pid, lid, thr),
            selected matches Some(j) ==> j < i,
        decreases warps@.len() - i,
    {
        let x = &warps[i];
        assert(isize::MIN + thr <= score_of(x.index_since_id as int, x.avg_distance as int));
        let x_sub: isize = match picked {
            Some(p) => if p.last_picked_timewarp.timewarpid == x.timewarpid {
                0
            } else {
                switch_threshold
            },
            None => switch_threshold,
        };
        let x_adjusted = x.score() - x_sub;
        let sel_adjusted: isize = match selected {
            None => {
                let sub: isize = match picked {
                    Some(p) => if p.last_picked_timewarp.timewarpid.as_str().unicode_len() == 0 {
                        0
                    } else {
                        switch_threshold
                    },
                    None => switch_threshold,
                };
                proof {
                    if picked is Some {
                        if picked->0.last_picked_timewarp.timewarpid@.len() == 0 {
                            assert(picked->0.last_picked_timewarp.timewarpid@ =~= Seq::<char>::empty());
                        }
                    }
                }
                0 - sub
            },
            Some(j) => {
                let s = &warps[j];
                assert(isize::MIN + thr <= score_of(s.index_since_id as int, s.avg_distance as int));
                let sub: isize = match picked {
                    Some(p) => if p.last_picked_timewarp.timewarpid == s.timewarpid {
                        0
                    } else {
                        switch_threshold
                    },
                    None => switch_threshold,
                };
                s.score() - sub
            },
        };
        let is_leader = match leader {
            Some(v) => x.timewarpid == *v,
            None => false,
        };
        if is_leader {
            selected = Some(i);
            leader_selected = true;
        } else if !leader_selected && x_adjusted > sel_adjusted {
            selected = Some(i);
        }
        i = i + 1;
    }
    match selected {
        Some(j) => warps[j].duplicate(),
        None => empty_record(),
    }
}

/// A chain is recent when its latest step is younger than twice the
/// minimal switching distance.
pub open spec fn is_recent(tw: TimewarpData, now: int, min_distance: int) -> bool {
    tw.timestamp > now - min_distance * 2
}

/// The recent chains, in their order.
pub fn recent_timewarps(timewarps: Vec<TimewarpData>, now: i64, min_distance: i64) -> (r: Vec<TimewarpData>)
    requires
        i64::MIN <= min_distance * 2 <= i64::MAX,
        i64::MIN <= now - min_distance * 2 <= i64::MAX,
    ensures
        r@ == timewarps@.filter(|tw: TimewarpData| is_recent(tw, now as int, min_distance as int)),
{
    let ghost pred = |tw: TimewarpData| is_recent(tw, now as int, min_distance as int);
    let mut r: Vec<TimewarpData> = Vec::new();
    let mut rest = timewarps;
    let ghost all = rest@;
    let n = rest.len();
    let mut i: usize = 0;
    let limit = now - min_distance * 2;
    // Take the chains out front to back.
    let mut reversed: Vec<TimewarpData> = Vec::new();
    while rest.len() > 0
        invariant
            all.len() == reversed@.len() + rest@.len(),
            rest@ == all.subrange(0, rest@.len() as int),
            forall|j: int| 0 <= j < reversed@.len() ==> #[trigger] reversed@[j] == all[all.len() - 1 - j],
        decreases rest@.len(),
    {
        let tw = rest.pop().unwrap();
        reversed.push(tw);
    }
    while reversed.len() > 0
        invariant
            pred == (|tw: TimewarpData| is_recent(tw, now as int, min_distance as int)),
            limit == now - min_distance * 2,
            all.len() == n,
            i + reversed@.len() == all.len(),
            forall|j: int| 0 <= j < reversed@.len() ==> #[trigger] reversed@[j] == all[all.len() - 1 - j],
            r@ == all.subrange(0, i as int).filter(pred),
        decreases reversed@.len(),
    {
        let tw = reversed.pop().unwrap();
        proof {
            assert(tw == all[i as int]);
            assert(all.subrange(0, i + 1) =~= all.subrange(0, i as int).push(tw));
            all.subrange(0, i as int).lemma_filter_push(tw, pred);
        }
        if tw.timestamp > limit {
            r.push(tw);
        }
        i = i + 1;
    }
    proof {
        assert(all.subrange(0, all.len() as int) =~= all);
    }
    r
}

/// What a pick round does once the best chain is known.
#[derive(Clone, Copy, Debug, PartialEq, Eq, Structural)]
pub enum PickDecision {
    /// Nothing to follow, or nothing new.
    Nothing,
    /// Follow the best chain; none was followed before.
    First,
    /// Another chain is best: switch to it once a path to it is found.
    Switch,
    /// The followed chain has advanced.
    Advance,
}

pub fn pick_decision(picked: &Option<TimewarpSelectionState>, best: &TimewarpData) -> (r: PickDecision)
    ensures
        picked is None ==> r == (if best.timewarpid@.len() == 0 {
            PickDecision::Nothing
        } else {
            PickDecision::First
        }),
        picked is Some ==> r == (if picked->0.last_picked_timewarp.timewarpid@ != best.timewarpid@ {
            PickDecision::Switch
        } else if picked->0.last_picked_timewarp.hash@ != best.hash@ {
            PickDecision::Advance
        } else {
            PickDecision::Nothing
        }),
{
    match picked {
        None => if best.timewarpid.as_str().unicode_len() == 0 {
            PickDecision::Nothing
        } else {
            PickDecision::First
        },
        Some(p) => if p.last_picked_timewarp.timewarpid != best.timewarpid {
            PickDecision::Switch
        } else if p.last_picked_timewarp.hash != best.hash {
            PickDecision::Advance
        } else {
            PickDecision::Nothing
        },
    }
}

impl TimewarpSelectionState {
    /// Following `best` with nothing left to connect.
    pub fn following(best: &TimewarpData) -> (r: TimewarpSelectionState)
        ensures
            r.last_picked_timewarp.same(*best),
            r.untransitioned_timewarp_heads@.len() == 0,
    {
        TimewarpSelectionState { last_picked_timewarp: best.duplicate(), untransitioned_timewarp_heads: Vec::new() }
    }

    /// Following `best` after a switch; the chain left behind is to be connected.
    pub fn switched(&self, best: &TimewarpData) -> (r: TimewarpSelectionState)
        ensures
            r.last_picked_timewarp.same(*best),
            r.untransitioned_timewarp_heads@.len() == 1,
            r.untransitioned_timewarp_heads@[0].same(self.last_picked_timewarp),
    {
        let mut heads: Vec<TimewarpData> = Vec::new();
        heads.push(self.last_picked_timewarp.duplicate());
        TimewarpSelectionState { last_picked_timewarp: best.duplicate(), untransitioned_timewarp_heads: heads }
    }
}

/// Whether a chain step must be connected to the lifeline entry by a
/// found path: when it does not reference that entry directly.
pub fn needs_connecting_path(step: &TimewarpData, lifeline: &LifeLineData) -> (r: bool)
    ensures
        r == (step.target_spec() != lifeline.timewarp_tx@),
{
    step.target_hash() != lifeline.timewarp_tx
}

/// Whether to keep following a chain back towards the lifeline entry: not
/// yet at the entry, and still newer than it.
pub fn continue_towards_lifeline(step: &TimewarpData, lifeline: &LifeLineData) -> (r: bool)
    ensures
        r == (step.hash@ != lifeline.timewarp_tx@ && step.timestamp > lifeline.timestamp),
{
    step.hash != lifeline.timewarp_tx && step.timestamp > lifeline.timestamp
}

/// The lifeline entry of a chain step that connects to `lifeline` through
/// `connecting_txs` along `pathway`; its one path leads to the oldest
/// transaction that `lifeline` leads to (`lifeline` itself when it has no path).
pub fn connecting_lifeline_entry(
    step: &TimewarpData,
    lifeline: &LifeLineData,
    connecting_txs: Vec<String>,
    pathway: PathwayDescriptor,
) -> (r: LifeLineData)
    ensures
        r.timewarp_tx@ == step.hash@,
        r.timestamp == step.timestamp,
        r.unpinned_connecting_txs@ == connecting_txs@,
        r.paths@.len() == 1,
        r.paths@[0].oldest_timestamp == (if lifeline.paths@.len() == 0 {
            lifeline.timestamp
        } else {
            lifeline.paths@[0].oldest_timestamp
        }),
        r.paths@[0].transactions_till_oldest == 0,
        r.paths@[0].oldest_tx@ == (if lifeline.paths@.len() == 0 {
            lifeline.timewarp_tx@
        } else {
            lifeline.paths@[0].oldest_tx@
        }),
        r.paths@[0].connecting_pathway.model() == pathway.model(),
        r.paths@[0].connecting_timestamp == lifeline.timestamp,
        r.paths@[0].connecting_timewarp@ == lifeline.timewarp_tx@,
{
    let (oldest_timestamp, oldest_tx) = if lifeline.paths.len() == 0 {
        (lifeline.timestamp, lifeline.timewarp_tx.clone())
    } else {
        (lifeline.paths[0].oldest_timestamp, lifeline.paths[0].oldest_tx.clone())
    };
    let mut paths: Vec<LifeLinePathData> = Vec::new();
    paths.push(LifeLinePathData {
        oldest_timestamp,
        transactions_till_oldest: 0,
        oldest_tx,
        connecting_pathway: pathway,
        connecting_timestamp: lifeline.timestamp,
        connecting_timewarp: lifeline.timewarp_tx.clone(),
    });
    LifeLineData {
        timewarp_tx: step.hash.clone(),
        timestamp: step.timestamp,
        unpinned_connecting_txs: connecting_txs,
        paths,
    }
}

/// The first lifeline entry: the chain step itself, with no paths.
pub fn initial_lifeline_entry(data: &TimewarpData) -> (r: LifeLineData)
    ensures
        r.timewarp_tx@ == data.hash@,
        r.timestamp == data.timestamp,
        r.unpinned_connecting_txs@.len() == 0,
        r.paths@.len() == 0,
{
    LifeLineData { timewarp_tx: data.hash.clone(), timestamp: data.timestamp, unpinned_connecting_txs: Vec::new(), paths: Vec::new() }
}

/// The last of the first `n` chains that the leader names.
pub open spec fn last_leader_index(warps: Seq<TimewarpData>, n: int, leader: Seq<char>) -> int
    decreases n,
{
    if n <= 0 {
        -1
    } else if warps[n - 1].timewarpid@ == leader {
        n - 1
    } else {
        last_leader_index(warps, n - 1, leader)
    }
}

/// The leader decides: when the leader names one of the chains, the chain
/// chosen is the last one it names, whatever the scores.
pub proof fn lemma_leader_wins(
    warps: Seq<TimewarpData>,
    n: int,
    picked: Option<Seq<char>>,
    leader: Seq<char>,
    threshold: int,
)
    requires
        0 <= n <= warps.len(),
        last_leader_index(warps, n, leader) >= 0,
    ensures
        best_upto(warps, n, picked, Some(leader), threshold) == (
            Some(last_leader_index(warps, n, leader)),
            true,
        ),
    decreases n,
{
    if warps[n - 1].timewarpid@ != leader {
        lemma_leader_wins(warps, n - 1, picked, leader, threshold);
    }
}

/// A leader that names none of the chains is ignored: the choice is the one
/// made with no leader, the first chain of highest penalised score among
/// those that beat the empty record.
pub proof fn lemma_absent_leader_ignored(
    warps: Seq<TimewarpData>,
    n: int,
    picked: Option<Seq<char>>,
    leader: Seq<char>,
    threshold: int,
)
    requires
        0 <= n <= warps.len(),
        forall|j: int| 0 <= j < n ==> (#[trigger] warps[j]).timewarpid@ != leader,
    ensures
        best_upto(warps, n, picked, Some(leader), threshold) == best_upto(warps, n, picked, None, threshold),
    decreases n,
{
    if n > 0 {
        lemma_absent_leader_ignored(warps, n - 1, picked, leader, threshold);
        assert(warps[n - 1].timewarpid@ != leader);
        lemma_best_is_first_maximum(warps, n - 1, picked, threshold);
    }
}

/// Where the lifeline currently ends, as a new entry connects to it: its
/// transaction and time, and the oldest transaction it leads back to.
pub struct Anchor {
    pub tx: Seq<char>,
    pub ts: i64,
    pub oldest_tx: Seq<char>,
    pub oldest_ts: i64,
}

/// The abstract value of a lifeline entry with one path.
pub struct EntryView {
    pub tx: Seq<char>,
    pub ts: i64,
    pub unpinned: Seq<Seq<char>>,
    pub oldest_tx: Seq<char>,
    pub oldest_ts: i64,
    pub transactions_till_oldest: i64,
    pub pathway: PathwayModel,
    pub conn_ts: i64,
    pub conn_tx: Seq<char>,
}

/// The anchor of an existing lifeline entry: it leads back to the oldest
/// transaction of its first path (itself when it has no path).
pub open spec fn anchor_of(ll: LifeLineData) -> Anchor {
    Anchor {
        tx: ll.timewarp_tx@,
        ts: ll.timestamp,
        oldest_tx: if ll.paths@.len() == 0 { ll.timewarp_tx@ } else { ll.paths@[0].oldest_tx@ },
        oldest_ts: if ll.paths@.len() == 0 { ll.timestamp } else { ll.paths@[0].oldest_timestamp },
    }
}

/// The view of an entry by its first path.
pub open spec fn entry_view(e: LifeLineData) -> EntryView {
    EntryView {
        tx: e.timewarp_tx@,
        ts: e.timestamp,
        unpinned: texts(e.unpinned_connecting_txs@),
        oldest_tx: e.paths@[0].oldest_tx@,
        oldest_ts: e.paths@[0].oldest_timestamp,
        transactions_till_oldest: e.paths@[0].transactions_till_oldest,
        pathway: e.paths@[0].connecting_pathway.model(),
        conn_ts: e.paths@[0].connecting_timestamp,
        conn_tx: e.paths@[0].connecting_timewarp@,
    }
}

/// The one-step pathway to the trunk (`true`) or the branch, then the end.
pub open spec fn direct_pathway(trunk: bool) -> PathwayModel {
    model_add(
        model_add(PathwayModel { size: 0, tx_count: 0, fields: Seq::empty() }, if trunk { _T } else { _B }),
        _E,
    )
}

/// The view of a found connection: its transactions and its pathway.
pub open spec fn found_view(f: Option<(Vec<String>, PathwayDescriptor)>) -> Option<(Seq<Seq<char>>, PathwayModel)> {
    match f {
        Some(p) => Some((texts(p.0@), p.1.model())),
        None => None,
    }
}

/// The entries added when the chain steps `chain[k-1]`, ..., `chain[0]`
/// (past to present) are connected one after the other from anchor `a`.
/// A step that references the anchor connects directly (to its trunk or
/// branch, as `trunk` says); any other uses the connection found for it,
/// and is skipped when none was found.
pub open spec fn pick_entries(
    a: Anchor,
    chain: Seq<TimewarpData>,
    found: Seq<Option<(Seq<Seq<char>>, PathwayModel)>>,
    trunk: bool,
    k: int,
) -> Seq<EntryView>
    decreases k,
{
    if k <= 0 {
        Seq::empty()
    } else {
        let s = chain[k - 1];
        let conn = if s.target_spec() != a.tx {
            found[k - 1]
        } else {
            Some((Seq::<Seq<char>>::empty(), direct_pathway(trunk)))
        };
        match conn {
            None => pick_entries(a, chain, found, trunk, k - 1),
            Some((txs, p)) => seq![EntryView {
                tx: s.hash@,
                ts: s.timestamp,
                unpinned: txs,
                oldest_tx: a.oldest_tx,
                oldest_ts: a.oldest_ts,
                transactions_till_oldest: 0,
                pathway: p,
                conn_ts: a.ts,
                conn_tx: a.tx,
            }] + pick_entries(
                Anchor { tx: s.hash@, ts: s.timestamp, oldest_tx: a.oldest_tx, oldest_ts: a.oldest_ts },
                chain,
                found,
                trunk,
                k - 1,
            ),
        }
    }
}

/// A step that references the lifeline's end directly gets an entry (the
/// first one planned from that end) whose pathway is one step to the parent
/// the chain runs along, the trunk (`_T`) when `trunk` is set and else the
/// branch (`_B`), then the end mark; so, for a step of the chain's own
/// direction, the pathway's one step leads to the step's target. The entry
/// is the step's, connected to that end, with no transactions to pin.
pub proof fn lemma_direct_entry_follows_direction(
    a: Anchor,
    chain: Seq<TimewarpData>,
    found: Seq<Option<(Seq<Seq<char>>, PathwayModel)>>,
    trunk: bool,
    k: int,
)
    requires
        1 <= k <= chain.len(),
        chain[k - 1].target_spec() == a.tx,
    ensures
        ({
            let e = pick_entries(a, chain, found, trunk, k)[0];
            let s = chain[k - 1];
            &&& pick_entries(a, chain, found, trunk, k).len() >= 1
            &&& e.tx == s.hash@
            &&& e.conn_tx == a.tx
            &&& e.unpinned.len() == 0
            &&& model_steps(e.pathway) == seq![if trunk { _T } else { _B }, _E]
            &&& s.trunk_or_branch == trunk ==> (model_steps(e.pathway)[0] == _T <==> a.tx == s.trunk@)
                || s.trunk@ == s.branch@
        }),
{
    let empty = PathwayModel { size: 0, tx_count: 0, fields: Seq::empty() };
    let w = if trunk { _T } else { _B };
    assert(model_steps(empty) =~= Seq::<u8>::empty());
    lemma_add_appends_step(empty, w);
    lemma_add_appends_step(model_add(empty, w), _E);
    assert(Seq::<u8>::empty().push(w).push(_E) =~= seq![w, _E]);
}

/// The recorded chain steps from `key` back towards the lifeline head
/// `(ll_tx, ll_ts)`: each record reached by following targets, while it is
/// not the head and is newer than it, within `fuel` steps.
pub open spec fn chain_towards<P: TimewarpDetectionPersistence>(st: P, key: Seq<char>, ll_tx: Seq<char>, ll_ts: i64, fuel: nat) -> Seq<TimewarpData>
    decreases fuel,
{
    if fuel == 0 {
        Seq::empty()
    } else {
        match st.decision_of(key) {
            None => Seq::empty(),
            Some(u) => if u.hash@ == ll_tx || u.timestamp <= ll_ts {
                Seq::empty()
            } else {
                seq![u] + chain_towards(st, u.target_spec(), ll_tx, ll_ts, (fuel - 1) as nat)
            },
        }
    }
}

/// The newly picked step `data` followed by its recorded chain back towards
/// the lifeline head `ll` (present to past, at most `max_steps` steps after
/// `data`), as the lifeline entries for a newly picked chain are planned from.
pub fn follow_to_lifeline<P: TimewarpDetectionPersistence>(st: &P, data: &TimewarpData, ll: &LifeLineData, max_steps: usize) -> (r: Vec<TimewarpData>)
    ensures
        r@.len() >= 1,
        r@[0].same(*data),
        r@.len() - 1 == chain_towards(*st, data.target_spec(), ll.timewarp_tx@, ll.timestamp, max_steps as nat).len(),
        forall|i: int| 1 <= i < r@.len() ==> (#[trigger] r@[i]).same(chain_towards(*st, data.target_spec(), ll.timewarp_tx@, ll.timestamp, max_steps as nat)[i - 1]),
{
    let ghost goal = chain_towards(*st, data.target_spec(), ll.timewarp_tx@, ll.timestamp, max_steps as nat);
    let mut r: Vec<TimewarpData> = Vec::new();
    r.push(data.duplicate());
    let mut key = data.target_hash().clone();
    let mut fuel: usize = max_steps;
    let ghost mut acc: Seq<TimewarpData> = Seq::empty();
    assert(acc + chain_towards(*st, key@, ll.timewarp_tx@, ll.timestamp, fuel as nat) =~= goal);
    loop
        invariant
            goal == chain_towards(*st, data.target_spec(), ll.timewarp_tx@, ll.timestamp, max_steps as nat),
            goal == acc + chain_towards(*st, key@, ll.timewarp_tx@, ll.timestamp, fuel as nat),
            r@.len() == acc.len() + 1,
            r@[0].same(*data),
            forall|i: int| 1 <= i < r@.len() ==> (#[trigger] r@[i]).same(acc[i - 1]),
        decreases fuel,
    {
        if fuel == 0 {
            assert(acc =~= goal);
            return r;
        }
        let u = match st.tw_detection_get_decision_data(key.clone()) {
            Some(u) => u,
            None => {
                assert(acc =~= goal);
                return r;
            },
        };
        let ghost rec = st.decision_of(key@)->0;
        if u.hash == ll.timewarp_tx || u.timestamp <= ll.timestamp {
            assert(acc =~= goal);
            return r;
        }
        let next = u.target_hash().clone();
        assert(next@ == rec.target_spec());
        let ghost r0 = r@;
        r.push(u);
        proof {
            assert(acc.push(rec) + chain_towards(*st, next@, ll.timewarp_tx@, ll.timestamp, (fuel - 1) as nat) =~= goal);
            acc = acc.push(rec);
            assert forall|i: int| 1 <= i < r@.len() implies (#[trigger] r@[i]).same(acc[i - 1]) by {
                if i < r0.len() {
                    assert(r@[i] == r0[i]);
                }
            }
        }
        key = next;
        fuel = fuel - 1;
    }
}

/// The lifeline entries to add for a newly picked chain step `data`: the
/// first entry of the lifeline when there is none (`last` is `None`);
/// else, from past to present, one entry per step of `chain` (present to
/// past, `chain[0]` the newest) that connects to the lifeline, where
/// `found[j]` is the path found from `chain[j]` to the entry before it.
pub fn plan_newly_pick(
    data: &TimewarpData,
    last: Option<&LifeLineData>,
    chain: &Vec<TimewarpData>,
    found: Vec<Option<(Vec<String>, PathwayDescriptor)>>,
) -> (r: Vec<LifeLineData>)
    requires
        found@.len() == chain@.len(),
    ensures
        last is None ==> r@.len() == 1 && r@[0].timewarp_tx@ == data.hash@ && r@[0].timestamp == data.timestamp
            && r@[0].unpinned_connecting_txs@.len() == 0 && r@[0].paths@.len() == 0,
        last matches Some(ll) ==> ({
            let plan = pick_entries(
                anchor_of(*ll),
                chain@,
                found@.map_values(|f: Option<(Vec<String>, PathwayDescriptor)>| found_view(f)),
                data.trunk_or_branch,
                chain@.len() as int,
            );
            &&& r@.len() == plan.len()
            &&& forall|i: int| 0 <= i < r@.len() ==> (#[trigger] r@[i]).paths@.len() == 1 && entry_view(r@[i]) == plan[i]
        }),
{
    let ll = match last {
        None => {
            let mut r: Vec<LifeLineData> = Vec::new();
            r.push(initial_lifeline_entry(data));
            return r;
        },
        Some(ll) => ll,
    };
    let ghost fv = found@.map_values(|f: Option<(Vec<String>, PathwayDescriptor)>| found_view(f));
    let ghost total = pick_entries(anchor_of(*ll), chain@, fv, data.trunk_or_branch, chain@.len() as int);
    let mut cur_tx = ll.timewarp_tx.clone();
    let mut cur_ts = ll.timestamp;
    let (oldest_ts, oldest_tx) = if ll.paths.len() == 0 {
        (ll.timestamp, ll.timewarp_tx.clone())
    } else {
        (ll.paths[0].oldest_timestamp, ll.paths[0].oldest_tx.clone())
    };
    let mut rest = found;
    let mut r: Vec<LifeLineData> = Vec::new();
    let mut j = chain.len();
    while j > 0
        invariant
            j <= chain@.len(),
            rest@.len() == j,
            forall|q: int| 0 <= q < j ==> found_view(#[trigger] rest@[q]) == fv[q],
            fv.len() == chain@.len(),
            total == pick_entries(anchor_of(*ll), chain@, fv, data.trunk_or_branch, chain@.len() as int),
            forall|q: int| 0 <= q < r@.len() ==> (#[trigger] r@[q]).paths@.len() == 1,
            r@.map_values(|e: LifeLineData| entry_view(e)) + pick_entries(
                Anchor { tx: cur_tx@, ts: cur_ts, oldest_tx: oldest_tx@, oldest_ts },
                chain@,
                fv,
                data.trunk_or_branch,
                j as int,
            ) == total,
        decreases j,
    {
        let ghost a = Anchor { tx: cur_tx@, ts: cur_ts, oldest_tx: oldest_tx@, oldest_ts };
        let ghost before = r@;
        let f = rest.pop().unwrap();
        let step = &chain[j - 1];
        let conn = if needs_connecting_path(step, &LifeLineData {
            timewarp_tx: cur_tx.clone(),
            timestamp: cur_ts,
            unpinned_connecting_txs: Vec::new(),
            paths: Vec::new(),
        }) {
            f
        } else {
            let p = if data.trunk_or_branch {
                PathwayDescriptor::trunk()
            } else {
                PathwayDescriptor::branch()
            };
            let none: Vec<String> = Vec::new();
            proof {
                assert(texts(none@) =~= Seq::<Seq<char>>::empty());
            }
            Some((none, p))
        };
        proof {
            assert(found_view(f) == fv[j - 1]);
        }
        match conn {
            None => {},
            Some(c) => {
                let (txs, p) = c;
                let mut paths: Vec<LifeLinePathData> = Vec::new();
                paths.push(LifeLinePathData {
                    oldest_timestamp: oldest_ts,
                    transactions_till_oldest: 0,
                    oldest_tx: oldest_tx.clone(),
                    connecting_pathway: p,
                    connecting_timestamp: cur_ts,
                    connecting_timewarp: cur_tx.clone(),
                });
                let e = LifeLineData {
                    timewarp_tx: step.hash.clone(),
                    timestamp: step.timestamp,
                    unpinned_connecting_txs: txs,
                    paths,
                };
                cur_tx = step.hash.clone();
                cur_ts = step.timestamp;
                r.push(e);
                proof {
                    assert(r@.map_values(|e: LifeLineData| entry_view(e)) =~= before.map_values(
                        |e: LifeLineData| entry_view(e),
                    ).push(entry_view(r@.last())));
                }
            },
        }
        proof {
            let next = pick_entries(
                Anchor { tx: cur_tx@, ts: cur_ts, oldest_tx: oldest_tx@, oldest_ts },
                chain@,
                fv,
                data.trunk_or_branch,
                j - 1,
            );
            let bv = before.map_values(|e: LifeLineData| entry_view(e));
            if r@.len() > before.len() {
                assert(bv.push(entry_view(r@.last())) + next =~= bv + (seq![entry_view(r@.last())] + next));
            } else {
                assert(r@ == before);
            }
        }
        j = j - 1;
    }
    proof {
        assert(r@.map_values(|e: LifeLineData| entry_view(e)) + Seq::<EntryView>::empty()
            =~= r@.map_values(|e: LifeLineData| entry_view(e)));
    }
    r
}

/// Without a leader the choice is the first chain of highest penalised
/// score, among those that beat the empty record; none when no chain does.
pub proof fn lemma_best_is_first_maximum(
    warps: Seq<TimewarpData>,
    n: int,
    picked: Option<Seq<char>>,
    threshold: int,
)
    requires
        0 <= n <= warps.len(),
    ensures
        ({
            let (sel, leader_chosen) = best_upto(warps, n, picked, None, threshold);
            let base = 0 - penalty(Seq::empty(), picked, threshold);
            &&& !leader_chosen
            &&& match sel {
                Some(i) => {
                    &&& 0 <= i < n
                    &&& adjusted(warps[i], picked, threshold) > base
                    &&& forall|j: int| 0 <= j < n ==> adjusted(#[trigger] warps[j], picked, threshold) <= adjusted(warps[i], picked, threshold)
                    &&& forall|j: int| 0 <= j < i ==> adjusted(#[trigger] warps[j], picked, threshold) < adjusted(warps[i], picked, threshold)
                },
                None => forall|j: int| 0 <= j < n ==> adjusted(#[trigger] warps[j], picked, threshold) <= base,
            }
        }),
    decreases n,
{
    if n > 0 {
        lemma_best_is_first_maximum(warps, n - 1, picked, threshold);
    }
}

} // verus!
