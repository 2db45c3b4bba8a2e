//! The pull jobs cached along the lifeline subgraph's edges.
use vstd::prelude::*;
use crate::aionmodel::lifeline_subgraph::{copy_event, missing_bounds_error, processed, pull_job_cache_edges, split_possible, vertex_models, GraphEntryEvent};
use crate::indexstorage::{first_path_towards, LifeLineData, LifeLinePathData, PinDescriptor};
use crate::memstore::MemoryLifelineStore;
use crate::pathway::{model_add_all, tx_increment_of};
use crate::strmap::StrMap;
use crate::transactionpulling::{hop_steps, hop_transitions, lemma_hop_steps_grow, no_steps, pull_job_descriptor};

verus! {

/// The paths walked along the lifeline from entry `start` towards `end`:
/// from each entry, its first path towards `end`, on to the transaction
/// that path connects to, until that is `end`; within `fuel` hops. `None`
/// where an entry is not held, has no path towards `end`, or the fuel runs out.
pub open spec fn lifeline_walk(entries: Map<Seq<char>, LifeLineData>, start: Seq<char>, end: Seq<char>, fuel: nat) -> Option<Seq<LifeLinePathData>>
    decreases fuel,
{
    if fuel == 0 || !entries.dom().contains(start) {
        None
    } else {
        let paths = entries[start].paths@;
        if exists|i: int| first_path_towards(paths, end, i) {
            let i = choose|i: int| first_path_towards(paths, end, i);
            let p = paths[i];
            if p.connecting_timewarp@ == end {
                Some(seq![p])
            } else {
                match lifeline_walk(entries, p.connecting_timewarp@, end, (fuel - 1) as nat) {
                    Some(rest) => Some(seq![p] + rest),
                    None => None,
                }
            }
        } else {
            None
        }
    }
}

/// `acc` before the walk `o`, when there is one.
pub open spec fn after(acc: Seq<LifeLinePathData>, o: Option<Seq<LifeLinePathData>>) -> Option<Seq<LifeLinePathData>> {
    match o {
        Some(rest) => Some(acc + rest),
        None => None,
    }
}

/// Both lists hold paths with the same values, in order.
pub open spec fn same_paths(a: Seq<LifeLinePathData>, b: Seq<LifeLinePathData>) -> bool {
    &&& a.len() == b.len()
    &&& forall|i: int| 0 <= i < a.len() ==> (#[trigger] a[i]).same(b[i])
}

/// The hops can be cached as one pull job: every pathway is well formed
/// and its count fits, and all the steps fit the counters.
pub open spec fn hops_fit(hops: Seq<LifeLinePathData>) -> bool {
    &&& forall|i: int| 0 <= i < hops.len() ==> (#[trigger] hops[i]).connecting_pathway.wf()
        && hops[i].connecting_pathway.tx_count <= i64::MAX
    &&& 2 * hop_steps(hops, hops.len() as int).len() + 2 <= i64::MAX
    &&& 2 * hop_steps(hops, hops.len() as int).len() + 2 <= usize::MAX
}

/// The edges whose pull jobs an event caches, as `pull_job_cache_edges` lists them.
pub open spec fn cache_edges(event: GraphEntryEvent) -> Seq<(Seq<char>, Seq<char>)> {
    match (event.between_start, event.between_end) {
        (Some(bs), Some(es)) => seq![(bs@, event.txid@), (event.txid@, es@), (event.txid@, event.target_tx_id@)],
        (None, None) => Seq::empty(),
        _ => seq![(event.txid@, event.target_tx_id@)],
    }
}

/// The edge from `s` to `e` can be cached: both are vertices of the
/// subgraph, the lifeline walks from `s` to `e`, and its hops fit.
pub open spec fn cacheable(st: MemoryLifelineStore, s: Seq<char>, e: Seq<char>) -> bool {
    &&& st.subgraph.vertices@.dom().contains(s)
    &&& st.subgraph.vertices@.dom().contains(e)
    &&& lifeline_walk(st.entries@, s, e, st.entries@.dom().len()) matches Some(w) && hops_fit(w)
}

/// `d` is the pull job cached from `s` to `e`: the pathways of the walk one
/// after the other, with the start and end times of the vertices and the
/// transitions of the hops of more than one transaction.
pub open spec fn cached_job(st: MemoryLifelineStore, s: Seq<char>, e: Seq<char>, d: PinDescriptor) -> bool {
    let w = lifeline_walk(st.entries@, s, e, st.entries@.dom().len())->0;
    &&& d.lifeline_tx@ == s
    &&& d.timestamp == 0
    &&& d.pathway.model() == model_add_all(no_steps(), hop_steps(w, w.len() as int))
    &&& d.endpoints@.len() == 0
    &&& d.dependant@ == Seq::<char>::empty()
    &&& d.lifeline_component matches Some(c) && c.lifeline_start_tx@ == s && c.lifeline_end_tx@ == e
        && c.lifeline_start_ts == st.subgraph.vertices@[s].timestamp
        && c.lifeline_end_ts == st.subgraph.vertices@[e].timestamp
        && c.lifeline_transitions@ == hop_transitions(w, w.len() as int)
}

/// The descriptor cached from `s` to `e`, when there is one.
pub open spec fn cache_entry(cache: Map<Seq<char>, StrMap<PinDescriptor>>, s: Seq<char>, e: Seq<char>) -> Option<PinDescriptor> {
    if cache.dom().contains(s) && cache[s]@.dom().contains(e) {
        Some(cache[s]@[e])
    } else {
        None
    }
}

proof fn lemma_same_hops(a: Seq<LifeLinePathData>, b: Seq<LifeLinePathData>, k: int)
    requires
        same_paths(a, b),
        0 <= k <= a.len(),
    ensures
        hop_steps(a, k) == hop_steps(b, k),
        hop_transitions(a, k) == hop_transitions(b, k),
    decreases k,
{
    if k > 0 {
        lemma_same_hops(a, b, k - 1);
        assert(a[k - 1].connecting_pathway.steps() =~= b[k - 1].connecting_pathway.steps());
    }
}

/// Whether the hops can be cached as one pull job.
fn hops_fit_exec(hops: &Vec<LifeLinePathData>) -> (r: bool)
    ensures
        r == hops_fit(hops@),
{
    let limit: u64 = 0x3fff_ffff_ffff_fffe;
    let mut total: u64 = 0;
    let mut i: usize = 0;
    while i < hops.len()
        invariant
            i <= hops@.len(),
            limit == 0x3fff_ffff_ffff_fffe,
            total == hop_steps(hops@, i as int).len(),
            total <= limit,
            forall|q: int| 0 <= q < i ==> (#[trigger] hops@[q]).connecting_pathway.wf()
                && hops@[q].connecting_pathway.tx_count <= i64::MAX,
        decreases hops@.len() - i,
    {
        let p = &hops[i].connecting_pathway;
        let n = p.fields.len();
        let wf = if n > usize::MAX / 4 { true } else { p.size <= 4 * n };
        if !wf || p.tx_count as u64 > i64::MAX as u64 {
            return false;
        }
        let size = p.size as u64;
        proof {
            assert(hop_steps(hops@, i + 1) == hop_steps(hops@, i as int) + hops@[i as int].connecting_pathway.steps());
        }
        if size > limit - total {
            proof {
                lemma_hop_steps_grow(hops@, i + 1, hops@.len() as int);
            }
            return false;
        }
        total = total + size;
        i = i + 1;
    }
    2 * total + 2 <= usize::MAX as u64
}

impl MemoryLifelineStore {
    /// The hops of the walk along the lifeline from `start` to `end`.
    pub fn collect_hops(&self, start: &String, end: &String) -> (r: Result<Vec<LifeLinePathData>, String>)
        ensures
            match lifeline_walk(self.entries@, start@, end@, self.entries@.dom().len()) {
                Some(w) => r matches Ok(h) && same_paths(h@, w),
                None => r is Err,
            },
    {
        let total = self.entries.len();
        let ghost entries = self.entries@;
        let ghost goal = lifeline_walk(entries, start@, end@, total as nat);
        let mut fuel: usize = total;
        let mut cur = start.clone();
        let mut hops: Vec<LifeLinePathData> = Vec::new();
        let ghost mut acc: Seq<LifeLinePathData> = Seq::empty();
        assert(after(acc, lifeline_walk(entries, cur@, end@, fuel as nat)) =~= goal);
        loop
            invariant
                entries == self.entries@,
                goal == lifeline_walk(entries, start@, end@, entries.dom().len()),
                goal == after(acc, lifeline_walk(entries, cur@, end@, fuel as nat)),
                same_paths(hops@, acc),
            decreases fuel,
        {
            if fuel == 0 {
                return Err("No path to end".to_owned());
            }
            let l = match self.entries.get(&cur) {
                Some(l) => l,
                None => {
                    return Err("Reference to exist".to_owned());
                },
            };
            let p = match l.walk_towards(end.clone()) {
                Some(p) => p,
                None => {
                    proof {
                        if exists|i: int| first_path_towards(entries[cur@].paths@, end@, i) {
                            let i = choose|i: int| first_path_towards(entries[cur@].paths@, end@, i);
                            assert(entries[cur@].paths@[i].oldest_tx@ != end@);
                        }
                    }
                    return Err("No path to end".to_owned());
                },
            };
            let ghost paths = entries[cur@].paths@;
            let ghost pi = choose|i: int| first_path_towards(paths, end@, i) && p.same(#[trigger] paths[i]);
            proof {
                let ci = choose|i: int| first_path_towards(paths, end@, i);
                if ci != pi {
                    if ci < pi {
                        assert(paths[ci].oldest_tx@ != end@);
                    } else {
                        assert(paths[pi].oldest_tx@ != end@);
                    }
                }
            }
            let next = p.connecting_timewarp.clone();
            let ghost h0 = hops@;
            hops.push(p);
            proof {
                let before = acc;
                acc = acc.push(paths[pi]);
                assert forall|i: int| 0 <= i < hops@.len() implies (#[trigger] hops@[i]).same(acc[i]) by {
                    if i < before.len() {
                        assert(hops@[i] == h0[i]);
                    }
                }
            }
            if next == *end {
                proof {
                    assert(goal == Some(acc));
                }
                return Ok(hops);
            }
            proof {
                assert(after(acc, lifeline_walk(entries, next@, end@, (fuel - 1) as nat)) == goal) by {
                    match lifeline_walk(entries, next@, end@, (fuel - 1) as nat) {
                        Some(rest) => {
                            assert(acc.drop_last() + (seq![paths[pi]] + rest) =~= acc + rest);
                        },
                        None => {},
                    }
                }
            }
            cur = next;
            fuel = fuel - 1;
        }
    }

    /// Takes an event of the lifeline subgraph: the subgraph takes it (a
    /// split that cannot be made is refused, with nothing changed) and,
    /// once taken, the pull jobs along its edges are cached where they can
    /// be; a failure to cache leaves the event taken.
    pub fn process_subgraph_event(&mut self, event: GraphEntryEvent) -> (r: Result<(), String>)
        ensures
            (old(self).subgraph.vertices@.dom().len() != 0 && event.between_start is Some && event.between_end is Some
                && !split_possible(vertex_models(old(self).subgraph.vertices@), event)) ==> (r is Err && *final(self) == *old(self)),
            (old(self).subgraph.vertices@.dom().len() == 0 || !(event.between_start is Some && event.between_end is Some)
                || split_possible(vertex_models(old(self).subgraph.vertices@), event)) ==> processed(old(self).subgraph, final(self).subgraph, event, r),
            (r is Ok && cache_edges(event).len() > 0 && forall|i: int| 0 <= i < cache_edges(event).len()
                ==> cacheable(*final(self), #[trigger] cache_edges(event)[i].0, cache_edges(event)[i].1)) ==> forall|i: int| 0 <= i < cache_edges(event).len()
                ==> (cache_entry(final(self).pull_cache@, #[trigger] cache_edges(event)[i].0, cache_edges(event)[i].1) matches Some(d)
                && cached_job(*final(self), cache_edges(event)[i].0, cache_edges(event)[i].1, d)),
            final(self).entries == old(self).entries,
            final(self).blocks == old(self).blocks,
            final(self).unpinned == old(self).unpinned,
            final(self).last == old(self).last,
            final(self).clustering == old(self).clustering,
    {
        if !self.subgraph.vertices.is_empty() && event.between_start.is_some() && event.between_end.is_some()
            && !self.subgraph.can_split(&event) {
            return Err("The edge cannot be split".to_owned());
        }
        let ev = copy_event(&event);
        assert(cache_edges(ev) == cache_edges(event));
        let r = self.subgraph.process_event(event);
        if r.is_ok() {
            let _cached = self.set_pull_job_cache(&ev);
        }
        r
    }

    /// The index the next subgraph event takes.
    pub fn new_index(&self) -> (r: i64)
        requires
            self.subgraph.current_index < i64::MAX,
        ensures
            r == self.subgraph.current_index + 1,
    {
        self.subgraph.current_index + 1
    }

    /// Whether a transaction is a vertex of the subgraph.
    pub fn is_in_graph(&self, start: &String) -> (r: bool)
        ensures
            r == self.subgraph.vertices@.dom().contains(start@),
    {
        self.subgraph.vertices.contains_key(start)
    }

    /// The pull job cached from `start` to `end`.
    pub fn get_pull_job_cache(&self, start: &String, end: &String) -> (r: Option<PinDescriptor>)
        ensures
            match cache_entry(self.pull_cache@, start@, end@) {
                Some(d) => r matches Some(c) && c.same(d),
                None => r is None,
            },
    {
        match self.pull_cache.get(start) {
            Some(inner) => match inner.get(end) {
                Some(d) => Some(d.duplicate()),
                None => None,
            },
            None => None,
        }
    }

    /// Caches the pull jobs along the edges that `event` adds (as
    /// `pull_job_cache_edges` lists them), each the pathway of the lifeline
    /// walk between its ends. Refused at the first edge whose ends are not
    /// both vertices of the subgraph or that the lifeline does not walk;
    /// the edges before it stay cached.
    pub fn set_pull_job_cache(&mut self, event: &GraphEntryEvent) -> (r: Result<(), String>)
        ensures
            (event.between_start is None && event.between_end is None) ==> (r matches Err(m) && m@ == missing_bounds_error()),
            r is Ok <==> (cache_edges(*event).len() > 0 && forall|i: int| 0 <= i < cache_edges(*event).len()
                ==> cacheable(*old(self), #[trigger] cache_edges(*event)[i].0, cache_edges(*event)[i].1)),
            r is Ok ==> forall|i: int| 0 <= i < cache_edges(*event).len() ==> (cache_entry(
                final(self).pull_cache@,
                #[trigger] cache_edges(*event)[i].0,
                cache_edges(*event)[i].1,
            ) matches Some(d) && cached_job(*old(self), cache_edges(*event)[i].0, cache_edges(*event)[i].1, d)),
            final(self).entries == old(self).entries,
            final(self).subgraph == old(self).subgraph,
            final(self).blocks == old(self).blocks,
            final(self).unpinned == old(self).unpinned,
            final(self).last == old(self).last,
            final(self).clustering == old(self).clustering,
    {
        let edges = match pull_job_cache_edges(event) {
            Ok(v) => v,
            Err(m) => {
                return Err(m);
            },
        };
        let ghost st0 = *self;
        let ghost ce = cache_edges(*event);
        assert(edges@.len() == ce.len());
        assert forall|q: int| 0 <= q < ce.len() implies (#[trigger] edges@[q]).0@ == ce[q].0 && edges@[q].1@ == ce[q].1 by {}
        let mut k: usize = 0;
        while k < edges.len()
            invariant
                k <= edges@.len(),
                edges@.len() == ce.len(),
                ce == cache_edges(*event),
                st0 == *old(self),
                ce.len() > 0,
                forall|q: int| 0 <= q < ce.len() ==> (#[trigger] edges@[q]).0@ == ce[q].0 && edges@[q].1@ == ce[q].1,
                self.entries == st0.entries,
                self.subgraph == st0.subgraph,
                self.blocks == st0.blocks,
                self.unpinned == st0.unpinned,
                self.last == st0.last,
                self.clustering == st0.clustering,
                forall|q: int| 0 <= q < k ==> cacheable(st0, #[trigger] ce[q].0, ce[q].1),
                forall|q: int| 0 <= q < k ==> (cache_entry(self.pull_cache@, #[trigger] ce[q].0, ce[q].1) matches Some(d)
                    && cached_job(st0, ce[q].0, ce[q].1, d)),
            decreases edges@.len() - k,
        {
            let s = &edges[k].0;
            let e = &edges[k].1;
            let sv = self.subgraph.vertices.get(s);
            let ev = self.subgraph.vertices.get(e);
            let (s_ts, e_ts) = match (sv, ev) {
                (Some(a), Some(b)) => (a.timestamp, b.timestamp),
                _ => {
                    assert(!cacheable(st0, ce[k as int].0, ce[k as int].1));
                    return Err("start and/or end transaction do not appear in subgraph".to_owned());
                },
            };
            let hops = match self.collect_hops(s, e) {
                Ok(h) => h,
                Err(m) => {
                    assert(!cacheable(st0, ce[k as int].0, ce[k as int].1));
                    return Err(m);
                },
            };
            let ghost w = lifeline_walk(self.entries@, s@, e@, self.entries@.dom().len())->0;
            proof {
                lemma_same_hops(hops@, w, hops@.len() as int);
            }
            if !hops_fit_exec(&hops) {
                proof {
                    assert forall|q: int| 0 <= q < hops@.len() implies (#[trigger] w[q]).connecting_pathway.model() == hops@[q].connecting_pathway.model() by {}
                    if hops_fit(w) {
                        assert forall|q: int| 0 <= q < hops@.len() implies (#[trigger] hops@[q]).connecting_pathway.wf()
                            && hops@[q].connecting_pathway.tx_count <= i64::MAX by {
                            assert(w[q].connecting_pathway.wf());
                        }
                    }
                    assert(!cacheable(st0, ce[k as int].0, ce[k as int].1));
                }
                return Err("The path is too long to pull".to_owned());
            }
            proof {
                assert forall|q: int| 0 <= q < w.len() implies (#[trigger] w[q]).connecting_pathway.wf()
                    && w[q].connecting_pathway.tx_count <= i64::MAX by {
                    assert(hops@[q].same(w[q]));
                }
                assert(cacheable(st0, ce[k as int].0, ce[k as int].1));
            }
            let d = pull_job_descriptor(s.clone(), e.clone(), s_ts, e_ts, &hops);
            let ghost c_orig = self.pull_cache@;
            let mut inner = match self.pull_cache.remove(s) {
                Some(m) => m,
                None => StrMap::new(),
            };
            let ghost i0 = inner@;
            assert(c_orig.dom().contains(s@) ==> i0 == c_orig[s@]@);
            assert(!c_orig.dom().contains(s@) ==> i0 == Map::<Seq<char>, PinDescriptor>::empty());
            inner.insert(e.clone(), d);
            self.pull_cache.insert(s.clone(), inner);
            proof {
                assert(cached_job(st0, ce[k as int].0, ce[k as int].1, d));
                assert forall|q: int| 0 <= q < k + 1 implies (cache_entry(self.pull_cache@, #[trigger] ce[q].0, ce[q].1) matches Some(dd)
                    && cached_job(st0, ce[q].0, ce[q].1, dd)) by {
                    if q < k && !(ce[q].0 == s@ && ce[q].1 == e@) {
                        assert(cache_entry(self.pull_cache@, ce[q].0, ce[q].1) == cache_entry(c_orig, ce[q].0, ce[q].1));
                    }
                }
            }
            k = k + 1;
        }
        Ok(())
    }
}

} // verus!
