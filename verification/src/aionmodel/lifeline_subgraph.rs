//! The graph of lifeline transactions joined by the pathways found between them.
use vstd::prelude::*;
use crate::strmap::StrMap;

verus! {

/// A new connection between lifeline transactions, as a pull job reports it:
/// `txid` reaches `target_tx_id`, and both lie between `between_start`
/// (newer) and `between_end` (older).
pub struct GraphEntryEvent {
    pub index: i64,
    pub timewarp_id: String,
    pub txid: String,
    pub timestamp: i64,
    pub tx_distance_count: i64,
    pub target_tx_id: String,
    pub target_timestamp: i64,
    pub between_start: Option<String>,
    pub between_end: Option<String>,
}

/// The distance along one edge, in transactions and in seconds.
#[derive(Clone, Copy, Debug, PartialEq, Eq, Structural)]
pub struct GraphEdge {
    pub tx_distance: i64,
    pub time_distance: i64,
}

/// A lifeline transaction with its edges: those that point to it and those
/// it points to.
pub struct GraphVertex {
    pub reference_me: StrMap<GraphEdge>,
    pub i_reference: StrMap<GraphEdge>,
    pub timestamp: i64,
}

/// The abstract value of a vertex.
pub struct VertexModel {
    pub reference_me: Map<Seq<char>, GraphEdge>,
    pub i_reference: Map<Seq<char>, GraphEdge>,
    pub timestamp: i64,
}

impl GraphVertex {
    pub open spec fn model(&self) -> VertexModel {
        VertexModel { reference_me: self.reference_me@, i_reference: self.i_reference@, timestamp: self.timestamp }
    }
}

pub struct LifelineSubGraph {
    pub current_latest: String,
    pub top_level_txcount_cutoff: i64,
    pub lastest_and_top_connected: bool,
    pub top_level: String,
    pub current_index: i64,
    pub vertices: StrMap<GraphVertex>,
}

/// The vertices of a graph by their abstract values.
pub open spec fn vertex_models(m: Map<Seq<char>, GraphVertex>) -> Map<Seq<char>, VertexModel> {
    m.map_values(|v: GraphVertex| v.model())
}

/// An edge whose transaction distance is not counted yet.
pub open spec fn time_edge(t: int) -> GraphEdge {
    GraphEdge { tx_distance: 0, time_distance: t as i64 }
}

/// `start` with its edge to `end` replaced by an edge to `x`.
pub open spec fn relinked_start(a: VertexModel, end: Seq<char>, x: Seq<char>, t: int) -> VertexModel {
    VertexModel { i_reference: a.i_reference.remove(end).insert(x, time_edge(t)), ..a }
}

/// `end` with its edge from `start` replaced by an edge from `x`.
pub open spec fn relinked_end(d: VertexModel, start: Seq<char>, x: Seq<char>, t: int) -> VertexModel {
    VertexModel { reference_me: d.reference_me.remove(start).insert(x, time_edge(t)), ..d }
}

/// The vertices after inserting `x` = `ev.txid` into the edge from `start`
/// to `end`: `start` now points to `x`, `x` points to its target and to
/// `end`, and `end` is pointed to by `x`.
pub open spec fn split_model(m: Map<Seq<char>, VertexModel>, ev: GraphEntryEvent) -> Map<Seq<char>, VertexModel> {
    let s = ev.between_start->0@;
    let e = ev.between_end->0@;
    let x = ev.txid@;
    let ts = ev.timestamp as int;
    let m1 = m.insert(s, relinked_start(m[s], e, x, ts - ev.target_timestamp));
    let xv = VertexModel {
        reference_me: Map::empty().insert(s, time_edge(m[s].timestamp - ts)),
        i_reference: Map::empty().insert(ev.target_tx_id@, time_edge(ts - ev.target_timestamp)).insert(
            e,
            time_edge(ts - m1[e].timestamp),
        ),
        timestamp: ev.timestamp,
    };
    let m2 = m1.insert(x, xv);
    m2.insert(e, relinked_end(m2[e], s, x, ts - m2[e].timestamp))
}

/// What `split_model` needs: both ends are present, joined by an edge, and
/// every time difference it records fits in 64 bits.
pub open spec fn split_possible(m: Map<Seq<char>, VertexModel>, ev: GraphEntryEvent) -> bool {
    let s = ev.between_start->0@;
    let e = ev.between_end->0@;
    let x = ev.txid@;
    let ts = ev.timestamp as int;
    &&& ev.between_start is Some
    &&& ev.between_end is Some
    &&& m.dom().contains(s)
    &&& m.dom().contains(e)
    &&& m[s].i_reference.dom().contains(e)
    &&& (x == e || m[e].reference_me.dom().contains(s))
    &&& i64::MIN <= ts - ev.target_timestamp <= i64::MAX
    &&& i64::MIN <= m[s].timestamp - ts <= i64::MAX
    &&& i64::MIN <= ts - m[e].timestamp <= i64::MAX
}

proof fn lemma_models_insert(m: Map<Seq<char>, GraphVertex>, k: Seq<char>, v: GraphVertex)
    ensures
        vertex_models(m.insert(k, v)) == vertex_models(m).insert(k, v.model()),
{
    assert(vertex_models(m.insert(k, v)) =~= vertex_models(m).insert(k, v.model()));
}

proof fn lemma_models_remove(m: Map<Seq<char>, GraphVertex>, k: Seq<char>)
    ensures
        vertex_models(m.remove(k)) == vertex_models(m).remove(k),
{
    assert(vertex_models(m.remove(k)) =~= vertex_models(m).remove(k));
}

/// A string copied out of an option that holds one.
fn unwrap_copy(o: &Option<String>) -> (r: String)
    requires
        o is Some,
    ensures
        r@ == o->0@,
{
    match o {
        Some(s) => s.clone(),
        None => String::new(),
    }
}

/// What taking an event does to a subgraph: the first event (index 0)
/// starts it with its transaction alone; a later event splits the edge it
/// names; an event without both ends is refused.
pub open spec fn processed(o: LifelineSubGraph, f: LifelineSubGraph, event: GraphEntryEvent, r: Result<(), String>) -> bool {
    &&& o.vertices@.dom().len() == 0 ==> (if event.index != 0 {
        r matches Err(msg) && msg@ == first_index_error() && vertex_models(f.vertices@) == vertex_models(o.vertices@)
            && f.top_level@ == o.top_level@
    } else {
        r is Ok && vertex_models(f.vertices@) == Map::<Seq<char>, VertexModel>::empty().insert(
            event.txid@,
            lone_vertex(event.timestamp),
        ) && f.top_level@ == event.txid@
    })
    &&& o.vertices@.dom().len() != 0 ==> match (event.between_start, event.between_end) {
        (Some(_), Some(_)) => r is Ok && vertex_models(f.vertices@) == split_model(vertex_models(o.vertices@), event)
            && f.top_level@ == o.top_level@,
        (Some(_), None) => r matches Err(msg) && msg@ == missing_end_error() && vertex_models(f.vertices@)
            == vertex_models(o.vertices@) && f.top_level@ == o.top_level@,
        (None, _) => r matches Err(msg) && msg@ == missing_start_error() && vertex_models(f.vertices@)
            == vertex_models(o.vertices@) && f.top_level@ == o.top_level@,
    }
    &&& f.current_latest@ == o.current_latest@
    &&& f.current_index == o.current_index
    &&& f.top_level_txcount_cutoff == o.top_level_txcount_cutoff
    &&& f.lastest_and_top_connected == o.lastest_and_top_connected
}

/// A copy of an event.
pub fn copy_event(e: &GraphEntryEvent) -> (r: GraphEntryEvent)
    ensures
        r.index == e.index,
        r.timewarp_id@ == e.timewarp_id@,
        r.txid@ == e.txid@,
        r.timestamp == e.timestamp,
        r.tx_distance_count == e.tx_distance_count,
        r.target_tx_id@ == e.target_tx_id@,
        r.target_timestamp == e.target_timestamp,
        r.between_start is Some <==> e.between_start is Some,
        r.between_start matches Some(x) ==> x@ == e.between_start->0@,
        r.between_end is Some <==> e.between_end is Some,
        r.between_end matches Some(x) ==> x@ == e.between_end->0@,
{
    GraphEntryEvent {
        index: e.index,
        timewarp_id: e.timewarp_id.clone(),
        txid: e.txid.clone(),
        timestamp: e.timestamp,
        tx_distance_count: e.tx_distance_count,
        target_tx_id: e.target_tx_id.clone(),
        target_timestamp: e.target_timestamp,
        between_start: match &e.between_start {
            Some(x) => Some(x.clone()),
            None => None,
        },
        between_end: match &e.between_end {
            Some(x) => Some(x.clone()),
            None => None,
        },
    }
}

impl LifelineSubGraph {
    /// Whether the edge an event names can be split by it.
    pub fn can_split(&self, ev: &GraphEntryEvent) -> (r: bool)
        ensures
            r == split_possible(vertex_models(self.vertices@), *ev),
    {
        match (&ev.between_start, &ev.between_end) {
            (Some(s), Some(e)) => {
                let sv = match self.vertices.get(s) {
                    Some(v) => v,
                    None => {
                        return false;
                    },
                };
                let ev2 = match self.vertices.get(e) {
                    Some(v) => v,
                    None => {
                        return false;
                    },
                };
                if !sv.i_reference.contains_key(e) {
                    return false;
                }
                if !(ev.txid == *e || ev2.reference_me.contains_key(s)) {
                    return false;
                }
                ev.timestamp.checked_sub(ev.target_timestamp).is_some() && sv.timestamp.checked_sub(ev.timestamp).is_some()
                    && ev.timestamp.checked_sub(ev2.timestamp).is_some()
            },
            _ => false,
        }
    }
    /// Inserts the event's transaction X into the edge from A (`between_start`)
    /// to D (`between_end`):
    ///
    ///    A          A
    ///    |          |
    ///    | becomes  X
    ///    |         /|
    ///    D        Y D
    pub fn split_edge(&mut self, event: GraphEntryEvent)
        requires
            split_possible(vertex_models(old(self).vertices@), event),
        ensures
            vertex_models(final(self).vertices@) == split_model(vertex_models(old(self).vertices@), event),
            final(self).current_latest == old(self).current_latest,
            final(self).top_level_txcount_cutoff == old(self).top_level_txcount_cutoff,
            final(self).lastest_and_top_connected == old(self).lastest_and_top_connected,
            final(self).top_level == old(self).top_level,
            final(self).current_index == old(self).current_index,
    {
        let ghost m0 = vertex_models(self.vertices@);
        let ghost sv = event.between_start->0@;
        let ghost ev = event.between_end->0@;
        let ghost xv = event.txid@;
        let ghost ts = event.timestamp as int;
        let s = unwrap_copy(&event.between_start);
        let e = unwrap_copy(&event.between_end);

        // A now points to X instead of D.
        let ghost g0 = self.vertices@;
        let mut start = self.vertices.remove(&s).unwrap();
        proof {
            lemma_models_remove(g0, sv);
        }
        let _old_end = start.i_reference.remove(&e);
        start.i_reference.insert(
            event.txid.clone(),
            GraphEdge { tx_distance: 0, time_distance: event.timestamp - event.target_timestamp },
        );
        let start_ts = start.timestamp;
        let ghost g1 = self.vertices@;
        self.vertices.insert(s.clone(), start);
        proof {
            lemma_models_insert(g1, sv, self.vertices@[sv]);
            assert(vertex_models(self.vertices@) =~= m0.insert(
                sv,
                relinked_start(m0[sv], ev, xv, ts - event.target_timestamp),
            ));
        }
        let ghost m1 = vertex_models(self.vertices@);

        // X is pointed to by A and points to its target and to D.
        let mut ref_me: StrMap<GraphEdge> = StrMap::new();
        ref_me.insert(s.clone(), GraphEdge { tx_distance: 0, time_distance: start_ts - event.timestamp });
        let mut i_ref: StrMap<GraphEdge> = StrMap::new();
        i_ref.insert(
            event.target_tx_id.clone(),
            GraphEdge { tx_distance: 0, time_distance: event.timestamp - event.target_timestamp },
        );
        let end_ts = self.vertices.get(&e).unwrap().timestamp;
        proof {
            assert(end_ts == m1[ev].timestamp);
            assert(m1[ev].timestamp == m0[ev].timestamp);
        }
        i_ref.insert(e.clone(), GraphEdge { tx_distance: 0, time_distance: event.timestamp - end_ts });
        let x_vertex = GraphVertex { reference_me: ref_me, i_reference: i_ref, timestamp: event.timestamp };
        let ghost g2 = self.vertices@;
        self.vertices.insert(event.txid.clone(), x_vertex);
        proof {
            lemma_models_insert(g2, xv, self.vertices@[xv]);
        }
        let ghost m2 = vertex_models(self.vertices@);

        // D is pointed to by X instead of A.
        let ghost g3 = self.vertices@;
        let mut end = self.vertices.remove(&e).unwrap();
        proof {
            lemma_models_remove(g3, ev);
            assert(end.model() == m2[ev]);
        }
        let _old_start = end.reference_me.remove(&s);
        let end_time = end.timestamp;
        end.reference_me.insert(
            event.txid.clone(),
            GraphEdge { tx_distance: 0, time_distance: event.timestamp - end_time },
        );
        let ghost g4 = self.vertices@;
        self.vertices.insert(e, end);
        proof {
            lemma_models_insert(g4, ev, self.vertices@[ev]);
            assert(vertex_models(self.vertices@) =~= split_model(m0, event));
        }
    }
}

/// The message of the error for a first event whose index is not zero.
pub open spec fn first_index_error() -> Seq<char> {
    "First event index should be one"@
}

/// The message of the error for an event with a start but no end.
pub open spec fn missing_end_error() -> Seq<char> {
    "Must have end"@
}

/// The message of the error for an event with no start.
pub open spec fn missing_start_error() -> Seq<char> {
    "Must have start"@
}

/// A vertex with no edges.
pub open spec fn lone_vertex(ts: i64) -> VertexModel {
    VertexModel { reference_me: Map::empty(), i_reference: Map::empty(), timestamp: ts }
}

impl LifelineSubGraph {
    /// Whether the state is to be stored after `event` is processed: always,
    /// except for the first event and an event with a start but no end.
    pub fn stores_after(&self, event: &GraphEntryEvent) -> (r: bool)
        ensures
            r == (self.vertices@.dom().len() != 0 && !(event.between_start is Some
                && event.between_end is None)),
    {
        if self.vertices.is_empty() {
            return false;
        }
        match (&event.between_start, &event.between_end) {
            (Some(_), None) => false,
            _ => true,
        }
    }

    /// Applies one event. The first event creates the top vertex and must
    /// have index 0; every later one must name the edge it splits.
    pub fn process_event(&mut self, event: GraphEntryEvent) -> (r: Result<(), String>)
        requires
            old(self).vertices@.dom().len() != 0 && event.between_start is Some
                && event.between_end is Some ==> split_possible(
                vertex_models(old(self).vertices@),
                event,
            ),
        ensures
            processed(*old(self), *final(self), event, r),
    {
        if self.vertices.is_empty() {
            if event.index != 0 {
                let msg = "First event index should be one";
                proof {
                    reveal_strlit("First event index should be one");
                }
                return Err(msg.to_owned());
            }
            self.top_level = event.txid.clone();
            let ghost g = self.vertices@;
            self.vertices.insert(
                event.txid.clone(),
                GraphVertex { reference_me: StrMap::new(), i_reference: StrMap::new(), timestamp: event.timestamp },
            );
            proof {
                lemma_models_insert(g, event.txid@, self.vertices@[event.txid@]);
                assert(vertex_models(g) =~= Map::<Seq<char>, VertexModel>::empty());
            }
            return Ok(());
        }
        let has_start = event.between_start.is_some();
        let has_end = event.between_end.is_some();
        if has_start && has_end {
            self.split_edge(event);
            Ok(())
        } else if has_start {
            let msg = "Must have end";
            proof {
                reveal_strlit("Must have end");
            }
            Err(msg.to_owned())
        } else {
            let msg = "Must have start";
            proof {
                reveal_strlit("Must have start");
            }
            Err(msg.to_owned())
        }
    }
}

/// The message of the error for an event with neither start nor end.
pub open spec fn missing_bounds_error() -> Seq<char> {
    "Must have start or end"@
}

/// The edges whose pull jobs are cached after `event`: for a split, the
/// start to the new transaction, the new transaction to the end and to its
/// target; for a prepend or an append, the new transaction to its target.
pub fn pull_job_cache_edges(event: &GraphEntryEvent) -> (r: Result<Vec<(String, String)>, String>)
    ensures
        match (event.between_start, event.between_end) {
            (Some(bs), Some(es)) => r matches Ok(v) && v@.len() == 3
                && v@[0].0@ == bs@ && v@[0].1@ == event.txid@
                && v@[1].0@ == event.txid@ && v@[1].1@ == es@
                && v@[2].0@ == event.txid@ && v@[2].1@ == event.target_tx_id@,
            (None, None) => r matches Err(msg) && msg@ == missing_bounds_error(),
            _ => r matches Ok(v) && v@.len() == 1 && v@[0].0@ == event.txid@
                && v@[0].1@ == event.target_tx_id@,
        },
{
    let mut v: Vec<(String, String)> = Vec::new();
    match (&event.between_start, &event.between_end) {
        (Some(bs), Some(es)) => {
            v.push((bs.clone(), event.txid.clone()));
            v.push((event.txid.clone(), es.clone()));
            v.push((event.txid.clone(), event.target_tx_id.clone()));
        },
        (None, None) => {
            let msg = "Must have start or end";
            proof {
                reveal_strlit("Must have start or end");
            }
            return Err(msg.to_owned());
        },
        _ => {
            v.push((event.txid.clone(), event.target_tx_id.clone()));
        },
    }
    Ok(v)
}

/// Splitting the edge from A to D by X leaves A pointing to X instead of
/// D, X pointing to D and pointed to by A, D pointed to by X instead of A,
/// and every other vertex as it was (for distinct A, D and X).
pub proof fn lemma_split_links(m: Map<Seq<char>, VertexModel>, ev: GraphEntryEvent)
    requires
        split_possible(m, ev),
        ev.between_start->0@ != ev.between_end->0@,
        ev.txid@ != ev.between_start->0@,
        ev.txid@ != ev.between_end->0@,
    ensures
        ({
            let s = ev.between_start->0@;
            let e = ev.between_end->0@;
            let x = ev.txid@;
            let r = split_model(m, ev);
            &&& r.dom() == m.dom().insert(x)
            &&& r[s].i_reference.dom().contains(x)
            &&& !r[s].i_reference.dom().contains(e)
            &&& r[x].reference_me.dom().contains(s)
            &&& r[x].i_reference.dom().contains(e)
            &&& r[x].i_reference.dom().contains(ev.target_tx_id@)
            &&& r[e].reference_me.dom().contains(x)
            &&& !r[e].reference_me.dom().contains(s)
            &&& r[s].timestamp == m[s].timestamp
            &&& r[e].timestamp == m[e].timestamp
            &&& r[x].timestamp == ev.timestamp
            &&& forall|k: Seq<char>| k != s && k != e && k != x && #[trigger] m.dom().contains(k) ==> r[k] == m[k]
        }),
{
    let s = ev.between_start->0@;
    let e = ev.between_end->0@;
    let x = ev.txid@;
    let r = split_model(m, ev);
    assert(r.dom() =~= m.dom().insert(x));
}

} // verus!
