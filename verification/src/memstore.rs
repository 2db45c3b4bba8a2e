//! The stores of timewarp detection, the generic cache and the lifeline, kept in memory.
use vstd::prelude::*;
use std::collections::HashMap;
use crate::indexstorage::{text_map, CleanDB, connects, earliest_after, first_unconnected, has_after, planned, prev_view, time_key, LifelineWrite, LifelineWrites, is_decision, can_advance, chain_id_of_tag, tag_chain_id, get_time_key, lifeline_ts_keys, find_lifeline_after, plan_add_to_lifeline, texts, GenericCachePersistence, LifeLineData, LifeLinePathData, LifelinePersistence, PinDescriptor, TimewarpData, TimewarpDetectionPersistence};
use crate::aionmodel::lifeline_subgraph::{GraphEntryEvent, LifelineSubGraph};
use crate::strmap::StrMap;
use crate::intmap::IntMap;
use crate::txstorage::{decimal_digits, decimal_of, decimal_string};
use crate::timewarping::Timewarp;
use crate::timewarpselecting::TimewarpSelectionState;

verus! {

/// The time blocks, the chain statistics and the followed chain, in memory.
pub struct MemoryDetectionStore {
    /// Time key to the block's entries (source to target, chain id to head).
    pub blocks: IntMap<StrMap<String>>,
    /// Chain statistics by the hash of each chain's latest step.
    pub decision: StrMap<TimewarpData>,
    /// Time key to the followed chains' entries.
    pub picked_index: IntMap<StrMap<String>>,
    pub last_picked: Option<TimewarpSelectionState>,
}

/// The entries of a block (none when the block is not held).
pub open spec fn block_of(blocks: Map<i64, StrMap<String>>, key: i64) -> Map<Seq<char>, String> {
    if blocks.dom().contains(key) {
        blocks[key]@
    } else {
        Map::empty()
    }
}

/// `m` with the first `n` of `values` set, one after the other.
pub open spec fn set_all(m: Map<Seq<char>, String>, values: Seq<(String, String)>, n: int) -> Map<Seq<char>, String>
    decreases n,
{
    if n <= 0 {
        m
    } else {
        set_all(m, values, n - 1).insert(values[n - 1].0@, values[n - 1].1)
    }
}

/// Both selection states hold the same values.
pub open spec fn same_state(a: TimewarpSelectionState, b: TimewarpSelectionState) -> bool {
    &&& a.last_picked_timewarp.same(b.last_picked_timewarp)
    &&& a.untransitioned_timewarp_heads@.len() == b.untransitioned_timewarp_heads@.len()
    &&& forall|i: int| 0 <= i < a.untransitioned_timewarp_heads@.len()
        ==> (#[trigger] a.untransitioned_timewarp_heads@[i]).same(b.untransitioned_timewarp_heads@[i])
}

fn copy_state(s: &TimewarpSelectionState) -> (r: TimewarpSelectionState)
    ensures
        same_state(r, *s),
{
    let mut heads: Vec<TimewarpData> = Vec::new();
    let mut i: usize = 0;
    while i < s.untransitioned_timewarp_heads.len()
        invariant
            i <= s.untransitioned_timewarp_heads@.len(),
            heads@.len() == i,
            forall|q: int| 0 <= q < i ==> (#[trigger] heads@[q]).same(s.untransitioned_timewarp_heads@[q]),
        decreases s.untransitioned_timewarp_heads@.len() - i,
    {
        heads.push(s.untransitioned_timewarp_heads[i].duplicate());
        i = i + 1;
    }
    TimewarpSelectionState { last_picked_timewarp: s.last_picked_timewarp.duplicate(), untransitioned_timewarp_heads: heads }
}

/// Whether one of the first `n` keys names `k`.
pub open spec fn named_within(keys: Seq<String>, n: int, k: Seq<char>) -> bool {
    exists|j: int| 0 <= j < n && #[trigger] keys[j]@ == k
}

/// Sets every entry of `b` in `r`, the entries of `b` winning.
fn insert_all(r: &mut StrMap<String>, b: &StrMap<String>)
    ensures
        text_map(final(r)@) == text_map(old(r)@).union_prefer_right(text_map(b@)),
{
    let keys = b.keys();
    let ghost r0 = r@;
    let mut i: usize = 0;
    while i < keys.len()
        invariant
            i <= keys@.len(),
            forall|k: Seq<char>| b@.dom().contains(k) <==> named_within(keys@, keys@.len() as int, k),
            forall|k: Seq<char>| #[trigger] r@.dom().contains(k) <==> (r0.dom().contains(k) || named_within(keys@, i as int, k)),
            forall|k: Seq<char>| #[trigger] r@.dom().contains(k) ==> r@[k]@ == (if named_within(keys@, i as int, k) {
                b@[k]@
            } else {
                r0[k]@
            }),
        decreases keys@.len() - i,
    {
        let ghost kk = keys@[i as int]@;
        assert(named_within(keys@, keys@.len() as int, kk));
        let ghost before = r@;
        match b.get(&keys[i]) {
            Some(v) => {
                r.insert(keys[i].clone(), v.clone());
            },
            None => {},
        }
        proof {
            assert forall|k: Seq<char>| named_within(keys@, i + 1, k) <==> (k == kk || named_within(keys@, i as int, k)) by {
                if named_within(keys@, i + 1, k) && k != kk {
                    let j = choose|j: int| 0 <= j < i + 1 && #[trigger] keys@[j]@ == k;
                    assert(j < i);
                }
                if k == kk {
                    assert(keys@[i as int]@ == k);
                }
            }
        }
        i = i + 1;
    }
    proof {
        assert forall|k: Seq<char>| named_within(keys@, keys@.len() as int, k) <==> b@.dom().contains(k) by {}
        assert(text_map(r@) =~= text_map(r0).union_prefer_right(text_map(b@)));
    }
}

/// Whether `advance` can take the step: the count, total and mean fit.
fn can_advance_exec(d: &TimewarpData, tw: &Timewarp) -> (r: bool)
    ensures
        r == can_advance(*d, *tw),
{
    let n = d.index_since_id as i128;
    let a = d.avg_distance as i128;
    assert(-0x8000_0000_0000_0000 * 0x8000_0000_0000_0000 <= a * n <= 0x8000_0000_0000_0000 * 0x8000_0000_0000_0000)
        by (nonlinear_arith)
        requires
            -0x8000_0000_0000_0000 <= a <= 0x7fff_ffff_ffff_ffff,
            -0x8000_0000_0000_0000 <= n <= 0x7fff_ffff_ffff_ffff,
    ;
    let prod = a * n;
    let total = prod + tw.distance as i128;
    n + 1 <= i64::MAX as i128 && n + 1 != 0 && i64::MIN as i128 <= prod && prod <= i64::MAX as i128
        && i64::MIN as i128 <= total && total <= i64::MAX as i128 && !(total == i64::MIN as i128 && n + 1 == -1)
}

impl MemoryDetectionStore {
    pub fn new() -> (r: MemoryDetectionStore)
        ensures
            r.blocks@ == Map::<i64, StrMap<String>>::empty(),
            r.decision@ == Map::<Seq<char>, TimewarpData>::empty(),
            r.picked_index@ == Map::<i64, StrMap<String>>::empty(),
            r.last_picked is None,
    {
        MemoryDetectionStore {
            blocks: IntMap::new(),
            decision: StrMap::new(),
            picked_index: IntMap::new(),
            last_picked: None,
        }
    }

    /// The block under `key`, as its entries.
    pub open spec fn block(&self, key: i64) -> Map<Seq<char>, String> {
        block_of(self.blocks@, key)
    }
}

/// The entries of the blocks of the first `n` keys, a later block winning.
pub open spec fn blocks_union(blocks: Map<i64, StrMap<String>>, keys: Seq<i64>, n: int) -> Map<Seq<char>, Seq<char>>
    decreases n,
{
    if n <= 0 {
        Map::empty()
    } else {
        blocks_union(blocks, keys, n - 1).union_prefer_right(text_map(block_of(blocks, keys[n - 1])))
    }
}

/// Removes from `block` every key of `values`.
fn remove_keys_of(block: &mut StrMap<String>, values: &StrMap<String>)
    ensures
        final(block)@ == old(block)@.remove_keys(values@.dom()),
{
    let keys = values.keys();
    let ghost b0 = block@;
    let mut i: usize = 0;
    proof {
        assert(block@ =~= b0.remove_keys(Set::new(|k: Seq<char>| exists|j: int| 0 <= j < 0 && #[trigger] keys@[j]@ == k)));
    }
    while i < keys.len()
        invariant
            i <= keys@.len(),
            forall|k: Seq<char>| values@.dom().contains(k) <==> exists|j: int| 0 <= j < keys@.len() && #[trigger] keys@[j]@ == k,
            block@ == b0.remove_keys(Set::new(|k: Seq<char>| exists|j: int| 0 <= j < i && #[trigger] keys@[j]@ == k)),
        decreases keys@.len() - i,
    {
        let ghost before = block@;
        block.remove(&keys[i]);
        proof {
            let s1 = Set::new(|k: Seq<char>| exists|j: int| 0 <= j < i + 1 && #[trigger] keys@[j]@ == k);
            assert forall|k: Seq<char>| s1.contains(k) <==> (k == keys@[i as int]@ || exists|j: int| 0 <= j < i && #[trigger] keys@[j]@ == k) by {
                if s1.contains(k) && k != keys@[i as int]@ {
                    let j = choose|j: int| 0 <= j < i + 1 && #[trigger] keys@[j]@ == k;
                    assert(j < i);
                }
                if k == keys@[i as int]@ {
                    assert(keys@[i as int]@ == k);
                }
            }
            assert(block@ =~= b0.remove_keys(s1));
        }
        i = i + 1;
    }
    proof {
        assert(Set::new(|k: Seq<char>| exists|j: int| 0 <= j < keys@.len() && #[trigger] keys@[j]@ == k) =~= values@.dom());
    }
}

/// Removes the blocks keyed before `t`.
fn drop_blocks_before(m: &mut IntMap<StrMap<String>>, t: i64)
    ensures
        forall|k: i64| #[trigger] block_of(final(m)@, k) == (if k < t { Map::empty() } else { block_of(old(m)@, k) }),
{
    let keys = m.keys();
    let ghost m0 = m@;
    let mut i: usize = 0;
    while i < keys.len()
        invariant
            i <= keys@.len(),
            forall|k: i64| m0.dom().contains(k) <==> exists|j: int| 0 <= j < keys@.len() && #[trigger] keys@[j] == k,
            forall|k: i64| #[trigger] m@.dom().contains(k) <==> (m0.dom().contains(k) && !(k < t && exists|j: int| 0 <= j < i && #[trigger] keys@[j] == k)),
            forall|k: i64| #[trigger] m@.dom().contains(k) ==> m@[k] == m0[k],
        decreases keys@.len() - i,
    {
        let k = keys[i];
        if k < t {
            m.remove(&k);
        }
        proof {
            assert forall|q: i64| #[trigger] m@.dom().contains(q) <==> (m0.dom().contains(q) && !(q < t && exists|j: int| 0 <= j < i + 1 && #[trigger] keys@[j] == q)) by {
                if exists|j: int| 0 <= j < i + 1 && #[trigger] keys@[j] == q {
                    let j = choose|j: int| 0 <= j < i + 1 && #[trigger] keys@[j] == q;
                    if j < i {
                        assert(exists|j2: int| 0 <= j2 < i && #[trigger] keys@[j2] == q);
                    }
                }
                if q == k {
                    assert(keys@[i as int] == q);
                }
            }
        }
        i = i + 1;
    }
    proof {
        assert forall|k: i64| #[trigger] block_of(m@, k) == (if k < t { Map::empty() } else { block_of(m0, k) }) by {
            if k < t && m0.dom().contains(k) {
                let j = choose|j: int| 0 <= j < keys@.len() && #[trigger] keys@[j] == k;
                assert(keys@[j] == k);
            }
        }
    }
}

/// Removes the chain records of steps older than `t`.
fn drop_records_before(m: &mut StrMap<TimewarpData>, t: i64)
    ensures
        final(m)@ == old(m)@.restrict(Set::new(|k: Seq<char>| old(m)@[k].timestamp >= t)),
{
    let keys = m.keys();
    let ghost m0 = m@;
    let mut i: usize = 0;
    while i < keys.len()
        invariant
            i <= keys@.len(),
            forall|k: Seq<char>| m0.dom().contains(k) <==> exists|j: int| 0 <= j < keys@.len() && #[trigger] keys@[j]@ == k,
            forall|k: Seq<char>| #[trigger] m@.dom().contains(k) <==> (m0.dom().contains(k) && !(m0[k].timestamp < t && exists|j: int| 0 <= j < i && #[trigger] keys@[j]@ == k)),
            forall|k: Seq<char>| #[trigger] m@.dom().contains(k) ==> m@[k] == m0[k],
        decreases keys@.len() - i,
    {
        let ghost kk = keys@[i as int]@;
        assert(m0.dom().contains(kk));
        let old_enough = match m.get(&keys[i]) {
            Some(d) => d.timestamp < t,
            None => false,
        };
        if old_enough {
            m.remove(&keys[i]);
        }
        proof {
            assert forall|q: Seq<char>| #[trigger] m@.dom().contains(q) <==> (m0.dom().contains(q) && !(m0[q].timestamp < t && exists|j: int| 0 <= j < i + 1 && #[trigger] keys@[j]@ == q)) by {
                if exists|j: int| 0 <= j < i + 1 && #[trigger] keys@[j]@ == q {
                    let j = choose|j: int| 0 <= j < i + 1 && #[trigger] keys@[j]@ == q;
                    if j < i {
                        assert(exists|j2: int| 0 <= j2 < i && #[trigger] keys@[j2]@ == q);
                    }
                }
                if q == kk {
                    assert(keys@[i as int]@ == q);
                }
            }
        }
        i = i + 1;
    }
    proof {
        assert forall|k: Seq<char>| #[trigger] m@.dom().contains(k) <==> m0.restrict(Set::new(|k: Seq<char>| m0[k].timestamp >= t)).dom().contains(k) by {
            if m0.dom().contains(k) && m0[k].timestamp < t {
                let j = choose|j: int| 0 <= j < keys@.len() && #[trigger] keys@[j]@ == k;
                assert(keys@[j]@ == k);
            }
        }
        assert(m@ =~= m0.restrict(Set::new(|k: Seq<char>| m0[k].timestamp >= t)));
    }
}

impl CleanDB for MemoryDetectionStore {
    /// Drops the time blocks and followed-chain blocks keyed before
    /// `timestamp`, and the chain records of steps older than it.
    fn clean_db(&mut self, timestamp: i64)
        ensures
            forall|k: i64| #[trigger] final(self).block(k) == (if k < timestamp { Map::empty() } else { old(self).block(k) }),
            forall|k: i64| #[trigger] block_of(final(self).picked_index@, k) == (if k < timestamp { Map::empty() } else { block_of(old(self).picked_index@, k) }),
            final(self).decision@ == old(self).decision@.restrict(Set::new(|k: Seq<char>| old(self).decision@[k].timestamp >= timestamp)),
            final(self).last_picked == old(self).last_picked,
    {
        drop_blocks_before(&mut self.blocks, timestamp);
        drop_blocks_before(&mut self.picked_index, timestamp);
        drop_records_before(&mut self.decision, timestamp);
    }
}

impl TimewarpDetectionPersistence for MemoryDetectionStore {
    open spec fn decision_target(&self, key: Seq<char>) -> Option<Seq<char>> {
        if self.decision@.dom().contains(key) {
            Some(self.decision@[key].target_spec())
        } else {
            None
        }
    }

    /// Sets every value in the block, later values winning.
    fn tw_detection_add_to_index(&mut self, key: i64, values: Vec<(String, String)>)
        ensures
            final(self).block(key) == set_all(old(self).block(key), values@, values@.len() as int),
            forall|k: i64| k != key ==> #[trigger] final(self).block(k) == old(self).block(k),
            final(self).decision@ == old(self).decision@,
    {
        broadcast use vstd::std_specs::hash::group_hash_axioms;
        let ghost old_blocks = self.blocks@;
        let mut block = match self.blocks.remove(&key) {
            Some(b) => b,
            None => StrMap::new(),
        };
        let mut i: usize = 0;
        while i < values.len()
            invariant
                i <= values@.len(),
                block@ == set_all(block_of(old_blocks, key), values@, i as int),
            decreases values@.len() - i,
        {
            let (k, v) = (values[i].0.clone(), values[i].1.clone());
            proof {
                assert(k@ == values@[i as int].0@);
            }
            block.insert(k, v);
            i = i + 1;
        }
        self.blocks.insert(key, block);
        proof {
            assert forall|k: i64| k != key implies #[trigger] block_of(self.blocks@, k) == block_of(old_blocks, k) by {}
        }
    }

    /// Removes from the block the keys of `values`.
    fn tw_detection_remove_from_index(&mut self, key: i64, values: StrMap<String>)
        ensures
            final(self).block(key) == old(self).block(key).remove_keys(values@.dom()),
            forall|k: i64| k != key ==> #[trigger] final(self).block(k) == old(self).block(k),
            final(self).decision@ == old(self).decision@,
            final(self).picked_index@ == old(self).picked_index@,
            final(self).last_picked == old(self).last_picked,
    {
        broadcast use vstd::std_specs::hash::group_hash_axioms;
        let ghost old_blocks = self.blocks@;
        match self.blocks.remove(&key) {
            Some(block) => {
                let mut block = block;
                remove_keys_of(&mut block, &values);
                self.blocks.insert(key, block);
                proof {
                    assert forall|k: i64| k != key implies #[trigger] block_of(self.blocks@, k) == block_of(old_blocks, k) by {}
                }
            },
            None => {
                proof {
                    assert(self.blocks@ =~= old_blocks);
                    assert(block_of(old_blocks, key).remove_keys(values@.dom()) =~= block_of(old_blocks, key));
                }
            },
        }
    }

    /// The entries of the block.
    fn tw_detection_get(&self, key: &i64) -> (r: StrMap<String>)
        ensures
            text_map(r@) == text_map(self.block(*key)),
    {
        let mut r: StrMap<String> = StrMap::new();
        match self.blocks.get(key) {
            Some(b) => {
                insert_all(&mut r, b);
                proof {
                    assert(text_map(Map::<Seq<char>, String>::empty()).union_prefer_right(text_map(b@)) =~= text_map(b@));
                }
            },
            None => {
                proof {
                    assert(text_map(r@) =~= text_map(self.block(*key)));
                }
            },
        }
        r
    }

    /// The entries of the blocks of `keys`, a later block winning.
    fn tw_detection_get_all(&self, keys: Vec<i64>) -> (r: StrMap<String>)
        ensures
            text_map(r@) == blocks_union(self.blocks@, keys@, keys@.len() as int),
    {
        let mut r: StrMap<String> = StrMap::new();
        let mut i: usize = 0;
        proof {
            assert(text_map(r@) =~= blocks_union(self.blocks@, keys@, 0));
        }
        while i < keys.len()
            invariant
                i <= keys@.len(),
                text_map(r@) == blocks_union(self.blocks@, keys@, i as int),
            decreases keys@.len() - i,
        {
            match self.blocks.get(&keys[i]) {
                Some(b) => {
                    insert_all(&mut r, b);
                },
                None => {
                    proof {
                        assert(text_map(r@).union_prefer_right(text_map(Map::<Seq<char>, String>::empty())) =~= text_map(r@));
                    }
                },
            }
            i = i + 1;
        }
        r
    }

    open spec fn index_block(&self, key: i64) -> Map<Seq<char>, Seq<char>> {
        text_map(self.block(key))
    }

    open spec fn decision_of(&self, key: Seq<char>) -> Option<TimewarpData> {
        self.decision@.get(key)
    }

    /// Records the step `tw`: the chain of its target advanced, or a new
    /// chain named by the step's tag, stored under the step's hash. Where
    /// advancing would overflow, the chain restarts at this step under its
    /// own id.
    fn tw_detection_add_decision_data(&mut self, tw: Timewarp) -> (r: TimewarpData)
        ensures
            match old(self).decision@.get(tw.target_spec()) {
                Some(p) => if can_advance(p, tw) {
                    is_decision(r, Some(p), tw, p.timewarpid@)
                } else {
                    is_decision(r, None, tw, p.timewarpid@)
                },
                None => is_decision(r, None, tw, tag_chain_id(tw.source_tag@)),
            },
            final(self).decision@.dom() == old(self).decision@.dom().insert(tw.source_hash@),
            final(self).decision@[tw.source_hash@].same(r),
            forall|k: Seq<char>| k != tw.source_hash@ ==> #[trigger] final(self).decision@.get(k) == old(self).decision@.get(k),
            final(self).blocks == old(self).blocks,
            final(self).picked_index == old(self).picked_index,
            final(self).last_picked == old(self).last_picked,
    {
        let data = match self.decision.get(tw.target_hash()) {
            Some(p) => {
                if can_advance_exec(p, &tw) {
                    TimewarpData::decision_data(Some(p), &tw, p.timewarpid.clone())
                } else {
                    TimewarpData::decision_data(None, &tw, p.timewarpid.clone())
                }
            },
            None => TimewarpData::decision_data(None, &tw, chain_id_of_tag(&tw.source_tag)),
        };
        let stored = data.duplicate();
        self.decision.insert(tw.source_hash.clone(), stored);
        data
    }

    /// The record last stored under `key`.
    fn tw_detection_get_decision_data(&self, key: String) -> (r: Option<TimewarpData>)
        ensures
            match r {
                Some(d) => self.decision@.dom().contains(key@) && d.same(self.decision@[key@]),
                None => !self.decision@.dom().contains(key@),
            },
    {
        match self.decision.get(&key) {
            Some(d) => Some(d.duplicate()),
            None => None,
        }
    }

    /// The entries of the followed chains' block.
    fn get_picked_tw_index(&self, key: i64) -> (r: StrMap<String>)
        ensures
            text_map(r@) == text_map(block_of(self.picked_index@, key)),
    {
        let mut r: StrMap<String> = StrMap::new();
        match self.picked_index.get(&key) {
            Some(b) => {
                insert_all(&mut r, b);
                proof {
                    assert(text_map(Map::<Seq<char>, String>::empty()).union_prefer_right(text_map(b@)) =~= text_map(b@));
                }
            },
            None => {
                proof {
                    assert(text_map(r@) =~= text_map(block_of(self.picked_index@, key)));
                }
            },
        }
        r
    }

    /// The state last set.
    fn get_last_picked_tw(&self) -> (r: Option<TimewarpSelectionState>)
        ensures
            match (r, self.last_picked) {
                (Some(a), Some(b)) => same_state(a, b),
                (None, None) => true,
                _ => false,
            },
    {
        match &self.last_picked {
            Some(s) => Some(copy_state(s)),
            None => None,
        }
    }

    fn set_last_picked_tw(&mut self, state: TimewarpSelectionState) -> (r: Result<(), String>)
        ensures
            final(self).last_picked == Some(state),
            r is Ok,
    {
        self.last_picked = Some(state);
        Ok(())
    }
}

/// Byte values by key, in memory.
pub struct MemoryCache {
    pub values: StrMap<Vec<u8>>,
}

impl MemoryCache {
    pub fn new() -> (r: MemoryCache)
        ensures
            r.values@ == Map::<Seq<char>, Vec<u8>>::empty(),
    {
        MemoryCache { values: StrMap::new() }
    }
}

impl GenericCachePersistence for MemoryCache {
    fn set_generic_cache(&mut self, key: &str, value: Vec<u8>) -> (r: Result<(), String>)
        ensures
            final(self).values@ == old(self).values@.insert(key@, value),
            r is Ok,
    {
        self.values.insert(key.to_owned(), value);
        Ok(())
    }

    fn get_generic_cache(&self, key: &str) -> (r: Option<Vec<u8>>)
        ensures
            match r {
                Some(v) => self.values@.dom().contains(key@) && v@ == self.values@[key@]@,
                None => !self.values@.dom().contains(key@),
            },
    {
        let k = key.to_owned();
        match self.values.get(&k) {
            Some(v) => {
                let mut c: Vec<u8> = Vec::new();
                let mut i: usize = 0;
                while i < v.len()
                    invariant
                        i <= v@.len(),
                        c@ == v@.subrange(0, i as int),
                    decreases v@.len() - i,
                {
                    c.push(v[i]);
                    i = i + 1;
                    proof {
                        assert(v@.subrange(0, i as int) =~= v@.subrange(0, i - 1).push(v@[i - 1]));
                    }
                }
                proof {
                    assert(v@.subrange(0, v@.len() as int) =~= v@);
                }
                Some(c)
            },
            None => None,
        }
    }
}

/// Reading the cache back gives what was set last under that key, and
/// setting one key leaves the others as they were.
pub proof fn lemma_cache_reads_back(before: Map<Seq<char>, Vec<u8>>, k: Seq<char>, v: Vec<u8>, other: Seq<char>)
    requires
        other != k,
    ensures
        before.insert(k, v).dom().contains(k),
        before.insert(k, v)[k] == v,
        before.insert(k, v).dom().contains(other) == before.dom().contains(other),
        before.dom().contains(other) ==> before.insert(k, v)[other] == before[other],
{
}

/// A step that targets a recorded step continues that step's chain: its
/// record, as `tw_detection_add_decision_data` gives it on the records
/// `m`, keeps the chain id and, where the count can advance, counts one
/// step more; it is stored under the step's own hash.
pub proof fn lemma_step_continues_chain(m: Map<Seq<char>, TimewarpData>, r1: TimewarpData, tw: Timewarp, r2: TimewarpData)
    requires
        m.dom().contains(tw.target_spec()),
        m[tw.target_spec()].same(r1),
        match m.get(tw.target_spec()) {
            Some(p) => if can_advance(p, tw) {
                is_decision(r2, Some(p), tw, p.timewarpid@)
            } else {
                is_decision(r2, None, tw, p.timewarpid@)
            },
            None => is_decision(r2, None, tw, tag_chain_id(tw.source_tag@)),
        },
    ensures
        r2.timewarpid@ == r1.timewarpid@,
        can_advance(r1, tw) ==> r2.index_since_id == r1.index_since_id + 1,
        !can_advance(r1, tw) ==> r2.index_since_id == 0,
        r2.hash@ == tw.source_hash@,
{
}

/// A block entry set by `tw_detection_add_to_index` reads back as the last
/// value given for its key in that call.
pub proof fn lemma_block_last_value_wins(m: Map<Seq<char>, String>, values: Seq<(String, String)>, i: int)
    requires
        0 <= i < values.len(),
        forall|j: int| i < j < values.len() ==> (#[trigger] values[j]).0@ != values[i].0@,
    ensures
        set_all(m, values, values.len() as int).dom().contains(values[i].0@),
        set_all(m, values, values.len() as int)[values[i].0@] == values[i].1,
    decreases values.len(),
{
    lemma_set_all_keeps(m, values, i + 1, values.len() as int, values[i].0@);
}

proof fn lemma_set_all_keeps(m: Map<Seq<char>, String>, values: Seq<(String, String)>, from: int, n: int, k: Seq<char>)
    requires
        1 <= from <= n <= values.len(),
        values[from - 1].0@ == k,
        forall|j: int| from <= j < n ==> (#[trigger] values[j]).0@ != k,
    ensures
        set_all(m, values, n).dom().contains(k),
        set_all(m, values, n)[k] == values[from - 1].1,
    decreases n,
{
    if n > from {
        lemma_set_all_keeps(m, values, from, n - 1, k);
    }
}

/// Both entries hold the same values.
pub open spec fn same_entry(a: LifeLineData, b: LifeLineData) -> bool {
    &&& a.timewarp_tx@ == b.timewarp_tx@
    &&& a.timestamp == b.timestamp
    &&& texts(a.unpinned_connecting_txs@) == texts(b.unpinned_connecting_txs@)
    &&& a.paths@.len() == b.paths@.len()
    &&& forall|i: int| 0 <= i < a.paths@.len() ==> (#[trigger] a.paths@[i]).same(b.paths@[i])
}

/// Both maps hold the same keys, with entries holding the same values.
pub open spec fn same_entries(a: Map<Seq<char>, LifeLineData>, b: Map<Seq<char>, LifeLineData>) -> bool {
    &&& a.dom() == b.dom()
    &&& forall|k: Seq<char>| #[trigger] a.dom().contains(k) ==> same_entry(a[k], b[k])
}

/// `m` with the first `n` entries of `ll` set under their transactions.
pub open spec fn inserted_all(m: Map<Seq<char>, LifeLineData>, ll: Seq<LifeLineData>, n: int) -> Map<Seq<char>, LifeLineData>
    decreases n,
{
    if n <= 0 {
        m
    } else {
        inserted_all(m, ll, n - 1).insert(ll[n - 1].timewarp_tx@, ll[n - 1])
    }
}

/// A block's (transaction, time) pairs by their texts.
pub open spec fn pair_views(v: Seq<(String, i64)>) -> Seq<(Seq<char>, i64)> {
    v.map_values(|p: (String, i64)| (p.0@, p.1))
}

/// The lifeline blocks by their texts.
pub open spec fn blocks_view(m: Map<i64, Vec<(String, i64)>>) -> Map<i64, Seq<(Seq<char>, i64)>> {
    m.map_values(|v: Vec<(String, i64)>| pair_views(v@))
}

/// The pairs listed under `key` (none when the block is not held).
pub open spec fn block_pairs(bv: Map<i64, Seq<(Seq<char>, i64)>>, key: i64) -> Seq<(Seq<char>, i64)> {
    if bv.dom().contains(key) {
        bv[key]
    } else {
        Seq::empty()
    }
}

/// `p` listed last under `key`.
pub open spec fn append_at(bv: Map<i64, Seq<(Seq<char>, i64)>>, key: i64, p: (Seq<char>, i64)) -> Map<i64, Seq<(Seq<char>, i64)>> {
    bv.insert(key, block_pairs(bv, key).push(p))
}

/// `(tx, ts)` listed under each of the first `n` keys in turn.
pub open spec fn list_keys(bv: Map<i64, Seq<(Seq<char>, i64)>>, keys: Seq<i64>, tx: Seq<char>, ts: i64, n: int) -> Map<i64, Seq<(Seq<char>, i64)>>
    decreases n,
{
    if n <= 0 {
        bv
    } else {
        append_at(list_keys(bv, keys, tx, ts, n - 1), keys[n - 1], (tx, ts))
    }
}

/// The listings of the first `n` writes, one after the other.
pub open spec fn listed_all(bv: Map<i64, Seq<(Seq<char>, i64)>>, ws: Seq<LifelineWrite>, n: int) -> Map<i64, Seq<(Seq<char>, i64)>>
    decreases n,
{
    if n <= 0 {
        bv
    } else {
        list_keys(listed_all(bv, ws, n - 1), ws[n - 1].keys@, ws[n - 1].tx@, ws[n - 1].timestamp, ws[n - 1].keys@.len() as int)
    }
}

/// The held entry that the first of `ll` connects to by its first path.
pub open spec fn stored_prev(entries: Map<Seq<char>, LifeLineData>, ll: Seq<LifeLineData>) -> Option<LifeLineData> {
    if ll.len() > 0 && ll[0].paths@.len() > 0 && entries.dom().contains(ll[0].paths@[0].connecting_timewarp@) {
        Some(entries[ll[0].paths@[0].connecting_timewarp@])
    } else {
        None
    }
}

/// Adding `ll` is refused: nothing given, a cluster width that is not
/// positive, a time too large, a later entry (or one after a held entry)
/// without a path, or an entry that does not connect.
pub open spec fn add_refused(entries: Map<Seq<char>, LifeLineData>, c: i64, ll: Seq<LifeLineData>) -> bool {
    let pv = stored_prev(entries, ll);
    ||| ll.len() == 0
    ||| c <= 0
    ||| exists|j: int| 0 <= j < ll.len() && (#[trigger] ll[j]).timestamp > i64::MAX - c
    ||| exists|j: int| 0 <= j < ll.len() && (j > 0 || pv is Some) && (#[trigger] ll[j]).paths@.len() == 0
    ||| exists|k: int| first_unconnected(pv, ll, k)
}

/// The key under which the `n`-th copy of `id` is stored: `id`, `_` and `n`.
pub open spec fn postfix(id: Seq<char>, n: int) -> Seq<char> {
    id + seq!['_'] + decimal_of(n)
}

/// `n` is the first number from 1 whose postfixed key is free.
pub open spec fn first_free(dom: Set<Seq<char>>, id: Seq<char>, n: int) -> bool {
    &&& 1 <= n
    &&& !dom.contains(postfix(id, n))
    &&& forall|j: int| 1 <= j < n ==> dom.contains(#[trigger] postfix(id, j))
}

/// Prepending `ll` is taken: its transaction is held, it has a path, the
/// cluster width can key its time, and there is room for two entries.
pub open spec fn prepend_accepted(entries: Map<Seq<char>, LifeLineData>, c: i64, ll: LifeLineData) -> bool {
    &&& entries.dom().contains(ll.timewarp_tx@)
    &&& ll.paths@.len() > 0
    &&& c != 0
    &&& !(ll.timestamp == i64::MIN && c == -1)
    &&& entries.dom().len() < 0x3fff_ffff_ffff_fffe
}

/// What prepending `ll` does: the transaction it connects to gets an empty
/// entry under `postfix(conn, n1)`, listed first in the block of `ll`'s
/// time, and `ll` is stored under `postfix(tx, n2)`, both numbers the first
/// free ones; every other entry and block stays.
pub open spec fn prepend_effect(
    e0: Map<Seq<char>, LifeLineData>,
    bv0: Map<i64, Seq<(Seq<char>, i64)>>,
    e1: Map<Seq<char>, LifeLineData>,
    bv1: Map<i64, Seq<(Seq<char>, i64)>>,
    ll: LifeLineData,
    c: i64,
    n1: int,
    n2: int,
) -> bool {
    let conn = ll.paths@[0].connecting_timewarp@;
    let conn_ts = ll.paths@[0].connecting_timestamp;
    let key = time_key(ll.timestamp as int, c as int) as i64;
    let k1 = postfix(conn, n1);
    let k2 = postfix(ll.timewarp_tx@, n2);
    &&& first_free(e0.dom(), conn, n1)
    &&& first_free(e0.dom().insert(k1), ll.timewarp_tx@, n2)
    &&& e1.dom() == e0.dom().insert(k1).insert(k2)
    &&& e1[k2] == ll
    &&& e1[k1].timewarp_tx@ == conn
    &&& e1[k1].timestamp == conn_ts
    &&& e1[k1].paths@.len() == 0
    &&& e1[k1].unpinned_connecting_txs@.len() == 0
    &&& forall|k: Seq<char>| k != k1 && k != k2 && #[trigger] e0.dom().contains(k) ==> e1[k] == e0[k]
    &&& bv1 == bv0.insert(key, seq![(k1, conn_ts)] + block_pairs(bv0, key))
}

/// After adding entries, the entry read under a transaction is the last
/// one added for it.
pub proof fn lemma_added_entry_reads_back(m: Map<Seq<char>, LifeLineData>, ll: Seq<LifeLineData>, n: int, k: int)
    requires
        0 <= k < n <= ll.len(),
        forall|j: int| k < j < n ==> (#[trigger] ll[j]).timewarp_tx@ != ll[k].timewarp_tx@,
    ensures
        inserted_all(m, ll, n).dom().contains(ll[k].timewarp_tx@),
        inserted_all(m, ll, n)[ll[k].timewarp_tx@] == ll[k],
    decreases n,
{
    if n > k + 1 {
        lemma_added_entry_reads_back(m, ll, n - 1, k);
    }
}

/// A block of texts holds a pair later than `t`.
pub open spec fn has_later(b: Seq<(Seq<char>, i64)>, t: i64) -> bool {
    exists|j: int| 0 <= j < b.len() && (#[trigger] b[j]).1 > t
}

/// Pair `j` of `b` is one of the earliest later than `t`.
pub open spec fn earliest_later(b: Seq<(Seq<char>, i64)>, t: i64, j: int) -> bool {
    &&& 0 <= j < b.len()
    &&& b[j].1 > t
    &&& forall|q: int| 0 <= q < b.len() && (#[trigger] b[q]).1 > t ==> b[q].1 >= b[j].1
}

/// The times and widths that `get_lifeline_ts` can search.
pub open spec fn ts_range_ok(t: i64, c: i64) -> bool {
    c > 0 && 15 * c <= i64::MAX && t + 15 * c <= i64::MAX
}

/// The `i`-th block searched after `t`.
pub open spec fn ts_block(bv: Map<i64, Seq<(Seq<char>, i64)>>, t: i64, c: i64, i: int) -> Seq<(Seq<char>, i64)> {
    block_pairs(bv, (time_key(t as int, c as int) + i * c) as i64)
}

/// The pair found after `t`: in the first searched block holding a later
/// pair, one of its earliest such pairs.
pub open spec fn found_after(bv: Map<i64, Seq<(Seq<char>, i64)>>, t: i64, c: i64, i: int, j: int) -> bool {
    &&& 0 <= i < 15
    &&& forall|q: int| 0 <= q < i ==> !has_later(#[trigger] ts_block(bv, t, c, q), t)
    &&& earliest_later(ts_block(bv, t, c, i), t, j)
}

proof fn lemma_later_views(b: Seq<(String, i64)>, t: i64)
    ensures
        has_after(b, t) == has_later(pair_views(b), t),
        forall|j: int| earliest_after(b, t, j) == #[trigger] earliest_later(pair_views(b), t, j),
{
    let v = pair_views(b);
    assert(v.len() == b.len());
    assert forall|j: int| 0 <= j < b.len() implies #[trigger] v[j] == (b[j].0@, b[j].1) by {}
    if has_after(b, t) {
        let j = choose|j: int| 0 <= j < b.len() && (#[trigger] b[j]).1 > t;
        assert(v[j].1 > t);
    }
    if has_later(v, t) {
        let j = choose|j: int| 0 <= j < v.len() && (#[trigger] v[j]).1 > t;
        assert(b[j].1 > t);
    }
    assert forall|j: int| earliest_after(b, t, j) == #[trigger] earliest_later(v, t, j) by {
        if earliest_after(b, t, j) {
            assert forall|q: int| 0 <= q < v.len() && (#[trigger] v[q]).1 > t implies v[q].1 >= v[j].1 by {
                assert(b[q].1 > t);
            }
        }
        if earliest_later(v, t, j) {
            assert forall|q: int| 0 <= q < b.len() && (#[trigger] b[q]).1 > t implies b[q].1 >= b[j].1 by {
                assert(v[q].1 > t);
            }
        }
    }
}

proof fn lemma_same_insert(a: Map<Seq<char>, LifeLineData>, b: Map<Seq<char>, LifeLineData>, k: Seq<char>, x: LifeLineData, y: LifeLineData)
    requires
        same_entries(a, b),
        same_entry(x, y),
    ensures
        same_entries(a.insert(k, x), b.insert(k, y)),
{
    assert(a.insert(k, x).dom() =~= b.insert(k, y).dom());
}

proof fn lemma_decimal_digits_injective(a: nat, b: nat)
    requires
        decimal_digits(a) == decimal_digits(b),
    ensures
        a == b,
    decreases a,
{
    if a >= 10 {
        lemma_decimal_digits_len(a / 10);
    }
    if b >= 10 {
        lemma_decimal_digits_len(b / 10);
    }
    if a >= 10 && b >= 10 {
        let da = decimal_digits(a / 10);
        let db = decimal_digits(b / 10);
        assert(decimal_digits(a).drop_last() =~= da);
        assert(decimal_digits(b).drop_last() =~= db);
        lemma_decimal_digits_injective(a / 10, b / 10);
        let ca = (48 + a % 10) as char;
        let cb = (48 + b % 10) as char;
        assert(decimal_digits(a).last() == ca);
        assert(decimal_digits(b).last() == cb);
        assert(ca as int == 48 + a % 10);
        assert(cb as int == 48 + b % 10);
        assert(a % 10 == b % 10);
        assert(a == 10 * (a / 10) + a % 10) by (nonlinear_arith);
        assert(b == 10 * (b / 10) + b % 10) by (nonlinear_arith);
    } else if a < 10 && b < 10 {
        let ca = (48 + a) as char;
        let cb = (48 + b) as char;
        assert(decimal_digits(a)[0] == ca);
        assert(decimal_digits(b)[0] == cb);
        assert(ca as int == 48 + a);
        assert(cb as int == 48 + b);
    } else if a >= 10 {
        assert(decimal_digits(a).len() == decimal_digits(a / 10).len() + 1);
        assert(decimal_digits(b).len() == 1);
    } else {
        assert(decimal_digits(b).len() == decimal_digits(b / 10).len() + 1);
        assert(decimal_digits(a).len() == 1);
    }
}

proof fn lemma_decimal_digits_len(n: nat)
    ensures
        decimal_digits(n).len() >= 1,
    decreases n,
{
    if n >= 10 {
        lemma_decimal_digits_len(n / 10);
    }
}

proof fn lemma_postfix_injective(id: Seq<char>, a: int, b: int)
    requires
        a >= 0,
        b >= 0,
        postfix(id, a) == postfix(id, b),
    ensures
        a == b,
{
    let n: int = id.len() + 1int;
    assert(postfix(id, a).subrange(n, postfix(id, a).len() as int) =~= decimal_of(a));
    assert(postfix(id, b).subrange(n, postfix(id, b).len() as int) =~= decimal_of(b));
    lemma_decimal_digits_injective(a as nat, b as nat);
}

/// Among `len + 1` postfixed keys, one is not in a set of `len` keys.
proof fn lemma_some_postfix_free(dom: Set<Seq<char>>, id: Seq<char>, len: int)
    requires
        dom.finite(),
        dom.len() == len,
    ensures
        exists|j: int| 1 <= j <= len + 1 && !dom.contains(#[trigger] postfix(id, j)),
{
    if forall|j: int| 1 <= j <= len + 1 ==> dom.contains(#[trigger] postfix(id, j)) {
        let x = vstd::set_lib::set_int_range(1, len + 2);
        let f = |j: int| postfix(id, j);
        vstd::set_lib::lemma_int_range(1, len + 2);
        assert forall|a: int, b: int| x.contains(a) && x.contains(b) && #[trigger] f(a) == #[trigger] f(b) implies a == b by {
            lemma_postfix_injective(id, a, b);
        }
        assert(vstd::relations::injective_on(f, x));
        let y = x.map(f);
        vstd::set_lib::lemma_map_size(x, y, f);
        assert forall|s: Seq<char>| y.contains(s) implies dom.contains(s) by {
            let j = choose|j: int| x.contains(j) && f(j) == s;
            assert(dom.contains(postfix(id, j)));
        }
        vstd::set_lib::lemma_len_subset(y, dom);
    }
}

/// The key `id_n` for the first `n` from 1 that is not held.
fn free_postfix(entries: &StrMap<LifeLineData>, id: &String) -> (r: (String, i64))
    requires
        entries@.dom().len() < 0x3fff_ffff_ffff_ffff,
    ensures
        r.0@ == postfix(id@, r.1 as int),
        first_free(entries@.dom(), id@, r.1 as int),
{
    let len = entries.len();
    let total = len as i64;
    let mut n: i64 = 1;
    loop
        invariant
            1 <= n <= total + 1,
            total == entries@.dom().len(),
            entries@.dom().finite(),
            total < 0x3fff_ffff_ffff_ffff,
            forall|j: int| 1 <= j < n ==> entries@.dom().contains(#[trigger] postfix(id@, j)),
        decreases total + 1 - n,
    {
        let mut s = id.clone();
        crate::pathway::push_char(&mut s, '_');
        let digits = decimal_string(n);
        s.append(digits.as_str());
        assert(s@ =~= postfix(id@, n as int));
        if !entries.contains_key(&s) {
            return (s, n);
        }
        if n == total + 1 {
            proof {
                lemma_some_postfix_free(entries@.dom(), id@, total as int);
                let j = choose|j: int| 1 <= j <= total + 1 && !entries@.dom().contains(#[trigger] postfix(id@, j));
                if j < n {
                    assert(entries@.dom().contains(postfix(id@, j)));
                }
                assert(false);
            }
        }
        n = n + 1;
    }
}

/// A copy of a lifeline entry.
pub fn copy_lifeline(l: &LifeLineData) -> (r: LifeLineData)
    ensures
        same_entry(r, *l),
{
    let mut paths: Vec<LifeLinePathData> = Vec::new();
    let mut i: usize = 0;
    while i < l.paths.len()
        invariant
            i <= l.paths@.len(),
            paths@.len() == i,
            forall|q: int| 0 <= q < i ==> (#[trigger] paths@[q]).same(l.paths@[q]),
        decreases l.paths@.len() - i,
    {
        paths.push(l.paths[i].duplicate());
        i = i + 1;
    }
    let unpinned = crate::indexstorage::copy_strings(&l.unpinned_connecting_txs);
    proof {
        assert(texts(unpinned@) =~= texts(l.unpinned_connecting_txs@));
    }
    LifeLineData { timewarp_tx: l.timewarp_tx.clone(), timestamp: l.timestamp, unpinned_connecting_txs: unpinned, paths }
}

fn copy_pairs(v: &Vec<(String, i64)>) -> (r: Vec<(String, i64)>)
    ensures
        pair_views(r@) == pair_views(v@),
{
    let mut r: Vec<(String, i64)> = Vec::new();
    let mut i: usize = 0;
    while i < v.len()
        invariant
            i <= v@.len(),
            r@.len() == i,
            forall|q: int| 0 <= q < i ==> (#[trigger] r@[q]).0@ == v@[q].0@ && r@[q].1 == v@[q].1,
        decreases v@.len() - i,
    {
        r.push((v[i].0.clone(), v[i].1));
        i = i + 1;
    }
    assert(pair_views(r@) =~= pair_views(v@));
    r
}

/// The lifeline in memory: its entries, the time blocks listing them, the
/// transactions still to pin, its head and its subgraph.
pub struct MemoryLifelineStore {
    pub clustering: i64,
    pub entries: StrMap<LifeLineData>,
    pub blocks: HashMap<i64, Vec<(String, i64)>>,
    pub unpinned: Vec<String>,
    pub last: Option<LifeLineData>,
    pub subgraph: LifelineSubGraph,
    /// Cached pull job descriptors, by start and then end transaction.
    pub pull_cache: StrMap<StrMap<PinDescriptor>>,
}

impl MemoryLifelineStore {
    pub fn new(clustering: i64) -> (r: MemoryLifelineStore)
        ensures
            r.clustering == clustering,
            r.entries@ == Map::<Seq<char>, LifeLineData>::empty(),
            r.blocks@ == Map::<i64, Vec<(String, i64)>>::empty(),
            r.unpinned@.len() == 0,
            r.last is None,
    {
        MemoryLifelineStore {
            clustering,
            entries: StrMap::new(),
            blocks: HashMap::new(),
            unpinned: Vec::new(),
            last: None,
            subgraph: LifelineSubGraph {
                current_latest: String::new(),
                top_level_txcount_cutoff: 0,
                lastest_and_top_connected: false,
                top_level: String::new(),
                current_index: 0,
                vertices: StrMap::new(),
            },
            pull_cache: StrMap::new(),
        }
    }

    fn list_under(&mut self, key: i64, tx: String, ts: i64)
        ensures
            blocks_view(final(self).blocks@) == append_at(blocks_view(old(self).blocks@), key, (tx@, ts)),
            final(self).entries == old(self).entries,
            final(self).unpinned == old(self).unpinned,
            final(self).clustering == old(self).clustering,
    {
        broadcast use vstd::std_specs::hash::group_hash_axioms;
        let ghost b0 = self.blocks@;
        let mut block = match self.blocks.remove(&key) {
            Some(b) => b,
            None => Vec::new(),
        };
        let ghost before = block@;
        assert(pair_views(before) == block_pairs(blocks_view(b0), key));
        block.push((tx, ts));
        assert(pair_views(block@) =~= pair_views(before).push((tx@, ts)));
        self.blocks.insert(key, block);
        assert(blocks_view(self.blocks@) =~= append_at(blocks_view(b0), key, (tx@, ts)));
    }
}

impl LifelinePersistence for MemoryLifelineStore {
    fn get_unpinned_lifeline(&self) -> (r: Vec<String>)
        ensures
            texts(r@) == texts(self.unpinned@),
    {
        let r = crate::indexstorage::copy_strings(&self.unpinned);
        proof {
            assert(texts(r@) =~= texts(self.unpinned@));
        }
        r
    }

    fn set_unpinned_lifeline(&mut self, ll_data: Vec<String>) -> (r: Result<(), String>)
        ensures
            final(self).unpinned == ll_data,
            r is Ok,
    {
        self.unpinned = ll_data;
        Ok(())
    }

    /// Adds `ll_data` as `plan_add_to_lifeline` plans it, after the entry its
    /// first element connects to (a new lifeline when that is not held):
    /// the entries are stored, listed in the time blocks, marked for
    /// pinning, and the last becomes the head. Refused, with nothing
    /// changed, as `add_refused` says.
    fn add_to_lifeline(&mut self, ll_data: Vec<LifeLineData>) -> (r: Result<(), String>)
        ensures
            r is Err <==> add_refused(old(self).entries@, old(self).clustering, ll_data@),
            r is Err ==> *final(self) == *old(self),
            r is Ok ==> same_entries(final(self).entries@, inserted_all(old(self).entries@, ll_data@, ll_data@.len() as int)),
            r is Ok ==> (final(self).last matches Some(l) && same_entry(l, ll_data@.last())),
            r is Ok ==> exists|w: LifelineWrites|
                #[trigger] planned(stored_prev(old(self).entries@, ll_data@), ll_data@, old(self).clustering, w)
                    && texts(final(self).unpinned@) == texts(old(self).unpinned@) + texts(w.unpinned@)
                    && blocks_view(final(self).blocks@) == listed_all(blocks_view(old(self).blocks@), w.writes@, ll_data@.len() as int),
            final(self).clustering == old(self).clustering,
    {
        if ll_data.len() == 0 {
            return Err("No lifeline data given".to_owned());
        }
        let ghost pv = stored_prev(self.entries@, ll_data@);
        let prev: Option<&LifeLineData> = if ll_data[0].paths.len() > 0 {
            self.entries.get(&ll_data[0].paths[0].connecting_timewarp)
        } else {
            None
        };
        assert(prev_view(prev) == pv);
        let c = self.clustering;
        if c <= 0 {
            return Err("Cluster width must be positive".to_owned());
        }
        let mut q: usize = 0;
        while q < ll_data.len()
            invariant
                q <= ll_data@.len(),
                ll_data@.len() > 0,
                c > 0,
                c == old(self).clustering,
                pv == stored_prev(old(self).entries@, ll_data@),
                prev_view(prev) == pv,
                forall|j: int| 0 <= j < q ==> (#[trigger] ll_data@[j]).timestamp + c <= i64::MAX,
                forall|j: int| 0 <= j < q && (j > 0 || pv is Some) ==> (#[trigger] ll_data@[j]).paths@.len() > 0,
            decreases ll_data@.len() - q,
        {
            if ll_data[q].timestamp > i64::MAX - c {
                assert(ll_data@[q as int].timestamp > i64::MAX - c);
                return Err("Lifeline time out of range".to_owned());
            }
            if (q > 0 || prev.is_some()) && ll_data[q].paths.len() == 0 {
                assert((q > 0 || pv is Some) && ll_data@[q as int].paths@.len() == 0);
                return Err("Lifeline entry without a path".to_owned());
            }
            q = q + 1;
        }
        let plan = plan_add_to_lifeline(prev, &ll_data, c);
        let w = match plan {
            Err(msg) => {
                return Err(msg);
            },
            Ok(w) => w,
        };
        proof {
            if exists|k: int| first_unconnected(pv, ll_data@, k) {
                let k = choose|k: int| first_unconnected(pv, ll_data@, k);
                assert(connects(pv, ll_data@, k));
            }
            assert(!add_refused(self.entries@, c, ll_data@));
        }
        let ghost e0 = self.entries@;
        let ghost bv0 = blocks_view(self.blocks@);
        let ghost u0 = self.unpinned@;
        let ghost s0 = *self;
        let n = ll_data.len();
        let mut k: usize = 0;
        while k < n
            invariant
                k <= n,
                n == ll_data@.len(),
                w.writes@.len() == n,
                same_entries(self.entries@, inserted_all(e0, ll_data@, k as int)),
                blocks_view(self.blocks@) == listed_all(bv0, w.writes@, k as int),
                self.unpinned == s0.unpinned,
                self.clustering == s0.clustering,
            decreases n - k,
        {
            let e = copy_lifeline(&ll_data[k]);
            let ghost ents = self.entries@;
            self.entries.insert(ll_data[k].timewarp_tx.clone(), e);
            proof {
                lemma_same_insert(ents, inserted_all(e0, ll_data@, k as int), ll_data@[k as int].timewarp_tx@, e, ll_data@[k as int]);
            }
            let ghost base = blocks_view(self.blocks@);
            let mut j: usize = 0;
            while j < w.writes[k].keys.len()
                invariant
                    k < w.writes@.len(),
                    k < ll_data@.len(),
                    n == ll_data@.len(),
                    j <= w.writes@[k as int].keys@.len(),
                    base == listed_all(bv0, w.writes@, k as int),
                    same_entries(self.entries@, inserted_all(e0, ll_data@, k + 1)),
                    blocks_view(self.blocks@) == list_keys(base, w.writes@[k as int].keys@, w.writes@[k as int].tx@, w.writes@[k as int].timestamp, j as int),
                    self.unpinned == s0.unpinned,
                    self.clustering == s0.clustering,
                decreases w.writes[k as int].keys@.len() - j,
            {
                self.list_under(w.writes[k].keys[j], w.writes[k].tx.clone(), w.writes[k].timestamp);
                j = j + 1;
            }
            k = k + 1;
        }
        let ghost e1 = self.entries@;
        let ghost b1 = self.blocks@;
        let mut u: usize = 0;
        while u < w.unpinned.len()
            invariant
                u <= w.unpinned@.len(),
                texts(self.unpinned@) == texts(u0) + texts(w.unpinned@).subrange(0, u as int),
                self.entries@ == e1,
                self.blocks@ == b1,
                self.clustering == s0.clustering,
            decreases w.unpinned@.len() - u,
        {
            let ghost before = self.unpinned@;
            self.unpinned.push(w.unpinned[u].clone());
            proof {
                assert(texts(self.unpinned@) =~= texts(before).push(w.unpinned@[u as int]@));
                assert(texts(w.unpinned@).subrange(0, u + 1) =~= texts(w.unpinned@).subrange(0, u as int).push(w.unpinned@[u as int]@));
            }
            u = u + 1;
        }
        proof {
            assert(texts(w.unpinned@).subrange(0, w.unpinned@.len() as int) =~= texts(w.unpinned@));
        }
        self.last = Some(copy_lifeline(&ll_data[n - 1]));
        match &w.initialised {
            Some(first) => {
                if self.subgraph.vertices.is_empty() {
                    let _started = self.subgraph.process_event(GraphEntryEvent {
                        index: 0,
                        timewarp_id: String::new(),
                        txid: first.0.clone(),
                        timestamp: first.1,
                        tx_distance_count: 0,
                        target_tx_id: String::new(),
                        target_timestamp: 0,
                        between_start: None,
                        between_end: None,
                    });
                }
            },
            None => {},
        }
        Ok(())
    }

    /// Stores `ll_data` before the lifeline. The transaction it connects to
    /// (by its first path) gets an entry with no paths under its id
    /// postfixed `_N`, for the first `N` from 1 that is free, and is listed
    /// first in the block of `ll_data`'s time; `ll_data` itself is stored
    /// under its own id postfixed the same way. Refused, with nothing
    /// changed, unless `prepend_accepted`.
    fn prepend_to_lifeline(&mut self, ll_data: LifeLineData) -> (r: Result<(), String>)
        ensures
            r is Err <==> !prepend_accepted(old(self).entries@, old(self).clustering, ll_data),
            r is Err ==> *final(self) == *old(self),
            r is Ok ==> exists|n1: int, n2: int|
                #[trigger] prepend_effect(old(self).entries@, blocks_view(old(self).blocks@), final(self).entries@, blocks_view(final(self).blocks@), ll_data, old(self).clustering, n1, n2),
            final(self).unpinned == old(self).unpinned,
            final(self).last == old(self).last,
            final(self).clustering == old(self).clustering,
    {
        if !self.entries.contains_key(&ll_data.timewarp_tx) || ll_data.paths.len() == 0 {
            return Err("Referncing transaction is not a lifeline transaction or the first lifeline data is not the referencing transaction.".to_owned());
        }
        if self.clustering == 0 || (ll_data.timestamp == i64::MIN && self.clustering == -1) {
            return Err("Cluster width must not be zero".to_owned());
        }
        if self.entries.len() as u64 >= 0x3fff_ffff_ffff_fffeu64 {
            return Err("Too many lifeline entries".to_owned());
        }
        let ghost e0 = self.entries@;
        let ghost bv0 = blocks_view(self.blocks@);
        let key = get_time_key(&ll_data.timestamp, self.clustering);
        let conn = ll_data.paths[0].connecting_timewarp.clone();
        let conn_ts = ll_data.paths[0].connecting_timestamp;
        let (k1, n1) = free_postfix(&self.entries, &conn);
        self.entries.insert(k1.clone(), ll_data.paths[0].connecting_empty_ll_data());
        let ghost e1 = self.entries@;
        assert(e1.dom() =~= e0.dom().insert(k1@));
        assert(e1.dom().len() <= e0.dom().len() + 1);
        let (k2, n2) = free_postfix(&self.entries, &ll_data.timewarp_tx);
        broadcast use vstd::std_specs::hash::group_hash_axioms;
        let ghost b0 = self.blocks@;
        let mut block = match self.blocks.remove(&key) {
            Some(b) => b,
            None => Vec::new(),
        };
        let ghost before = block@;
        assert(pair_views(before) == block_pairs(bv0, key));
        block.insert(0, (k1, conn_ts));
        assert(pair_views(block@) =~= seq![(k1@, conn_ts)] + pair_views(before));
        self.blocks.insert(key, block);
        assert(blocks_view(self.blocks@) =~= bv0.insert(key, seq![(k1@, conn_ts)] + block_pairs(bv0, key)));
        let ghost ll = ll_data;
        let ghost e2 = self.entries@;
        self.entries.insert(k2.clone(), ll_data);
        proof {
            assert(self.entries@.dom() =~= e0.dom().insert(k1@).insert(k2@));
            assert(first_free(e0.dom(), conn@, n1 as int));
            assert(first_free(e0.dom().insert(k1@), ll.timewarp_tx@, n2 as int));
            assert(k1@ != k2@);
            assert(self.entries@[k1@] == e2[k1@]);
            assert(prepend_effect(e0, bv0, self.entries@, blocks_view(self.blocks@), ll, self.clustering, n1 as int, n2 as int));
        }
        Ok(())
    }

    /// The pairs listed in the block of `key`.
    fn get_lifeline(&self, key: &i64) -> (r: Vec<(String, i64)>)
        ensures
            pair_views(r@) == block_pairs(blocks_view(self.blocks@), *key),
    {
        broadcast use vstd::std_specs::hash::group_hash_axioms;
        match self.blocks.get(key) {
            Some(b) => copy_pairs(b),
            None => {
                let r: Vec<(String, i64)> = Vec::new();
                assert(pair_views(r@) =~= Seq::<(Seq<char>, i64)>::empty());
                r
            },
        }
    }

    /// The entry found after `timestamp`: in the first of the 15 blocks from
    /// the block of `timestamp` that lists a later pair, one of its earliest
    /// such pairs, read by its key; none when no block lists one, when that
    /// key is not held, or when the blocks cannot be keyed.
    fn get_lifeline_ts(&self, timestamp: &i64) -> (r: Option<LifeLineData>)
        ensures
            !ts_range_ok(*timestamp, self.clustering) ==> r is None,
            ts_range_ok(*timestamp, self.clustering) ==> match r {
                Some(l) => exists|i: int, j: int|
                    #[trigger] found_after(blocks_view(self.blocks@), *timestamp, self.clustering, i, j) && ({
                        let tx = ts_block(blocks_view(self.blocks@), *timestamp, self.clustering, i)[j].0;
                        self.entries@.dom().contains(tx) && same_entry(l, self.entries@[tx])
                    }),
                None => (forall|i: int| 0 <= i < 15 ==> !has_later(#[trigger] ts_block(blocks_view(self.blocks@), *timestamp, self.clustering, i), *timestamp))
                    || exists|i: int, j: int|
                    #[trigger] found_after(blocks_view(self.blocks@), *timestamp, self.clustering, i, j)
                        && !self.entries@.dom().contains(ts_block(blocks_view(self.blocks@), *timestamp, self.clustering, i)[j].0),
            },
    {
        let c = self.clustering;
        if c <= 0 || c > i64::MAX / 15 || *timestamp > i64::MAX - 15 * c {
            return None;
        }
        let ghost bv = blocks_view(self.blocks@);
        let t = *timestamp;
        let keys = lifeline_ts_keys(t, c);
        let mut blocks: Vec<Vec<(String, i64)>> = Vec::new();
        let mut i: usize = 0;
        while i < keys.len()
            invariant
                i <= keys@.len(),
                keys@.len() == 15,
                forall|q: int| 0 <= q < 15 ==> #[trigger] keys@[q] == time_key(t as int, c as int) + q * c,
                bv == blocks_view(self.blocks@),
                blocks@.len() == i,
                forall|q: int| 0 <= q < i ==> pair_views(#[trigger] blocks@[q]@) == ts_block(bv, t, c, q),
            decreases keys@.len() - i,
        {
            let b = self.get_lifeline(&keys[i]);
            proof {
                assert(keys@[i as int] == time_key(t as int, c as int) + i * c);
                assert(pair_views(b@) == ts_block(bv, t, c, i as int));
            }
            blocks.push(b);
            i = i + 1;
        }
        proof {
            assert forall|q: int| 0 <= q < 15 implies #[trigger] has_after(blocks@[q]@, t) == has_later(ts_block(bv, t, c, q), t) by {
                lemma_later_views(blocks@[q]@, t);
            }
        }
        match find_lifeline_after(t, &blocks) {
            Some(tx) => {
                proof {
                    let (fi, fj) = choose|i: int, j: int|
                        0 <= i < blocks@.len() && (forall|q: int| 0 <= q < i ==> !has_after(#[trigger] blocks@[q]@, t))
                            && #[trigger] earliest_after(blocks@[i]@, t, j) && tx@ == blocks@[i]@[j].0@;
                    lemma_later_views(blocks@[fi]@, t);
                    assert(earliest_later(ts_block(bv, t, c, fi), t, fj));
                    assert(pair_views(blocks@[fi]@)[fj] == (blocks@[fi]@[fj].0@, blocks@[fi]@[fj].1));
                    assert(ts_block(bv, t, c, fi)[fj].0 == tx@);
                    assert forall|q: int| 0 <= q < fi implies !has_later(#[trigger] ts_block(bv, t, c, q), t) by {
                        lemma_later_views(blocks@[q]@, t);
                        assert(!has_after(blocks@[q]@, t));
                    }
                    assert(found_after(bv, t, c, fi, fj));
                }
                self.get_lifeline_tx(&tx)
            },
            None => {
                proof {
                    assert forall|q: int| 0 <= q < 15 implies !has_later(#[trigger] ts_block(bv, t, c, q), t) by {
                        lemma_later_views(blocks@[q]@, t);
                        assert(!has_after(blocks@[q]@, t));
                    }
                }
                None
            },
        }
    }

    /// The entry stored under `key`.
    fn get_lifeline_tx(&self, key: &String) -> (r: Option<LifeLineData>)
        ensures
            match r {
                Some(l) => self.entries@.dom().contains(key@) && same_entry(l, self.entries@[key@]),
                None => !self.entries@.dom().contains(key@),
            },
    {
        match self.entries.get(key) {
            Some(l) => Some(copy_lifeline(l)),
            None => None,
        }
    }

    fn update_lifeline_tx(&mut self, data: LifeLineData) -> (r: Result<(), String>)
        ensures
            final(self).entries@ == old(self).entries@.insert(data.timewarp_tx@, data),
            r is Ok,
    {
        let tx = data.timewarp_tx.clone();
        self.entries.insert(tx, data);
        Ok(())
    }

    /// The head of the lifeline.
    fn get_last_lifeline(&self) -> (r: Option<LifeLineData>)
        ensures
            match (r, self.last) {
                (Some(a), Some(b)) => same_entry(a, b),
                (None, None) => true,
                _ => false,
            },
    {
        match &self.last {
            Some(l) => Some(copy_lifeline(l)),
            None => None,
        }
    }

    /// -1 when either transaction is not on the lifeline, else 0 (the
    /// distance is not counted).
    fn find_tx_distance_between_lifelines(&self, start: &String, end: &String) -> (r: i64)
        ensures
            r == (if self.entries@.dom().contains(start@) && self.entries@.dom().contains(end@) { 0i64 } else { -1i64 }),
    {
        if self.entries.contains_key(start) && self.entries.contains_key(end) {
            0
        } else {
            -1
        }
    }
}

} // verus!
