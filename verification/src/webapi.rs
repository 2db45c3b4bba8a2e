//! What the web interface computes: its request and reply records, and the
//! decisions its handlers make between the reads and the replies.
use vstd::prelude::*;
use crate::indexstorage::{PinDescriptor, TimewarpData};
use crate::pathway::PathwayDescriptor;

verus! {

/// A `getTrytes` request.
pub struct IotaHashesRequest {
    pub hashes: Vec<String>,
}

/// A `findTransactions` request.
pub struct IotaFindRequest {
    pub addresses: Vec<String>,
    pub tags: Vec<String>,
    pub bundles: Vec<String>,
    pub approvees: Vec<String>,
}

/// A request to connect two lifeline transactions.
pub struct LifelineSyncRequest {
    pub start: String,
    pub end: String,
}

/// A request to store the transactions of `hashes`.
pub struct CreateStorageRequest {
    pub hashes: Vec<String>,
}

/// How stored transactions connect to the lifeline.
pub struct CreateStorageReponse {
    pub start: String,
    pub pathway: PathwayDescriptor,
    pub node: String,
    pub endpoints: Vec<String>,
    pub is_lifeline: bool,
    pub dependant: String,
}

impl Default for CreateStorageReponse {
    fn default() -> (r: CreateStorageReponse)
        ensures
            r.start@ == Seq::<char>::empty(),
            r.pathway.size == 0,
            r.pathway.tx_count == 0,
            r.pathway.fields@ == Seq::<u8>::empty(),
            r.node@ == Seq::<char>::empty(),
            r.endpoints@.len() == 0,
            !r.is_lifeline,
            r.dependant@ == Seq::<char>::empty(),
    {
        CreateStorageReponse {
            start: String::new(),
            pathway: PathwayDescriptor::new(),
            node: String::new(),
            endpoints: Vec::new(),
            is_lifeline: false,
            dependant: String::new(),
        }
    }
}

impl CreateStorageReponse {
    /// The descriptor to pin: the start transaction, pathway and endpoints,
    /// stamped `now`, with no metadata, splits or lifeline component.
    pub fn to_pin_descriptor(&self, now: i64) -> (r: PinDescriptor)
        ensures
            r.lifeline_tx@ == self.start@,
            r.pathway.model() == self.pathway.model(),
            r.endpoints@.len() == self.endpoints@.len(),
            forall|i: int| 0 <= i < r.endpoints@.len() ==> (#[trigger] r.endpoints@[i])@ == self.endpoints@[i]@,
            r.timestamp == now,
            r.metadata@ == Seq::<char>::empty(),
            r.pathway_index_splits@.len() == 0,
            r.dependant@ == self.dependant@,
            r.lifeline_component is None,
    {
        PinDescriptor {
            lifeline_tx: self.start.clone(),
            pathway: self.pathway.duplicate(),
            endpoints: crate::indexstorage::copy_strings(&self.endpoints),
            timestamp: now,
            metadata: String::new(),
            pathway_index_splits: Vec::new(),
            dependant: self.dependant.clone(),
            lifeline_component: None,
        }
    }
}

/// The status that the web interface reports.
pub struct AIONStatus {
    pub code: i64,
    pub text: String,
    pub problems: Vec<String>,
    pub latest_milestone_timestamp: i64,
    pub latest_milestone_index: i64,
    pub transactions_pinned: i64,
    pub transactions_stored: i64,
    pub last_lifeline: i64,
    pub pin_jobs: i64,
    pub faulty_pin_jobs: i64,
    pub active_timewarps: i64,
    pub inactive_timewarps: i64,
}

/// A chain is active when its latest step is younger than five mean steps.
pub open spec fn is_active(tw: TimewarpData, now: int) -> bool {
    tw.timestamp > now - tw.avg_distance * 5
}

/// How many of the first `n` chains are active.
pub open spec fn active_count(tws: Seq<TimewarpData>, now: int, n: int) -> int
    decreases n,
{
    if n <= 0 {
        0
    } else {
        active_count(tws, now, n - 1) + if is_active(tws[n - 1], now) {
            1int
        } else {
            0
        }
    }
}

/// The number of active and of inactive chains at time `now`.
pub fn timewarp_activity(timewarps: &Vec<TimewarpData>, now: i64) -> (r: (i64, i64))
    requires
        timewarps@.len() <= i64::MAX,
        forall|i: int|
            0 <= i < timewarps@.len() ==> i64::MIN <= (#[trigger] timewarps@[i]).avg_distance * 5
                <= i64::MAX && i64::MIN <= now - timewarps@[i].avg_distance * 5 <= i64::MAX,
    ensures
        r.0 == active_count(timewarps@, now as int, timewarps@.len() as int),
        r.0 + r.1 == timewarps@.len(),
{
    let mut active: i64 = 0;
    let mut inactive: i64 = 0;
    let mut i: usize = 0;
    while i < timewarps.len()
        invariant
            i <= timewarps@.len(),
            timewarps@.len() <= i64::MAX,
            forall|j: int|
                0 <= j < timewarps@.len() ==> i64::MIN <= (#[trigger] timewarps@[j]).avg_distance
                    * 5 <= i64::MAX && i64::MIN <= now - timewarps@[j].avg_distance * 5 <= i64::MAX,
            active == active_count(timewarps@, now as int, i as int),
            0 <= active <= i,
            active + inactive == i,
        decreases timewarps@.len() - i,
    {
        let tw = &timewarps[i];
        assert(i64::MIN <= tw.avg_distance * 5 <= i64::MAX);
        assert(i64::MIN <= now - tw.avg_distance * 5 <= i64::MAX);
        if tw.timestamp > now - (tw.avg_distance * 5) {
            active = active + 1;
        } else {
            inactive = inactive + 1;
        }
        i = i + 1;
    }
    (active, inactive)
}

/// The bytes of `true`.
pub open spec fn true_bytes() -> Seq<u8> {
    seq![116u8, 114u8, 117u8, 101u8]
}

/// The status code and text: 0 and `Ok` once everything has started (the
/// stored flag reads `true`), else 1 and `Starting`.
pub fn start_status(all_started: &Vec<u8>) -> (r: (i64, String))
    ensures
        all_started@ == true_bytes() ==> r.0 == 0 && r.1@ == "Ok"@,
        all_started@ != true_bytes() ==> r.0 == 1 && r.1@ == "Starting"@,
{
    let started = all_started.len() == 4 && all_started[0] == 116u8 && all_started[1] == 114u8
        && all_started[2] == 117u8 && all_started[3] == 101u8;
    proof {
        if all_started@.len() == 4 && all_started@[0] == 116u8 && all_started@[1] == 114u8
            && all_started@[2] == 117u8 && all_started@[3] == 101u8 {
            assert(all_started@ =~= true_bytes());
        }
    }
    if started {
        (0, "Ok".to_owned())
    } else {
        (1, "Starting".to_owned())
    }
}

/// What a `getTrytes` request through the proxy does, given how many of
/// the requested transactions are missing locally.
#[derive(Clone, Copy, Debug, PartialEq, Eq, Structural)]
pub enum ProxyAction {
    /// Everything is stored here.
    ServeLocal,
    /// Nothing is stored here: pass the request on.
    Forward,
    /// Fetch the missing ones and merge.
    Merge,
}

pub fn proxy_action(requested: usize, missing: usize) -> (r: ProxyAction)
    ensures
        missing == 0 ==> r == ProxyAction::ServeLocal,
        missing != 0 && missing == requested ==> r == ProxyAction::Forward,
        missing != 0 && missing != requested ==> r == ProxyAction::Merge,
{
    if missing == 0 {
        ProxyAction::ServeLocal
    } else if missing == requested {
        ProxyAction::Forward
    } else {
        ProxyAction::Merge
    }
}

/// Position `i` is among the missing positions.
pub open spec fn is_missing(missing: Seq<usize>, i: int) -> bool {
    exists|j: int| 0 <= j < missing.len() && #[trigger] missing[j] as int == i
}

/// The local trytes with those at the missing positions taken from the node.
pub fn merge_trytes(local: Vec<String>, missing: &Vec<usize>, remote: &Vec<String>) -> (r: Vec<String>)
    requires
        forall|i: int| 0 <= i < missing@.len() ==> #[trigger] missing@[i] < local@.len(),
        forall|i: int| 0 <= i < missing@.len() ==> #[trigger] missing@[i] < remote@.len(),
    ensures
        r@.len() == local@.len(),
        forall|i: int|
            0 <= i < r@.len() ==> (#[trigger] r@[i])@ == (if is_missing(missing@, i) {
                remote@[i]@
            } else {
                local@[i]@
            }),
{
    let mut result = local;
    let mut k: usize = 0;
    while k < missing.len()
        invariant
            k <= missing@.len(),
            result@.len() == local@.len(),
            forall|i: int| 0 <= i < missing@.len() ==> #[trigger] missing@[i] < local@.len(),
            forall|i: int| 0 <= i < missing@.len() ==> #[trigger] missing@[i] < remote@.len(),
            forall|i: int|
                0 <= i < result@.len() ==> (#[trigger] result@[i])@ == (if is_missing(
                    missing@.subrange(0, k as int),
                    i,
                ) {
                    remote@[i]@
                } else {
                    local@[i]@
                }),
        decreases missing@.len() - k,
    {
        let m = missing[k];
        result.set(m, remote[m].clone());
        proof {
            let before = missing@.subrange(0, k as int);
            let after = missing@.subrange(0, k + 1);
            assert(after =~= before.push(m));
            assert forall|i: int| 0 <= i < result@.len() implies (#[trigger] result@[i])@ == (if is_missing(
                after,
                i,
            ) {
                remote@[i]@
            } else {
                local@[i]@
            }) by {
                assert(after[k as int] == m);
                if i == m as int {
                    assert(is_missing(after, i));
                } else {
                    if is_missing(after, i) {
                        let j = choose|j: int| 0 <= j < after.len() && #[trigger] after[j] as int == i;
                        assert(j != k);
                        assert(before[j] == after[j]);
                        assert(is_missing(before, i));
                    }
                    if is_missing(before, i) {
                        let j = choose|j: int| 0 <= j < before.len() && #[trigger] before[j] as int == i;
                        assert(after[j] == before[j]);
                        assert(is_missing(after, i));
                    }
                }
            }
        }
        k = k + 1;
    }
    proof {
        assert(missing@.subrange(0, missing@.len() as int) =~= missing@);
    }
    result
}

/// Most seconds that the transactions of one storage request may lie apart.
pub const MAX_STORAGE_SPREAD: i64 = 180;

/// The smallest and largest timestamp, starting from 9999999999999999 and 0.
pub open spec fn min_from(ts: Seq<i64>, n: int) -> int
    decreases n,
{
    if n <= 0 {
        9999999999999999
    } else {
        let m = min_from(ts, n - 1);
        if ts[n - 1] < m {
            ts[n - 1] as int
        } else {
            m
        }
    }
}

pub open spec fn max_from(ts: Seq<i64>, n: int) -> int
    decreases n,
{
    if n <= 0 {
        0
    } else {
        let m = max_from(ts, n - 1);
        if ts[n - 1] > m {
            ts[n - 1] as int
        } else {
            m
        }
    }
}

/// The smallest and the largest timestamp of the transactions to store
/// (at most 9999999999999999 and at least 0).
pub fn storage_window(timestamps: &Vec<i64>) -> (r: (i64, i64))
    ensures
        r.0 == min_from(timestamps@, timestamps@.len() as int),
        r.1 == max_from(timestamps@, timestamps@.len() as int),
{
    let mut min: i64 = 9999999999999999;
    let mut max: i64 = 0;
    let mut i: usize = 0;
    while i < timestamps.len()
        invariant
            i <= timestamps@.len(),
            min == min_from(timestamps@, i as int),
            max == max_from(timestamps@, i as int),
        decreases timestamps@.len() - i,
    {
        if timestamps[i] < min {
            min = timestamps[i];
        }
        if timestamps[i] > max {
            max = timestamps[i];
        }
        i = i + 1;
    }
    (min, max)
}

/// Whether the timestamps lie too far apart to be stored in one request.
pub fn storage_window_too_wide(min: i64, max: i64) -> (r: bool)
    requires
        i64::MIN <= max - min <= i64::MAX,
    ensures
        r == (max - min > MAX_STORAGE_SPREAD),
{
    max - min > MAX_STORAGE_SPREAD
}

/// Where to connect stored transactions: the lifeline entry nearest to
/// `oldest + 180` when that is more than 180 seconds ago, else (`None`) the
/// head of the lifeline.
pub fn lifeline_lookup(now: i64, oldest: i64) -> (r: Option<i64>)
    requires
        now - MAX_STORAGE_SPREAD >= i64::MIN,
        oldest + MAX_STORAGE_SPREAD <= i64::MAX,
    ensures
        now - MAX_STORAGE_SPREAD > oldest ==> r == Some((oldest + MAX_STORAGE_SPREAD) as i64),
        now - MAX_STORAGE_SPREAD <= oldest ==> r is None,
{
    if now - MAX_STORAGE_SPREAD > oldest {
        Some(oldest + MAX_STORAGE_SPREAD)
    } else {
        None
    }
}

} // verus!
