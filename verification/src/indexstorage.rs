//! The records kept about timewarps, lifelines and pull jobs, and the
//! arithmetic of the time index that groups them.
use vstd::prelude::*;
use vstd::string::StrSliceExecFns;
use vstd::string::StringSliceAdditionalSpecFns;
use crate::pathway::PathwayDescriptor;
use crate::strmap::StrMap;
use crate::timewarping::Timewarp;
use crate::timewarpselecting::TimewarpSelectionState;
use crate::aionmodel::lifeline_subgraph::{GraphEntryEvent, LifelineSubGraph};
use std::collections::HashMap;
use sha2::{Digest, Sha256};

verus! {

pub const TIMEWARP_ID_PREFIX: &'static str = "TW_ID";
pub const LMI_CONST: &'static str = "LMI";
pub const LMI_TIME: &'static str = "LMI_TIME";
pub const TIME_SINCE_LL_CONNECT: &'static str = "LL_CONNECT";
pub const ALL_STARTED: &'static str = "ALL_STARTED";
pub const LAST_PICKED_TW_ID: &'static str = "LAST_PICKED_TW_ID";
pub const TW_ISSUING_STATE: &'static str = "TW_ISSUING_STATE";
pub const PIN_STATUS_AWAIT: &'static str = "await";
pub const PIN_STATUS_IN_PROGRESS: &'static str = "in progress";
pub const PIN_STATUS_NODE_ERROR: &'static str = "node error";
pub const PIN_STATUS_PIN_ERROR: &'static str = "pinning error";
pub const PIN_STATUS_TRANSACTION_NOT_FOUND: &'static str = "transaction not found error";
pub const P_CACHE_LAST_LIFELIFE: &'static str = "LAST_LIFELINE";
pub const P_CACHE_UNPINNED_LIFELIFE: &'static str = "UNPINNED_LIFELINE";
pub const P_CACHE_PULLJOB: &'static str = "P_CACHE_PULLJOB";
pub const P_CACHE_FAULTY_PULLJOB: &'static str = "P_CACHE_FAULTY_PULLJOB";
pub const P_CACHE_LIFELINE_SUBGRAPH: &'static str = "P_CACHE_LIFELINE_SUBGRAPH";

/// The remainder of `t` divided by `c`, carrying the sign of `t`
/// (the remainder that integer `%` computes).
pub open spec fn trunc_rem(t: int, c: int) -> int {
    let m = if c < 0 { -c } else { c };
    if t >= 0 {
        t % m
    } else {
        -((-t) % m)
    }
}

/// The time-index key of timestamp `t` for clusters of `c` seconds.
pub open spec fn time_key(t: int, c: int) -> int {
    t - trunc_rem(t, c)
}

/// The key of a timestamp: the timestamp with its remainder modulo the
/// cluster width taken away.
pub fn get_time_key(timestamp: &i64, clustering: i64) -> (r: i64)
    requires
        clustering != 0,
        !(*timestamp == i64::MIN && clustering == -1),
    ensures
        r == time_key(*timestamp as int, clustering as int),
{
    let t = *timestamp;
    let m: u64 = if clustering < 0 {
        if clustering == i64::MIN {
            0x8000_0000_0000_0000u64
        } else {
            (-clustering) as u64
        }
    } else {
        clustering as u64
    };
    if t >= 0 {
        let rem: u64 = (t as u64) % m;
        proof {
            vstd::arithmetic::div_mod::lemma_mod_decreases(t as nat, m as nat);
        }
        t - (rem as i64)
    } else {
        let neg: u64 = if t == i64::MIN {
            0x8000_0000_0000_0000u64
        } else {
            (-t) as u64
        };
        let rem: u64 = neg % m;
        proof {
            vstd::arithmetic::div_mod::lemma_mod_decreases(neg as nat, m as nat);
        }
        if rem == 0 {
            t
        } else {
            t + (rem as i64)
        }
    }
}

/// For a positive cluster width and a timestamp not before the epoch, the
/// key is a multiple of the width at most the timestamp and less than one
/// width below it.
pub proof fn lemma_time_key_bounds(t: int, c: int)
    requires
        c > 0,
        t >= 0,
    ensures
        time_key(t, c) <= t < time_key(t, c) + c,
        time_key(t, c) % c == 0,
        time_key(t, c) >= 0,
{
    vstd::arithmetic::div_mod::lemma_fundamental_div_mod(t, c);
    vstd::arithmetic::div_mod::lemma_mod_bound(t, c);
    assert(time_key(t, c) == c * (t / c));
    vstd::arithmetic::div_mod::lemma_mod_multiples_basic(t / c, c);
    assert((t / c) * c == c * (t / c)) by (nonlinear_arith);
    assert(t / c >= 0) by (nonlinear_arith)
        requires
            t >= 0,
            c > 0,
    ;
    assert(c * (t / c) >= 0) by (nonlinear_arith)
        requires
            t / c >= 0,
            c > 0,
    ;
}

/// Taking the key of a key changes nothing.
pub proof fn lemma_time_key_idempotent(t: int, c: int)
    requires
        c > 0,
        t >= 0,
    ensures
        time_key(time_key(t, c), c) == time_key(t, c),
{
    lemma_time_key_bounds(t, c);
}

/// Every key of a range: `first + c`, `first + 2c`, ... for the keys that
/// lie below `end` once `c` is taken away, as `get_time_key_range` lists them.
pub open spec fn range_element(first: int, c: int, i: int) -> int {
    first + (i + 1) * c
}

/// The keys from the key of `start` up to `end`, each one cluster past the
/// previous one; the first listed is one cluster past the key of `start`.
pub fn get_time_key_range(start: &i64, end: &i64, clustering: i64) -> (r: Vec<i64>)
    requires
        clustering > 0,
        forall|n: int|
            0 <= n && #[trigger] range_element(time_key(*start as int, clustering as int), clustering as int, n)
                - clustering < *end ==> range_element(
                time_key(*start as int, clustering as int),
                clustering as int,
                n,
            ) <= i64::MAX,
    ensures
        forall|i: int|
            0 <= i < r@.len() ==> #[trigger] r@[i] == range_element(
                time_key(*start as int, clustering as int),
                clustering as int,
                i,
            ),
        time_key(*start as int, clustering as int) + r@.len() * clustering >= *end,
        r@.len() > 0 ==> time_key(*start as int, clustering as int) + (r@.len() - 1) * clustering
            < *end,
{
    let mut to_return: Vec<i64> = Vec::new();
    let first = get_time_key(start, clustering);
    let ghost k0 = first as int;
    let ghost c = clustering as int;
    let mut next = first;
    assert(to_return@.len() == 0);
    assert(next == k0 + to_return@.len() * c);
    while next < *end
        invariant
            clustering > 0,
            c == clustering,
            k0 == time_key(*start as int, c),
            forall|n: int| 0 <= n && #[trigger] range_element(k0, c, n) - c < *end ==> range_element(k0, c, n) <= i64::MAX,
            next == k0 + to_return@.len() * c,
            forall|i: int|
                0 <= i < to_return@.len() ==> #[trigger] to_return@[i] == range_element(k0, c, i),
            to_return@.len() > 0 ==> k0 + (to_return@.len() - 1) * c < *end,
        decreases *end + clustering - next,
    {
        let ghost n = to_return@.len() as int;
        assert(k0 + (n + 1) * c == k0 + n * c + c) by (nonlinear_arith);
        assert(range_element(k0, c, n) - c < *end);
        to_return.push(next + clustering);
        next = next + clustering;
        proof {
            assert(to_return@.len() == n + 1);
            assert(to_return@[n] == range_element(k0, c, n));
        }
    }
    to_return
}

/// The texts of a block's values.
pub open spec fn text_map(m: Map<Seq<char>, String>) -> Map<Seq<char>, Seq<char>> {
    m.map_values(|v: String| v@)
}

/// The empty string, for fields that a stored record may lack.
pub fn empty() -> (r: String)
    ensures
        r@ == Seq::<char>::empty(),
{
    String::new()
}

/// `false`, for flags that a stored record may lack.
pub fn default_false() -> (r: bool)
    ensures
        !r,
{
    false
}

/// `None`, for optional fields that a stored record may lack.
pub fn default_none<T>() -> (r: Option<T>)
    ensures
        r is None,
{
    None
}

/// The statistics kept about one timewarp chain, as of its latest step.
pub struct TimewarpData {
    pub timewarpid: String,
    pub hash: String,
    pub trunk: String,
    pub branch: String,
    pub distance: i64,
    pub trunk_or_branch: bool,
    pub timestamp: i64,
    pub avg_distance: i64,
    pub index_since_id: i64,
}

/// `a / b` rounded toward zero, as integer division computes it.
pub open spec fn trunc_div(a: int, b: int) -> int {
    let q = (if a >= 0 { a } else { -a }) / (if b >= 0 { b } else { -b });
    if (a >= 0) == (b >= 0) {
        q
    } else {
        -q
    }
}

/// The running mean after one more step of `d`, from a mean `avg` over `n` steps.
pub open spec fn next_average(avg: int, n: int, d: int) -> int {
    trunc_div(avg * n + d, n + 1)
}

/// The score of a chain: its length, capped at 100, times its mean step,
/// capped at 120.
pub open spec fn score_of(index_since_id: int, avg_distance: int) -> int {
    (if index_since_id < 100 { index_since_id } else { 100 }) * (if avg_distance < 120 {
        avg_distance
    } else {
        120
    })
}

impl TimewarpData {
    /// The transaction that the latest step references.
    pub open spec fn target_spec(&self) -> Seq<char> {
        if self.trunk_or_branch {
            self.trunk@
        } else {
            self.branch@
        }
    }

    /// The chain after the step `new_data`: one step longer, its mean step
    /// updated, and the latest step's transaction, parents and time taken over.
    pub fn advance(&self, new_data: &Timewarp) -> (r: TimewarpData)
        requires
            self.index_since_id + 1 <= i64::MAX,
            self.index_since_id + 1 != 0,
            i64::MIN <= self.avg_distance * self.index_since_id <= i64::MAX,
            i64::MIN <= self.avg_distance * self.index_since_id + new_data.distance <= i64::MAX,
            !(self.avg_distance * self.index_since_id + new_data.distance == i64::MIN
                && self.index_since_id + 1 == -1),
        ensures
            r.timewarpid@ == self.timewarpid@,
            r.hash@ == new_data.source_hash@,
            r.branch@ == new_data.source_branch@,
            r.trunk@ == new_data.source_trunk@,
            r.timestamp == new_data.source_timestamp,
            r.distance == new_data.distance,
            r.index_since_id == self.index_since_id + 1,
            r.avg_distance == next_average(
                self.avg_distance as int,
                self.index_since_id as int,
                new_data.distance as int,
            ),
            r.trunk_or_branch == self.trunk_or_branch,
    {
        let total: i64 = self.avg_distance * self.index_since_id + new_data.distance;
        let count: i64 = self.index_since_id + 1;
        TimewarpData {
            timewarpid: self.timewarpid.clone(),
            hash: new_data.source_hash.clone(),
            branch: new_data.source_branch.clone(),
            trunk: new_data.source_trunk.clone(),
            timestamp: new_data.source_timestamp,
            distance: new_data.distance,
            index_since_id: count,
            avg_distance: truncating_div(total, count),
            trunk_or_branch: self.trunk_or_branch,
        }
    }

    pub fn target_hash(&self) -> (r: String)
        ensures
            r@ == self.target_spec(),
    {
        if self.trunk_or_branch {
            self.trunk.clone()
        } else {
            self.branch.clone()
        }
    }

    pub fn score(&self) -> (r: isize)
        requires
            isize::MIN <= score_of(self.index_since_id as int, self.avg_distance as int)
                <= isize::MAX,
        ensures
            r == score_of(self.index_since_id as int, self.avg_distance as int),
    {
        let a: i64 = if self.index_since_id < 100 {
            self.index_since_id
        } else {
            100
        };
        let b: i64 = if self.avg_distance < 120 {
            self.avg_distance
        } else {
            120
        };
        assert(i64::MIN <= a * b <= i64::MAX);
        (a * b) as isize
    }

    /// The highest score a chain can reach.
    pub fn max_score() -> (r: isize)
        ensures
            r == score_of(100, 120),
    {
        12000
    }

    /// A field-for-field copy.
    pub fn duplicate(&self) -> (r: TimewarpData)
        ensures
            r.same(*self),
    {
        TimewarpData {
            timewarpid: self.timewarpid.clone(),
            hash: self.hash.clone(),
            trunk: self.trunk.clone(),
            branch: self.branch.clone(),
            distance: self.distance,
            trunk_or_branch: self.trunk_or_branch,
            timestamp: self.timestamp,
            avg_distance: self.avg_distance,
            index_since_id: self.index_since_id,
        }
    }

    /// Both records hold the same values.
    pub open spec fn same(&self, o: TimewarpData) -> bool {
        &&& self.timewarpid@ == o.timewarpid@
        &&& self.hash@ == o.hash@
        &&& self.trunk@ == o.trunk@
        &&& self.branch@ == o.branch@
        &&& self.distance == o.distance
        &&& self.trunk_or_branch == o.trunk_or_branch
        &&& self.timestamp == o.timestamp
        &&& self.avg_distance == o.avg_distance
        &&& self.index_since_id == o.index_since_id
    }
}

/// What `advance` needs of a chain and a step: the new count and running
/// total fit, and the mean can be taken.
pub open spec fn can_advance(d: TimewarpData, tw: Timewarp) -> bool {
    &&& d.index_since_id + 1 <= i64::MAX
    &&& d.index_since_id + 1 != 0
    &&& i64::MIN <= d.avg_distance * d.index_since_id <= i64::MAX
    &&& i64::MIN <= d.avg_distance * d.index_since_id + tw.distance <= i64::MAX
    &&& !(d.avg_distance * d.index_since_id + tw.distance == i64::MIN && d.index_since_id + 1 == -1)
}

/// `r` is the record of the step `tw`: the chain `prev` advanced by it, or
/// (without `prev`) a new chain `new_id` that starts at it.
pub open spec fn is_decision(r: TimewarpData, prev: Option<TimewarpData>, tw: Timewarp, new_id: Seq<char>) -> bool {
    &&& match prev {
        Some(p) => {
            &&& r.timewarpid@ == p.timewarpid@
            &&& r.index_since_id == p.index_since_id + 1
            &&& r.avg_distance == next_average(p.avg_distance as int, p.index_since_id as int, tw.distance as int)
            &&& r.trunk_or_branch == p.trunk_or_branch
        },
        None => {
            &&& r.timewarpid@ == new_id
            &&& r.index_since_id == 0
            &&& r.avg_distance == tw.distance
            &&& r.trunk_or_branch == tw.trunk_or_branch
        },
    }
    &&& r.hash@ == tw.source_hash@
    &&& r.branch@ == tw.source_branch@
    &&& r.trunk@ == tw.source_trunk@
    &&& r.timestamp == tw.source_timestamp
    &&& r.distance == tw.distance
}

impl TimewarpData {
    /// The chain statistics after the step `tw`: the chain of its target
    /// advanced when that is known (`previous`), else a new chain named
    /// `new_id` that starts at `tw`, at index 0 with its distance as mean.
    pub fn decision_data(previous: Option<&TimewarpData>, tw: &Timewarp, new_id: String) -> (r: TimewarpData)
        requires
            previous matches Some(p) ==> can_advance(*p, *tw),
        ensures
            is_decision(r, match previous { Some(p) => Some(*p), None => None }, *tw, new_id@),
    {
        let r = TimewarpData::decision_data_fields(previous, tw, new_id);
        r
    }

    fn decision_data_fields(previous: Option<&TimewarpData>, tw: &Timewarp, new_id: String) -> (r: TimewarpData)
        requires
            previous matches Some(p) ==> can_advance(*p, *tw),
        ensures
            match previous {
                Some(p) => {
                    &&& r.timewarpid@ == p.timewarpid@
                    &&& r.index_since_id == p.index_since_id + 1
                    &&& r.avg_distance == next_average(p.avg_distance as int, p.index_since_id as int, tw.distance as int)
                    &&& r.trunk_or_branch == p.trunk_or_branch
                },
                None => {
                    &&& r.timewarpid@ == new_id@
                    &&& r.index_since_id == 0
                    &&& r.avg_distance == tw.distance
                    &&& r.trunk_or_branch == tw.trunk_or_branch
                },
            },
            r.hash@ == tw.source_hash@,
            r.branch@ == tw.source_branch@,
            r.trunk@ == tw.source_trunk@,
            r.timestamp == tw.source_timestamp,
            r.distance == tw.distance,
    {
        match previous {
            Some(p) => p.advance(tw),
            None => TimewarpData {
                timewarpid: new_id,
                hash: tw.source_hash.clone(),
                branch: tw.source_branch.clone(),
                trunk: tw.source_trunk.clone(),
                timestamp: tw.source_timestamp,
                distance: tw.distance,
                index_since_id: 0,
                avg_distance: tw.distance,
                trunk_or_branch: tw.trunk_or_branch,
            },
        }
    }
}

/// Integer division rounded toward zero.
pub(crate) fn truncating_div(a: i64, b: i64) -> (r: i64)
    requires
        b != 0,
        !(a == i64::MIN && b == -1),
    ensures
        r == trunc_div(a as int, b as int),
{
    let ua: u64 = if a >= 0 {
        a as u64
    } else if a == i64::MIN {
        0x8000_0000_0000_0000u64
    } else {
        (-a) as u64
    };
    let ub: u64 = if b >= 0 {
        b as u64
    } else if b == i64::MIN {
        0x8000_0000_0000_0000u64
    } else {
        (-b) as u64
    };
    let q: u64 = ua / ub;
    proof {
        assert(q <= ua) by (nonlinear_arith)
            requires
                ub >= 1,
                q == ua / ub,
        ;
        if ub == 1 {
            vstd::arithmetic::div_mod::lemma_div_basics(ua as int);
        } else {
            assert(q * 2 <= ua) by (nonlinear_arith)
                requires
                    ub >= 2,
                    q == ua / ub,
            ;
        }
    }
    if (a >= 0) == (b >= 0) {
        q as i64
    } else {
        if q == 0x8000_0000_0000_0000u64 {
            i64::MIN
        } else {
            -(q as i64)
        }
    }
}

/// The view of an optional string.
pub open spec fn opt_str(o: Option<String>) -> Option<Seq<char>> {
    match o {
        Some(s) => Some(s@),
        None => None,
    }
}

/// A copy of an optional string.
pub fn copy_opt_string(o: &Option<String>) -> (r: Option<String>)
    ensures
        opt_str(r) == opt_str(*o),
{
    match o {
        Some(s) => Some(s.clone()),
        None => None,
    }
}

/// A copy of a list of strings.
pub fn copy_strings(v: &Vec<String>) -> (r: Vec<String>)
    ensures
        r@.len() == v@.len(),
        forall|i: int| 0 <= i < v@.len() ==> (#[trigger] r@[i])@ == v@[i]@,
{
    let mut r: Vec<String> = Vec::new();
    let mut i: usize = 0;
    while i < v.len()
        invariant
            i <= v@.len(),
            r@.len() == i,
            forall|j: int| 0 <= j < i ==> (#[trigger] r@[j])@ == v@[j]@,
        decreases v@.len() - i,
    {
        r.push(v[i].clone());
        i = i + 1;
    }
    r
}

/// The state of this node's own timewarp chain.
pub struct TimewarpIssuingState {
    pub seed: String,
    pub original_tx: String,
    pub unconfirmed_txs: Vec<String>,
    /// Issue time of every transaction that is not confirmed yet.
    pub tx_timestamp: StrMap<i64>,
    pub latest_confimed_tx: String,
    pub latest_timestamp: i64,
    pub latest_confimed_timestamp: i64,
    pub latest_index: String,
    pub latest_private_key: Vec<i8>,
}

/// Whether a tag is long enough to name a chain: ASCII with at least 24 characters.
pub open spec fn tag_names_chain(tag: Seq<char>) -> bool {
    vstd::utf8::is_ascii_chars(tag) && tag.len() >= 24
}

/// The id of the chain that a timewarp with this tag starts: characters
/// 16 to 24 of the tag.
pub open spec fn tag_chain_id(tag: Seq<char>) -> Seq<char> {
    tag.subrange(16, 24)
}

/// The id of the chain that a timewarp with this tag starts.
pub fn chain_id_of_tag(tag: &String) -> (r: String)
    requires
        tag_names_chain(tag@),
    ensures
        r@ == tag_chain_id(tag@),
{
    tag.as_str().substring_ascii(16, 24).to_owned()
}

/// The first nine bytes of a text, read back as text.
pub open spec fn first_nine(s: Seq<char>) -> Seq<char> {
    vstd::utf8::decode_utf8(vstd::utf8::encode_utf8(s).subrange(0, 9))
}

/// The identifier that `random_id` gives for a first transaction.
pub open spec fn random_id_spec(original_tx: Seq<char>) -> Seq<char> {
    if vstd::utf8::encode_utf8(original_tx).len() >= 9 {
        first_nine(original_tx)
    } else {
        default_random_id()
    }
}

/// The identifier that stands for a chain whose first transaction is unknown.
pub open spec fn default_random_id() -> Seq<char> {
    seq!['9', '9', '9', '9', '9', '9', '9', '9', '9']
}

impl TimewarpIssuingState {
    /// Both states hold the same values.
    pub open spec fn same(&self, o: TimewarpIssuingState) -> bool {
        &&& self.seed@ == o.seed@
        &&& self.original_tx@ == o.original_tx@
        &&& texts(self.unconfirmed_txs@) == texts(o.unconfirmed_txs@)
        &&& self.tx_timestamp@ == o.tx_timestamp@
        &&& self.latest_confimed_tx@ == o.latest_confimed_tx@
        &&& self.latest_timestamp == o.latest_timestamp
        &&& self.latest_confimed_timestamp == o.latest_confimed_timestamp
        &&& self.latest_index@ == o.latest_index@
        &&& self.latest_private_key@ == o.latest_private_key@
    }

    /// A field-for-field copy.
    pub fn duplicate(&self) -> (r: TimewarpIssuingState)
        ensures
            r.same(*self),
    {
        let unconfirmed = copy_strings(&self.unconfirmed_txs);
        let mut key: Vec<i8> = Vec::new();
        let mut i: usize = 0;
        while i < self.latest_private_key.len()
            invariant
                i <= self.latest_private_key@.len(),
                key@ == self.latest_private_key@.subrange(0, i as int),
            decreases self.latest_private_key@.len() - i,
        {
            key.push(self.latest_private_key[i]);
            i = i + 1;
        }
        proof {
            assert(texts(unconfirmed@) =~= texts(self.unconfirmed_txs@));
            assert(key@ =~= self.latest_private_key@);
        }
        TimewarpIssuingState {
            seed: self.seed.clone(),
            original_tx: self.original_tx.clone(),
            unconfirmed_txs: unconfirmed,
            tx_timestamp: self.tx_timestamp.duplicate(),
            latest_confimed_tx: self.latest_confimed_tx.clone(),
            latest_timestamp: self.latest_timestamp,
            latest_confimed_timestamp: self.latest_confimed_timestamp,
            latest_index: self.latest_index.clone(),
            latest_private_key: key,
        }
    }

    /// The newest transaction of the chain: the last unconfirmed one, or the
    /// last confirmed one when all are confirmed.
    pub open spec fn latest_tx_spec(&self) -> Seq<char> {
        if self.unconfirmed_txs@.len() == 0 {
            self.latest_confimed_tx@
        } else {
            self.unconfirmed_txs@.last()@
        }
    }

    pub fn latest_tx(&self) -> (r: String)
        ensures
            r@ == self.latest_tx_spec(),
    {
        if self.unconfirmed_txs.len() == 0 {
            self.latest_confimed_tx.clone()
        } else {
            self.unconfirmed_txs[self.unconfirmed_txs.len() - 1].clone()
        }
    }

    /// The number that the latest index stands for.
    pub fn latest_index_num(&self) -> (r: i64)
        requires
            self.latest_index@.len() <= 13,
        ensures
            r == crate::signing::trit_value(crate::signing::trits_of(self.latest_index@)),
    {
        crate::signing::trytes_to_number(self.latest_index.as_str())
    }

    /// The first nine bytes of the chain's first transaction, which mark the
    /// chain's tags; nine `9`s while that transaction is shorter.
    pub fn random_id(&self) -> (r: &str)
        requires
            vstd::utf8::encode_utf8(self.original_tx@).len() >= 9 ==> vstd::utf8::is_char_boundary(
                vstd::utf8::encode_utf8(self.original_tx@),
                9,
            ),
        ensures
            vstd::utf8::encode_utf8(self.original_tx@).len() >= 9 ==> r.spec_bytes()
                == vstd::utf8::encode_utf8(self.original_tx@).subrange(0, 9),
            vstd::utf8::encode_utf8(self.original_tx@).len() < 9 ==> r@ == default_random_id(),
            r@ == random_id_spec(self.original_tx@),
    {
        let s = self.original_tx.as_str();
        proof {
            vstd::utf8::encode_utf8_valid_utf8(self.original_tx@);
            assert(s.spec_bytes() == vstd::utf8::encode_utf8(self.original_tx@));
        }
        if s.is_char_boundary(9) {
            proof {
                assert(vstd::utf8::encode_utf8(self.original_tx@).len() >= 9);
            }
            let (a, _b) = s.split_at(9);
            proof {
                vstd::utf8::encode_utf8_decode_utf8(a@);
            }
            a
        } else {
            let d = "999999999";
            proof {
                reveal_strlit("999999999");
            }
            d
        }
    }
}

/// One way from a lifeline transaction back towards an older part of the lifeline.
pub struct LifeLinePathData {
    pub transactions_till_oldest: i64,
    pub oldest_tx: String,
    pub oldest_timestamp: i64,
    pub connecting_pathway: PathwayDescriptor,
    pub connecting_timestamp: i64,
    pub connecting_timewarp: String,
}

/// One transaction of the lifeline, with the ways back from it.
pub struct LifeLineData {
    pub timewarp_tx: String,
    pub timestamp: i64,
    pub unpinned_connecting_txs: Vec<String>,
    pub paths: Vec<LifeLinePathData>,
}

impl LifeLinePathData {
    /// Both records hold the same values.
    pub open spec fn same(&self, o: LifeLinePathData) -> bool {
        &&& self.transactions_till_oldest == o.transactions_till_oldest
        &&& self.oldest_tx@ == o.oldest_tx@
        &&& self.oldest_timestamp == o.oldest_timestamp
        &&& self.connecting_pathway.model() == o.connecting_pathway.model()
        &&& self.connecting_timestamp == o.connecting_timestamp
        &&& self.connecting_timewarp@ == o.connecting_timewarp@
    }

    /// A field-for-field copy.
    pub fn duplicate(&self) -> (r: LifeLinePathData)
        ensures
            r.same(*self),
    {
        LifeLinePathData {
            transactions_till_oldest: self.transactions_till_oldest,
            oldest_tx: self.oldest_tx.clone(),
            oldest_timestamp: self.oldest_timestamp,
            connecting_pathway: self.connecting_pathway.duplicate(),
            connecting_timestamp: self.connecting_timestamp,
            connecting_timewarp: self.connecting_timewarp.clone(),
        }
    }

    /// A lifeline entry for the transaction this path connects to, with no
    /// paths and nothing left to pin.
    pub fn connecting_empty_ll_data(&self) -> (r: LifeLineData)
        ensures
            r.timewarp_tx@ == self.connecting_timewarp@,
            r.timestamp == self.connecting_timestamp,
            r.unpinned_connecting_txs@.len() == 0,
            r.paths@.len() == 0,
    {
        LifeLineData {
            timewarp_tx: self.connecting_timewarp.clone(),
            unpinned_connecting_txs: Vec::new(),
            timestamp: self.connecting_timestamp,
            paths: Vec::new(),
        }
    }
}

/// Position `i` is the first path of `paths` that leads to `direction`.
pub open spec fn first_path_towards(paths: Seq<LifeLinePathData>, direction: Seq<char>, i: int) -> bool {
    &&& 0 <= i < paths.len()
    &&& paths[i].oldest_tx@ == direction
    &&& forall|j: int| 0 <= j < i ==> (#[trigger] paths[j]).oldest_tx@ != direction
}

impl LifeLineData {
    /// The first path that leads back to `direction`, if any does.
    pub fn walk_towards(&self, direction: String) -> (r: Option<LifeLinePathData>)
        ensures
            match r {
                Some(p) => exists|i: int|
                    first_path_towards(self.paths@, direction@, i) && p.same(
                        #[trigger] self.paths@[i],
                    ),
                None => forall|j: int|
                    0 <= j < self.paths@.len() ==> (#[trigger] self.paths@[j]).oldest_tx@
                        != direction@,
            },
    {
        let mut i: usize = 0;
        while i < self.paths.len()
            invariant
                i <= self.paths@.len(),
                forall|j: int| 0 <= j < i ==> (#[trigger] self.paths@[j]).oldest_tx@ != direction@,
            decreases self.paths@.len() - i,
        {
            if self.paths[i].oldest_tx == direction {
                let p = self.paths[i].duplicate();
                assert(first_path_towards(self.paths@, direction@, i as int));
                return Some(p);
            }
            i = i + 1;
        }
        None
    }
}

impl Default for LifeLineData {
    fn default() -> (r: LifeLineData)
        ensures
            r.timewarp_tx@ == Seq::<char>::empty(),
            r.timestamp == 0,
            r.unpinned_connecting_txs@.len() == 0,
            r.paths@.len() == 0,
    {
        LifeLineData {
            timewarp_tx: String::new(),
            timestamp: 0,
            unpinned_connecting_txs: Vec::new(),
            paths: Vec::new(),
        }
    }
}

/// Code-point order of texts: the first differing character decides, and a
/// proper prefix comes first. On UTF-8 text this is the byte order that
/// comparing strings uses.
pub open spec fn chars_le(a: Seq<char>, b: Seq<char>) -> bool
    decreases a.len(),
{
    if a.len() == 0 {
        true
    } else if b.len() == 0 {
        false
    } else if a[0] != b[0] {
        (a[0] as u32) < (b[0] as u32)
    } else {
        chars_le(a.drop_first(), b.drop_first())
    }
}

/// `x` put into `t` just before the first element that `x` does not exceed.
pub open spec fn insert_ordered(t: Seq<Seq<char>>, x: Seq<char>) -> Seq<Seq<char>>
    decreases t.len(),
{
    if t.len() == 0 {
        seq![x]
    } else if chars_le(x, t[0]) {
        seq![x] + t
    } else {
        seq![t[0]] + insert_ordered(t.drop_first(), x)
    }
}

/// The texts of `s` in ascending order, equal texts kept in their order.
pub open spec fn ordered(s: Seq<Seq<char>>) -> Seq<Seq<char>>
    decreases s.len(),
{
    if s.len() == 0 {
        s
    } else {
        insert_ordered(ordered(s.drop_last()), s.last())
    }
}

/// The texts of a list of strings.
pub open spec fn texts(s: Seq<String>) -> Seq<Seq<char>> {
    s.map_values(|x: String| x@)
}

/// The UTF-8 bytes of every text of `s`, one after the other.
pub open spec fn bytes_of_texts(s: Seq<Seq<char>>) -> Seq<u8>
    decreases s.len(),
{
    if s.len() == 0 {
        Seq::empty()
    } else {
        bytes_of_texts(s.drop_last()) + vstd::utf8::encode_utf8(s.last())
    }
}

proof fn lemma_chars_le_total(a: Seq<char>, b: Seq<char>)
    ensures
        chars_le(a, b) || chars_le(b, a),
    decreases a.len(),
{
    if a.len() > 0 && b.len() > 0 {
        if a[0] == b[0] {
            lemma_chars_le_total(a.drop_first(), b.drop_first());
        } else {
            let x = a[0];
            let y = b[0];
            vstd::utf8::char_u32_cast(x, x as u32);
            vstd::utf8::char_u32_cast(y, y as u32);
            assert((x as u32) != (y as u32));
        }
    }
}

proof fn lemma_chars_le_reflexive(a: Seq<char>)
    ensures
        chars_le(a, a),
    decreases a.len(),
{
    if a.len() > 0 {
        lemma_chars_le_reflexive(a.drop_first());
    }
}

proof fn lemma_chars_le_antisymmetric(a: Seq<char>, b: Seq<char>)
    requires
        chars_le(a, b),
        chars_le(b, a),
    ensures
        a == b,
    decreases a.len(),
{
    if a.len() == 0 {
        assert(b.len() == 0);
        assert(a =~= b);
    } else {
        assert(b.len() > 0);
        assert(a[0] == b[0]);
        lemma_chars_le_antisymmetric(a.drop_first(), b.drop_first());
        assert(a =~= seq![a[0]] + a.drop_first());
        assert(b =~= seq![b[0]] + b.drop_first());
    }
}

proof fn lemma_chars_le_transitive(a: Seq<char>, b: Seq<char>, c: Seq<char>)
    requires
        chars_le(a, b),
        chars_le(b, c),
    ensures
        chars_le(a, c),
    decreases a.len(),
{
    if a.len() > 0 && b.len() > 0 && c.len() > 0 && a[0] == b[0] && b[0] == c[0] {
        lemma_chars_le_transitive(a.drop_first(), b.drop_first(), c.drop_first());
    }
}

/// The texts are in ascending code-point order.
pub open spec fn is_ordered(s: Seq<Seq<char>>) -> bool {
    forall|i: int, j: int| 0 <= i < j < s.len() ==> chars_le(#[trigger] s[i], #[trigger] s[j])
}

proof fn lemma_insert_ordered_sorted(t: Seq<Seq<char>>, x: Seq<char>)
    requires
        is_ordered(t),
    ensures
        is_ordered(insert_ordered(t, x)),
        insert_ordered(t, x).to_multiset() == t.to_multiset().insert(x),
    decreases t.len(),
{
    broadcast use vstd::seq_lib::group_to_multiset_ensures;
    if t.len() == 0 {
        assert(insert_ordered(t, x) =~= t.insert(0, x));
        vstd::seq_lib::to_multiset_insert(t, 0, x);
    } else if chars_le(x, t[0]) {
        assert(insert_ordered(t, x) =~= t.insert(0, x));
        vstd::seq_lib::to_multiset_insert(t, 0, x);
        let r = insert_ordered(t, x);
        assert forall|i: int, j: int| 0 <= i < j < r.len() implies chars_le(#[trigger] r[i], #[trigger] r[j]) by {
            if i == 0 {
                if j > 1 {
                    lemma_chars_le_transitive(x, t[0], t[j - 1]);
                }
            } else {
                assert(r[i] == t[i - 1] && r[j] == t[j - 1]);
            }
        }
    } else {
        let u = t.drop_first();
        assert forall|i: int, j: int| 0 <= i < j < u.len() implies chars_le(#[trigger] u[i], #[trigger] u[j]) by {
            assert(u[i] == t[i + 1] && u[j] == t[j + 1]);
        }
        lemma_insert_ordered_sorted(u, x);
        let w = insert_ordered(u, x);
        let r = insert_ordered(t, x);
        assert(r == seq![t[0]] + w);
        lemma_chars_le_total(x, t[0]);
        assert forall|k: int| 0 <= k < w.len() implies chars_le(t[0], #[trigger] w[k]) by {
            assert(w.to_multiset().count(w[k]) > 0);
            assert(w.contains(w[k]));
            assert(u.to_multiset().insert(x).count(w[k]) > 0);
            if w[k] != x {
                assert(u.to_multiset().count(w[k]) > 0);
                assert(u.contains(w[k]));
                let m = choose|m: int| 0 <= m < u.len() && u[m] == w[k];
                assert(t[m + 1] == w[k]);
            }
        }
        assert forall|i: int, j: int| 0 <= i < j < r.len() implies chars_le(#[trigger] r[i], #[trigger] r[j]) by {
            if i == 0 {
                assert(r[j] == w[j - 1]);
            } else {
                assert(r[i] == w[i - 1] && r[j] == w[j - 1]);
            }
        }
        assert(t =~= seq![t[0]] + u);
        assert(r =~= w.insert(0, t[0]));
        vstd::seq_lib::to_multiset_insert(w, 0, t[0]);
        assert(t =~= u.insert(0, t[0]));
        vstd::seq_lib::to_multiset_insert(u, 0, t[0]);
        assert(r.to_multiset() =~= t.to_multiset().insert(x));
    }
}

proof fn lemma_ordered_sorted(s: Seq<Seq<char>>)
    ensures
        is_ordered(ordered(s)),
        ordered(s).to_multiset() == s.to_multiset(),
    decreases s.len(),
{
    broadcast use vstd::seq_lib::group_to_multiset_ensures;
    if s.len() == 0 {
    } else {
        lemma_ordered_sorted(s.drop_last());
        lemma_insert_ordered_sorted(ordered(s.drop_last()), s.last());
        assert(s =~= s.drop_last().push(s.last()));
    }
}

proof fn lemma_sorted_unique(a: Seq<Seq<char>>, b: Seq<Seq<char>>)
    requires
        is_ordered(a),
        is_ordered(b),
        a.to_multiset() == b.to_multiset(),
    ensures
        a == b,
    decreases a.len(),
{
    broadcast use vstd::seq_lib::group_to_multiset_ensures;
    if a.len() == 0 {
        assert(b.len() == 0);
        assert(a =~= b);
    } else {
        vstd::seq_lib::to_multiset_len(a);
        vstd::seq_lib::to_multiset_len(b);
        assert(b.len() == a.len());
        assert(a.to_multiset().count(a[0]) > 0);
        assert(b.contains(a[0]));
        assert(b.to_multiset().count(b[0]) > 0);
        assert(a.contains(b[0]));
        let ia = choose|i: int| 0 <= i < a.len() && a[i] == b[0];
        let ib = choose|i: int| 0 <= i < b.len() && b[i] == a[0];
        if ib > 0 {
            assert(chars_le(b[0], b[ib]));
        } else {
            lemma_chars_le_reflexive(a[0]);
        }
        if ia > 0 {
            assert(chars_le(a[0], a[ia]));
        } else {
            lemma_chars_le_reflexive(a[0]);
        }
        lemma_chars_le_antisymmetric(a[0], b[0]);
        let a1 = a.drop_first();
        let b1 = b.drop_first();
        assert(a.remove(0) =~= a1);
        assert(b.remove(0) =~= b1);
        vstd::seq_lib::to_multiset_remove(a, 0);
        vstd::seq_lib::to_multiset_remove(b, 0);
        assert forall|i: int, j: int| 0 <= i < j < a1.len() implies chars_le(#[trigger] a1[i], #[trigger] a1[j]) by {
            assert(a1[i] == a[i + 1] && a1[j] == a[j + 1]);
        }
        assert forall|i: int, j: int| 0 <= i < j < b1.len() implies chars_le(#[trigger] b1[i], #[trigger] b1[j]) by {
            assert(b1[i] == b[i + 1] && b1[j] == b[j + 1]);
        }
        lemma_sorted_unique(a1, b1);
        assert(a =~= seq![a[0]] + a1);
        assert(b =~= seq![b[0]] + b1);
        assert(a =~= b);
    }
}

/// The digest of `storage_hash` does not depend on the order in which the
/// endpoints are listed: any two lists with the same endpoints (counted
/// with repetition) give the same digest.
pub proof fn lemma_storage_hash_ignores_order(start: Seq<char>, e1: Seq<String>, e2: Seq<String>)
    requires
        texts(e1).to_multiset() == texts(e2).to_multiset(),
    ensures
        sha256_of(bytes_of_texts(seq![start] + ordered(texts(e1)))) == sha256_of(
            bytes_of_texts(seq![start] + ordered(texts(e2))),
        ),
{
    lemma_ordered_sorted(texts(e1));
    lemma_ordered_sorted(texts(e2));
    lemma_sorted_unique(ordered(texts(e1)), ordered(texts(e2)));
}

/// Whether `a` comes no later than `b` in code-point order.
fn string_le(a: &String, b: &String) -> (r: bool)
    ensures
        r == chars_le(a@, b@),
{
    let sa = a.as_str();
    let sb = b.as_str();
    let la = sa.unicode_len();
    let lb = sb.unicode_len();
    let mut i: usize = 0;
    assert(a@.skip(0) =~= a@);
    assert(b@.skip(0) =~= b@);
    while i < la && i < lb
        invariant
            la == a@.len(),
            lb == b@.len(),
            sa@ == a@,
            sb@ == b@,
            i <= la,
            i <= lb,
            chars_le(a@, b@) == chars_le(a@.skip(i as int), b@.skip(i as int)),
        decreases la - i,
    {
        let ca = sa.get_char(i);
        let cb = sb.get_char(i);
        if ca != cb {
            return (ca as u32) < (cb as u32);
        }
        proof {
            assert(a@.skip(i as int).drop_first() =~= a@.skip(i + 1));
            assert(b@.skip(i as int).drop_first() =~= b@.skip(i + 1));
        }
        i = i + 1;
    }
    proof {
        if i == la {
            assert(a@.skip(i as int).len() == 0);
        } else {
            assert(b@.skip(i as int).len() == 0);
        }
    }
    i == la
}

proof fn lemma_insert_ordered_at(t: Seq<Seq<char>>, x: Seq<char>, p: int)
    requires
        0 <= p <= t.len(),
        forall|q: int| 0 <= q < p ==> !chars_le(x, #[trigger] t[q]),
        p < t.len() ==> chars_le(x, t[p]),
    ensures
        insert_ordered(t, x) == t.insert(p, x),
    decreases t.len(),
{
    if t.len() == 0 {
        assert(t.insert(p, x) =~= seq![x]);
    } else if p == 0 {
        assert(t.insert(0, x) =~= seq![x] + t);
    } else {
        assert(!chars_le(x, t[0]));
        let u = t.drop_first();
        assert forall|q: int| 0 <= q < p - 1 implies !chars_le(x, #[trigger] u[q]) by {
            assert(u[q] == t[q + 1]);
        }
        lemma_insert_ordered_at(u, x, p - 1);
        assert(t.insert(p, x) =~= seq![t[0]] + u.insert(p - 1, x));
    }
}

/// The strings of `v` in ascending code-point order.
fn sorted_strings(v: &Vec<String>) -> (r: Vec<String>)
    ensures
        texts(r@) == ordered(texts(v@)),
{
    let mut r: Vec<String> = Vec::new();
    let mut i: usize = 0;
    while i < v.len()
        invariant
            i <= v@.len(),
            texts(r@) == ordered(texts(v@.subrange(0, i as int))),
        decreases v@.len() - i,
    {
        let x = v[i].clone();
        let mut p: usize = 0;
        while p < r.len()
            invariant
                p <= r@.len(),
                i < v@.len(),
                x@ == v@[i as int]@,
                forall|q: int| 0 <= q < p ==> !chars_le(x@, #[trigger] texts(r@)[q]),
            ensures
                p <= r@.len(),
                forall|q: int| 0 <= q < p ==> !chars_le(x@, #[trigger] texts(r@)[q]),
                p < r@.len() ==> chars_le(x@, texts(r@)[p as int]),
            decreases r@.len() - p,
        {
            if string_le(&x, &r[p]) {
                break;
            }
            p = p + 1;
        }
        proof {
            lemma_insert_ordered_at(texts(r@), x@, p as int);
            assert(texts(v@.subrange(0, i + 1)).drop_last() =~= texts(v@.subrange(0, i as int)));
            assert(texts(v@.subrange(0, i + 1)).last() == x@);
        }
        let ghost before = r@;
        r.insert(p, x);
        proof {
            assert(texts(r@) =~= texts(before).insert(p as int, x@));
        }
        i = i + 1;
    }
    proof {
        assert(v@.subrange(0, v@.len() as int) =~= v@);
    }
    r
}

/// The UTF-8 bytes of `s` appended to `out`.
pub(crate) fn append_bytes(out: &mut Vec<u8>, s: &String)
    ensures
        final(out)@ == old(out)@ + vstd::utf8::encode_utf8(s@),
{
    let b = s.as_str().as_bytes();
    let mut j: usize = 0;
    let ghost start = out@;
    while j < b.len()
        invariant
            j <= b@.len(),
            b@ == vstd::utf8::encode_utf8(s@),
            out@ == start + b@.subrange(0, j as int),
        decreases b@.len() - j,
    {
        out.push(b[j]);
        j = j + 1;
        proof {
            assert(b@.subrange(0, j as int) =~= b@.subrange(0, j - 1).push(b@[j - 1]));
        }
    }
    proof {
        assert(b@.subrange(0, b@.len() as int) =~= b@);
    }
}

/// The SHA-256 digest of a byte string.
pub uninterp spec fn sha256_of(data: Seq<u8>) -> Seq<u8>;

/// Calls `sha2::Sha256`: one `input` of `data`, then `result`. Claims that
/// the digest is a function of the bytes alone and is 32 bytes long.
#[verifier::external_body]
fn sha256_digest(data: &[u8]) -> (r: Vec<u8>)
    ensures
        r@ == sha256_of(data@),
        r@.len() == 32,
{
    let mut hasher = Sha256::new();
    hasher.input(data);
    hasher.result().to_vec()
}

/// The digest that names a pinned object: SHA-256 over the bytes of
/// `start` followed by the bytes of every endpoint in ascending order, so
/// that the order in which the endpoints are listed does not matter.
pub fn storage_hash(start: String, endpoints: &Vec<String>) -> (r: Vec<u8>)
    ensures
        r@ == sha256_of(bytes_of_texts(seq![start@] + ordered(texts(endpoints@)))),
        r@.len() == 32,
{
    let sorted = sorted_strings(endpoints);
    let mut data: Vec<u8> = Vec::new();
    append_bytes(&mut data, &start);
    let ghost all = seq![start@] + texts(sorted@);
    proof {
        let first = all.subrange(0, 1);
        assert(first.drop_last() =~= Seq::<Seq<char>>::empty());
        assert(first.last() == start@);
        assert(bytes_of_texts(first) == bytes_of_texts(first.drop_last()) + vstd::utf8::encode_utf8(start@));
        assert(data@ =~= bytes_of_texts(first));
    }
    let mut i: usize = 0;
    while i < sorted.len()
        invariant
            i <= sorted@.len(),
            all == seq![start@] + texts(sorted@),
            data@ == bytes_of_texts(all.subrange(0, i + 1)),
        decreases sorted@.len() - i,
    {
        append_bytes(&mut data, &sorted[i]);
        proof {
            assert(all.subrange(0, i + 2).drop_last() =~= all.subrange(0, i + 1));
            assert(all.subrange(0, i + 2).last() == sorted@[i as int]@);
        }
        i = i + 1;
    }
    proof {
        assert(all.subrange(0, sorted@.len() + 1int) =~= all);
    }
    sha256_digest(data.as_slice())
}

/// The base64 text of a byte string, in the URL-safe alphabet with padding.
pub uninterp spec fn base64_url_safe_of(data: Seq<u8>) -> Seq<char>;

/// Calls `base64::encode_config` with `base64::URL_SAFE`; the text is a
/// function of the bytes alone.
#[verifier::external_body]
fn base64_url_safe(data: &[u8]) -> (r: String)
    ensures
        r@ == base64_url_safe_of(data@),
{
    base64::encode_config(data, base64::URL_SAFE)
}

/// The lifeline facts that a pull job carries when it walks a lifeline.
pub struct PullJobLifeline {
    pub lifeline_start_tx: String,
    pub lifeline_start_ts: i64,
    pub lifeline_end_tx: String,
    pub lifeline_end_ts: i64,
    /// Start index to count of steps of each transition.
    pub lifeline_transitions: std::collections::HashMap<i64, i64>,
    /// The transaction, timestamp and tag left behind when a transition is walked.
    pub lifeline_prev: Option<(String, i64, String)>,
    pub lifeline_prev_index: Option<i64>,
    /// Newest transaction id.
    pub between_start: Option<String>,
    /// Oldest transaction id.
    pub between_end: Option<String>,
}

/// The view of an optional (transaction, timestamp, tag) triple.
pub open spec fn opt_prev(o: Option<(String, i64, String)>) -> Option<(Seq<char>, i64, Seq<char>)> {
    match o {
        Some(t) => Some((t.0@, t.1, t.2@)),
        None => None,
    }
}

impl PullJobLifeline {
    /// Both records hold the same values.
    pub open spec fn same(&self, o: PullJobLifeline) -> bool {
        &&& self.lifeline_start_tx@ == o.lifeline_start_tx@
        &&& self.lifeline_start_ts == o.lifeline_start_ts
        &&& self.lifeline_end_tx@ == o.lifeline_end_tx@
        &&& self.lifeline_end_ts == o.lifeline_end_ts
        &&& self.lifeline_transitions@ == o.lifeline_transitions@
        &&& opt_prev(self.lifeline_prev) == opt_prev(o.lifeline_prev)
        &&& self.lifeline_prev_index == o.lifeline_prev_index
        &&& opt_str(self.between_start) == opt_str(o.between_start)
        &&& opt_str(self.between_end) == opt_str(o.between_end)
    }

    /// A field-for-field copy.
    pub fn duplicate(&self) -> (r: PullJobLifeline)
        ensures
            r.same(*self),
    {
        let prev = match &self.lifeline_prev {
            Some(t) => Some((t.0.clone(), t.1, t.2.clone())),
            None => None,
        };
        PullJobLifeline {
            lifeline_start_tx: self.lifeline_start_tx.clone(),
            lifeline_start_ts: self.lifeline_start_ts,
            lifeline_end_tx: self.lifeline_end_tx.clone(),
            lifeline_end_ts: self.lifeline_end_ts,
            lifeline_transitions: self.lifeline_transitions.clone(),
            lifeline_prev: prev,
            lifeline_prev_index: self.lifeline_prev_index,
            between_start: copy_opt_string(&self.between_start),
            between_end: copy_opt_string(&self.between_end),
        }
    }
}

/// The view of an optional lifeline component, by a copy-insensitive test.
pub open spec fn same_component(a: Option<PullJobLifeline>, b: Option<PullJobLifeline>) -> bool {
    match (a, b) {
        (Some(x), Some(y)) => x.same(y),
        (None, None) => true,
        _ => false,
    }
}

/// A copy of an optional lifeline component.
pub fn copy_component(o: &Option<PullJobLifeline>) -> (r: Option<PullJobLifeline>)
    ensures
        same_component(r, *o),
{
    match o {
        Some(c) => Some(c.duplicate()),
        None => None,
    }
}

/// A job that walks a pathway on a node, fetching and pinning every transaction.
pub struct PullJob {
    pub id: String,
    pub node: String,
    pub status: String,
    pub last_update: i64,
    pub current_tx: String,
    pub current_index: usize,
    pub history: Vec<String>,
    pub validity_pre_check_tx: Vec<String>,
    pub pathway: PathwayDescriptor,
    pub dependant: String,
    pub lifeline_component: Option<PullJobLifeline>,
}

impl PullJob {
    /// Steps of the pathway that are left to walk.
    pub fn max_steps(&self) -> (r: usize)
        requires
            self.current_index <= self.pathway.size,
        ensures
            r == self.pathway.size - self.current_index,
    {
        self.pathway.size - self.current_index
    }

    /// Both jobs hold the same values.
    pub open spec fn same(&self, o: PullJob) -> bool {
        &&& self.id@ == o.id@
        &&& self.node@ == o.node@
        &&& self.status@ == o.status@
        &&& self.last_update == o.last_update
        &&& self.current_tx@ == o.current_tx@
        &&& self.current_index == o.current_index
        &&& texts(self.history@) == texts(o.history@)
        &&& texts(self.validity_pre_check_tx@) == texts(o.validity_pre_check_tx@)
        &&& self.pathway.model() == o.pathway.model()
        &&& self.dependant@ == o.dependant@
        &&& same_component(self.lifeline_component, o.lifeline_component)
    }

    /// A field-for-field copy.
    pub fn duplicate(&self) -> (r: PullJob)
        ensures
            r.same(*self),
    {
        let history = copy_strings(&self.history);
        let checks = copy_strings(&self.validity_pre_check_tx);
        proof {
            assert(texts(history@) =~= texts(self.history@));
            assert(texts(checks@) =~= texts(self.validity_pre_check_tx@));
        }
        PullJob {
            id: self.id.clone(),
            node: self.node.clone(),
            status: self.status.clone(),
            last_update: self.last_update,
            current_tx: self.current_tx.clone(),
            current_index: self.current_index,
            history: history,
            validity_pre_check_tx: checks,
            pathway: self.pathway.duplicate(),
            dependant: self.dependant.clone(),
            lifeline_component: copy_component(&self.lifeline_component),
        }
    }
}

/// What is asked to be pinned: a pathway from a lifeline transaction to its endpoints.
pub struct PinDescriptor {
    pub timestamp: i64,
    pub lifeline_tx: String,
    pub pathway: PathwayDescriptor,
    pub endpoints: Vec<String>,
    pub pathway_index_splits: Vec<isize>,
    pub metadata: String,
    pub dependant: String,
    pub lifeline_component: Option<PullJobLifeline>,
}

impl PinDescriptor {
    /// The identifier of the descriptor: the storage hash of its lifeline
    /// transaction and endpoints.
    pub open spec fn id_spec(&self) -> Seq<u8> {
        sha256_of(bytes_of_texts(seq![self.lifeline_tx@] + ordered(texts(self.endpoints@))))
    }

    /// Both descriptors hold the same values.
    pub open spec fn same(&self, o: PinDescriptor) -> bool {
        &&& self.timestamp == o.timestamp
        &&& self.lifeline_tx@ == o.lifeline_tx@
        &&& self.pathway.model() == o.pathway.model()
        &&& texts(self.endpoints@) == texts(o.endpoints@)
        &&& self.pathway_index_splits@ == o.pathway_index_splits@
        &&& self.metadata@ == o.metadata@
        &&& self.dependant@ == o.dependant@
        &&& same_component(self.lifeline_component, o.lifeline_component)
    }

    /// A field-for-field copy.
    pub fn duplicate(&self) -> (r: PinDescriptor)
        ensures
            r.same(*self),
    {
        let endpoints = copy_strings(&self.endpoints);
        let mut splits: Vec<isize> = Vec::new();
        let mut i: usize = 0;
        while i < self.pathway_index_splits.len()
            invariant
                i <= self.pathway_index_splits@.len(),
                splits@ == self.pathway_index_splits@.subrange(0, i as int),
            decreases self.pathway_index_splits@.len() - i,
        {
            splits.push(self.pathway_index_splits[i]);
            i = i + 1;
        }
        proof {
            assert(texts(endpoints@) =~= texts(self.endpoints@));
            assert(splits@ =~= self.pathway_index_splits@);
        }
        PinDescriptor {
            timestamp: self.timestamp,
            lifeline_tx: self.lifeline_tx.clone(),
            pathway: self.pathway.duplicate(),
            endpoints: endpoints,
            pathway_index_splits: splits,
            metadata: self.metadata.clone(),
            dependant: self.dependant.clone(),
            lifeline_component: copy_component(&self.lifeline_component),
        }
    }

    pub fn id(&self) -> (r: Vec<u8>)
        ensures
            r@ == self.id_spec(),
            r@.len() == 32,
    {
        storage_hash(self.lifeline_tx.clone(), &self.endpoints)
    }

    /// A fresh job that pulls this descriptor's pathway from `node`, starting
    /// at the lifeline transaction, stamped `now`.
    pub fn to_pull_job(&self, node: String, now: i64) -> (r: PullJob)
        ensures
            r.id@ == base64_url_safe_of(self.id_spec()),
            r.current_tx@ == self.lifeline_tx@,
            r.current_index == 0,
            r.history@.len() == 0,
            r.last_update == now,
            r.node@ == node@,
            r.pathway.model() == self.pathway.model(),
            r.validity_pre_check_tx@.len() == 0,
            r.status@ == PIN_STATUS_AWAIT@,
            same_component(r.lifeline_component, self.lifeline_component),
            r.dependant@ == self.dependant@,
    {
        let id = self.id();
        PullJob {
            id: base64_url_safe(id.as_slice()),
            current_tx: self.lifeline_tx.clone(),
            current_index: 0,
            history: Vec::new(),
            last_update: now,
            node: node,
            pathway: self.pathway.duplicate(),
            validity_pre_check_tx: Vec::new(),
            status: PIN_STATUS_AWAIT.to_owned(),
            lifeline_component: copy_component(&self.lifeline_component),
            dependant: self.dependant.clone(),
        }
    }
}

/// A transaction waiting to be pinned, with its trytes once fetched.
pub struct AwaitPinning {
    pub id: String,
    pub transaction_id: String,
    pub transaction_trytes: Option<String>,
}

/// Cleaning of the tracked timewarps.
pub trait CleanDB {
    /// Cleans all tracking of timewarps and indexes up till the timestamp.
    fn clean_db(&mut self, timestamp: i64);
}

/// Storage of what is needed to detect timewarps.
pub trait TimewarpDetectionPersistence {
    /// Adds values to a time-index key-block.
    fn tw_detection_add_to_index(&mut self, key: i64, values: Vec<(String, String)>);

    /// Removes values from a time-index key-block.
    fn tw_detection_remove_from_index(&mut self, key: i64, values: StrMap<String>);

    /// The entries of the time-index key-block under `key`.
    spec fn index_block(&self, key: i64) -> Map<Seq<char>, Seq<char>>;

    /// Gets a time-index key-block.
    fn tw_detection_get(&self, key: &i64) -> (r: StrMap<String>)
        ensures
            text_map(r@) == self.index_block(*key);

    /// Gets all key-blocks of a list of time-keys.
    fn tw_detection_get_all(&self, keys: Vec<i64>) -> StrMap<String>;

    /// Adds a step to the observed timewarp chains (a new chain is named by
    /// its tag, see `tag_chain_id`); steps must come in order for the
    /// statistics to be right.
    fn tw_detection_add_decision_data(&mut self, tw: Timewarp) -> (r: TimewarpData)
        requires
            old(self).decision_target(tw.target_spec()) is None ==> tag_names_chain(tw.source_tag@),
        ensures
            final(self).decision_of(tw.source_hash@) matches Some(e) && e.same(r),
            forall|k: Seq<char>| k != tw.source_hash@ ==> #[trigger] final(self).decision_of(k) == old(self).decision_of(k);

    /// The chain statistics recorded for `key`, when a step is recorded for it.
    spec fn decision_of(&self, key: Seq<char>) -> Option<TimewarpData>;

    /// The transaction that the chain step recorded for `key` references,
    /// when a step is recorded for it.
    spec fn decision_target(&self, key: Seq<char>) -> Option<Seq<char>>;

    /// The chain statistics recorded for a timewarp transaction.
    fn tw_detection_get_decision_data(&self, key: String) -> (r: Option<TimewarpData>)
        ensures
            match r {
                Some(d) => self.decision_target(key@) == Some(d.target_spec()) && (self.decision_of(key@) matches Some(e)
                    && d.same(e)),
                None => self.decision_target(key@) is None && self.decision_of(key@) is None,
            };

    /// Timewarp id to latest transaction of each followed timewarp in a time block.
    fn get_picked_tw_index(&self, key: i64) -> StrMap<String>;

    /// The latest followed timewarp.
    fn get_last_picked_tw(&self) -> Option<TimewarpSelectionState>;

    fn set_last_picked_tw(&mut self, state: TimewarpSelectionState) -> Result<(), String>;
}

/// A store of byte values by key.
pub trait GenericCachePersistence {
    fn set_generic_cache(&mut self, key: &str, value: Vec<u8>) -> Result<(), String>;

    fn get_generic_cache(&self, key: &str) -> Option<Vec<u8>>;
}

/// Storage of the lifeline subgraph.
pub trait SubgraphPersistence {
    fn load_subgraph(&mut self) -> Result<(), String>;

    fn process_event(&self, event: GraphEntryEvent) -> Result<(), String>;

    fn store_state(&self) -> Result<(), String>;

    fn new_index(&self) -> i64;

    fn clone_state(&self) -> LifelineSubGraph;

    fn get_path(&self, start: String, end: String) -> Result<Vec<PullJob>, String>;
}

/// Storage of the lifeline.
pub trait LifelinePersistence {
    /// Lifeline transactions whose connecting transactions still need pinning.
    fn get_unpinned_lifeline(&self) -> Vec<String>;

    fn set_unpinned_lifeline(&mut self, ll_data: Vec<String>) -> Result<(), String>;

    /// Appends to the lifeline.
    fn add_to_lifeline(&mut self, ll_data: Vec<LifeLineData>) -> Result<(), String>;

    /// Prepends to the known lifeline.
    fn prepend_to_lifeline(&mut self, ll_data: LifeLineData) -> Result<(), String>;

    /// Lifeline data of a time-index key.
    fn get_lifeline(&self, key: &i64) -> Vec<(String, i64)>;

    /// The lifeline transaction closest to the timestamp.
    fn get_lifeline_ts(&self, timestamp: &i64) -> Option<LifeLineData>;

    /// A lifeline entry by transaction id.
    fn get_lifeline_tx(&self, key: &String) -> Option<LifeLineData>;

    fn update_lifeline_tx(&mut self, data: LifeLineData) -> Result<(), String>;

    /// The head of the lifeline.
    fn get_last_lifeline(&self) -> Option<LifeLineData>;

    fn find_tx_distance_between_lifelines(&self, start: &String, end: &String) -> i64;
}

/// Storage of pin descriptors and pull jobs.
pub trait PullJobsPersistence {
    fn store_pin_descriptor(&mut self, pin_descriptor: PinDescriptor) -> Result<(), String>;

    fn get_pin_descriptor(&self, id: Vec<u8>) -> Option<PinDescriptor>;

    fn add_pull_job(&mut self, job: &PullJob);

    fn update_pull_job(&mut self, job: &PullJob);

    fn pop_pull_job(&mut self, id: String);

    fn get_pull_job(&self, id: &String) -> Option<PullJob>;

    fn next_pull_job(&self, offset: &usize) -> Option<PullJob>;

    fn list_pull_jobs(&self) -> Vec<String>;

    fn list_faulty_pull_jobs(&self) -> Vec<String>;
}

/// Storage of this node's own timewarp chain.
pub trait TimewarpIssueingPersistence {
    fn save_timewarp_state(&mut self, state: TimewarpIssuingState);

    fn get_timewarp_state(&self) -> Option<TimewarpIssuingState>;
}

/// All local persistence: timewarp detection, followed timewarps, the
/// lifeline, this node's timewarp state and the pull jobs.
pub trait Persistence: CleanDB + TimewarpDetectionPersistence + GenericCachePersistence +
    LifelinePersistence + PullJobsPersistence + TimewarpIssueingPersistence + SubgraphPersistence {
}

/// The transactions met following the recorded chain steps from `id`,
/// at most `k` steps: `id`, then what follows from its target.
pub open spec fn chain_from<P: TimewarpDetectionPersistence>(st: P, id: Seq<char>, k: nat) -> Seq<Seq<char>>
    decreases k,
{
    if k == 0 {
        seq![id]
    } else {
        match st.decision_target(id) {
            Some(t) => seq![id] + chain_from(st, t, (k - 1) as nat),
            None => seq![id],
        }
    }
}

/// Follows a timewarp chain from `timewarp_id` through the recorded chain
/// statistics, at most `n` steps, and lists the transactions met.
pub fn get_n_timewarp_transactions<P: TimewarpDetectionPersistence>(
    timewarp_id: String,
    n: i32,
    st: &P,
) -> (r: Vec<String>)
    ensures
        texts(r@) == chain_from(*st, timewarp_id@, (if n > 0 { n as nat } else { 0 })),
{
    let ghost total: nat = if n > 0 { n as nat } else { 0 };
    let mut result: Vec<String> = Vec::new();
    let mut counter: i32 = 0;
    result.push(timewarp_id);
    proof {
        assert(texts(result@).drop_last() =~= Seq::<Seq<char>>::empty());
        if n <= 0 {
            assert(chain_from(*st, timewarp_id@, total) == seq![timewarp_id@]);
        }
    }
    while counter < n
        invariant
            result@.len() >= 1,
            0 <= counter,
            total == (if n > 0 { n as nat } else { 0 }),
            counter < n ==> counter <= total,
            counter >= n ==> texts(result@) == chain_from(*st, timewarp_id@, total),
            counter < n ==> texts(result@).drop_last() + chain_from(
                *st,
                texts(result@).last(),
                (total - counter) as nat,
            ) == chain_from(*st, timewarp_id@, total),
        decreases n - counter,
    {
        let last = result[result.len() - 1].clone();
        let ghost before = texts(result@);
        let ghost k = (total - counter) as nat;
        assert(before.last() == last@);
        let r = st.tw_detection_get_decision_data(last);
        match r {
            Some(data) => {
                let t = data.target_hash();
                result.push(t);
                counter = counter + 1;
                proof {
                    assert(texts(result@) =~= before.push(t@));
                    assert(chain_from(*st, last@, k) == seq![last@] + chain_from(*st, t@, (k - 1) as nat));
                    assert(texts(result@).drop_last() =~= before);
                    assert(before.drop_last() + (seq![last@] + chain_from(*st, t@, (k - 1) as nat))
                        =~= before + chain_from(*st, t@, (k - 1) as nat));
                    if counter >= n {
                        assert(k == 1);
                        assert(chain_from(*st, t@, 0) == seq![t@]);
                        assert(texts(result@) =~= before + seq![t@]);
                    }
                }
            },
            None => {
                counter = n;
                proof {
                    assert(chain_from(*st, last@, k) == seq![last@]);
                    assert(before.drop_last() + seq![last@] =~= before);
                }
            },
        }
    }
    result
}

/// The key of a time block names a chain: it starts with `TW_ID`.
pub open spec fn names_chain(key: Seq<char>) -> bool {
    key.len() >= 5 && key.subrange(0, 5) == seq!['T', 'W', '_', 'I', 'D']
}

/// Whether a time-block key names a chain.
pub fn has_tw_id_prefix(key: &String) -> (r: bool)
    ensures
        r == names_chain(key@),
{
    let s = key.as_str();
    let n = s.unicode_len();
    if n < 5 {
        return false;
    }
    let r = s.get_char(0) == 'T' && s.get_char(1) == 'W' && s.get_char(2) == '_' && s.get_char(3) == 'I'
        && s.get_char(4) == 'D';
    proof {
        if r {
            assert(key@.subrange(0, 5) =~= seq!['T', 'W', '_', 'I', 'D']);
        } else if names_chain(key@) {
            assert(key@.subrange(0, 5)[0] == key@[0]);
            assert(key@.subrange(0, 5)[1] == key@[1]);
            assert(key@.subrange(0, 5)[2] == key@[2]);
            assert(key@.subrange(0, 5)[3] == key@[3]);
            assert(key@.subrange(0, 5)[4] == key@[4]);
        }
    }
    r
}

/// The latest transactions of the chains named in a time block, in the
/// order of its entries.
pub fn chain_heads(entries: &Vec<(String, String)>) -> (r: Vec<String>)
    ensures
        texts(r@) == entries@.filter(|e: (String, String)| names_chain(e.0@)).map_values(
            |e: (String, String)| e.1@,
        ),
{
    let ghost pred = |e: (String, String)| names_chain(e.0@);
    let mut r: Vec<String> = Vec::new();
    let mut i: usize = 0;
    while i < entries.len()
        invariant
            i <= entries@.len(),
            pred == (|e: (String, String)| names_chain(e.0@)),
            texts(r@) == entries@.subrange(0, i as int).filter(pred).map_values(|e: (String, String)| e.1@),
        decreases entries@.len() - i,
    {
        let e = &entries[i];
        proof {
            assert(entries@.subrange(0, i + 1) =~= entries@.subrange(0, i as int).push(*e));
            entries@.subrange(0, i as int).lemma_filter_push(*e, pred);
        }
        if has_tw_id_prefix(&e.0) {
            let ghost before = r@;
            let v = e.1.clone();
            r.push(v);
            proof {
                assert(texts(r@) =~= texts(before).push(v@));
                assert(texts(r@) =~= entries@.subrange(0, i + 1).filter(pred).map_values(|e: (String, String)| e.1@));
            }
        } else {
            proof {
                assert(texts(r@) =~= entries@.subrange(0, i + 1).filter(pred).map_values(|e: (String, String)| e.1@));
            }
        }
        i = i + 1;
    }
    proof {
        assert(entries@.subrange(0, entries@.len() as int) =~= entries@);
    }
    r
}

/// The chains ordered from the newest latest step to the oldest.
pub fn sort_by_timestamp_desc(v: Vec<TimewarpData>) -> (r: Vec<TimewarpData>)
    ensures
        r@.to_multiset() == v@.to_multiset(),
        forall|i: int, j: int| 0 <= i < j < r@.len() ==> r@[i].timestamp >= r@[j].timestamp,
{
    let mut rest = v;
    let mut r: Vec<TimewarpData> = Vec::new();
    let ghost all = rest@;
    proof {
        broadcast use vstd::seq_lib::group_to_multiset_ensures;
        assert(r@.to_multiset() =~= vstd::multiset::Multiset::<TimewarpData>::empty());
        assert(all.to_multiset() =~= rest@.to_multiset().add(r@.to_multiset()));
    }
    while rest.len() > 0
        invariant
            all.to_multiset() == rest@.to_multiset().add(r@.to_multiset()),
            forall|i: int, j: int| 0 <= i < j < r@.len() ==> r@[i].timestamp >= r@[j].timestamp,
        decreases rest@.len(),
    {
        let ghost before_rest = rest@;
        let x = rest.pop().unwrap();
        let mut p: usize = 0;
        while p < r.len() && r[p].timestamp >= x.timestamp
            invariant
                p <= r@.len(),
                forall|q: int| 0 <= q < p ==> r@[q].timestamp >= x.timestamp,
            decreases r@.len() - p,
        {
            p = p + 1;
        }
        let ghost before_r = r@;
        r.insert(p, x);
        proof {
            broadcast use vstd::seq_lib::group_to_multiset_ensures;
            vstd::seq_lib::to_multiset_insert(before_r, p as int, x);
            assert(before_rest =~= rest@.push(x));
            assert(before_rest.to_multiset() =~= rest@.to_multiset().insert(x));
            assert(all.to_multiset() =~= rest@.to_multiset().add(r@.to_multiset()));
            assert forall|i: int, j: int| 0 <= i < j < r@.len() implies r@[i].timestamp >= r@[j].timestamp by {
                if j < p {
                    assert(r@[i] == before_r[i] && r@[j] == before_r[j]);
                } else if j == p {
                    assert(r@[i] == before_r[i]);
                } else if i == p {
                    assert(r@[j] == before_r[j - 1]);
                    if p < before_r.len() {
                        assert(before_r[p as int].timestamp < x.timestamp);
                        if j - 1 > p {
                            assert(before_r[p as int].timestamp >= before_r[j - 1].timestamp);
                        }
                    }
                } else if i < p {
                    assert(r@[i] == before_r[i] && r@[j] == before_r[j - 1]);
                } else {
                    assert(r@[i] == before_r[i - 1] && r@[j] == before_r[j - 1]);
                }
            }
        }
    }
    proof {
        broadcast use vstd::seq_lib::group_to_multiset_ensures;
        assert(rest@.len() == 0);
        assert(rest@.to_multiset() =~= vstd::multiset::Multiset::<TimewarpData>::empty());
        assert(all.to_multiset() =~= r@.to_multiset());
    }
    r
}

/// `keys` are the time keys `get_time_key_range` lists from `start` to `end`.
pub open spec fn is_key_range(keys: Seq<i64>, start: i64, end: i64, c: i64) -> bool {
    &&& forall|j: int| 0 <= j < keys.len() ==> #[trigger] keys[j] == range_element(time_key(start as int, c as int), c as int, j)
    &&& time_key(start as int, c as int) + keys.len() * c >= end
    &&& keys.len() > 0 ==> time_key(start as int, c as int) + (keys.len() - 1) * c < end
}

/// One lifeline entry to write: its transaction and time, and the time
/// keys under which it is listed.
pub struct LifelineWrite {
    pub tx: String,
    pub timestamp: i64,
    pub keys: Vec<i64>,
}

/// The writes of adding entries to the lifeline, when they connect.
pub struct LifelineWrites {
    pub writes: Vec<LifelineWrite>,
    /// Transactions whose connections are to be pinned, once per time key.
    pub unpinned: Vec<String>,
    /// The entry that starts the lifeline, when it starts now.
    pub initialised: Option<(String, i64)>,
}

/// The entry behind an optional reference.
pub open spec fn prev_view(prev: Option<&LifeLineData>) -> Option<LifeLineData> {
    match prev {
        Some(l) => Some(*l),
        None => None,
    }
}

/// The lifeline end that entry `k` of `es` is added to.
pub open spec fn lifeline_before(prev: Option<LifeLineData>, es: Seq<LifeLineData>, k: int) -> Option<(Seq<char>, i64)> {
    if k <= 0 {
        match prev {
            Some(l) => Some((l.timewarp_tx@, l.timestamp)),
            None => None,
        }
    } else {
        Some((es[k - 1].timewarp_tx@, es[k - 1].timestamp))
    }
}

/// Entry `k` connects: it is not older than the lifeline end before it,
/// and its first path leads to that end.
pub open spec fn connects(prev: Option<LifeLineData>, es: Seq<LifeLineData>, k: int) -> bool {
    match lifeline_before(prev, es, k) {
        None => true,
        Some((tx, ts)) => ts <= es[k].timestamp && es[k].paths@[0].connecting_timewarp@ == tx,
    }
}

/// The message when entry `k` does not connect.
pub open spec fn lifeline_error(prev: Option<LifeLineData>, es: Seq<LifeLineData>, k: int) -> Seq<char> {
    let before = lifeline_before(prev, es, k)->0;
    if before.1 > es[k].timestamp {
        "Given timewarp is older then the one provided"@
    } else {
        "Not a connecting lifeline. Connecting_timewarp does not match latest transaction ID."@
    }
}

/// The first entry of `es` that does not connect.
pub open spec fn first_unconnected(prev: Option<LifeLineData>, es: Seq<LifeLineData>, k: int) -> bool {
    &&& 0 <= k < es.len()
    &&& !connects(prev, es, k)
    &&& forall|j: int| 0 <= j < k ==> #[trigger] connects(prev, es, j)
}

/// The transactions to pin after the first `n` writes: each write's
/// transaction once per time key.
pub open spec fn unpinned_of(ws: Seq<LifelineWrite>, n: int) -> Seq<Seq<char>>
    decreases n,
{
    if n <= 0 {
        Seq::empty()
    } else {
        unpinned_of(ws, n - 1) + Seq::new(ws[n - 1].keys@.len(), |j: int| ws[n - 1].tx@)
    }
}

/// `w` is what adding `entries` after `prev` writes: every entry connects;
/// each is listed under the time keys from the lifeline end before it to
/// its own time (the first entry of a new lifeline under the key of its
/// time); each listing marks the entry for pinning.
pub open spec fn planned(pv: Option<LifeLineData>, entries: Seq<LifeLineData>, clustering: i64, w: LifelineWrites) -> bool {
    &&& forall|k: int| 0 <= k < entries.len() ==> #[trigger] connects(pv, entries, k)
    &&& w.writes@.len() == entries.len()
    &&& forall|k: int| 0 <= k < entries.len() ==> {
        &&& (#[trigger] w.writes@[k]).tx@ == entries[k].timewarp_tx@
        &&& w.writes@[k].timestamp == entries[k].timestamp
        &&& match lifeline_before(pv, entries, k) {
            None => w.writes@[k].keys@ == seq![time_key(entries[k].timestamp as int, clustering as int) as i64],
            Some((_, ts)) => is_key_range(w.writes@[k].keys@, ts, entries[k].timestamp, clustering),
        }
    }
    &&& texts(w.unpinned@) == unpinned_of(w.writes@, entries.len() as int)
    &&& (match w.initialised {
        Some(p) => pv is None && p.0@ == entries[0].timewarp_tx@ && p.1 == entries[0].timestamp,
        None => pv is Some,
    })
}

/// Plans adding `entries` (past to present) to the lifeline whose latest
/// entry is `prev` (`None` when the lifeline starts with them). Every
/// entry must be no older than the one before it and connect to it by its
/// first path, else nothing is written and the error says which check
/// failed. An entry after another is listed under every time key from the
/// earlier one's time to its own, the first entry of a new lifeline under
/// the key of its time; each listing marks the entry for pinning.
pub fn plan_add_to_lifeline(prev: Option<&LifeLineData>, entries: &Vec<LifeLineData>, clustering: i64) -> (r: Result<LifelineWrites, String>)
    requires
        entries@.len() > 0,
        clustering > 0,
        forall|k: int| 0 <= k < entries@.len() ==> (#[trigger] entries@[k]).timestamp + clustering <= i64::MAX,
        forall|k: int| 0 <= k < entries@.len() && (k > 0 || prev is Some) ==> (#[trigger] entries@[k]).paths@.len() > 0,
    ensures
        ({
            let pv = prev_view(prev);
            match r {
                Err(msg) => exists|k: int| #[trigger] first_unconnected(pv, entries@, k) && msg@ == lifeline_error(pv, entries@, k),
                Ok(w) => planned(pv, entries@, clustering, w),
            }
        }),
{
    let ghost pv = prev_view(prev);
    let mut last: Option<(String, i64)> = match prev {
        Some(l) => Some((l.timewarp_tx.clone(), l.timestamp)),
        None => None,
    };
    let mut writes: Vec<LifelineWrite> = Vec::new();
    let mut unpinned: Vec<String> = Vec::new();
    let mut initialised: Option<(String, i64)> = None;
    let mut k: usize = 0;
    while k < entries.len()
        invariant
            k <= entries@.len(),
            entries@.len() > 0,
            clustering > 0,
            forall|q: int| 0 <= q < entries@.len() ==> (#[trigger] entries@[q]).timestamp + clustering <= i64::MAX,
            forall|q: int| 0 <= q < entries@.len() && (q > 0 || prev is Some) ==> (#[trigger] entries@[q]).paths@.len() > 0,
            pv == prev_view(prev),
            (match last { Some(p) => Some((p.0@, p.1)), None => None }) == lifeline_before(pv, entries@, k as int),
            forall|q: int| 0 <= q < k ==> #[trigger] connects(pv, entries@, q),
            writes@.len() == k,
            forall|q: int| 0 <= q < k ==> {
                &&& (#[trigger] writes@[q]).tx@ == entries@[q].timewarp_tx@
                &&& writes@[q].timestamp == entries@[q].timestamp
                &&& match lifeline_before(pv, entries@, q) {
                    None => writes@[q].keys@ == seq![time_key(entries@[q].timestamp as int, clustering as int) as i64],
                    Some((_, ts)) => is_key_range(writes@[q].keys@, ts, entries@[q].timestamp, clustering),
                }
            },
            texts(unpinned@) == unpinned_of(writes@, k as int),
            k > 0 ==> (match initialised {
                Some(p) => prev is None && p.0@ == entries@[0].timewarp_tx@ && p.1 == entries@[0].timestamp,
                None => prev is Some,
            }),
            k == 0 ==> initialised is None,
        decreases entries@.len() - k,
    {
        let e = &entries[k];
        let keys: Vec<i64> = match &last {
            Some(l) => {
                if l.1 > e.timestamp {
                    let msg = "Given timewarp is older then the one provided";
                    proof {
                        reveal_strlit("Given timewarp is older then the one provided");
                        assert(first_unconnected(pv, entries@, k as int));
                        assert(msg@ == lifeline_error(pv, entries@, k as int));
                    }
                    let out = msg.to_owned();
                    proof {
                        assert(out@ == lifeline_error(pv, entries@, k as int));
                        assert(first_unconnected(pv, entries@, k as int) && out@ == lifeline_error(pv, entries@, k as int));
                    }
                    return Err(out);
                }
                if l.0 != e.paths[0].connecting_timewarp {
                    let msg = "Not a connecting lifeline. Connecting_timewarp does not match latest transaction ID.";
                    proof {
                        reveal_strlit("Not a connecting lifeline. Connecting_timewarp does not match latest transaction ID.");
                        assert(first_unconnected(pv, entries@, k as int));
                        assert(msg@ == lifeline_error(pv, entries@, k as int));
                    }
                    let out = msg.to_owned();
                    proof {
                        assert(out@ == lifeline_error(pv, entries@, k as int));
                        assert(first_unconnected(pv, entries@, k as int) && out@ == lifeline_error(pv, entries@, k as int));
                    }
                    return Err(out);
                }
                get_time_key_range(&l.1, &e.timestamp, clustering)
            },
            None => {
                initialised = Some((e.timewarp_tx.clone(), e.timestamp));
                let mut v: Vec<i64> = Vec::new();
                v.push(get_time_key(&e.timestamp, clustering));
                v
            },
        };
        let ghost before = writes@;
        let ghost ub = unpinned@;
        let n = keys.len();
        let mut j: usize = 0;
        while j < n
            invariant
                j <= n,
                n == keys@.len(),
                texts(unpinned@) == texts(ub) + Seq::new(j as nat, |q: int| e.timewarp_tx@),
            decreases n - j,
        {
            let ghost u0 = unpinned@;
            let c = e.timewarp_tx.clone();
            unpinned.push(c);
            proof {
                assert(texts(unpinned@) =~= texts(u0).push(e.timewarp_tx@));
                assert(texts(unpinned@) =~= texts(ub) + Seq::new((j + 1) as nat, |q: int| e.timewarp_tx@));
            }
            j = j + 1;
        }
        writes.push(LifelineWrite { tx: e.timewarp_tx.clone(), timestamp: e.timestamp, keys });
        proof {
            assert(writes@.subrange(0, k as int) =~= before);
            assert(unpinned_of(writes@, k as int) == unpinned_of(before, k as int)) by {
                lemma_unpinned_prefix(writes@, before, k as int);
            }
        }
        last = Some((e.timewarp_tx.clone(), e.timestamp));
        k = k + 1;
    }
    Ok(LifelineWrites { writes, unpinned, initialised })
}

proof fn lemma_unpinned_prefix(a: Seq<LifelineWrite>, b: Seq<LifelineWrite>, n: int)
    requires
        0 <= n <= a.len(),
        n <= b.len(),
        forall|i: int| 0 <= i < n ==> a[i] == b[i],
    ensures
        unpinned_of(a, n) == unpinned_of(b, n),
    decreases n,
{
    if n > 0 {
        lemma_unpinned_prefix(a, b, n - 1);
    }
}

/// How many time blocks, from the current one back, are searched for the
/// latest known chains.
pub const LATEST_BLOCKS: usize = 100;

/// The keys of the time blocks searched for the latest known chains: the
/// block of `now`, then each block before it, 100 in all.
pub fn lookup_keys(now: i64, clustering: i64) -> (r: Vec<i64>)
    requires
        clustering > 0,
        101 * clustering <= i64::MAX,
        now - 101 * clustering >= i64::MIN,
    ensures
        r@.len() == 100,
        forall|i: int| 0 <= i < 100 ==> #[trigger] r@[i] == time_key(now as int, clustering as int) - i * clustering,
{
    let key = get_time_key(&now, clustering);
    proof {
        let m = clustering as int;
        let t = now as int;
        if t >= 0 {
            vstd::arithmetic::div_mod::lemma_mod_bound(t, m);
        } else {
            vstd::arithmetic::div_mod::lemma_mod_bound(-t, m);
        }
        assert(key >= now - clustering);
    }
    let mut r: Vec<i64> = Vec::new();
    let mut i: i64 = 0;
    while i < 100
        invariant
            0 <= i <= 100,
            r@.len() == i,
            clustering > 0,
            101 * clustering <= i64::MAX,
            now - 101 * clustering >= i64::MIN,
            key == time_key(now as int, clustering as int),
            key >= now - clustering,
            key <= i64::MAX,
            forall|q: int| 0 <= q < i ==> #[trigger] r@[q] == key - q * clustering,
        decreases 100 - i,
    {
        assert(i * clustering <= 100 * clustering) by (nonlinear_arith)
            requires
                0 <= i <= 100,
                clustering > 0,
        ;
        r.push(key - i * clustering);
        i = i + 1;
    }
    r
}

/// The index of the first block with entries among the first `n`
/// (`n` when none has any).
pub open spec fn first_filled(blocks: Seq<Vec<(String, String)>>, n: int) -> int
    decreases n,
{
    if n <= 0 {
        0
    } else if first_filled(blocks, n - 1) < n - 1 {
        first_filled(blocks, n - 1)
    } else if blocks[n - 1]@.len() > 0 {
        n - 1
    } else {
        n
    }
}

/// The latest transactions of the chains named in the first block that
/// has entries (`blocks` as read under `lookup_keys`); none when all are empty.
pub fn latest_block_heads(blocks: &Vec<Vec<(String, String)>>) -> (r: Vec<String>)
    ensures
        ({
            let f = first_filled(blocks@, blocks@.len() as int);
            f < blocks@.len() ==> texts(r@) == blocks@[f]@.filter(|e: (String, String)| names_chain(e.0@)).map_values(
                |e: (String, String)| e.1@,
            )
        }),
        first_filled(blocks@, blocks@.len() as int) == blocks@.len() ==> r@.len() == 0,
{
    let mut i: usize = 0;
    while i < blocks.len()
        invariant
            i <= blocks@.len(),
            first_filled(blocks@, i as int) == i,
        decreases blocks@.len() - i,
    {
        if blocks[i].len() > 0 {
            proof {
                lemma_first_filled_stays(blocks@, i as int, blocks@.len() as int);
            }
            return chain_heads(&blocks[i]);
        }
        i = i + 1;
    }
    Vec::new()
}

proof fn lemma_first_filled_stays(blocks: Seq<Vec<(String, String)>>, f: int, n: int)
    requires
        0 <= f < n <= blocks.len(),
        first_filled(blocks, f) == f,
        blocks[f]@.len() > 0,
    ensures
        first_filled(blocks, n) == f,
    decreases n,
{
    if n > f + 1 {
        lemma_first_filled_stays(blocks, f, n - 1);
    }
}

/// The keys of the time blocks searched for the lifeline entry after a
/// time: the block of `timestamp` and the 14 after it.
pub fn lifeline_ts_keys(timestamp: i64, clustering: i64) -> (r: Vec<i64>)
    requires
        clustering > 0,
        15 * clustering <= i64::MAX,
        timestamp + 15 * clustering <= i64::MAX,
    ensures
        r@.len() == 15,
        forall|i: int| 0 <= i < 15 ==> #[trigger] r@[i] == time_key(timestamp as int, clustering as int) + i * clustering,
{
    let key = get_time_key(&timestamp, clustering);
    proof {
        let m = clustering as int;
        let t = timestamp as int;
        if t >= 0 {
            vstd::arithmetic::div_mod::lemma_mod_bound(t, m);
        } else {
            vstd::arithmetic::div_mod::lemma_mod_bound(-t, m);
        }
        assert(key <= timestamp + clustering);
    }
    let mut r: Vec<i64> = Vec::new();
    let mut i: i64 = 0;
    while i < 15
        invariant
            0 <= i <= 15,
            r@.len() == i,
            clustering > 0,
            15 * clustering <= i64::MAX,
            timestamp + 15 * clustering <= i64::MAX,
            key == time_key(timestamp as int, clustering as int),
            key <= timestamp + clustering,
            key >= i64::MIN,
            forall|q: int| 0 <= q < i ==> #[trigger] r@[q] == key + q * clustering,
        decreases 15 - i,
    {
        assert(i * clustering <= 14 * clustering) by (nonlinear_arith)
            requires
                0 <= i < 15,
                clustering > 0,
        ;
        r.push(key + i * clustering);
        i = i + 1;
    }
    r
}

/// Some entry of the block is later than `t`.
pub open spec fn has_after(b: Seq<(String, i64)>, t: i64) -> bool {
    exists|j: int| 0 <= j < b.len() && (#[trigger] b[j]).1 > t
}

/// Entry `j` of block `b` is the first of the earliest entries later than `t`.
pub open spec fn earliest_after(b: Seq<(String, i64)>, t: i64, j: int) -> bool {
    &&& 0 <= j < b.len()
    &&& b[j].1 > t
    &&& forall|q: int| 0 <= q < b.len() && (#[trigger] b[q]).1 > t ==> b[q].1 >= b[j].1
}

/// The lifeline entry just after `timestamp`: in the first block (as read
/// under `lifeline_ts_keys`) holding an entry later than it, the earliest
/// such entry; none when no block holds one.
pub fn find_lifeline_after(timestamp: i64, blocks: &Vec<Vec<(String, i64)>>) -> (r: Option<String>)
    ensures
        match r {
            None => forall|i: int| 0 <= i < blocks@.len() ==> !has_after(#[trigger] blocks@[i]@, timestamp),
            Some(tx) => exists|i: int, j: int|
                0 <= i < blocks@.len() && (forall|q: int| 0 <= q < i ==> !has_after(#[trigger] blocks@[q]@, timestamp))
                    && #[trigger] earliest_after(blocks@[i]@, timestamp, j) && tx@ == blocks@[i]@[j].0@,
        },
{
    let mut i: usize = 0;
    while i < blocks.len()
        invariant
            i <= blocks@.len(),
            forall|q: int| 0 <= q < i ==> !has_after(#[trigger] blocks@[q]@, timestamp),
        decreases blocks@.len() - i,
    {
        let b = &blocks[i];
        let mut best: Option<usize> = None;
        let mut j: usize = 0;
        while j < b.len()
            invariant
                j <= b@.len(),
                match best {
                    None => forall|q: int| 0 <= q < j ==> (#[trigger] b@[q]).1 <= timestamp,
                    Some(k) => k < j && b@[k as int].1 > timestamp && forall|q: int| 0 <= q < j && (#[trigger] b@[q]).1 > timestamp ==> b@[q].1 >= b@[k as int].1,
                },
            decreases b@.len() - j,
        {
            if b[j].1 > timestamp {
                match best {
                    None => {
                        best = Some(j);
                    },
                    Some(k) => {
                        if b[j].1 < b[k].1 {
                            best = Some(j);
                        }
                    },
                }
            }
            j = j + 1;
        }
        match best {
            Some(k) => {
                proof {
                    assert(earliest_after(blocks@[i as int]@, timestamp, k as int));
                }
                return Some(b[k].0.clone());
            },
            None => {
                proof {
                    assert(!has_after(blocks@[i as int]@, timestamp));
                }
            },
        }
        i = i + 1;
    }
    None
}

} // verus!
