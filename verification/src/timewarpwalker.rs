//! Walking a newly found timewarp chain back into the past.
use vstd::prelude::*;
use crate::timewarping::Timewarp;
use crate::aionmodel::transaction::TxInfo;
use crate::signing::{signatures_valid_of, timewarp_hash_spec};
use vstd::string::StrSliceExecFns;

verus! {

/// Where a walk starts: the newest step of a chain.
pub struct StartTimewarpWalking {
    pub source_hash: String,
    pub source_timestamp: i64,
    pub source_tag: String,
    pub source_branch: String,
    pub source_trunk: String,
    pub distance: i64,
    pub trunk_or_branch: bool,
    pub last_picked_tw_tx: String,
}

/// The identifier of a walk: the source, ` | ` and the target.
pub open spec fn walk_id(source: Seq<char>, target: Seq<char>) -> Seq<char> {
    source + seq![' ', '|', ' '] + target
}

impl StartTimewarpWalking {
    pub open spec fn target_spec(&self) -> Seq<char> {
        if self.trunk_or_branch {
            self.source_trunk@
        } else {
            self.source_branch@
        }
    }

    pub fn target_hash(&self) -> (r: &String)
        ensures
            r@ == self.target_spec(),
    {
        if self.trunk_or_branch {
            &self.source_trunk
        } else {
            &self.source_branch
        }
    }

    pub fn id(&self) -> (r: String)
        ensures
            r@ == walk_id(self.source_hash@, self.target_spec()),
    {
        let mut r = self.source_hash.clone();
        let sep = " | ";
        proof {
            reveal_strlit(" | ");
        }
        r.append(sep);
        r.append(self.target_hash().as_str());
        proof {
            assert(r@ =~= walk_id(self.source_hash@, self.target_spec()));
        }
        r
    }

    /// The first step of the walk's result: the starting step itself.
    pub fn first_timewarp(&self) -> (r: Timewarp)
        ensures
            r.source_hash@ == self.source_hash@,
            r.source_timestamp == self.source_timestamp,
            r.source_tag@ == self.source_tag@,
            r.distance == self.distance,
            r.source_branch@ == self.source_branch@,
            r.source_trunk@ == self.source_trunk@,
            r.trunk_or_branch == self.trunk_or_branch,
    {
        Timewarp {
            source_hash: self.source_hash.clone(),
            source_timestamp: self.source_timestamp,
            source_tag: self.source_tag.clone(),
            distance: self.distance,
            source_branch: self.source_branch.clone(),
            source_trunk: self.source_trunk.clone(),
            trunk_or_branch: self.trunk_or_branch,
        }
    }
}

impl Default for StartTimewarpWalking {
    fn default() -> (r: StartTimewarpWalking)
        ensures
            r.source_hash@ == Seq::<char>::empty(),
            r.source_branch@ == Seq::<char>::empty(),
            r.source_trunk@ == Seq::<char>::empty(),
            r.source_tag@ == Seq::<char>::empty(),
            r.distance == 0,
            r.source_timestamp == 0,
            !r.trunk_or_branch,
            r.last_picked_tw_tx@ == Seq::<char>::empty(),
    {
        StartTimewarpWalking {
            source_hash: String::new(),
            source_branch: String::new(),
            source_trunk: String::new(),
            source_tag: String::new(),
            distance: 0,
            source_timestamp: 0,
            trunk_or_branch: false,
            last_picked_tw_tx: String::new(),
        }
    }
}

/// A signature that is all `9`s for its first 81 characters signs nothing.
pub open spec fn unsigned(signature: Seq<char>) -> bool {
    signature.len() == 0 || (signature.len() >= 81 && forall|i: int| 0 <= i < 81 ==> #[trigger] signature[i] == '9')
}

/// A fetched transaction counts for a walk only when it is signed.
pub fn signed_transaction(tx: TxInfo) -> (r: Option<TxInfo>)
    ensures
        unsigned(tx.signature_fragments@) ==> r is None,
        !unsigned(tx.signature_fragments@) ==> r == Some(tx),
{
    let s = tx.signature_fragments.as_str();
    let n = s.unicode_len();
    if n == 0 {
        return None;
    }
    if n < 81 {
        return Some(tx);
    }
    let mut i: usize = 0;
    while i < 81
        invariant
            i <= 81,
            n == tx.signature_fragments@.len(),
            n >= 81,
            s@ == tx.signature_fragments@,
            forall|j: int| 0 <= j < i ==> #[trigger] tx.signature_fragments@[j] == '9',
        decreases 81 - i,
    {
        if s.get_char(i) != '9' {
            return Some(tx);
        }
        i = i + 1;
    }
    None
}

/// Where a walk stands.
#[derive(Clone, Copy, Debug, PartialEq, Eq, Structural)]
pub enum WalkPhase {
    /// Waiting for the transaction `txid`.
    NeedTransaction,
    /// Waiting for the transaction that `current` references.
    NeedWalked,
    /// Waiting to hear whether `txid` is already indexed.
    NeedKnown,
    Done,
}

/// What a walk asks for next.
pub enum WalkRequest {
    GetTransaction(String),
    /// Whether the time block of the key holds the transaction.
    CheckKnown(i64, String),
    Finished,
}

/// A walk from the newest step of a chain into the past.
pub struct TimewarpWalk {
    pub trunk_or_branch: bool,
    pub last_picked_tw_tx: String,
    /// The transaction the walk has reached.
    pub txid: String,
    /// The time of the step that reached `txid`.
    pub timestamp: i64,
    pub found: Vec<Timewarp>,
    /// The last referenced transaction fetched.
    pub cache: Option<TxInfo>,
    /// The transaction being examined.
    pub current: Option<TxInfo>,
    /// The walk reached the last followed chain.
    pub reached_picked: bool,
    pub phase: WalkPhase,
}

impl TimewarpWalk {
    /// The transaction `t` references along the walk's direction.
    pub open spec fn next_of(&self, t: TxInfo) -> Seq<char> {
        if self.trunk_or_branch {
            t.trunk_transaction@
        } else {
            t.branch_transaction@
        }
    }

    /// A walk that starts at the target of `start`, with `start` as its first step.
    pub fn new(start: &StartTimewarpWalking) -> (r: TimewarpWalk)
        ensures
            r.txid@ == start.target_spec(),
            r.timestamp == start.source_timestamp,
            r.found@.len() == 1,
            r.found@[0].source_hash@ == start.source_hash@,
            r.found@[0].distance == start.distance,
            r.found@[0].trunk_or_branch == start.trunk_or_branch,
            r.trunk_or_branch == start.trunk_or_branch,
            r.last_picked_tw_tx@ == start.last_picked_tw_tx@,
            r.cache is None,
            r.current is None,
            !r.reached_picked,
            r.phase == WalkPhase::NeedTransaction,
    {
        let mut found: Vec<Timewarp> = Vec::new();
        found.push(start.first_timewarp());
        TimewarpWalk {
            trunk_or_branch: start.trunk_or_branch,
            last_picked_tw_tx: start.last_picked_tw_tx.clone(),
            txid: start.target_hash().clone(),
            timestamp: start.source_timestamp,
            found,
            cache: None,
            current: None,
            reached_picked: false,
            phase: WalkPhase::NeedTransaction,
        }
    }

    /// What the walk needs next.
    pub fn request(&self, clustering: i64) -> (r: WalkRequest)
        requires
            clustering != 0,
            !(self.timestamp == i64::MIN && clustering == -1),
            self.phase == WalkPhase::NeedWalked ==> self.current is Some,
        ensures
            self.phase == WalkPhase::NeedTransaction ==> (r matches WalkRequest::GetTransaction(h) && h@ == self.txid@),
            self.phase == WalkPhase::NeedWalked ==> (r matches WalkRequest::GetTransaction(h) && h@ == self.next_of(self.current->0)),
            self.phase == WalkPhase::NeedKnown ==> (r matches WalkRequest::CheckKnown(k, h) && h@ == self.txid@
                && k == crate::indexstorage::time_key(self.timestamp as int, clustering as int)),
            self.phase == WalkPhase::Done ==> r is Finished,
    {
        match self.phase {
            WalkPhase::NeedTransaction => WalkRequest::GetTransaction(self.txid.clone()),
            WalkPhase::NeedWalked => {
                let cur = self.current.as_ref().unwrap();
                if self.trunk_or_branch {
                    WalkRequest::GetTransaction(cur.trunk_transaction.clone())
                } else {
                    WalkRequest::GetTransaction(cur.branch_transaction.clone())
                }
            },
            WalkPhase::NeedKnown => WalkRequest::CheckKnown(
                crate::indexstorage::get_time_key(&self.timestamp, clustering),
                self.txid.clone(),
            ),
            WalkPhase::Done => WalkRequest::Finished,
        }
    }

    /// Examines transaction `t` of the walk: its gap to the walk's time must
    /// lie within the thresholds (both included), else the walk ends.
    fn examine(&mut self, t: TxInfo, min_diff: i64, max_diff: i64)
        requires
            i64::MIN <= old(self).timestamp - t.attachment_timestamp <= i64::MAX,
        ensures
            ({
                let diff = old(self).timestamp - t.attachment_timestamp;
                if min_diff <= diff <= max_diff {
                    final(self).current == Some(t) && final(self).phase == WalkPhase::NeedWalked
                } else {
                    final(self).current == old(self).current && final(self).phase == WalkPhase::Done
                }
            }),
            final(self).txid == old(self).txid,
            final(self).timestamp == old(self).timestamp,
            final(self).found == old(self).found,
            final(self).cache == old(self).cache,
            final(self).reached_picked == old(self).reached_picked,
            final(self).trunk_or_branch == old(self).trunk_or_branch,
            final(self).last_picked_tw_tx == old(self).last_picked_tw_tx,
    {
        let diff = self.timestamp - t.attachment_timestamp;
        if diff >= min_diff && diff <= max_diff {
            self.current = Some(t);
            self.phase = WalkPhase::NeedWalked;
        } else {
            self.phase = WalkPhase::Done;
        }
    }

    /// Starts the next round: ends the walk at `max_depth` steps, takes the
    /// cached transaction when it is the one reached, else asks for it.
    pub fn start_round(&mut self, min_diff: i64, max_diff: i64, max_depth: usize)
        requires
            old(self).cache matches Some(c) ==> i64::MIN <= old(self).timestamp - c.attachment_timestamp <= i64::MAX,
        ensures
            old(self).found@.len() >= max_depth ==> final(self).phase == WalkPhase::Done,
            old(self).found@.len() < max_depth && (old(self).cache matches Some(c) && c.hash@ == old(self).txid@)
                ==> ({
                let c = old(self).cache->0;
                let diff = old(self).timestamp - c.attachment_timestamp;
                &&& final(self).cache is None
                &&& if min_diff <= diff <= max_diff {
                    final(self).current == Some(c) && final(self).phase == WalkPhase::NeedWalked
                } else {
                    final(self).phase == WalkPhase::Done
                }
            }),
            old(self).found@.len() < max_depth && !(old(self).cache matches Some(c) && c.hash@ == old(self).txid@)
                ==> final(self).phase == WalkPhase::NeedTransaction && final(self).cache == old(self).cache,
            old(self).found@.len() >= max_depth ==> final(self).cache == old(self).cache,
            final(self).txid == old(self).txid,
            final(self).timestamp == old(self).timestamp,
            final(self).found == old(self).found,
            final(self).trunk_or_branch == old(self).trunk_or_branch,
            final(self).last_picked_tw_tx == old(self).last_picked_tw_tx,
    {
        if self.found.len() >= max_depth {
            self.phase = WalkPhase::Done;
            return;
        }
        let hit = match &self.cache {
            Some(c) => c.hash == self.txid,
            None => false,
        };
        if hit {
            let t = self.cache.take().unwrap();
            self.examine(t, min_diff, max_diff);
        } else {
            self.phase = WalkPhase::NeedTransaction;
        }
    }
}

impl TimewarpWalk {
    /// Takes in the transaction that was asked for: an unsigned or missing
    /// one ends the walk, else it is examined.
    pub fn on_transaction(&mut self, tx: Option<TxInfo>, min_diff: i64, max_diff: i64)
        requires
            old(self).phase == WalkPhase::NeedTransaction,
            tx matches Some(t) ==> i64::MIN <= old(self).timestamp - t.attachment_timestamp <= i64::MAX,
        ensures
            match tx {
                Some(t) if !unsigned(t.signature_fragments@) => {
                    let diff = old(self).timestamp - t.attachment_timestamp;
                    if min_diff <= diff <= max_diff {
                        final(self).current == Some(t) && final(self).phase == WalkPhase::NeedWalked
                    } else {
                        final(self).phase == WalkPhase::Done
                    }
                },
                _ => final(self).phase == WalkPhase::Done,
            },
            final(self).txid == old(self).txid,
            final(self).timestamp == old(self).timestamp,
            final(self).found == old(self).found,
            final(self).cache == old(self).cache,
    {
        match tx {
            Some(t) => match signed_transaction(t) {
                Some(s) => self.examine(s, min_diff, max_diff),
                None => {
                    self.phase = WalkPhase::Done;
                },
            },
            None => {
                self.phase = WalkPhase::Done;
            },
        }
    }

    /// Takes in the referenced transaction: when it is signed and the
    /// examined transaction's signature of its timewarp hash is valid for
    /// its address, the step is added and the walk moves to it; it is
    /// cached either way. Otherwise the walk ends.
    pub fn on_walked(&mut self, walked: Option<TxInfo>)
        requires
            old(self).phase == WalkPhase::NeedWalked,
            old(self).current is Some,
            old(self).current->0.signature_fragments@.len() >= 2187,
            i64::MIN <= old(self).timestamp - old(self).current->0.attachment_timestamp <= i64::MAX,
        ensures
            ({
                let cur = old(self).current->0;
                match walked {
                    Some(w) if !unsigned(w.signature_fragments@) => {
                        &&& final(self).cache == Some(w)
                        &&& if signatures_valid_of(
                            w.address@,
                            seq![cur.signature_fragments@],
                            timewarp_hash_spec(cur.address@, cur.trunk_transaction@, cur.branch_transaction@, cur.tag@),
                        ) {
                            &&& final(self).found@.len() == old(self).found@.len() + 1
                            &&& final(self).found@.subrange(0, old(self).found@.len() as int) == old(self).found@
                            &&& final(self).found@.last().source_hash@ == old(self).txid@
                            &&& final(self).found@.last().source_timestamp == old(self).timestamp
                            &&& final(self).found@.last().distance == old(self).timestamp - cur.attachment_timestamp
                            &&& final(self).found@.last().source_branch@ == cur.branch_transaction@
                            &&& final(self).found@.last().source_trunk@ == cur.trunk_transaction@
                            &&& final(self).found@.last().source_tag@ == cur.tag@
                            &&& final(self).found@.last().trunk_or_branch == old(self).trunk_or_branch
                            &&& final(self).txid@ == old(self).next_of(cur)
                            &&& final(self).timestamp == cur.attachment_timestamp
                            &&& final(self).reached_picked == (final(self).txid@ == old(self).last_picked_tw_tx@)
                            &&& final(self).phase == WalkPhase::NeedKnown
                        } else {
                            final(self).found == old(self).found && final(self).phase == WalkPhase::Done
                        }
                    },
                    _ => final(self).found == old(self).found && final(self).cache == old(self).cache
                        && final(self).phase == WalkPhase::Done,
                }
            }),
            final(self).trunk_or_branch == old(self).trunk_or_branch,
            final(self).last_picked_tw_tx == old(self).last_picked_tw_tx,
    {
        let w = match walked {
            Some(t) => signed_transaction(t),
            None => None,
        };
        match w {
            None => {
                self.phase = WalkPhase::Done;
            },
            Some(w) => {
                let cur = self.current.as_ref().unwrap();
                let tw_hash = crate::signing::timewarp_hash(
                    cur.address.as_str(),
                    cur.trunk_transaction.as_str(),
                    cur.branch_transaction.as_str(),
                    cur.tag.as_str(),
                );
                let valid = crate::signing::validate_tw_signature(
                    w.address.as_str(),
                    tw_hash.as_str(),
                    cur.signature_fragments.as_str(),
                );
                if valid {
                    let step = Timewarp {
                        source_hash: self.txid.clone(),
                        source_timestamp: self.timestamp,
                        source_tag: cur.tag.clone(),
                        distance: self.timestamp - cur.attachment_timestamp,
                        source_branch: cur.branch_transaction.clone(),
                        source_trunk: cur.trunk_transaction.clone(),
                        trunk_or_branch: self.trunk_or_branch,
                    };
                    let next = if self.trunk_or_branch {
                        cur.trunk_transaction.clone()
                    } else {
                        cur.branch_transaction.clone()
                    };
                    let time = cur.attachment_timestamp;
                    let ghost before = self.found@;
                    self.found.push(step);
                    proof {
                        assert(self.found@.subrange(0, before.len() as int) =~= before);
                    }
                    self.reached_picked = next == self.last_picked_tw_tx;
                    self.txid = next;
                    self.timestamp = time;
                    self.phase = WalkPhase::NeedKnown;
                } else {
                    self.phase = WalkPhase::Done;
                }
                self.cache = Some(w);
            },
        }
    }

    /// Takes in whether the reached transaction is already indexed: the walk
    /// ends there or at the last followed chain, else goes on.
    pub fn on_known(&mut self, known: bool, min_diff: i64, max_diff: i64, max_depth: usize)
        requires
            old(self).cache matches Some(c) ==> i64::MIN <= old(self).timestamp - c.attachment_timestamp <= i64::MAX,
        ensures
            known || old(self).reached_picked ==> final(self).phase == WalkPhase::Done && final(self).found == old(self).found,
            !known && !old(self).reached_picked && old(self).found@.len() >= max_depth ==> final(self).phase == WalkPhase::Done,
            !known && !old(self).reached_picked && old(self).found@.len() < max_depth
                && !(old(self).cache matches Some(c) && c.hash@ == old(self).txid@)
                ==> final(self).phase == WalkPhase::NeedTransaction,
            final(self).found == old(self).found,
            final(self).txid == old(self).txid,
            final(self).timestamp == old(self).timestamp,
    {
        if known || self.reached_picked {
            self.phase = WalkPhase::Done;
        } else {
            self.start_round(min_diff, max_diff, max_depth);
        }
    }
}

} // verus!
