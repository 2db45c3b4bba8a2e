//! Detecting timewarps among confirmed transactions, and deciding whether a
//! detected one extends a known chain or starts a walk into the past.
use vstd::prelude::*;
use vstd::string::StrSliceExecFns;
use crate::aionmodel::tangle::Tangle;
use crate::aionmodel::transaction::TxInfo;
use crate::indexstorage::{TimewarpData, TIMEWARP_ID_PREFIX};
use crate::signing::{signatures_valid_of, timewarp_hash_spec};
use crate::strmap::StrMap;
use crate::timewarping::Timewarp;
use crate::timewarpselecting::TimewarpSelectionState;
use crate::timewarpwalker::{walk_id, StartTimewarpWalking};

verus! {

/// The tag ends with `TW`, the mark of a timewarp transaction.
pub open spec fn ends_with_tw(tag: Seq<char>) -> bool {
    tag.len() >= 2 && tag[tag.len() - 2] == 'T' && tag[tag.len() - 1] == 'W'
}

/// The part of a tag after its first fifteen characters.
pub open spec fn tag_suffix(tag: Seq<char>) -> Seq<char> {
    tag.subrange(15, tag.len() as int)
}

/// `tx` carries a valid signature of its timewarp hash for the address of `parent`.
pub open spec fn signed_by(tx: TxInfo, parent: TxInfo) -> bool {
    signatures_valid_of(
        parent.address@,
        seq![tx.signature_fragments@],
        timewarp_hash_spec(tx.address@, tx.trunk_transaction@, tx.branch_transaction@, tx.tag@),
    )
}

/// `tx` is newer than `parent` by a gap within the thresholds.
pub open spec fn gap_fits(tx: TxInfo, parent: TxInfo, min_diff: int, max_diff: int) -> bool {
    let diff = tx.attachment_timestamp - parent.attachment_timestamp;
    diff > 0 && diff > min_diff && diff < max_diff
}

/// The tag ending of `tx` matches that of `parent`, or the start of its hash.
pub open spec fn tags_match(tx: TxInfo, parent: TxInfo) -> bool {
    tag_suffix(tx.tag@) == tag_suffix(parent.tag@) || tag_suffix(tx.tag@) == parent.hash@.subrange(0, 9)
}

/// `tx` is a timewarp over its branch `b`.
pub open spec fn branch_warp(tx: TxInfo, b: TxInfo, min_diff: int, max_diff: int) -> bool {
    gap_fits(tx, b, min_diff, max_diff) && tags_match(tx, b) && signed_by(tx, b)
}

/// `tx` is a timewarp over its trunk `t`.
pub open spec fn trunk_warp(tx: TxInfo, t: TxInfo, min_diff: int, max_diff: int) -> bool {
    gap_fits(tx, t, min_diff, max_diff) && signed_by(tx, t)
}

/// The timewarp `tx` forms, if any: over its branch when that qualifies,
/// else over its trunk; as (gap, trunk chosen).
pub open spec fn detect_spec(
    tx: TxInfo,
    txs: Map<Seq<char>, TxInfo>,
    min_diff: int,
    max_diff: int,
) -> Option<(int, bool)> {
    let b = tx.branch_transaction@;
    let t = tx.trunk_transaction@;
    if !ends_with_tw(tx.tag@) || tx.nonce@ == seq!['N', 'O'] {
        None
    } else if txs.dom().contains(b) && branch_warp(tx, txs[b], min_diff, max_diff) {
        Some((tx.attachment_timestamp - txs[b].attachment_timestamp, false))
    } else if txs.dom().contains(t) && trunk_warp(tx, txs[t], min_diff, max_diff) {
        Some((tx.attachment_timestamp - txs[t].attachment_timestamp, true))
    } else {
        None
    }
}

/// The parent a detected timewarp runs to: the trunk when the direction
/// flag is set, else the branch.
pub open spec fn warp_parent(tx: TxInfo, trunk: bool) -> Seq<char> {
    if trunk {
        tx.trunk_transaction@
    } else {
        tx.branch_transaction@
    }
}

/// A detected timewarp is formed over the parent its direction names: that
/// parent is known, the gap is measured to it and fits, and the signature is
/// valid for its address. The branch is preferred: when the branch forms a
/// timewarp, the direction is the branch's whatever the trunk does; the
/// trunk is named only when the branch forms none.
pub proof fn lemma_detected_over_named_parent(tx: TxInfo, txs: Map<Seq<char>, TxInfo>, min_diff: int, max_diff: int)
    ensures
        detect_spec(tx, txs, min_diff, max_diff) matches Some((gap, trunk)) ==> ({
            let p = warp_parent(tx, trunk);
            &&& txs.dom().contains(p)
            &&& gap == tx.attachment_timestamp - txs[p].attachment_timestamp
            &&& gap_fits(tx, txs[p], min_diff, max_diff)
            &&& signed_by(tx, txs[p])
            &&& ends_with_tw(tx.tag@)
            &&& tx.nonce@ != seq!['N', 'O']
        }),
        (detect_spec(tx, txs, min_diff, max_diff) matches Some((_, trunk)) && trunk) ==> !(
            txs.dom().contains(tx.branch_transaction@)
            && branch_warp(tx, txs[tx.branch_transaction@], min_diff, max_diff)),
        ends_with_tw(tx.tag@) && tx.nonce@ != seq!['N', 'O'] && txs.dom().contains(tx.branch_transaction@)
            && gap_fits(tx, txs[tx.branch_transaction@], min_diff, max_diff)
            && tags_match(tx, txs[tx.branch_transaction@])
            && signed_by(tx, txs[tx.branch_transaction@])
            ==> (detect_spec(tx, txs, min_diff, max_diff) matches Some((_, trunk)) && !trunk),
{
}

/// What detection needs of a transaction and the parent it is checked
/// against: gaps that fit, readable tags and hashes, full signatures.
pub open spec fn checkable(tx: TxInfo, parent: TxInfo, with_tags: bool) -> bool {
    &&& i64::MIN <= tx.attachment_timestamp - parent.attachment_timestamp <= i64::MAX
    &&& tx.attachment_timestamp - parent.attachment_timestamp > 0 && with_tags ==> {
        &&& vstd::utf8::is_ascii_chars(tx.tag@)
        &&& tx.tag@.len() >= 15
        &&& vstd::utf8::is_ascii_chars(parent.tag@)
        &&& parent.tag@.len() >= 15
        &&& vstd::utf8::is_ascii_chars(parent.hash@)
        &&& parent.hash@.len() >= 9
    }
    &&& tx.signature_fragments@.len() >= 2187
}

/// Whether a tag ends with `TW`.
pub(crate) fn tag_ends_with_tw(tag: &String) -> (r: bool)
    ensures
        r == ends_with_tw(tag@),
{
    let s = tag.as_str();
    let n = s.unicode_len();
    if n < 2 {
        return false;
    }
    s.get_char(n - 2) == 'T' && s.get_char(n - 1) == 'W'
}

/// Whether the tag endings match as `tags_match` says.
fn tags_match_exec(tx: &TxInfo, parent: &TxInfo) -> (r: bool)
    requires
        vstd::utf8::is_ascii_chars(tx.tag@),
        tx.tag@.len() >= 15,
        vstd::utf8::is_ascii_chars(parent.tag@),
        parent.tag@.len() >= 15,
        vstd::utf8::is_ascii_chars(parent.hash@),
        parent.hash@.len() >= 9,
    ensures
        r == tags_match(*tx, *parent),
{
    let t = tx.tag.as_str();
    let p = parent.tag.as_str();
    let h = parent.hash.as_str();
    let tn = t.unicode_len();
    let pn = p.unicode_len();
    let own = t.substring_ascii(15, tn).to_owned();
    let other = p.substring_ascii(15, pn).to_owned();
    let start = h.substring_ascii(0, 9).to_owned();
    own == other || own == start
}

/// The timewarp of `tx`, when it is one: a tagged transaction (tag ending
/// in `TW`, nonce not `NO`) whose branch (with a matching tag ending) or
/// else trunk is known, older by a gap within the thresholds, and whose
/// signature of the timewarp hash is valid for that parent's address.
pub fn detect_timewarp(tx: &TxInfo, tangle: &Tangle, min_diff: i64, max_diff: i64) -> (r: Option<Timewarp>)
    requires
        tangle.txs@.dom().contains(tx.branch_transaction@) ==> checkable(
            *tx,
            tangle.txs@[tx.branch_transaction@],
            true,
        ),
        tangle.txs@.dom().contains(tx.trunk_transaction@) ==> checkable(
            *tx,
            tangle.txs@[tx.trunk_transaction@],
            false,
        ),
    ensures
        match detect_spec(*tx, tangle.txs@, min_diff as int, max_diff as int) {
            None => r is None,
            Some((gap, tob)) => r matches Some(tw) && tw.source_hash@ == tx.hash@
                && tw.source_branch@ == tx.branch_transaction@ && tw.source_trunk@
                == tx.trunk_transaction@ && tw.source_timestamp == tx.attachment_timestamp
                && tw.source_tag@ == tx.tag@ && tw.distance == gap && tw.trunk_or_branch == tob,
        },
        r matches Some(tw) ==> ({
            let p = tw.target_spec();
            &&& tangle.txs@.dom().contains(p)
            &&& tw.distance == tx.attachment_timestamp - tangle.txs@[p].attachment_timestamp
            &&& signed_by(*tx, tangle.txs@[p])
        }),
{
    proof {
        lemma_detected_over_named_parent(*tx, tangle.txs@, min_diff as int, max_diff as int);
    }
    if !tag_ends_with_tw(&tx.tag) {
        return None;
    }
    let no = "NO";
    proof {
        reveal_strlit("NO");
        assert(no@ =~= seq!['N', 'O']);
    }
    if tx.nonce == no.to_owned() {
        return None;
    }
    match tangle.get(&tx.branch_transaction) {
        Some(b) => {
            let diff = tx.attachment_timestamp - b.attachment_timestamp;
            if diff > 0 && tags_match_exec(tx, b) && diff > min_diff && diff < max_diff {
                let tw_hash = crate::signing::timewarp_hash(
                    tx.address.as_str(),
                    tx.trunk_transaction.as_str(),
                    tx.branch_transaction.as_str(),
                    tx.tag.as_str(),
                );
                if crate::signing::validate_tw_signature(
                    b.address.as_str(),
                    tw_hash.as_str(),
                    tx.signature_fragments.as_str(),
                ) {
                    return Some(
                        Timewarp {
                            source_hash: tx.hash.clone(),
                            source_branch: tx.branch_transaction.clone(),
                            source_trunk: tx.trunk_transaction.clone(),
                            source_timestamp: tx.attachment_timestamp,
                            source_tag: tx.tag.clone(),
                            distance: diff,
                            trunk_or_branch: false,
                        },
                    );
                }
            }
        },
        None => {},
    }
    match tangle.get(&tx.trunk_transaction) {
        Some(t) => {
            let diff = tx.attachment_timestamp - t.attachment_timestamp;
            if diff > 0 && diff > min_diff && diff < max_diff {
                let tw_hash = crate::signing::timewarp_hash(
                    tx.address.as_str(),
                    tx.trunk_transaction.as_str(),
                    tx.branch_transaction.as_str(),
                    tx.tag.as_str(),
                );
                if crate::signing::validate_tw_signature(
                    t.address.as_str(),
                    tw_hash.as_str(),
                    tx.signature_fragments.as_str(),
                ) {
                    return Some(
                        Timewarp {
                            source_hash: tx.hash.clone(),
                            source_branch: tx.branch_transaction.clone(),
                            source_trunk: tx.trunk_transaction.clone(),
                            source_timestamp: tx.attachment_timestamp,
                            source_tag: tx.tag.clone(),
                            distance: diff,
                            trunk_or_branch: true,
                        },
                    );
                }
            }
        },
        None => {},
    }
    None
}

/// The decision state of the indexing component.
pub struct TimewarpIndexing {
    pub tangle: Tangle,
    /// Newest known transaction of each chain, to the walk it waits on
    /// (empty when it waits on none).
    pub known_timewarp_tips: StrMap<String>,
    /// Steps that arrived while a walk was running, by walk.
    pub known_active_walks: StrMap<Vec<Timewarp>>,
    pub start_time: i64,
    pub last_picked_tw: Option<TimewarpSelectionState>,
}

/// What to do with a detected timewarp.
pub enum ConfirmationAction {
    /// Nothing was detected.
    Ignore,
    /// It extends a known chain with no running walk: record it now.
    Store(Timewarp),
    /// It extends a chain whose walk is still running: it was kept for later.
    CacheLagging,
    /// It starts an unknown chain: walk it into the past.
    StartWalk(StartTimewarpWalking),
}

/// The empty text.
pub open spec fn no_walk() -> Seq<char> {
    Seq::empty()
}

/// The outcome of filing the detected timewarp `tw` of `tx`: how the tips
/// and walks of `o` become those of `f`, and what is to be done (`r`).
pub open spec fn files_timewarp(o: TimewarpIndexing, f: TimewarpIndexing, tw: Timewarp, tx: TxInfo, r: ConfirmationAction) -> bool {
    let tips = o.known_timewarp_tips@;
    let walks = o.known_active_walks@;
    let target = tw.target_spec();
    let src = tw.source_hash@;
    if tips.dom().contains(target) {
        let u = tips[target]@;
        if u == no_walk() || !walks.dom().contains(u) {
            &&& f.known_timewarp_tips@.dom() == tips.remove(target).insert(src, tips[target]).dom()
            &&& f.known_timewarp_tips@[src]@ == no_walk()
            &&& forall|k: Seq<char>| k != src && k != target && #[trigger] tips.dom().contains(k)
                ==> f.known_timewarp_tips@[k] == tips[k]
            &&& f.known_active_walks@ == walks
            &&& r == ConfirmationAction::Store(tw)
        } else {
            &&& f.known_timewarp_tips@ == tips.insert(src, tips[target]).remove(target)
            &&& f.known_active_walks@.dom() == walks.dom()
            &&& f.known_active_walks@[u]@ == walks[u]@.push(tw)
            &&& forall|k: Seq<char>| k != u && #[trigger] walks.dom().contains(k)
                ==> f.known_active_walks@[k] == walks[k]
            &&& r is CacheLagging
        }
    } else {
        let id = walk_id(tx.hash@, if tw.trunk_or_branch {
            tx.trunk_transaction@
        } else {
            tx.branch_transaction@
        });
        &&& f.known_timewarp_tips@.dom() == tips.insert(src, tips[target]).dom()
        &&& f.known_timewarp_tips@[src]@ == id
        &&& forall|k: Seq<char>| k != src && #[trigger] tips.dom().contains(k)
            ==> f.known_timewarp_tips@[k] == tips[k]
        &&& f.known_active_walks@.dom() == walks.insert(id, walks[id]).dom()
        &&& f.known_active_walks@[id]@.len() == 0
        &&& forall|k: Seq<char>| k != id && #[trigger] walks.dom().contains(k)
            ==> f.known_active_walks@[k] == walks[k]
        &&& r matches ConfirmationAction::StartWalk(start) && start.source_hash@ == tx.hash@
            && start.source_branch@ == tx.branch_transaction@
            && start.source_trunk@ == tx.trunk_transaction@
            && start.source_tag@ == tx.tag@
            && start.distance == tw.distance
            && start.source_timestamp == tx.attachment_timestamp
            && start.trunk_or_branch == tw.trunk_or_branch
            && start.last_picked_tw_tx@ == (match o.last_picked_tw {
                Some(p) => p.last_picked_timewarp.hash@,
                None => Seq::<char>::empty(),
            })
    }
}

impl TimewarpIndexing {
    /// The indexing state at `start_time`, following `last_picked_tw`, with
    /// an empty tangle that keeps `max_txs` transactions.
    pub fn new(max_txs: i64, start_time: i64, last_picked_tw: Option<TimewarpSelectionState>) -> (r: TimewarpIndexing)
        ensures
            r.tangle.wf(),
            r.tangle.txs@ == Map::<Seq<char>, TxInfo>::empty(),
            r.tangle.max_txs == max_txs,
            r.known_timewarp_tips@ == Map::<Seq<char>, String>::empty(),
            r.known_active_walks@ == Map::<Seq<char>, Vec<Timewarp>>::empty(),
            r.start_time == start_time,
            r.last_picked_tw == last_picked_tw,
    {
        TimewarpIndexing {
            tangle: Tangle::new(max_txs),
            known_timewarp_tips: StrMap::new(),
            known_active_walks: StrMap::new(),
            start_time,
            last_picked_tw,
        }
    }

    /// Ready for analysis once the switching time has passed since the
    /// start and no walk is running.
    pub fn ready_check(&self, now: i64, switch_threshold: i64) -> (r: bool)
        requires
            i64::MIN <= now - self.start_time <= i64::MAX,
        ensures
            r == (now - self.start_time > switch_threshold && self.known_active_walks@.dom().len() == 0),
    {
        now - self.start_time > switch_threshold && self.known_active_walks.is_empty()
    }

    /// Files a detected timewarp `tw` of the confirmed transaction `tx`.
    /// When its target is a known tip: with no walk running for that chain,
    /// the tip moves to `tw` and `tw` is to be recorded; with a walk
    /// running, the tip moves to `tw` and `tw` waits with the walk. When its
    /// target is unknown, a walk starts from `tx`, and `tw` is its tip.
    pub fn on_detected_timewarp(&mut self, tw: Timewarp, tx: &TxInfo) -> (r: ConfirmationAction)
        ensures
            final(self).tangle == old(self).tangle,
            final(self).start_time == old(self).start_time,
            final(self).last_picked_tw == old(self).last_picked_tw,
            files_timewarp(*old(self), *final(self), tw, *tx, r),
    {
        let target = tw.target_hash().clone();
        let known = match self.known_timewarp_tips.get(&target) {
            Some(u) => Some(u.clone()),
            None => None,
        };
        match known {
            Some(u) => {
                if u.as_str().unicode_len() == 0 || !self.known_active_walks.contains_key(&u) {
                    proof {
                        if u@.len() == 0 {
                            assert(u@ =~= no_walk());
                        }
                    }
                    self.known_timewarp_tips.remove(&target);
                    self.known_timewarp_tips.insert(tw.source_hash.clone(), String::new());
                    ConfirmationAction::Store(tw)
                } else {
                    proof {
                        assert(u@ != no_walk());
                    }
                    self.known_timewarp_tips.insert(tw.source_hash.clone(), u.clone());
                    self.known_timewarp_tips.remove(&target);
                    let mut cached = self.known_active_walks.remove(&u).unwrap();
                    cached.push(tw);
                    self.known_active_walks.insert(u, cached);
                    ConfirmationAction::CacheLagging
                }
            },
            None => {
                let last_picked = match &self.last_picked_tw {
                    Some(p) => p.last_picked_timewarp.hash.clone(),
                    None => String::new(),
                };
                let start = StartTimewarpWalking {
                    source_hash: tx.hash.clone(),
                    source_branch: tx.branch_transaction.clone(),
                    source_trunk: tx.trunk_transaction.clone(),
                    source_tag: tx.tag.clone(),
                    distance: tw.distance,
                    source_timestamp: tx.attachment_timestamp,
                    trunk_or_branch: tw.trunk_or_branch,
                    last_picked_tw_tx: last_picked,
                };
                let id = start.id();
                self.known_timewarp_tips.insert(tw.source_hash.clone(), id.clone());
                self.known_active_walks.insert(id, Vec::new());
                ConfirmationAction::StartWalk(start)
            },
        }
    }

    /// Handles the confirmation of transaction `txid`: when the tangle
    /// holds it and it forms a timewarp, that timewarp is filed.
    pub fn receive_transactionconfimation(&mut self, txid: &String, min_diff: i64, max_diff: i64) -> (r: ConfirmationAction)
        requires
            old(self).tangle.txs@.dom().contains(txid@) ==> ({
                let tx = old(self).tangle.txs@[txid@];
                &&& old(self).tangle.txs@.dom().contains(tx.branch_transaction@) ==> checkable(
                    tx,
                    old(self).tangle.txs@[tx.branch_transaction@],
                    true,
                )
                &&& old(self).tangle.txs@.dom().contains(tx.trunk_transaction@) ==> checkable(
                    tx,
                    old(self).tangle.txs@[tx.trunk_transaction@],
                    false,
                )
            }),
        ensures
            !old(self).tangle.txs@.dom().contains(txid@) ==> r is Ignore && *final(self) == *old(self),
            old(self).tangle.txs@.dom().contains(txid@) && detect_spec(
                old(self).tangle.txs@[txid@],
                old(self).tangle.txs@,
                min_diff as int,
                max_diff as int,
            ) is None ==> r is Ignore && *final(self) == *old(self),
            old(self).tangle.txs@.dom().contains(txid@) ==> ({
                let tx = old(self).tangle.txs@[txid@];
                match detect_spec(tx, old(self).tangle.txs@, min_diff as int, max_diff as int) {
                    Some((gap, tob)) => exists|tw: Timewarp|
                        #[trigger] files_timewarp(*old(self), *final(self), tw, tx, r)
                            && tw.source_hash@ == tx.hash@ && tw.source_branch@ == tx.branch_transaction@
                            && tw.source_trunk@ == tx.trunk_transaction@
                            && tw.source_timestamp == tx.attachment_timestamp && tw.source_tag@ == tx.tag@
                            && tw.distance == gap
                            && tw.trunk_or_branch == tob,
                    None => true,
                }
            }),
            final(self).tangle == old(self).tangle,
    {
        let found = match self.tangle.get(txid) {
            Some(tx) => Some(tx.duplicate()),
            None => None,
        };
        match found {
            None => ConfirmationAction::Ignore,
            Some(tx) => {
                let detected = detect_timewarp(&tx, &self.tangle, min_diff, max_diff);
                match detected {
                    None => ConfirmationAction::Ignore,
                    Some(tw) => {
                        let ghost o = *self;
                        let ghost tw0 = tw;
                        let ghost orig = self.tangle.txs@[txid@];
                        let r = self.on_detected_timewarp(tw, &tx);
                        proof {
                            assert(files_timewarp(o, *self, tw0, tx, r));
                            assert(files_timewarp(o, *self, tw0, orig, r));
                        }
                        r
                    },
                }
            },
        }
    }

    /// The steps of a finished walk `id`, in the order to record them: the
    /// walk's result from past to present, then the steps that arrived
    /// meanwhile; the walk is done.
    pub fn receive_timewalkresult(&mut self, id: &String, timewarps: Vec<Timewarp>) -> (r: Vec<Timewarp>)
        requires
            old(self).known_active_walks@.dom().contains(id@),
        ensures
            r@ == timewarps@.reverse() + old(self).known_active_walks@[id@]@,
            final(self).known_active_walks@ == old(self).known_active_walks@.remove(id@),
            final(self).known_timewarp_tips@ == old(self).known_timewarp_tips@,
            final(self).tangle == old(self).tangle,
    {
        let mut rest = timewarps;
        let ghost all = rest@;
        let mut r: Vec<Timewarp> = Vec::new();
        while rest.len() > 0
            invariant
                rest@.len() <= all.len(),
                rest@ == all.subrange(0, rest@.len() as int),
                r@ == all.reverse().subrange(0, all.len() - rest@.len()),
            decreases rest@.len(),
        {
            let ghost before = rest@;
            let tw = rest.pop().unwrap();
            r.push(tw);
            proof {
                assert(tw == all[before.len() - 1]);
                assert(rest@ =~= all.subrange(0, rest@.len() as int));
                assert(r@ =~= all.reverse().subrange(0, all.len() - rest@.len()));
            }
        }
        let lagging = self.known_active_walks.remove(id).unwrap();
        let ghost head = r@;
        let mut lag = lagging;
        let mut reversed: Vec<Timewarp> = Vec::new();
        let ghost lag_all = lag@;
        while lag.len() > 0
            invariant
                lag@.len() <= lag_all.len(),
                lag@ == lag_all.subrange(0, lag@.len() as int),
                reversed@ == lag_all.reverse().subrange(0, lag_all.len() - lag@.len()),
            decreases lag@.len(),
        {
            let ghost before = lag@;
            let tw = lag.pop().unwrap();
            reversed.push(tw);
            proof {
                assert(tw == lag_all[before.len() - 1]);
                assert(lag@ =~= lag_all.subrange(0, lag@.len() as int));
                assert(reversed@ =~= lag_all.reverse().subrange(0, lag_all.len() - lag@.len()));
            }
        }
        proof {
            assert(reversed@ =~= lag_all.reverse());
            assert(all.reverse().subrange(0, all.len() as int) =~= all.reverse());
        }
        while reversed.len() > 0
            invariant
                reversed@.len() <= lag_all.len(),
                reversed@ == lag_all.reverse().subrange(0, reversed@.len() as int),
                r@ == head + lag_all.subrange(0, lag_all.len() - reversed@.len()),
            decreases reversed@.len(),
        {
            let ghost before = reversed@;
            let tw = reversed.pop().unwrap();
            r.push(tw);
            proof {
                assert(tw == lag_all.reverse()[before.len() - 1]);
                assert(tw == lag_all[lag_all.len() - before.len()]);
                assert(reversed@ =~= lag_all.reverse().subrange(0, reversed@.len() as int));
                assert(r@ =~= head + lag_all.subrange(0, lag_all.len() - reversed@.len()));
            }
        }
        proof {
            assert(lag_all.subrange(0, lag_all.len() as int) =~= lag_all);
        }
        r
    }
}

/// The index entries of a recorded step: its source to its target, and
/// the chain's id (prefixed) to the chain's latest transaction.
pub fn index_entries(tw: &Timewarp, data: &TimewarpData) -> (r: Vec<(String, String)>)
    ensures
        r@.len() == 2,
        r@[0].0@ == tw.source_hash@,
        r@[0].1@ == tw.target_spec(),
        r@[1].0@ == TIMEWARP_ID_PREFIX@ + data.timewarpid@,
        r@[1].1@ == data.hash@,
{
    let mut id_key = TIMEWARP_ID_PREFIX.to_owned();
    id_key.append(data.timewarpid.as_str());
    let mut r: Vec<(String, String)> = Vec::new();
    r.push((tw.source_hash.clone(), tw.target_hash().clone()));
    r.push((id_key, data.hash.clone()));
    r
}

} // verus!
