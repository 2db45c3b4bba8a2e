//! The decisions of this node's own timewarp chain: whether to take part,
//! when to step or restart, and how the state moves on each confirmation.
use vstd::prelude::*;
use vstd::string::StrSliceExecFns;
use vstd::string::StringSliceAdditionalSpecFns;
use crate::indexstorage::{score_of, texts, TimewarpData, TimewarpIssuingState};
use crate::strmap::StrMap;
use crate::signing::{
    address_of, first_signable, first_tag, hash_at, key_digests_of, normalized_bundle_of,
    signable, signature_fragment_of, signing_key_of, tag_after, trit_value, trits_in_range,
    trits_of, trytes_of, balanced_digits, tryte_index,
};
use crate::indexstorage::{random_id_spec, trunc_div};

verus! {

/// The part of the issuing component that makes its decisions.
pub struct TimewarpIssuer {
    pub state: TimewarpIssuingState,
    pub timeout_in_seconds: i64,
    pub max_queue_size: i64,
    pub latest_tx: String,
    pub milestone_interval_in_seconds: i64,
    pub promote_timeout_in_seconds: i64,
    pub node: String,
    pub active: bool,
}

/// A chain of full score whose latest step is younger than three mean steps.
pub open spec fn is_mature(tw: TimewarpData, now: int) -> bool {
    score_of(tw.index_since_id as int, tw.avg_distance as int) == score_of(100, 120)
        && tw.timestamp > now - tw.avg_distance * 3
}

/// A chain of score at least 600 whose latest step is younger than five mean steps.
pub open spec fn is_eligible(tw: TimewarpData, now: int) -> bool {
    score_of(tw.index_since_id as int, tw.avg_distance as int) >= 600 && tw.timestamp > now
        - tw.avg_distance * 5
}

pub open spec fn mature(tws: Seq<TimewarpData>, now: int) -> Seq<TimewarpData> {
    tws.filter(|tw: TimewarpData| is_mature(tw, now))
}

pub open spec fn eligible(tws: Seq<TimewarpData>, now: int) -> Seq<TimewarpData> {
    tws.filter(|tw: TimewarpData| is_eligible(tw, now))
}

/// The score of every chain.
pub open spec fn scores(tws: Seq<TimewarpData>) -> Seq<int> {
    tws.map_values(|tw: TimewarpData| score_of(tw.index_since_id as int, tw.avg_distance as int))
}

/// How many of the first `n` chains come before chain `a` when sorted by
/// descending score, equal scores keeping their order.
pub open spec fn rank_before(sc: Seq<int>, a: int, n: int) -> int
    decreases n,
{
    if n <= 0 {
        0
    } else {
        rank_before(sc, a, n - 1) + if sc[n - 1] > sc[a] || (sc[n - 1] == sc[a] && n - 1 < a) {
            1int
        } else {
            0
        }
    }
}

/// The position of chain `a` in the list sorted by descending score.
pub open spec fn rank(sc: Seq<int>, a: int) -> int {
    rank_before(sc, a, sc.len() as int)
}

/// Whether this node takes part in timewarping: with five or more mature
/// chains, only when its own chain is one of them; else always when fewer
/// than five chains are eligible; else when its own chain is among the
/// sixteen best eligible ones.
pub open spec fn decide_active_spec(tws: Seq<TimewarpData>, now: int, self_id: Seq<char>) -> bool {
    let m = mature(tws, now);
    let e = eligible(tws, now);
    if m.len() >= 5 {
        exists|i: int| 0 <= i < m.len() && (#[trigger] m[i]).timewarpid@ == self_id
    } else if e.len() < 5 {
        true
    } else {
        exists|a: int|
            0 <= a < e.len() && (#[trigger] e[a]).timewarpid@ == self_id && rank(scores(e), a) <= 15
    }
}

/// The scores and the arithmetic of the tests fit.
pub open spec fn timewarps_fit(tws: Seq<TimewarpData>, now: int) -> bool {
    forall|i: int| 0 <= i < tws.len() ==> #[trigger] timewarp_fits(tws[i], now)
}

/// The score and the arithmetic of the tests on one chain fit.
pub open spec fn timewarp_fits(tw: TimewarpData, now: int) -> bool {
    &&& isize::MIN <= score_of(tw.index_since_id as int, tw.avg_distance as int) <= isize::MAX
    &&& i64::MIN <= tw.avg_distance * 5 <= i64::MAX
    &&& i64::MIN <= tw.avg_distance * 3 <= i64::MAX
    &&& i64::MIN <= now - tw.avg_distance * 5 <= i64::MAX
    &&& i64::MIN <= now - tw.avg_distance * 3 <= i64::MAX
}

/// The identifier of this node's chain: the first nine bytes of its first transaction.
pub open spec fn self_id_of(original_tx: Seq<char>) -> Seq<char> {
    crate::indexstorage::first_nine(original_tx)
}

/// The first nine bytes can be cut off the first transaction.
pub open spec fn has_self_id(original_tx: Seq<char>) -> bool {
    &&& vstd::utf8::encode_utf8(original_tx).len() >= 9
    &&& vstd::utf8::is_char_boundary(vstd::utf8::encode_utf8(original_tx), 9)
}

impl TimewarpIssuer {
    /// Whether the chain is to be restarted: when taking part and nothing
    /// was confirmed for five milestone intervals.
    pub fn should_restart(&self, now: i64) -> (r: bool)
        requires
            i64::MIN <= self.milestone_interval_in_seconds * 5 <= i64::MAX,
            i64::MIN <= now - self.milestone_interval_in_seconds * 5 <= i64::MAX,
        ensures
            r == (self.active && now - self.milestone_interval_in_seconds * 5
                > self.state.latest_confimed_timestamp),
    {
        if !self.active {
            return false;
        }
        let diff = now - (self.milestone_interval_in_seconds * 5);
        diff > self.state.latest_confimed_timestamp
    }

    /// Whether the latest transaction was confirmed within four milestone intervals.
    pub fn latest_tx_confirmed(&self, now: i64) -> (r: bool)
        requires
            i64::MIN <= self.milestone_interval_in_seconds * 4 <= i64::MAX,
            i64::MIN <= now - self.milestone_interval_in_seconds * 4 <= i64::MAX,
        ensures
            r == (self.state.latest_confimed_timestamp > now - self.milestone_interval_in_seconds
                * 4),
    {
        self.state.latest_confimed_timestamp > now - self.milestone_interval_in_seconds * 4
    }

    /// Whether to issue the next transaction: when taking part, the latest
    /// one is confirmed and the interval has passed.
    pub fn should_step(&self, now: i64) -> (r: bool)
        requires
            i64::MIN <= self.milestone_interval_in_seconds * 4 <= i64::MAX,
            i64::MIN <= now - self.milestone_interval_in_seconds * 4 <= i64::MAX,
            i64::MIN <= now - self.state.latest_timestamp <= i64::MAX,
        ensures
            r == (self.active && self.state.latest_confimed_timestamp > now
                - self.milestone_interval_in_seconds * 4 && now - self.state.latest_timestamp
                > self.timeout_in_seconds),
    {
        if !self.active {
            return false;
        }
        let diff = now - self.state.latest_timestamp;
        self.latest_tx_confirmed(now) && diff > self.timeout_in_seconds
    }

    /// Decides whether this node takes part in timewarping, from the latest
    /// known chains.
    pub fn decide_active(&mut self, timewarps: &Vec<TimewarpData>, now: i64)
        requires
            has_self_id(old(self).state.original_tx@),
            timewarps_fit(timewarps@, now as int),
        ensures
            final(self).active == decide_active_spec(
                timewarps@,
                now as int,
                self_id_of(old(self).state.original_tx@),
            ),
            final(self).state == old(self).state,
            final(self).latest_tx == old(self).latest_tx,
    {
        let self_id = self.state.random_id().to_owned();
        let ghost sid = self_id_of(self.state.original_tx@);
        assert(self_id@ == sid);
        let ghost tws = timewarps@;
        let ghost nowi = now as int;
        let ghost mpred = |tw: TimewarpData| is_mature(tw, nowi);
        let ghost epred = |tw: TimewarpData| is_eligible(tw, nowi);
        // The mature chains: how many, and whether this node's is one.
        let mut mature_count: usize = 0;
        let mut mature_mine = false;
        // The eligible chains: their scores, and which are this node's.
        let mut el_scores: Vec<isize> = Vec::new();
        let mut el_mine: Vec<bool> = Vec::new();
        let mut i: usize = 0;
        while i < timewarps.len()
            invariant
                i <= tws.len(),
                tws == timewarps@,
                nowi == now as int,
                sid == self_id_of(old(self).state.original_tx@),
                mpred == (|tw: TimewarpData| is_mature(tw, nowi)),
                epred == (|tw: TimewarpData| is_eligible(tw, nowi)),
                self.state == old(self).state,
                self.latest_tx == old(self).latest_tx,
                timewarps_fit(tws, nowi),
                self_id@ == sid,
                mature_count == tws.subrange(0, i as int).filter(mpred).len(),
                mature_mine == exists|j: int|
                    0 <= j < tws.subrange(0, i as int).filter(mpred).len() && (#[trigger] tws.subrange(
                        0,
                        i as int,
                    ).filter(mpred)[j]).timewarpid@ == sid,
                el_scores@.len() == tws.subrange(0, i as int).filter(epred).len(),
                el_mine@.len() == el_scores@.len(),
                forall|j: int|
                    0 <= j < el_scores@.len() ==> #[trigger] el_scores@[j] as int == scores(
                        tws.subrange(0, i as int).filter(epred),
                    )[j],
                forall|j: int|
                    0 <= j < el_mine@.len() ==> #[trigger] el_mine@[j] == (tws.subrange(
                        0,
                        i as int,
                    ).filter(epred)[j].timewarpid@ == sid),
            decreases tws.len() - i,
        {
            let tw = &timewarps[i];
            let ghost before = tws.subrange(0, i as int);
            assert(tws[i as int] == *tw);
            assert(timewarp_fits(*tw, nowi));
            proof {
                assert(tws.subrange(0, i + 1) =~= before.push(*tw));
                before.lemma_filter_push(*tw, mpred);
                before.lemma_filter_push(*tw, epred);
            }
            let score = tw.score();
            let mine = tw.timewarpid == self_id;
            if score == crate::indexstorage::TimewarpData::max_score() && tw.timestamp > now - (
            tw.avg_distance * 3) {
                proof {
                    assert(mpred(*tw));
                    let after = before.filter(mpred).push(*tw);
                    if mine {
                        assert(after[after.len() - 1].timewarpid@ == sid);
                    }
                    if exists|j: int|
                        0 <= j < before.filter(mpred).len() && (#[trigger] before.filter(
                            mpred,
                        )[j]).timewarpid@ == sid {
                        let j = choose|j: int|
                            0 <= j < before.filter(mpred).len() && (#[trigger] before.filter(
                                mpred,
                            )[j]).timewarpid@ == sid;
                        assert(after[j] == before.filter(mpred)[j]);
                    }
                    if exists|j: int| 0 <= j < after.len() && (#[trigger] after[j]).timewarpid@ == sid {
                        let j = choose|j: int|
                            0 <= j < after.len() && (#[trigger] after[j]).timewarpid@ == sid;
                        if j < after.len() - 1 {
                            assert(before.filter(mpred)[j] == after[j]);
                        }
                    }
                }
                mature_count = mature_count + 1;
                mature_mine = mature_mine || mine;
            } else {
                proof {
                    assert(!mpred(*tw));
                }
            }
            if score >= 600 && tw.timestamp > now - (tw.avg_distance * 5) {
                proof {
                    assert(epred(*tw));
                }
                el_scores.push(score);
                el_mine.push(mine);
                proof {
                    let after = before.filter(epred).push(*tw);
                    assert forall|j: int| 0 <= j < el_scores@.len() implies #[trigger] el_scores@[j] as int
                        == scores(after)[j] by {
                        if j < el_scores@.len() - 1 {
                            assert(after[j] == before.filter(epred)[j]);
                        }
                    }
                    assert forall|j: int| 0 <= j < el_mine@.len() implies #[trigger] el_mine@[j] == (
                    after[j].timewarpid@ == sid) by {
                        if j < el_mine@.len() - 1 {
                            assert(after[j] == before.filter(epred)[j]);
                        }
                    }
                }
            } else {
                proof {
                    assert(!epred(*tw));
                }
            }
            i = i + 1;
        }
        proof {
            assert(tws.subrange(0, tws.len() as int) =~= tws);
        }
        let ghost m = mature(tws, nowi);
        let ghost e = eligible(tws, nowi);
        assert(m == tws.filter(mpred));
        assert(e == tws.filter(epred));
        if mature_count >= 5 {
            self.active = mature_mine;
            return;
        }
        if el_scores.len() < 5 {
            self.active = true;
            return;
        }
        let ghost sc = scores(e);
        assert forall|j: int| 0 <= j < el_scores@.len() implies #[trigger] el_scores@[j] as int == sc[j] by {}
        let mut a: usize = 0;
        while a < el_scores.len()
            invariant
                a <= el_scores@.len(),
                nowi == now as int,
                tws == timewarps@,
                sid == self_id_of(old(self).state.original_tx@),
                self.state == old(self).state,
                self.latest_tx == old(self).latest_tx,
                el_scores@.len() == e.len(),
                el_mine@.len() == e.len(),
                sc == scores(e),
                sc.len() == e.len(),
                forall|j: int| 0 <= j < el_scores@.len() ==> #[trigger] el_scores@[j] as int == sc[j],
                forall|j: int| 0 <= j < el_mine@.len() ==> #[trigger] el_mine@[j] == (e[j].timewarpid@ == sid),
                forall|j: int| 0 <= j < a ==> !(e[j].timewarpid@ == sid && #[trigger] rank(sc, j) <= 15),
                decide_active_spec(tws, nowi, sid) == exists|q: int|
                    0 <= q < e.len() && (#[trigger] e[q]).timewarpid@ == sid && rank(scores(e), q) <= 15,
            decreases el_scores@.len() - a,
        {
            if el_mine[a] {
                // The position of chain `a` in the sorted list.
                let mut before_count: usize = 0;
                let mut b: usize = 0;
                while b < el_scores.len()
                    invariant
                        a < el_scores@.len(),
                        b <= el_scores@.len(),
                        el_scores@.len() == sc.len(),
                        forall|j: int| 0 <= j < el_scores@.len() ==> #[trigger] el_scores@[j] as int == sc[j],
                        before_count == rank_before(sc, a as int, b as int),
                        before_count <= b,
                    decreases el_scores@.len() - b,
                {
                    assert(el_scores@[b as int] as int == sc[b as int]);
                    assert(el_scores@[a as int] as int == sc[a as int]);
                    if el_scores[b] > el_scores[a] || (el_scores[b] == el_scores[a] && b < a) {
                        before_count = before_count + 1;
                    }
                    b = b + 1;
                }
                if before_count <= 15 {
                    self.active = true;
                    return;
                }
            }
            a = a + 1;
        }
        self.active = false;
    }
}

/// The position of the first `c` in `u`, or the length of `u` when absent.
pub open spec fn first_pos(u: Seq<Seq<char>>, c: Seq<char>) -> nat
    decreases u.len(),
{
    if u.len() == 0 {
        0
    } else if u[0] == c {
        0
    } else {
        1 + first_pos(u.drop_first(), c)
    }
}

proof fn lemma_first_pos(u: Seq<Seq<char>>, c: Seq<char>)
    ensures
        first_pos(u, c) <= u.len(),
        first_pos(u, c) < u.len() ==> u[first_pos(u, c) as int] == c,
        forall|j: int| 0 <= j < first_pos(u, c) ==> u[j] != c,
    decreases u.len(),
{
    if u.len() > 0 && u[0] != c {
        lemma_first_pos(u.drop_first(), c);
        assert forall|j: int| 0 <= j < first_pos(u, c) implies u[j] != c by {
            if j > 0 {
                assert(u[j] == u.drop_first()[j - 1]);
            }
        }
    }
}

/// What a confirmation of `c` needs: some transaction is unconfirmed, and
/// those before `c` (all of them when `c` is not listed) are distinct and
/// have an issue time.
pub open spec fn confirmation_possible(st: TimewarpIssuingState, c: Seq<char>) -> bool {
    let u = texts(st.unconfirmed_txs@);
    let q = first_pos(u, c) as int;
    st.tx_timestamp@.dom().contains(c) ==> {
        &&& u.len() > 0
        &&& u.subrange(0, q).no_duplicates()
        &&& forall|j: int| 0 <= j < q ==> st.tx_timestamp@.dom().contains(#[trigger] u[j])
    }
}

impl TimewarpIssuer {
    /// Takes in the confirmation of transaction `confirmed`. When it is one
    /// of the chain's, the unconfirmed transactions before it (all of them
    /// when it is not listed) are dropped with their issue times, and it
    /// becomes the latest confirmed one, with the issue time of the last
    /// dropped one (its own when none was dropped). Tells whether the state changed.
    pub fn receive_transactionconfimation(&mut self, confirmed: &String) -> (changed: bool)
        requires
            confirmation_possible(old(self).state, confirmed@),
        ensures
            changed == old(self).state.tx_timestamp@.dom().contains(confirmed@),
            !changed ==> final(self).state == old(self).state,
            changed ==> ({
                let u = texts(old(self).state.unconfirmed_txs@);
                let q = first_pos(u, confirmed@) as int;
                let ts = old(self).state.tx_timestamp@;
                &&& texts(final(self).state.unconfirmed_txs@) == (if q < u.len() {
                    u.subrange(q + 1, u.len() as int)
                } else {
                    Seq::empty()
                })
                &&& final(self).state.tx_timestamp@ == ts.remove_keys(u.subrange(0, q).to_set())
                &&& final(self).state.latest_confimed_tx@ == confirmed@
                &&& final(self).state.latest_confimed_timestamp == (if q > 0 {
                    ts[u[q - 1]]
                } else {
                    ts[confirmed@]
                })
                &&& final(self).state.seed == old(self).state.seed
                &&& final(self).state.original_tx == old(self).state.original_tx
                &&& final(self).state.latest_index == old(self).state.latest_index
                &&& final(self).state.latest_timestamp == old(self).state.latest_timestamp
                &&& final(self).state.latest_private_key == old(self).state.latest_private_key
            }),
            final(self).active == old(self).active,
            final(self).latest_tx == old(self).latest_tx,
    {
        if !self.state.tx_timestamp.contains_key(confirmed) {
            return false;
        }
        let ghost u = texts(self.state.unconfirmed_txs@);
        let ghost ts = self.state.tx_timestamp@;
        let ghost q = first_pos(u, confirmed@) as int;
        proof {
            lemma_first_pos(u, confirmed@);
        }
        let mut latest_ts: i64 = *self.state.tx_timestamp.get(confirmed).unwrap();
        let n = self.state.unconfirmed_txs.len();
        let mut k: usize = 0;
        while k < n && self.state.unconfirmed_txs[k] != *confirmed
            invariant
                n == self.state.unconfirmed_txs@.len(),
                u == texts(self.state.unconfirmed_txs@),
                k <= q,
                q <= u.len(),
                q < u.len() ==> u[q] == confirmed@,
                forall|j: int| 0 <= j < q ==> u[j] != confirmed@,
                u.subrange(0, q).no_duplicates(),
                forall|j: int| 0 <= j < q ==> ts.dom().contains(#[trigger] u[j]),
                self.state.tx_timestamp@ == ts.remove_keys(u.subrange(0, k as int).to_set()),
                latest_ts == (if k > 0 {
                    ts[u[k - 1]]
                } else {
                    ts[confirmed@]
                }),
                self.state.seed == old(self).state.seed,
                self.state.original_tx == old(self).state.original_tx,
                self.state.latest_index == old(self).state.latest_index,
                self.state.latest_timestamp == old(self).state.latest_timestamp,
                self.state.latest_private_key == old(self).state.latest_private_key,
                self.state.unconfirmed_txs == old(self).state.unconfirmed_txs,
                self.active == old(self).active,
                self.latest_tx == old(self).latest_tx,
            decreases n - k,
        {
            proof {
                if k == q {
                    assert(u[q] == confirmed@);
                    assert(self.state.unconfirmed_txs@[k as int]@ == confirmed@);
                }
                assert(k < q);
            }
            let key = self.state.unconfirmed_txs[k].clone();
            let ghost before = self.state.tx_timestamp@;
            let removed = self.state.tx_timestamp.remove(&key);
            proof {
                assert(u[k as int] == key@);
                assert(ts.dom().contains(key@));
                assert(!u.subrange(0, k as int).to_set().contains(key@)) by {
                    if u.subrange(0, k as int).to_set().contains(key@) {
                        let j = choose|j: int| 0 <= j < k && u.subrange(0, k as int)[j] == key@;
                        assert(u.subrange(0, q)[j] == u.subrange(0, q)[k as int]);
                    }
                }
                assert(u.subrange(0, k + 1) =~= u.subrange(0, k as int).push(key@));
                u.subrange(0, k as int).lemma_push_to_set_commute(key@);
                assert(u.subrange(0, k + 1).to_set() =~= u.subrange(0, k as int).to_set().insert(key@));
                assert(self.state.tx_timestamp@ =~= ts.remove_keys(u.subrange(0, k + 1).to_set()));
            }
            latest_ts = removed.unwrap();
            k = k + 1;
        }
        proof {
            if k < n {
                assert(u[k as int] == confirmed@);
                if k < q {
                    assert(u[k as int] != confirmed@);
                }
                assert(k == q);
            } else {
                assert(k == q);
            }
        }
        let mut rest: Vec<String> = Vec::new();
        if k < n {
            let mut j = k + 1;
            while j < n
                invariant
                    k < n,
                    k + 1 <= j <= n,
                    n == self.state.unconfirmed_txs@.len(),
                    u == texts(self.state.unconfirmed_txs@),
                    texts(rest@) == u.subrange(k + 1, j as int),
                decreases n - j,
            {
                let ghost r0 = rest@;
                let item = self.state.unconfirmed_txs[j].clone();
                rest.push(item);
                proof {
                    assert(rest@ == r0.push(item));
                    assert(u[j as int] == item@);
                    assert(texts(rest@) =~= texts(r0).push(item@));
                    assert(texts(rest@) =~= u.subrange(k + 1, j + 1));
                }
                j = j + 1;
            }
        } else {
            proof {
                assert(texts(rest@) =~= Seq::<Seq<char>>::empty());
            }
        }
        self.state.unconfirmed_txs = rest;
        self.state.latest_confimed_tx = confirmed.clone();
        self.state.latest_confimed_timestamp = latest_ts;
        true
    }
}

/// Calls `iota_utils::generate_new_seed`: 81 characters drawn at random
/// from the tryte alphabet.
#[verifier::external_body]
fn new_seed() -> (r: String)
    ensures
        r@.len() == 81,
        forall|i: int| 0 <= i < 81 ==> tryte_index(#[trigger] r@[i]) >= 0,
{
    iota_utils::generate_new_seed()
}

/// The index a new chain starts at.
pub open spec fn initial_index() -> Seq<char> {
    seq!['9', '9', '9', '9', '9']
}

/// A state with nothing issued: the given first transaction and times,
/// index `99999`, and no key.
pub open spec fn is_fresh_state(st: TimewarpIssuingState, original_tx: Seq<char>, ts: i64) -> bool {
    &&& st.seed@.len() == 81
    &&& st.latest_index@ == initial_index()
    &&& st.unconfirmed_txs@.len() == 0
    &&& st.latest_confimed_timestamp == ts
    &&& st.latest_confimed_tx@ == Seq::<char>::empty()
    &&& st.original_tx@ == original_tx
    &&& st.latest_private_key@.len() == 0
    &&& st.tx_timestamp@ == Map::<Seq<char>, i64>::empty()
    &&& st.latest_timestamp == ts
}

/// A state with nothing issued, a new seed, and the first transaction `original_tx`.
fn fresh_state(original_tx: &str, ts: i64) -> (r: TimewarpIssuingState)
    ensures
        is_fresh_state(r, original_tx@, ts),
{
    let index = "99999";
    proof {
        reveal_strlit("99999");
        assert(index@ =~= initial_index());
    }
    let r = TimewarpIssuingState {
        seed: new_seed(),
        latest_index: index.to_owned(),
        unconfirmed_txs: Vec::new(),
        latest_confimed_timestamp: ts,
        latest_confimed_tx: String::new(),
        original_tx: original_tx.to_owned(),
        latest_private_key: Vec::new(),
        tx_timestamp: StrMap::new(),
        latest_timestamp: ts,
    };
    assert(r.latest_index@ == initial_index());
    assert(r.unconfirmed_txs@.len() == 0);
    assert(r.latest_private_key@.len() == 0);
    r
}

/// What the issuing component does on a timer tick.
#[derive(Clone, Copy, Debug, PartialEq, Eq, Structural)]
pub enum IssuerAction {
    IssueNext,
    IssueFirst,
    Promote,
}

/// A timewarp transaction ready to be attached: where it goes, what it
/// carries, and the key and index the chain moves on to.
pub struct PreparedTimewarp {
    pub address: String,
    pub tag: String,
    pub message: String,
    pub private_key: Vec<i8>,
    pub next_index: String,
    pub trunk: String,
    pub branch: String,
}

/// What signing the next transaction needs of the state.
pub open spec fn can_sign_next(st: TimewarpIssuingState) -> bool {
    &&& 1 <= st.latest_index@.len() <= 13
    &&& 0 <= trit_value(trits_of(st.latest_index@)) <= usize::MAX
    &&& st.seed@.len() > 0
    &&& st.seed@.len() % 81 == 0
    &&& st.latest_private_key@.len() >= 6561
    &&& trits_in_range(st.latest_private_key@)
    &&& vstd::utf8::encode_utf8(st.original_tx@).len() >= 9 ==> vstd::utf8::is_char_boundary(
        vstd::utf8::encode_utf8(st.original_tx@),
        9,
    )
}

impl TimewarpIssuer {
    /// The issuing component, from the stored state when there is one, else
    /// from a fresh state with a new seed whose times are -1.
    pub fn new(last_state: Option<TimewarpIssuingState>, node: String, interval_in_seconds: i64) -> (r: TimewarpIssuer)
        ensures
            last_state is Some ==> r.state == last_state->0,
            last_state is None ==> is_fresh_state(r.state, crate::indexstorage::default_random_id(), -1i64),
            r.node@ == node@,
            r.latest_tx@ == Seq::<char>::empty(),
            r.timeout_in_seconds == interval_in_seconds,
            r.milestone_interval_in_seconds == 120,
            r.max_queue_size == 20,
            r.promote_timeout_in_seconds == 15,
            !r.active,
    {
        let state = match last_state {
            Some(st) => st,
            None => {
                let first = "999999999";
                proof {
                    reveal_strlit("999999999");
                    assert(first@ =~= crate::indexstorage::default_random_id());
                }
                fresh_state(first, -1)
            },
        };
        TimewarpIssuer {
            state,
            node,
            latest_tx: String::new(),
            timeout_in_seconds: interval_in_seconds,
            milestone_interval_in_seconds: 120,
            max_queue_size: 20,
            promote_timeout_in_seconds: 15,
            active: false,
        }
    }

    /// On a tick: issue the next transaction when due, else restart the
    /// chain when due, else promote.
    pub fn step_action(&self, now: i64) -> (r: IssuerAction)
        requires
            i64::MIN <= self.milestone_interval_in_seconds * 5 <= i64::MAX,
            i64::MIN <= now - self.milestone_interval_in_seconds * 5 <= i64::MAX,
            i64::MIN <= self.milestone_interval_in_seconds * 4 <= i64::MAX,
            i64::MIN <= now - self.milestone_interval_in_seconds * 4 <= i64::MAX,
            i64::MIN <= now - self.state.latest_timestamp <= i64::MAX,
        ensures
            r == (if self.active && self.state.latest_confimed_timestamp > now
                - self.milestone_interval_in_seconds * 4 && now - self.state.latest_timestamp
                > self.timeout_in_seconds {
                IssuerAction::IssueNext
            } else if self.active && now - self.milestone_interval_in_seconds * 5
                > self.state.latest_confimed_timestamp {
                IssuerAction::IssueFirst
            } else {
                IssuerAction::Promote
            }),
    {
        if self.should_step(now) {
            IssuerAction::IssueNext
        } else if self.should_restart(now) {
            IssuerAction::IssueFirst
        } else {
            IssuerAction::Promote
        }
    }

    /// Promotion only follows a transaction issued before.
    pub fn should_promote(&self) -> (r: bool)
        ensures
            r == (self.latest_tx@.len() != 0),
    {
        self.latest_tx.as_str().unicode_len() != 0
    }

    /// After a promotion, the promoting transaction is the latest one.
    pub fn record_promotion(&mut self, tx_hash: String)
        ensures
            final(self).latest_tx@ == tx_hash@,
            final(self).state == old(self).state,
            final(self).active == old(self).active,
    {
        self.latest_tx = tx_hash;
    }

    /// Whether the state allows signing the next transaction (a sound test:
    /// `true` only when it does).
    pub fn ready_to_sign_next(&self) -> (r: bool)
        ensures
            r ==> can_sign_next(self.state),
    {
        let index_len = self.state.latest_index.as_str().unicode_len();
        if index_len < 1 || index_len > 13 {
            return false;
        }
        let value = crate::signing::trytes_to_number(self.state.latest_index.as_str());
        if value < 0 {
            return false;
        }
        proof {
            assert(value <= i64::MAX);
        }
        if value as u64 > usize::MAX as u64 {
            return false;
        }
        let seed_len = self.state.seed.as_str().unicode_len();
        if seed_len == 0 || seed_len % 81 != 0 {
            return false;
        }
        let key = &self.state.latest_private_key;
        if key.len() < 6561 {
            return false;
        }
        let mut i: usize = 0;
        while i < key.len()
            invariant
                i <= key@.len(),
                forall|j: int| 0 <= j < i ==> -1 <= #[trigger] key@[j] <= 1,
            decreases key@.len() - i,
        {
            if key[i] < -1 || key[i] > 1 {
                return false;
            }
            i = i + 1;
        }
        let s = self.state.original_tx.as_str();
        proof {
            vstd::utf8::encode_utf8_valid_utf8(self.state.original_tx@);
            assert(s.spec_bytes() == vstd::utf8::encode_utf8(self.state.original_tx@));
        }
        s.is_char_boundary(9)
    }

    /// Prepares the next transaction of the chain on the tips
    /// `tip_trunk`/`tip_branch`: the next index, the key and address of the
    /// current index, the latest transaction as trunk (`trunk_or_branch`) or
    /// branch, the first tag (of at most `max_attempts`) whose hash can be
    /// signed, and that hash signed with the current private key. `None`
    /// when no tag of those attempts gives a hash that can be signed.
    pub fn prepare_next_transaction(
        &self,
        tip_trunk: String,
        tip_branch: String,
        trunk_or_branch: bool,
        max_attempts: u64,
    ) -> (r: Option<PreparedTimewarp>)
        requires
            can_sign_next(self.state),
        ensures
            ({
                let st = self.state;
                let key = signing_key_of(trits_of(st.seed@), trit_value(trits_of(st.latest_index@)) as usize, 1);
                let address = trytes_of(address_of(key_digests_of(key)));
                let next_index = trytes_of(balanced_digits(trit_value(trits_of(st.latest_index@)) + 1, 3 * st.latest_index@.len()));
                let trunk = if trunk_or_branch { st.latest_tx_spec() } else { tip_trunk@ };
                let branch = if trunk_or_branch { tip_branch@ } else { st.latest_tx_spec() };
                let t0 = trits_of(first_tag(next_index, random_id_spec(st.original_tx@)));
                match r {
                    Some(p) => {
                        &&& p.private_key@ == key
                        &&& p.address@ == address
                        &&& p.next_index@ == next_index
                        &&& p.trunk@ == trunk
                        &&& p.branch@ == branch
                        &&& exists|k: nat| k < max_attempts && first_signable(address, trunk, branch, t0, k)
                            && p.tag@ == #[trigger] trytes_of(tag_after(t0, k))
                            && p.message@ == trytes_of(signature_fragment_of(
                                normalized_bundle_of(hash_at(address, trunk, branch, t0, k)).subrange(0, 27),
                                st.latest_private_key@.subrange(0, 6561),
                            ))
                    },
                    None => forall|j: nat| j < max_attempts ==> !#[trigger] signable(hash_at(address, trunk, branch, t0, j)),
                }
            }),
    {
        let next_index = crate::signing::increase_index(self.state.latest_index.as_str());
        let index_num = self.state.latest_index_num();
        let key_address = crate::signing::generate_key_and_address(self.state.seed.as_str(), index_num as usize);
        let latest_tx = self.state.latest_tx();
        let trunk = if trunk_or_branch {
            latest_tx.clone()
        } else {
            tip_trunk
        };
        let branch = if trunk_or_branch {
            tip_branch
        } else {
            latest_tx
        };
        let found = crate::signing::calculate_normalized_timewarp_hash_within(
            key_address.1.as_str(),
            trunk.as_str(),
            branch.as_str(),
            next_index.as_str(),
            self.state.random_id(),
            max_attempts,
        );
        match found {
            None => None,
            Some(pair) => {
                let (hash, tag) = pair;
                let message = crate::signing::sign_tw_hash(&self.state.latest_private_key, hash.as_str());
                let (private_key, address) = key_address;
                Some(PreparedTimewarp { address, tag, message, private_key, next_index, trunk, branch })
            },
        }
    }

    /// After the prepared transaction `tx_hash` was attached at
    /// `attachment_timestamp_ms`: it joins the unconfirmed ones with its
    /// time in seconds, and the chain moves to the prepared index and key.
    pub fn record_next_transaction(&mut self, prepared: PreparedTimewarp, tx_hash: String, attachment_timestamp_ms: i64)
        ensures
            texts(final(self).state.unconfirmed_txs@) == texts(old(self).state.unconfirmed_txs@).push(tx_hash@),
            final(self).state.tx_timestamp@ == old(self).state.tx_timestamp@.insert(
                tx_hash@,
                trunc_div(attachment_timestamp_ms as int, 1000) as i64,
            ),
            final(self).state.latest_index@ == prepared.next_index@,
            final(self).state.latest_private_key@ == prepared.private_key@,
            final(self).state.latest_timestamp == trunc_div(attachment_timestamp_ms as int, 1000),
            final(self).state.seed == old(self).state.seed,
            final(self).state.original_tx == old(self).state.original_tx,
            final(self).state.latest_confimed_tx == old(self).state.latest_confimed_tx,
            final(self).state.latest_confimed_timestamp == old(self).state.latest_confimed_timestamp,
            final(self).latest_tx@ == tx_hash@,
            final(self).active == old(self).active,
    {
        let ts = crate::indexstorage::truncating_div(attachment_timestamp_ms, 1000);
        let ghost before = self.state.unconfirmed_txs@;
        self.state.unconfirmed_txs.push(tx_hash.clone());
        proof {
            assert(texts(self.state.unconfirmed_txs@) =~= texts(before).push(tx_hash@));
        }
        self.state.tx_timestamp.insert(tx_hash.clone(), ts);
        self.state.latest_index = prepared.next_index;
        self.state.latest_private_key = prepared.private_key;
        self.state.latest_timestamp = ts;
        self.latest_tx = tx_hash;
    }

    /// Restarts the chain: a fresh state with a new seed, an empty first
    /// transaction and times 0; gives the key and address of index 0.
    pub fn begin_first_transaction(&mut self) -> (r: (Vec<i8>, String))
        ensures
            is_fresh_state(final(self).state, Seq::<char>::empty(), 0i64),
            r.0@ == signing_key_of(trits_of(final(self).state.seed@), 0, 1),
            r.1@ == trytes_of(address_of(key_digests_of(signing_key_of(trits_of(final(self).state.seed@), 0, 1)))),
            final(self).latest_tx == old(self).latest_tx,
            final(self).active == old(self).active,
    {
        let empty = "";
        proof {
            reveal_strlit("");
            assert(empty@ =~= Seq::<char>::empty());
        }
        self.state = fresh_state(empty, 0);
        crate::signing::generate_key_and_address(self.state.seed.as_str(), 0)
    }

    /// After the first transaction `tx_hash` was attached: it starts the
    /// chain and is its only unconfirmed transaction; the chain counts as
    /// confirmed at `now`.
    pub fn record_first_transaction(&mut self, private_key: Vec<i8>, tx_hash: String, attachment_timestamp_ms: i64, now: i64)
        ensures
            texts(final(self).state.unconfirmed_txs@) == seq![tx_hash@],
            final(self).state.original_tx@ == tx_hash@,
            final(self).state.tx_timestamp@ == Map::<Seq<char>, i64>::empty().insert(
                tx_hash@,
                trunc_div(attachment_timestamp_ms as int, 1000) as i64,
            ),
            final(self).state.latest_confimed_timestamp == now,
            final(self).state.latest_confimed_tx@ == Seq::<char>::empty(),
            final(self).state.latest_private_key@ == private_key@,
            final(self).state.latest_timestamp == trunc_div(attachment_timestamp_ms as int, 1000),
            final(self).state.latest_index == old(self).state.latest_index,
            final(self).state.seed == old(self).state.seed,
            final(self).latest_tx@ == tx_hash@,
            final(self).active == old(self).active,
    {
        let ts = crate::indexstorage::truncating_div(attachment_timestamp_ms, 1000);
        let mut unconfirmed: Vec<String> = Vec::new();
        unconfirmed.push(tx_hash.clone());
        proof {
            assert(texts(unconfirmed@) =~= seq![tx_hash@]);
        }
        let mut tx_timestamp: StrMap<i64> = StrMap::new();
        tx_timestamp.insert(tx_hash.clone(), ts);
        self.state.unconfirmed_txs = unconfirmed;
        self.state.original_tx = tx_hash.clone();
        self.state.tx_timestamp = tx_timestamp;
        self.state.latest_confimed_timestamp = now;
        self.state.latest_confimed_tx = String::new();
        self.state.latest_private_key = private_key;
        self.state.latest_timestamp = ts;
        self.latest_tx = tx_hash;
    }
}

} // verus!
