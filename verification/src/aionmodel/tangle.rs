//! The recent part of the tangle that this node has seen, oldest first.
use vstd::prelude::*;
use crate::aionmodel::transaction::TxInfo;
use crate::indexstorage::texts;
use crate::strmap::StrMap;

verus! {

pub struct Tangle {
    pub txs: StrMap<TxInfo>,
    /// The transactions in the order they arrived.
    pub txs_ages: Vec<String>,
    pub max_txs: i64,
    pub confirmed_txs: StrMap<bool>,
}

/// How many of the oldest transactions `maintain` drops.
pub open spec fn excess(len: int, max_txs: int) -> int {
    if max_txs < 0 || len <= max_txs {
        0
    } else {
        len - max_txs
    }
}

impl Tangle {
    /// The arrival list holds every stored transaction once, and nothing else.
    pub open spec fn wf(&self) -> bool {
        &&& texts(self.txs_ages@).no_duplicates()
        &&& forall|k: Seq<char>| #[trigger] self.txs@.dom().contains(k) <==> texts(self.txs_ages@).contains(k)
    }

    /// An empty tangle that keeps at most `max_txs` transactions.
    pub fn new(max_txs: i64) -> (r: Tangle)
        ensures
            r.wf(),
            r.txs@ == Map::<Seq<char>, TxInfo>::empty(),
            r.txs_ages@.len() == 0,
            r.confirmed_txs@ == Map::<Seq<char>, bool>::empty(),
            r.max_txs == max_txs,
    {
        let r = Tangle { txs: StrMap::new(), txs_ages: Vec::new(), max_txs, confirmed_txs: StrMap::new() };
        assert(texts(r.txs_ages@) =~= Seq::<Seq<char>>::empty());
        r
    }

    pub fn contains(&self, txid: String) -> (r: bool)
        ensures
            r == self.txs@.dom().contains(txid@),
    {
        self.txs.contains_key(&txid)
    }

    pub fn is_certainly_confirmed(&self, txid: String) -> (r: bool)
        ensures
            r == self.confirmed_txs@.dom().contains(txid@),
    {
        self.confirmed_txs.contains_key(&txid)
    }

    pub fn get(&self, txid: &String) -> (r: Option<&TxInfo>)
        ensures
            match r {
                Some(tx) => self.txs@.dom().contains(txid@) && *tx == self.txs@[txid@],
                None => !self.txs@.dom().contains(txid@),
            },
    {
        self.txs.get(txid)
    }

    /// Adds a transaction not seen before, as the newest one.
    pub fn insert(&mut self, tx: TxInfo)
        requires
            old(self).wf(),
        ensures
            final(self).wf(),
            old(self).txs@.dom().contains(tx.hash@) ==> final(self).txs@ == old(self).txs@
                && final(self).txs_ages@ == old(self).txs_ages@,
            !old(self).txs@.dom().contains(tx.hash@) ==> final(self).txs@ == old(self).txs@.insert(
                tx.hash@,
                tx,
            ) && texts(final(self).txs_ages@) == texts(old(self).txs_ages@).push(tx.hash@),
            final(self).confirmed_txs@ == old(self).confirmed_txs@,
            final(self).max_txs == old(self).max_txs,
    {
        if !self.txs.contains_key(&tx.hash) {
            let key = tx.hash.clone();
            let ghost before = self.txs_ages@;
            self.txs_ages.push(key.clone());
            proof {
                assert(texts(self.txs_ages@) =~= texts(before).push(key@));
                assert(!texts(before).contains(key@));
                assert forall|i: int, j: int|
                    0 <= i < texts(self.txs_ages@).len() && 0 <= j < texts(self.txs_ages@).len()
                        && i != j implies texts(self.txs_ages@)[i] != texts(self.txs_ages@)[j] by {
                    if i < before.len() && j < before.len() {
                        assert(texts(before)[i] != texts(before)[j]);
                    } else if i < before.len() {
                        assert(texts(before)[i] != key@);
                    } else {
                        assert(texts(before)[j] != key@);
                    }
                }
            }
            self.txs.insert(key, tx);
            proof {
                assert forall|k: Seq<char>| #[trigger] self.txs@.dom().contains(k) <==> texts(self.txs_ages@).contains(k) by {
                    if texts(self.txs_ages@).contains(k) && k != tx.hash@ {
                        let i = choose|i: int| 0 <= i < texts(self.txs_ages@).len() && texts(self.txs_ages@)[i] == k;
                        assert(i < before.len());
                        assert(texts(before)[i] == k);
                    }
                    if old(self).txs@.dom().contains(k) {
                        let i = choose|i: int| 0 <= i < texts(before).len() && texts(before)[i] == k;
                        assert(texts(self.txs_ages@)[i] == k);
                    }
                    if k == tx.hash@ {
                        assert(texts(self.txs_ages@)[before.len() as int] == k);
                    }
                }
            }
        }
    }

    /// Drops the oldest transactions until at most `max_txs` are kept (all
    /// are kept when `max_txs` is negative).
    pub fn maintain(&mut self)
        requires
            old(self).wf(),
        ensures
            final(self).wf(),
            ({
                let d = excess(old(self).txs_ages@.len() as int, old(self).max_txs as int);
                let dropped = texts(old(self).txs_ages@).subrange(0, d).to_set();
                &&& texts(final(self).txs_ages@) == texts(old(self).txs_ages@).subrange(
                    d,
                    old(self).txs_ages@.len() as int,
                )
                &&& final(self).txs@ == old(self).txs@.remove_keys(dropped)
                &&& final(self).confirmed_txs@ == old(self).confirmed_txs@.remove_keys(dropped)
            }),
            final(self).max_txs == old(self).max_txs,
            final(self).max_txs >= 0 ==> final(self).txs_ages@.len() <= final(self).max_txs,
    {
        let ghost ages0 = texts(self.txs_ages@);
        let ghost d = excess(self.txs_ages@.len() as int, self.max_txs as int);
        let ghost txs0 = self.txs@;
        let ghost conf0 = self.confirmed_txs@;
        let ghost n0 = self.txs_ages@.len() as int;
        let mut k: usize = 0;
        let n_start = self.txs_ages.len();
        assert(n0 == n_start as int);
        assert(ages0.subrange(0, n0) =~= ages0);
        assert(ages0.subrange(0, 0).to_set() =~= Set::<Seq<char>>::empty());
        assert(txs0.remove_keys(Set::empty()) =~= txs0);
        assert(conf0.remove_keys(Set::empty()) =~= conf0);
        while self.max_txs >= 0 && self.txs_ages.len() as u64 > self.max_txs as u64
            invariant
                n0 == ages0.len(),
                n0 <= usize::MAX,
                d == excess(n0, self.max_txs as int),
                0 <= k <= d,
                texts(self.txs_ages@) == ages0.subrange(k as int, n0),
                ages0.no_duplicates(),
                self.txs@ == txs0.remove_keys(ages0.subrange(0, k as int).to_set()),
                self.confirmed_txs@ == conf0.remove_keys(ages0.subrange(0, k as int).to_set()),
                forall|key: Seq<char>| #[trigger] txs0.dom().contains(key) <==> ages0.contains(key),
                self.max_txs == old(self).max_txs,
            decreases self.txs_ages@.len(),
        {
            let ghost before = self.txs_ages@;
            proof {
                assert(texts(before).len() == before.len());
                assert(before.len() == n0 - k);
                assert(n0 - k > self.max_txs);
                assert(k < d);
                assert(texts(before)[0] == ages0[k as int]);
            }
            let popping = self.txs_ages.remove(0);
            proof {
                assert(popping@ == texts(before)[0]);
                assert(popping@ == ages0[k as int]);
                assert(self.txs_ages@ == before.remove(0));
                assert(texts(self.txs_ages@) =~= texts(before).subrange(1, before.len() as int));
                assert(texts(self.txs_ages@) =~= ages0.subrange(k + 1, n0));
                assert(ages0.subrange(0, k + 1) =~= ages0.subrange(0, k as int).push(popping@));
                ages0.subrange(0, k as int).lemma_push_to_set_commute(popping@);
            }
            self.txs.remove(&popping);
            self.confirmed_txs.remove(&popping);
            proof {
                assert(self.txs@ =~= txs0.remove_keys(ages0.subrange(0, k + 1).to_set()));
                assert(self.confirmed_txs@ =~= conf0.remove_keys(ages0.subrange(0, k + 1).to_set()));
            }
            k = k + 1;
        }
        proof {
            assert(k == d);
            let rest = ages0.subrange(d, n0);
            assert(texts(self.txs_ages@).len() == self.txs_ages@.len());
            assert(texts(self.txs_ages@) == rest);
            assert forall|i: int, j: int| 0 <= i < rest.len() && 0 <= j < rest.len() && i != j implies rest[i] != rest[j] by {
                assert(rest[i] == ages0[i + d]);
                assert(rest[j] == ages0[j + d]);
            }
            assert forall|key: Seq<char>| #[trigger] self.txs@.dom().contains(key) <==> rest.contains(key) by {
                if rest.contains(key) {
                    let i = choose|i: int| 0 <= i < rest.len() && rest[i] == key;
                    assert(ages0[i + d] == key);
                    assert(ages0.contains(key));
                    if ages0.subrange(0, d).to_set().contains(key) {
                        let j = choose|j: int| 0 <= j < d && ages0.subrange(0, d)[j] == key;
                        assert(ages0[j] == key);
                    }
                }
                if self.txs@.dom().contains(key) {
                    assert(txs0.dom().contains(key));
                    let i = choose|i: int| 0 <= i < ages0.len() && ages0[i] == key;
                    if i < d {
                        assert(ages0.subrange(0, d)[i] == key);
                    }
                    assert(rest[i - d] == key);
                }
            }
        }
    }
}

} // verus!
