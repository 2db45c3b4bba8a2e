//! Pinning the transactions that connect a lifeline entry, in batches.
use vstd::prelude::*;
use crate::indexstorage::texts;

verus! {

/// Most transactions fetched and stored at once.
pub const PIN_BATCH: usize = 25;

/// The batches that pinning fetches and stores: the current batch while
/// transactions are left, then the next (at most 25) of those left. The
/// batch taken when nothing is left after it is not stored.
pub open spec fn batches_from(current: Seq<Seq<char>>, rest: Seq<Seq<char>>) -> Seq<Seq<Seq<char>>>
    decreases rest.len(),
{
    if current.len() == 0 || rest.len() == 0 {
        Seq::empty()
    } else {
        let n = if rest.len() < 25 {
            rest.len() as int
        } else {
            25
        };
        seq![current] + batches_from(rest.subrange(0, n), rest.subrange(n, rest.len() as int))
    }
}

/// The batches stored when pinning the lifeline entry `timewarp_tx` with
/// its connecting transactions `unpinned`.
pub fn pin_batches(timewarp_tx: &String, unpinned: &Vec<String>) -> (r: Vec<Vec<String>>)
    ensures
        r@.map_values(|b: Vec<String>| texts(b@)) == batches_from(seq![timewarp_tx@], texts(unpinned@)),
{
    let mut batches: Vec<Vec<String>> = Vec::new();
    let mut current: Vec<String> = Vec::new();
    current.push(timewarp_tx.clone());
    let mut start: usize = 0;
    let n = unpinned.len();
    let ghost all = texts(unpinned@);
    proof {
        assert(texts(current@) =~= seq![timewarp_tx@]);
        assert(all.subrange(0, all.len() as int) =~= all);
    }
    while current.len() > 0 && start < n
        invariant
            n == unpinned@.len(),
            all == texts(unpinned@),
            start <= n,
            batches@.map_values(|b: Vec<String>| texts(b@)) + batches_from(
                texts(current@),
                all.subrange(start as int, n as int),
            ) == batches_from(seq![timewarp_tx@], all),
        decreases n - start,
    {
        let take = if n - start < PIN_BATCH {
            n - start
        } else {
            PIN_BATCH
        };
        let mut next: Vec<String> = Vec::new();
        let mut j = start;
        while j < start + take
            invariant
                start + take <= n,
                n == unpinned@.len(),
                start <= j <= start + take,
                texts(next@) == texts(unpinned@).subrange(start as int, j as int),
            decreases start + take - j,
        {
            let ghost before = next@;
            let item = unpinned[j].clone();
            next.push(item);
            proof {
                assert(next@ == before.push(item));
                assert(texts(next@) =~= texts(before).push(item@));
                assert(texts(next@) =~= texts(unpinned@).subrange(start as int, j + 1));
            }
            j = j + 1;
        }
        let ghost rest = all.subrange(start as int, n as int);
        let ghost old_batches = batches@;
        proof {
            assert(rest.subrange(0, take as int) =~= texts(next@));
            assert(rest.subrange(take as int, rest.len() as int) =~= all.subrange(start + take, n as int));
            assert(batches_from(texts(current@), rest) == seq![texts(current@)] + batches_from(
                texts(next@),
                all.subrange(start + take, n as int),
            ));
        }
        batches.push(current);
        proof {
            assert(batches@.map_values(|b: Vec<String>| texts(b@)) =~= old_batches.map_values(
                |b: Vec<String>| texts(b@),
            ).push(texts(batches@.last()@)));
        }
        current = next;
        start = start + take;
    }
    proof {
        assert(batches_from(texts(current@), all.subrange(start as int, n as int)) =~= Seq::<
            Seq<Seq<char>>,
        >::empty());
        assert(batches@.map_values(|b: Vec<String>| texts(b@)) + Seq::<Seq<Seq<char>>>::empty()
            =~= batches@.map_values(|b: Vec<String>| texts(b@)));
    }
    batches
}

} // verus!
