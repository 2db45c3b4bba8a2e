//! Pull jobs, pin descriptors and the issuing state, kept in memory.
use vstd::prelude::*;
use crate::indexstorage::{copy_strings, texts, PinDescriptor, PullJob, PullJobsPersistence, TimewarpIssueingPersistence, TimewarpIssuingState, PIN_STATUS_NODE_ERROR, PIN_STATUS_TRANSACTION_NOT_FOUND};
use crate::strmap::StrMap;
use crate::transactionpulling::{PullAction, PullEvent};

verus! {

/// Whether a job in this status has failed for good and leaves the queue.
pub open spec fn is_faulty_status(s: Seq<char>) -> bool {
    s == PIN_STATUS_NODE_ERROR@ || s == PIN_STATUS_TRANSACTION_NOT_FOUND@
}

/// `s` without any occurrence of `x`, the rest in order.
pub open spec fn without(s: Seq<Seq<char>>, x: Seq<char>) -> Seq<Seq<char>>
    decreases s.len(),
{
    if s.len() == 0 {
        s
    } else if s.last() == x {
        without(s.drop_last(), x)
    } else {
        without(s.drop_last(), x).push(s.last())
    }
}

/// The position of the last descriptor among the first `n` stored under `id`,
/// or -1 when there is none.
pub open spec fn last_stored(s: Seq<(Vec<u8>, PinDescriptor)>, id: Seq<u8>, n: int) -> int
    decreases n,
{
    if n <= 0 {
        -1
    } else if s[n - 1].0@ == id {
        n - 1
    } else {
        last_stored(s, id, n - 1)
    }
}

/// The job reached from `id` by following each job's dependant while the
/// dependant is held, taking at most `fuel` steps: `None` when `id` is not
/// held or the chain goes on past `fuel` steps.
pub open spec fn chain_end(m: Map<Seq<char>, PullJob>, id: Seq<char>, fuel: nat) -> Option<Seq<char>>
    decreases fuel,
{
    if !m.dom().contains(id) {
        None
    } else if !m.dom().contains(m[id].dependant@) {
        Some(id)
    } else if fuel == 0 {
        None
    } else {
        chain_end(m, m[id].dependant@, (fuel - 1) as nat)
    }
}

/// The job that `next_pull_job` starts from: the queued job at `offset`, or
/// the last one when `offset` is past the end.
pub open spec fn picked_at(pending: Seq<Seq<char>>, offset: int) -> Seq<char> {
    if offset < pending.len() {
        pending[offset]
    } else {
        pending.last()
    }
}

/// `list` with every entry equal to `x` left out.
fn remove_all(list: &Vec<String>, x: &String) -> (r: Vec<String>)
    ensures
        texts(r@) == without(texts(list@), x@),
{
    let mut r: Vec<String> = Vec::new();
    let mut i: usize = 0;
    while i < list.len()
        invariant
            i <= list@.len(),
            texts(r@) == without(texts(list@).subrange(0, i as int), x@),
        decreases list@.len() - i,
    {
        let ghost before = r@;
        proof {
            assert(texts(list@).subrange(0, i + 1).drop_last() =~= texts(list@).subrange(0, i as int));
            assert(texts(list@).subrange(0, i + 1).last() == list@[i as int]@);
        }
        if list[i] != *x {
            r.push(list[i].clone());
            proof {
                assert(texts(r@) =~= texts(before).push(list@[i as int]@));
            }
        }
        i = i + 1;
    }
    proof {
        assert(texts(list@).subrange(0, list@.len() as int) =~= texts(list@));
    }
    r
}

fn same_bytes(a: &Vec<u8>, b: &Vec<u8>) -> (r: bool)
    ensures
        r == (a@ == b@),
{
    if a.len() != b.len() {
        return false;
    }
    let mut i: usize = 0;
    while i < a.len()
        invariant
            i <= a@.len(),
            a@.len() == b@.len(),
            a@.subrange(0, i as int) == b@.subrange(0, i as int),
        decreases a@.len() - i,
    {
        if a[i] != b[i] {
            assert(a@[i as int] != b@[i as int]);
            return false;
        }
        i = i + 1;
        assert(a@.subrange(0, i as int) =~= a@.subrange(0, i - 1).push(a@[i - 1]));
        assert(b@.subrange(0, i as int) =~= b@.subrange(0, i - 1).push(b@[i - 1]));
    }
    assert(a@ =~= a@.subrange(0, a@.len() as int));
    assert(b@ =~= b@.subrange(0, b@.len() as int));
    true
}

/// Pin descriptors by identifier, pull jobs by id, the queue of jobs to run
/// and the list of jobs that failed.
pub struct MemoryPullJobStore {
    /// Every descriptor stored, with its identifier; the last one stored
    /// under an identifier is the one read.
    pub descriptors: Vec<(Vec<u8>, PinDescriptor)>,
    pub jobs: StrMap<PullJob>,
    /// Ids of the jobs waiting to run, oldest first.
    pub pending: Vec<String>,
    /// Ids of the jobs that failed, oldest first.
    pub faulty: Vec<String>,
}

impl MemoryPullJobStore {
    pub fn new() -> (r: MemoryPullJobStore)
        ensures
            r.descriptors@.len() == 0,
            r.jobs@ == Map::<Seq<char>, PullJob>::empty(),
            r.pending@.len() == 0,
            r.faulty@.len() == 0,
    {
        MemoryPullJobStore { descriptors: Vec::new(), jobs: StrMap::new(), pending: Vec::new(), faulty: Vec::new() }
    }
}

impl PullJobsPersistence for MemoryPullJobStore {
    fn store_pin_descriptor(&mut self, pin_descriptor: PinDescriptor) -> (r: Result<(), String>)
        ensures
            final(self).descriptors@ == old(self).descriptors@.push((final(self).descriptors@.last().0, pin_descriptor)),
            final(self).descriptors@.last().0@ == pin_descriptor.id_spec(),
            final(self).jobs == old(self).jobs,
            final(self).pending@ == old(self).pending@,
            final(self).faulty@ == old(self).faulty@,
            r is Ok,
    {
        let id = pin_descriptor.id();
        self.descriptors.push((id, pin_descriptor));
        Ok(())
    }

    fn get_pin_descriptor(&self, id: Vec<u8>) -> (r: Option<PinDescriptor>)
        ensures
            ({
                let k = last_stored(self.descriptors@, id@, self.descriptors@.len() as int);
                match r {
                    Some(d) => k >= 0 && d.same(self.descriptors@[k].1),
                    None => k == -1,
                }
            }),
    {
        let mut i: usize = self.descriptors.len();
        while i > 0
            invariant
                i <= self.descriptors@.len(),
                last_stored(self.descriptors@, id@, self.descriptors@.len() as int) == last_stored(self.descriptors@, id@, i as int),
            decreases i,
        {
            if same_bytes(&self.descriptors[i - 1].0, &id) {
                return Some(self.descriptors[i - 1].1.duplicate());
            }
            i = i - 1;
        }
        None
    }

    fn add_pull_job(&mut self, job: &PullJob)
        ensures
            texts(final(self).pending@) == texts(old(self).pending@).push(job.id@),
            final(self).jobs@.dom() == old(self).jobs@.dom().insert(job.id@),
            final(self).jobs@[job.id@].same(*job),
            forall|k: Seq<char>| k != job.id@ ==> #[trigger] final(self).jobs@[k] == old(self).jobs@[k],
            final(self).faulty@ == old(self).faulty@,
            final(self).descriptors@ == old(self).descriptors@,
    {
        let ghost before = self.pending@;
        self.pending.push(job.id.clone());
        proof {
            assert(texts(self.pending@) =~= texts(before).push(job.id@));
        }
        self.jobs.insert(job.id.clone(), job.duplicate());
    }

    fn update_pull_job(&mut self, job: &PullJob)
        ensures
            final(self).jobs@.dom() == old(self).jobs@.dom().insert(job.id@),
            final(self).jobs@[job.id@].same(*job),
            forall|k: Seq<char>| k != job.id@ ==> #[trigger] final(self).jobs@[k] == old(self).jobs@[k],
            is_faulty_status(job.status@) ==> texts(final(self).faulty@) == texts(old(self).faulty@).push(job.id@)
                && texts(final(self).pending@) == without(texts(old(self).pending@), job.id@),
            !is_faulty_status(job.status@) ==> final(self).faulty@ == old(self).faulty@
                && final(self).pending@ == old(self).pending@,
            final(self).descriptors@ == old(self).descriptors@,
    {
        self.jobs.insert(job.id.clone(), job.duplicate());
        let node_error = PIN_STATUS_NODE_ERROR.to_owned();
        let not_found = PIN_STATUS_TRANSACTION_NOT_FOUND.to_owned();
        if job.status == node_error || job.status == not_found {
            let ghost before = self.faulty@;
            self.faulty.push(job.id.clone());
            proof {
                assert(texts(self.faulty@) =~= texts(before).push(job.id@));
            }
            self.pending = remove_all(&self.pending, &job.id);
        }
    }

    fn pop_pull_job(&mut self, id: String)
        ensures
            final(self).jobs@ == old(self).jobs@.remove(id@),
            texts(final(self).pending@) == without(texts(old(self).pending@), id@),
            final(self).faulty@ == old(self).faulty@,
            final(self).descriptors@ == old(self).descriptors@,
    {
        self.jobs.remove(&id);
        self.pending = remove_all(&self.pending, &id);
    }

    fn get_pull_job(&self, id: &String) -> (r: Option<PullJob>)
        ensures
            match r {
                Some(j) => self.jobs@.dom().contains(id@) && j.same(self.jobs@[id@]),
                None => !self.jobs@.dom().contains(id@),
            },
    {
        match self.jobs.get(id) {
            Some(j) => Some(j.duplicate()),
            None => None,
        }
    }

    /// The job that can run next: starting from the queued job at `offset`
    /// (the last one when `offset` is past the end), the dependant is followed
    /// while it is held. A chain that runs on for as many steps as there are
    /// jobs goes round in a circle and gives `None`.
    fn next_pull_job(&self, offset: &usize) -> (r: Option<PullJob>)
        ensures
            self.pending@.len() == 0 ==> r is None,
            self.pending@.len() > 0 ==> match chain_end(self.jobs@, picked_at(texts(self.pending@), *offset as int), self.jobs@.dom().len()) {
                Some(k) => r matches Some(j) && j.same(self.jobs@[k]),
                None => r is None,
            },
    {
        if self.pending.len() == 0 {
            return None;
        }
        let at: usize = if *offset < self.pending.len() { *offset } else { self.pending.len() - 1 };
        let mut picked = self.pending[at].clone();
        let total = self.jobs.len();
        let mut fuel: usize = total;
        let ghost start = picked_at(texts(self.pending@), *offset as int);
        assert(picked@ == start);
        loop
            invariant
                fuel <= total,
                total == self.jobs@.dom().len(),
                self.pending@.len() > 0,
                start == picked_at(texts(self.pending@), *offset as int),
                chain_end(self.jobs@, start, total as nat) == chain_end(self.jobs@, picked@, fuel as nat),
            decreases fuel,
        {
            match self.jobs.get(&picked) {
                None => {
                    return None;
                },
                Some(job) => {
                    if !self.jobs.contains_key(&job.dependant) {
                        return Some(job.duplicate());
                    }
                    if fuel == 0 {
                        return None;
                    }
                    picked = job.dependant.clone();
                    fuel = fuel - 1;
                },
            }
        }
    }

    fn list_pull_jobs(&self) -> (r: Vec<String>)
        ensures
            texts(r@) == texts(self.pending@),
    {
        let r = copy_strings(&self.pending);
        proof {
            assert(texts(r@) =~= texts(self.pending@));
        }
        r
    }

    fn list_faulty_pull_jobs(&self) -> (r: Vec<String>)
        ensures
            texts(r@) == texts(self.faulty@),
    {
        let r = copy_strings(&self.faulty);
        proof {
            assert(texts(r@) =~= texts(self.faulty@));
        }
        r
    }
}

/// What the store keeps of a pull job after an event and the action it led
/// to: a finished job is dropped; a job that stops (a failed fetch) is
/// stored as it now is, which moves a failed job to the faulty list; a job
/// just taken up, or whose batch was just pinned, is stored before the next
/// fetch; in the middle of a batch the store is left alone.
pub fn settle_pull_job(store: &mut MemoryPullJobStore, job: &PullJob, ev: &PullEvent, action: &PullAction)
    ensures
        action is Finish ==> final(store).jobs@ == old(store).jobs@.remove(job.id@)
            && texts(final(store).pending@) == without(texts(old(store).pending@), job.id@)
            && final(store).faulty@ == old(store).faulty@,
        (action is Stop || (action is Fetch && (ev is Start || ev is Pinned))) ==> {
            &&& final(store).jobs@.dom() == old(store).jobs@.dom().insert(job.id@)
            &&& final(store).jobs@[job.id@].same(*job)
            &&& forall|k: Seq<char>| k != job.id@ ==> #[trigger] final(store).jobs@[k] == old(store).jobs@[k]
            &&& is_faulty_status(job.status@) ==> texts(final(store).faulty@) == texts(old(store).faulty@).push(job.id@)
                && texts(final(store).pending@) == without(texts(old(store).pending@), job.id@)
            &&& !is_faulty_status(job.status@) ==> final(store).faulty@ == old(store).faulty@
                && final(store).pending@ == old(store).pending@
        },
        (action is Pin || (action is Fetch && ev is Fetched)) ==> *final(store) == *old(store),
        final(store).descriptors@ == old(store).descriptors@,
{
    match action {
        PullAction::Finish => {
            store.pop_pull_job(job.id.clone());
        },
        PullAction::Stop => {
            store.update_pull_job(job);
        },
        PullAction::Fetch(_) => {
            match ev {
                PullEvent::Fetched(..) => {},
                _ => {
                    store.update_pull_job(job);
                },
            }
        },
        PullAction::Pin => {},
    }
}

/// The saved state of this node's own timewarp chain.
pub struct MemoryIssuingStore {
    pub state: Option<TimewarpIssuingState>,
}

impl MemoryIssuingStore {
    pub fn new() -> (r: MemoryIssuingStore)
        ensures
            r.state is None,
    {
        MemoryIssuingStore { state: None }
    }
}

impl TimewarpIssueingPersistence for MemoryIssuingStore {
    fn save_timewarp_state(&mut self, state: TimewarpIssuingState)
        ensures
            final(self).state == Some(state),
    {
        self.state = Some(state);
    }

    fn get_timewarp_state(&self) -> (r: Option<TimewarpIssuingState>)
        ensures
            match (r, self.state) {
                (Some(a), Some(b)) => a.same(b),
                (None, None) => true,
                _ => false,
            },
    {
        match &self.state {
            Some(s) => Some(s.duplicate()),
            None => None,
        }
    }
}

/// A descriptor stored last under its identifier is what is read back under it.
pub proof fn lemma_descriptor_reads_back(s: Seq<(Vec<u8>, PinDescriptor)>, e: (Vec<u8>, PinDescriptor))
    ensures
        last_stored(s.push(e), e.0@, s.len() + 1int) == s.len(),
        s.push(e)[s.len() as int] == e,
{
}

proof fn lemma_push_contains(w: Seq<Seq<char>>, e: Seq<char>, y: Seq<char>)
    ensures
        w.push(e).contains(y) <==> (w.contains(y) || e == y),
{
    if w.push(e).contains(y) {
        let i = choose|i: int| 0 <= i < w.push(e).len() && w.push(e)[i] == y;
        if i < w.len() {
            assert(w[i] == y);
        }
    }
    if w.contains(y) {
        let i = choose|i: int| 0 <= i < w.len() && w[i] == y;
        assert(w.push(e)[i] == y);
    }
    if e == y {
        assert(w.push(e)[w.len() as int] == y);
    }
}

/// Leaving out every occurrence of `x` leaves no `x` and keeps every other entry.
pub proof fn lemma_without_drops(s: Seq<Seq<char>>, x: Seq<char>)
    ensures
        !without(s, x).contains(x),
        forall|y: Seq<char>| y != x ==> (s.contains(y) <==> #[trigger] without(s, x).contains(y)),
    decreases s.len(),
{
    if s.len() > 0 {
        lemma_without_drops(s.drop_last(), x);
        let w = without(s.drop_last(), x);
        assert(s.drop_last().push(s.last()) =~= s);
        lemma_push_contains(w, s.last(), x);
        assert forall|y: Seq<char>| y != x implies (s.contains(y) <==> #[trigger] without(s, x).contains(y)) by {
            lemma_push_contains(s.drop_last(), s.last(), y);
            lemma_push_contains(w, s.last(), y);
        }
    }
}

/// The job that the dependant chain ends at is held, and its own dependant is not.
pub proof fn lemma_chain_end_is_free(m: Map<Seq<char>, PullJob>, id: Seq<char>, fuel: nat)
    ensures
        chain_end(m, id, fuel) matches Some(k) ==> m.dom().contains(k) && !m.dom().contains(m[k].dependant@),
    decreases fuel,
{
    if m.dom().contains(id) && m.dom().contains(m[id].dependant@) && fuel > 0 {
        lemma_chain_end_is_free(m, m[id].dependant@, (fuel - 1) as nat);
    }
}

} // verus!
