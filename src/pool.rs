use vstd::prelude::*;

verus! {

/// Where the crawl stands: addresses still being added, workers draining the
/// queue, or every added address processed.
#[derive(Clone, Copy, Debug, PartialEq, Eq, Structural)]
pub enum Phase {
    Filling,
    Draining,
    Drained,
}

/// What a worker is handed when it asks for work.
#[derive(Debug)]
pub enum Job {
    /// Fetch and trawl this address, then report the ticket as finished.
    Fetch { ticket: usize, address: String },
    /// The address is not a well-formed URI: it was counted as processed.
    Skipped { address: String },
    /// Nothing pending yet, but more may come: wait and ask again.
    Wait,
    /// The queue is closed and empty: the worker may stop.
    Done,
}

/// Number of `false` entries.
pub open spec fn unfinished(s: Seq<bool>) -> nat
    decreases s.len(),
{
    if s.len() == 0 {
        0
    } else {
        unfinished(s.drop_last()) + if s.last() {
            0nat
        } else {
            1nat
        }
    }
}

/// Whether hyper accepts the text as a URI.
pub uninterp spec fn uri_accepted(s: Seq<char>) -> bool;

/// Relies on `hyper::Uri`'s `FromStr` (http's `Uri::try_from` on the bytes):
/// whether the text parses as a URI, which depends on the text alone; the
/// empty text is refused.
#[verifier::external_body]
fn parses_as_uri(s: &str) -> (r: bool)
    ensures
        r == uri_accepted(s@),
        s@.len() == 0 ==> !r,
{
    <hyper::Uri as std::str::FromStr>::from_str(s).is_ok()
}

/// The abstract state of a work queue.
pub struct QueueState {
    /// Every address added, in order.
    pub addresses: Seq<Seq<char>>,
    /// Which of them have been processed.
    pub finished: Seq<bool>,
    /// How many have been handed out; the rest are pending, in order.
    pub taken: nat,
    /// The completion counter: added but not yet processed.
    pub remaining: nat,
    /// No more addresses will be added.
    pub closed: bool,
}

impl QueueState {
    pub open spec fn wf(self) -> bool {
        &&& self.finished.len() == self.addresses.len()
        &&& self.taken <= self.addresses.len()
        &&& forall|i: int| self.taken <= i < self.finished.len() ==> !#[trigger] self.finished[i]
        &&& self.remaining == unfinished(self.finished)
    }

    pub open spec fn drained(self) -> bool {
        self.closed && self.remaining == 0
    }

    pub open spec fn phase(self) -> Phase {
        if !self.closed {
            Phase::Filling
        } else if self.remaining == 0 {
            Phase::Drained
        } else {
            Phase::Draining
        }
    }

    /// Every added address was handed out and processed.
    pub open spec fn all_processed(self) -> bool {
        &&& self.taken == self.addresses.len()
        &&& forall|i: int| 0 <= i < self.finished.len() ==> #[trigger] self.finished[i]
    }
}

/// The queue of target addresses shared by the workers, with the completion
/// counter that tells the orchestrator when all of them have been processed.
pub struct WorkQueue {
    items: Vec<String>,
    finished: Vec<bool>,
    head: usize,
    remaining: usize,
    closed: bool,
}

proof fn lemma_unfinished_bound(s: Seq<bool>)
    ensures
        unfinished(s) <= s.len(),
    decreases s.len(),
{
    if s.len() > 0 {
        lemma_unfinished_bound(s.drop_last());
    }
}

proof fn lemma_unfinished_push(s: Seq<bool>)
    ensures
        unfinished(s.push(false)) == unfinished(s) + 1,
{
    assert(s.push(false).drop_last() =~= s);
}

proof fn lemma_unfinished_mark(s: Seq<bool>, i: int)
    requires
        0 <= i < s.len(),
        !s[i],
    ensures
        unfinished(s.update(i, true)) + 1 == unfinished(s),
    decreases s.len(),
{
    let t = s.update(i, true);
    if i == s.len() - 1 {
        assert(t.drop_last() =~= s.drop_last());
    } else {
        assert(t.drop_last() =~= s.drop_last().update(i, true));
        lemma_unfinished_mark(s.drop_last(), i);
    }
}

proof fn lemma_unfinished_zero(s: Seq<bool>)
    ensures
        unfinished(s) == 0 <==> forall|i: int| 0 <= i < s.len() ==> #[trigger] s[i],
    decreases s.len(),
{
    if s.len() > 0 {
        let d = s.drop_last();
        lemma_unfinished_zero(d);
        if unfinished(s) == 0 {
            assert forall|i: int| 0 <= i < s.len() implies #[trigger] s[i] by {
                if i < s.len() - 1 {
                    assert(s[i] == d[i]);
                }
            }
        }
        if forall|i: int| 0 <= i < s.len() ==> #[trigger] s[i] {
            assert forall|i: int| 0 <= i < d.len() implies #[trigger] d[i] by {
                assert(s[i] == d[i]);
            }
            assert(s[s.len() - 1]);
        }
    }
}

/// The orchestrator's wait ends exactly when the work is done: a well-formed
/// queue is drained if and only if it is closed and every address added to
/// it was handed out and processed, whatever the number of workers.
pub proof fn law_drained_iff_all_processed(st: QueueState)
    requires
        st.wf(),
    ensures
        st.drained() <==> st.closed && st.all_processed(),
{
    lemma_unfinished_zero(st.finished);
    if st.remaining == 0 && st.taken < st.addresses.len() {
        assert(!st.finished[st.taken as int]);
    }
}

/// The counter cannot stall above zero: while a closed, well-formed queue is
/// not drained, some address is still pending or held by a worker that has
/// not reported it, so one more step of some worker lowers the counter.
pub proof fn law_undrained_has_work(st: QueueState)
    requires
        st.wf(),
        st.closed,
        !st.drained(),
    ensures
        st.taken < st.addresses.len() || exists|i: int|
            0 <= i < st.taken && !#[trigger] st.finished[i],
{
    lemma_unfinished_zero(st.finished);
    let i = choose|i: int| 0 <= i < st.finished.len() && !#[trigger] st.finished[i];
    if i < st.taken {
        assert(!st.finished[i]);
    }
}

impl WorkQueue {
    pub closed spec fn state(&self) -> QueueState {
        QueueState {
            addresses: self.items@.map_values(|s: String| s@),
            finished: self.finished@,
            taken: self.head as nat,
            remaining: self.remaining as nat,
            closed: self.closed,
        }
    }

    pub open spec fn wf(&self) -> bool {
        self.state().wf()
    }

    /// An empty queue, open for addresses.
    pub fn new() -> (r: WorkQueue)
        ensures
            r.wf(),
            r.state().addresses.len() == 0,
            r.state().taken == 0,
            r.state().remaining == 0,
            !r.state().closed,
    {
        let r = WorkQueue {
            items: Vec::new(),
            finished: Vec::new(),
            head: 0,
            remaining: 0,
            closed: false,
        };
        assert(r.state().addresses =~= Seq::<Seq<char>>::empty());
        r
    }

    /// Adds an address at the end of the queue and counts it as outstanding
    /// in the same step. A closed queue takes nothing and returns `false`.
    pub fn push(&mut self, address: String) -> (r: bool)
        requires
            old(self).wf(),
            old(self).state().addresses.len() < usize::MAX,
        ensures
            final(self).wf(),
            r == !old(self).state().closed,
            r ==> final(self).state() == (QueueState {
                addresses: old(self).state().addresses.push(address@),
                finished: old(self).state().finished.push(false),
                remaining: old(self).state().remaining + 1,
                ..old(self).state()
            }),
            !r ==> final(self).state() == old(self).state(),
    {
        if self.closed {
            return false;
        }
        proof {
            lemma_unfinished_bound(self.finished@);
            lemma_unfinished_push(self.finished@);
        }
        let ghost before = self.state();
        self.items.push(address);
        self.finished.push(false);
        self.remaining = self.remaining + 1;
        assert(self.state().addresses =~= before.addresses.push(address@));
        assert(forall|i: int|
            self.head <= i < self.finished@.len() ==> !#[trigger] self.finished@[i]);
        true
    }

    /// Marks the end of filling: no address will be added any more.
    pub fn close(&mut self)
        requires
            old(self).wf(),
        ensures
            final(self).wf(),
            final(self).state() == (QueueState { closed: true, ..old(self).state() }),
    {
        self.closed = true;
    }

    /// Hands out the oldest pending address with its ticket, if there is one.
    pub fn take(&mut self) -> (r: Option<(usize, String)>)
        requires
            old(self).wf(),
        ensures
            final(self).wf(),
            old(self).state().taken < old(self).state().addresses.len() ==> r.is_some()
                && final(self).state() == (QueueState {
                taken: old(self).state().taken + 1,
                ..old(self).state()
            }),
            old(self).state().taken == old(self).state().addresses.len() ==> r.is_none()
                && final(self).state() == old(self).state(),
            match r {
                Some((t, a)) => t == old(self).state().taken && a@
                    == old(self).state().addresses[t as int],
                None => true,
            },
    {
        if self.head < self.items.len() {
            let t = self.head;
            let a = self.items[t].clone();
            self.head = self.head + 1;
            Some((t, a))
        } else {
            None
        }
    }

    /// Reports the address of `ticket` as processed, whether its fetch
    /// succeeded, failed or was never attempted: the completion counter goes
    /// down by one. A ticket that was not handed out, or was already
    /// reported, changes nothing and gives `false`.
    pub fn finish(&mut self, ticket: usize) -> (r: bool)
        requires
            old(self).wf(),
        ensures
            final(self).wf(),
            r == (ticket < old(self).state().taken && !old(self).state().finished[ticket as int]),
            r ==> final(self).state() == (QueueState {
                finished: old(self).state().finished.update(ticket as int, true),
                remaining: (old(self).state().remaining - 1) as nat,
                ..old(self).state()
            }),
            !r ==> final(self).state() == old(self).state(),
    {
        if ticket >= self.head || self.finished[ticket] {
            return false;
        }
        proof {
            lemma_unfinished_mark(self.finished@, ticket as int);
        }
        self.finished.set(ticket, true);
        self.remaining = self.remaining - 1;
        true
    }

    /// Decides what becomes of a handed-out address once it is known whether
    /// it parses as a URI: a well-formed one is to be fetched, any other is
    /// counted as processed at once and reported as skipped.
    pub fn dispatch(&mut self, ticket: usize, address: String, parsed: bool) -> (r: Job)
        requires
            old(self).wf(),
            ticket < old(self).state().taken,
            !old(self).state().finished[ticket as int],
        ensures
            final(self).wf(),
            parsed ==> final(self).state() == old(self).state() && match r {
                Job::Fetch { ticket: t, address: a } => t == ticket && a == address,
                _ => false,
            },
            !parsed ==> final(self).state() == (QueueState {
                finished: old(self).state().finished.update(ticket as int, true),
                remaining: (old(self).state().remaining - 1) as nat,
                ..old(self).state()
            }) && match r {
                Job::Skipped { address: a } => a == address,
                _ => false,
            },
    {
        if parsed {
            Job::Fetch { ticket, address }
        } else {
            self.finish(ticket);
            Job::Skipped { address }
        }
    }

    /// What a worker does next: the oldest pending address, to fetch or
    /// already skipped; or wait while the queue is open and empty; or stop
    /// once it is closed and empty.
    pub fn next_job(&mut self) -> (r: Job)
        requires
            old(self).wf(),
        ensures
            final(self).wf(),
            ({
                let st = old(self).state();
                let t = st.taken as int;
                if t < st.addresses.len() {
                    let a = st.addresses[t];
                    if uri_accepted(a) {
                        final(self).state() == (QueueState { taken: st.taken + 1, ..st })
                            && match r {
                            Job::Fetch { ticket, address } => ticket == t && address@ == a,
                            _ => false,
                        }
                    } else {
                        final(self).state() == (QueueState {
                            taken: st.taken + 1,
                            finished: st.finished.update(t, true),
                            remaining: (st.remaining - 1) as nat,
                            ..st
                        }) && match r {
                            Job::Skipped { address } => address@ == a,
                            _ => false,
                        }
                    }
                } else if st.closed {
                    final(self).state() == st && r is Done
                } else {
                    final(self).state() == st && r is Wait
                }
            }),
    {
        match self.take() {
            Some((ticket, address)) => {
                let parsed = parses_as_uri(address.as_str());
                self.dispatch(ticket, address, parsed)
            },
            None => {
                if self.closed {
                    Job::Done
                } else {
                    Job::Wait
                }
            },
        }
    }

    /// Whether every address added has been processed and no more will come.
    pub fn is_drained(&self) -> (r: bool)
        requires
            self.wf(),
        ensures
            r == self.state().drained(),
    {
        self.closed && self.remaining == 0
    }

    pub fn phase(&self) -> (r: Phase)
        requires
            self.wf(),
        ensures
            r == self.state().phase(),
    {
        if !self.closed {
            Phase::Filling
        } else if self.remaining == 0 {
            Phase::Drained
        } else {
            Phase::Draining
        }
    }

    /// Number of addresses added.
    pub fn submitted(&self) -> (r: usize)
        requires
            self.wf(),
        ensures
            r == self.state().addresses.len(),
    {
        self.items.len()
    }

    /// The completion counter: addresses added but not yet processed.
    pub fn remaining(&self) -> (r: usize)
        requires
            self.wf(),
        ensures
            r == self.state().remaining,
    {
        self.remaining
    }
}

} // verus!
