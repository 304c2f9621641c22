use vstd::prelude::*;

use crate::sitemap::views_of;

verus! {

// ---------------------------------------------------------------------------
// The submission pipeline's scheduling state.
//
// A host drives the pipeline by repeatedly asking `start_next` for work
// (admitting a URL into a free concurrency slot) and handing each
// finished submission back through `complete`.  The state tracks, per
// URL index, whether its submission has been admitted and what outcome
// it produced; the well-formedness invariant bounds the number of
// submissions in flight by the configured concurrency and guarantees
// that every URL is admitted exactly once and reported exactly once.
// ---------------------------------------------------------------------------

/// The result of one submission: the HTTP status the archive endpoint
/// answered with, or the description of a transport failure.  A failure
/// is terminal for its own URL only.
#[derive(Debug)]
pub enum SubmissionResult {
    Status(u16),
    TransportError(String),
}

/// One per-URL outcome: the submitted URL paired with its result.
#[derive(Debug)]
pub struct SubmissionReport {
    pub url: String,
    pub result: SubmissionResult,
}

/// A value equal to the given submission result.
fn duplicate_result(r: &SubmissionResult) -> (d: SubmissionResult)
    ensures
        d == *r,
{
    match r {
        SubmissionResult::Status(code) => SubmissionResult::Status(*code),
        SubmissionResult::TransportError(e) => SubmissionResult::TransportError(e.clone()),
    }
}

/// How many slots of `s` hold a recorded outcome.
pub open spec fn completed_count(s: Seq<Option<SubmissionResult>>) -> int
    decreases s.len(),
{
    if s.len() == 0 {
        0
    } else {
        completed_count(s.drop_last()) + if s.last() is Some {
            1int
        } else {
            0int
        }
    }
}

proof fn lemma_completed_count_le(s: Seq<Option<SubmissionResult>>)
    ensures
        0 <= completed_count(s) <= s.len(),
    decreases s.len(),
{
    if s.len() > 0 {
        lemma_completed_count_le(s.drop_last());
    }
}

proof fn lemma_completed_count_full(s: Seq<Option<SubmissionResult>>)
    requires
        completed_count(s) == s.len(),
    ensures
        forall|i: int| 0 <= i < s.len() ==> s[i] is Some,
    decreases s.len(),
{
    if s.len() > 0 {
        lemma_completed_count_le(s.drop_last());
        lemma_completed_count_full(s.drop_last());
        assert(forall|i: int| 0 <= i < s.len() - 1 ==> s[i] == s.drop_last()[i]);
    }
}

proof fn lemma_completed_count_none_suffix(s: Seq<Option<SubmissionResult>>, bound: int)
    requires
        0 <= bound <= s.len(),
        forall|i: int| bound <= i < s.len() ==> s[i] is None,
    ensures
        completed_count(s) == completed_count(s.take(bound)),
    decreases s.len(),
{
    if s.len() == bound {
        assert(s.take(bound) =~= s);
    } else {
        assert(s.drop_last().take(bound) =~= s.take(bound));
        lemma_completed_count_none_suffix(s.drop_last(), bound);
    }
}

proof fn lemma_completed_count_lt(s: Seq<Option<SubmissionResult>>, idx: int)
    requires
        0 <= idx < s.len(),
        s[idx] is None,
    ensures
        completed_count(s) < s.len(),
    decreases s.len(),
{
    if idx == s.len() - 1 {
        lemma_completed_count_le(s.drop_last());
    } else {
        lemma_completed_count_lt(s.drop_last(), idx);
    }
}

proof fn lemma_completed_count_update(s: Seq<Option<SubmissionResult>>, idx: int, r: SubmissionResult)
    requires
        0 <= idx < s.len(),
        s[idx] is None,
    ensures
        completed_count(s.update(idx, Some(r))) == completed_count(s) + 1,
    decreases s.len(),
{
    let t = s.update(idx, Some(r));
    if idx == s.len() - 1 {
        assert(t.drop_last() =~= s.drop_last());
        assert(t.last() == Some(r));
    } else {
        assert(t.drop_last() =~= s.drop_last().update(idx, Some(r)));
        assert(t.last() == s.last());
        lemma_completed_count_update(s.drop_last(), idx, r);
    }
}

/// The scheduling state of one archiving run over a fixed URL list.
pub struct Pipeline {
    urls: Vec<String>,
    concurrency: usize,
    started: usize,
    completed: usize,
    outcomes: Vec<Option<SubmissionResult>>,
}

impl Pipeline {
    /// The URL list being driven, as character sequences.
    pub closed spec fn spec_urls(&self) -> Seq<Seq<char>> {
        views_of(self.urls@)
    }

    /// The concurrency bound this pipeline was created with.
    pub closed spec fn spec_concurrency(&self) -> int {
        self.concurrency as int
    }

    /// How many submissions have been admitted so far.  URLs are
    /// admitted in list order, so these are exactly the indices below
    /// this count.
    pub closed spec fn spec_started(&self) -> int {
        self.started as int
    }

    /// How many submissions have produced their outcome.
    pub closed spec fn spec_completed(&self) -> int {
        self.completed as int
    }

    /// How many submissions are in flight: admitted, outcome not yet
    /// recorded.
    pub open spec fn spec_in_flight(&self) -> int {
        self.spec_started() - self.spec_completed()
    }

    /// The recorded outcome of the submission for URL index `i`, if any.
    pub closed spec fn spec_outcome(&self, i: int) -> Option<SubmissionResult> {
        self.outcomes@[i]
    }

    /// Whether the submission for URL index `i` is in flight.
    pub open spec fn spec_pending(&self, i: int) -> bool {
        0 <= i < self.spec_started() && self.spec_outcome(i) is None
    }

    /// The system invariant: one outcome slot per URL, admissions never
    /// pass the end of the list, outcomes exist only for admitted
    /// indices, the completion count matches the recorded outcomes, and
    /// no more submissions are in flight than the concurrency bound.
    pub closed spec fn well_formed(&self) -> bool {
        &&& self.concurrency >= 1
        &&& self.outcomes@.len() == self.urls@.len()
        &&& self.started <= self.urls@.len()
        &&& self.completed <= self.started
        &&& self.started - self.completed <= self.concurrency
        &&& forall|i: int|
            self.started <= i < self.outcomes@.len() ==> self.outcomes@[i] is None
        &&& self.completed == completed_count(self.outcomes@)
    }

    /// Whether the run is over: every URL was admitted and every
    /// admitted submission has reported its outcome.
    pub open spec fn spec_done(&self) -> bool {
        self.spec_started() == self.spec_urls().len() && self.spec_in_flight() == 0
    }

    /// Creates the pipeline for one run: no submission admitted yet.
    pub fn new(urls: Vec<String>, concurrency: usize) -> (p: Pipeline)
        requires
            concurrency >= 1,
        ensures
            p.well_formed(),
            p.spec_urls() == views_of(urls@),
            p.spec_concurrency() == concurrency,
            p.spec_started() == 0,
            p.spec_completed() == 0,
    {
        let n = urls.len();
        let mut outcomes: Vec<Option<SubmissionResult>> = Vec::new();
        let mut k: usize = 0;
        while k < n
            invariant
                k <= n,
                outcomes@.len() == k,
                forall|i: int| 0 <= i < k ==> outcomes@[i] is None,
                completed_count(outcomes@) == 0,
            decreases n - k,
        {
            proof {
                assert(outcomes@.push(None).drop_last() =~= outcomes@);
            }
            outcomes.push(None);
            k = k + 1;
        }
        Pipeline { urls, concurrency, started: 0, completed: 0, outcomes }
    }

    /// How many URLs the run covers.
    pub fn url_count(&self) -> (n: usize)
        ensures
            n == self.spec_urls().len(),
    {
        self.urls.len()
    }

    /// Whether the run is over.
    pub fn is_done(&self) -> (b: bool)
        requires
            self.well_formed(),
        ensures
            b == self.spec_done(),
    {
        self.started == self.urls.len() && self.completed == self.started
    }

    /// Admits the next URL into a free slot: returns its index and text
    /// exactly when a URL remains and fewer submissions are in flight
    /// than the concurrency bound.  Each URL is admitted once, in list
    /// order; with no free slot or no URL left, nothing changes.
    pub fn start_next(&mut self) -> (r: Option<(usize, String)>)
        requires
            old(self).well_formed(),
        ensures
            final(self).well_formed(),
            final(self).spec_urls() == old(self).spec_urls(),
            final(self).spec_concurrency() == old(self).spec_concurrency(),
            match r {
                Some(started) => {
                    &&& old(self).spec_started() < old(self).spec_urls().len()
                    &&& old(self).spec_in_flight() < old(self).spec_concurrency()
                    &&& started.0 == old(self).spec_started()
                    &&& started.1@ == old(self).spec_urls()[started.0 as int]
                    &&& final(self).spec_started() == old(self).spec_started() + 1
                    &&& final(self).spec_completed() == old(self).spec_completed()
                    &&& forall|i: int|
                        0 <= i < final(self).spec_urls().len() ==> final(self).spec_outcome(i)
                            == old(self).spec_outcome(i)
                },
                None => {
                    &&& (old(self).spec_started() == old(self).spec_urls().len() || old(
                        self,
                    ).spec_in_flight() == old(self).spec_concurrency())
                    &&& *final(self) == *old(self)
                },
            },
    {
        if self.started < self.urls.len() && self.started - self.completed < self.concurrency {
            let idx = self.started;
            let url = self.urls[idx].clone();
            self.started = self.started + 1;
            Some((idx, url))
        } else {
            None
        }
    }

    /// Records the outcome of the in-flight submission for URL index
    /// `idx` and frees its slot.  A transport failure is recorded the
    /// same way as a status: it affects no other slot.  Returns the
    /// per-URL report pairing the outcome with its URL; `None`, with
    /// nothing changed, if `idx` has no submission in flight.
    pub fn complete(&mut self, idx: usize, result: SubmissionResult) -> (r: Option<
        SubmissionReport,
    >)
        requires
            old(self).well_formed(),
        ensures
            final(self).well_formed(),
            final(self).spec_urls() == old(self).spec_urls(),
            final(self).spec_concurrency() == old(self).spec_concurrency(),
            match r {
                Some(report) => {
                    &&& old(self).spec_pending(idx as int)
                    &&& report.url@ == old(self).spec_urls()[idx as int]
                    &&& report.result == result
                    &&& final(self).spec_outcome(idx as int) == Some(result)
                    &&& forall|i: int|
                        0 <= i < final(self).spec_urls().len() && i != idx
                            ==> final(self).spec_outcome(i) == old(self).spec_outcome(i)
                    &&& final(self).spec_started() == old(self).spec_started()
                    &&& final(self).spec_completed() == old(self).spec_completed() + 1
                },
                None => {
                    &&& !old(self).spec_pending(idx as int)
                    &&& *final(self) == *old(self)
                },
            },
    {
        if idx >= self.started {
            return None;
        }
        if self.outcomes[idx].is_some() {
            return None;
        }
        let report_result = duplicate_result(&result);
        let url = self.urls[idx].clone();
        proof {
            lemma_completed_count_none_suffix(self.outcomes@, self.started as int);
            lemma_completed_count_lt(self.outcomes@.take(self.started as int), idx as int);
            lemma_completed_count_le(self.outcomes@.take(self.started as int));
            lemma_completed_count_update(self.outcomes@, idx as int, result);
        }
        self.outcomes.set(idx, Some(result));
        self.completed = self.completed + 1;
        Some(SubmissionReport { url, result: report_result })
    }

    /// The collected outcomes of a finished run: one report per input
    /// URL, in list order, each pairing a URL with its recorded result.
    pub fn reports(&self) -> (r: Vec<SubmissionReport>)
        requires
            self.well_formed(),
            self.spec_done(),
        ensures
            r@.len() == self.spec_urls().len(),
            forall|i: int|
                0 <= i < r@.len() ==> r@[i].url@ == self.spec_urls()[i] && Some(
                    #[trigger] r@[i].result,
                ) == self.spec_outcome(i),
    {
        proof {
            lemma_completed_count_full(self.outcomes@);
        }
        let mut collected: Vec<SubmissionReport> = Vec::new();
        let n = self.urls.len();
        let mut idx: usize = 0;
        while idx < n
            invariant
                idx <= n,
                n == self.urls@.len(),
                self.outcomes@.len() == n,
                collected@.len() == idx,
                forall|i: int| 0 <= i < n ==> self.outcomes@[i] is Some,
                forall|i: int|
                    0 <= i < idx ==> collected@[i].url@ == self.spec_urls()[i] && Some(
                        #[trigger] collected@[i].result,
                    ) == self.spec_outcome(i),
            decreases n - idx,
        {
            let url = self.urls[idx].clone();
            let result = match &self.outcomes[idx] {
                Some(res) => duplicate_result(res),
                None => {
                    // a finished run holds an outcome in every slot
                    proof {
                        assert(false);
                    }
                    SubmissionResult::Status(0)
                },
            };
            collected.push(SubmissionReport { url, result });
            idx = idx + 1;
        }
        collected
    }
}

/// At no instant does a well-formed pipeline have more submissions in
/// flight than its concurrency bound, and never a negative number.
pub proof fn lemma_in_flight_bounded(p: &Pipeline)
    requires
        p.well_formed(),
    ensures
        0 <= p.spec_in_flight() <= p.spec_concurrency(),
{
}

/// A run that is not yet over can always make progress: either a
/// submission is in flight whose completion `complete` will accept, or
/// a slot is free and a URL remains, so `start_next` will admit it.
/// However many individual submissions fail, the run therefore reaches
/// its end.
pub proof fn lemma_progress(p: &Pipeline)
    requires
        p.well_formed(),
        !p.spec_done(),
    ensures
        p.spec_in_flight() > 0 || (p.spec_started() < p.spec_urls().len() && p.spec_in_flight()
            < p.spec_concurrency()),
{
}

/// When a run is over, every input URL — and no other index — has
/// exactly one recorded outcome: admissions and completions neither
/// skipped nor duplicated any URL.
pub proof fn lemma_done_all_reported(p: &Pipeline)
    requires
        p.well_formed(),
        p.spec_done(),
    ensures
        forall|i: int| 0 <= i < p.spec_urls().len() ==> p.spec_outcome(i) is Some,
{
    lemma_completed_count_full(p.outcomes@);
}

} // verus!
