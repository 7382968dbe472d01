//! The decisions of the polling daemon. Every minute it asks the vendor for
//! the rate of each pair that it follows, stores what it gets, and once an
//! hour prunes the history. The waiting is the caller's: it makes the call
//! to the vendor and sleeps, and is told here what to do next.

use vstd::prelude::*;
use crate::compaction::{compact, compacted};
use crate::error::{Error, ErrorKindView};
use crate::exchange_rate::{observed, ExchangeRate, ExchangeRateResult, Observation};
use crate::oracle_store::Entries;
use crate::ranking::{spec_tracked_pairs, tracked_pairs};
use crate::types::{saved, ExchangePriceBatch, OracleBackend};

verus! {

/// How often a failed query of one pair is made again within one tick.
pub const MAX_RETRIES: u32 = 3;

/// The minutes of history that a compaction keeps, which is also how long
/// the daemon waits from one compaction to the next.
pub const COMPACT_INTERVAL_MINUTES: u32 = 60;

/// [`COMPACT_INTERVAL_MINUTES`] in seconds.
pub const COMPACT_INTERVAL_SECONDS: i64 = 3600;

/// The seconds from one tick to the next.
pub const TICK_SECONDS: u64 = 60;

// ---------------------------------------------------------------------------
// One query, with its retries
// ---------------------------------------------------------------------------

/// What the caller does next for one pair.
#[derive(Debug)]
pub enum FetchStep {
    /// Ask the vendor for the rate of the pair, and report what came back.
    Call,
    /// Store this observation; the pair is done for this tick.
    Save(ExchangeRateResult),
    /// Give the pair up for this tick; nothing is stored for it.
    Abandon,
}

/// What a [`FetchStep`] holds, as mathematical values.
pub enum FetchStepView {
    Call,
    Save(Observation),
    Abandon,
}

impl View for FetchStep {
    type V = FetchStepView;

    open spec fn view(&self) -> FetchStepView {
        match self {
            FetchStep::Call => FetchStepView::Call,
            FetchStep::Save(o) => FetchStepView::Save(o@),
            FetchStep::Abandon => FetchStepView::Abandon,
        }
    }
}

/// The query of one pair within one tick: which pair, how many calls have
/// failed, and whether the query is over.
#[derive(Debug)]
pub struct FetchTask {
    from: String,
    to: String,
    retries: u32,
    finished: bool,
}

/// The step that follows an outcome, for a query that is not over and has
/// seen `retries` failures: an answer is stored, a failure is followed by
/// another call until the retries are used up.
pub open spec fn step_after(retries: nat, outcome: Option<Observation>) -> FetchStepView {
    match outcome {
        Some(o) => FetchStepView::Save(o),
        None => if retries >= MAX_RETRIES {
            FetchStepView::Abandon
        } else {
            FetchStepView::Call
        },
    }
}

/// The outcome of a call, as what would be stored.
pub open spec fn outcome_view(outcome: Option<ExchangeRate>) -> Option<Observation> {
    match outcome {
        Some(rate) => Some(observed(rate)),
        None => None,
    }
}

impl FetchTask {
    /// The source currency of the pair.
    pub closed spec fn spec_from(&self) -> Seq<char> {
        self.from@
    }

    /// The destination currency of the pair.
    pub closed spec fn spec_to(&self) -> Seq<char> {
        self.to@
    }

    /// How many calls have failed.
    pub closed spec fn retries(&self) -> nat {
        self.retries as nat
    }

    /// Whether the query is over.
    pub closed spec fn finished(&self) -> bool {
        self.finished
    }

    /// A query that has not begun: its first step is a call to the vendor.
    pub fn new(from: &str, to: &str) -> (task: FetchTask)
        ensures
            task.spec_from() == from@,
            task.spec_to() == to@,
            task.retries() == 0,
            !task.finished(),
    {
        FetchTask { from: from.to_owned(), to: to.to_owned(), retries: 0, finished: false }
    }

    /// The source currency of the pair.
    pub fn from(&self) -> (from: &str)
        ensures
            from@ == self.spec_from(),
    {
        self.from.as_str()
    }

    /// The destination currency of the pair.
    pub fn to(&self) -> (to: &str)
        ensures
            to@ == self.spec_to(),
    {
        self.to.as_str()
    }

    /// Takes the outcome of a call to the vendor, an answer or a failure,
    /// and says what to do next. A query that is over stays over and has
    /// nothing stored.
    pub fn on_result(&mut self, outcome: Option<ExchangeRate>) -> (step: FetchStep)
        ensures
            final(self).spec_from() == old(self).spec_from(),
            final(self).spec_to() == old(self).spec_to(),
            old(self).finished() ==> step@ == FetchStepView::Abandon && final(self).finished()
                && final(self).retries() == old(self).retries(),
            !old(self).finished() ==> step@ == step_after(
                old(self).retries(),
                outcome_view(outcome),
            ) && final(self).finished() == (step@ != FetchStepView::Call) && final(self).retries()
                == old(self).retries() + (if step@ == FetchStepView::Call {
                1nat
            } else {
                0nat
            }),
    {
        if self.finished {
            return FetchStep::Abandon;
        }
        match outcome {
            Some(rate) => {
                self.finished = true;
                FetchStep::Save(ExchangeRateResult::from_rate(&rate))
            },
            None => {
                if self.retries >= MAX_RETRIES {
                    self.finished = true;
                    FetchStep::Abandon
                } else {
                    self.retries = self.retries + 1;
                    FetchStep::Call
                }
            },
        }
    }
}

/// How a query runs that has seen `retries` failures and whose calls come
/// back with `outcomes` in turn: the number of calls that are made, and the
/// observation that is stored, if any. The run ends with the first answer,
/// with the failure after which the retries are used up, or where the
/// outcomes run out.
pub open spec fn run(retries: nat, outcomes: Seq<Option<Observation>>) -> (nat, Option<Observation>)
    decreases outcomes.len(),
{
    if outcomes.len() == 0 {
        (0, None)
    } else {
        match step_after(retries, outcomes[0]) {
            FetchStepView::Save(o) => (1, Some(o)),
            FetchStepView::Abandon => (1, None),
            FetchStepView::Call => {
                let then = run(retries + 1, outcomes.skip(1));
                (1 + then.0, then.1)
            },
        }
    }
}

/// From any state, a query that has seen `retries` failures
/// makes at most as many further calls as it has retries left, and one.
pub proof fn lemma_retry_bound_from(retries: nat, outcomes: Seq<Option<Observation>>)
    requires
        retries <= MAX_RETRIES,
    ensures
        run(retries, outcomes).0 <= MAX_RETRIES - retries + 1,
        run(retries, outcomes).0 <= outcomes.len(),
        (forall|i: int| 0 <= i < outcomes.len() ==> outcomes[i] is None) ==> run(
            retries,
            outcomes,
        ).1 is None,
    decreases outcomes.len(),
{
    if outcomes.len() > 0 && retries < MAX_RETRIES {
        lemma_retry_bound_from(retries + 1, outcomes.skip(1));
        if forall|i: int| 0 <= i < outcomes.len() ==> outcomes[i] is None {
            assert forall|i: int| 0 <= i < outcomes.skip(1).len() implies outcomes.skip(
                1,
            )[i] is None by {
                assert(outcomes.skip(1)[i] == outcomes[i + 1]);
            }
        }
    }
}

/// The vendor is called at most four times for one pair in one
/// tick, the first call and three retries, and where every call fails
/// nothing is stored for the pair.
pub proof fn lemma_retry_bound(outcomes: Seq<Option<Observation>>)
    ensures
        run(0, outcomes).0 <= 4,
        (forall|i: int| 0 <= i < outcomes.len() ==> outcomes[i] is None) ==> run(0, outcomes).1
            is None,
{
    lemma_retry_bound_from(0, outcomes);
}

// ---------------------------------------------------------------------------
// The tick
// ---------------------------------------------------------------------------

/// The recording of `o` for the instant `date` took a store from the
/// entries `before` to the entries `after` and gave `r`: while another
/// batch is open it fails and the store stays as it is; else the
/// observation is saved. The store is as free for a batch afterwards as it
/// was before.
pub open spec fn recorded(
    before: Entries,
    was_open: bool,
    after: Entries,
    is_open: bool,
    date: i64,
    o: Observation,
    failed: Option<Error>,
) -> bool {
    &&& is_open == was_open
    &&& was_open ==> failed is Some && failed->0@ == ErrorKindView::Backend(
        "a batch is already open"@,
    ) && after == before
    &&& !was_open ==> failed is None && after == saved(before, date, o)
}

/// Stores one observation in a batch of its own.
pub fn record<B: OracleBackend>(oracle: &mut B, observation: &ExchangeRateResult) -> (r: Result<
    (),
    Error,
>)
    ensures
        recorded(
            old(oracle).entries(),
            old(oracle).batch_open(),
            final(oracle).entries(),
            final(oracle).batch_open(),
            observation.date,
            observation@,
            r.err(),
        ),
{
    let mut batch = oracle.batch()?;
    let _ = batch.save(observation.date, observation.clone());
    proof {
        oracle.lemma_batch_sees_store();
    }
    let _ = batch.commit(oracle);
    proof {
        oracle.lemma_batch_sees_store();
    }
    Ok(())
}

/// What the daemon remembers from one tick to the next.
#[derive(Debug)]
pub struct Daemon {
    last_compact_time: i64,
}

/// The seconds from the instant `now` to the next full minute: sixty at a
/// full minute, one in its last second.
pub open spec fn spec_seconds_to_next_tick(now: i64) -> int {
    TICK_SECONDS - now % 60
}

impl Daemon {
    /// The instant of the last compaction.
    pub closed spec fn last_compact_time(&self) -> i64 {
        self.last_compact_time
    }

    /// Whether a compaction is due at the instant `now`: more than the
    /// interval has passed since the last one.
    pub open spec fn spec_compaction_due(&self, now: i64) -> bool {
        now - self.last_compact_time() > COMPACT_INTERVAL_SECONDS
    }

    /// A daemon that starts at the instant `now`, as if its last compaction
    /// had been one interval before.
    pub fn new(now: i64) -> (daemon: Daemon)
        ensures
            daemon.last_compact_time() == if now - COMPACT_INTERVAL_SECONDS < i64::MIN {
                i64::MIN as int
            } else {
                now - COMPACT_INTERVAL_SECONDS
            },
    {
        let last = if now < i64::MIN + COMPACT_INTERVAL_SECONDS {
            i64::MIN
        } else {
            now - COMPACT_INTERVAL_SECONDS
        };
        Daemon { last_compact_time: last }
    }

    /// The queries that one tick begins with: one for each pair that the
    /// oracle follows. They do not depend on one another and may run side
    /// by side.
    pub fn start_tick(&self) -> (tasks: Vec<FetchTask>)
        ensures
            tasks@.len() == spec_tracked_pairs().len(),
            forall|i: int|
                0 <= i < tasks@.len() ==> {
                    &&& (#[trigger] tasks@[i]).spec_from() == spec_tracked_pairs()[i].0
                    &&& tasks@[i].spec_to() == spec_tracked_pairs()[i].1
                    &&& tasks@[i].retries() == 0
                    &&& !tasks@[i].finished()
                },
    {
        let pairs = tracked_pairs();
        let mut tasks: Vec<FetchTask> = Vec::new();
        let mut i: usize = 0;
        while i < pairs.len()
            invariant
                i <= pairs@.len(),
                pairs.deep_view() == spec_tracked_pairs(),
                tasks@.len() == i,
                forall|j: int|
                    0 <= j < i ==> (#[trigger] tasks@[j]).spec_from() == spec_tracked_pairs()[j].0
                        && tasks@[j].spec_to() == spec_tracked_pairs()[j].1 && tasks@[j].retries()
                        == 0 && !tasks@[j].finished(),
            decreases pairs@.len() - i,
        {
            assert(pairs.deep_view()[i as int] == pairs@[i as int].deep_view());
            tasks.push(FetchTask::new(pairs[i].0.as_str(), pairs[i].1.as_str()));
            i = i + 1;
        }
        tasks
    }

    /// Whether a compaction is due at the instant `now`.
    pub fn compaction_due(&self, now: i64) -> (due: bool)
        ensures
            due == self.spec_compaction_due(now),
    {
        (now as i128) - (self.last_compact_time as i128) > COMPACT_INTERVAL_SECONDS as i128
    }

    /// The end of a tick, when every query of it is over: where a
    /// compaction is due at the instant `now` it is made, and the count of
    /// what it deleted handed back; else nothing happens. A compaction that
    /// fails counts as made.
    pub fn after_fetches<B: OracleBackend>(&mut self, oracle: &mut B, now: i64) -> (r: Result<
        Option<usize>,
        Error,
    >)
        ensures
            !old(self).spec_compaction_due(now) ==> r == Ok::<Option<usize>, Error>(None)
                && final(self).last_compact_time() == old(self).last_compact_time()
                && final(oracle).entries() == old(oracle).entries()
                && final(oracle).batch_open() == old(oracle).batch_open(),
            old(self).spec_compaction_due(now) ==> final(self).last_compact_time() == now
                && compacted(
                old(oracle).entries(),
                old(oracle).batch_open(),
                final(oracle).entries(),
                final(oracle).batch_open(),
                now,
                COMPACT_INTERVAL_MINUTES,
                match r {
                    Ok(count) => Ok(count.unwrap_or(0)),
                    Err(e) => Err(e),
                },
            ) && (r is Ok ==> r->Ok_0 is Some),
    {
        if !self.compaction_due(now) {
            return Ok(None);
        }
        self.last_compact_time = now;
        let total_cleaned = compact(oracle, now, COMPACT_INTERVAL_MINUTES)?;
        Ok(Some(total_cleaned))
    }

    /// The seconds to sleep at the instant `now` so as to wake at the next
    /// full minute.
    pub fn seconds_to_next_tick(now: i64) -> (seconds: u64)
        ensures
            seconds == spec_seconds_to_next_tick(now),
            1 <= seconds <= TICK_SECONDS,
    {
        let within: i64 = now % 60;
        let second: i64 = if within < 0 {
            within + 60
        } else {
            within
        };
        TICK_SECONDS - second as u64
    }
}

} // verus!
