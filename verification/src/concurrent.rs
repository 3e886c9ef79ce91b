use vstd::prelude::*;

use crate::pipeline::PipelineError;
use crate::validation::ValidationError;

verus! {

/// Settings of a batch encoder.
#[derive(Debug, Clone)]
pub struct PipelineConfig {
    pub workers: usize,
}

impl Default for PipelineConfig {
    fn default() -> (config: Self)
        ensures
            config.workers == 4,
    {
        Self { workers: 4 }
    }
}

/// A batch encoder that hands packets to a pool of workers.
#[derive(Debug)]
pub struct ConcurrentPipeline {
    config: PipelineConfig,
}

/// Workers for a batch of `total` jobs when `configured` are asked for: at least one, and no
/// more than there are jobs.
pub open spec fn batch_workers(configured: usize, total: usize) -> usize {
    let wanted = if configured == 0 { 1 } else { configured };
    if wanted < total { wanted } else { total }
}

impl ConcurrentPipeline {
    /// The settings the pipeline was made with.
    pub closed spec fn config(self) -> PipelineConfig {
        self.config
    }

    pub fn new(config: PipelineConfig) -> (pipeline: Self)
        ensures
            pipeline.config() == config,
    {
        Self { config }
    }

    /// How many workers a batch of `total` jobs gets: the configured number, at least one,
    /// and never more than there are jobs.
    pub fn worker_count(&self, total: usize) -> (n: usize)
        ensures
            n == batch_workers(self.config().workers, total),
    {
        let wanted = if self.config.workers == 0 {
            1
        } else {
            self.config.workers
        };
        if wanted < total {
            wanted
        } else {
            total
        }
    }

    /// The worker that the job handed out as number `job_number` goes to (round robin).
    pub fn worker_for_job(job_number: usize, worker_count: usize) -> (worker: usize)
        requires
            worker_count > 0,
        ensures
            worker == job_number % worker_count,
            worker < worker_count,
    {
        job_number % worker_count
    }
}

/// Number of filled slots in `slots`.
pub open spec fn filled_count(slots: Seq<Option<Result<String, PipelineError>>>) -> nat
    decreases slots.len(),
{
    if slots.len() == 0 {
        0
    } else {
        filled_count(slots.drop_last()) + if slots.last() is Some {
            1nat
        } else {
            0nat
        }
    }
}

/// The answer that stands at a position whose worker never reported.
pub open spec fn missing_result() -> Result<String, PipelineError> {
    Err(PipelineError::Validation(ValidationError::EmptyInput))
}

/// The batch answer read off `slots`: each reported result at its position, `missing_result`
/// where none came.
pub open spec fn collected_results(slots: Seq<Option<Result<String, PipelineError>>>) -> Seq<
    Result<String, PipelineError>,
> {
    slots.map_values(
        |slot: Option<Result<String, PipelineError>>|
            match slot {
                Some(r) => r,
                None => missing_result(),
            },
    )
}

proof fn lemma_filled_count_bounds(slots: Seq<Option<Result<String, PipelineError>>>)
    ensures
        filled_count(slots) <= slots.len(),
        filled_count(slots) == slots.len() <==> forall|i: int|
            0 <= i < slots.len() ==> #[trigger] slots[i] is Some,
    decreases slots.len(),
{
    if slots.len() > 0 {
        let front = slots.drop_last();
        lemma_filled_count_bounds(front);
        if filled_count(slots) == slots.len() {
            assert forall|i: int| 0 <= i < slots.len() implies #[trigger] slots[i] is Some by {
                if i < front.len() {
                    assert(front[i] == slots[i]);
                }
            }
        }
        if forall|i: int| 0 <= i < slots.len() ==> #[trigger] slots[i] is Some {
            assert forall|i: int| 0 <= i < front.len() implies #[trigger] front[i] is Some by {
                assert(front[i] == slots[i]);
            }
        }
    }
}

proof fn lemma_filled_count_fill(
    slots: Seq<Option<Result<String, PipelineError>>>,
    index: int,
    r: Result<String, PipelineError>,
)
    requires
        0 <= index < slots.len(),
        slots[index] is None,
    ensures
        filled_count(slots.update(index, Some(r))) == filled_count(slots) + 1,
    decreases slots.len(),
{
    let updated = slots.update(index, Some(r));
    if index == slots.len() - 1 {
        assert(updated.drop_last() =~= slots.drop_last());
    } else {
        lemma_filled_count_fill(slots.drop_last(), index, r);
        assert(updated.drop_last() =~= slots.drop_last().update(index, Some(r)));
    }
}

/// Puts the results that workers report, in any order, back at the positions of their jobs.
pub struct ResultCollector {
    slots: Vec<Option<Result<String, PipelineError>>>,
    received: usize,
}

impl ResultCollector {
    /// The count of received reports matches the filled slots.
    #[verifier::type_invariant]
    spec fn counts_filled_slots(self) -> bool {
        self.received == filled_count(self.slots@)
    }

    /// The result reported for each position so far.
    pub closed spec fn slots(self) -> Seq<Option<Result<String, PipelineError>>> {
        self.slots@
    }

    /// A collector for `total` jobs, none reported yet.
    pub fn new(total: usize) -> (collector: Self)
        ensures
            collector.slots().len() == total,
            forall|i: int| 0 <= i < total ==> #[trigger] collector.slots()[i] is None,
    {
        let mut slots: Vec<Option<Result<String, PipelineError>>> = Vec::new();
        for i in 0..total
            invariant
                slots@.len() == i,
                forall|j: int| 0 <= j < i ==> #[trigger] slots@[j] is None,
                filled_count(slots@) == 0,
        {
            let ghost before = slots@;
            slots.push(None);
            assert(slots@.drop_last() =~= before);
        }
        ResultCollector { slots, received: 0 }
    }

    /// Records the result of job `index`. The first report for a position stands; a later
    /// one is ignored. Returns whether the report was taken.
    pub fn record(&mut self, index: usize, result: Result<String, PipelineError>) -> (taken: bool)
        requires
            index < old(self).slots().len(),
        ensures
            taken == (old(self).slots()[index as int] is None),
            final(self).slots() == (if taken {
                old(self).slots().update(index as int, Some(result))
            } else {
                old(self).slots()
            }),
    {
        proof {
            use_type_invariant(&*self);
        }
        if self.slots[index].is_none() {
            let mut current = ResultCollector { slots: Vec::new(), received: 0 };
            std::mem::swap(self, &mut current);
            let ResultCollector { slots: mut slots, received } = current;
            let slot_count = slots.len();
            proof {
                lemma_filled_count_fill(slots@, index as int, result);
                lemma_filled_count_bounds(slots@.update(index as int, Some(result)));
                assert(received < slot_count);
            }
            slots.set(index, Some(result));
            *self = ResultCollector { slots, received: received + 1 };
            true
        } else {
            false
        }
    }

    /// Whether every position has a result.
    pub fn is_complete(&self) -> (complete: bool)
        ensures
            complete == forall|i: int| 0 <= i < self.slots().len() ==> #[trigger] self.slots()[i] is Some,
    {
        proof {
            use_type_invariant(self);
            lemma_filled_count_bounds(self.slots@);
        }
        self.received >= self.slots.len()
    }

    /// The results in job order; a position with no report gets `missing_result()`.
    pub fn finish(self) -> (results: Vec<Result<String, PipelineError>>)
        ensures
            results@ == collected_results(self.slots()),
    {
        let ghost slots = self.slots@;
        let mut results: Vec<Result<String, PipelineError>> = Vec::new();
        let ResultCollector { slots: entries, received: _ } = self;
        for entry in it: entries
            invariant
                it.seq() == slots,
                results@ == collected_results(slots.take(it.index() as int)),
        {
            let ghost k = it.index() as int;
            let r = match entry {
                Some(r) => r,
                None => Err(PipelineError::Validation(ValidationError::EmptyInput)),
            };
            results.push(r);
            proof {
                assert(collected_results(slots.take(k + 1)) =~= collected_results(slots.take(k)).push(r));
            }
        }
        assert(slots.take(slots.len() as int) =~= slots);
        results
    }
}

} // verus!
