//! Work on many items at once, but not on too many: what is started when.
use vstd::prelude::*;

verus! {

/// How far a run over many items has come.
#[derive(Clone, Copy, Debug, Eq, PartialEq, Structural)]
pub struct BoundedRun {
    /// Items on which nothing was begun.
    pub waiting: usize,
    /// Items on which work was begun and is not over.
    pub running: usize,
    /// Some item has failed.
    pub failed: bool,
}

impl BoundedRun {
    /// A run over this many items as it begins: as much is begun as may go on at once.
    pub open spec fn begun(items: usize, concurrency: usize) -> BoundedRun {
        let running = if items < concurrency {
            items
        } else {
            concurrency
        };
        BoundedRun { waiting: (items - running) as usize, running: running, failed: false }
    }

    /// After a result another item is begun: one has gone well, and so have all before it.
    pub open spec fn begins_another(self, ok: bool) -> bool {
        ok && !self.failed && self.waiting > 0
    }

    /// The run after one more result.
    pub open spec fn after(self, ok: bool) -> BoundedRun {
        let running = if self.running > 0 {
            self.running - 1
        } else {
            0
        };
        if self.begins_another(ok) {
            BoundedRun {
                waiting: (self.waiting - 1) as usize,
                running: (running + 1) as usize,
                failed: false,
            }
        } else {
            BoundedRun { running: running as usize, failed: self.failed || !ok, ..self }
        }
    }

    /// The run after results that come in this order.
    pub open spec fn after_all(self, results: Seq<bool>) -> BoundedRun
        decreases results.len(),
    {
        if results.len() == 0 {
            self
        } else {
            self.after_all(results.drop_last()).after(results.last())
        }
    }
}

/// Begins a run over this many items.
pub fn begin_run(items: usize, concurrency: usize) -> (r: BoundedRun)
    ensures
        r == BoundedRun::begun(items, concurrency),
{
    let running = if items < concurrency {
        items
    } else {
        concurrency
    };
    BoundedRun { waiting: items - running, running: running, failed: false }
}

/// Takes note of one more result: another item is begun only as long as none has failed.
pub fn after_result(run: BoundedRun, ok: bool) -> (r: BoundedRun)
    ensures
        r == run.after(ok),
{
    let running = if run.running > 0 {
        run.running - 1
    } else {
        0
    };
    if ok && !run.failed && run.waiting > 0 {
        BoundedRun { waiting: run.waiting - 1, running: running + 1, failed: false }
    } else {
        BoundedRun { waiting: run.waiting, running: running, failed: run.failed || !ok }
    }
}

/// The first failure among results that come in this order, if there is one.
pub open spec fn first_failure<T, E>(results: Seq<Result<T, E>>) -> Option<E>
    decreases results.len(),
{
    if results.len() == 0 {
        None
    } else {
        let before = first_failure(results.drop_last());
        if before is Some {
            before
        } else {
            match results.last() {
                Ok(_) => None,
                Err(e) => Some(e),
            }
        }
    }
}

/// What went well among results, in the order in which they come.
pub open spec fn successes<T, E>(results: Seq<Result<T, E>>) -> Seq<T>
    decreases results.len(),
{
    if results.len() == 0 {
        Seq::empty()
    } else {
        let before = successes(results.drop_last());
        match results.last() {
            Ok(value) => before.push(value),
            Err(_) => before,
        }
    }
}

/// Which results went well.
pub open spec fn went_well<T, E>(results: Seq<Result<T, E>>) -> Seq<bool> {
    Seq::new(results.len(), |i: int| results[i] is Ok)
}

/// What a run over many items has given so far.
pub struct Gathering<T, E> {
    pub run: BoundedRun,
    pub values: Vec<T>,
    pub first_error: Option<E>,
}

impl<T, E> Gathering<T, E> {
    /// What is held is that of a run over this many items after these results.
    pub open spec fn holds(
        self,
        items: usize,
        concurrency: usize,
        results: Seq<Result<T, E>>,
    ) -> bool {
        &&& self.run == BoundedRun::begun(items, concurrency).after_all(went_well(results))
        &&& self.values@ == successes(results)
        &&& self.first_error == first_failure(results)
    }

    pub fn new(items: usize, concurrency: usize) -> (r: Self)
        ensures
            r.holds(items, concurrency, Seq::empty()),
    {
        Gathering { run: begin_run(items, concurrency), values: Vec::new(), first_error: None }
    }

    /// Takes one more result, and tells whether work on another item is to begin.
    pub fn take(&mut self, result: Result<T, E>) -> (another: bool)
        ensures
            another == old(self).run.begins_another(result is Ok),
            forall|items: usize, concurrency: usize, results: Seq<Result<T, E>>| #[trigger]
                old(self).holds(items, concurrency, results) ==> final(self).holds(
                    items,
                    concurrency,
                    results.push(result),
                ),
    {
        let ghost start = *self;
        let ok = result.is_ok();
        let another = ok && !self.run.failed && self.run.waiting > 0;
        self.run = after_result(self.run, ok);
        match result {
            Ok(value) => {
                self.values.push(value);
            },
            Err(error) => {
                if self.first_error.is_none() {
                    self.first_error = Some(error);
                }
            },
        }
        proof {
            assert forall|items: usize, concurrency: usize, results: Seq<Result<T, E>>| #[trigger]
                start.holds(items, concurrency, results) implies self.holds(
                items,
                concurrency,
                results.push(result),
            ) by {
                let all = results.push(result);
                assert(all.drop_last() =~= results);
                assert(went_well(all).drop_last() =~= went_well(results));
            }
        }
        another
    }

    /// Ends a run: with the first failure, or else with all that went well.
    pub fn finish(self) -> (r: Result<Vec<T>, E>)
        ensures
            match self.first_error {
                Some(e) => r == Err::<Vec<T>, E>(e),
                None => r == Ok::<Vec<T>, E>(self.values),
            },
    {
        match self.first_error {
            Some(error) => Err(error),
            None => Ok(self.values),
        }
    }
}

/// After a failure nothing new is begun, whatever else comes in, and what was begun is waited
/// for.
pub proof fn law_nothing_begins_after_a_failure(run: BoundedRun, results: Seq<bool>)
    requires
        run.failed,
        results.len() <= run.running,
    ensures
        run.after_all(results).failed,
        run.after_all(results).waiting == run.waiting,
        run.after_all(results).running == run.running - results.len(),
    decreases results.len(),
{
    if results.len() > 0 {
        law_nothing_begins_after_a_failure(run, results.drop_last());
    }
}

/// As long as nothing fails, every item is begun in time: what waits and what runs shrinks by
/// one with each result, and no more runs than may at once.
pub proof fn law_without_failures_every_item_is_run(
    items: usize,
    concurrency: usize,
    results: Seq<bool>,
)
    requires
        concurrency > 0,
        results.len() <= items,
        forall|i: int| 0 <= i < results.len() ==> #[trigger] results[i],
    ensures
        ({
            let run = BoundedRun::begun(items, concurrency).after_all(results);
            &&& !run.failed
            &&& run.waiting + run.running == items - results.len()
            &&& run.running <= concurrency
            &&& run.waiting > 0 ==> run.running == concurrency
        }),
    decreases results.len(),
{
    if results.len() > 0 {
        let before = results.drop_last();
        assert forall|i: int| 0 <= i < before.len() implies #[trigger] before[i] by {
            assert(results[i]);
        }
        law_without_failures_every_item_is_run(items, concurrency, before);
        assert(results[results.len() - 1]);
    }
}

/// Never do more items run than may at once.
pub proof fn law_no_more_runs_than_may(items: usize, concurrency: usize, results: Seq<bool>)
    ensures
        ({
            let run = BoundedRun::begun(items, concurrency).after_all(results);
            concurrency > 0 ==> run.running <= concurrency
        }),
    decreases results.len(),
{
    if results.len() > 0 {
        law_no_more_runs_than_may(items, concurrency, results.drop_last());
    }
}

} // verus!
