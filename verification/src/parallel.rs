//! Fan-out/fan-in execution of one unit of work per repository, with
//! per-repository failure isolation.
//!
//! Work runs concurrently over the descriptor list with no ordering
//! guarantee between repositories; the one trusted call is the rayon
//! fan-out, whose contract says only that every collected outcome is an
//! outcome the work function allows for the descriptor at the same index.
//! Everything after the fan-in — filtering, failure reporting, state
//! folding — is verified.

use vstd::prelude::*;
use rayon::iter::{IntoParallelRefIterator, ParallelIterator};
use crate::diag::report_failure;
use crate::repo::RepoInfo;

verus! {

/// A failure of one repository's unit of work: a diagnostic message
/// scoped to that repository alone.
#[derive(Debug, Clone, PartialEq, Eq)]
pub struct WorkError {
    pub message: String,
}

impl WorkError {
    /// Wraps a diagnostic message.
    pub fn new(message: String) -> (r: Self)
        ensures
            r.message == message,
    {
        WorkError { message }
    }
}

/// Relies on rayon: `par_iter().map(f).collect()` on a vector applies
/// `f` to every element, in parallel, and collects the results in index
/// order (rayon's indexed `map` and `collect` keep the order of the
/// underlying slice).  Each collected value is therefore one the closure
/// allows for the element at the same index.
#[verifier::external_body]
fn par_map_repos<R, F>(repos: &Vec<RepoInfo>, f: F) -> (r: Vec<R>) where
    R: Send,
    F: Fn(&RepoInfo) -> R + Sync,

    requires
        forall|i: int| 0 <= i < repos@.len() ==> call_requires(f, (&repos@[i],)),
    ensures
        r@.len() == repos@.len(),
        forall|i: int| 0 <= i < repos@.len() ==> call_ensures(f, (&repos@[i],), #[trigger] r@[i]),
{
    repos.par_iter().map(|ri| f(ri)).collect()
}

/// The values of the successful, non-skipped outcomes, in outcome order.
pub open spec fn collect_successes<T>(outcomes: Seq<Result<Option<T>, WorkError>>) -> Seq<T>
    decreases outcomes.len()
{
    if outcomes.len() == 0 {
        Seq::empty()
    } else {
        let front = collect_successes(outcomes.drop_last());
        match outcomes.last() {
            Ok(Some(t)) => front.push(t),
            _ => front,
        }
    }
}

/// `out` is a possible result of folding `update` over `ts` from `init`.
pub open spec fn folds_to<S, T, U: Fn(S, T) -> S>(update: U, init: S, ts: Seq<T>, out: S) -> bool
    decreases ts.len()
{
    if ts.len() == 0 {
        out == init
    } else {
        exists|mid: S|
            #[trigger] call_ensures(update, (mid, ts.last()), out) && folds_to(
                update,
                init,
                ts.drop_last(),
                mid,
            )
    }
}

/// A nonempty fold reaches its result through some state standing just
/// before the last contribution; with this a caller can walk a fold
/// witness apart, one contribution at a time.
pub proof fn lemma_folds_to_last<S, T, U: Fn(S, T) -> S>(update: U, init: S, ts: Seq<T>, out: S)
    requires
        folds_to(update, init, ts, out),
        ts.len() > 0,
    ensures
        exists|mid: S|
            #[trigger] call_ensures(update, (mid, ts.last()), out) && folds_to(
                update,
                init,
                ts.drop_last(),
                mid,
            ),
{
}

/// One more fold step: a state reachable by folding `ts` steps once more
/// through `update` into a state the update call allows.
pub proof fn lemma_folds_to_step<S, T, U: Fn(S, T) -> S>(
    update: U,
    init: S,
    ts: Seq<T>,
    mid: S,
    t: T,
    out: S,
)
    requires
        folds_to(update, init, ts, mid),
        call_ensures(update, (mid, t), out),
    ensures
        folds_to(update, init, ts.push(t), out),
{
    assert(ts.push(t).drop_last() =~= ts);
    assert(ts.push(t).last() == t);
}

/// Applies one unit of work to each of a fixed list of repositories.
#[derive(Debug, Clone, PartialEq, Eq)]
pub struct ParallelExecutor {
    pub repos: Vec<RepoInfo>,
}

impl ParallelExecutor {
    /// Takes the repositories the work will fan out over.
    pub fn new(repos: Vec<RepoInfo>) -> (r: Self)
        ensures
            r.repos == repos,
    {
        ParallelExecutor { repos }
    }

    /// The repositories being processed.
    pub fn repos(&self) -> (r: &Vec<RepoInfo>)
        ensures
            r == &self.repos,
    {
        &self.repos
    }

    /// The number of repositories being processed.
    pub fn len(&self) -> (r: usize)
        ensures
            r == self.repos@.len(),
    {
        self.repos.len()
    }

    /// Is there nothing to process?
    pub fn is_empty(&self) -> (r: bool)
        ensures
            r == (self.repos@.len() == 0),
    {
        self.repos.is_empty()
    }

    /// Runs the work function over every repository concurrently and
    /// collects the successful, non-skipped results, in fan-out order.
    ///
    /// There is one outcome per repository, each one the work function
    /// allows for that repository; a failed outcome costs one diagnostic
    /// line and contributes nothing, and never disturbs any other
    /// repository's outcome.
    pub fn execute<T, F>(&self, work_fn: F) -> (r: Vec<T>) where
        T: Send,
        F: Fn(&RepoInfo) -> Result<Option<T>, WorkError> + Sync,

        requires
            forall|i: int|
                0 <= i < self.repos@.len() ==> call_requires(work_fn, (&self.repos@[i],)),
        ensures
            exists|outcomes: Seq<Result<Option<T>, WorkError>>|
                {
                    &&& outcomes.len() == self.repos@.len()
                    &&& (forall|i: int|
                        0 <= i < outcomes.len() ==> call_ensures(
                            work_fn,
                            (&self.repos@[i],),
                            #[trigger] outcomes[i],
                        ))
                    &&& r@ == collect_successes(outcomes)
                },
    {
        let outcomes = par_map_repos(&self.repos, work_fn);
        let ghost ov = outcomes@;
        let mut rest = outcomes;
        let total: usize = rest.len();
        let mut r: Vec<T> = Vec::new();
        let mut idx: usize = 0;
        proof {
            assert(ov.take(0) =~= Seq::<Result<Option<T>, WorkError>>::empty());
        }
        while rest.len() > 0
            invariant
                ov.len() == total,
                idx == ov.len() - rest@.len(),
                idx <= ov.len(),
                ov.len() == self.repos@.len(),
                rest@ == ov.skip(idx as int),
                r@ == collect_successes(ov.take(idx as int)),
            decreases rest@.len(),
        {
            let outcome = rest.remove(0);
            proof {
                assert(rest@ =~= ov.skip(idx as int + 1));
                assert(ov.take(idx as int + 1).drop_last() =~= ov.take(idx as int));
                assert(ov.take(idx as int + 1).last() == outcome);
            }
            match outcome {
                Ok(Some(t)) => {
                    r.push(t);
                },
                Ok(None) => {},
                Err(e) => {
                    report_failure(self.repos[idx].slug.as_str(), e.message.as_str());
                },
            }
            proof {
                assert(r@ == collect_successes(ov.take(idx as int + 1)));
            }
            idx = idx + 1;
        }
        proof {
            assert(ov.take(ov.len() as int) =~= ov);
            assert(r@ == collect_successes(ov));
        }
        r
    }

    /// Runs the work function over every repository concurrently and
    /// keeps one outcome — success or failure — per repository, in
    /// repository order.
    pub fn execute_all<T, F>(&self, work_fn: F) -> (r: Vec<Result<T, WorkError>>) where
        T: Send,
        F: Fn(&RepoInfo) -> Result<T, WorkError> + Sync,

        requires
            forall|i: int|
                0 <= i < self.repos@.len() ==> call_requires(work_fn, (&self.repos@[i],)),
        ensures
            r@.len() == self.repos@.len(),
            forall|i: int|
                0 <= i < r@.len() ==> call_ensures(work_fn, (&self.repos@[i],), #[trigger] r@[i]),
    {
        par_map_repos(&self.repos, work_fn)
    }

    /// Runs the work function over every repository concurrently, then
    /// folds each successful contribution into the shared state, one
    /// contribution at a time; a failure costs one diagnostic line and
    /// contributes nothing.
    ///
    /// The work — the expensive, possibly blocking part — runs in
    /// parallel; only the per-contribution state updates are serialized,
    /// so one repository's update never sees a torn state from another's.
    pub fn execute_with_state<S, T, W, U>(&self, state: S, work_fn: W, update: U) -> (r: S) where
        T: Send,
        W: Fn(&RepoInfo) -> Result<Option<T>, WorkError> + Sync,
        U: Fn(S, T) -> S,

        requires
            forall|i: int|
                0 <= i < self.repos@.len() ==> call_requires(work_fn, (&self.repos@[i],)),
            forall|s: S, t: T| #[trigger] call_requires(update, (s, t)),
        ensures
            exists|outcomes: Seq<Result<Option<T>, WorkError>>|
                {
                    &&& outcomes.len() == self.repos@.len()
                    &&& (forall|i: int|
                        0 <= i < outcomes.len() ==> call_ensures(
                            work_fn,
                            (&self.repos@[i],),
                            #[trigger] outcomes[i],
                        ))
                    &&& folds_to(update, state, collect_successes(outcomes), r)
                },
    {
        let ghost s0 = state;
        let outcomes = par_map_repos(&self.repos, work_fn);
        let ghost ov = outcomes@;
        let mut rest = outcomes;
        let total: usize = rest.len();
        let mut acc = state;
        let mut idx: usize = 0;
        proof {
            assert(ov.take(0) =~= Seq::<Result<Option<T>, WorkError>>::empty());
            assert(collect_successes(ov.take(0)) =~= Seq::<T>::empty());
        }
        while rest.len() > 0
            invariant
                ov.len() == total,
                idx == ov.len() - rest@.len(),
                idx <= ov.len(),
                ov.len() == self.repos@.len(),
                rest@ == ov.skip(idx as int),
                folds_to(update, s0, collect_successes(ov.take(idx as int)), acc),
                forall|s: S, t: T| #[trigger] call_requires(update, (s, t)),
            decreases rest@.len(),
        {
            let outcome = rest.remove(0);
            proof {
                assert(rest@ =~= ov.skip(idx as int + 1));
                assert(ov.take(idx as int + 1).drop_last() =~= ov.take(idx as int));
                assert(ov.take(idx as int + 1).last() == outcome);
            }
            match outcome {
                Ok(Some(t)) => {
                    let ghost mid = acc;
                    let ghost tv = t;
                    acc = update(acc, t);
                    proof {
                        let cs1 = collect_successes(ov.take(idx as int + 1));
                        assert(cs1 == collect_successes(ov.take(idx as int)).push(tv));
                        assert(cs1.drop_last() =~= collect_successes(ov.take(idx as int)));
                        assert(cs1.last() == tv);
                        lemma_folds_to_step(update, s0, collect_successes(ov.take(idx as int)),
                            mid, tv, acc);
                        assert(folds_to(update, s0, cs1, acc));
                    }
                },
                Ok(None) => {
                    proof {
                        assert(collect_successes(ov.take(idx as int + 1)) == collect_successes(
                            ov.take(idx as int),
                        ));
                    }
                },
                Err(e) => {
                    report_failure(self.repos[idx].slug.as_str(), e.message.as_str());
                    proof {
                        assert(collect_successes(ov.take(idx as int + 1)) == collect_successes(
                            ov.take(idx as int),
                        ));
                    }
                },
            }
            idx = idx + 1;
        }
        proof {
            assert(ov.take(ov.len() as int) =~= ov);
        }
        acc
    }
}

/// With an update whose contract pins its result to a function of its
/// arguments, a fold witness pins the final state: it is exactly the
/// left fold of that function over the contributions.
pub proof fn lemma_folds_to_unique<S, T, U: Fn(S, T) -> S>(
    update: U,
    f: spec_fn(S, T) -> S,
    init: S,
    ts: Seq<T>,
    out: S,
)
    requires
        folds_to(update, init, ts, out),
        forall|s: S, t: T, r: S| #[trigger] call_ensures(update, (s, t), r) ==> r == f(s, t),
    ensures
        out == ts.fold_left(init, f),
    decreases ts.len(),
{
    if ts.len() > 0 {
        lemma_folds_to_last(update, init, ts, out);
        let mid = choose|mid: S|
            #[trigger] call_ensures(update, (mid, ts.last()), out) && folds_to(
                update,
                init,
                ts.drop_last(),
                mid,
            );
        lemma_folds_to_unique(update, f, init, ts.drop_last(), mid);
    }
}

/// Every outcome a success: the collected results keep one value per
/// repository.
pub proof fn lemma_all_success_collects_all<T>(outcomes: Seq<Result<Option<T>, WorkError>>)
    requires
        forall|i: int|
            0 <= i < outcomes.len() ==> (#[trigger] outcomes[i]) is Ok && outcomes[i]->Ok_0
                is Some,
    ensures
        collect_successes(outcomes).len() == outcomes.len(),
    decreases outcomes.len(),
{
    if outcomes.len() > 0 {
        assert(forall|i: int|
            0 <= i < outcomes.drop_last().len() ==> (#[trigger] outcomes.drop_last()[i])
                == outcomes[i]);
        lemma_all_success_collects_all(outcomes.drop_last());
    }
}

/// Fan-out isolation: when exactly one of `n` outcomes fails and every
/// other outcome succeeds with a value, exactly `n - 1` results are
/// collected — the failure costs its own contribution and no other.
pub proof fn lemma_failure_isolation<T>(outcomes: Seq<Result<Option<T>, WorkError>>, k: int)
    requires
        0 <= k < outcomes.len(),
        outcomes[k] is Err,
        forall|i: int|
            0 <= i < outcomes.len() && i != k ==> (#[trigger] outcomes[i]) is Ok
                && outcomes[i]->Ok_0 is Some,
    ensures
        collect_successes(outcomes).len() == outcomes.len() - 1,
    decreases outcomes.len(),
{
    assert(forall|i: int|
        0 <= i < outcomes.drop_last().len() ==> (#[trigger] outcomes.drop_last()[i])
            == outcomes[i]);
    if k == outcomes.len() - 1 {
        lemma_all_success_collects_all(outcomes.drop_last());
    } else {
        lemma_failure_isolation(outcomes.drop_last(), k);
    }
}

} // verus!
