//! Control of a multi-iteration layout run: which repulsion strategy an
//! iteration uses, and the sequence of iterations with the caller's
//! progress callback, which may abort the run.
use vstd::prelude::*;

verus! {

/// Signals that the caller's per-iteration callback asked the run to stop.
#[derive(Debug, Clone, Copy, PartialEq, Eq, Structural)]
pub struct LayoutAborted;

/// How the repulsion phase of an iteration runs.
#[derive(Debug, Clone, Copy, PartialEq, Eq, Structural)]
pub enum RepulsionStrategy {
    /// All pairs of nodes, on the calling thread.
    Pairwise,
    /// The Barnes-Hut walk for each node, on the calling thread.
    BarnesHut,
    /// The Barnes-Hut walk for each node, split across a thread pool.
    ParallelBarnesHut,
}

/// The repulsion strategy for `threads` threads: only the Barnes-Hut walk
/// is ever split across threads, and only when more than one thread is
/// asked for; the pairwise fallback always runs on the calling thread.
pub fn repulsion_strategy(threads: usize, barnes_hut_optimize: bool) -> (s: RepulsionStrategy)
    ensures
        s == (if !barnes_hut_optimize {
            RepulsionStrategy::Pairwise
        } else if threads <= 1 {
            RepulsionStrategy::BarnesHut
        } else {
            RepulsionStrategy::ParallelBarnesHut
        }),
{
    if !barnes_hut_optimize {
        RepulsionStrategy::Pairwise
    } else if threads <= 1 {
        RepulsionStrategy::BarnesHut
    } else {
        RepulsionStrategy::ParallelBarnesHut
    }
}

/// Whether a run over `threads` threads builds a thread pool: only for
/// more than one thread; one thread, or zero, runs without a pool.
pub fn uses_thread_pool(threads: usize) -> (pool: bool)
    ensures
        pool == (threads > 1),
{
    threads > 1
}

/// Progress of a run of `total` iterations: how many have been started,
/// whether the last one started still awaits the callback's answer, the
/// answers recorded so far, and whether the callback aborted the run.
pub struct LayoutRun {
    started: u32,
    total: u32,
    aborted: bool,
    pending: bool,
    answers: Ghost<Seq<bool>>,
}

impl LayoutRun {
    /// Number of iterations started so far.
    pub closed spec fn started(&self) -> nat {
        self.started as nat
    }

    /// Number of iterations the run was asked for.
    pub closed spec fn total(&self) -> nat {
        self.total as nat
    }

    /// Whether the callback aborted the run.
    pub closed spec fn aborted(&self) -> bool {
        self.aborted
    }

    /// Whether the last iteration started still awaits `record`.
    pub closed spec fn pending(&self) -> bool {
        self.pending
    }

    /// The callback's answers recorded so far: entry `i` is whether it
    /// accepted iteration `i + 1`.
    pub closed spec fn answers(&self) -> Seq<bool> {
        self.answers@
    }

    /// The state is the one the recorded answers lead to.
    pub closed spec fn wf(&self) -> bool {
        &&& self.started <= self.total
        &&& if self.pending {
            &&& self.started >= 1
            &&& !self.aborted
            &&& self.answers@.len() == self.started - 1
            &&& run_state(self.total as nat, self.answers@) == ((self.started - 1) as nat, false)
        } else {
            &&& self.answers@.len() == self.started
            &&& run_state(self.total as nat, self.answers@) == (self.started as nat, self.aborted)
        }
    }

    /// A run of `total` iterations, none started yet.
    pub fn new(total: u32) -> (run: Self)
        ensures
            run.wf(),
            run.started() == 0,
            run.total() == total,
            !run.aborted(),
            !run.pending(),
            run.answers() == Seq::<bool>::empty(),
    {
        LayoutRun { started: 0, total, aborted: false, pending: false, answers: Ghost(Seq::empty()) }
    }

    /// Number of iterations the run was asked for.
    pub fn iterations(&self) -> (n: u32)
        ensures
            n == self.total(),
    {
        self.total
    }

    /// Starts the next iteration and returns its 1-based number, or
    /// returns `None`, changing nothing, once every iteration has been
    /// started or the run was aborted.
    pub fn next_iteration(&mut self) -> (i: Option<u32>)
        requires
            old(self).wf(),
            !old(self).pending(),
        ensures
            final(self).wf(),
            final(self).total() == old(self).total(),
            final(self).aborted() == old(self).aborted(),
            final(self).answers() == old(self).answers(),
            final(self).pending() == (i is Some),
            if old(self).started() < old(self).total() && !old(self).aborted() {
                &&& i == Some((old(self).started() + 1) as u32)
                &&& final(self).started() == old(self).started() + 1
            } else {
                &&& i is None
                &&& final(self).started() == old(self).started()
            },
    {
        if self.started < self.total && !self.aborted {
            self.started = self.started + 1;
            self.pending = true;
            Some(self.started)
        } else {
            None
        }
    }

    /// Records what the callback returned for the iteration just started:
    /// an error aborts the run.
    pub fn record(&mut self, outcome: Result<(), LayoutAborted>)
        requires
            old(self).wf(),
            old(self).pending(),
        ensures
            final(self).wf(),
            !final(self).pending(),
            final(self).started() == old(self).started(),
            final(self).total() == old(self).total(),
            final(self).aborted() == outcome is Err,
            final(self).answers() == old(self).answers().push(outcome is Ok),
    {
        let ghost prev = self.answers@;
        let ghost next = prev.push(outcome is Ok);
        assert(next.drop_last() =~= prev);
        self.answers = Ghost(next);
        self.pending = false;
        if outcome.is_err() {
            self.aborted = true;
        }
    }

    /// The result of the run: an error exactly when the callback aborted it.
    pub fn outcome(&self) -> (r: Result<(), LayoutAborted>)
        ensures
            r is Err <==> self.aborted(),
    {
        if self.aborted {
            Err(LayoutAborted)
        } else {
            Ok(())
        }
    }
}

/// The run law, of a `LayoutRun` driven by its calls: once the answer for
/// the last started iteration is recorded, the run has started iterations
/// `1, 2, ...` up to the first one the callback rejected, and is aborted
/// with an `Err` outcome, or, when it rejected none, up to as many as were
/// answered, with an `Ok` outcome; no iteration starts after a rejection
/// (`next_iteration` then returns `None`).
pub proof fn lemma_layout_run(run: &LayoutRun)
    requires
        run.wf(),
        !run.pending(),
    ensures
        run.answers().len() == run.started(),
        run.started() <= run.total(),
        match first_rejected(run.answers(), run.answers().len()) {
            Some(j) => run.started() == j + 1 && run.aborted(),
            None => !run.aborted(),
        },
{
    let answers = run.answers();
    lemma_run_law(run.total(), answers, answers.len());
    assert(answers.take(answers.len() as int) =~= answers);
}

/// The `(started, aborted)` state of a run of `total` iterations after one
/// round per entry of `answers`. A round calls `next_iteration` and, when
/// that starts an iteration, calls the callback and `record`s its answer:
/// `answers[i]` is whether the callback accepted iteration `i + 1`. This is
/// the composition of the contracts of `next_iteration` and `record`.
pub open spec fn run_state(total: nat, answers: Seq<bool>) -> (nat, bool)
    decreases answers.len(),
{
    if answers.len() == 0 {
        (0, false)
    } else {
        let prev = run_state(total, answers.drop_last());
        if prev.0 < total && !prev.1 {
            ((prev.0 + 1) as nat, !answers.last())
        } else {
            prev
        }
    }
}

/// The first iteration (0-based) among the first `n` that the callback
/// rejected, if any.
pub open spec fn first_rejected(answers: Seq<bool>, n: nat) -> Option<nat>
    decreases n,
{
    if n == 0 {
        None
    } else {
        match first_rejected(answers, (n - 1) as nat) {
            Some(j) => Some(j),
            None => if !answers[n - 1] {
                Some((n - 1) as nat)
            } else {
                None
            },
        }
    }
}

/// A run started from `LayoutRun::new(total)` goes on until its callback
/// rejects an iteration or all `total` iterations have run: after `m`
/// rounds, when the callback rejected iteration `j + 1` (the first it
/// rejected among the first `min(m, total)`), exactly `j + 1` iterations
/// have started, numbered from 1, and the run is aborted, so its outcome is
/// `Err`; otherwise `min(m, total)` iterations have started and the outcome
/// is `Ok`. Rounds after that change nothing.
pub proof fn lemma_run_law(total: nat, answers: Seq<bool>, m: nat)
    requires
        m <= answers.len(),
    ensures
        run_state(total, answers.take(m as int)) == (match first_rejected(
            answers,
            if m <= total {
                m
            } else {
                total
            },
        ) {
            Some(j) => ((j + 1) as nat, true),
            None => (
                if m <= total {
                    m
                } else {
                    total
                },
                false,
            ),
        }),
    decreases m,
{
    if m > 0 {
        lemma_run_law(total, answers, (m - 1) as nat);
        assert(answers.take(m as int).drop_last() =~= answers.take(m - 1));
        assert(answers.take(m as int).last() == answers[m - 1]);
        if m - 1 < total {
            if let Some(j) = first_rejected(answers, (m - 1) as nat) {
                lemma_first_rejected_bound(answers, (m - 1) as nat);
            }
        }
    }
}

proof fn lemma_first_rejected_bound(answers: Seq<bool>, n: nat)
    ensures
        first_rejected(answers, n) matches Some(j) ==> j < n,
    decreases n,
{
    if n > 0 {
        lemma_first_rejected_bound(answers, (n - 1) as nat);
    }
}

} // verus!
