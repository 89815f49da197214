//! The runs of a benchmark, one behind the other.

use vstd::prelude::*;

use crate::inventory::{Inventory, Load};
use crate::placement::{is_token, lemma_run_roots_distinct};
use crate::plan::{plan, plan_run, run_name, run_root, Plan, RunPlan};
use crate::text::views;
use crate::timing::{middle, middle_of, Middle};

verus! {

/// What was measured with one number of workers.
#[derive(Debug)]
pub struct PushJobResult {
    pub jobs: usize,
    /// How long each run took, in nanoseconds.
    pub runs_nanos: Vec<u128>,
    pub median: Middle,
    pub remote_run_roots: Vec<String>,
}

/// What was measured with one number of workers, as a specification speaks of it.
pub struct Measured {
    pub jobs: nat,
    pub times: Seq<u128>,
    pub median: Middle,
    pub roots: Seq<Seq<char>>,
}

impl View for PushJobResult {
    type V = Measured;

    open spec fn view(&self) -> Measured {
        Measured {
            jobs: self.jobs as nat,
            times: self.runs_nanos@,
            median: self.median,
            roots: views(self.remote_run_roots@),
        }
    }
}

pub open spec fn result_views(list: Seq<PushJobResult>) -> Seq<Measured> {
    list.map_values(|r: PushJobResult| r@)
}

/// How many workers there are where `n` were asked for.
pub open spec fn workers(n: usize) -> nat {
    if n == 0 {
        1
    } else {
        n as nat
    }
}

/// The directories of the first `n` runs with so many workers.
pub open spec fn run_roots(base: Seq<char>, token: Seq<char>, jobs: nat, n: nat) -> Seq<Seq<char>> {
    Seq::new(n, |i: int| run_root(base, run_name(token, jobs, (i + 1) as nat)))
}

/// How far a benchmark has come.
pub struct SessionState {
    pub base: Seq<char>,
    pub token: Seq<char>,
    pub jobs_list: Seq<usize>,
    pub runs: nat,
    pub load: Load,
    /// The times of the runs with the present number of workers.
    pub times: Seq<u128>,
    /// What was measured with the numbers of workers before.
    pub results: Seq<Measured>,
}

impl SessionState {
    /// The number of workers whose turn it is.
    pub open spec fn jobs(self) -> nat {
        workers(self.jobs_list[self.results.len() as int])
    }

    pub open spec fn complete(self) -> bool {
        self.results.len() >= self.jobs_list.len()
    }

    /// What is to be run next, if anything is.
    pub open spec fn next_run(self) -> Option<Plan> {
        if self.complete() {
            None
        } else {
            Some(plan(self.base, self.token, self.jobs(), self.times.len() + 1, self.load))
        }
    }

    /// Once all the runs with the present number of workers are done, it is the turn of the
    /// next number.
    pub open spec fn settled(self) -> SessionState
        decreases self.jobs_list.len() - self.results.len(),
    {
        if self.complete() || self.times.len() < self.runs {
            self
        } else {
            let result = Measured {
                jobs: self.jobs(),
                times: self.times,
                median: middle(self.times),
                roots: run_roots(self.base, self.token, self.jobs(), self.times.len()),
            };
            SessionState {
                times: Seq::empty(),
                results: self.results.push(result),
                ..self
            }.settled()
        }
    }

    pub open spec fn start(
        base: Seq<char>,
        token: Seq<char>,
        jobs_list: Seq<usize>,
        runs: nat,
        load: Load,
    ) -> SessionState {
        SessionState {
            base,
            token,
            jobs_list,
            runs,
            load,
            times: Seq::empty(),
            results: Seq::empty(),
        }.settled()
    }

    /// The state once the next run has taken `elapsed`.
    pub open spec fn record(self, elapsed: u128) -> SessionState {
        SessionState { times: self.times.push(elapsed), ..self }.settled()
    }
}

/// A benchmark that is under way.
pub struct BenchmarkSession {
    base: String,
    token: String,
    jobs_list: Vec<usize>,
    runs: usize,
    inventory: Inventory,
    times: Vec<u128>,
    roots: Vec<String>,
    results: Vec<PushJobResult>,
}

impl View for BenchmarkSession {
    type V = SessionState;

    closed spec fn view(&self) -> SessionState {
        SessionState {
            base: self.base@,
            token: self.token@,
            jobs_list: self.jobs_list@,
            runs: self.runs as nat,
            load: self.inventory@,
            times: self.times@,
            results: result_views(self.results@),
        }
    }
}

/// The number of workers where `n` were asked for.
pub fn worker_count(n: usize) -> (r: usize)
    ensures
        r == workers(n),
        n > 0 ==> r == n,
        n == 0 ==> r == 1,
{
    if n == 0 {
        1
    } else {
        n
    }
}

impl BenchmarkSession {
    /// Whether the directories of the runs that were recorded are at hand.
    closed spec fn kept(&self) -> bool {
        &&& self.results.len() <= self.jobs_list.len()
        &&& self@.complete() ==> self.times.len() == 0
        &&& if self@.complete() {
            self.roots.len() == 0
        } else {
            views(self.roots@) == run_roots(
                self.base@,
                self.token@,
                self@.jobs(),
                self.times@.len(),
            )
        }
    }

    pub closed spec fn wf(&self) -> bool {
        &&& self.kept()
        &&& !self@.complete() ==> self.times.len() < self.runs
    }

    /// Starts a benchmark.
    pub fn start(
        base: String,
        token: String,
        jobs_list: Vec<usize>,
        runs: usize,
        inventory: Inventory,
    ) -> (r: BenchmarkSession)
        ensures
            r.wf(),
            r@ == SessionState::start(base@, token@, jobs_list@, runs as nat, inventory@),
            r@.base == base@,
            r@.token == token@,
            r@.jobs_list == jobs_list@,
            r@.runs == runs,
            r@.load == inventory@,
    {
        let mut r: BenchmarkSession = BenchmarkSession {
            base,
            token,
            jobs_list,
            runs,
            inventory,
            times: Vec::new(),
            roots: Vec::new(),
            results: Vec::new(),
        };
        proof {
            assert(r@.results =~= Seq::empty());
            if !r@.complete() {
                assert(views(r.roots@) =~= run_roots(r.base@, r.token@, r@.jobs(), 0));
            }
        }
        r.settle();
        proof {
            lemma_start_fixed(base@, token@, jobs_list@, runs as nat, inventory@);
        }
        r
    }

    /// What is to be run next.
    pub fn next_run(&self) -> (r: Option<RunPlan>)
        requires
            self.wf(),
        ensures
            match self@.next_run() {
                Some(p) => r matches Some(q) && q@ == p && q.jobs == p.jobs
                    && q.remote_run_root@ == p.root,
                None => r is None,
            },
    {
        if self.results.len() >= self.jobs_list.len() {
            return None;
        }
        let jobs: usize = worker_count(self.jobs_list[self.results.len()]);
        Some(
            plan_run(
                self.base.as_str(),
                self.token.as_str(),
                jobs,
                self.times.len() + 1,
                &self.inventory,
            ),
        )
    }

    /// Takes down how long the run took whose turn it was, and where it put its files.
    pub fn record(&mut self, elapsed: u128)
        requires
            old(self).wf(),
            old(self)@.next_run() is Some,
        ensures
            final(self).wf(),
            final(self)@ == old(self)@.record(elapsed),
    {
        let jobs: usize = worker_count(self.jobs_list[self.results.len()]);
        let root: String = crate::plan::remote_run_root(
            self.base.as_str(),
            self.token.as_str(),
            jobs,
            self.times.len() + 1,
        );
        let ghost before = self.roots@;
        self.times.push(elapsed);
        self.roots.push(root);
        proof {
            assert(self@.jobs() == jobs);
            assert(views(self.roots@) =~= views(before).push(root@));
            assert(views(self.roots@) =~= run_roots(
                self.base@,
                self.token@,
                jobs as nat,
                self.times@.len(),
            ));
        }
        self.settle();
    }

    /// Closes the numbers of workers whose runs are all done.
    fn settle(&mut self)
        requires
            old(self).kept(),
        ensures
            final(self).wf(),
            final(self)@ == old(self)@.settled(),
    {
        while self.results.len() < self.jobs_list.len() && self.times.len() >= self.runs
            invariant
                self.kept(),
                self@.settled() == old(self)@.settled(),
            decreases self.jobs_list.len() - self.results.len(),
        {
            let ghost before = *self;
            let jobs: usize = worker_count(self.jobs_list[self.results.len()]);
            let mut times: Vec<u128> = Vec::new();
            let mut roots: Vec<String> = Vec::new();
            std::mem::swap(&mut times, &mut self.times);
            std::mem::swap(&mut roots, &mut self.roots);
            let median: Middle = middle_of(&times);
            let result: PushJobResult = PushJobResult {
                jobs,
                runs_nanos: times,
                median,
                remote_run_roots: roots,
            };
            self.results.push(result);
            proof {
                assert(result_views(self.results@) =~= result_views(before.results@).push(result@));
                assert(self@ == (SessionState {
                    times: Seq::empty(),
                    results: before@.results.push(result@),
                    ..before@
                }));
                if !self@.complete() {
                    assert(views(self.roots@) =~= run_roots(
                        self.base@,
                        self.token@,
                        self@.jobs(),
                        0,
                    ));
                }
            }
        }
    }

    /// What was measured, for each number of workers that was asked for.
    pub fn finish(self) -> (r: Vec<PushJobResult>)
        requires
            self.wf(),
            self@.next_run() is None,
        ensures
            result_views(r@) == self@.results,
            r@.len() == self@.results.len(),
            forall|i: int|
                0 <= i < r@.len() ==> {
                    let result = self@.results[i];
                    &&& (#[trigger] r@[i]).jobs == result.jobs
                    &&& r@[i].runs_nanos@ == result.times
                    &&& r@[i].median == result.median
                    &&& r@[i].remote_run_roots@.len() == result.roots.len()
                    &&& forall|k: int|
                        0 <= k < result.roots.len() ==> (#[trigger] r@[i].remote_run_roots@[k])@
                            == result.roots[k]
                },
    {
        proof {
            let all = self.results@;
            assert forall|i: int| 0 <= i < all.len() implies #[trigger] all[i]@ == self@.results[i] by {
                assert(result_views(all)[i] == all[i]@);
            }
            assert forall|i: int, k: int|
                0 <= i < all.len() && 0 <= k < all[i].remote_run_roots@.len() implies (
            #[trigger] all[i].remote_run_roots@[k])@ == all[i]@.roots[k] by {
                assert(views(all[i].remote_run_roots@)[k] == all[i].remote_run_roots@[k]@);
            }
        }
        self.results
    }
}

/// The state of a benchmark once its runs have taken the times `elapsed`.
pub open spec fn after_runs(st: SessionState, elapsed: Seq<u128>) -> SessionState
    decreases elapsed.len(),
{
    if elapsed.len() == 0 {
        st
    } else {
        after_runs(st, elapsed.drop_last()).record(elapsed.last())
    }
}

/// What was measured with the `j`th number of workers, where the runs of the benchmark took the
/// times `elapsed`.
pub open spec fn measured(st: SessionState, elapsed: Seq<u128>, j: int) -> Measured {
    let jobs = workers(st.jobs_list[j]);
    let times = elapsed.subrange(j * st.runs, (j + 1) * st.runs);
    Measured {
        jobs,
        times,
        median: middle(times),
        roots: run_roots(st.base, st.token, jobs, st.runs),
    }
}

/// Whether `st` is where the benchmark that began as `init` stands after the times `elapsed`.
spec fn on_track(init: SessionState, elapsed: Seq<u128>, st: SessionState) -> bool {
    let done = st.results.len() as int;
    &&& st.base == init.base && st.token == init.token && st.jobs_list == init.jobs_list && st.runs
        == init.runs && st.load == init.load
    &&& done <= st.jobs_list.len()
    &&& if st.complete() {
        st.times.len() == 0
    } else {
        st.times.len() < st.runs
    }
    &&& done * st.runs + st.times.len() == elapsed.len()
    &&& st.times == elapsed.skip(done * st.runs)
    &&& forall|j: int| 0 <= j < done ==> #[trigger] st.results[j] == measured(init, elapsed, j)
}

/// The runs with the `j`th number of workers stand behind those with the numbers before, and
/// ahead of the end.
proof fn lemma_fits(j: int, done: int, runs: int)
    requires
        0 <= j < done,
        0 <= runs,
    ensures
        0 <= j * runs <= (j + 1) * runs <= done * runs,
        (j + 1) * runs == j * runs + runs,
{
    assert(0 <= j * runs <= (j + 1) * runs <= done * runs && (j + 1) * runs == j * runs + runs)
        by (nonlinear_arith)
        requires
            0 <= j < done,
            0 <= runs,
    ;
}

/// Closing the numbers of workers whose runs are done leaves a benchmark on its track.
proof fn lemma_settled_on_track(init: SessionState, elapsed: Seq<u128>, st: SessionState)
    requires
        st.base == init.base,
        st.token == init.token,
        st.jobs_list == init.jobs_list,
        st.runs == init.runs,
        st.load == init.load,
        st.results.len() <= st.jobs_list.len(),
        st.times.len() <= st.runs,
        st.complete() ==> st.times.len() == 0,
        st.results.len() * st.runs + st.times.len() == elapsed.len(),
        st.times == elapsed.skip((st.results.len() * st.runs) as int),
        forall|j: int|
            0 <= j < st.results.len() ==> #[trigger] st.results[j] == measured(init, elapsed, j),
    ensures
        on_track(init, elapsed, st.settled()),
    decreases st.jobs_list.len() - st.results.len(),
{
    if !st.complete() && st.times.len() >= st.runs {
        let done = st.results.len() as int;
        let runs = st.runs as int;
        lemma_fits(done, st.jobs_list.len() as int, runs);
        let result = Measured {
            jobs: st.jobs(),
            times: st.times,
            median: middle(st.times),
            roots: run_roots(st.base, st.token, st.jobs(), st.times.len()),
        };
        let next = SessionState {
            times: Seq::empty(),
            results: st.results.push(result),
            ..st
        };
        assert(st.times =~= elapsed.subrange(done * runs, (done + 1) * runs));
        assert(result == measured(init, elapsed, done));
        assert(next.times =~= elapsed.skip((done + 1) * runs));
        lemma_settled_on_track(init, elapsed, next);
    }
}

proof fn lemma_settled_fixed(st: SessionState)
    ensures
        st.settled().base == st.base,
        st.settled().token == st.token,
        st.settled().jobs_list == st.jobs_list,
        st.settled().runs == st.runs,
        st.settled().load == st.load,
    decreases st.jobs_list.len() - st.results.len(),
{
    if !st.complete() && st.times.len() >= st.runs {
        let result = Measured {
            jobs: st.jobs(),
            times: st.times,
            median: middle(st.times),
            roots: run_roots(st.base, st.token, st.jobs(), st.times.len()),
        };
        lemma_settled_fixed(
            SessionState { times: Seq::empty(), results: st.results.push(result), ..st },
        );
    }
}

proof fn lemma_start_fixed(
    base: Seq<char>,
    token: Seq<char>,
    jobs_list: Seq<usize>,
    runs: nat,
    load: Load,
)
    ensures
        ({
            let init = SessionState::start(base, token, jobs_list, runs, load);
            init.base == base && init.token == token && init.jobs_list == jobs_list && init.runs
                == runs && init.load == load
        }),
{
    lemma_settled_fixed(
        SessionState {
            base,
            token,
            jobs_list,
            runs,
            load,
            times: Seq::empty(),
            results: Seq::empty(),
        },
    );
}

proof fn lemma_on_track(
    base: Seq<char>,
    token: Seq<char>,
    jobs_list: Seq<usize>,
    runs: nat,
    load: Load,
    elapsed: Seq<u128>,
)
    requires
        elapsed.len() <= jobs_list.len() * runs,
    ensures
        ({
            let init = SessionState::start(base, token, jobs_list, runs, load);
            on_track(init, elapsed, after_runs(init, elapsed))
        }),
    decreases elapsed.len(),
{
    let init = SessionState::start(base, token, jobs_list, runs, load);
    lemma_start_fixed(base, token, jobs_list, runs, load);
    if elapsed.len() == 0 {
        let raw = SessionState {
            base,
            token,
            jobs_list,
            runs,
            load,
            times: Seq::empty(),
            results: Seq::empty(),
        };
        assert(0 * runs == 0);
        assert(raw.times =~= elapsed.skip(0));
        lemma_settled_on_track(raw, elapsed, raw);
        assert forall|j: int| 0 <= j < init.results.len() implies #[trigger] init.results[j]
            == measured(init, elapsed, j) by {
            assert(measured(init, elapsed, j) == measured(raw, elapsed, j));
        }
    } else {
        let before = elapsed.drop_last();
        lemma_on_track(base, token, jobs_list, runs, load, before);
        let st = after_runs(init, before);
        let done = st.results.len() as int;
        if st.complete() {
            assert(done == jobs_list.len());
        }
        let next = SessionState { times: st.times.push(elapsed.last()), ..st };
        assert(next.times =~= elapsed.skip(done * runs));
        assert forall|j: int| 0 <= j < done implies #[trigger] next.results[j] == measured(
            init,
            elapsed,
            j,
        ) by {
            lemma_fits(j, done, runs as int);
            assert(st.results[j] == measured(init, before, j));
            assert(elapsed.subrange(j * runs, (j + 1) * runs) =~= before.subrange(
                j * runs,
                (j + 1) * runs,
            ));
        }
        lemma_settled_on_track(init, elapsed, next);
    }
}

/// A benchmark asks for a run as long as fewer were made than there are runs for each number of
/// workers, and then for no more.
pub proof fn lemma_session_asks(
    base: Seq<char>,
    token: Seq<char>,
    jobs_list: Seq<usize>,
    runs: nat,
    load: Load,
    elapsed: Seq<u128>,
)
    requires
        elapsed.len() <= jobs_list.len() * runs,
    ensures
        ({
            let init = SessionState::start(base, token, jobs_list, runs, load);
            after_runs(init, elapsed).next_run() is Some <==> elapsed.len() < jobs_list.len() * runs
        }),
{
    let init = SessionState::start(base, token, jobs_list, runs, load);
    lemma_start_fixed(base, token, jobs_list, runs, load);
    lemma_on_track(base, token, jobs_list, runs, load, elapsed);
    let st = after_runs(init, elapsed);
    let done = st.results.len() as int;
    if done < jobs_list.len() {
        lemma_fits(done, jobs_list.len() as int, runs as int);
    }
}

/// The run that a benchmark asks for uses the number of workers whose turn it is, and is
/// numbered from one among the runs with that number.
pub proof fn lemma_session_next(
    base: Seq<char>,
    token: Seq<char>,
    jobs_list: Seq<usize>,
    runs: nat,
    load: Load,
    elapsed: Seq<u128>,
    j: int,
    k: int,
)
    requires
        0 <= j < jobs_list.len(),
        0 <= k < runs,
        elapsed.len() == j * runs + k,
    ensures
        ({
            let init = SessionState::start(base, token, jobs_list, runs, load);
            after_runs(init, elapsed).next_run() == Some(
                plan(base, token, workers(jobs_list[j]), (k + 1) as nat, load),
            )
        }),
{
    let init = SessionState::start(base, token, jobs_list, runs, load);
    lemma_fits(j, jobs_list.len() as int, runs as int);
    lemma_on_track(base, token, jobs_list, runs, load, elapsed);
    lemma_session_asks(base, token, jobs_list, runs, load, elapsed);
    lemma_start_fixed(base, token, jobs_list, runs, load);
    let st = after_runs(init, elapsed);
    let done = st.results.len() as int;
    assert(done == j) by {
        if done < j {
            lemma_fits(done, j, runs as int);
        }
        if j < done {
            lemma_fits(j, done, runs as int);
        }
    }
}

/// A complete benchmark has one result for each number of workers, in the order in which they
/// were asked for, and every result has the times of its own runs and the directories that
/// these left behind.
pub proof fn lemma_session_outcome(
    base: Seq<char>,
    token: Seq<char>,
    jobs_list: Seq<usize>,
    runs: nat,
    load: Load,
    elapsed: Seq<u128>,
)
    requires
        elapsed.len() == jobs_list.len() * runs,
    ensures
        ({
            let init = SessionState::start(base, token, jobs_list, runs, load);
            let end = after_runs(init, elapsed);
            &&& end.next_run() is None
            &&& end.results.len() == jobs_list.len()
            &&& forall|j: int|
                0 <= j < jobs_list.len() ==> {
                    let jobs = workers(jobs_list[j]);
                    let times = elapsed.subrange(j * runs, (j + 1) * runs);
                    #[trigger] end.results[j] == (Measured {
                        jobs,
                        times,
                        median: middle(times),
                        roots: run_roots(base, token, jobs, runs),
                    })
                }
        }),
{
    let init = SessionState::start(base, token, jobs_list, runs, load);
    let end = after_runs(init, elapsed);
    lemma_on_track(base, token, jobs_list, runs, load, elapsed);
    lemma_session_asks(base, token, jobs_list, runs, load, elapsed);
    lemma_start_fixed(base, token, jobs_list, runs, load);
    assert forall|j: int| 0 <= j < jobs_list.len() implies #[trigger] end.results[j] == measured(
        init,
        elapsed,
        j,
    ) by {}
}

/// As many workers are used as were asked for, and one where none was.
pub proof fn lemma_workers(n: usize)
    ensures
        n > 0 ==> workers(n) == n,
        n == 0 ==> workers(n) == 1,
{
}

/// The directories that a complete benchmark names for a number of workers are those of the runs
/// that it asked for with that number, one for each run and in their order.
pub proof fn lemma_recorded_roots(
    base: Seq<char>,
    token: Seq<char>,
    jobs_list: Seq<usize>,
    runs: nat,
    load: Load,
    elapsed: Seq<u128>,
    j: int,
    k: int,
)
    requires
        elapsed.len() == jobs_list.len() * runs,
        0 <= j < jobs_list.len(),
        0 <= k < runs,
    ensures
        ({
            let init = SessionState::start(base, token, jobs_list, runs, load);
            let asked = after_runs(init, elapsed.take(j * runs + k)).next_run();
            let result = after_runs(init, elapsed).results[j];
            &&& asked is Some
            &&& result.roots.len() == runs
            &&& result.times.len() == runs
            &&& result.roots[k] == asked.unwrap().root
            &&& result.jobs == asked.unwrap().jobs
            &&& result.times[k] == elapsed[j * runs + k]
        }),
{
    lemma_fits(j, jobs_list.len() as int, runs as int);
    lemma_session_outcome(base, token, jobs_list, runs, load, elapsed);
    lemma_session_next(base, token, jobs_list, runs, load, elapsed.take(j * runs + k), j, k);
}

/// No directory is named twice for one number of workers, nor for two different ones.
pub proof fn lemma_recorded_roots_differ(
    base: Seq<char>,
    token: Seq<char>,
    jobs_list: Seq<usize>,
    runs: nat,
    load: Load,
    elapsed: Seq<u128>,
    j1: int,
    k1: int,
    j2: int,
    k2: int,
)
    requires
        is_token(token),
        elapsed.len() == jobs_list.len() * runs,
        0 <= j1 < jobs_list.len(),
        0 <= j2 < jobs_list.len(),
        0 <= k1 < runs,
        0 <= k2 < runs,
        k1 != k2 || workers(jobs_list[j1]) != workers(jobs_list[j2]),
    ensures
        ({
            let init = SessionState::start(base, token, jobs_list, runs, load);
            let end = after_runs(init, elapsed);
            end.results[j1].roots[k1] != end.results[j2].roots[k2]
        }),
{
    let init = SessionState::start(base, token, jobs_list, runs, load);
    let end = after_runs(init, elapsed);
    lemma_session_outcome(base, token, jobs_list, runs, load, elapsed);
    if end.results[j1].roots[k1] == end.results[j2].roots[k2] {
        lemma_run_roots_distinct(
            base,
            token,
            workers(jobs_list[j1]),
            (k1 + 1) as nat,
            token,
            workers(jobs_list[j2]),
            (k2 + 1) as nat,
        );
    }
}

} // verus!
