use crate::data::source::{drawn_since, padded, DataError, InfoPool, InfoRecorder, InfoSource, RngSource};
use crate::data::shrinkers::{shrink_candidates, shrink_path, shrink_steps, starts_on};
use crate::generators::base::{fails_check, find_minimal, passes_check, Generator, Maybe};
use crate::data::source::{lemma_recorder_drawn_is_recorded, InfoReplay};
use vstd::prelude::*;

verus! {

/// Configuration that allows the user to override how many tests,
/// skipped-tests etc. are permitted.
#[derive(Debug, Clone, Copy)]
pub struct CheckConfig {
    num_tests: usize,
    max_skips: usize,
}

impl CheckConfig {
    /// How many tests (failing or successful) are run.
    pub closed spec fn tests(&self) -> usize {
        self.num_tests
    }

    /// How many times generation may be skipped before the run is given up.
    pub closed spec fn skips(&self) -> usize {
        self.max_skips
    }

    /// Overrides how many tests (either failing or successful) are executed.
    pub fn num_tests(&self, num_tests: usize) -> (r: Self)
        ensures
            r.tests() == num_tests,
            r.skips() == self.skips(),
    {
        CheckConfig { num_tests, max_skips: self.max_skips }
    }

    /// Overrides how many times the generators can skip generation before we
    /// abort the test run.
    pub fn max_skips(&self, max_skips: usize) -> (r: Self)
        ensures
            r.tests() == self.tests(),
            r.skips() == max_skips,
    {
        CheckConfig { num_tests: self.num_tests, max_skips }
    }

    /// This is the main entry point for users of the library.
    pub fn property<G: Generator>(&self, gen: G) -> (r: Property<G>)
        ensures
            r.config() == *self,
            r.generator() == gen,
    {
        Property { config: *self, gen }
    }
}

impl Default for CheckConfig {
    /// A hundred tests, and up to ten times as many skips.
    fn default() -> (r: Self)
        ensures
            r.tests() == 100,
            r.skips() == 1000,
    {
        let num_tests: usize = 100;
        CheckConfig { num_tests, max_skips: num_tests * 10 }
    }
}

/// This represents a configuration for a particular test, ie: a set of
/// generators and a (currently fixed) set of test parameters.
pub struct Property<G> {
    config: CheckConfig,
    gen: G,
}

impl<G> Property<G> {
    /// The test parameters.
    pub closed spec fn config(&self) -> CheckConfig {
        self.config
    }

    /// The generator of the test inputs.
    pub closed spec fn generator(&self) -> G {
        self.gen
    }
}

/// This represents something that a check can return.
pub trait CheckResult {
    /// Whether this result witnesses a failure.
    spec fn failure(&self) -> bool;

    /// Check whether this result witnesses a failure.
    fn is_failure(&self) -> (r: bool)
        ensures
            r == self.failure(),
    ;
}

/// A `false` result is a failure.
impl CheckResult for bool {
    open spec fn failure(&self) -> bool {
        !*self
    }

    fn is_failure(&self) -> (r: bool) {
        !*self
    }
}

/// An error is a failure; so is an okay result that is one itself.
impl<O: CheckResult, E> CheckResult for Result<O, E> {
    open spec fn failure(&self) -> bool {
        match self {
            Ok(o) => o.failure(),
            Err(_) => true,
        }
    }

    fn is_failure(&self) -> (r: bool) {
        match self {
            Ok(o) => o.is_failure(),
            Err(_) => true,
        }
    }
}

/// A check that returns nothing never fails.
impl CheckResult for () {
    open spec fn failure(&self) -> bool {
        false
    }

    fn is_failure(&self) -> (r: bool) {
        false
    }
}

/// See [`CheckConfig::property`](struct.CheckConfig.html#method.property)
/// Initiates a test with default configuration.
pub fn property<G: Generator>(gen: G) -> (r: Property<G>)
    ensures
        r.config().tests() == 100,
        r.config().skips() == 1000,
        r.generator() == gen,
{
    CheckConfig::default().property(gen)
}

/// What a run of checks came to.
#[derive(Debug)]
pub enum CheckOutcome<T, R> {
    /// Every test ran and passed.
    Passed,
    /// Generation was skipped so often that the run was given up.
    TooManySkips {
        /// The tests run before the run was given up.
        tests_run: usize,
        /// The tests that were to be run.
        num_tests: usize,
        /// The times generation was skipped.
        items_skipped: usize,
    },
    /// Generation failed for want of data more often than can be counted.
    TooManyFailedDraws {
        /// The tests run before the run was given up.
        tests_run: usize,
    },
    /// A test failed.
    Failed {
        /// The smallest pool found that still makes the check fail.
        pool: InfoPool,
        /// What the generator makes of that pool.
        value: Maybe<T>,
        /// What the check returned on the first value that failed.
        result: R,
    },
}

/// Whether `pool`, `value` and `result` are a failure found in checking
/// `subject` on values of `gen`: `result` is a failure that `subject` may
/// return, and `value` is what `gen` makes of the bytes of `pool` followed
/// by zeros.
pub open spec fn failure_found<G: Generator, R: CheckResult, F: Fn(G::Item) -> R>(
    gen: G,
    subject: F,
    pool: InfoPool,
    value: Maybe<G::Item>,
    result: R,
) -> bool {
    &&& result.failure()
    &&& exists|v: G::Item| #[trigger] call_ensures(subject, (v,), result)
    &&& exists|n: nat| gen.generates(#[trigger] padded(pool@, n), value)
}

/// Whether `subject` may fail on `v`.
pub open spec fn fails_on<T, R: CheckResult, F: Fn(T) -> R>(subject: F, v: T) -> bool {
    exists|res: R| #[trigger] call_ensures(subject, (v,), res) && res.failure()
}

/// Whether `subject` may return a result that is no failure on `v`.
pub open spec fn holds_on<T, R: CheckResult, F: Fn(T) -> R>(subject: F, v: T) -> bool {
    exists|res: R| #[trigger] call_ensures(subject, (v,), res) && !res.failure()
}

/// Whether `gen` generates from the bytes `d` a value on which `subject`
/// fails.
pub open spec fn still_fails<G: Generator, R: CheckResult, F: Fn(G::Item) -> R>(
    gen: G,
    subject: F,
    d: Seq<u8>,
) -> bool {
    exists|v: G::Item| #[trigger] gen.generates(d, Ok(v)) && fails_on(subject, v)
}

/// Whether `gen` fails on the bytes `d`, or generates from them a value on
/// which `subject` holds.
pub open spec fn no_longer_fails<G: Generator, R: CheckResult, F: Fn(G::Item) -> R>(
    gen: G,
    subject: F,
    d: Seq<u8>,
) -> bool {
    ||| exists|e: DataError| #[trigger] gen.generates(d, Err(e))
    ||| exists|v: G::Item| #[trigger] gen.generates(d, Ok(v)) && holds_on(subject, v)
}

/// Whether `v` is a value that `gen` may generate and on which `subject`
/// may return a result that is no failure: a test that passed.
pub open spec fn passed_on<G: Generator, R: CheckResult, F: Fn(G::Item) -> R>(
    gen: G,
    subject: F,
    v: G::Item,
) -> bool {
    &&& exists|d: Seq<u8>| #[trigger] gen.generates(d, Ok(v))
    &&& exists|res: R| #[trigger] call_ensures(subject, (v,), res) && !res.failure()
}

/// How far a run of checks has come.
#[derive(Debug, Clone, Copy, PartialEq, Eq, Structural)]
pub struct RunCounts {
    /// The tests run.
    pub tests_run: usize,
    /// The times generation was skipped.
    pub items_skipped: usize,
    /// The times generation ran out of data.
    pub failed_draws: usize,
}

/// How one attempt at a test came out.
#[derive(Debug, Clone, Copy, PartialEq, Eq, Structural)]
pub enum Attempt {
    /// A value was generated and the check held.
    Passed,
    /// A value was generated and the check failed.
    Failed,
    /// The generator skipped.
    Skipped,
    /// The generator ran out of data.
    Exhausted,
}

/// How a run of checks ended.
#[derive(Debug, Clone, Copy, PartialEq, Eq, Structural)]
pub enum RunEnd {
    /// Every test ran and passed.
    Passed,
    /// A test failed.
    Failed,
    /// Generation was skipped too often.
    TooManySkips,
    /// Generation ran out of data more often than can be counted.
    TooManyFailedDraws,
}

/// What a run does after an attempt: go on with the new counts, or end
/// with the counts as they then are.
#[derive(Debug, Clone, Copy, PartialEq, Eq, Structural)]
pub enum Step {
    /// Go on to the next attempt.
    Go(RunCounts),
    /// End the run.
    End(RunEnd, RunCounts),
}

/// Whether a run with the counts `c` goes on to another attempt under
/// `config`, and its skip count is in range.
pub open spec fn counts_ok(config: CheckConfig, c: RunCounts) -> bool {
    &&& c.tests_run < config.tests()
    &&& c.items_skipped == 0 || c.items_skipped < config.skips()
}

/// What a run with the counts `c` does after the attempt `a`: a test that
/// ran counts, and a failure ends the run; a skip counts, and ends the run
/// when it reaches the limit; running out of data counts, and ends the run
/// when it can be counted no more.
pub open spec fn step_of(config: CheckConfig, c: RunCounts, a: Attempt) -> Step {
    let ran = RunCounts {
        tests_run: (c.tests_run + 1) as usize,
        items_skipped: c.items_skipped,
        failed_draws: c.failed_draws,
    };
    let skipped = RunCounts {
        tests_run: c.tests_run,
        items_skipped: (c.items_skipped + 1) as usize,
        failed_draws: c.failed_draws,
    };
    let exhausted = RunCounts {
        tests_run: c.tests_run,
        items_skipped: c.items_skipped,
        failed_draws: (c.failed_draws + 1) as usize,
    };
    match a {
        Attempt::Passed => Step::Go(ran),
        Attempt::Failed => Step::End(RunEnd::Failed, ran),
        Attempt::Skipped => if skipped.items_skipped >= config.skips() {
            Step::End(RunEnd::TooManySkips, skipped)
        } else {
            Step::Go(skipped)
        },
        Attempt::Exhausted => if c.failed_draws == usize::MAX {
            Step::End(RunEnd::TooManyFailedDraws, c)
        } else {
            Step::Go(exhausted)
        },
    }
}

/// The counts after the attempts `trace`, from the counts `c`, when the
/// run goes on after each of them.
pub open spec fn counts_after(config: CheckConfig, c: RunCounts, trace: Seq<Attempt>) -> Option<
    RunCounts,
>
    decreases trace.len(),
{
    if trace.len() == 0 {
        Some(c)
    } else if c.tests_run >= config.tests() {
        None
    } else {
        match step_of(config, c, trace[0]) {
            Step::Go(c2) => counts_after(config, c2, trace.drop_first()),
            Step::End(_, _) => None,
        }
    }
}

/// How a run from the counts `c` ends when its attempts are `trace`: when
/// all the tests have run, or at the attempt that ends it, the last one.
pub open spec fn run_end(config: CheckConfig, c: RunCounts, trace: Seq<Attempt>) -> Option<RunEnd>
    decreases trace.len(),
{
    if trace.len() == 0 {
        if c.tests_run >= config.tests() {
            Some(RunEnd::Passed)
        } else {
            None
        }
    } else if c.tests_run >= config.tests() {
        None
    } else {
        match step_of(config, c, trace[0]) {
            Step::Go(c2) => run_end(config, c2, trace.drop_first()),
            Step::End(e, _) => if trace.len() == 1 {
                Some(e)
            } else {
                None
            },
        }
    }
}

/// One more attempt after a run that went on: the run goes on or ends as
/// that attempt says.
pub proof fn lemma_run_push(config: CheckConfig, c: RunCounts, trace: Seq<Attempt>, a: Attempt, d: RunCounts)
    requires
        counts_after(config, c, trace) == Some(d),
        d.tests_run < config.tests(),
    ensures
        step_of(config, d, a) matches Step::Go(d2) ==> counts_after(config, c, trace.push(a)) == Some(d2),
        step_of(config, d, a) matches Step::End(e, _) ==> run_end(config, c, trace.push(a)) == Some(e),
    decreases trace.len(),
{
    if trace.len() == 0 {
        assert(trace.push(a) =~= seq![a]);
        assert(seq![a].drop_first() =~= Seq::<Attempt>::empty());
        if let Step::Go(d2) = step_of(config, d, a) {
            assert(counts_after(config, d2, Seq::<Attempt>::empty()) == Some(d2));
        }
    } else {
        let c2 = step_of(config, c, trace[0])->Go_0;
        lemma_run_push(config, c2, trace.drop_first(), a, d);
        assert(trace.push(a).drop_first() =~= trace.drop_first().push(a));
        assert(trace.push(a)[0] == trace[0]);
    }
}

/// A run that went on until all its tests ran passed.
pub proof fn lemma_run_done(config: CheckConfig, c: RunCounts, trace: Seq<Attempt>, d: RunCounts)
    requires
        counts_after(config, c, trace) == Some(d),
        d.tests_run >= config.tests(),
    ensures
        run_end(config, c, trace) == Some(RunEnd::Passed),
    decreases trace.len(),
{
    if trace.len() > 0 {
        let c2 = step_of(config, c, trace[0])->Go_0;
        lemma_run_done(config, c2, trace.drop_first(), d);
    }
}

/// Works out what a run with the counts `c` does after the attempt `a`.
pub fn step(config: &CheckConfig, c: RunCounts, a: Attempt) -> (r: Step)
    requires
        counts_ok(*config, c),
    ensures
        r == step_of(*config, c, a),
{
    match a {
        Attempt::Passed => Step::Go(
            RunCounts {
                tests_run: c.tests_run + 1,
                items_skipped: c.items_skipped,
                failed_draws: c.failed_draws,
            },
        ),
        Attempt::Failed => Step::End(
            RunEnd::Failed,
            RunCounts {
                tests_run: c.tests_run + 1,
                items_skipped: c.items_skipped,
                failed_draws: c.failed_draws,
            },
        ),
        Attempt::Skipped => {
            let skipped = RunCounts {
                tests_run: c.tests_run,
                items_skipped: c.items_skipped + 1,
                failed_draws: c.failed_draws,
            };
            if skipped.items_skipped >= config.max_skips {
                Step::End(RunEnd::TooManySkips, skipped)
            } else {
                Step::Go(skipped)
            }
        },
        Attempt::Exhausted => {
            if c.failed_draws == usize::MAX {
                Step::End(RunEnd::TooManyFailedDraws, c)
            } else {
                Step::Go(
                    RunCounts {
                        tests_run: c.tests_run,
                        items_skipped: c.items_skipped,
                        failed_draws: c.failed_draws + 1,
                    },
                )
            }
        },
    }
}

/// The counts of a run that has not started.
pub open spec fn no_counts() -> RunCounts {
    RunCounts { tests_run: 0, items_skipped: 0, failed_draws: 0 }
}

/// Whether the attempt `a` can come out of checking `subject` on a value
/// drawn from `gen`.
pub open spec fn attempt_possible<G: Generator, R: CheckResult, F: Fn(G::Item) -> R>(
    gen: G,
    subject: F,
    a: Attempt,
) -> bool {
    match a {
        Attempt::Passed => exists|v: G::Item| #[trigger] passed_on(gen, subject, v),
        Attempt::Failed => exists|d: Seq<u8>, v: G::Item|
            #[trigger] gen.generates(d, Ok(v)) && fails_on(subject, v),
        Attempt::Skipped => exists|d: Seq<u8>| #[trigger] gen.generates(d, Err(DataError::SkipItem)),
        Attempt::Exhausted => exists|d: Seq<u8>|
            #[trigger] gen.generates(d, Err(DataError::PoolExhausted)),
    }
}

/// How the outcome `o` ended the run.
pub open spec fn end_of<T, R>(o: CheckOutcome<T, R>) -> RunEnd {
    match o {
        CheckOutcome::Passed => RunEnd::Passed,
        CheckOutcome::TooManySkips { .. } => RunEnd::TooManySkips,
        CheckOutcome::TooManyFailedDraws { .. } => RunEnd::TooManyFailedDraws,
        CheckOutcome::Failed { .. } => RunEnd::Failed,
    }
}

impl<G: Generator> Property<G> {
    /// Use this function to specify the thing you wish to check: it is run
    /// on values drawn at random until the configured number of tests have
    /// run, the generator has skipped too often, or a test fails. A failing
    /// input is shrunk to the smallest one that still fails.
    pub fn check<R: CheckResult, F: Fn(G::Item) -> R>(self, subject: F) -> (r: CheckOutcome<
        G::Item,
        R,
    >)
        requires
            self.generator().wf(),
            forall|v: G::Item| #[trigger] call_requires(subject, (v,)),
        ensures
            r matches CheckOutcome::TooManySkips { tests_run, num_tests, items_skipped } ==> {
                &&& num_tests == self.config().tests()
                &&& tests_run < num_tests
                &&& items_skipped >= self.config().skips()
                &&& items_skipped >= 1
                &&& items_skipped == if self.config().skips() == 0 {
                    1
                } else {
                    self.config().skips()
                }
                &&& exists|skips: Seq<Seq<u8>>|
                    skips.len() == items_skipped && forall|i: int|
                        0 <= i < skips.len() ==> self.generator().generates(
                            #[trigger] skips[i],
                            Err(DataError::SkipItem),
                        )
                &&& exists|runs: Seq<G::Item>|
                    runs.len() == tests_run && forall|i: int|
                        0 <= i < runs.len() ==> passed_on(self.generator(), subject, #[trigger] runs[i])
            },
            r matches CheckOutcome::TooManyFailedDraws { tests_run } ==> {
                &&& tests_run < self.config().tests()
                &&& exists|runs: Seq<G::Item>|
                    runs.len() == tests_run && forall|i: int|
                        0 <= i < runs.len() ==> passed_on(self.generator(), subject, #[trigger] runs[i])
                &&& exists|fails: Seq<Seq<u8>>|
                    fails.len() == usize::MAX + 1 && forall|i: int|
                        0 <= i < fails.len() ==> self.generator().generates(
                            #[trigger] fails[i],
                            Err(DataError::PoolExhausted),
                        )
            },
            r matches CheckOutcome::Failed { pool: minp, value, result } ==> exists|orig: InfoPool, arg: G::Item|
                #![trigger self.generator().generates(orig@, Ok(arg))]
                self.generator().generates(orig@, Ok(arg)) && call_ensures(subject, (arg,), result) && result.failure() && failure_found(
                self.generator(),
                subject,
                minp,
                value,
                result,
            ) && ((minp@ == orig@ && minp.span_list() == orig.span_list()) || still_fails(
                self.generator(),
                subject,
                minp@,
            )) && exists|hist: Seq<Seq<u8>>, pools: Seq<InfoPool>|
                #![trigger shrink_path(orig, hist, pools, minp)]
                shrink_path(orig, hist, pools, minp) && (forall|st: (Seq<u8>, InfoPool)|
                    #[trigger] shrink_steps(hist, pools).contains(st) ==> still_fails(
                        self.generator(),
                        subject,
                        st.1@,
                    ) && exists|rec: &mut InfoRecorder<InfoReplay>|
                        #[trigger] starts_on(*rec, st.0) && st.1@ == final(rec).recorded()
                            && st.1.span_list() == final(rec).recorded_spans()) && (forall|i: int|
                    #![trigger shrink_candidates(minp)[i]]
                    0 <= i < shrink_candidates(minp).len() ==> hist.contains(
                        shrink_candidates(minp)[i],
                    ) || exists|rec: &mut InfoRecorder<InfoReplay>|
                        #[trigger] starts_on(*rec, shrink_candidates(minp)[i]) && no_longer_fails(
                            self.generator(),
                            subject,
                            final(rec).recorded(),
                        )),
            r is Passed ==> exists|runs: Seq<G::Item>|
                runs.len() == self.config().tests() && forall|i: int|
                    0 <= i < runs.len() ==> passed_on(self.generator(), subject, #[trigger] runs[i]),
            exists|trace: Seq<Attempt>|
                #![trigger run_end(self.config(), no_counts(), trace)]
                run_end(self.config(), no_counts(), trace) == Some(end_of(r)) && forall|i: int|
                    0 <= i < trace.len() ==> attempt_possible(
                        self.generator(),
                        subject,
                        #[trigger] trace[i],
                    ),
    {
        let mut stats = RunCounts { tests_run: 0, items_skipped: 0, failed_draws: 0 };
        let ghost mut trace: Seq<Attempt> = Seq::empty();
        let ghost mut runs: Seq<G::Item> = Seq::empty();
        let ghost mut skips: Seq<Seq<u8>> = Seq::empty();
        let ghost mut fails: Seq<Seq<u8>> = Seq::empty();
        while stats.tests_run < self.config.num_tests
            invariant
                skips.len() == stats.items_skipped,
                forall|i: int|
                    0 <= i < skips.len() ==> self.generator().generates(
                        #[trigger] skips[i],
                        Err(DataError::SkipItem),
                    ),
                fails.len() == stats.failed_draws,
                forall|i: int|
                    0 <= i < fails.len() ==> self.generator().generates(
                        #[trigger] fails[i],
                        Err(DataError::PoolExhausted),
                    ),
                self.generator().wf(),
                forall|v: G::Item| #[trigger] call_requires(subject, (v,)),
                stats.items_skipped == 0 || stats.items_skipped < self.config.max_skips,
                runs.len() == stats.tests_run,
                stats.tests_run <= self.config.num_tests,
                forall|i: int|
                    0 <= i < runs.len() ==> passed_on(self.generator(), subject, #[trigger] runs[i]),
                counts_after(self.config(), no_counts(), trace) == Some(stats),
                forall|i: int|
                    0 <= i < trace.len() ==> attempt_possible(
                        self.generator(),
                        subject,
                        #[trigger] trace[i],
                    ),
            decreases
                self.config.num_tests - stats.tests_run,
                self.config.max_skips - stats.items_skipped,
                usize::MAX - stats.failed_draws,
        {
            let ghost before = stats.tests_run;
            let ghost skipped_before = stats.items_skipped;
            let ghost failed_before = stats.failed_draws;
            let ghost counts_before = stats;
            let found = self.try_one(&mut stats, &subject);
            proof {
                let a = choose|a: Attempt|
                    #![trigger attempt_possible(self.generator(), subject, a)]
                    attempt_possible(self.generator(), subject, a) && match step_of(
                        self.config(),
                        counts_before,
                        a,
                    ) {
                        Step::Go(c2) => found is None && stats == c2,
                        Step::End(e, c2) => found is Some && end_of(found->0) == e && stats == c2,
                    };
                lemma_run_push(self.config(), no_counts(), trace, a, counts_before);
                let t2 = trace.push(a);
                assert forall|i: int| 0 <= i < t2.len() implies attempt_possible(
                    self.generator(),
                    subject,
                    #[trigger] t2[i],
                ) by {
                    if i < trace.len() {
                        assert(t2[i] == trace[i]);
                    }
                }
                trace = t2;
            }
            match found {
                Some(outcome) => {
                    proof {
                        if outcome is Failed {
                            let minp = outcome->pool;
                            let value = outcome->value;
                            let result = outcome->result;
                            let (orig, arg) = choose|orig: InfoPool, arg: G::Item|
                                #![trigger self.generator().generates(orig@, Ok(arg))]
                                self.generator().generates(orig@, Ok(arg)) && call_ensures(subject, (arg,), result) && result.failure() && failure_found(
                self.generator(),
                subject,
                minp,
                value,
                result,
            ) && ((minp@ == orig@ && minp.span_list() == orig.span_list()) || still_fails(
                self.generator(),
                subject,
                minp@,
            )) && exists|hist: Seq<Seq<u8>>, pools: Seq<InfoPool>|
                #![trigger shrink_path(orig, hist, pools, minp)]
                shrink_path(orig, hist, pools, minp) && (forall|st: (Seq<u8>, InfoPool)|
                    #[trigger] shrink_steps(hist, pools).contains(st) ==> still_fails(
                        self.generator(),
                        subject,
                        st.1@,
                    ) && exists|rec: &mut InfoRecorder<InfoReplay>|
                        #[trigger] starts_on(*rec, st.0) && st.1@ == final(rec).recorded()
                            && st.1.span_list() == final(rec).recorded_spans()) && (forall|i: int|
                    #![trigger shrink_candidates(minp)[i]]
                    0 <= i < shrink_candidates(minp).len() ==> hist.contains(
                        shrink_candidates(minp)[i],
                    ) || exists|rec: &mut InfoRecorder<InfoReplay>|
                        #[trigger] starts_on(*rec, shrink_candidates(minp)[i]) && no_longer_fails(
                            self.generator(),
                            subject,
                            final(rec).recorded(),
                        ));
                            assert(self.generator().generates(orig@, Ok(arg)));
                        }
                        if outcome is TooManySkips {
                            let d = choose|d: Seq<u8>|
                                self.generator().generates(d, Err(DataError::SkipItem));
                            let sk = skips.push(d);
                            assert(forall|i: int|
                                0 <= i < sk.len() - 1 ==> sk[i] == skips[i]);
                            assert(sk.len() == stats.items_skipped);
                        }
                        if outcome is TooManyFailedDraws {
                            let d = choose|d: Seq<u8>|
                                self.generator().generates(d, Err(DataError::PoolExhausted));
                            let fl = fails.push(d);
                            assert(forall|i: int|
                                0 <= i < fl.len() - 1 ==> fl[i] == fails[i]);
                            assert(fl.len() == usize::MAX + 1);
                            assert(forall|i: int|
                                0 <= i < fl.len() ==> self.generator().generates(
                                    #[trigger] fl[i],
                                    Err(DataError::PoolExhausted),
                                ));
                        }
                    }
                    return outcome;
                },
                None => {},
            }
            proof {
                if stats.items_skipped > skipped_before {
                    let d = choose|d: Seq<u8>|
                        self.generator().generates(d, Err(DataError::SkipItem));
                    skips = skips.push(d);
                    assert(forall|i: int|
                        0 <= i < skips.len() - 1 ==> skips[i] == skips.drop_last()[i]);
                }
                if stats.failed_draws > failed_before {
                    let d = choose|d: Seq<u8>|
                        self.generator().generates(d, Err(DataError::PoolExhausted));
                    fails = fails.push(d);
                    assert(forall|i: int|
                        0 <= i < fails.len() - 1 ==> fails[i] == fails.drop_last()[i]);
                }
                if stats.tests_run > before {
                    let v = choose|v: G::Item| passed_on(self.generator(), subject, v);
                    runs = runs.push(v);
                    assert(forall|i: int|
                        0 <= i < runs.len() - 1 ==> runs[i] == runs.drop_last()[i]);
                }
            }
        }
        assert(runs.len() == self.config().tests());
        proof {
            lemma_run_done(self.config(), no_counts(), trace, stats);
        }
        CheckOutcome::Passed
    }

    /// Draws one value from a fresh random source and checks it.
    fn try_one<R: CheckResult, F: Fn(G::Item) -> R>(&self, stats: &mut RunCounts, subject: &F) -> (r:
        Option<CheckOutcome<G::Item, R>>)
        requires
            self.generator().wf(),
            forall|v: G::Item| #[trigger] call_requires(*subject, (v,)),
            old(stats).tests_run < self.config().tests(),
            old(stats).items_skipped == 0 || old(stats).items_skipped < self.config().skips(),
        ensures
            r matches Some(CheckOutcome::TooManySkips { tests_run, num_tests, items_skipped })
                ==> {
                &&& num_tests == self.config().tests()
                &&& tests_run < num_tests
                &&& items_skipped >= self.config().skips()
                &&& items_skipped >= 1
                &&& tests_run == old(stats).tests_run
                &&& items_skipped == old(stats).items_skipped + 1
                &&& final(stats).items_skipped == items_skipped
                &&& exists|d: Seq<u8>| self.generator().generates(d, Err(DataError::SkipItem))
            },
            r matches Some(CheckOutcome::TooManyFailedDraws { tests_run }) ==> {
                &&& tests_run < self.config().tests()
                &&& tests_run == old(stats).tests_run
                &&& old(stats).failed_draws == usize::MAX
                &&& exists|d: Seq<u8>| self.generator().generates(d, Err(DataError::PoolExhausted))
            },
            r matches Some(CheckOutcome::Failed { pool: minp, value, result }) ==> exists|orig: InfoPool, arg: G::Item|
                #![trigger self.generator().generates(orig@, Ok(arg))]
                self.generator().generates(orig@, Ok(arg)) && call_ensures(*subject, (arg,), result) && result.failure() && failure_found(
                self.generator(),
                *subject,
                minp,
                value,
                result,
            ) && ((minp@ == orig@ && minp.span_list() == orig.span_list()) || still_fails(
                self.generator(),
                *subject,
                minp@,
            )) && exists|hist: Seq<Seq<u8>>, pools: Seq<InfoPool>|
                #![trigger shrink_path(orig, hist, pools, minp)]
                shrink_path(orig, hist, pools, minp) && (forall|st: (Seq<u8>, InfoPool)|
                    #[trigger] shrink_steps(hist, pools).contains(st) ==> still_fails(
                        self.generator(),
                        *subject,
                        st.1@,
                    ) && exists|rec: &mut InfoRecorder<InfoReplay>|
                        #[trigger] starts_on(*rec, st.0) && st.1@ == final(rec).recorded()
                            && st.1.span_list() == final(rec).recorded_spans()) && (forall|i: int|
                    #![trigger shrink_candidates(minp)[i]]
                    0 <= i < shrink_candidates(minp).len() ==> hist.contains(
                        shrink_candidates(minp)[i],
                    ) || exists|rec: &mut InfoRecorder<InfoReplay>|
                        #[trigger] starts_on(*rec, shrink_candidates(minp)[i]) && no_longer_fails(
                            self.generator(),
                            *subject,
                            final(rec).recorded(),
                        )),
            r is Some ==> !(r matches Some(CheckOutcome::Passed)),
            exists|a: Attempt|
                #![trigger attempt_possible(self.generator(), *subject, a)]
                attempt_possible(self.generator(), *subject, a) && match step_of(
                    self.config(),
                    *old(stats),
                    a,
                ) {
                    Step::Go(c2) => r is None && *final(stats) == c2,
                    Step::End(e, c2) => r is Some && end_of(r->0) == e && *final(stats) == c2,
                },
            exists|d: Seq<u8>, g: Maybe<G::Item>|
                #![trigger self.generator().generates(d, g)]
                self.generator().generates(d, g) && match g {
                    Ok(v) => {
                        &&& final(stats).tests_run == old(stats).tests_run + 1
                        &&& final(stats).items_skipped == old(stats).items_skipped
                        &&& final(stats).failed_draws == old(stats).failed_draws
                        &&& r is None ==> holds_on(*subject, v)
                        &&& r is Some ==> (r matches Some(CheckOutcome::Failed { result, .. })
                            && call_ensures(*subject, (v,), result) && result.failure())
                    },
                    Err(DataError::SkipItem) => {
                        &&& final(stats).tests_run == old(stats).tests_run
                        &&& final(stats).items_skipped == old(stats).items_skipped + 1
                        &&& final(stats).failed_draws == old(stats).failed_draws
                        &&& (r is Some <==> final(stats).items_skipped >= self.config().skips())
                        &&& r is Some ==> (r matches Some(CheckOutcome::TooManySkips { .. }))
                    },
                    Err(DataError::PoolExhausted) => {
                        &&& final(stats).tests_run == old(stats).tests_run
                        &&& final(stats).items_skipped == old(stats).items_skipped
                        &&& (r is Some <==> old(stats).failed_draws == usize::MAX)
                        &&& r is Some ==> (r matches Some(CheckOutcome::TooManyFailedDraws { .. }))
                        &&& r is None ==> final(stats).failed_draws == old(stats).failed_draws + 1
                    },
                },
            r is None ==> {
                ||| {
                    &&& final(stats).tests_run == old(stats).tests_run + 1
                    &&& final(stats).items_skipped == old(stats).items_skipped
                    &&& final(stats).failed_draws == old(stats).failed_draws
                    &&& exists|v: G::Item| passed_on(self.generator(), *subject, v)
                }
                ||| {
                    &&& final(stats).tests_run == old(stats).tests_run
                    &&& final(stats).items_skipped == old(stats).items_skipped + 1
                    &&& final(stats).items_skipped < self.config().skips()
                    &&& final(stats).failed_draws == old(stats).failed_draws
                    &&& exists|d: Seq<u8>| self.generator().generates(d, Err(DataError::SkipItem))
                }
                ||| {
                    &&& final(stats).tests_run == old(stats).tests_run
                    &&& final(stats).items_skipped == old(stats).items_skipped
                    &&& final(stats).failed_draws == old(stats).failed_draws + 1
                    &&& exists|d: Seq<u8>|
                        self.generator().generates(d, Err(DataError::PoolExhausted))
                }
            },
    {
        let src = RngSource::new();
        let mut rec = InfoRecorder::new(src);
        proof {
            lemma_recorder_drawn_is_recorded(rec);
        }
        let ghost old_drawn = rec.drawn();
        let result = self.gen.generate(&mut rec);
        let ghost rec_drawn = rec.drawn();
        proof {
            lemma_recorder_drawn_is_recorded(rec);
            assert(old_drawn.len() == 0);
            assert(drawn_since(old_drawn, rec_drawn) =~= rec_drawn);
        }
        let pool = rec.into_pool();
        match result {
            Ok(arg) => {
                let ghost d = drawn_since(old_drawn, rec_drawn);
                proof {
                    assert(pool@ =~= d);
                    assert(self.generator().generates(pool@, Ok(arg)));
                }
                let r = self.try_example(subject, pool, arg);
                let attempt = if r.is_some() {
                    Attempt::Failed
                } else {
                    Attempt::Passed
                };
                proof {
                    if r is None {
                        assert(self.generator().generates(d, Ok(arg)));
                        assert(passed_on(self.generator(), *subject, arg));
                    } else {
                        assert(self.generator().generates(d, Ok(arg)) && fails_on(*subject, arg));
                    }
                    assert(attempt_possible(self.generator(), *subject, attempt));
                }
                match step(&self.config, *stats, attempt) {
                    Step::Go(next) => {
                        *stats = next;
                    },
                    Step::End(_, next) => {
                        *stats = next;
                    },
                }
                r
            },
            Err(DataError::SkipItem) => {
                assert(self.generator().generates(
                    drawn_since(old_drawn, rec_drawn),
                    Err(DataError::SkipItem),
                ));
                assert(attempt_possible(self.generator(), *subject, Attempt::Skipped));
                match step(&self.config, *stats, Attempt::Skipped) {
                    Step::Go(next) => {
                        *stats = next;
                        None
                    },
                    Step::End(_, next) => {
                        *stats = next;
                        Some(
                            CheckOutcome::TooManySkips {
                                tests_run: next.tests_run,
                                num_tests: self.config.num_tests,
                                items_skipped: next.items_skipped,
                            },
                        )
                    },
                }
            },
            Err(DataError::PoolExhausted) => {
                assert(self.generator().generates(
                    drawn_since(old_drawn, rec_drawn),
                    Err(DataError::PoolExhausted),
                ));
                assert(attempt_possible(self.generator(), *subject, Attempt::Exhausted));
                match step(&self.config, *stats, Attempt::Exhausted) {
                    Step::Go(next) => {
                        *stats = next;
                        None
                    },
                    Step::End(_, next) => {
                        *stats = next;
                        Some(CheckOutcome::TooManyFailedDraws { tests_run: next.tests_run })
                    },
                }
            },
        }
    }

    /// Checks `arg`, drawn as `pool`; when the check fails, shrinks the pool
    /// to the smallest one found that still fails.
    fn try_example<R: CheckResult, F: Fn(G::Item) -> R>(
        &self,
        subject: &F,
        pool: InfoPool,
        arg: G::Item,
    ) -> (r: Option<CheckOutcome<G::Item, R>>)
        requires
            self.generator().wf(),
            forall|v: G::Item| #[trigger] call_requires(*subject, (v,)),
        ensures
            r is Some ==> (r matches Some(CheckOutcome::Failed { pool: minp, value, result }) && call_ensures(*subject, (arg,), result) && result.failure() && failure_found(
                self.generator(),
                *subject,
                minp,
                value,
                result,
            ) && ((minp@ == pool@ && minp.span_list() == pool.span_list()) || still_fails(
                self.generator(),
                *subject,
                minp@,
            )) && exists|hist: Seq<Seq<u8>>, pools: Seq<InfoPool>|
                #![trigger shrink_path(pool, hist, pools, minp)]
                shrink_path(pool, hist, pools, minp) && (forall|st: (Seq<u8>, InfoPool)|
                    #[trigger] shrink_steps(hist, pools).contains(st) ==> still_fails(
                        self.generator(),
                        *subject,
                        st.1@,
                    ) && exists|rec: &mut InfoRecorder<InfoReplay>|
                        #[trigger] starts_on(*rec, st.0) && st.1@ == final(rec).recorded()
                            && st.1.span_list() == final(rec).recorded_spans()) && (forall|i: int|
                    #![trigger shrink_candidates(minp)[i]]
                    0 <= i < shrink_candidates(minp).len() ==> hist.contains(
                        shrink_candidates(minp)[i],
                    ) || exists|rec: &mut InfoRecorder<InfoReplay>|
                        #[trigger] starts_on(*rec, shrink_candidates(minp)[i]) && no_longer_fails(
                            self.generator(),
                            *subject,
                            final(rec).recorded(),
                        ))),
            r is None ==> exists|res: R| call_ensures(*subject, (arg,), res) && !res.failure(),
    {
        let res = subject(arg);
        if res.is_failure() {
            let check = |v: G::Item| -> (b: bool)
                ensures
                    b ==> fails_on(*subject, v),
                    !b ==> holds_on(*subject, v),
                { subject(v).is_failure() };
            let ghost orig = pool;
            let minpool = find_minimal(&self.gen, pool, check);
            let value = self.gen.generate_from(&minpool);
            assert(call_ensures(*subject, (arg,), res));
            assert(failure_found(self.gen, *subject, minpool, value, res));
            proof {
                let g = self.gen;
                assert forall|d: Seq<u8>| passes_check(g, check, d) implies still_fails(
                    g,
                    *subject,
                    d,
                ) by {
                    let v = choose|v: G::Item| g.generates(d, Ok(v)) && #[trigger] call_ensures(check, (v,), true);
                    assert(g.generates(d, Ok(v)) && fails_on(*subject, v));
                }
                assert forall|d: Seq<u8>| fails_check(g, check, d) implies no_longer_fails(
                    g,
                    *subject,
                    d,
                ) by {
                    if !(exists|e: DataError| #[trigger] g.generates(d, Err(e))) {
                        let v = choose|v: G::Item| #[trigger] g.generates(d, Ok(v)) && call_ensures(check, (v,), false);
                        assert(g.generates(d, Ok(v)) && holds_on(*subject, v));
                    }
                }
                if !(minpool@ == orig@ && minpool.span_list() == orig.span_list()) {
                    assert(passes_check(g, check, minpool@));
                }
                let (hist, pools) = choose|hist: Seq<Seq<u8>>, pools: Seq<InfoPool>|
                    #![trigger shrink_path(orig, hist, pools, minpool)]
                    {
                        &&& shrink_path(orig, hist, pools, minpool)
                        &&& forall|st: (Seq<u8>, InfoPool)|
                            #[trigger] shrink_steps(hist, pools).contains(st) ==> passes_check(
                                g,
                                check,
                                st.1@,
                            ) && exists|rec: &mut InfoRecorder<InfoReplay>|
                                #[trigger] starts_on(*rec, st.0) && st.1@ == final(rec).recorded()
                                    && st.1.span_list() == final(rec).recorded_spans()
                        &&& forall|i: int|
                            #![trigger shrink_candidates(minpool)[i]]
                            0 <= i < shrink_candidates(minpool).len() ==> hist.contains(shrink_candidates(minpool)[i])
                                || exists|rec: &mut InfoRecorder<InfoReplay>|
                                #[trigger] starts_on(*rec, shrink_candidates(minpool)[i]) && fails_check(g, check, final(rec).recorded())
                    };
                assert forall|st: (Seq<u8>, InfoPool)|
                    #[trigger] shrink_steps(hist, pools).contains(st) implies still_fails(
                        g,
                        *subject,
                        st.1@,
                    ) && exists|rec: &mut InfoRecorder<InfoReplay>|
                        #[trigger] starts_on(*rec, st.0) && st.1@ == final(rec).recorded()
                            && st.1.span_list() == final(rec).recorded_spans() by {
                    assert(passes_check(g, check, st.1@));
                }
                assert forall|i: int|
                    #![trigger shrink_candidates(minpool)[i]]
                    0 <= i < shrink_candidates(minpool).len() implies hist.contains(shrink_candidates(minpool)[i])
                        || exists|rec: &mut InfoRecorder<InfoReplay>|
                        #[trigger] starts_on(*rec, shrink_candidates(minpool)[i]) && no_longer_fails(g, *subject, final(rec).recorded()) by {
                    let c = shrink_candidates(minpool)[i];
                    if !hist.contains(c) {
                        let w = choose|rec: &mut InfoRecorder<InfoReplay>|
                            #[trigger] starts_on(*rec, c) && fails_check(g, check, final(rec).recorded());
                        assert(starts_on(*w, c));
                    }
                assert(shrink_path(pool, hist, pools, minpool));
                assert(still_fails(g, *subject, minpool@) || (minpool@ == pool@ && minpool.span_list() == pool.span_list()));
                assert(forall|st: (Seq<u8>, InfoPool)|
                    #[trigger] shrink_steps(hist, pools).contains(st) ==> still_fails(
                        self.generator(),
                        *subject,
                        st.1@,
                    ) && exists|rec: &mut InfoRecorder<InfoReplay>|
                        #[trigger] starts_on(*rec, st.0) && st.1@ == final(rec).recorded()
                            && st.1.span_list() == final(rec).recorded_spans());
                assert(forall|i: int|
                    #![trigger shrink_candidates(minpool)[i]]
                    0 <= i < shrink_candidates(minpool).len() ==> hist.contains(
                        shrink_candidates(minpool)[i],
                    ) || exists|rec: &mut InfoRecorder<InfoReplay>|
                        #[trigger] starts_on(*rec, shrink_candidates(minpool)[i]) && no_longer_fails(
                            self.generator(),
                            *subject,
                            final(rec).recorded(),
                        ));
                }
            }
            Some(CheckOutcome::Failed { pool: minpool, value, result: res })
        } else {
            assert(call_ensures(*subject, (arg,), res) && !res.failure());
            None
        }
    }
}

} // verus!
