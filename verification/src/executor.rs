//! The order in which the combinations are run, with no more than a fixed
//! number of processes in flight.
//!
//! [`Executor`] does not start or await a process itself. It says what is to
//! be done next ([`Action`]), is told how that went ([`Event`]), and keeps the
//! window of processes in flight, the list of failures and the count of
//! combinations run. The window is first in, first out: when it is full, the
//! process that was started first is awaited before the next one is started,
//! whichever process may have ended first.
use crate::sequences::{lemma_cloned_row, lemma_pushed_row};
use std::collections::VecDeque;
use vstd::prelude::*;

verus! {

/// A command and the combinations with which it is run.
#[derive(Debug)]
pub struct Job {
    /// The program and the arguments that every run of it gets.
    pub command: Vec<String>,
    /// The combinations, in the order in which they are run.
    pub combinations: Vec<Vec<(String, String)>>,
}

/// The model of a job.
pub struct JobView {
    pub command: Seq<Seq<char>>,
    pub combinations: Seq<Seq<(Seq<char>, Seq<char>)>>,
}

impl View for Job {
    type V = JobView;

    open spec fn view(&self) -> JobView {
        JobView {
            command: self.command.deep_view(),
            combinations: self.combinations.deep_view(),
        }
    }
}

/// The models of the jobs of a vector.
pub open spec fn job_views(jobs: Seq<Job>) -> Seq<JobView> {
    Seq::new(jobs.len(), |i: int| jobs[i]@)
}

/// The arguments that a combination adds to a command: of each pair the name,
/// if it is not empty, and then the value, if it is not empty.
pub open spec fn arguments(combination: Seq<(Seq<char>, Seq<char>)>) -> Seq<Seq<char>>
    decreases combination.len(),
{
    if combination.len() == 0 {
        Seq::empty()
    } else {
        let (name, value) = combination.last();
        arguments(combination.drop_last()) + (if name.len() > 0 {
            seq![name]
        } else {
            Seq::empty()
        }) + (if value.len() > 0 {
            seq![value]
        } else {
            Seq::empty()
        })
    }
}

/// The tokens of one run: the command, then the arguments of the combination.
pub open spec fn invocation(
    command: Seq<Seq<char>>,
    combination: Seq<(Seq<char>, Seq<char>)>,
) -> Seq<Seq<char>> {
    command + arguments(combination)
}

/// The runs of one job, in order.
pub open spec fn invocations(job: JobView) -> Seq<Seq<Seq<char>>> {
    Seq::new(job.combinations.len(), |i: int| invocation(job.command, job.combinations[i]))
}

/// The runs of all jobs: those of the first job, then those of the second,
/// and so on.
pub open spec fn plan_of(jobs: Seq<JobView>) -> Seq<Seq<Seq<char>>>
    decreases jobs.len(),
{
    if jobs.len() == 0 {
        Seq::empty()
    } else {
        plan_of(jobs.drop_last()) + invocations(jobs.last())
    }
}

/// The number of combinations of all jobs together.
pub open spec fn combination_count(jobs: Seq<JobView>) -> nat
    decreases jobs.len(),
{
    if jobs.len() == 0 {
        0
    } else {
        combination_count(jobs.drop_last()) + jobs.last().combinations.len()
    }
}

/// A run as it is shown and reported: every token followed by a space.
pub open spec fn command_line(tokens: Seq<Seq<char>>) -> Seq<char>
    decreases tokens.len(),
{
    if tokens.len() == 0 {
        Seq::empty()
    } else {
        command_line(tokens.drop_last()) + tokens.last() + seq![' ']
    }
}

/// The tokens of one run of `command` with `combination`.
pub fn build_invocation(command: &Vec<String>, combination: &Vec<(String, String)>) -> (r: Vec<
    String,
>)
    ensures
        r.deep_view() == invocation(command.deep_view(), combination.deep_view()),
{
    let mut out = command.clone();
    proof {
        lemma_cloned_row(*command, out);
        assert(combination.deep_view().take(0) =~= Seq::empty());
        assert(out.deep_view() + Seq::<Seq<char>>::empty() =~= out.deep_view());
    }
    let mut at: usize = 0;
    while at < combination.len()
        invariant
            at <= combination.len(),
            out.deep_view() == command.deep_view() + arguments(
                combination.deep_view().take(at as int),
            ),
        decreases combination.len() - at,
    {
        let ghost seen = combination.deep_view().take(at as int);
        let ghost start = out.deep_view();
        let pair = &combination[at];
        proof {
            assert(combination.deep_view()[at as int] == (pair.0@, pair.1@));
            assert(combination.deep_view().take(at + 1).drop_last() =~= seen);
            assert(combination.deep_view().take(at + 1).last() == (pair.0@, pair.1@));
        }
        if !pair.0.as_str().is_empty() {
            let name = pair.0.clone();
            let ghost before = out;
            out.push(name);
            proof {
                lemma_pushed_row(before, out, name);
            }
        }
        let ghost middle = out.deep_view();
        if !pair.1.as_str().is_empty() {
            let value = pair.1.clone();
            let ghost before = out;
            out.push(value);
            proof {
                lemma_pushed_row(before, out, value);
            }
        }
        proof {
            let named: Seq<Seq<char>> = if pair.0@.len() > 0 {
                seq![pair.0@]
            } else {
                Seq::empty()
            };
            let valued: Seq<Seq<char>> = if pair.1@.len() > 0 {
                seq![pair.1@]
            } else {
                Seq::empty()
            };
            assert(middle =~= start + named);
            assert(out.deep_view() =~= middle + valued);
            assert(out.deep_view() =~= command.deep_view() + (arguments(seen) + named + valued));
        }
        at += 1;
    }
    assert(combination.deep_view().take(at as int) =~= combination.deep_view());
    out
}

/// The tokens of a run as it is shown and reported: every token followed by
/// a space.
pub fn command_string(tokens: &Vec<String>) -> (r: String)
    ensures
        r@ == command_line(tokens.deep_view()),
{
    let mut out = String::new();
    let mut at: usize = 0;
    assert(tokens.deep_view().take(0) =~= Seq::empty());
    while at < tokens.len()
        invariant
            at <= tokens.len(),
            out@ == command_line(tokens.deep_view().take(at as int)),
        decreases tokens.len() - at,
    {
        proof {
            reveal_strlit(" ");
            assert(" "@ =~= seq![' ']);
            assert(tokens.deep_view().take(at + 1).drop_last() =~= tokens.deep_view().take(
                at as int,
            ));
            assert(tokens.deep_view().take(at + 1).last() == tokens[at as int]@);
        }
        out.append(tokens[at].as_str());
        out.append(" ");
        at += 1;
    }
    assert(tokens.deep_view().take(at as int) =~= tokens.deep_view());
    out
}

/// The runs of all `jobs`, in the order in which they are started.
pub fn build_plan(jobs: &Vec<Job>) -> (r: Vec<Vec<String>>)
    ensures
        r.deep_view() == plan_of(job_views(jobs@)),
{
    let ghost all = job_views(jobs@);
    let mut plan: Vec<Vec<String>> = Vec::new();
    let mut j: usize = 0;
    assert(all.take(0) =~= Seq::empty());
    assert(plan.deep_view() =~= Seq::empty());
    while j < jobs.len()
        invariant
            all == job_views(jobs@),
            j <= jobs.len(),
            plan.deep_view() == plan_of(all.take(j as int)),
        decreases jobs.len() - j,
    {
        let job = &jobs[j];
        let ghost done = plan.deep_view();
        proof {
            assert(all.take(j + 1).drop_last() =~= all.take(j as int));
            assert(all.take(j + 1).last() == job@);
            assert(done + invocations(job@).take(0) =~= done);
        }
        let mut c: usize = 0;
        while c < job.combinations.len()
            invariant
                c <= job.combinations.len(),
                plan.deep_view() == done + invocations(job@).take(c as int),
            decreases job.combinations.len() - c,
        {
            let tokens = build_invocation(&job.command, &job.combinations[c]);
            let ghost before = plan;
            plan.push(tokens);
            proof {
                lemma_pushed_row(before, plan, tokens);
                assert(job@.combinations[c as int] == job.combinations[c as int].deep_view());
                assert(plan.deep_view() =~= done + invocations(job@).take(c + 1));
            }
            c += 1;
        }
        assert(invocations(job@).take(c as int) =~= invocations(job@));
        j += 1;
    }
    assert(all.take(j as int) =~= all);
    plan
}

/// How what the executor asked for has gone.
#[derive(Clone, Copy, Debug, PartialEq, Eq, Structural)]
pub enum Event {
    /// The command line of a dry run has been shown.
    Shown,
    /// The process has been started.
    Started,
    /// The process could not be started because there is no such program.
    NotFound,
    /// The process could not be started for another reason.
    Failed,
    /// The awaited process has ended; `success` is false where its exit status
    /// was not zero, or where waiting for it failed.
    Exited { success: bool },
}

/// What is to be done next.
#[derive(Debug, PartialEq, Eq)]
pub enum Action {
    /// Show these tokens as a command line, and start nothing.
    Print(Vec<String>),
    /// Show these tokens as a command line, and start the program that the
    /// first names with the others as its arguments.
    Spawn(Vec<String>),
    /// Wait for the process that was started first among those in flight.
    Wait,
    /// Give up at once: the program does not exist.
    Abort,
    /// Nothing is left to do.
    Finish,
}

/// The model of an action.
pub enum ActionView {
    Print(Seq<Seq<char>>),
    Spawn(Seq<Seq<char>>),
    Wait,
    Abort,
    Finish,
}

impl View for Action {
    type V = ActionView;

    open spec fn view(&self) -> ActionView {
        match self {
            Action::Print(tokens) => ActionView::Print(tokens.deep_view()),
            Action::Spawn(tokens) => ActionView::Spawn(tokens.deep_view()),
            Action::Wait => ActionView::Wait,
            Action::Abort => ActionView::Abort,
            Action::Finish => ActionView::Finish,
        }
    }
}

/// The model of the state of a run.
pub struct ExecutorView {
    /// The tokens of every run, in the order in which the runs are started.
    pub plan: Seq<Seq<Seq<char>>>,
    /// How many processes may be in flight at a time.
    pub runners: nat,
    /// Whether the runs are only shown.
    pub dry_run: bool,
    /// Whether the processes still in flight at the end are left alone.
    pub background: bool,
    /// How many runs of the plan have been dealt with.
    pub next: nat,
    /// The command lines of the processes in flight, the oldest first.
    pub window: Seq<Seq<char>>,
    /// The command lines of the processes that failed, in the order in which
    /// their failure was seen.
    pub failures: Seq<Seq<char>>,
    /// How many runs were shown or started.
    pub count_run: nat,
    /// Whether a program was not found.
    pub aborted: bool,
}

impl ExecutorView {
    /// The state before anything has been done.
    pub open spec fn initial(
        plan: Seq<Seq<Seq<char>>>,
        runners: nat,
        dry_run: bool,
        background: bool,
    ) -> ExecutorView {
        ExecutorView {
            plan,
            runners,
            dry_run,
            background,
            next: 0,
            window: Seq::empty(),
            failures: Seq::empty(),
            count_run: 0,
            aborted: false,
        }
    }

    /// What holds of every state of a run: there is at least one runner; no
    /// more processes are in flight than there are runners; no more runs are
    /// counted than were dealt with; and in a dry run nothing is in flight,
    /// nothing was given up, and every run dealt with is counted.
    pub open spec fn wf(self) -> bool {
        &&& self.runners >= 1
        &&& self.next <= self.plan.len()
        &&& self.window.len() <= self.runners
        &&& self.count_run <= self.next
        &&& self.dry_run ==> self.window.len() == 0 && !self.aborted && self.count_run == self.next
    }

    /// What is to be done in this state.
    ///
    /// While runs are left: a dry run shows the next one; otherwise the oldest
    /// process is awaited if the window is full, and the next run is started
    /// if it is not. When no run is left, the processes in flight are awaited,
    /// oldest first, unless they are to be left in the background.
    pub open spec fn next_action(self) -> ActionView {
        if self.aborted {
            ActionView::Abort
        } else if self.next < self.plan.len() {
            if self.dry_run {
                ActionView::Print(self.plan[self.next as int])
            } else if self.window.len() >= self.runners {
                ActionView::Wait
            } else {
                ActionView::Spawn(self.plan[self.next as int])
            }
        } else if (self.dry_run || !self.background) && self.window.len() > 0 {
            ActionView::Wait
        } else {
            ActionView::Finish
        }
    }

    /// The state after `event`, where `event` answers what was to be done.
    ///
    /// A run that was shown or started is counted. A process that was started
    /// enters the window with its command line. A process that has ended
    /// leaves the window, and its command line joins the failures unless it
    /// succeeded. A program that is not found ends the run. A process that
    /// could not be started for another reason is passed over: it is neither
    /// counted nor taken for a failure. An event that does not answer what
    /// was to be done changes nothing.
    pub open spec fn after(self, event: Event) -> ExecutorView {
        match (self.next_action(), event) {
            (ActionView::Print(_), Event::Shown) => ExecutorView {
                next: self.next + 1,
                count_run: self.count_run + 1,
                ..self
            },
            (ActionView::Spawn(tokens), Event::Started) => ExecutorView {
                next: self.next + 1,
                count_run: self.count_run + 1,
                window: self.window.push(command_line(tokens)),
                ..self
            },
            (ActionView::Spawn(_), Event::NotFound) => ExecutorView { aborted: true, ..self },
            (ActionView::Spawn(_), Event::Failed) => ExecutorView { next: self.next + 1, ..self },
            (ActionView::Wait, Event::Exited { success }) => ExecutorView {
                window: self.window.drop_first(),
                failures: if success {
                    self.failures
                } else {
                    self.failures.push(self.window[0])
                },
                ..self
            },
            _ => self,
        }
    }

    /// The state after the events `events`, one after the other.
    pub open spec fn run(self, events: Seq<Event>) -> ExecutorView
        decreases events.len(),
    {
        if events.len() == 0 {
            self
        } else {
            self.run(events.drop_last()).after(events.last())
        }
    }

    /// The exit status that the run ends with: 1 where a program was not
    /// found, 2 where a process failed, 0 otherwise.
    pub open spec fn exit_code(self) -> u8 {
        if self.aborted {
            1
        } else if self.failures.len() > 0 {
            2
        } else {
            0
        }
    }
}

/// The state of a run.
pub struct Executor {
    plan: Vec<Vec<String>>,
    runners: usize,
    dry_run: bool,
    background: bool,
    next: usize,
    /// How many of the runs dealt with could not be started.
    skipped: usize,
    window: VecDeque<String>,
    failures: Vec<String>,
    aborted: bool,
}

impl View for Executor {
    type V = ExecutorView;

    closed spec fn view(&self) -> ExecutorView {
        ExecutorView {
            plan: self.plan.deep_view(),
            runners: self.runners as nat,
            dry_run: self.dry_run,
            background: self.background,
            next: self.next as nat,
            window: self.window.deep_view(),
            failures: self.failures.deep_view(),
            count_run: (self.next - self.skipped) as nat,
            aborted: self.aborted,
        }
    }
}

impl Executor {
    #[verifier::type_invariant]
    closed spec fn inv(self) -> bool {
        self@.wf() && self.skipped <= self.next
    }

    /// Sets up the run of `jobs` with at most `runners` processes in flight.
    pub fn new(jobs: &Vec<Job>, runners: usize, dry_run: bool, background: bool) -> (r: Executor)
        requires
            runners >= 1,
        ensures
            r@ == ExecutorView::initial(
                plan_of(job_views(jobs@)),
                runners as nat,
                dry_run,
                background,
            ),
            r@.wf(),
    {
        let plan = build_plan(jobs);
        let window: VecDeque<String> = VecDeque::new();
        let failures: Vec<String> = Vec::new();
        assert(window.deep_view() =~= Seq::empty());
        assert(failures.deep_view() =~= Seq::empty());
        Executor {
            plan,
            runners,
            dry_run,
            background,
            next: 0,
            skipped: 0,
            window,
            failures,
            aborted: false,
        }
    }

    /// What is to be done next.
    pub fn action(&self) -> (r: Action)
        ensures
            self@.wf(),
            r@ == self@.next_action(),
    {
        proof {
            use_type_invariant(self);
        }
        if self.aborted {
            Action::Abort
        } else if self.next < self.plan.len() {
            if self.dry_run {
                Action::Print(self.tokens())
            } else if self.window.len() >= self.runners {
                Action::Wait
            } else {
                Action::Spawn(self.tokens())
            }
        } else if (self.dry_run || !self.background) && self.window.len() > 0 {
            Action::Wait
        } else {
            Action::Finish
        }
    }

    /// The tokens of the next run.
    fn tokens(&self) -> (r: Vec<String>)
        requires
            self.next < self.plan.len(),
        ensures
            r.deep_view() == self@.plan[self@.next as int],
    {
        let tokens = self.plan[self.next].clone();
        proof {
            lemma_cloned_row(self.plan[self.next as int], tokens);
        }
        tokens
    }

    /// Takes note of `event` and says what is to be done next.
    pub fn step(&mut self, event: Event) -> (r: Action)
        ensures
            old(self)@.wf(),
            final(self)@ == old(self)@.after(event),
            final(self)@.wf(),
            r@ == final(self)@.next_action(),
    {
        proof {
            use_type_invariant(&*self);
        }
        let pending = self.action();
        let ghost asked = pending@;
        match (pending, event) {
            (Action::Print(_), Event::Shown) => {
                assert(asked is Print);
                assert(self.next < self.plan.len());
                self.next += 1;
            },
            (Action::Spawn(tokens), Event::Started) => {
                assert(asked is Spawn);
                assert(self.next < self.plan.len());
                let line = command_string(&tokens);
                let mut window: VecDeque<String> = VecDeque::new();
                assert(window.deep_view() =~= Seq::empty());
                std::mem::swap(&mut self.window, &mut window);
                let ghost before = window;
                window.push_back(line);
                assert(window.deep_view() =~= before.deep_view().push(line@));
                self.window = window;
                self.next += 1;
            },
            (Action::Spawn(_), Event::NotFound) => {
                self.aborted = true;
            },
            (Action::Spawn(_), Event::Failed) => {
                assert(asked is Spawn);
                assert(self.next < self.plan.len());
                self.next += 1;
                self.skipped += 1;
            },
            (Action::Wait, Event::Exited { success }) => {
                let mut window: VecDeque<String> = VecDeque::new();
                assert(window.deep_view() =~= Seq::empty());
                std::mem::swap(&mut self.window, &mut window);
                let ghost before = window;
                let ended = window.pop_front();
                assert(window.deep_view() =~= before.deep_view().drop_first());
                self.window = window;
                match ended {
                    Some(line) => {
                        if !success {
                            let mut failures: Vec<String> = Vec::new();
                            assert(failures.deep_view() =~= Seq::empty());
                            std::mem::swap(&mut self.failures, &mut failures);
                            let ghost earlier = failures;
                            failures.push(line);
                            proof {
                                lemma_pushed_row(earlier, failures, line);
                            }
                            self.failures = failures;
                        }
                    },
                    None => {},
                }
            },
            _ => {},
        }
        self.action()
    }

    /// How many runs were shown or started.
    pub fn count_run(&self) -> (r: usize)
        ensures
            r == self@.count_run,
    {
        proof {
            use_type_invariant(self);
        }
        self.next - self.skipped
    }

    /// How many processes are in flight.
    pub fn in_flight(&self) -> (r: usize)
        ensures
            r == self@.window.len(),
            r <= self@.runners,
    {
        proof {
            use_type_invariant(self);
        }
        self.window.len()
    }

    /// The command lines of the processes that failed, in the order in which
    /// their failure was seen.
    pub fn failures(&self) -> (r: Vec<String>)
        ensures
            r.deep_view() == self@.failures,
    {
        let copy = self.failures.clone();
        proof {
            lemma_cloned_row(self.failures, copy);
        }
        copy
    }

    /// Whether the count of runs is reported at the end: it is, unless the
    /// processes were left in the background.
    pub fn reports_count(&self) -> (r: bool)
        ensures
            r == (self@.dry_run || !self@.background),
    {
        self.dry_run || !self.background
    }

    /// The exit status that the run ends with.
    pub fn exit_code(&self) -> (r: u8)
        ensures
            r == self@.exit_code(),
    {
        if self.aborted {
            1
        } else if self.failures.len() > 0 {
            2
        } else {
            0
        }
    }
}

/// Every event leaves a well-formed state well formed.
pub proof fn lemma_step_keeps_wf(state: ExecutorView, event: Event)
    requires
        state.wf(),
    ensures
        state.after(event).wf(),
        state.after(event).runners == state.runners,
        state.after(event).plan == state.plan,
        state.after(event).dry_run == state.dry_run,
{
}

/// Whatever happens, no more processes are in flight than there are runners.
pub proof fn lemma_window_bounded(state: ExecutorView, events: Seq<Event>)
    requires
        state.wf(),
    ensures
        state.run(events).wf(),
        state.run(events).runners == state.runners,
        state.run(events).plan == state.plan,
        state.run(events).dry_run == state.dry_run,
        state.run(events).window.len() <= state.runners,
    decreases events.len(),
{
    if events.len() > 0 {
        lemma_window_bounded(state, events.drop_last());
        lemma_step_keeps_wf(state.run(events.drop_last()), events.last());
    }
}

/// A dry run never asks for a process to be started or awaited, and when it
/// is over it has counted every combination.
pub proof fn lemma_dry_run(jobs: Seq<JobView>, runners: nat, background: bool, events: Seq<Event>)
    requires
        runners >= 1,
    ensures
        ({
            let state = ExecutorView::initial(plan_of(jobs), runners, true, background).run(events);
            &&& state.next_action() is Print || state.next_action() is Finish
            &&& state.next_action() is Finish ==> state.count_run == combination_count(jobs)
        }),
{
    let start = ExecutorView::initial(plan_of(jobs), runners, true, background);
    lemma_window_bounded(start, events);
    lemma_plan_len(jobs);
}

/// A dry run of `n` combinations is over after `n` command lines were shown.
pub proof fn lemma_dry_run_ends(state: ExecutorView, shown: nat)
    requires
        state.wf(),
        state.dry_run,
        state.next + shown <= state.plan.len(),
    ensures
        state.run(Seq::new(shown, |i: int| Event::Shown)).next == state.next + shown,
        state.run(Seq::new(shown, |i: int| Event::Shown)).count_run == state.count_run + shown,
    decreases shown,
{
    let events = Seq::new(shown, |i: int| Event::Shown);
    if shown > 0 {
        lemma_dry_run_ends(state, (shown - 1) as nat);
        assert(events.drop_last() =~= Seq::new((shown - 1) as nat, |i: int| Event::Shown));
        lemma_window_bounded(state, events.drop_last());
    }
}

/// There are as many runs as combinations.
pub proof fn lemma_plan_len(jobs: Seq<JobView>)
    ensures
        plan_of(jobs).len() == combination_count(jobs),
    decreases jobs.len(),
{
    if jobs.len() > 0 {
        lemma_plan_len(jobs.drop_last());
    }
}

} // verus!
