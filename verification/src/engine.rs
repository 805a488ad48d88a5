//! Running a plan: the decisions of the stage coordinator and of the
//! units, taken one event at a time.
//!
//! The library starts no process and no thread.  The caller submits the
//! units that a `Step` hands out, launches the commands that a `UnitStep`
//! hands out, and reports what happened; the library decides what comes
//! next.

use crate::env::Env;
use crate::error::{Error, ErrorView};
use crate::plan::{Execution, Matrix, Stage, Task, TaskView};
use crate::text::{copy_opt_text, copy_texts};
use vstd::prelude::*;

verus! {

/// A process to start: the program, its arguments with the rendered command
/// as the last one, its environment and its working directory.
#[derive(Debug)]
pub struct Command {
    pub program: String,
    pub args: Vec<String>,
    pub env: Env,
    pub workdir: Option<String>,
}

/// The mathematical view of `Command`.
pub struct CommandView {
    pub program: Seq<char>,
    pub args: Seq<Seq<char>>,
    pub env: Map<Seq<char>, Seq<char>>,
    pub workdir: Option<Seq<char>>,
}

impl View for Command {
    type V = CommandView;

    open spec fn view(&self) -> CommandView {
        CommandView {
            program: self.program@,
            args: self.args.deep_view(),
            env: self.env@,
            workdir: self.workdir.deep_view(),
        }
    }
}

/// How a task's process ended, or that it did not start.
#[derive(Debug)]
pub enum Exit {
    /// The process ended, with this status where it has one.
    Code(Option<i32>),
    /// The process could not be started; the text says why.
    SpawnFailed(String),
}

/// The mathematical view of `Exit`.
pub enum ExitView {
    Code(Option<i32>),
    SpawnFailed(Seq<char>),
}

impl View for Exit {
    type V = ExitView;

    open spec fn view(&self) -> ExitView {
        match self {
            Exit::Code(code) => ExitView::Code(*code),
            Exit::SpawnFailed(cause) => ExitView::SpawnFailed(cause@),
        }
    }
}

/// The process that runs `task`: its shell with the shell's arguments and
/// then the rendered command.
pub open spec fn command_of(task: TaskView) -> CommandView {
    CommandView {
        program: task.shell.program,
        args: task.shell.args.push(task.cmd),
        env: task.env,
        workdir: task.workdir,
    }
}

/// The failure that `exit` means for `task`: none where the process ended
/// with status zero or without a status.
pub open spec fn failure_of(task: TaskView, exit: ExitView) -> Option<ErrorView> {
    match exit {
        ExitView::SpawnFailed(cause) => Some(ErrorView::SpawnFailed(cause)),
        ExitView::Code(Some(code)) => if code != 0 {
            Some(ErrorView::ChildProcessFailed { command: task.cmd, code })
        } else {
            None
        },
        ExitView::Code(None) => None,
    }
}

/// A unit on its way: the tasks of one chain for one combination, and the
/// task whose process is running.
#[derive(Debug)]
pub struct UnitRun {
    tasks: Vec<Task>,
    current: usize,
    finished: bool,
}

/// The mathematical view of `UnitRun`.
pub struct UnitView {
    pub tasks: Seq<TaskView>,
    pub current: nat,
    pub finished: bool,
}

impl UnitView {
    /// A process of the unit is running.
    pub open spec fn running(self) -> bool {
        !self.finished && self.current < self.tasks.len()
    }
}

/// What the caller of a unit does next.
#[derive(Debug)]
pub enum UnitStep {
    /// Start this process and report how it ends.
    Launch(Command),
    /// The unit is over, with this outcome.
    Done(Result<(), Error>),
}

/// The mathematical view of `UnitStep`.
pub enum UnitStepView {
    Launch(CommandView),
    Done(Result<(), ErrorView>),
}

impl View for UnitStep {
    type V = UnitStepView;

    open spec fn view(&self) -> UnitStepView {
        match self {
            UnitStep::Launch(command) => UnitStepView::Launch(command@),
            UnitStep::Done(Ok(_)) => UnitStepView::Done(Ok(())),
            UnitStep::Done(Err(e)) => UnitStepView::Done(Err(e@)),
        }
    }
}

/// The unit that launches task `at` next, or is over where there is none.
pub open spec fn unit_at(tasks: Seq<TaskView>, at: nat) -> (UnitView, UnitStepView) {
    if at < tasks.len() {
        (UnitView { tasks, current: at, finished: false }, UnitStepView::Launch(command_of(tasks[at as int])))
    } else {
        (UnitView { tasks, current: at, finished: true }, UnitStepView::Done(Ok(())))
    }
}

/// A unit starts with its first task.
pub open spec fn unit_begin(tasks: Seq<TaskView>) -> (UnitView, UnitStepView) {
    unit_at(tasks, 0)
}

/// After the running task ended: the unit is over with the task's failure,
/// and else goes on with the next task.
pub open spec fn unit_next(unit: UnitView, exit: ExitView) -> (UnitView, UnitStepView) {
    match failure_of(unit.tasks[unit.current as int], exit) {
        Some(e) => (
            UnitView { tasks: unit.tasks, current: unit.current, finished: true },
            UnitStepView::Done(Err(e)),
        ),
        None => unit_at(unit.tasks, unit.current + 1),
    }
}

/// The unit after its processes ended as `exits` says, one after the other,
/// for as long as a process is running.
pub open spec fn unit_after(tasks: Seq<TaskView>, exits: Seq<ExitView>) -> (UnitView, UnitStepView)
    decreases exits.len(),
{
    if exits.len() == 0 {
        unit_begin(tasks)
    } else {
        let before = unit_after(tasks, exits.drop_last());
        if before.0.running() {
            unit_next(before.0, exits.last())
        } else {
            before
        }
    }
}

/// While no task fails, the tasks are launched one after the other in
/// their order.
pub proof fn lemma_unit_in_order(tasks: Seq<TaskView>, exits: Seq<ExitView>)
    requires
        exits.len() <= tasks.len(),
        forall|j: int| 0 <= j < exits.len() ==> failure_of(tasks[j], #[trigger] exits[j]) is None,
    ensures
        unit_after(tasks, exits) == unit_at(tasks, exits.len()),
    decreases exits.len(),
{
    if exits.len() > 0 {
        lemma_unit_in_order(tasks, exits.drop_last());
        assert(exits.drop_last().len() == exits.len() - 1);
        assert(failure_of(tasks[exits.len() - 1], exits[exits.len() - 1]) is None);
    }
}

/// A unit is over with the failure of the first task that fails: the tasks
/// after it are never launched, and the failure is that task's.
pub proof fn lemma_unit_fails_fast(tasks: Seq<TaskView>, exits: Seq<ExitView>, i: int)
    requires
        0 <= i < tasks.len(),
        i < exits.len(),
        forall|j: int| 0 <= j < i ==> failure_of(tasks[j], #[trigger] exits[j]) is None,
        failure_of(tasks[i], exits[i]) is Some,
    ensures
        unit_after(tasks, exits).0 == (UnitView { tasks, current: i as nat, finished: true }),
        unit_after(tasks, exits).1 == UnitStepView::Done(
            Err::<(), ErrorView>(failure_of(tasks[i], exits[i])->0),
        ),
    decreases exits.len(),
{
    let shorter = exits.drop_last();
    if exits.len() == i + 1 {
        assert forall|j: int| 0 <= j < shorter.len() implies failure_of(tasks[j], #[trigger] shorter[j]) is None by {
            assert(shorter[j] == exits[j]);
        }
        lemma_unit_in_order(tasks, shorter);
    } else {
        assert(shorter[i] == exits[i]);
        assert forall|j: int| 0 <= j < i implies failure_of(tasks[j], #[trigger] shorter[j]) is None by {
            assert(shorter[j] == exits[j]);
        }
        lemma_unit_fails_fast(tasks, shorter, i);
    }
}

impl View for UnitRun {
    type V = UnitView;

    closed spec fn view(&self) -> UnitView {
        UnitView { tasks: self.tasks.deep_view(), current: self.current as nat, finished: self.finished }
    }
}

/// The process that runs `task`.
pub fn command_for(task: &Task) -> (out: Command)
    ensures
        out@ == command_of(task@),
{
    let mut args = copy_texts(&task.shell.args);
    let ghost before = args.deep_view();
    args.push(task.cmd.clone());
    assert(args.deep_view() =~= before.push(task.cmd@));
    Command {
        program: task.shell.program.clone(),
        args,
        env: task.env.duplicate(),
        workdir: copy_opt_text(&task.workdir),
    }
}

impl UnitRun {
    /// Starts a unit: the first task is to be launched, or the unit is over
    /// at once where it has no task.
    pub fn start(unit: Matrix) -> (out: (UnitRun, UnitStep))
        ensures
            (out.0@, out.1@) == unit_begin(unit@),
    {
        let tasks = unit.tasks;
        if tasks.len() > 0 {
            let command = command_for(&tasks[0]);
            assert(tasks.deep_view()[0] == tasks[0]@);
            (UnitRun { tasks, current: 0, finished: false }, UnitStep::Launch(command))
        } else {
            (UnitRun { tasks, current: 0, finished: true }, UnitStep::Done(Ok(())))
        }
    }

    /// Whether a process of the unit is running, so that its end is to be
    /// reported.
    pub fn running(&self) -> (r: bool)
        ensures
            r == self@.running(),
    {
        !self.finished && self.current < self.tasks.len()
    }

    /// Takes the end of the running task's process.  A process that could
    /// not be started, or that ended with a status other than zero, ends
    /// the unit with that failure, and no further task is launched.  Else
    /// the next task is to be launched, or the unit is over.
    pub fn on_exit(&mut self, exit: Exit) -> (step: UnitStep)
        requires
            old(self)@.running(),
        ensures
            (final(self)@, step@) == unit_next(old(self)@, exit@),
    {
        assert(self.tasks.deep_view()[self.current as int] == self.tasks[self.current as int]@);
        let failure = match exit {
            Exit::SpawnFailed(cause) => Some(Error::SpawnFailed(cause)),
            Exit::Code(Some(code)) => if code != 0 {
                Some(Error::ChildProcessFailed { command: self.tasks[self.current].cmd.clone(), code })
            } else {
                None
            },
            Exit::Code(None) => None,
        };
        match failure {
            Some(e) => {
                self.finished = true;
                UnitStep::Done(Err(e))
            },
            None => {
                assert(self.current < self.tasks.len());
                self.current = self.current + 1;
                if self.current < self.tasks.len() {
                    assert(self.tasks.deep_view()[self.current as int] == self.tasks[self.current as int]@);
                    UnitStep::Launch(command_for(&self.tasks[self.current]))
                } else {
                    self.finished = true;
                    UnitStep::Done(Ok(()))
                }
            },
        }
    }
}

/// The units of a stage: the combinations of its chains, chain after chain.
pub open spec fn units_of(stage: Seq<Seq<Seq<TaskView>>>) -> Seq<Seq<TaskView>>
    decreases stage.len(),
{
    if stage.len() == 0 {
        Seq::empty()
    } else {
        stage[0] + units_of(stage.drop_first())
    }
}

/// A run on its way: the stages that are still to come, and what the units
/// of the stage under way have reported.
#[derive(Debug)]
pub struct Run {
    stages: Vec<Stage>,
    workers: usize,
    expected: usize,
    received: usize,
    failures: Vec<Error>,
    done: bool,
}

/// The mathematical view of `Run`.
pub struct RunView {
    pub stages: Seq<Seq<Seq<Seq<TaskView>>>>,
    pub workers: usize,
    pub expected: nat,
    pub received: nat,
    pub failures: Seq<ErrorView>,
    pub done: bool,
}

impl RunView {
    /// Units of the stage under way have yet to report.
    pub open spec fn waiting(self) -> bool {
        !self.done && self.received < self.expected
    }
}

/// What the caller of a run does next.
#[derive(Debug)]
pub enum Step {
    /// Submit these units to a pool of `workers` workers, and report the
    /// outcome of each as it comes.
    Dispatch { units: Vec<Matrix>, workers: usize },
    /// Go on waiting for the outcomes of the units submitted.
    Wait,
    /// The run is over, with this result.
    Done(Result<(), Error>),
}

/// The mathematical view of `Step`.
pub enum StepView {
    Dispatch { units: Seq<Seq<TaskView>>, workers: usize },
    Wait,
    Done(Result<(), ErrorView>),
}

impl View for Step {
    type V = StepView;

    open spec fn view(&self) -> StepView {
        match self {
            Step::Dispatch { units, workers } => StepView::Dispatch {
                units: units.deep_view(),
                workers: *workers,
            },
            Step::Wait => StepView::Wait,
            Step::Done(Ok(_)) => StepView::Done(Ok(())),
            Step::Done(Err(e)) => StepView::Done(Err(e@)),
        }
    }
}

/// The outcome of a unit as its view.
pub open spec fn report_view(outcome: Result<(), Error>) -> Result<(), ErrorView> {
    match outcome {
        Ok(_) => Ok(()),
        Err(e) => Err(e@),
    }
}

/// Going on to the first of `stages` that has units: they are submitted
/// all at once.  Stages without units are passed over, and with no stage
/// left the run is over and has succeeded.
pub open spec fn advance(stages: Seq<Seq<Seq<Seq<TaskView>>>>, workers: usize) -> (RunView, StepView)
    decreases stages.len(),
{
    if stages.len() == 0 {
        (
            RunView { stages, workers, expected: 0, received: 0, failures: Seq::empty(), done: true },
            StepView::Done(Ok(())),
        )
    } else if units_of(stages[0]).len() == 0 {
        advance(stages.drop_first(), workers)
    } else {
        (
            RunView {
                stages: stages.drop_first(),
                workers,
                expected: units_of(stages[0]).len(),
                received: 0,
                failures: Seq::empty(),
                done: false,
            },
            StepView::Dispatch { units: units_of(stages[0]), workers },
        )
    }
}

/// The failures so far, with the failure of `outcome` added where it is
/// one.
pub open spec fn noted(failures: Seq<ErrorView>, outcome: Result<(), ErrorView>) -> Seq<ErrorView> {
    match outcome {
        Ok(_) => failures,
        Err(e) => failures.push(e),
    }
}

/// After one more unit reported: the run waits while units of the stage
/// have yet to report; with the last report it is over where a unit of the
/// stage failed, the result holding every failure of the stage in the order
/// of the reports, and else goes on to the next stage.
pub open spec fn run_next(run: RunView, outcome: Result<(), ErrorView>) -> (RunView, StepView) {
    let failures = noted(run.failures, outcome);
    if run.received + 1 < run.expected {
        (
            RunView {
                stages: run.stages,
                workers: run.workers,
                expected: run.expected,
                received: run.received + 1,
                failures,
                done: false,
            },
            StepView::Wait,
        )
    } else if failures.len() > 0 {
        (
            RunView {
                stages: run.stages,
                workers: run.workers,
                expected: run.expected,
                received: run.received + 1,
                failures: Seq::empty(),
                done: true,
            },
            StepView::Done(Err(ErrorView::AggregateFailure(failures))),
        )
    } else {
        advance(run.stages, run.workers)
    }
}

/// The failures among `outcomes`, in their order.
pub open spec fn failures_of(outcomes: Seq<Result<(), ErrorView>>) -> Seq<ErrorView>
    decreases outcomes.len(),
{
    if outcomes.len() == 0 {
        Seq::empty()
    } else {
        noted(failures_of(outcomes.drop_last()), outcomes.last())
    }
}

/// The run after the units reported `outcomes`, one after the other, for as
/// long as the run waits for reports.
pub open spec fn run_after(run: RunView, outcomes: Seq<Result<(), ErrorView>>) -> (RunView, StepView)
    decreases outcomes.len(),
{
    if outcomes.len() == 0 {
        (run, StepView::Wait)
    } else {
        let before = run_after(run, outcomes.drop_last());
        if before.0.waiting() {
            run_next(before.0, outcomes.last())
        } else {
            before
        }
    }
}

/// A stage under way as it was submitted: nothing reported yet.
pub open spec fn submitted(run: RunView) -> bool {
    &&& !run.done
    &&& run.received == 0
    &&& run.expected > 0
    &&& run.failures.len() == 0
}

/// Until every unit of the stage has reported, the run waits: no stage is
/// started and nothing is decided, whatever the units report.
pub proof fn lemma_stage_waits(run: RunView, outcomes: Seq<Result<(), ErrorView>>)
    requires
        submitted(run),
        outcomes.len() < run.expected,
    ensures
        run_after(run, outcomes).1 == StepView::Wait,
        run_after(run, outcomes).0 == (RunView {
            stages: run.stages,
            workers: run.workers,
            expected: run.expected,
            received: outcomes.len(),
            failures: failures_of(outcomes),
            done: false,
        }),
    decreases outcomes.len(),
{
    if outcomes.len() == 0 {
        assert(run.failures =~= failures_of(outcomes));
    } else {
        lemma_stage_waits(run, outcomes.drop_last());
    }
}

/// When the last unit of a stage has reported, the run is over where a
/// unit failed: the result holds exactly the failures of the stage, in the
/// order of the reports, and the stages that follow are never started.
/// Where no unit failed the run goes on to the next stage.
pub proof fn lemma_stage_decides(run: RunView, outcomes: Seq<Result<(), ErrorView>>)
    requires
        submitted(run),
        outcomes.len() == run.expected,
    ensures
        failures_of(outcomes).len() > 0 ==> run_after(run, outcomes).1 == StepView::Done(
            Err(ErrorView::AggregateFailure(failures_of(outcomes))),
        ) && run_after(run, outcomes).0.done && run_after(run, outcomes).0.stages == run.stages,
        failures_of(outcomes).len() == 0 ==> run_after(run, outcomes) == advance(run.stages, run.workers),
{
    lemma_stage_waits(run, outcomes.drop_last());
}

/// A unit that succeeded is no failure of its stage, and a unit that
/// failed is one.
pub proof fn lemma_failures_of(outcomes: Seq<Result<(), ErrorView>>, e: ErrorView)
    ensures
        failures_of(outcomes).contains(e) <==> outcomes.contains(Err(e)),
    decreases outcomes.len(),
{
    if outcomes.len() == 0 {
    } else {
        let shorter = outcomes.drop_last();
        lemma_failures_of(shorter, e);
        let fs = failures_of(shorter);
        if outcomes.contains(Err(e)) {
            let i = choose|i: int| 0 <= i < outcomes.len() && outcomes[i] == Err::<(), ErrorView>(e);
            if i < shorter.len() {
                assert(shorter[i] == outcomes[i]);
                assert(shorter.contains(Err(e)));
                let j = choose|j: int| 0 <= j < fs.len() && fs[j] == e;
                assert(failures_of(outcomes)[j] == e);
            } else {
                assert(failures_of(outcomes) == fs.push(e));
                assert(fs.push(e)[fs.len() as int] == e);
            }
        }
        if failures_of(outcomes).contains(e) {
            let j = choose|j: int| 0 <= j < failures_of(outcomes).len() && failures_of(outcomes)[j] == e;
            if j < fs.len() {
                assert(fs[j] == e);
                assert(fs.contains(e));
                let i = choose|i: int| 0 <= i < shorter.len() && shorter[i] == Err::<(), ErrorView>(e);
                assert(outcomes[i] == Err::<(), ErrorView>(e));
            } else {
                assert(outcomes[outcomes.len() - 1] == Err::<(), ErrorView>(e));
            }
        }
    }
}

impl View for Run {
    type V = RunView;

    closed spec fn view(&self) -> RunView {
        RunView {
            stages: self.stages.deep_view(),
            workers: self.workers,
            expected: self.expected as nat,
            received: self.received as nat,
            failures: crate::error::error_views(self.failures@),
            done: self.done,
        }
    }
}

/// The units of a stage, taken out of it.
pub fn take_units(stage: Stage) -> (out: Vec<Matrix>)
    ensures
        out.deep_view() == units_of(stage@),
{
    let ghost all = stage@;
    let mut chains = stage.chains;
    let mut units: Vec<Matrix> = Vec::new();
    proof {
        assert(units.deep_view() + units_of(chains.deep_view()) =~= units_of(all));
    }
    while chains.len() > 0
        invariant
            units.deep_view() + units_of(chains.deep_view()) == units_of(all),
        decreases chains.len(),
    {
        let ghost before = chains.deep_view();
        let ghost had = units.deep_view();
        let chain = chains.remove(0);
        let mut part = chain.matrix;
        let ghost added = part.deep_view();
        units.append(&mut part);
        proof {
            assert(before[0] == added);
            assert(chains.deep_view() =~= before.drop_first()) by {
                assert forall|j: int| 0 <= j < chains.len() implies chains.deep_view()[j] == before.drop_first()[j] by {
                    assert(chains.deep_view()[j] == chains[j]@);
                }
            }
            assert(units.deep_view() =~= had + added);
            assert(had + (added + units_of(before.drop_first())) =~= (had + added) + units_of(
                before.drop_first(),
            ));
        }
    }
    proof {
        assert(units.deep_view() + Seq::<Seq<TaskView>>::empty() =~= units.deep_view());
    }
    units
}

impl Run {
    /// Whether units of the stage under way have yet to report.
    pub fn waiting(&self) -> (r: bool)
        ensures
            r == self@.waiting(),
    {
        !self.done && self.received < self.expected
    }

    /// Goes on to the next stage that has units.
    fn advance(stages: Vec<Stage>, workers: usize) -> (out: (Run, Step))
        ensures
            (out.0@, out.1@) == advance(stages.deep_view(), workers),
        decreases stages.len(),
    {
        let mut stages = stages;
        let ghost all = stages.deep_view();
        if stages.len() == 0 {
            let run = Run { stages, workers, expected: 0, received: 0, failures: Vec::new(), done: true };
            proof {
                assert(run@.failures =~= Seq::empty());
            }
            (run, Step::Done(Ok(())))
        } else {
            let stage = stages.remove(0);
            proof {
                assert(all[0] == stage@);
                assert(stages.deep_view() =~= all.drop_first()) by {
                    assert forall|j: int| 0 <= j < stages.len() implies stages.deep_view()[j] == all.drop_first()[j] by {
                        assert(stages.deep_view()[j] == stages[j]@);
                    }
                }
            }
            let units = take_units(stage);
            if units.len() == 0 {
                Self::advance(stages, workers)
            } else {
                let expected = units.len();
                let run = Run { stages, workers, expected, received: 0, failures: Vec::new(), done: false };
                proof {
                    assert(run@.failures =~= Seq::empty());
                }
                (run, Step::Dispatch { units, workers })
            }
        }
    }

    /// Takes the outcome of one unit of the stage under way.
    ///
    /// The run waits until every unit of the stage has reported; a failed
    /// unit stops none of the others.  With the last report the run is over
    /// where a unit failed, the result holding every failure of the stage,
    /// and else the next stage is submitted.
    pub fn on_outcome(self, outcome: Result<(), Error>) -> (out: (Run, Step))
        requires
            self@.waiting(),
        ensures
            (out.0@, out.1@) == run_next(self@, report_view(outcome)),
    {
        let ghost old_failures = crate::error::error_views(self.failures@);
        let Run { stages, workers, expected, received, failures, done } = self;
        let mut failures = failures;
        match outcome {
            Ok(_) => {},
            Err(e) => {
                let ghost fv = failures@;
                failures.push(e);
                assert(crate::error::error_views(failures@) =~= old_failures.push(e@));
            },
        }
        let ghost now = crate::error::error_views(failures@);
        if received + 1 < expected {
            (Run { stages, workers, expected, received: received + 1, failures, done: false }, Step::Wait)
        } else if failures.len() > 0 {
            let mut reported: Vec<Error> = Vec::new();
            std::mem::swap(&mut reported, &mut failures);
            let run = Run { stages, workers, expected, received: received + 1, failures, done: true };
            proof {
                assert(run@.failures =~= Seq::empty());
            }
            (run, Step::Done(Err(Error::AggregateFailure(reported))))
        } else {
            Self::advance(stages, workers)
        }
    }
}

/// The settings of the engine's output: the prefix that starts every line
/// that a process prints, and whether the lines are kept back.
#[derive(Debug)]
pub struct ExecEngine {
    pub prefix: String,
    pub silent: bool,
}

impl ExecEngine {
    /// An engine with the given settings.
    pub fn new(prefix: String, silent: bool) -> (out: ExecEngine)
        ensures
            out.prefix@ == prefix@,
            out.silent == silent,
    {
        ExecEngine { prefix, silent }
    }

    /// Starts running `plan` with pools of `workers` workers: the units of
    /// the first stage that has any are submitted, and with no such stage
    /// the run is over at once and has succeeded.
    pub fn execute(&self, plan: Execution, workers: usize) -> (out: (Run, Step))
        requires
            workers > 0,
        ensures
            (out.0@, out.1@) == advance(plan@, workers),
    {
        Run::advance(plan.stages, workers)
    }
}

} // verus!
