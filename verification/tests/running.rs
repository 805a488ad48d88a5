use taskchain::catalog::Shell;
use taskchain::engine::{command_for, take_units, ExecEngine, Exit, Run, Step, UnitRun, UnitStep};
use taskchain::env::Env;
use taskchain::error::Error;
use taskchain::plan::{Chain, Execution, Matrix, Stage, Task};

fn run_task(cmd: &str) -> Task {
    Task {
        cmd: cmd.to_string(),
        env: Env::new(),
        workdir: None,
        shell: Shell { program: "sh".to_string(), args: vec!["-c".to_string()] },
    }
}

fn unit_of(cmds: &[&str]) -> Matrix {
    Matrix { tasks: cmds.iter().map(|c| run_task(c)).collect() }
}

fn stage_of(chains: Vec<Vec<Matrix>>) -> Stage {
    Stage { chains: chains.into_iter().map(|matrix| Chain { matrix }).collect() }
}

fn launched(step: UnitStep) -> Vec<String> {
    match step {
        UnitStep::Launch(command) => command.args,
        other => panic!("unexpected {:?}", other),
    }
}

fn dispatched(step: Step) -> Vec<Vec<String>> {
    match step {
        Step::Dispatch { units, .. } => units
            .iter()
            .map(|u| u.tasks.iter().map(|t| t.cmd.clone()).collect())
            .collect(),
        other => panic!("unexpected {:?}", other),
    }
}

fn failed(cmd: &str, code: i32) -> Error {
    Error::ChildProcessFailed { command: cmd.to_string(), code }
}

fn start_run(stages: Vec<Stage>, workers: usize) -> (Run, Step) {
    ExecEngine::new("> ".to_string(), false).execute(Execution { stages }, workers)
}

#[test]
fn command_ends_with_the_rendered_command() {
    let mut task = run_task("echo hi");
    task.shell = Shell {
        program: "bash".to_string(),
        args: vec!["-e".to_string(), "-c".to_string()],
    };
    task.workdir = Some("/tmp".to_string());
    task.env.set("A".to_string(), "1".to_string());
    let command = command_for(&task);
    assert_eq!(command.program, "bash");
    assert_eq!(command.args, vec!["-e", "-c", "echo hi"]);
    assert_eq!(command.workdir, Some("/tmp".to_string()));
    assert_eq!(command.env.pairs(), vec![("A".to_string(), "1".to_string())]);
}

#[test]
fn unit_runs_its_tasks_in_order() {
    let (mut unit, step) = UnitRun::start(unit_of(&["one", "two", "three"]));
    assert!(unit.running());
    assert_eq!(launched(step), vec!["-c", "one"]);
    let step = unit.on_exit(Exit::Code(Some(0)));
    assert!(unit.running());
    assert_eq!(launched(step), vec!["-c", "two"]);
    let step = unit.on_exit(Exit::Code(Some(0)));
    assert_eq!(launched(step), vec!["-c", "three"]);
    let step = unit.on_exit(Exit::Code(Some(0)));
    assert!(matches!(step, UnitStep::Done(Ok(()))));
    assert!(!unit.running());
}

#[test]
fn unit_stops_at_its_first_failing_task() {
    let (mut unit, step) = UnitRun::start(unit_of(&["first", "second", "third"]));
    assert_eq!(launched(step), vec!["-c", "first"]);
    let step = unit.on_exit(Exit::Code(Some(3)));
    match step {
        UnitStep::Done(Err(Error::ChildProcessFailed { command, code })) => {
            assert_eq!(command, "first");
            assert_eq!(code, 3);
        },
        other => panic!("unexpected {:?}", other),
    }
    assert!(!unit.running());
}

#[test]
fn unit_reports_the_task_that_failed() {
    let (mut unit, _) = UnitRun::start(unit_of(&["first", "second", "third"]));
    let step = unit.on_exit(Exit::Code(Some(0)));
    assert_eq!(launched(step), vec!["-c", "second"]);
    let step = unit.on_exit(Exit::Code(Some(-1)));
    match step {
        UnitStep::Done(Err(Error::ChildProcessFailed { command, code })) => {
            assert_eq!(command, "second");
            assert_eq!(code, -1);
        },
        other => panic!("unexpected {:?}", other),
    }
    assert!(!unit.running());
}

#[test]
fn process_that_does_not_start_fails_the_unit() {
    let (mut unit, _) = UnitRun::start(unit_of(&["first", "second"]));
    let step = unit.on_exit(Exit::SpawnFailed("no such file".to_string()));
    match step {
        UnitStep::Done(Err(Error::SpawnFailed(cause))) => assert_eq!(cause, "no such file"),
        other => panic!("unexpected {:?}", other),
    }
    assert!(!unit.running());
}

#[test]
fn process_without_a_status_does_not_fail_the_unit() {
    let (mut unit, _) = UnitRun::start(unit_of(&["first", "second"]));
    let step = unit.on_exit(Exit::Code(None));
    assert_eq!(launched(step), vec!["-c", "second"]);
    let step = unit.on_exit(Exit::Code(None));
    assert!(matches!(step, UnitStep::Done(Ok(()))));
}

#[test]
fn unit_without_tasks_is_over_at_once() {
    let (unit, step) = UnitRun::start(unit_of(&[]));
    assert!(matches!(step, UnitStep::Done(Ok(()))));
    assert!(!unit.running());
}

#[test]
fn units_are_the_combinations_chain_after_chain() {
    let stage = stage_of(vec![
        vec![unit_of(&["a1"]), unit_of(&["a2"])],
        vec![],
        vec![unit_of(&["b1", "b2"])],
    ]);
    let units = take_units(stage);
    let cmds: Vec<Vec<String>> = units
        .iter()
        .map(|u| u.tasks.iter().map(|t| t.cmd.clone()).collect())
        .collect();
    assert_eq!(
        cmds,
        vec![
            vec!["a1".to_string()],
            vec!["a2".to_string()],
            vec!["b1".to_string(), "b2".to_string()]
        ]
    );
}

#[test]
fn failed_unit_does_not_stop_its_sibling() {
    let stages = vec![
        stage_of(vec![vec![unit_of(&["u1"])], vec![unit_of(&["u2"])]]),
        stage_of(vec![vec![unit_of(&["later"])]]),
    ];
    let (run, step) = start_run(stages, 2);
    match &step {
        Step::Dispatch { workers, .. } => assert_eq!(*workers, 2),
        other => panic!("unexpected {:?}", other),
    }
    assert_eq!(dispatched(step), vec![vec!["u1".to_string()], vec!["u2".to_string()]]);
    assert!(run.waiting());
    let (run, step) = run.on_outcome(Err(failed("u1", 1)));
    assert!(matches!(step, Step::Wait));
    assert!(run.waiting());
    let (run, step) = run.on_outcome(Ok(()));
    match step {
        Step::Done(Err(Error::AggregateFailure(failures))) => {
            assert_eq!(failures.len(), 1);
            match &failures[0] {
                Error::ChildProcessFailed { command, code } => {
                    assert_eq!(command, "u1");
                    assert_eq!(*code, 1);
                },
                other => panic!("unexpected {:?}", other),
            }
        },
        other => panic!("unexpected {:?}", other),
    }
    assert!(!run.waiting());
}

#[test]
fn every_failure_of_the_stage_is_reported_in_order() {
    let stages = vec![stage_of(vec![vec![
        unit_of(&["a"]),
        unit_of(&["b"]),
        unit_of(&["c"]),
    ]])];
    let (run, _) = start_run(stages, 1);
    let (run, step) = run.on_outcome(Err(failed("c", 9)));
    assert!(matches!(step, Step::Wait));
    let (run, step) = run.on_outcome(Ok(()));
    assert!(matches!(step, Step::Wait));
    let (run, step) = run.on_outcome(Err(Error::SpawnFailed("gone".to_string())));
    match step {
        Step::Done(Err(Error::AggregateFailure(failures))) => {
            assert_eq!(failures.len(), 2);
            assert!(matches!(&failures[0], Error::ChildProcessFailed { command, code: 9 } if command == "c"));
            assert!(matches!(&failures[1], Error::SpawnFailed(cause) if cause == "gone"));
        },
        other => panic!("unexpected {:?}", other),
    }
    assert!(!run.waiting());
}

#[test]
fn next_stage_starts_when_all_units_succeeded() {
    let stages = vec![
        stage_of(vec![vec![unit_of(&["a"]), unit_of(&["b"])]]),
        stage_of(vec![vec![unit_of(&["c"])]]),
    ];
    let (run, step) = start_run(stages, 4);
    assert_eq!(dispatched(step).len(), 2);
    let (run, step) = run.on_outcome(Ok(()));
    assert!(matches!(step, Step::Wait));
    let (run, step) = run.on_outcome(Ok(()));
    assert_eq!(dispatched(step), vec![vec!["c".to_string()]]);
    assert!(run.waiting());
    let (run, step) = run.on_outcome(Ok(()));
    assert!(matches!(step, Step::Done(Ok(()))));
    assert!(!run.waiting());
}

#[test]
fn plan_without_stages_succeeds_at_once() {
    let (run, step) = start_run(Vec::new(), 1);
    assert!(matches!(step, Step::Done(Ok(()))));
    assert!(!run.waiting());
}

#[test]
fn stages_without_units_are_passed_over() {
    let stages = vec![
        stage_of(vec![]),
        stage_of(vec![vec![], vec![]]),
        stage_of(vec![vec![unit_of(&["only"])]]),
        stage_of(vec![vec![]]),
    ];
    let (run, step) = start_run(stages, 1);
    assert_eq!(dispatched(step), vec![vec!["only".to_string()]]);
    let (run, step) = run.on_outcome(Ok(()));
    assert!(matches!(step, Step::Done(Ok(()))));
    assert!(!run.waiting());
}

#[test]
fn engine_keeps_its_settings() {
    let engine = ExecEngine::new("==> ".to_string(), true);
    assert_eq!(engine.prefix, "==> ");
    assert!(engine.silent);
}
