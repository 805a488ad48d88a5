use taskchain::args::ArgTree;
use taskchain::catalog::{ChainDef, MatrixEntry, Shell, TaskDef};
use taskchain::env::Env;
use taskchain::error::Error;
use taskchain::model::Config;
use taskchain::plan::Execution;
use taskchain::render::{env_for, shell_for, workdir_for};

fn env_of(vars: &[(&str, &str)]) -> Env {
    let mut env = Env::new();
    for (k, v) in vars {
        env.set(k.to_string(), v.to_string());
    }
    env
}

fn sorted_env(env: &Env) -> Vec<(String, String)> {
    let mut pairs = env.pairs();
    pairs.sort();
    pairs
}

fn env_pairs(vars: &[(&str, &str)]) -> Vec<(String, String)> {
    vars.iter().map(|(k, v)| (k.to_string(), v.to_string())).collect()
}

fn task_of(script: &str) -> TaskDef {
    TaskDef { script: script.to_string(), env: None, workdir: None, shell: None }
}

fn chain_of(tasks: Vec<TaskDef>) -> ChainDef {
    ChainDef {
        description: None,
        pre: None,
        matrix: None,
        tasks,
        workdir: None,
        env: None,
        shell: None,
    }
}

fn entry_of(vars: &[(&str, &str)]) -> MatrixEntry {
    MatrixEntry { env: Some(env_of(vars)), workdir: None }
}

fn request(names: &[&str]) -> Vec<String> {
    names.iter().map(|n| n.to_string()).collect()
}

fn commands(plan: &Execution) -> Vec<Vec<Vec<Vec<String>>>> {
    plan.stages
        .iter()
        .map(|s| {
            s.chains
                .iter()
                .map(|c| {
                    c.matrix
                        .iter()
                        .map(|m| m.tasks.iter().map(|t| t.cmd.clone()).collect())
                        .collect()
                })
                .collect()
        })
        .collect()
}

#[test]
fn build_then_deploy_is_rendered_in_stages() {
    let mut cfg = Config::new(Env::new());
    cfg.insert("build".to_string(), chain_of(vec![task_of("make {{target}}")]));
    let mut deploy = chain_of(vec![task_of("ship {{where.host}}"), task_of("echo done")]);
    deploy.pre = Some(vec!["build".to_string()]);
    cfg.insert("deploy".to_string(), deploy);
    let args = env_pairs(&[("target", "all"), ("where.host", "example.org")]);
    let plan = cfg.render_exec(&request(&["deploy"]), &args).unwrap();
    assert_eq!(
        commands(&plan),
        vec![
            vec![vec![vec!["make all".to_string()]]],
            vec![vec![vec!["ship example.org".to_string(), "echo done".to_string()]]],
        ]
    );
    let task = &plan.stages[0].chains[0].matrix[0].tasks[0];
    assert_eq!(task.shell.program, "sh");
    assert_eq!(task.shell.args, vec!["-c"]);
    assert_eq!(task.workdir, None);
    assert_eq!(task.env.len(), 0);
}

#[test]
fn template_without_placeholders_is_kept() {
    let mut cfg = Config::new(Env::new());
    cfg.insert("c".to_string(), chain_of(vec![task_of("echo plain text")]));
    let plan = cfg.render_exec(&request(&["c"]), &Vec::new()).unwrap();
    assert_eq!(plan.stages[0].chains[0].matrix[0].tasks[0].cmd, "echo plain text");
}

#[test]
fn undefined_argument_fails_the_render() {
    let mut cfg = Config::new(Env::new());
    cfg.insert("ok".to_string(), chain_of(vec![task_of("echo fine")]));
    let mut bad = chain_of(vec![task_of("echo {{missing.path}}")]);
    bad.pre = Some(vec!["ok".to_string()]);
    cfg.insert("bad".to_string(), bad);
    let args = env_pairs(&[("present", "1"), ("missing.other", "2")]);
    let out = cfg.render_exec(&request(&["bad"]), &args);
    match out {
        Err(Error::TemplateRenderFailed(cause)) => assert!(!cause.is_empty()),
        other => panic!("unexpected {:?}", other),
    }
}

#[test]
fn broken_template_fails_the_render() {
    let mut cfg = Config::new(Env::new());
    cfg.insert("c".to_string(), chain_of(vec![task_of("echo {{#if x}}")]));
    let out = cfg.render_exec(&request(&["c"]), &env_pairs(&[("x", "1")]));
    assert!(matches!(out, Err(Error::TemplateRenderFailed(_))));
}

#[test]
fn chain_out_of_reach_is_not_rendered() {
    let mut cfg = Config::new(Env::new());
    cfg.insert("good".to_string(), chain_of(vec![task_of("echo fine")]));
    cfg.insert("bad".to_string(), chain_of(vec![task_of("echo {{missing}}")]));
    let plan = cfg.render_exec(&request(&["good"]), &Vec::new()).unwrap();
    assert_eq!(commands(&plan), vec![vec![vec![vec!["echo fine".to_string()]]]]);
}

#[test]
fn resolution_errors_come_before_rendering() {
    let mut cfg = Config::new(Env::new());
    let mut a = chain_of(vec![task_of("echo {{missing}}")]);
    a.pre = Some(vec!["b".to_string()]);
    cfg.insert("a".to_string(), a);
    let mut b = chain_of(vec![]);
    b.pre = Some(vec!["a".to_string()]);
    cfg.insert("b".to_string(), b);
    assert!(matches!(
        cfg.render_exec(&request(&["a"]), &Vec::new()),
        Err(Error::CycleDetected)
    ));
    assert!(matches!(
        cfg.render_exec(&request(&["zzz"]), &Vec::new()),
        Err(Error::ChainNotFound(_))
    ));
}

#[test]
fn matrix_of_two_by_three_gives_six_combinations() {
    let mut chain = chain_of(vec![task_of("run")]);
    chain.matrix = Some(vec![
        vec![entry_of(&[("OS", "linux")]), entry_of(&[("OS", "mac")])],
        vec![
            entry_of(&[("V", "1")]),
            entry_of(&[("V", "2")]),
            entry_of(&[("V", "3")]),
        ],
    ]);
    let mut cfg = Config::new(Env::new());
    cfg.insert("m".to_string(), chain);
    let plan = cfg.render_exec(&request(&["m"]), &Vec::new()).unwrap();
    let units = &plan.stages[0].chains[0].matrix;
    assert_eq!(units.len(), 6);
    let seen: Vec<Vec<(String, String)>> =
        units.iter().map(|m| sorted_env(&m.tasks[0].env)).collect();
    let expected: Vec<Vec<(String, String)>> = vec![
        env_pairs(&[("OS", "linux"), ("V", "1")]),
        env_pairs(&[("OS", "linux"), ("V", "2")]),
        env_pairs(&[("OS", "linux"), ("V", "3")]),
        env_pairs(&[("OS", "mac"), ("V", "1")]),
        env_pairs(&[("OS", "mac"), ("V", "2")]),
        env_pairs(&[("OS", "mac"), ("V", "3")]),
    ];
    assert_eq!(seen, expected);
    for i in 0..seen.len() {
        for j in 0..i {
            assert_ne!(seen[i], seen[j]);
        }
    }
}

#[test]
fn later_dimension_overrides_earlier() {
    let mut chain = chain_of(vec![task_of("run")]);
    chain.matrix = Some(vec![
        vec![entry_of(&[("K", "first"), ("A", "a")])],
        vec![entry_of(&[("K", "second")]), MatrixEntry { env: None, workdir: None }],
    ]);
    let mut cfg = Config::new(Env::new());
    cfg.insert("m".to_string(), chain);
    let plan = cfg.render_exec(&request(&["m"]), &Vec::new()).unwrap();
    let units = &plan.stages[0].chains[0].matrix;
    assert_eq!(units.len(), 2);
    assert_eq!(
        sorted_env(&units[0].tasks[0].env),
        env_pairs(&[("A", "a"), ("K", "second")])
    );
    assert_eq!(
        sorted_env(&units[1].tasks[0].env),
        env_pairs(&[("A", "a"), ("K", "first")])
    );
}

#[test]
fn matrix_without_dimensions_gives_one_combination() {
    let mut chain = chain_of(vec![task_of("run"), task_of("again")]);
    chain.matrix = Some(Vec::new());
    let mut cfg = Config::new(Env::new());
    cfg.insert("m".to_string(), chain);
    let plan = cfg.render_exec(&request(&["m"]), &Vec::new()).unwrap();
    assert_eq!(
        commands(&plan),
        vec![vec![vec![vec!["run".to_string(), "again".to_string()]]]]
    );
}

#[test]
fn empty_dimension_gives_no_combination() {
    let mut chain = chain_of(vec![task_of("echo {{never.rendered}}")]);
    chain.matrix = Some(vec![vec![entry_of(&[("A", "1")])], Vec::new()]);
    let mut cfg = Config::new(Env::new());
    cfg.insert("m".to_string(), chain);
    let plan = cfg.render_exec(&request(&["m"]), &Vec::new()).unwrap();
    assert_eq!(plan.stages.len(), 1);
    assert_eq!(plan.stages[0].chains.len(), 1);
    assert!(plan.stages[0].chains[0].matrix.is_empty());
}

#[test]
fn single_dimension_keeps_its_order() {
    let mut chain = chain_of(vec![task_of("run")]);
    chain.matrix = Some(vec![vec![
        entry_of(&[("N", "0")]),
        entry_of(&[("N", "1")]),
        entry_of(&[("N", "2")]),
    ]]);
    let mut cfg = Config::new(Env::new());
    cfg.insert("m".to_string(), chain);
    let plan = cfg.render_exec(&request(&["m"]), &Vec::new()).unwrap();
    let seen: Vec<Option<String>> = plan.stages[0].chains[0]
        .matrix
        .iter()
        .map(|m| m.tasks[0].env.get("N"))
        .collect();
    assert_eq!(
        seen,
        vec![Some("0".to_string()), Some("1".to_string()), Some("2".to_string())]
    );
}

#[test]
fn environment_layers_override_in_order() {
    let mut task = task_of("run");
    task.env = Some(env_of(&[("C", "2")]));
    let mut chain = chain_of(vec![task]);
    chain.env = Some(env_of(&[("A", "2"), ("B", "1")]));
    chain.matrix = Some(vec![vec![entry_of(&[("B", "2"), ("C", "1")])]]);
    let mut cfg = Config::new(env_of(&[("A", "1")]));
    cfg.insert("c".to_string(), chain);
    let plan = cfg.render_exec(&request(&["c"]), &Vec::new()).unwrap();
    let env = &plan.stages[0].chains[0].matrix[0].tasks[0].env;
    assert_eq!(sorted_env(env), env_pairs(&[("A", "2"), ("B", "2"), ("C", "2")]));
}

#[test]
fn environment_of_a_task_is_merged_from_four_layers() {
    let globals = env_of(&[("A", "1"), ("G", "g")]);
    let mut chain = chain_of(Vec::new());
    chain.env = Some(env_of(&[("A", "2"), ("B", "1")]));
    let combination = env_of(&[("B", "2"), ("C", "1")]);
    let mut task = task_of("run");
    task.env = Some(env_of(&[("C", "2")]));
    let merged = env_for(&globals, &chain, &combination, &task);
    assert_eq!(
        sorted_env(&merged),
        env_pairs(&[("A", "2"), ("B", "2"), ("C", "2"), ("G", "g")])
    );
    let bare = env_for(&globals, &chain_of(Vec::new()), &Env::new(), &task_of("run"));
    assert_eq!(sorted_env(&bare), env_pairs(&[("A", "1"), ("G", "g")]));
}

#[test]
fn workdir_is_the_tasks_or_the_chains() {
    let mut chain = chain_of(Vec::new());
    let mut task = task_of("run");
    assert_eq!(workdir_for(&task, &chain), None);
    chain.workdir = Some("/chain".to_string());
    assert_eq!(workdir_for(&task, &chain), Some("/chain".to_string()));
    task.workdir = Some("/task".to_string());
    assert_eq!(workdir_for(&task, &chain), Some("/task".to_string()));
    chain.workdir = None;
    assert_eq!(workdir_for(&task, &chain), Some("/task".to_string()));
}

#[test]
fn matrix_workdir_is_not_consulted() {
    let mut chain = chain_of(vec![task_of("run")]);
    chain.workdir = Some("/chain".to_string());
    chain.matrix = Some(vec![vec![MatrixEntry {
        env: None,
        workdir: Some("/matrix".to_string()),
    }]]);
    let mut cfg = Config::new(Env::new());
    cfg.insert("c".to_string(), chain);
    let plan = cfg.render_exec(&request(&["c"]), &Vec::new()).unwrap();
    assert_eq!(
        plan.stages[0].chains[0].matrix[0].tasks[0].workdir,
        Some("/chain".to_string())
    );
}

#[test]
fn shell_is_the_tasks_or_the_chains_or_the_default() {
    let mut chain = chain_of(Vec::new());
    let mut task = task_of("run");
    let default = shell_for(&task, &chain);
    assert_eq!(default.program, "sh");
    assert_eq!(default.args, vec!["-c"]);
    chain.shell = Some(Shell {
        program: "bash".to_string(),
        args: vec!["-e".to_string(), "-c".to_string()],
    });
    let from_chain = shell_for(&task, &chain);
    assert_eq!(from_chain.program, "bash");
    assert_eq!(from_chain.args, vec!["-e", "-c"]);
    task.shell = Some(Shell { program: "zsh".to_string(), args: Vec::new() });
    let from_task = shell_for(&task, &chain);
    assert_eq!(from_task.program, "zsh");
    assert!(from_task.args.is_empty());
}

#[test]
fn plan_for_given_stages_follows_them() {
    let mut cfg = Config::new(Env::new());
    cfg.insert("a".to_string(), chain_of(vec![task_of("a {{v}}")]));
    cfg.insert("b".to_string(), chain_of(vec![task_of("b {{v}}")]));
    let mut tree = ArgTree::new();
    tree.assign("v", "1");
    let order = vec![request(&["b", "a"]), request(&["a"])];
    let plan = cfg.render_plan(&order, &tree).unwrap();
    assert_eq!(
        commands(&plan),
        vec![
            vec![vec![vec!["b 1".to_string()]], vec![vec!["a 1".to_string()]]],
            vec![vec![vec!["a 1".to_string()]]],
        ]
    );
    let missing = cfg.render_plan(&vec![request(&["a", "nope"])], &tree);
    match missing {
        Err(Error::ChainNotFound(name)) => assert_eq!(name, "nope"),
        other => panic!("unexpected {:?}", other),
    }
    let empty = cfg.render_plan(&Vec::new(), &tree).unwrap();
    assert!(empty.stages.is_empty());
}

#[test]
fn first_failing_template_is_reported() {
    let mut cfg = Config::new(Env::new());
    cfg.insert(
        "a".to_string(),
        chain_of(vec![task_of("fine"), task_of("{{one}}"), task_of("{{two}}")]),
    );
    let tree = ArgTree::new();
    let out = cfg.render_plan(&vec![request(&["a"])], &tree);
    match out {
        Err(Error::TemplateRenderFailed(cause)) => {
            assert!(cause.contains("one"));
            assert!(!cause.contains("two"));
        },
        other => panic!("unexpected {:?}", other),
    }
}

#[test]
fn last_dimension_varies_fastest() {
    let mut chain = chain_of(vec![task_of("run")]);
    chain.matrix = Some(vec![
        vec![entry_of(&[("A", "0")]), entry_of(&[("A", "1")]), entry_of(&[("A", "2")])],
        vec![entry_of(&[("B", "0")])],
        vec![entry_of(&[("C", "0")]), entry_of(&[("C", "1")])],
    ]);
    let mut cfg = Config::new(Env::new());
    cfg.insert("m".to_string(), chain);
    let plan = cfg.render_exec(&request(&["m"]), &Vec::new()).unwrap();
    let seen: Vec<String> = plan.stages[0].chains[0]
        .matrix
        .iter()
        .map(|m| {
            let env = &m.tasks[0].env;
            format!(
                "{}{}{}",
                env.get("A").unwrap(),
                env.get("B").unwrap(),
                env.get("C").unwrap()
            )
        })
        .collect();
    assert_eq!(seen, vec!["000", "001", "100", "101", "200", "201"]);
}

#[test]
fn every_task_is_rendered_for_every_combination() {
    let mut chain = chain_of(vec![task_of("one {{v}}"), task_of("two {{v}}")]);
    chain.matrix = Some(vec![vec![
        MatrixEntry { env: None, workdir: None },
        MatrixEntry { env: None, workdir: None },
    ]]);
    let mut cfg = Config::new(Env::new());
    cfg.insert("m".to_string(), chain);
    let plan = cfg.render_exec(&request(&["m"]), &env_pairs(&[("v", "x")])).unwrap();
    assert_eq!(
        commands(&plan),
        vec![vec![vec![
            vec!["one x".to_string(), "two x".to_string()],
            vec!["one x".to_string(), "two x".to_string()],
        ]]]
    );
}
