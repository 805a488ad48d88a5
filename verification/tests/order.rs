use taskchain::catalog::ChainDef;
use taskchain::env::Env;
use taskchain::error::Error;
use taskchain::model::Config;

fn order_chain(pre: Option<Vec<&str>>) -> ChainDef {
    ChainDef {
        description: None,
        pre: pre.map(|names| names.into_iter().map(|n| n.to_string()).collect()),
        matrix: None,
        tasks: Vec::new(),
        workdir: None,
        env: None,
        shell: None,
    }
}

fn order_catalog(chains: Vec<(&str, Option<Vec<&str>>)>) -> Config {
    let mut cfg = Config::new(Env::new());
    for (name, pre) in chains {
        cfg.insert(name.to_string(), order_chain(pre));
    }
    cfg
}

fn order_names(names: &[&str]) -> Vec<String> {
    names.iter().map(|n| n.to_string()).collect()
}

#[test]
fn deploy_after_build() {
    let cfg = order_catalog(vec![("build", None), ("deploy", Some(vec!["build"]))]);
    let stages = cfg.determine_order(&order_names(&["deploy"])).unwrap();
    assert_eq!(stages, vec![order_names(&["build"]), order_names(&["deploy"])]);
}

#[test]
fn diamond_is_layered() {
    let cfg = order_catalog(vec![
        ("d", Some(vec!["b", "c"])),
        ("c", Some(vec!["a"])),
        ("b", Some(vec!["a"])),
        ("a", None),
    ]);
    let stages = cfg.determine_order(&order_names(&["d"])).unwrap();
    assert_eq!(
        stages,
        vec![order_names(&["a"]), order_names(&["c", "b"]), order_names(&["d"])]
    );
}

#[test]
fn chain_waits_for_its_latest_prerequisite() {
    let cfg = order_catalog(vec![
        ("a", None),
        ("b", Some(vec!["a"])),
        ("c", Some(vec!["a", "b"])),
    ]);
    let stages = cfg.determine_order(&order_names(&["c"])).unwrap();
    assert_eq!(
        stages,
        vec![order_names(&["a"]), order_names(&["b"]), order_names(&["c"])]
    );
}

#[test]
fn every_reachable_chain_is_staged_once() {
    let cfg = order_catalog(vec![
        ("a", None),
        ("b", Some(vec!["a"])),
        ("c", Some(vec!["a"])),
        ("d", Some(vec!["b", "c", "a"])),
        ("other", None),
    ]);
    let stages = cfg.determine_order(&order_names(&["d", "b", "d"])).unwrap();
    let mut all: Vec<String> = stages.iter().flatten().cloned().collect();
    all.sort();
    assert_eq!(all, order_names(&["a", "b", "c", "d"]));
    for (k, stage) in stages.iter().enumerate() {
        for name in stage {
            let at = cfg.position(name).unwrap();
            if let Some(pre) = &cfg.chain_at(at).pre {
                for p in pre {
                    assert!(stages[..k].iter().any(|earlier| earlier.contains(p)));
                }
            }
        }
    }
}

#[test]
fn independent_chains_share_the_first_stage() {
    let cfg = order_catalog(vec![("x", None), ("y", None), ("z", None)]);
    let stages = cfg.determine_order(&order_names(&["z", "x"])).unwrap();
    assert_eq!(stages, vec![order_names(&["x", "z"])]);
}

#[test]
fn empty_request_has_no_stage() {
    let cfg = order_catalog(vec![("x", None)]);
    let stages = cfg.determine_order(&Vec::new()).unwrap();
    assert!(stages.is_empty());
}

#[test]
fn empty_prerequisite_list_is_like_none() {
    let cfg = order_catalog(vec![("x", Some(vec![]))]);
    let stages = cfg.determine_order(&order_names(&["x"])).unwrap();
    assert_eq!(stages, vec![order_names(&["x"])]);
}

#[test]
fn cycle_is_detected() {
    let cfg = order_catalog(vec![("a", Some(vec!["b"])), ("b", Some(vec!["a"]))]);
    let out = cfg.determine_order(&order_names(&["a"]));
    assert!(matches!(out, Err(Error::CycleDetected)));
}

#[test]
fn chain_that_requires_itself_is_a_cycle() {
    let cfg = order_catalog(vec![("a", Some(vec!["a"]))]);
    let out = cfg.determine_order(&order_names(&["a"]));
    assert!(matches!(out, Err(Error::CycleDetected)));
}

#[test]
fn cycle_behind_a_prerequisite_is_detected() {
    let cfg = order_catalog(vec![
        ("top", Some(vec!["a"])),
        ("a", Some(vec!["b"])),
        ("b", Some(vec!["c"])),
        ("c", Some(vec!["a"])),
    ]);
    let out = cfg.determine_order(&order_names(&["top"]));
    assert!(matches!(out, Err(Error::CycleDetected)));
}

#[test]
fn cycle_out_of_reach_is_ignored() {
    let cfg = order_catalog(vec![
        ("a", Some(vec!["b"])),
        ("b", Some(vec!["a"])),
        ("free", None),
    ]);
    let stages = cfg.determine_order(&order_names(&["free"])).unwrap();
    assert_eq!(stages, vec![order_names(&["free"])]);
}

#[test]
fn requested_chain_must_exist() {
    let cfg = order_catalog(vec![("a", None)]);
    match cfg.determine_order(&order_names(&["nope"])) {
        Err(Error::ChainNotFound(name)) => assert_eq!(name, "nope"),
        other => panic!("unexpected {:?}", other),
    }
}

#[test]
fn prerequisite_must_exist() {
    let cfg = order_catalog(vec![("a", Some(vec!["ghost"]))]);
    match cfg.determine_order(&order_names(&["a"])) {
        Err(Error::ChainNotFound(name)) => assert_eq!(name, "ghost"),
        other => panic!("unexpected {:?}", other),
    }
}

#[test]
fn missing_prerequisite_out_of_reach_is_ignored() {
    let cfg = order_catalog(vec![("a", Some(vec!["ghost"])), ("b", None)]);
    let stages = cfg.determine_order(&order_names(&["b"])).unwrap();
    assert_eq!(stages, vec![order_names(&["b"])]);
}

#[test]
fn missing_name_is_reported_before_a_cycle() {
    let cfg = order_catalog(vec![("a", Some(vec!["b", "ghost"])), ("b", Some(vec!["a"]))]);
    match cfg.determine_order(&order_names(&["a"])) {
        Err(Error::ChainNotFound(name)) => assert_eq!(name, "ghost"),
        other => panic!("unexpected {:?}", other),
    }
}

#[test]
fn plan_lists_the_stages() {
    let cfg = order_catalog(vec![("build", None), ("deploy", Some(vec!["build"]))]);
    let list = cfg.plan(&order_names(&["deploy"])).unwrap();
    assert_eq!(list.stages, vec![order_names(&["build"]), order_names(&["deploy"])]);
    assert!(matches!(
        cfg.plan(&order_names(&["missing"])),
        Err(Error::ChainNotFound(_))
    ));
}
