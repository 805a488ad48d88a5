use taskchain::catalog::ChainDef;
use taskchain::env::Env;
use taskchain::error::Error;
use taskchain::model::Config;
use taskchain::text::{same_text, split_dots, str_le};

fn listed_chain(description: Option<&str>, pre: Option<Vec<&str>>) -> ChainDef {
    ChainDef {
        description: description.map(|d| d.to_string()),
        pre: pre.map(|names| names.into_iter().map(|n| n.to_string()).collect()),
        matrix: None,
        tasks: Vec::new(),
        workdir: None,
        env: None,
        shell: None,
    }
}

#[test]
fn supported_version_loads() {
    let mut env = Env::new();
    env.set("A".to_string(), "1".to_string());
    let chains = vec![
        ("one".to_string(), listed_chain(None, None)),
        ("two".to_string(), listed_chain(Some("second"), Some(vec!["one"]))),
    ];
    let cfg = Config::load("0.5", chains, Some(env)).unwrap();
    assert_eq!(cfg.len(), 2);
    assert_eq!(cfg.name_at(0), "one");
    assert_eq!(cfg.name_at(1), "two");
    assert_eq!(cfg.chain_at(1).description.as_deref(), Some("second"));
    assert_eq!(cfg.env().get("A"), Some("1".to_string()));
    assert_eq!(cfg.position("two"), Some(1));
    assert_eq!(cfg.position("three"), None);
}

#[test]
fn missing_environment_loads_as_empty() {
    let cfg = Config::load("0.5", Vec::new(), None).unwrap();
    assert_eq!(cfg.len(), 0);
    assert_eq!(cfg.env().len(), 0);
}

#[test]
fn other_version_is_refused() {
    match Config::load("0.2", Vec::new(), None) {
        Err(Error::VersionIncompatible(found)) => assert_eq!(found, "0.2"),
        other => panic!("unexpected {:?}", other),
    }
    assert!(matches!(
        Config::load("0.50", Vec::new(), None),
        Err(Error::VersionIncompatible(_))
    ));
    assert!(matches!(
        Config::load("", Vec::new(), None),
        Err(Error::VersionIncompatible(_))
    ));
}

#[test]
fn later_chain_replaces_earlier_of_same_name() {
    let chains = vec![
        ("a".to_string(), listed_chain(Some("first"), None)),
        ("b".to_string(), listed_chain(None, None)),
        ("a".to_string(), listed_chain(Some("second"), None)),
    ];
    let cfg = Config::load("0.5", chains, None).unwrap();
    assert_eq!(cfg.len(), 2);
    assert_eq!(cfg.name_at(0), "a");
    assert_eq!(cfg.chain_at(0).description.as_deref(), Some("second"));
    assert_eq!(cfg.name_at(1), "b");
}

#[test]
fn listing_is_sorted_by_name() {
    let mut cfg = Config::new(Env::new());
    cfg.insert("deploy".to_string(), listed_chain(Some("ship it"), Some(vec!["build", "test"])));
    cfg.insert("build".to_string(), listed_chain(None, None));
    cfg.insert("test".to_string(), listed_chain(Some("check"), Some(vec!["build"])));
    cfg.insert("Zeta".to_string(), listed_chain(None, None));
    let list = cfg.list();
    let names: Vec<&str> = list.chains.iter().map(|c| c.name.as_str()).collect();
    assert_eq!(names, vec!["Zeta", "build", "deploy", "test"]);
    assert_eq!(list.chains[2].description.as_deref(), Some("ship it"));
    assert_eq!(
        list.chains[2].pre,
        Some(vec!["build".to_string(), "test".to_string()])
    );
    assert_eq!(list.chains[1].description, None);
    assert_eq!(list.chains[1].pre, None);
}

#[test]
fn listing_of_empty_catalog_is_empty() {
    let cfg = Config::new(Env::new());
    assert!(cfg.list().chains.is_empty());
}

#[test]
fn names_are_ordered_by_bytes() {
    assert!(str_le("a", "b"));
    assert!(!str_le("b", "a"));
    assert!(str_le("a", "a"));
    assert!(str_le("", "a"));
    assert!(!str_le("a", ""));
    assert!(str_le("ab", "abc"));
    assert!(!str_le("abc", "ab"));
    assert!(str_le("Z", "a"));
    assert!(str_le("z", "\u{e9}"));
    for (a, b) in [("x", "y"), ("chain-1", "chain-10"), ("\u{4e2d}", "\u{e9}")] {
        assert_eq!(str_le(a, b), a <= b);
        assert_eq!(str_le(b, a), b <= a);
    }
}

#[test]
fn texts_compare_by_characters() {
    assert!(same_text("0.5", "0.5"));
    assert!(!same_text("0.5", "0.50"));
    assert!(same_text("", ""));
}

#[test]
fn keys_split_at_dots() {
    assert_eq!(split_dots("a.b.c"), vec!["a", "b", "c"]);
    assert_eq!(split_dots("plain"), vec!["plain"]);
    assert_eq!(split_dots(""), vec![""]);
    assert_eq!(split_dots("a..b"), vec!["a", "", "b"]);
    assert_eq!(split_dots(".a"), vec!["", "a"]);
    assert_eq!(split_dots("a."), vec!["a", ""]);
    assert_eq!(split_dots("\u{e9}.\u{4e2d}x"), vec!["\u{e9}", "\u{4e2d}x"]);
    for key in ["x.y", "..", "one", "a.b.", ""] {
        let expected: Vec<String> = key.split('.').map(|s| s.to_string()).collect();
        assert_eq!(split_dots(key), expected);
    }
}

#[test]
fn environment_sets_and_merges() {
    let mut a = Env::new();
    a.set("A".to_string(), "1".to_string());
    a.set("B".to_string(), "1".to_string());
    a.set("A".to_string(), "2".to_string());
    assert_eq!(a.len(), 2);
    assert_eq!(a.get("A"), Some("2".to_string()));
    assert_eq!(a.get("C"), None);
    let mut b = Env::new();
    b.set("B".to_string(), "9".to_string());
    b.set("C".to_string(), "3".to_string());
    a.extend(&b);
    assert_eq!(a.len(), 3);
    assert_eq!(a.get("A"), Some("2".to_string()));
    assert_eq!(a.get("B"), Some("9".to_string()));
    assert_eq!(a.get("C"), Some("3".to_string()));
    let mut pairs = a.pairs();
    pairs.sort();
    assert_eq!(
        pairs,
        vec![
            ("A".to_string(), "2".to_string()),
            ("B".to_string(), "9".to_string()),
            ("C".to_string(), "3".to_string())
        ]
    );
    let copy = a.duplicate();
    assert_eq!(copy.get("B"), Some("9".to_string()));
    assert_eq!(copy.len(), 3);
}
