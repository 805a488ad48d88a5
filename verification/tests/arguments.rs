use taskchain::args::ArgTree;
use taskchain::env::Env;
use taskchain::model::Config;

fn json_text_value(s: &str) -> serde_json::Value {
    serde_json::Value::String(s.to_string())
}

fn json_object_value(members: Vec<(&str, serde_json::Value)>) -> serde_json::Value {
    let mut map = serde_json::Map::new();
    for (k, v) in members {
        map.insert(k.to_string(), v);
    }
    serde_json::Value::Object(map)
}

fn pairs_of(args: &[(&str, &str)]) -> Vec<(String, String)> {
    args.iter().map(|(k, v)| (k.to_string(), v.to_string())).collect()
}

#[test]
fn first_write_wins() {
    let cfg = Config::new(Env::new());
    let tree = cfg.build_args(&pairs_of(&[("x.y", "1"), ("x.y", "2")])).unwrap();
    assert_eq!(tree.get("x.y"), Some("1".to_string()));
    assert_eq!(
        tree.to_json(),
        json_object_value(vec![("x", json_object_value(vec![("y", json_text_value("1"))]))])
    );
}

#[test]
fn siblings_share_their_group() {
    let cfg = Config::new(Env::new());
    let tree = cfg.build_args(&pairs_of(&[("x.y", "1"), ("x.z", "2")])).unwrap();
    assert_eq!(tree.get("x.y"), Some("1".to_string()));
    assert_eq!(tree.get("x.z"), Some("2".to_string()));
    assert_eq!(tree.get("x"), None);
    assert_eq!(tree.get("x.y.z"), None);
    assert_eq!(
        tree.to_json(),
        json_object_value(vec![(
            "x",
            json_object_value(vec![("y", json_text_value("1")), ("z", json_text_value("2"))])
        )])
    );
}

#[test]
fn no_arguments_give_an_empty_object() {
    let cfg = Config::new(Env::new());
    let tree = cfg.build_args(&Vec::new()).unwrap();
    assert_eq!(tree.to_json(), json_object_value(vec![]));
    assert_eq!(tree.get("x"), None);
}

#[test]
fn deep_and_flat_keys_nest() {
    let mut tree = ArgTree::new();
    tree.assign("a.b.c", "deep");
    tree.assign("top", "flat");
    tree.assign("a.b.d", "next");
    tree.assign("a.e", "side");
    assert_eq!(tree.get("a.b.c"), Some("deep".to_string()));
    assert_eq!(tree.get("top"), Some("flat".to_string()));
    assert_eq!(
        tree.to_json(),
        json_object_value(vec![
            (
                "a",
                json_object_value(vec![
                    (
                        "b",
                        json_object_value(vec![
                            ("c", json_text_value("deep")),
                            ("d", json_text_value("next"))
                        ])
                    ),
                    ("e", json_text_value("side"))
                ])
            ),
            ("top", json_text_value("flat"))
        ])
    );
}

#[test]
fn value_is_not_replaced_by_a_group() {
    let mut tree = ArgTree::new();
    tree.assign("a", "1");
    tree.assign("a.b", "2");
    assert_eq!(tree.get("a"), Some("1".to_string()));
    assert_eq!(tree.get("a.b"), None);
    assert_eq!(tree.to_json(), json_object_value(vec![("a", json_text_value("1"))]));
}

#[test]
fn group_is_not_replaced_by_a_value() {
    let mut tree = ArgTree::new();
    tree.assign("a.b", "2");
    tree.assign("a", "1");
    assert_eq!(tree.get("a.b"), Some("2".to_string()));
    assert_eq!(tree.get("a"), None);
    assert_eq!(
        tree.to_json(),
        json_object_value(vec![("a", json_object_value(vec![("b", json_text_value("2"))]))])
    );
}

#[test]
fn empty_segments_are_keys() {
    let mut tree = ArgTree::new();
    tree.assign("", "root");
    tree.assign("a..b", "gap");
    assert_eq!(tree.get(""), Some("root".to_string()));
    assert_eq!(tree.get("a..b"), Some("gap".to_string()));
    assert_eq!(
        tree.to_json(),
        json_object_value(vec![
            ("", json_text_value("root")),
            (
                "a",
                json_object_value(vec![("", json_object_value(vec![("b", json_text_value("gap"))]))])
            )
        ])
    );
}

#[test]
fn values_are_kept_as_text() {
    let mut tree = ArgTree::new();
    tree.assign("n", "42");
    tree.assign("q", "say \"hi\"");
    assert_eq!(
        tree.to_json(),
        json_object_value(vec![("n", json_text_value("42")), ("q", json_text_value("say \"hi\""))])
    );
}
