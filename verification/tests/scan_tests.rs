use target_deleter::scan::{is_target_name, join_path, scan, DirTree};

fn dir(name: &str, children: Vec<DirTree>) -> DirTree {
    DirTree { name: name.to_string(), children }
}

fn joined_all(paths: &Vec<Vec<String>>) -> Vec<String> {
    let mut out: Vec<String> = Vec::new();
    for p in paths {
        out.push(join_path(p));
    }
    out
}

#[test]
fn scan_finds_targets_preorder() {
    let root = dir(
        "root",
        vec![
            dir("a", vec![dir("target", vec![])]),
            dir("b", vec![dir("c", vec![dir("target", vec![])])]),
            dir("target", vec![dir("inner", vec![dir("target", vec![])])]),
        ],
    );
    let found = scan(&root);
    let names = joined_all(&found);
    assert_eq!(
        names,
        vec![
            "root/a/target".to_string(),
            "root/b/c/target".to_string(),
            "root/target".to_string(),
        ]
    );
}

#[test]
fn scan_empty_root_yields_nothing() {
    let root = dir("root", vec![]);
    let found = scan(&root);
    assert!(found.is_empty());
}

#[test]
fn scan_does_not_descend_into_matches() {
    let root = dir(
        "root",
        vec![dir(
            "target",
            vec![dir("debug", vec![dir("target", vec![])]), dir("target", vec![])],
        )],
    );
    let found = scan(&root);
    let names = joined_all(&found);
    assert_eq!(names, vec!["root/target".to_string()]);
}

#[test]
fn scan_root_name_is_not_examined() {
    let root = dir("target", vec![dir("sub", vec![dir("target", vec![])])]);
    let found = scan(&root);
    let names = joined_all(&found);
    assert_eq!(names, vec!["target/sub/target".to_string()]);
}

#[test]
fn scan_finds_deeply_nested_target() {
    let root = dir(
        "r",
        vec![dir("a", vec![dir("b", vec![dir("c", vec![dir("d", vec![dir("target", vec![])])])])])],
    );
    let found = scan(&root);
    let names = joined_all(&found);
    assert_eq!(names, vec!["r/a/b/c/d/target".to_string()]);
}

#[test]
fn scan_ignores_other_names() {
    let root = dir(
        "root",
        vec![dir("targets", vec![]), dir("Target", vec![]), dir("my_target", vec![])],
    );
    let found = scan(&root);
    assert!(found.is_empty());
}

#[test]
fn join_path_puts_slashes_between_components() {
    let p: Vec<String> = vec!["a".to_string(), "b".to_string(), "target".to_string()];
    assert_eq!(join_path(&p), "a/b/target".to_string());
    let single: Vec<String> = vec!["x".to_string()];
    assert_eq!(join_path(&single), "x".to_string());
    let empty: Vec<String> = Vec::new();
    assert_eq!(join_path(&empty), "".to_string());
}

#[test]
fn is_target_name_is_exact() {
    assert!(is_target_name(&"target".to_string()));
    assert!(!is_target_name(&"Target".to_string()));
    assert!(!is_target_name(&"targets".to_string()));
    assert!(!is_target_name(&"".to_string()));
}
