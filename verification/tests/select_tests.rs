use target_deleter::select::{
    gather_paths, name_le_exec, sort_names, Key, RootOutcome, RootSelect, TargetSelect,
};

#[test]
fn sort_names_orders_candidates_by_bytes() {
    let names: Vec<String> = vec![
        "b".to_string(),
        "a".to_string(),
        "ab".to_string(),
        "A".to_string(),
        "".to_string(),
        "a".to_string(),
    ];
    let sorted = sort_names(&names);
    assert_eq!(
        sorted,
        vec![
            "".to_string(),
            "A".to_string(),
            "a".to_string(),
            "a".to_string(),
            "ab".to_string(),
            "b".to_string(),
        ]
    );
}

#[test]
fn name_order_is_byte_order() {
    assert!(name_le_exec(&"A".to_string(), &"a".to_string()));
    assert!(!name_le_exec(&"a".to_string(), &"A".to_string()));
    assert!(name_le_exec(&"a".to_string(), &"ab".to_string()));
    assert!(!name_le_exec(&"ab".to_string(), &"a".to_string()));
    assert!(name_le_exec(&"x".to_string(), &"x".to_string()));
}

#[test]
fn root_cursor_down_cycles_back() {
    let mut s = RootSelect::new(3);
    assert_eq!(s.cursor, 0);
    assert!(s.on_key(Key::Down).is_none());
    assert_eq!(s.cursor, 1);
    assert!(s.on_key(Key::Down).is_none());
    assert_eq!(s.cursor, 2);
    assert!(s.on_key(Key::Down).is_none());
    assert_eq!(s.cursor, 0);
}

#[test]
fn root_cursor_up_cycles_back() {
    let mut s = RootSelect::new(3);
    assert!(s.on_key(Key::Up).is_none());
    assert_eq!(s.cursor, 2);
    assert!(s.on_key(Key::Up).is_none());
    assert_eq!(s.cursor, 1);
    assert!(s.on_key(Key::Up).is_none());
    assert_eq!(s.cursor, 0);
}

#[test]
fn root_enter_picks_highlighted_row() {
    let mut s = RootSelect::new(4);
    s.on_key(Key::Down);
    s.on_key(Key::Down);
    assert_eq!(s.on_key(Key::Enter), Some(RootOutcome::Pick(2)));
}

#[test]
fn root_quit_cancels() {
    let mut s = RootSelect::new(4);
    s.on_key(Key::Down);
    assert_eq!(s.on_key(Key::Letter('q')), Some(RootOutcome::Cancel));
}

#[test]
fn root_empty_list_ignores_all_but_quit() {
    let mut s = RootSelect::new(0);
    assert!(s.on_key(Key::Up).is_none());
    assert!(s.on_key(Key::Down).is_none());
    assert!(s.on_key(Key::Enter).is_none());
    assert!(s.on_key(Key::Space).is_none());
    assert_eq!(s.cursor, 0);
    assert_eq!(s.on_key(Key::Letter('q')), Some(RootOutcome::Cancel));
}

#[test]
fn root_other_keys_are_ignored() {
    let mut s = RootSelect::new(2);
    assert!(s.on_key(Key::Letter('x')).is_none());
    assert!(s.on_key(Key::Other).is_none());
    assert_eq!(s.cursor, 0);
}

#[test]
fn target_cursor_down_cycles_back() {
    let mut s = TargetSelect::new(5);
    for _ in 0..5 {
        assert!(s.on_key(Key::Down).is_none());
    }
    assert_eq!(s.cursor, 0);
}

#[test]
fn target_toggle_twice_restores_marks() {
    let mut s = TargetSelect::new(3);
    s.on_key(Key::Down);
    assert!(s.on_key(Key::Space).is_none());
    assert_eq!(s.marks, vec![false, true, false]);
    assert!(s.on_key(Key::Space).is_none());
    assert_eq!(s.marks, vec![false, false, false]);
}

#[test]
fn target_toggle_keeps_cursor_in_place() {
    let mut s = TargetSelect::new(3);
    s.on_key(Key::Down);
    s.on_key(Key::Space);
    assert_eq!(s.cursor, 1);
}

#[test]
fn target_commit_keeps_scan_order() {
    let mut s = TargetSelect::new(5);
    // mark indices 3, 0 and 4, in a scrambled toggle order
    s.on_key(Key::Down);
    s.on_key(Key::Down);
    s.on_key(Key::Down);
    s.on_key(Key::Space);
    s.on_key(Key::Up);
    s.on_key(Key::Up);
    s.on_key(Key::Up);
    s.on_key(Key::Space);
    s.on_key(Key::Up);
    s.on_key(Key::Space);
    assert_eq!(s.marks, vec![true, false, false, true, true]);
    let done = s.on_key(Key::Letter('d'));
    assert_eq!(done, Some(vec![0, 3, 4]));
}

#[test]
fn target_quit_returns_nothing_despite_marks() {
    let mut s = TargetSelect::new(3);
    s.on_key(Key::Space);
    s.on_key(Key::Down);
    s.on_key(Key::Space);
    let done = s.on_key(Key::Letter('q'));
    assert_eq!(done, Some(Vec::new()));
}

#[test]
fn target_commit_without_marks_is_empty() {
    let mut s = TargetSelect::new(3);
    assert_eq!(s.on_key(Key::Letter('d')), Some(Vec::new()));
}

#[test]
fn target_empty_list_responds_only_to_quit() {
    let mut s = TargetSelect::new(0);
    assert!(s.on_key(Key::Up).is_none());
    assert!(s.on_key(Key::Down).is_none());
    assert!(s.on_key(Key::Space).is_none());
    assert!(s.on_key(Key::Enter).is_none());
    assert!(s.on_key(Key::Letter('d')).is_none());
    assert_eq!(s.on_key(Key::Letter('q')), Some(Vec::new()));
}

#[test]
fn gather_paths_follows_picks() {
    let items: Vec<Vec<String>> = vec![
        vec!["r".to_string(), "a".to_string(), "target".to_string()],
        vec!["r".to_string(), "b".to_string(), "target".to_string()],
        vec!["r".to_string(), "target".to_string()],
    ];
    let picks: Vec<usize> = vec![0, 2];
    let got = gather_paths(&items, &picks);
    assert_eq!(got, vec![items[0].clone(), items[2].clone()]);
}
