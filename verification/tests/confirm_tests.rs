use target_deleter::confirm::confirm;

#[test]
fn confirm_accepts_lowercase_y() {
    assert!(confirm("y"));
}

#[test]
fn confirm_accepts_uppercase_y() {
    assert!(confirm("Y"));
}

#[test]
fn confirm_trims_surrounding_whitespace() {
    assert!(confirm(" y "));
    assert!(confirm("\ty\n"));
    assert!(confirm("Y\r\n"));
    assert!(confirm("   Y"));
}

#[test]
fn confirm_rejects_words() {
    assert!(!confirm("yes"));
    assert!(!confirm("Yes"));
    assert!(!confirm("YES"));
    assert!(!confirm("yy"));
    assert!(!confirm("y y"));
}

#[test]
fn confirm_trims_unicode_whitespace() {
    assert!(confirm("\u{a0}y\u{a0}"));
    assert!(confirm("\u{2003}Y\u{3000}"));
    assert!(confirm("\u{85}\u{2028}y\u{202f}"));
    assert!(!confirm("\u{a0}"));
    assert!(!confirm("\u{2003}\u{2028}"));
}

#[test]
fn confirm_rejects_empty_and_blank() {
    assert!(!confirm(""));
    assert!(!confirm(" "));
    assert!(!confirm("  \t\n"));
}

#[test]
fn confirm_rejects_other_answers() {
    assert!(!confirm("n"));
    assert!(!confirm("N"));
    assert!(!confirm("no"));
    assert!(!confirm("q"));
    assert!(!confirm("\u{3bb}"));
}
