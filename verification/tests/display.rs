use agent_friction::display::{abbreviate, ELLIPSIS, MAX_LEN};

#[test]
fn collapses_newlines_into_one_line() {
    assert_eq!(abbreviate("python3 - <<'EOF'\nimport re\nEOF"), "python3 - <<'EOF' import re EOF");
}

#[test]
fn leaves_ordinary_patterns_alone() {
    assert_eq!(abbreviate("git status --short"), "git status --short");
}

#[test]
fn caps_long_values() {
    let out = abbreviate(&"x".repeat(200));
    assert_eq!(out.chars().count(), MAX_LEN);
    assert!(out.ends_with(ELLIPSIS));
}

#[test]
fn squeezes_runs_of_whitespace_and_trims_the_ends() {
    assert_eq!(abbreviate("  ls \t -la\r\n  /tmp  "), "ls -la /tmp");
}

#[test]
fn a_value_of_exactly_the_cap_is_not_cut() {
    let value = "y".repeat(MAX_LEN);
    assert_eq!(abbreviate(&value), value);
    let longer = "y".repeat(MAX_LEN + 1);
    let out = abbreviate(&longer);
    assert_eq!(out, format!("{}{}", "y".repeat(MAX_LEN - 1), ELLIPSIS));
}

#[test]
fn cuts_by_characters_not_bytes() {
    let value = "é".repeat(70);
    let out = abbreviate(&value);
    assert_eq!(out.chars().count(), MAX_LEN);
    assert_eq!(out, format!("{}{}", "é".repeat(MAX_LEN - 1), ELLIPSIS));
}

#[test]
fn empty_and_blank_values_abbreviate_to_nothing() {
    assert_eq!(abbreviate(""), "");
    assert_eq!(abbreviate(" \n\t "), "");
}

#[test]
fn abbreviating_twice_changes_nothing() {
    let long = format!("{}  \n {}", "word ".repeat(20), "z".repeat(30));
    for value in ["git status --short", "a\n  b\t c", "", &"x".repeat(200), &long] {
        let once = abbreviate(value);
        assert_eq!(abbreviate(&once), once);
    }
}
