use agent_friction::failures::FailureStat;
use agent_friction::limits::Limits;
use agent_friction::{PermissionStat, Source};

fn stat(pattern: &str, allow_once: i64, deny: i64) -> PermissionStat {
    PermissionStat { tool: "bash".into(), pattern: pattern.into(), allow_once, allow_always: 0, deny }
}

fn patterns(rows: &[PermissionStat]) -> Vec<&str> {
    rows.iter().map(|s| s.pattern.as_str()).collect()
}

#[test]
fn default_limits_keep_everything() {
    let rows = vec![stat("a", 0, 0), stat("b", 5, 0)];
    assert_eq!(Limits::default().apply(rows.clone()), rows);
}

#[test]
fn min_count_hides_what_was_seen_too_rarely() {
    let rows = vec![stat("a", 1, 0), stat("b", 2, 1), stat("c", 5, 0)];
    let out = Limits { min_count: 3, limit: None }.apply(rows);
    assert_eq!(patterns(&out), vec!["b", "c"]);
}

#[test]
fn limit_keeps_the_busiest_rows_in_their_order() {
    let rows = vec![stat("a", 1, 0), stat("b", 9, 0), stat("c", 5, 0), stat("d", 2, 0)];
    assert_eq!(patterns(&Limits { min_count: 0, limit: Some(2) }.apply(rows.clone())), vec!["b", "c"]);
    // Ties go to the row listed first.
    let tied = vec![stat("a", 3, 0), stat("b", 1, 2), stat("c", 3, 0)];
    assert_eq!(patterns(&Limits { min_count: 0, limit: Some(1) }.apply(tied.clone())), vec!["a"]);
    assert_eq!(patterns(&Limits { min_count: 0, limit: Some(2) }.apply(tied)), vec!["a", "b"]);
}

#[test]
fn limit_keeps_the_first_rows_of_a_busiest_first_list() {
    let rows = vec![stat("a", 9, 0), stat("b", 8, 0), stat("c", 7, 0)];
    assert_eq!(patterns(&Limits { min_count: 0, limit: Some(2) }.apply(rows.clone())), vec!["a", "b"]);
    assert!(Limits { min_count: 0, limit: Some(0) }.apply(rows.clone()).is_empty());
    assert!(Limits { min_count: 0, limit: Some(-3) }.apply(rows.clone()).is_empty());
    assert_eq!(Limits { min_count: 0, limit: Some(10) }.apply(rows.clone()).len(), 3);
}

#[test]
fn both_limits_apply_filter_first() {
    let rows = vec![stat("a", 1, 0), stat("b", 8, 0), stat("c", 7, 0), stat("d", 6, 0)];
    let out = Limits { min_count: 5, limit: Some(2) }.apply(rows);
    assert_eq!(patterns(&out), vec!["b", "c"]);
}

#[test]
fn failure_stats_are_limited_by_count() {
    let f = |count: i64| FailureStat {
        tool: "bash".into(),
        error_pattern: format!("e{count}"),
        example: String::new(),
        count,
        source: Source::Hook,
    };
    let out = Limits { min_count: 2, limit: None }.apply(vec![f(1), f(2), f(3)]);
    assert_eq!(out.len(), 2);
    assert_eq!(out[0].count, 2);
}
