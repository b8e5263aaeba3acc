use agent_friction::analysis::{analyze, Suggestion, Verdict};
use agent_friction::failures::FailureStat;
use agent_friction::report::{
    confidence_percent, decimal, evidence, failure_row, permission_row, suggestion_row, verdict_text,
};
use agent_friction::{PermissionStat, Source};

#[test]
fn decimals() {
    assert_eq!(decimal(0), "0");
    assert_eq!(decimal(7), "7");
    assert_eq!(decimal(41), "41");
    assert_eq!(decimal(-305), "-305");
    assert_eq!(decimal(i64::MAX), i64::MAX.to_string());
    assert_eq!(decimal(i64::MIN), i64::MIN.to_string());
}

#[test]
fn confidence_in_percent() {
    assert_eq!(confidence_percent(30), 50);
    assert_eq!(confidence_percent(61), 72);
    assert_eq!(confidence_percent(65), 75);
    assert_eq!(confidence_percent(100), 100);
    assert_eq!(confidence_percent(1000), 100);
    assert_eq!(confidence_percent(0), 50);
    for a in 30..=100i64 {
        let f = 0.5 + ((a as f64 - 30.0) / 140.0).clamp(0.0, 0.5);
        assert_eq!(format!("{:.0}", f * 100.0), confidence_percent(a).to_string());
    }
}

#[test]
fn verdicts_in_words() {
    assert_eq!(verdict_text(&Verdict::Allow { approvals: 61 }), "allow (72%)");
    assert_eq!(
        verdict_text(&Verdict::KeepAsking { reason: "Tool was denied at least once".into() }),
        "keep asking: Tool was denied at least once"
    );
    assert_eq!(verdict_text(&Verdict::Insufficient), "insufficient data");
}

fn stat(pattern: &str, allow_once: i64, allow_always: i64) -> PermissionStat {
    PermissionStat { tool: "bash".into(), pattern: pattern.into(), allow_once, allow_always, deny: 0 }
}

#[test]
fn the_tail_family_folds_into_one_recommendation() {
    let out = analyze(&[stat("tail -15", 20, 2), stat("tail -20", 10, 2), stat("tail -60", 6, 1)]);
    assert_eq!(out.len(), 1);
    assert_eq!(
        suggestion_row(&out[0]),
        vec!["bash", "tail *", "allow (72%)", "41", "tail -15\ntail -20\ntail -60"]
    );
}

#[test]
fn a_rule_that_was_not_widened_shows_no_evidence() {
    let s = Suggestion {
        tool: "bash".into(),
        pattern: "ls".into(),
        verdict: Verdict::Insufficient,
        members: vec!["ls".into()],
        events: 2,
    };
    assert_eq!(evidence(&s), "-");
    assert_eq!(suggestion_row(&s), vec!["bash", "ls", "insufficient data", "2", "-"]);
}

#[test]
fn evidence_lines_are_abbreviated() {
    let s = Suggestion {
        tool: "bash".into(),
        pattern: "echo *".into(),
        verdict: Verdict::Insufficient,
        members: vec!["echo a\nb".into(), "echo  c".into()],
        events: 2,
    };
    assert_eq!(evidence(&s), "echo a b\necho c");
}

#[test]
fn count_rows() {
    let p = PermissionStat {
        tool: "read".into(),
        pattern: "cat\nfile".into(),
        allow_once: 3,
        allow_always: 12,
        deny: 1,
    };
    assert_eq!(permission_row(&p), vec!["read", "12", "3", "1", "cat file"]);
    let f = FailureStat {
        tool: "bash".into(),
        error_pattern: "exit 1: <path>/jest".into(),
        example: "exit 1: /a/b/jest".into(),
        count: 4,
        source: Source::Model,
    };
    assert_eq!(failure_row(&f), vec!["bash", "4", "exit 1: <path>/jest", "exit 1: /a/b/jest", "model"]);
}
