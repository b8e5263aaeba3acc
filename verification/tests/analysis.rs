use agent_friction::analysis::{
    analysis_fits, analyze, Suggestion, Verdict, APPROVAL_THRESHOLD, DENIED_REASON,
};
use agent_friction::PermissionStat;

fn stat(pattern: &str, allow_once: i64, allow_always: i64, deny: i64) -> PermissionStat {
    PermissionStat {
        tool: "bash".into(),
        pattern: pattern.into(),
        allow_once,
        allow_always,
        deny,
    }
}

/// How sure an `Allow` is: a half at the threshold, rising linearly to
/// certainty seventy approvals above it.
fn confidence(approvals: i64) -> f64 {
    0.5 + ((approvals as f64 - APPROVAL_THRESHOLD as f64) / 140.0).clamp(0.0, 0.5)
}

#[derive(Debug, PartialEq)]
enum Judged {
    Allow { confidence: f64 },
    KeepAsking { reason: String },
    Insufficient,
}

#[derive(Debug, PartialEq)]
struct Row {
    tool: String,
    pattern: String,
    verdict: Judged,
    members: Vec<String>,
    events: i64,
}

fn row(s: &Suggestion) -> Row {
    Row {
        tool: s.tool.clone(),
        pattern: s.pattern.clone(),
        verdict: match &s.verdict {
            Verdict::Allow { approvals } => Judged::Allow { confidence: confidence(*approvals) },
            Verdict::KeepAsking { reason } => Judged::KeepAsking { reason: reason.clone() },
            Verdict::Insufficient => Judged::Insufficient,
        },
        members: s.members.clone(),
        events: s.events,
    }
}

#[test]
fn analysis_approval_thresholds() {
    // None of these families are broad enough to collapse, so each is
    // judged on its own and the ordering is the ranking.
    let stats = vec![
        stat("git status *", 0, 20, 0),
        stat("git push *", 20, 2, 0),
        stat("go run *", 17, 1, 0),
        stat("rm *", 20, 2, 1),
        stat("rm -rf *", 0, 0, 3),
    ];

    let got: Vec<Row> = analyze(&stats).iter().map(row).collect();
    assert_eq!(
        got,
        vec![
            Row {
                tool: "bash".into(),
                pattern: "git push *".into(),
                verdict: Judged::Allow { confidence: 0.5 },
                members: vec!["git push *".into()],
                events: 22,
            },
            Row {
                tool: "bash".into(),
                pattern: "git status *".into(),
                verdict: Judged::Allow { confidence: 1.0 },
                members: vec!["git status *".into()],
                events: 20,
            },
            Row {
                tool: "bash".into(),
                pattern: "rm *".into(),
                verdict: Judged::KeepAsking { reason: "Tool was denied at least once".into() },
                members: vec!["rm *".into()],
                events: 23,
            },
            Row {
                tool: "bash".into(),
                pattern: "rm -rf *".into(),
                verdict: Judged::KeepAsking { reason: "Tool was denied at least once".into() },
                members: vec!["rm -rf *".into()],
                events: 3,
            },
            Row {
                tool: "bash".into(),
                pattern: "go run *".into(),
                verdict: Judged::Insufficient,
                members: vec!["go run *".into()],
                events: 18,
            },
        ]
    );
}

/// Why collapsing exists: three flag variants that would each be dismissed
/// as Insufficient (12, 11 and 10 approvals against a bar of 30) clear it
/// comfortably once folded into the rule they all support.
#[test]
fn collapsing_lets_scattered_evidence_reach_a_verdict() {
    let stats = vec![
        stat("git status --short", 12, 0, 0),
        stat("git status --porcelain", 11, 0, 0),
        stat("git status", 10, 0, 0),
    ];

    let suggestions = analyze(&stats);

    assert_eq!(suggestions.len(), 1);
    assert_eq!(suggestions[0].pattern, "git status *");
    assert_eq!(suggestions[0].events, 33);
    assert_eq!(suggestions[0].members.len(), 3);
    assert!(matches!(suggestions[0].verdict, Verdict::Allow { .. }));
}

#[test]
fn the_threshold_itself_is_enough_and_one_less_is_not() {
    let at = analyze(&[stat("make test", 30, 0, 0)]);
    assert_eq!(at[0].verdict, Verdict::Allow { approvals: 30 });
    let below = analyze(&[stat("make test", 29, 0, 0)]);
    assert_eq!(below[0].verdict, Verdict::Insufficient);
    // An "always" counts as five one-off approvals.
    let always = analyze(&[stat("make test", 0, 6, 0)]);
    assert_eq!(always[0].verdict, Verdict::Allow { approvals: 30 });
}

#[test]
fn confidence_tops_out_seventy_approvals_above_the_threshold() {
    assert_eq!(confidence(30), 0.5);
    assert_eq!(confidence(65), 0.75);
    assert_eq!(confidence(100), 1.0);
    assert_eq!(confidence(500), 1.0);
}

#[test]
fn a_single_denial_outweighs_any_number_of_approvals() {
    let out = analyze(&[stat("git push", 1000, 1000, 1)]);
    assert_eq!(
        out[0].verdict,
        Verdict::KeepAsking { reason: DENIED_REASON.to_string() }
    );
    assert_eq!(out[0].events, 2001);
}

#[test]
fn ties_on_rank_and_events_are_listed_by_tool_then_pattern() {
    let stats = vec![
        PermissionStat { tool: "read".into(), pattern: "b.rs".into(), allow_once: 5, allow_always: 0, deny: 0 },
        PermissionStat { tool: "edit".into(), pattern: "z.rs".into(), allow_once: 5, allow_always: 0, deny: 0 },
        PermissionStat { tool: "read".into(), pattern: "a.rs".into(), allow_once: 5, allow_always: 0, deny: 0 },
    ];
    let order: Vec<(String, String)> =
        analyze(&stats).iter().map(|s| (s.tool.clone(), s.pattern.clone())).collect();
    assert_eq!(
        order,
        vec![
            ("edit".to_string(), "z.rs".to_string()),
            ("read".to_string(), "a.rs".to_string()),
            ("read".to_string(), "b.rs".to_string()),
        ]
    );
}

#[test]
fn nothing_to_analyze_gives_nothing() {
    assert!(analyze(&[]).is_empty());
}

#[test]
fn analysis_fits_only_counts_that_sum_within_range() {
    assert!(analysis_fits(&[stat("ls", 10, 2, 1)]));
    assert!(analysis_fits(&[]));
    assert!(!analysis_fits(&[stat("ls", 0, i64::MAX / 4, 0)]));
    // Two families that each fit can be analyzed together.
    assert!(analysis_fits(&[stat("ls", i64::MAX, 0, 0), stat("pwd", 1, 0, 0)]));
    // Two patterns of one family that stay apart are never added up.
    assert!(analysis_fits(&[stat("ls -a", i64::MAX, 0, 0), stat("ls -l", 1, 0, 0)]));
    // A widened rule whose approvals add up past the range cannot be judged.
    assert!(!analysis_fits(&[
        stat("ls -a", i64::MAX, 0, 0),
        stat("ls -l", 1, 0, 0),
        stat("ls -h", 0, 0, 0),
    ]));
    // Nor can one whose prompts together overflow.
    assert!(!analysis_fits(&[stat("ls", i64::MAX, 1, 0)]));
    // Patterns of other tools and shell syntax are never added up.
    let read = |p: &str| PermissionStat {
        tool: "read".into(),
        pattern: p.into(),
        allow_once: i64::MAX,
        allow_always: 0,
        deny: 0,
    };
    assert!(analysis_fits(&[read("a"), read("b")]));
    assert!(analysis_fits(&[stat("ls > a", i64::MAX, 0, 0), stat("ls > b", i64::MAX, 0, 0)]));
    assert!(analysis_fits(&[stat("ls", i64::MIN, 0, 0)]));
    // Large counts of different kinds are judged as long as each sum fits.
    assert!(analysis_fits(&[stat("ls", 0, 1 << 60, 1 << 62)]));
}

#[test]
fn large_counts_are_judged_when_each_sum_fits() {
    let out = analyze(&[stat("ls", 0, 1 << 60, 1 << 62)]);
    assert_eq!(out.len(), 1);
    assert_eq!(out[0].events, (1 << 60) + (1 << 62));
    assert_eq!(out[0].verdict, Verdict::KeepAsking { reason: DENIED_REASON.to_string() });
}

#[test]
fn families_apart_are_analyzed_even_when_their_total_is_large() {
    let out = analyze(&[stat("ls", i64::MAX, 0, 0), stat("pwd", 40, 0, 0)]);
    assert_eq!(out.len(), 2);
    assert_eq!(out[0].pattern, "ls");
    assert_eq!(out[0].verdict, Verdict::Allow { approvals: i64::MAX });
}
