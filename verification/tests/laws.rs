use agent_friction::analysis::{analyze, Verdict};
use agent_friction::collapse::{collapse, CollapsedStat};
use agent_friction::display::{abbreviate, MAX_LEN};
use agent_friction::failures::{aggregate_failures, FailureRaw};
use agent_friction::{PermissionStat, Source};

fn stat(tool: &str, pattern: &str, allow_once: i64, allow_always: i64, deny: i64) -> PermissionStat {
    PermissionStat { tool: tool.into(), pattern: pattern.into(), allow_once, allow_always, deny }
}

fn find<'a>(out: &'a [CollapsedStat], pattern: &str) -> Option<&'a CollapsedStat> {
    out.iter().find(|c| c.pattern == pattern)
}

fn mixed() -> Vec<PermissionStat> {
    vec![
        stat("bash", "git status --short", 4, 1, 0),
        stat("bash", "git status --porcelain", 2, 0, 0),
        stat("bash", "git status", 3, 2, 0),
        stat("bash", "git push --force", 1, 0, 2),
        stat("bash", "git push origin", 6, 0, 0),
        stat("bash", "git push --tags", 1, 1, 0),
        stat("bash", "cat a > b", 1, 0, 0),
        stat("read", "src/lib.rs", 7, 0, 1),
        stat("bash", "*", 2, 0, 0),
    ]
}

#[test]
fn collapsing_keeps_every_count() {
    let stats = mixed();
    let out = collapse(&stats);
    let sum_in = |f: fn(&PermissionStat) -> i64| stats.iter().map(f).sum::<i64>();
    let sum_out = |f: fn(&CollapsedStat) -> i64| out.iter().map(f).sum::<i64>();
    assert_eq!(sum_in(|s| s.allow_once), sum_out(|c| c.allow_once));
    assert_eq!(sum_in(|s| s.allow_always), sum_out(|c| c.allow_always));
    assert_eq!(sum_in(|s| s.deny), sum_out(|c| c.deny));
    let members: usize = out.iter().map(|c| c.members.len()).sum();
    assert_eq!(members, stats.len());
}

#[test]
fn widened_rules_rest_on_three_undenied_patterns_of_their_prefix() {
    let out = collapse(&mixed());
    let widened: Vec<&CollapsedStat> = out.iter().filter(|c| c.is_collapsed()).collect();
    assert_eq!(widened.len(), 1);
    let c = widened[0];
    assert_eq!(c.tool, "bash");
    assert_eq!(c.pattern, "git status *");
    assert_eq!(c.deny, 0);
    assert!(c.members.len() >= 3);
    assert!(c.members.iter().all(|m| m.starts_with("git status")));
}

#[test]
fn a_widened_rule_is_the_sum_of_its_whole_family() {
    let out = collapse(&mixed());
    let c = find(&out, "git status *").unwrap();
    assert_eq!(c.allow_once, 4 + 2 + 3);
    assert_eq!(c.allow_always, 1 + 2);
    assert_eq!(c.deny, 0);
    let mut members = c.members.clone();
    members.sort();
    assert_eq!(members, vec!["git status", "git status --porcelain", "git status --short"]);
}

#[test]
fn git_push_force_refused_once_keeps_git_push_off_the_table() {
    let out = collapse(&mixed());
    assert!(find(&out, "git push *").is_none());
    assert!(find(&out, "git push --force").is_some());
    // Without the denial the same family does widen.
    let mut stats = mixed();
    stats[3].deny = 0;
    let out = collapse(&stats);
    let c = find(&out, "git push *").unwrap();
    assert_eq!(c.members.len(), 3);
}

#[test]
fn suggestions_list_recommendations_first() {
    let mut stats = mixed();
    stats.push(stat("bash", "make test", 40, 0, 0));
    let rank = |v: &Verdict| match v {
        Verdict::Allow { .. } => 0,
        Verdict::KeepAsking { .. } => 1,
        Verdict::Insufficient => 2,
    };
    let out = analyze(&stats);
    assert_eq!(out.len(), collapse(&stats).len());
    for w in out.windows(2) {
        let (a, b) = (rank(&w[0].verdict), rank(&w[1].verdict));
        assert!(a < b || (a == b && w[0].events >= w[1].events));
    }
    assert_eq!(out[0].pattern, "make test");
}

#[test]
fn abbreviations_fit_one_line() {
    for value in ["a\nb", "x\r\ny\tz", &"w ".repeat(100)] {
        let out = abbreviate(value);
        assert!(!out.contains('\n') && !out.contains('\r') && !out.contains('\t'));
        assert!(out.chars().count() <= MAX_LEN);
    }
}

#[test]
fn every_failure_is_counted_once_in_the_group_of_its_kind() {
    let rows: Vec<FailureRaw> = [
        ("bash", "exit 2: /a/b/x 12345", Source::Hook),
        ("bash", "exit 2: /c/d/x 67890", Source::Hook),
        ("bash", "exit 2: /c/d/x 67890", Source::Model),
        ("edit", "no such file /a/b/y", Source::Hook),
        ("bash", "exit 2: /e/x 11111", Source::Hook),
    ]
    .iter()
    .map(|(t, e, s)| FailureRaw { tool: t.to_string(), error: e.to_string(), source: *s })
    .collect();
    let out = aggregate_failures(&rows);
    let total: i64 = out.iter().map(|s| s.count).sum();
    assert_eq!(total, rows.len() as i64);
    for (i, a) in out.iter().enumerate() {
        for b in &out[i + 1..] {
            assert!(!(a.tool == b.tool && a.error_pattern == b.error_pattern && a.source == b.source));
            assert!(a.count >= b.count);
        }
    }
    assert_eq!(out[0].error_pattern, "exit 2: <path>/x <n>");
    assert_eq!(out[0].count, 3);
    assert_eq!(out[0].example, "exit 2: /a/b/x 12345");
}

#[test]
fn allow_is_suggested_only_when_nothing_in_the_family_was_denied() {
    let mut stats = vec![
        stat("bash", "tail -15", 20, 2, 0),
        stat("bash", "tail -20", 10, 2, 0),
        stat("bash", "tail -60", 6, 1, 0),
    ];
    let out = analyze(&stats);
    assert_eq!(out[0].verdict, Verdict::Allow { approvals: 61 });
    stats.push(stat("bash", "tail -f", 0, 0, 1));
    let out = analyze(&stats);
    // The family no longer folds; what is still allowed stands on its own,
    // undenied, evidence.
    assert!(out.iter().all(|s| s.pattern != "tail *"));
    for s in &out {
        if matches!(s.verdict, Verdict::Allow { .. }) {
            assert_eq!(s.members.len(), 1);
            let own = stats.iter().find(|x| x.pattern == s.pattern).unwrap();
            assert_eq!(own.deny, 0);
        }
    }
    assert_eq!(out[0].pattern, "tail -15");
    assert_eq!(out[0].verdict, Verdict::Allow { approvals: 30 });
}

#[test]
fn a_rule_observed_as_typed_is_judged_on_its_own_denials() {
    // `git push *` was itself observed, so it stands as a leaf: the denial of
    // `git push --force` folds into no widened rule and blocks nothing.
    let out = analyze(&[
        stat("bash", "git push *", 40, 0, 0),
        stat("bash", "git push --force", 0, 0, 1),
    ]);
    let push = out.iter().find(|s| s.pattern == "git push *").unwrap();
    assert_eq!(push.verdict, Verdict::Allow { approvals: 40 });
}
