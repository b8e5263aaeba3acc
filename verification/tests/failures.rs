use agent_friction::failures::{aggregate_failures, group_failures, FailureRaw, FailureStat};
use agent_friction::Source;

fn raw(tool: &str, error: &str, source: Source) -> FailureRaw {
    FailureRaw { tool: tool.into(), error: error.into(), source }
}

#[test]
fn failures_aggregate_global() {
    let rows = vec![
        raw("bash", "exit 1: /User/c/repo/foo/node_modules/bin/cypress: invalid argument", Source::Hook),
        raw("bash", "exit 1: /User/c/repo/bar/node_modules/bin/cypress: invalid argument", Source::Hook),
        raw("bash", "exit 1: /User/c/repo/bar/node_modules/bin/jest: invalid argument", Source::Hook),
        raw("bash", "exit 1: /User/c/repo/foo/node_modules/bin/cypress: invalid argument", Source::Hook),
    ];

    assert_eq!(
        aggregate_failures(&rows),
        vec![
            FailureStat {
                tool: "bash".into(),
                error_pattern: "exit 1: <path>/cypress: invalid argument".into(),
                example: "exit 1: /User/c/repo/foo/node_modules/bin/cypress: invalid argument".into(),
                count: 3,
                source: Source::Hook,
            },
            FailureStat {
                tool: "bash".into(),
                error_pattern: "exit 1: <path>/jest: invalid argument".into(),
                example: "exit 1: /User/c/repo/bar/node_modules/bin/jest: invalid argument".into(),
                count: 1,
                source: Source::Hook,
            },
        ]
    );
}

#[test]
fn failures_of_other_tools_and_sources_count_apart() {
    let rows = vec![
        raw("bash", "exit 1: /User/c/repo/foo/node_modules/bin/cypress: invalid argument", Source::Hook),
        raw("kubernetes_create_or_update", "exit 1: /User/c/repo/foo/node_modules/bin/cypress: invalid argument", Source::Hook),
        raw("bash", "exit 1: /User/c/repo/bar/node_modules/bin/cypress: invalid argument", Source::Model),
        raw("bash", "exit 1: /User/c/repo/bar/node_modules/bin/cypress: invalid argument", Source::Hook),
    ];
    let out = aggregate_failures(&rows);
    assert_eq!(out.len(), 3);
    assert_eq!(out[0].tool, "bash");
    assert_eq!(out[0].count, 2);
    assert_eq!(out[0].source, Source::Hook);
    assert_eq!(out[0].example, "exit 1: /User/c/repo/foo/node_modules/bin/cypress: invalid argument");
    // Ties on count and tool keep the order in which the kinds first occur.
    assert_eq!(out[1].tool, "bash");
    assert_eq!(out[1].source, Source::Model);
    assert_eq!(out[2].tool, "kubernetes_create_or_update");
    let total: i64 = out.iter().map(|s| s.count).sum();
    assert_eq!(total, rows.len() as i64);
}

#[test]
fn grouping_goes_by_the_patterns_given() {
    let rows = vec![
        raw("bash", "first", Source::Hook),
        raw("bash", "second", Source::Hook),
        raw("read", "third", Source::Model),
    ];
    let patterns = vec!["same".to_string(), "same".to_string(), "same".to_string()];
    let out = group_failures(&rows, &patterns);
    assert_eq!(out.len(), 2);
    assert_eq!(out[0].error_pattern, "same");
    assert_eq!(out[0].example, "first");
    assert_eq!(out[0].count, 2);
    assert_eq!(out[1].tool, "read");
    assert_eq!(out[1].count, 1);
}

#[test]
fn no_failures_give_no_stats() {
    assert!(aggregate_failures(&[]).is_empty());
}
