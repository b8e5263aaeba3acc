use agent_friction::collapse::{collapse, CollapsedStat};
use agent_friction::PermissionStat;

fn stat(tool: &str, pattern: &str, allow_once: i64, deny: i64) -> PermissionStat {
    PermissionStat {
        tool: tool.into(),
        pattern: pattern.into(),
        allow_once,
        allow_always: 0,
        deny,
    }
}

fn find<'a>(out: &'a [CollapsedStat], pattern: &str) -> Option<&'a CollapsedStat> {
    out.iter().find(|c| c.pattern == pattern)
}

#[test]
fn folds_a_broad_subcommand_and_sums_its_evidence() {
    let out = collapse(&[
        stat("bash", "git status --short", 1, 0),
        stat("bash", "git status --porcelain", 2, 0),
        stat("bash", "git status", 3, 0),
    ]);

    assert_eq!(out.len(), 1);
    let c = find(&out, "git status *").unwrap();
    assert_eq!(c.allow_once, 6);
    assert_eq!(c.members.len(), 3);
    assert!(c.is_collapsed());
}

#[test]
fn keeps_thin_evidence_specific() {
    let out = collapse(&[
        stat("bash", "git status --short", 20, 0),
        stat("bash", "git status", 20, 0),
    ]);

    assert_eq!(out.len(), 2);
    assert!(out.iter().all(|c| !c.is_collapsed()));
}

#[test]
fn never_widens_to_a_bare_command() {
    let out = collapse(&[
        stat("bash", "git status", 5, 0),
        stat("bash", "git log", 5, 0),
        stat("bash", "git diff", 5, 0),
    ]);

    assert!(find(&out, "git *").is_none());
    assert_eq!(out.len(), 3);
}

#[test]
fn widens_a_bare_command_that_only_varies_by_flags() {
    let out = collapse(&[
        stat("bash", "tail -15", 1, 0),
        stat("bash", "tail -20", 1, 0),
        stat("bash", "tail -60", 1, 0),
    ]);

    let c = find(&out, "tail *").unwrap();
    assert_eq!(c.members.len(), 3);
}

#[test]
fn an_operand_stops_a_bare_command_from_widening() {
    let out = collapse(&[
        stat("bash", "rm -f notes.txt", 5, 0),
        stat("bash", "rm -f scratch.txt", 5, 0),
        stat("bash", "rm -rf build", 5, 0),
    ]);

    assert!(find(&out, "rm *").is_none());
    assert!(find(&out, "rm -f *").is_none());
}

#[test]
fn a_deny_anywhere_blocks_the_whole_subtree() {
    let out = collapse(&[
        stat("bash", "git push --force", 0, 1),
        stat("bash", "git push origin", 5, 0),
        stat("bash", "git push --tags", 5, 0),
        stat("bash", "git push -u", 5, 0),
    ]);

    assert!(find(&out, "git push *").is_none());
    assert_eq!(out.len(), 4);
}

#[test]
fn shell_syntax_is_left_alone() {
    let out = collapse(&[
        stat("bash", "make test 2>&1", 1, 0),
        stat("bash", "make test --verbose", 1, 0),
        stat("bash", "make test -j4", 1, 0),
        stat("bash", "make test -k", 1, 0),
    ]);

    let c = find(&out, "make test *").unwrap();
    assert_eq!(c.members.len(), 3);
    assert!(find(&out, "make test 2>&1").is_some());
}

#[test]
fn only_bash_is_collapsed_for_now() {
    let out = collapse(&[
        stat("read", "crates/core/src/query.rs", 5, 0),
        stat("read", "crates/core/src/store.rs", 5, 0),
        stat("read", "crates/core/src/db.rs", 5, 0),
    ]);

    assert_eq!(out.len(), 3);
    assert!(out.iter().all(|c| !c.is_collapsed()));
}

#[test]
fn independent_families_do_not_bleed_together() {
    let out = collapse(&[
        stat("bash", "cargo test --workspace", 1, 0),
        stat("bash", "cargo test -p core", 1, 0),
        stat("bash", "cargo test --lib", 1, 0),
        stat("bash", "cargo build --release", 1, 0),
    ]);

    assert!(find(&out, "cargo test *").is_some());
    assert!(find(&out, "cargo build --release").is_some());
    assert!(find(&out, "cargo *").is_none());
}

#[test]
fn counts_that_are_never_added_up_may_be_as_large_as_they_like() {
    let big = PermissionStat {
        tool: "bash".into(),
        pattern: "git status -a".into(),
        allow_once: 1 << 62,
        allow_always: 1 << 62,
        deny: 0,
    };
    let other = PermissionStat { pattern: "git status -b".into(), ..big.clone() };
    let out = collapse(&[big.clone(), other]);
    assert_eq!(out.len(), 2);
    assert!(out.iter().all(|c| !c.is_collapsed()));
    let single = PermissionStat { allow_once: i64::MAX, allow_always: 1, ..big };
    let out = collapse(&[single]);
    assert_eq!(out[0].allow_once, i64::MAX);
    assert_eq!(out[0].allow_always, 1);
}
