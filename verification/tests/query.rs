use agent_friction::collapse::CollapsedStat;
use agent_friction::migrations::{pending_migrations, version_after};
use agent_friction::{Error, Scope};

#[test]
fn a_scope_names_its_repository() {
    assert_eq!(Scope::Global.as_repo(), None);
    assert_eq!(Scope::Repo("test".into()).as_repo(), Some("test"));
    assert_eq!(Scope::from(None), Scope::Global);
    assert_eq!(Scope::from(Some("test".to_string())), Scope::Repo("test".into()));
}

#[test]
fn a_rule_counts_every_prompt_it_answers() {
    let c = CollapsedStat {
        tool: "bash".into(),
        pattern: "tail *".into(),
        allow_once: 3,
        allow_always: 2,
        deny: 1,
        members: vec!["tail -1".into(), "tail -2".into()],
    };
    assert_eq!(c.total_events(), 6);
    assert!(c.is_collapsed());
    let single = CollapsedStat { members: vec!["tail -1".into()], ..c };
    assert!(!single.is_collapsed());
}

#[test]
fn migrations_pending_from_the_current_version() {
    assert_eq!(pending_migrations(0, 1).unwrap(), vec![0]);
    assert_eq!(pending_migrations(1, 1).unwrap(), Vec::<usize>::new());
    assert_eq!(pending_migrations(1, 4).unwrap(), vec![1, 2, 3]);
    assert_eq!(version_after(0), 1);
}

#[test]
fn migrations_refuse_versions_they_do_not_know() {
    assert!(matches!(pending_migrations(-1, 1), Err(Error::MigrationVersion(-1))));
    assert!(matches!(pending_migrations(2, 1), Err(Error::DatabaseVersion(2))));
}
