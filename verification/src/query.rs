//! Per-pattern permission counts, and the scope counts are gathered over.
use vstd::prelude::*;

verus! {

/// How often one permission pattern of one tool was answered each way.
#[derive(Debug, Clone, PartialEq)]
pub struct PermissionStat {
    pub tool: String,
    pub pattern: String,
    pub allow_once: i64,
    pub allow_always: i64,
    pub deny: i64,
}

/// The mathematical content of a [`PermissionStat`].
pub struct StatView {
    pub tool: Seq<char>,
    pub pattern: Seq<char>,
    pub allow_once: i64,
    pub allow_always: i64,
    pub deny: i64,
}

impl View for PermissionStat {
    type V = StatView;

    open spec fn view(&self) -> StatView {
        StatView {
            tool: self.tool@,
            pattern: self.pattern@,
            allow_once: self.allow_once,
            allow_always: self.allow_always,
            deny: self.deny,
        }
    }
}

impl PermissionStat {
    /// A field-by-field copy.
    pub fn copy(&self) -> (r: PermissionStat)
        ensures
            r@ == self@,
    {
        PermissionStat {
            tool: self.tool.clone(),
            pattern: self.pattern.clone(),
            allow_once: self.allow_once,
            allow_always: self.allow_always,
            deny: self.deny,
        }
    }
}

/// Which events a query looks at: all of them, or one repository's.
#[derive(Debug, Clone, PartialEq)]
pub enum Scope {
    Global,
    Repo(String),
}

impl Scope {
    /// The repository the scope is limited to, if any.
    pub fn as_repo(&self) -> (r: Option<&str>)
        ensures
            match self {
                Scope::Global => r is None,
                Scope::Repo(repo) => r matches Some(x) && x@ == repo@,
            },
    {
        match self {
            Scope::Repo(repo) => Some(repo.as_str()),
            Scope::Global => None,
        }
    }
}

/// The scope of one repository, or of all events when none is named.
impl From<Option<String>> for Scope {
    fn from(repo: Option<String>) -> (r: Scope) {
        match repo {
            Some(name) => Scope::Repo(name),
            None => Scope::Global,
        }
    }
}

impl vstd::std_specs::convert::FromSpecImpl<Option<String>> for Scope {
    open spec fn obeys_from_spec() -> bool {
        true
    }

    open spec fn from_spec(repo: Option<String>) -> Scope {
        match repo {
            Some(name) => Scope::Repo(name),
            None => Scope::Global,
        }
    }
}

} // verus!
