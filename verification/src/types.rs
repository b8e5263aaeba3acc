//! The answer given to a permission prompt and where a failure was seen.
use vstd::prelude::*;

use crate::error::Error;
use crate::text::str_eq;

verus! {

/// How a permission prompt was answered.
#[derive(Debug, Clone, Copy, PartialEq, Eq, Structural)]
pub enum Decision {
    AllowOnce,
    AllowAlways,
    Deny,
}

/// Who reported a tool failure.
#[derive(Debug, Clone, Copy, PartialEq, Eq, Structural)]
pub enum Source {
    Hook,
    Model,
}

/// The name a decision is stored and shown under.
pub open spec fn decision_name(d: Decision) -> Seq<char> {
    match d {
        Decision::AllowOnce => "allow_once"@,
        Decision::AllowAlways => "allow_always"@,
        Decision::Deny => "deny"@,
    }
}

/// The name a source is stored and shown under.
pub open spec fn source_name(s: Source) -> Seq<char> {
    match s {
        Source::Hook => "hook"@,
        Source::Model => "model"@,
    }
}

/// The decision named `s`, if any.
pub open spec fn decision_named(s: Seq<char>) -> Option<Decision> {
    if s == "allow_once"@ {
        Some(Decision::AllowOnce)
    } else if s == "allow_always"@ {
        Some(Decision::AllowAlways)
    } else if s == "deny"@ {
        Some(Decision::Deny)
    } else {
        None
    }
}

/// The source named `s`, if any.
pub open spec fn source_named(s: Seq<char>) -> Option<Source> {
    if s == "hook"@ {
        Some(Source::Hook)
    } else if s == "model"@ {
        Some(Source::Model)
    } else {
        None
    }
}

impl Decision {
    pub fn as_str(&self) -> (r: &'static str)
        ensures
            r@ == decision_name(*self),
    {
        match self {
            Decision::AllowOnce => "allow_once",
            Decision::AllowAlways => "allow_always",
            Decision::Deny => "deny",
        }
    }

    /// Reads a decision from its name; any other text is a parse error that
    /// carries the text.
    pub fn parse(s: &str) -> (r: Result<Decision, Error>)
        ensures
            match decision_named(s@) {
                Some(d) => r == Ok::<Decision, Error>(d),
                None => r matches Err(Error::Parse { kind, value }) && kind@ == "decision"@ && value@
                    == s@,
            },
    {
        if str_eq(s, "allow_once") {
            Ok(Decision::AllowOnce)
        } else if str_eq(s, "allow_always") {
            Ok(Decision::AllowAlways)
        } else if str_eq(s, "deny") {
            Ok(Decision::Deny)
        } else {
            Err(Error::Parse { kind: "decision", value: s.to_owned() })
        }
    }
}

impl Source {
    pub fn as_str(&self) -> (r: &'static str)
        ensures
            r@ == source_name(*self),
    {
        match self {
            Source::Hook => "hook",
            Source::Model => "model",
        }
    }

    /// Reads a source from its name; any other text is a parse error that
    /// carries the text.
    pub fn parse(s: &str) -> (r: Result<Source, Error>)
        ensures
            match source_named(s@) {
                Some(x) => r == Ok::<Source, Error>(x),
                None => r matches Err(Error::Parse { kind, value }) && kind@ == "source"@ && value@
                    == s@,
            },
    {
        if str_eq(s, "hook") {
            Ok(Source::Hook)
        } else if str_eq(s, "model") {
            Ok(Source::Model)
        } else {
            Err(Error::Parse { kind: "source", value: s.to_owned() })
        }
    }
}

/// Every decision reads back from its own name.
pub proof fn decision_name_round_trip(d: Decision)
    ensures
        decision_named(decision_name(d)) == Some(d),
{
    reveal_strlit("allow_once");
    reveal_strlit("allow_always");
    reveal_strlit("deny");
    assert("allow_once"@.len() == 10 && "allow_always"@.len() == 12 && "deny"@.len() == 4);
}

/// Every source reads back from its own name.
pub proof fn source_name_round_trip(s: Source)
    ensures
        source_named(source_name(s)) == Some(s),
{
    reveal_strlit("hook");
    reveal_strlit("model");
    assert("hook"@.len() == 4 && "model"@.len() == 5);
}

} // verus!
