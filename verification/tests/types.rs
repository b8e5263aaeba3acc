use agent_friction::{Decision, Error, Source};

#[test]
fn test_decision_from_str_display_round_trip() -> Result<(), String> {
    for d in [Decision::AllowOnce, Decision::AllowAlways, Decision::Deny] {
        let back = Decision::parse(&d.as_str().to_string()).map_err(|e| format!("{e:?}"))?;
        assert_eq!(back, d);
    }
    Ok(())
}

#[test]
fn test_source_from_str_display_round_trip() -> Result<(), String> {
    for s in [Source::Hook, Source::Model] {
        let back = Source::parse(&s.as_str().to_string()).map_err(|e| format!("{e:?}"))?;
        assert_eq!(back, s);
    }
    Ok(())
}

#[test]
fn names_are_the_stored_spellings() {
    assert_eq!(Decision::AllowOnce.as_str(), "allow_once");
    assert_eq!(Decision::AllowAlways.as_str(), "allow_always");
    assert_eq!(Decision::Deny.as_str(), "deny");
    assert_eq!(Source::Hook.as_str(), "hook");
    assert_eq!(Source::Model.as_str(), "model");
}

#[test]
fn unknown_names_are_refused_with_the_text() {
    match Decision::parse("bogus") {
        Err(Error::Parse { kind, value }) => {
            assert_eq!(kind, "decision");
            assert_eq!(value, "bogus");
        }
        other => panic!("unexpected {other:?}"),
    }
    match Source::parse("Hook") {
        Err(Error::Parse { kind, value }) => {
            assert_eq!(kind, "source");
            assert_eq!(value, "Hook");
        }
        other => panic!("unexpected {other:?}"),
    }
}
