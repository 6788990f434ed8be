use assfonts::db::check_schema_version;
use assfonts::error::{join_strings, AssfontsError, CommandError};

#[test]
fn messages_follow_the_error_texts() {
    assert_eq!(AssfontsError::Io("denied".to_string()).message(), "io error: denied");
    assert_eq!(
        AssfontsError::MissingFontSource("/db".to_string()).message(),
        "no font source available: provide --fontpath or a valid fonts.index.json in /db"
    );
    assert_eq!(
        AssfontsError::MissingFonts("a.ass".to_string(), vec!["X (bold=400, italic=false)".to_string()]).message(),
        "missing required fonts: [\"X (bold=400, italic=false)\"], referenced in a.ass"
    );
    assert_eq!(AssfontsError::Interrupted.message(), "process was interrupted");
}

#[test]
fn command_errors_join_the_chain() {
    let inner = AssfontsError::Io("denied".to_string());
    let err = AssfontsError::in_context("ass path: a.ass".to_string(), inner);
    assert_eq!(
        err.messages(),
        vec!["ass path: a.ass".to_string(), "io error: denied".to_string(), "denied".to_string()]
    );
    assert_eq!(CommandError::from_error(&err).0, "ass path: a.ass -> io error: denied -> denied");
    assert_eq!(CommandError::from_error(&AssfontsError::Interrupted).0, "process was interrupted");
}

#[test]
fn joins() {
    assert_eq!(join_strings(&vec![], ", "), "");
    assert_eq!(join_strings(&vec!["a".to_string()], ", "), "a");
    assert_eq!(join_strings(&vec!["a".to_string(), "b".to_string()], " -> "), "a -> b");
}

#[test]
fn schema_versions() {
    assert!(check_schema_version(1, Some("1")));
    assert!(check_schema_version(1, Some("+1")));
    assert!(!check_schema_version(1, Some("2")));
    assert!(!check_schema_version(1, Some("one")));
    assert!(!check_schema_version(0, Some("1")));
    assert!(!check_schema_version(1, None));
}
