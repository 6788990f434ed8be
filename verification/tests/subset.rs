use assfonts::subset::{subset, subset_with_allsorts, SubsetErrorKind, SubsetFailure};

#[test]
fn failure_messages_carry_the_stage() {
    let f = SubsetFailure { kind: SubsetErrorKind::ReadWrite, detail: "x".to_string() };
    assert_eq!(f.message(), "read/write error: x");
    let f = SubsetFailure { kind: SubsetErrorKind::Subset, detail: "y".to_string() };
    assert_eq!(f.message(), "font subsetting error: y");
    let f = SubsetFailure { kind: SubsetErrorKind::Parse, detail: "z".to_string() };
    assert_eq!(f.message(), "parse error: z");
}

#[test]
fn garbage_does_not_subset() {
    let err = subset_with_allsorts(b"not a font at all", &['a']).unwrap_err();
    assert_eq!(err.kind, SubsetErrorKind::Parse);
    let again = subset(b"not a font at all", &['a']).unwrap_err();
    assert_eq!(again.kind, err.kind);
    assert_eq!(again.detail, err.detail);
}
