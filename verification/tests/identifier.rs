use fedramp_controls::control_id::{ControlID, ParseControlIDErr};

#[test]
fn parse_plain_identifier_round_trips() {
    let id = ControlID::parse("AC-2").unwrap();
    assert!(!id.is_empty());
    assert_eq!(id.to_display_text(), "AC-2");
}

#[test]
fn parse_subnumbered_identifier_round_trips() {
    let id = ControlID::parse("AC-2 (1)").unwrap();
    assert_eq!(id.to_display_text(), "AC-2 (1)");
}

#[test]
fn zero_subnumber_never_renders_parentheses() {
    let id = ControlID::parse("AC-2 (0)").unwrap();
    assert_eq!(id.to_display_text(), "AC-2");
}

#[test]
fn parse_finds_first_match_anywhere() {
    let id = ControlID::parse("see AC-17 (3) for details").unwrap();
    assert_eq!(id.to_display_text(), "AC-17 (3)");
}

#[test]
fn parse_takes_leftmost_match() {
    let id = ControlID::parse("CM-8 then AC-2").unwrap();
    assert_eq!(id.to_display_text(), "CM-8");
}

#[test]
fn parse_accepts_multiple_spaces_before_parenthesis() {
    let id = ControlID::parse("SC-7   (5)").unwrap();
    assert_eq!(id.to_display_text(), "SC-7 (5)");
}

#[test]
fn parse_accepts_unicode_whitespace_before_parenthesis() {
    let id = ControlID::parse("SC-7\u{a0}(5)").unwrap();
    assert_eq!(id.to_display_text(), "SC-7 (5)");
}

#[test]
fn parse_fails_without_pattern() {
    assert_eq!(ControlID::parse(""), Err(ParseControlIDErr));
    assert_eq!(ControlID::parse("hello world"), Err(ParseControlIDErr));
    assert_eq!(ControlID::parse("AC2"), Err(ParseControlIDErr));
    assert_eq!(ControlID::parse("-5"), Err(ParseControlIDErr));
    assert_eq!(ControlID::parse("AC-"), Err(ParseControlIDErr));
}

#[test]
fn parse_rejects_out_of_range_number() {
    assert_eq!(ControlID::parse("AC-999"), Err(ParseControlIDErr));
    assert_eq!(ControlID::parse("AC-2 (300)"), Err(ParseControlIDErr));
}

#[test]
fn parse_accepts_boundary_number() {
    let id = ControlID::parse("AC-255").unwrap();
    assert_eq!(id.to_display_text(), "AC-255");
}

#[test]
fn non_canonical_digits_parse_but_display_canonically() {
    let id = ControlID::parse("AC-02").unwrap();
    assert_eq!(id.to_display_text(), "AC-2");
}

#[test]
fn ordering_follows_subject_number_subnumber() {
    let a = ControlID::parse("AC-1").unwrap();
    let b = ControlID::parse("AC-2").unwrap();
    let c = ControlID::parse("AC-2 (1)").unwrap();
    let d = ControlID::parse("AU-1").unwrap();
    assert!(a.lt(&b));
    assert!(b.lt(&c));
    assert!(c.lt(&d));
    assert!(a.lt(&d));
    assert!(!b.lt(&a));
    assert!(!b.lt(&b));
}

#[test]
fn equality_is_structural() {
    let a = ControlID::parse("AC-2 (1)").unwrap();
    let b = ControlID::parse("prefix AC-2 (1) suffix").unwrap();
    let c = ControlID::parse("AC-2").unwrap();
    assert!(a == b);
    assert!(a != c);
}

#[test]
fn empty_identifier_is_empty() {
    let id = ControlID::default();
    assert!(id.is_empty());
    let zero = ControlID::parse("AC-0").unwrap();
    assert!(zero.is_empty());
}
