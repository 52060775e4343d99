use followup::parser::{parse_followup, ParsedFollowUp};

#[test]
fn parses_default_tag() {
    let parsed = parse_followup("@unity any update? #fu").unwrap();
    assert_eq!(parsed.days, 7);
    assert_eq!(parsed.target, "@unity");
    assert_eq!(parsed.tag, "#fu");
}

#[test]
fn parses_day_tag_case_insensitive() {
    let parsed = parse_followup("@support ping #FU30").unwrap();
    assert_eq!(parsed.days, 30);
    assert_eq!(parsed.tag, "#fu30");
}

#[test]
fn rejects_missing_target_or_bad_days() {
    assert!(parse_followup("no target #fu7").is_none());
    assert!(parse_followup("@x too long #fu999").is_none());
    assert!(parse_followup("@x zero #fu0").is_none());
}

#[test]
fn trims_punctuation_around_tag_and_mention() {
    let parsed = parse_followup("(@dev_team), any news? #fu14!").unwrap();
    assert_eq!(
        parsed,
        ParsedFollowUp { tag: "#fu14".to_string(), days: 14, target: "@dev_team".to_string() }
    );
}

#[test]
fn skips_bad_tags_and_handles_until_good_ones() {
    let parsed = parse_followup("@this_handle_is_too_long @ok #fu0 #fux #fu365").unwrap();
    assert_eq!(parsed.target, "@ok");
    assert_eq!(parsed.tag, "#fu365");
    assert_eq!(parsed.days, 365);
    let first = parse_followup("@x #fu999 #fu7").unwrap();
    assert_eq!(first.days, 7);
}

#[test]
fn a_day_count_beyond_u16_ends_the_search() {
    assert!(parse_followup("@x #fu70000 #fu7").is_none());
}

#[test]
fn requires_a_tag() {
    assert!(parse_followup("@x hello").is_none());
    assert!(parse_followup("").is_none());
    assert!(parse_followup("@x #fo7").is_none());
    assert!(parse_followup("@ #fu7").is_none());
}

#[test]
fn accepts_leading_plus_in_days_as_str_parse_does() {
    // `#fu+5` is not all digits after `#fu`, so it is no tag
    assert!(parse_followup("@x #fu+5").is_none());
    let p = parse_followup("@x #fu007").unwrap();
    assert_eq!(p.days, 7);
    assert_eq!(p.tag, "#fu007");
}
