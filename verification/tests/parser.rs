use textfsm_rs::{LineAction, NextState, RecordAction, TextFSMParser};

#[test]
fn test_regex_pattern() {
    let v = TextFSMParser::parse_value_definition(r#"Value PORT ((\d+\/?)+)"#).unwrap();
    assert_eq!(v.regex_pattern, r#"((\d+\/?)+)"#);
}

#[test]
fn test_rule_with_err_msg() {
    let r = TextFSMParser::parse_state_rule(r#"  ^.* -> Error "Could not parse line:""#).unwrap();
    assert_eq!(r.rule_match, "^.*");
    match r.transition.line_action {
        LineAction::Next(Some(NextState::Error(Some(m)))) => {
            assert_eq!(m, "Could not parse line:");
        }
        other => panic!("unexpected line action: {:?}", other),
    }
}

#[test]
fn test_err_msg() {
    let t = TextFSMParser::parse_state_rule_transition(r#"Error "test""#).unwrap();
    match t.line_action {
        LineAction::Next(Some(NextState::Error(Some(m)))) => assert_eq!(m, "test"),
        other => panic!("unexpected line action: {:?}", other),
    }
}

#[test]
fn test_value_definition() {
    let v = TextFSMParser::parse_value_definition(r#"Value PORT ((\d+\/?)+)"#).unwrap();
    assert_eq!(v.name, "PORT");
    assert!(!v.is_list);
}

#[test]
fn test_state_definition() {
    // A `Continue` rule may not carry a transition target.
    let r = TextFSMParser::parse_state_rule("  ^interface -> Continue.Record End");
    assert!(r.is_err());
    let r = TextFSMParser::parse_state_rule("  ^interface -> Continue.Record").unwrap();
    assert_eq!(r.transition.record_action, RecordAction::Record);
}

#[test]
fn test_complete_template() {
    let input = r#"Value Required INTERFACE (.*)
Value DESCRIPTION (.*)

Start
  ^interface -> GetDescription
  ^$ -> Start

GetDescription
  ^description -> Continue.Record Start
  ^$ -> GetDescription
  ^. -> Error
"#;
    // The grammar accepts the template; the Continue rule with a target
    // is rejected when its line is compiled.
    assert!(TextFSMParser::from_string(input).is_err());

    let accepted = r#"Value Required INTERFACE (.*)
Value DESCRIPTION (.*)

Start
  ^interface -> GetDescription
  ^$ -> Start

GetDescription
  ^description -> Record Start
  ^$ -> GetDescription
  ^. -> Error
"#;
    let p = TextFSMParser::from_string(accepted).unwrap();
    assert_eq!(p.states.len(), 3);
    assert_eq!(p.values.len(), 2);
}

#[test]
fn test_complete_template_asa() {
    let input = r#"Value Required RESOURCE (.+?)
Value DENIED (\d+)
Value CONTEXT (.+?)

Start
  ^x -> GetDescription

Startr_ecord
  ^x -> X
"#;
    let p = TextFSMParser::from_string(input).unwrap();
    assert_eq!(p.values.len(), 3);
    assert_eq!(p.states.len(), 3);
}

#[test]
fn test_complete_template_error() {
    let input = r#"Value PORT_ID (\S+)
Value DESCRIPTION (.+)

Start
  ^=+\s*$$
  ^\s*$$
  ^Port\s+Descriptions\s+on\s\S+\s+\S+\s*$$
  ^Port\s+Id\s+Description\s*$$
  ^${PORT_ID}\s+${DESCRIPTION}\s*$$ -> Record
  ^-+\s*$$
  ^. -> Error"#;
    let p = TextFSMParser::from_string(input).unwrap();
    assert_eq!(p.states.len(), 2);
}

#[test]
fn test_rules_with_no_transitions() {
    let input = r#"Start
  ^interface$
  ^$
"#;
    let p = TextFSMParser::from_string(input).unwrap();
    assert_eq!(p.states.len(), 2);
}

#[test]
fn test_rules_with_no_transitions_complex() {
    let input = r#"Start
  ^PING\s+${DESTINATION}\s+${PKT_SIZE}\s+data\s+bytes*$$
  ^(?:${RESPONSE_STREAM})
  ^\.*$$
  ^\s*$$
  ^-+
  ^${SENT_QTY}\s+packet(?:s)?\s+transmitted,(?:\s+${BOUNCE_QTY}\s+packet(?:s)?\s+bounced,)?\s+${SUCCESS_QTY}\s+packet(?:s)?\s+received,\s+(?:${DUPLICATE_QTY}\s+duplicate(?:s)?)?(?:${LOSS_PCT}%\s+packet\s+loss)?
  ^(?:round-trip\s+min\s+=\s+${RTT_MIN}ms,\s+avg\s+=\s+${RTT_AVG}ms,\s+max\s+=\s+${RTT_MAX}ms,\s+stddev\s+=\s+${STD_DEV}ms)?
  # Error out if raw data does not match any above rules.
  ^.* -> Error "Could not parse line:"
"#;
    // Grammar level: every rule line of the block parses.
    for line in input.lines().skip(1) {
        let t = line.trim_start();
        if t.starts_with('^') {
            assert!(TextFSMParser::parse_state_rule(line).is_ok(), "line: {}", line);
        }
    }
}

#[test]
fn test_rules_with_no_transitions_complex_error_nomsg() {
    let input = r#"Start
  ^PING\s+${DESTINATION}\s+${PKT_SIZE}\s+data\s+bytes*$$
  ^(?:${RESPONSE_STREAM})
  ^\.*$$
  ^\s*$$
  ^-+
  ^${SENT_QTY}\s+packet(?:s)?\s+transmitted,(?:\s+${BOUNCE_QTY}\s+packet(?:s)?\s+bounced,)?\s+${SUCCESS_QTY}\s+packet(?:s)?\s+received,\s+(?:${DUPLICATE_QTY}\s+duplicate(?:s)?)?(?:${LOSS_PCT}%\s+packet\s+loss)?
  ^(?:round-trip\s+min\s+=\s+${RTT_MIN}ms,\s+avg\s+=\s+${RTT_AVG}ms,\s+max\s+=\s+${RTT_MAX}ms,\s+stddev\s+=\s+${STD_DEV}ms)?
  # Error out if raw data does not match any above rules.
  ^.* -> Error
"#;
    for line in input.lines().skip(1) {
        let t = line.trim_start();
        if t.starts_with('^') {
            assert!(TextFSMParser::parse_state_rule(line).is_ok(), "line: {}", line);
        }
    }
}

#[test]
fn test_multiple_value_definitions() {
    assert!(TextFSMParser::parse_value_definition("Value HOSTNAME (.+)").is_ok());
    assert!(TextFSMParser::parse_value_definition(r#"Value VERSION (\d+\.\d+)"#).is_ok());
    assert!(TextFSMParser::parse_value_definition(r#"Value MODEL (\w+)"#).is_ok());
}

#[test]
fn test_complex_rule_nostate() {
    let r = TextFSMParser::parse_state_rule(
        r#"  ^PING\s+${DESTINATION}\s+${PKT_SIZE}\s+data\s+bytes*$$"#,
    )
    .unwrap();
    assert!(r.rule_match.starts_with("^PING"));
}

#[test]
fn test_complex_rule() {
    let r = TextFSMParser::parse_state_rule("  ^interface GigabitEthernet -> Record Start")
        .unwrap();
    assert_eq!(r.rule_match, "^interface GigabitEthernet");
    assert_eq!(r.transition.record_action, RecordAction::Record);
    match r.transition.line_action {
        LineAction::Next(Some(NextState::NamedState(n))) => assert_eq!(n, "Start"),
        other => panic!("unexpected line action: {:?}", other),
    }
}

#[test]
fn test_multiple_states() {
    let input = r#"Start
  ^interface -> GetDescription

GetDescription
  ^description -> Record Start
  ^. -> Error
"#;
    let p = TextFSMParser::from_string(input).unwrap();
    assert_eq!(p.states.len(), 3);
}
