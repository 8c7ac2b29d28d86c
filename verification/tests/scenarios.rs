use textfsm_rs::cli_table::{expand_brackets, expand_string};
use textfsm_rs::{DataRecord, Value};
use textfsm_rs::CliTable;
use textfsm_rs::{DataRecordConversion, TextFSM, TextFsmError};

#[test]
fn scenario_filldown_carries_forward() {
    let template = r#"Value Filldown HOSTNAME (\S+)
Value LINE (\d+)

Start
  ^host ${HOSTNAME}
  ^line ${LINE} -> Record
"#;
    let data = "host H1\nline 1\nline 2\n";
    let mut fsm = TextFSM::from_string(template).unwrap();
    let result = fsm.parse_string(data, None).unwrap();
    // the filldown value lingers, so the synthetic end of input flushes
    // one more record carrying only the filldown default
    assert_eq!(result.len(), 3);
    assert_eq!(result[0].get("HOSTNAME").unwrap().to_string(), "H1");
    assert_eq!(result[0].get("LINE").unwrap().to_string(), "1");
    assert_eq!(result[1].get("HOSTNAME").unwrap().to_string(), "H1");
    assert_eq!(result[1].get("LINE").unwrap().to_string(), "2");
    assert_eq!(result[2].get("HOSTNAME").unwrap().to_string(), "H1");
    assert_eq!(result[2].get("LINE").unwrap().to_string(), "");
}

#[test]
fn scenario_fillup_back_fills() {
    let template = r#"Value Fillup UPTIME (\d+)
Value NAME (\S+)

Start
  ^name ${NAME} -> Record
  ^up ${UPTIME}
"#;
    let data = "name a\nname b\nname c\nup 99\n";
    let mut fsm = TextFSM::from_string(template).unwrap();
    let result = fsm.parse_string(data, None).unwrap();
    assert!(result.len() >= 3);
    assert_eq!(result[0].get("NAME").unwrap().to_string(), "a");
    assert_eq!(result[0].get("UPTIME").unwrap().to_string(), "99");
    assert_eq!(result[1].get("UPTIME").unwrap().to_string(), "99");
    assert_eq!(result[2].get("UPTIME").unwrap().to_string(), "99");
}

#[test]
fn scenario_index_abbreviations() {
    let index_text = "\
Template, Platform, Command
cisco_version_template, Cisco, sh[[ow]] ver[[sion]]
";
    let table = CliTable::from_text("templates/index", index_text).unwrap();
    for cmd in ["sh ver", "show version", "sho versi"] {
        let hit = table.get_template_for_command("Cisco", cmd);
        assert!(hit.is_some(), "command {:?} should resolve", cmd);
        let (dir, row) = hit.unwrap();
        assert_eq!(dir, "templates");
        assert_eq!(row.templates, vec!["cisco_version_template"]);
    }
    assert!(table.get_template_for_command("Cisco", "show ip").is_none());
}

#[test]
fn scenario_eof_flushes_final_record() {
    let template = "Value Name (\\S+)\n\nStart\n  ^Name: ${Name}\n";
    let mut fsm = TextFSM::from_string(template).unwrap();
    let result = fsm.parse_string("Name: Dave", None).unwrap();
    assert_eq!(result.len(), 1);
    assert_eq!(result[0].get("Name").unwrap().to_string(), "Dave");
}

#[test]
fn empty_input_emits_nothing() {
    let template = "Value Name (\\S+)\n\nStart\n  ^Name: ${Name}\n";
    let mut fsm = TextFSM::from_string(template).unwrap();
    let result = fsm.parse_string("", None).unwrap();
    assert_eq!(result.len(), 0);
}

#[test]
fn no_record_action_emits_nothing() {
    let template = "Start\n  ^foo\n  ^bar -> Next\n";
    let mut fsm = TextFSM::from_string(template).unwrap();
    let result = fsm.parse_string("foo\nbar\nbaz\n", None).unwrap();
    assert_eq!(result.len(), 0);
}

#[test]
fn determinism_two_parses_agree() {
    let template = "Value A (\\S+)\n\nStart\n  ^a ${A} -> Record\n";
    let data = "a one\na two\n";
    let mut fsm1 = TextFSM::from_string(template).unwrap();
    let r1 = fsm1.parse_string(data, None).unwrap();
    let mut fsm2 = TextFSM::from_string(template).unwrap();
    let r2 = fsm2.parse_string(data, None).unwrap();
    assert_eq!(r1.len(), r2.len());
    for (a, b) in r1.iter().zip(r2.iter()) {
        assert_eq!(
            a.get("A").unwrap().to_string(),
            b.get("A").unwrap().to_string()
        );
    }
}

#[test]
fn reset_then_reparse_agrees() {
    let template = "Value A (\\S+)\n\nStart\n  ^a ${A} -> Record\n";
    let data = "a one\na two\n";
    let mut fsm = TextFSM::from_string(template).unwrap();
    let r1 = fsm.parse_string(data, None).unwrap();
    fsm.reset();
    let r2 = fsm.parse_string(data, None).unwrap();
    assert_eq!(r1.len(), r2.len());
    for (a, b) in r1.iter().zip(r2.iter()) {
        assert_eq!(
            a.get("A").unwrap().to_string(),
            b.get("A").unwrap().to_string()
        );
    }
}

#[test]
fn lowercase_keys_idempotent() {
    let template = "Value NaMe (\\S+)\n\nStart\n  ^n ${NaMe} -> Record\n";
    let mut fsm = TextFSM::from_string(template).unwrap();
    let plain = fsm.parse_string("n x\n", None).unwrap();
    let once = TextFSM::lowercase_keys(&plain);
    let twice = TextFSM::lowercase_keys(&once);
    assert_eq!(once.len(), twice.len());
    assert_eq!(once[0].get("name").unwrap().to_string(), "x");
    assert_eq!(twice[0].get("name").unwrap().to_string(), "x");
    assert!(once[0].get("NaMe").is_none());
}

#[test]
fn lowercase_keys_conversion_applies() {
    let template = "Value NAME (\\S+)\n\nStart\n  ^n ${NAME} -> Record\n";
    let mut fsm = TextFSM::from_string(template).unwrap();
    let result = fsm
        .parse_string("n x\n", Some(DataRecordConversion::LowercaseKeys))
        .unwrap();
    assert_eq!(result.len(), 1);
    assert_eq!(result[0].get("name").unwrap().to_string(), "x");
}

#[test]
fn clearall_discards_filldown() {
    let template = r#"Value Filldown A (\S+)
Value B (\S+)

Start
  ^a ${A}
  ^b ${B} -> Record
  ^wipe -> Clearall
"#;
    let data = "a x\nb y\nwipe\nb z\n";
    let mut fsm = TextFSM::from_string(template).unwrap();
    let result = fsm.parse_string(data, None).unwrap();
    assert_eq!(result.len(), 2);
    assert_eq!(result[0].get("A").unwrap().to_string(), "x");
    assert_eq!(result[0].get("B").unwrap().to_string(), "y");
    assert_eq!(result[1].get("A").unwrap().to_string(), "");
    assert_eq!(result[1].get("B").unwrap().to_string(), "z");
}

#[test]
fn clear_keeps_filldown() {
    let template = r#"Value Filldown A (\S+)
Value B (\S+)

Start
  ^a ${A}
  ^b ${B}
  ^drop -> Clear
  ^go -> Record
"#;
    let data = "a x\nb y\ndrop\ngo\n";
    let mut fsm = TextFSM::from_string(template).unwrap();
    let result = fsm.parse_string(data, None).unwrap();
    // the filldown value survives the Clear, and lingers into the flush
    assert_eq!(result.len(), 2);
    assert_eq!(result[0].get("A").unwrap().to_string(), "x");
    assert_eq!(result[0].get("B").unwrap().to_string(), "");
    assert_eq!(result[1].get("A").unwrap().to_string(), "x");
}

#[test]
fn list_values_accumulate() {
    let template = r#"Value List PORT (\d+)

Start
  ^port ${PORT}
  ^done -> Record
"#;
    let data = "port 1\nport 2\ndone\n";
    let mut fsm = TextFSM::from_string(template).unwrap();
    let result = fsm.parse_string(data, None).unwrap();
    assert_eq!(result.len(), 1);
    assert_eq!(result[0].get("PORT").unwrap().to_string(), "[\"1\", \"2\"]");
}

#[test]
fn required_value_gates_emission() {
    let template = r#"Value Required NAME (\S+)
Value AGE (\d+)

Start
  ^age ${AGE} -> Record
  ^name ${NAME} -> Record
"#;
    let data = "age 4\nname n\n";
    let mut fsm = TextFSM::from_string(template).unwrap();
    let result = fsm.parse_string(data, None).unwrap();
    // the first Record fires with NAME missing and is dropped
    assert_eq!(result.len(), 1);
    assert_eq!(result[0].get("NAME").unwrap().to_string(), "n");
    assert_eq!(result[0].get("AGE").unwrap().to_string(), "4");
}

#[test]
fn backtracking_engine_fallback() {
    // a lookahead forces the fall back to the backtracking engine
    let template = "Value A (\\S+)\n\nStart\n  ^(?=x)${A} -> Record\n";
    let mut fsm = TextFSM::from_string(template).unwrap();
    let result = fsm.parse_string("xyz\n", None).unwrap();
    assert_eq!(result.len(), 1);
    assert_eq!(result[0].get("A").unwrap().to_string(), "xyz");
}

#[test]
fn unknown_variable_is_parse_error() {
    let template = "Start\n  ^a ${NOPE} -> Record\n";
    match TextFSM::from_string(template) {
        Err(TextFsmError::ParseError(m)) => assert!(m.contains("NOPE")),
        other => panic!("expected a parse error, got {:?}", other.map(|_| ())),
    }
}

#[test]
fn unknown_option_is_parse_error() {
    match TextFSM::from_string("Value Sideways A (x)\n\nStart\n  ^a\n") {
        Err(TextFsmError::ParseError(m)) => assert!(m.contains("Sideways")),
        other => panic!("expected a parse error, got {:?}", other.map(|_| ())),
    }
}

#[test]
fn duplicate_state_is_state_error() {
    let template = "Start\n  ^a\n\nStart\n  ^b\n";
    match TextFSM::from_string(template) {
        Err(TextFsmError::StateError(m)) => assert!(m.contains("already defined")),
        other => panic!("expected a state error, got {:?}", other.map(|_| ())),
    }
}

#[test]
fn error_transition_stops_the_parse() {
    let template = "Start\n  ^boom -> Error \"gone\"\n";
    let mut fsm = TextFSM::from_string(template).unwrap();
    match fsm.parse_string("boom\n", None) {
        Err(TextFsmError::StateError(m)) => assert!(m.contains("gone")),
        other => panic!("expected a state error, got {:?}", other.map(|_| ())),
    }
}

#[test]
fn undeclared_target_state_is_state_error() {
    let template = "Start\n  ^a -> Nowhere\n";
    let mut fsm = TextFSM::from_string(template).unwrap();
    match fsm.parse_string("a\n", None) {
        Err(TextFsmError::StateError(m)) => assert!(m.contains("Nowhere")),
        other => panic!("expected a state error, got {:?}", other.map(|_| ())),
    }
}

#[test]
fn fillup_on_list_is_parse_error() {
    let template = r#"Value Fillup,List L (\d+)
Value N (\S+)

Start
  ^n ${N} -> Record
  ^l ${L}
"#;
    let data = "n a\nl 1\nl 2\n";
    let mut fsm = TextFSM::from_string(template).unwrap();
    match fsm.parse_string(data, None) {
        Err(TextFsmError::ParseError(m)) => assert!(m.contains("fillup")),
        other => panic!("expected a parse error, got {:?}", other.map(|_| ())),
    }
}

#[test]
fn insert_value_unknown_name_is_internal_error() {
    let template = "Value A (\\S+)\n\nStart\n  ^a ${A}\n";
    let fsm = TextFSM::from_string(template).unwrap();
    let mut curr = textfsm_rs::DataRecord::new();
    let mut filldown = textfsm_rs::DataRecord::new();
    match fsm.insert_value("probe", &mut curr, &mut filldown, "NOPE", None, "line") {
        Err(TextFsmError::InternalError(m)) => assert!(m.contains("NOPE")),
        other => panic!("expected an internal error, got {:?}", other.map(|_| ())),
    }
}

#[test]
fn ragged_index_rows_are_csv_errors() {
    let broken = "Template, Command\nonly_one_field\n";
    match CliTable::from_text("index", broken) {
        Err(TextFsmError::CsvError(_)) => {}
        other => panic!("expected a CSV error, got {:?}", other.map(|_| ())),
    }
}

#[test]
fn continue_applies_record_without_moving() {
    // the Continue.Record rule emits but stays on the same line and state
    let template = r#"Value Required I (\S+)

Start
  ^item -> Continue.Record
  ^item ${I}
"#;
    let data = "item a\nitem b\n";
    let mut fsm = TextFSM::from_string(template).unwrap();
    let result = fsm.parse_string(data, None).unwrap();
    // the first Continue.Record fires before `a` is captured, so only the
    // second line's Record sees a filled buffer; the EOF flush adds `b`
    assert_eq!(result.len(), 2);
    assert_eq!(result[0].get("I").unwrap().to_string(), "a");
    assert_eq!(result[1].get("I").unwrap().to_string(), "b");
}

#[test]
fn angle_escapes_are_rewritten() {
    let template = "Value A (\\S+)\n\nStart\n  ^\\<${A}\\> -> Record\n";
    let mut fsm = TextFSM::from_string(template).unwrap();
    let result = fsm.parse_string("<x>\n", None).unwrap();
    assert_eq!(result.len(), 1);
    assert_eq!(result[0].get("A").unwrap().to_string(), "x");
}

#[test]
fn expansion_helpers_match_known_forms() {
    assert_eq!(expand_string(""), "");
    assert_eq!(expand_string("w"), "(w)?");
    assert_eq!(expand_string("sh"), "(s(h)?)?");
    assert_eq!(expand_string("sho"), "(s(h(o)?)?)?");
    assert_eq!(expand_string("show"), "(s(h(o(w)?)?)?)?");
    assert_eq!(expand_brackets("show"), "show");
    assert_eq!(expand_brackets("sh[[ow]]"), "sh(o(w)?)?");
    assert_eq!(expand_brackets("[[show]]"), "(s(h(o(w)?)?)?)?");
    assert_eq!(expand_brackets("sh[[ow]] ip bgp"), "sh(o(w)?)? ip bgp");
    assert_eq!(
        expand_brackets("sh[[ow]] ip bgp su[[mmary]]"),
        "sh(o(w)?)? ip bgp su(m(m(a(r(y)?)?)?)?)?"
    );
}

#[test]
fn repaired_zero_width_repeat_still_matches() {
    // a quantified lookahead is repaired by dropping the quantifier
    let template = "Value A (x)\n\nStart\n  ^${A}(?=y)+ -> Record\n";
    let mut fsm = TextFSM::from_string(template).unwrap();
    let result = fsm.parse_string("xy\n", None).unwrap();
    assert_eq!(result.len(), 1);
    assert_eq!(result[0].get("A").unwrap().to_string(), "x");
}

#[test]
fn dollar_dollar_matches_line_end() {
    let template = "Value A (\\S+)\n\nStart\n  ^${A}$$ -> Record\n";
    let mut fsm = TextFSM::from_string(template).unwrap();
    let result = fsm.parse_string("one\n", None).unwrap();
    assert_eq!(result.len(), 1);
    assert_eq!(result[0].get("A").unwrap().to_string(), "one");
}

#[test]
fn record_key_joins_key_fields() {
    let template = r#"Value Key HOST (\S+)
Value Key PORT (\d+)

Start
  ^${HOST}:${PORT} -> Record
"#;
    let mut fsm = TextFSM::from_string(template).unwrap();
    let result = fsm.parse_string("web:80\n", None).unwrap();
    assert_eq!(result.len(), 1);
    assert_eq!(result[0].record_key.as_deref(), Some("web/80"));
}

#[test]
fn value_rendering_forms() {
    let s = Value::Single("up".to_string());
    assert_eq!(s.to_string(), "up");
    assert_eq!(s.to_diag_string(), "Single(\"up\")");
    let l = Value::List(vec!["a".to_string(), "b".to_string()]);
    assert_eq!(l.to_string(), "[\"a\", \"b\"]");
    assert_eq!(l.to_diag_string(), "List([\"a\", \"b\"])");
}

#[test]
fn compare_sets_reports_differences() {
    let mut a = DataRecord::new();
    a.set_value("X".to_string(), textfsm_rs::Value::Single("1".to_string()));
    let mut b = DataRecord::new();
    b.set_value("X".to_string(), textfsm_rs::Value::Single("2".to_string()));
    let (left, right) = DataRecord::compare_sets(&vec![a], &vec![b]);
    assert_eq!(left.len(), 1);
    assert_eq!(left[0], vec!["X:Single(\"1\")".to_string()]);
    assert_eq!(right[0], vec!["X:Single(\"2\")".to_string()]);
}

#[test]
fn record_ops_behave_like_a_map() {
    let mut r = DataRecord::new();
    r.insert("A".to_string(), "1".to_string());
    assert_eq!(r.get("A").unwrap().to_string(), "1");
    // inserting again promotes the scalar to a list
    r.insert("A".to_string(), "2".to_string());
    assert_eq!(r.get("A").unwrap().to_string(), "[\"1\", \"2\"]");
    r.append_value("B".to_string(), Value::Single("x".to_string()));
    assert_eq!(r.keys(), vec!["A".to_string(), "B".to_string()]);
    r.remove("A");
    assert!(r.get("A").is_none());
    let mut o = DataRecord::new();
    o.append_value("B".to_string(), Value::Single("y".to_string()));
    r.overwrite_from(o);
    assert_eq!(r.get("B").unwrap().to_string(), "y");
}

#[test]
fn template_without_start_is_rejected() {
    match TextFSM::from_string("Value A (x)\n\nBody\n  ^a\n") {
        Err(TextFsmError::ParseError(m)) => assert!(m.contains("Start")),
        other => panic!("expected a parse error, got {:?}", other.map(|_| ())),
    }
}

#[test]
fn required_empty_capture_blocks_emission() {
    // a required value captured as the empty string does not satisfy the
    // record's required-field guarantee
    let template = "Value Required A (.*)\n\nStart\n  ^${A} -> Record\n";
    let mut fsm = TextFSM::from_string(template).unwrap();
    let result = fsm.parse_string("\nx\n", None).unwrap();
    assert_eq!(result.len(), 1);
    assert_eq!(result[0].get("A").unwrap().to_string(), "x");
}
