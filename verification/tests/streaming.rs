use textfsm_rs::TextFSM;

#[test]
fn test_parse_reader_streaming() {
    let template = r###"Value Name (\S+)
Value Age (\d+)

Start
  ^Name: ${Name}
  ^Age: ${Age} -> Record
"###;

    let mut fsm = TextFSM::from_string(template).unwrap();

    // records appear as their `Record` actions fire, line by line
    fsm.feed_line("Name: Alice").unwrap();
    assert_eq!(fsm.records.len(), 0);
    fsm.feed_line("Age: 30").unwrap();
    assert_eq!(fsm.records.len(), 1);
    assert_eq!(fsm.records[0].get("Name").unwrap().to_string(), "Alice");
    assert_eq!(fsm.records[0].get("Age").unwrap().to_string(), "30");

    fsm.feed_line("Name: Bob").unwrap();
    fsm.feed_line("Age: 25").unwrap();
    assert_eq!(fsm.records.len(), 2);
    assert_eq!(fsm.records[1].get("Name").unwrap().to_string(), "Bob");
    assert_eq!(fsm.records[1].get("Age").unwrap().to_string(), "25");

    fsm.feed_line("Name: Charlie").unwrap();
    fsm.feed_line("Age: 40").unwrap();
    assert_eq!(fsm.records.len(), 3);
    assert_eq!(fsm.records[2].get("Name").unwrap().to_string(), "Charlie");
    assert_eq!(fsm.records[2].get("Age").unwrap().to_string(), "40");

    fsm.finish().unwrap();
    assert_eq!(fsm.records.len(), 3);
}

#[test]
fn test_parse_reader_eof_record() {
    let template = r###"Value Name (\S+)

Start
  ^Name: ${Name}
"###;
    // No explicit Record action: the synthetic end of input flushes.

    let mut fsm = TextFSM::from_string(template).unwrap();
    fsm.feed_line("Name: Dave").unwrap();
    assert_eq!(fsm.records.len(), 0);
    fsm.finish().unwrap();
    assert_eq!(fsm.records.len(), 1);
    assert_eq!(fsm.records[0].get("Name").unwrap().to_string(), "Dave");
}
