use textfsm_rs::TextFSM;

#[test]
fn test_end_to_end() {
    let template = r#"Value Name (\S+)
Value Age (\d+)

Start
  ^Name: ${Name}
  ^Age: ${Age} -> Record
"#;
    let data = "Name: John\nAge: 42\nName: Jane\nAge: 34\n";

    let mut textfsm = TextFSM::from_string(template).unwrap();
    let result = textfsm.parse_string(data, None).unwrap();

    assert_eq!(result.len(), 2);

    let record1 = &result[0];
    assert_eq!(record1.get("Name").unwrap().to_string(), "John");
    assert_eq!(record1.get("Age").unwrap().to_string(), "42");

    let record2 = &result[1];
    assert_eq!(record2.get("Name").unwrap().to_string(), "Jane");
    assert_eq!(record2.get("Age").unwrap().to_string(), "34");
}
