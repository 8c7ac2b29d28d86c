use textfsm_rs::export::{export_csv, export_html, export_text, export_xml};
use textfsm_rs::{DataRecord, TextFSM};

fn get_results() -> Vec<DataRecord> {
    let template = r###"Value Name (\S+)
Value Age (\d+)

Start
  ^Name: ${Name}
  ^Age: ${Age} -> Record
"###;

    let data = "Name: Alice\nAge: 30\nName: Bob\nAge: 25\n";

    let mut fsm = TextFSM::from_string(template).unwrap();
    fsm.parse_string(data, None).unwrap()
}

#[test]
fn test_export_csv() {
    let results = get_results();
    let csv = export_csv(&results).unwrap();
    // Headers are sorted alphabetically: Age,Name
    assert!(csv.contains("Age,Name"));
    assert!(csv.contains("30,Alice"));
    assert!(csv.contains("25,Bob"));
}

#[test]
fn test_export_html() {
    let results = get_results();
    let html = export_html(&results).unwrap();
    assert!(html.contains("<table>"));
    assert!(html.contains("<th>Age</th>"));
    assert!(html.contains("<th>Name</th>"));
    assert!(html.contains("<td>Alice</td>"));
}

#[test]
fn test_export_text() {
    let results = get_results();
    let text = export_text(&results).unwrap();
    // Age width: 3 ("Age"), Name width: 5 ("Alice")
    assert!(text.contains("Age  Name"));
    assert!(text.contains("---  -----"));
    assert!(text.contains("30   Alice"));
}

#[test]
fn test_export_xml() {
    let results = get_results();
    let xml = export_xml(&results).unwrap();
    assert!(xml.contains("<results>"));
    assert!(xml.contains("<record>"));
    assert!(xml.contains("<Name>Alice</Name>"));
    assert!(xml.contains("<Age>30</Age>"));
    assert!(xml.contains("</record>"));
    assert!(xml.contains("</results>"));
}

#[test]
fn test_export_escaping() {
    let template = r###"Value MSG (.+)

Start
  ^Message: ${MSG} -> Record
"###;
    let data = "Message: <Hello> & \"World\"\n";

    let mut fsm = TextFSM::from_string(template).unwrap();
    let results = fsm.parse_string(data, None).unwrap();

    let xml = export_xml(&results).unwrap();
    assert!(xml.contains("&lt;Hello&gt; &amp; &quot;World&quot;"));

    let html = export_html(&results).unwrap();
    assert!(html.contains("&lt;Hello&gt; &amp; &quot;World&quot;"));
}
