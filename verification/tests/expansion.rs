use textfsm_rs::cli_table::{expand_brackets, expand_string, CliTable};

#[test]
fn test_expand_string() {
    assert_eq!(expand_string(""), "");
    assert_eq!(expand_string("w"), "(w)?");
    assert_eq!(expand_string("sh"), "(s(h)?)?");
    assert_eq!(expand_string("sho"), "(s(h(o)?)?)?");
    assert_eq!(expand_string("show"), "(s(h(o(w)?)?)?)?");
}

#[test]
fn test_expand_brackets() {
    assert_eq!(expand_brackets("show"), "show");
    assert_eq!(expand_brackets("sh[[ow]]"), "sh(o(w)?)?");
    assert_eq!(expand_brackets("[[show]]"), "(s(h(o(w)?)?)?)?");
    assert_eq!(expand_brackets("sh[[ow]] ip bgp"), "sh(o(w)?)? ip bgp");
    assert_eq!(
        expand_brackets("sh[[ow]] ip bgp su[[mmary]]"),
        "sh(o(w)?)? ip bgp su(m(m(a(r(y)?)?)?)?)?"
    );
}

#[test]
fn test_get_directory_forms() {
    assert_eq!(CliTable::get_directory("a/b/index").unwrap(), "a/b");
    assert_eq!(CliTable::get_directory("index").unwrap(), "");
    assert_eq!(CliTable::get_directory("/index").unwrap(), "/");
    assert!(CliTable::get_directory("").is_none());
}
