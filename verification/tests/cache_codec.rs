use ks_match::codec::{load_index, save_index};
use ks_match::index::ExtensionIndex;
use ks_match::numfmt::{format_i64, parse_i64};
use ks_match::Error;

#[test]
fn format_renders_decimal() {
    assert_eq!(format_i64(0), "0");
    assert_eq!(format_i64(123), "123");
    assert_eq!(format_i64(-45), "-45");
    assert_eq!(format_i64(i64::MAX), "9223372036854775807");
    assert_eq!(format_i64(i64::MIN), "-9223372036854775808");
}

#[test]
fn parse_accepts_signed_decimal() {
    assert_eq!(parse_i64("0"), Some(0));
    assert_eq!(parse_i64("007"), Some(7));
    assert_eq!(parse_i64("-45"), Some(-45));
    assert_eq!(parse_i64("9223372036854775807"), Some(i64::MAX));
    assert_eq!(parse_i64("-9223372036854775808"), Some(i64::MIN));
}

#[test]
fn parse_rejects_malformed_and_overflowing_tokens() {
    assert_eq!(parse_i64(""), None);
    assert_eq!(parse_i64("-"), None);
    assert_eq!(parse_i64("12a"), None);
    assert_eq!(parse_i64(" 12"), None);
    assert_eq!(parse_i64("1.5"), None);
    assert_eq!(parse_i64("9223372036854775808"), None);
    assert_eq!(parse_i64("-9223372036854775809"), None);
    assert_eq!(parse_i64("99999999999999999999999999999999999999999"), None);
}

#[test]
fn save_writes_one_tabbed_record_per_entry() {
    let mut idx = ExtensionIndex::new();
    idx.append_value("City".to_string(), "population".to_string(), 10);
    idx.append_value("City".to_string(), "population".to_string(), -3);
    idx.append_value("Town".to_string(), "area".to_string(), 7);
    let lines = save_index(&idx);
    assert_eq!(lines, vec!["City\tpopulation\t[10, -3]", "Town\tarea\t[7]"]);
}

#[test]
fn load_reproduces_saved_index() {
    let mut idx = ExtensionIndex::new();
    idx.append_value("City".to_string(), "population".to_string(), 10);
    idx.append_value("City".to_string(), "population".to_string(), -3);
    idx.append_value("Town".to_string(), "area".to_string(), 7);
    let lines = save_index(&idx);
    let loaded = load_index(&lines).unwrap();
    assert_eq!(loaded.len(), idx.len());
    assert_eq!(
        loaded.get(&"City".to_string(), &"population".to_string()),
        Some(&vec![10, -3])
    );
    assert_eq!(loaded.get(&"Town".to_string(), &"area".to_string()), Some(&vec![7]));
}

#[test]
fn load_names_the_first_malformed_line() {
    let good = "City\tpopulation\t[1, 2]".to_string();
    assert_eq!(
        load_index(&vec![good.clone(), "City\tpopulation".to_string()]).err(),
        Some(Error::BadRecord(1))
    );
    assert_eq!(
        load_index(&vec!["no tabs at all".to_string(), good.clone()]).err(),
        Some(Error::BadRecord(0))
    );
    // a token that fails to parse is fatal
    assert_eq!(
        load_index(&vec!["City\tpopulation\t[1, x]".to_string()]).err(),
        Some(Error::BadRecord(0))
    );
    // missing brackets
    assert_eq!(
        load_index(&vec!["City\tpopulation\t1, 2".to_string()]).err(),
        Some(Error::BadRecord(0))
    );
    // an empty value list is malformed
    assert_eq!(
        load_index(&vec!["City\tpopulation\t[]".to_string()]).err(),
        Some(Error::BadRecord(0))
    );
    // four fields
    assert_eq!(
        load_index(&vec!["City\tpopulation\t[1]\textra".to_string()]).err(),
        Some(Error::BadRecord(0))
    );
}

#[test]
fn load_lets_a_later_record_override() {
    let lines = vec![
        "City\tpopulation\t[1]".to_string(),
        "City\tpopulation\t[2, 3]".to_string(),
    ];
    let idx = load_index(&lines).unwrap();
    assert_eq!(idx.len(), 1);
    assert_eq!(idx.get(&"City".to_string(), &"population".to_string()), Some(&vec![2, 3]));
}

#[test]
fn load_of_no_lines_is_an_empty_index() {
    let idx = load_index(&Vec::new()).unwrap();
    assert_eq!(idx.len(), 0);
}
