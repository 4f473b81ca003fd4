use ks_match::delim::select_column;
use ks_match::ingest::{parse_turtle, prefilter_property_lines};
use ks_match::strutil::{split_str, trim};

#[test]
fn parse_turtle_reads_uri_triples() {
    let doc = "<http://dbpedia.org/resource/Berlin> \
               <http://www.w3.org/1999/02/22-rdf-syntax-ns#type> \
               <http://dbpedia.org/ontology/City> .";
    let facts = parse_turtle(doc).unwrap();
    assert_eq!(facts.len(), 1);
    assert_eq!(facts[0].subject, "http://dbpedia.org/resource/Berlin");
    assert_eq!(facts[0].predicate, "http://www.w3.org/1999/02/22-rdf-syntax-ns#type");
    assert_eq!(facts[0].object, "http://dbpedia.org/ontology/City");
}

#[test]
fn parse_turtle_reads_literal_objects_as_text() {
    let doc = "<http://dbpedia.org/resource/Berlin> \
               <http://dbpedia.org/property/population> \"3600000\" .";
    let facts = parse_turtle(doc).unwrap();
    assert_eq!(facts.len(), 1);
    assert_eq!(facts[0].object, "3600000");
}

#[test]
fn parse_turtle_rejects_invalid_syntax() {
    assert!(parse_turtle("\"a bare literal cannot start a statement\" .").is_none());
}

#[test]
fn prefilter_keeps_only_quoted_numeric_property_lines() {
    let keep = "<http://dbpedia.org/resource/Berlin> \
                <http://dbpedia.org/property/population> \
                \"3600000\"^^<http://www.w3.org/2001/XMLSchema#integer> ."
        .to_string();
    let keep_lang = "<http://dbpedia.org/resource/Berlin> \
                     <http://dbpedia.org/property/population> \"3600000\"@en ."
        .to_string();
    let drop_text = "<http://dbpedia.org/resource/Berlin> \
                     <http://dbpedia.org/property/mayor> \"Somebody\"@en ."
        .to_string();
    let drop_other = "not a fact line".to_string();
    let lines = vec![keep.clone(), drop_text, keep_lang.clone(), drop_other];
    let kept = prefilter_property_lines(&lines).unwrap();
    assert_eq!(kept, vec![keep, keep_lang]);
}

#[test]
fn select_column_skips_blank_comment_and_short_lines() {
    let lines: Vec<String> = vec![
        "10\tBerlin".to_string(),
        "".to_string(),
        "   ".to_string(),
        "# a comment\t99".to_string(),
        " 20 \tParis".to_string(),
        "solo".to_string(),
    ];
    let first = select_column(&lines, "\t", 0);
    assert_eq!(first, vec!["10", "20", "solo"]);
    let second = select_column(&lines, "\t", 1);
    assert_eq!(second, vec!["Berlin", "Paris"]);
    let third = select_column(&lines, "\t", 2);
    assert!(third.is_empty());
}

#[test]
fn select_column_with_other_separators() {
    let lines: Vec<String> = vec!["a, 1 ,x".to_string()];
    assert_eq!(select_column(&lines, ",", 1), vec!["1"]);
}

#[test]
fn split_str_splits_on_every_occurrence() {
    let parts = split_str("a,b,,c", ",");
    assert_eq!(parts, vec!["a", "b", "", "c"]);
    assert_eq!(split_str("abc", ","), vec!["abc"]);
    assert_eq!(split_str("", ","), vec![""]);
    assert_eq!(split_str("x, y, z", ", "), vec!["x", "y", "z"]);
}

#[test]
fn trim_removes_surrounding_whitespace() {
    assert_eq!(trim("  x y\t"), "x y");
    assert_eq!(trim("\t \r\n"), "");
    assert_eq!(trim("plain"), "plain");
}

#[test]
fn prefilter_of_no_lines_is_empty() {
    let kept = prefilter_property_lines(&Vec::new()).unwrap();
    assert!(kept.is_empty());
}
