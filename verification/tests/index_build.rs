use ks_match::index::{
    build_extension_index, build_type_map, ExtensionIndex, Fact, PropertyFact, TypeMap,
};

fn fact(s: &str, p: &str, o: &str) -> Fact {
    Fact { subject: s.to_string(), predicate: p.to_string(), object: o.to_string() }
}

fn pfact(s: &str, p: &str, v: Option<i64>) -> PropertyFact {
    PropertyFact { subject: s.to_string(), predicate: p.to_string(), value: v }
}

const TYPE_PRED: &str = "http://www.w3.org/1999/02/22-rdf-syntax-ns#type";

#[test]
fn type_map_strips_prefixes() {
    let facts = vec![fact(
        "http://dbpedia.org/resource/Berlin",
        TYPE_PRED,
        "http://dbpedia.org/ontology/City",
    )];
    let tm = build_type_map(&facts);
    assert_eq!(tm.len(), 1);
    assert_eq!(tm.get(&"Berlin".to_string()), Some(&"City".to_string()));
}

#[test]
fn type_map_keeps_unprefixed_identifiers() {
    let facts = vec![fact("urn:thing", TYPE_PRED, "SomeType")];
    let tm = build_type_map(&facts);
    assert_eq!(tm.get(&"urn:thing".to_string()), Some(&"SomeType".to_string()));
}

#[test]
fn type_map_skips_non_type_predicates() {
    let facts = vec![fact(
        "http://dbpedia.org/resource/Berlin",
        "http://dbpedia.org/property/population",
        "http://dbpedia.org/ontology/City",
    )];
    let tm = build_type_map(&facts);
    assert_eq!(tm.len(), 0);
}

#[test]
fn type_map_excludes_root_types_with_path_separator() {
    let facts = vec![fact(
        "http://dbpedia.org/resource/Berlin",
        TYPE_PRED,
        "http://www.w3.org/2002/07/owl#Thing",
    )];
    let tm = build_type_map(&facts);
    assert_eq!(tm.get(&"Berlin".to_string()), None);
}

#[test]
fn later_type_fact_wins() {
    let facts = vec![
        fact("http://dbpedia.org/resource/R1", TYPE_PRED, "http://dbpedia.org/ontology/T1"),
        fact("http://dbpedia.org/resource/Other", TYPE_PRED, "http://dbpedia.org/ontology/T3"),
        fact("http://dbpedia.org/resource/R1", TYPE_PRED, "http://dbpedia.org/ontology/T2"),
    ];
    let tm = build_type_map(&facts);
    assert_eq!(tm.get(&"R1".to_string()), Some(&"T2".to_string()));
    assert_eq!(tm.get(&"Other".to_string()), Some(&"T3".to_string()));
}

#[test]
fn extension_index_groups_values_by_type_and_property() {
    let mut tm = TypeMap::new();
    tm.insert("Berlin".to_string(), "City".to_string());
    tm.insert("Paris".to_string(), "City".to_string());
    let pfacts = vec![
        pfact("http://dbpedia.org/resource/Berlin", "http://dbpedia.org/property/population", Some(3600000)),
        pfact("http://dbpedia.org/resource/Paris", "http://dbpedia.org/property/population", Some(2100000)),
    ];
    let idx = build_extension_index(&tm, &pfacts);
    assert_eq!(idx.len(), 1);
    let values = idx.get(&"City".to_string(), &"population".to_string()).unwrap();
    assert_eq!(values, &vec![3600000, 2100000]);
}

#[test]
fn extension_index_drops_non_numeric_and_untyped_facts() {
    let mut tm = TypeMap::new();
    tm.insert("Berlin".to_string(), "City".to_string());
    let pfacts = vec![
        // non-numeric object: skipped
        pfact("http://dbpedia.org/resource/Berlin", "http://dbpedia.org/property/mayor", None),
        // subject without a known type: skipped
        pfact("http://dbpedia.org/resource/Nowhere", "http://dbpedia.org/property/population", Some(7)),
    ];
    let idx = build_extension_index(&tm, &pfacts);
    assert_eq!(idx.len(), 0);
}

#[test]
fn extension_index_get_distinguishes_pairs() {
    let mut idx = ExtensionIndex::new();
    idx.append_value("City".to_string(), "population".to_string(), 10);
    idx.append_value("City".to_string(), "area".to_string(), 20);
    idx.append_value("City".to_string(), "population".to_string(), 30);
    assert_eq!(idx.len(), 2);
    assert_eq!(
        idx.get(&"City".to_string(), &"population".to_string()),
        Some(&vec![10, 30])
    );
    assert_eq!(idx.get(&"City".to_string(), &"area".to_string()), Some(&vec![20]));
    assert_eq!(idx.get(&"Town".to_string(), &"population".to_string()), None);
}
