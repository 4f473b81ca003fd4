use ks_match::index::ExtensionIndex;
use ks_match::ks::Dist;
use ks_match::rank::{filter_ranked, preview_line, rank, top_k, Ranked};
use ks_match::Error;

fn small_index() -> ExtensionIndex {
    let mut idx = ExtensionIndex::new();
    for v in [1, 2, 3] {
        idx.append_value("Place".to_string(), "Population".to_string(), v);
    }
    for v in [2, 3, 4] {
        idx.append_value("Place".to_string(), "Area".to_string(), v);
    }
    for v in [100, 200, 300] {
        idx.append_value("Person".to_string(), "Height".to_string(), v);
    }
    idx
}

#[test]
fn rank_sorts_ascending_by_distance() {
    let idx = small_index();
    let query: Vec<i64> = vec![1, 2, 3];
    let ranked = rank(&idx, &query).unwrap();
    assert_eq!(ranked.len(), 3);
    // the identical distribution comes first, with distance 0
    assert_eq!(ranked[0].tname, "Place");
    assert_eq!(ranked[0].property, "Population");
    assert_eq!(ranked[0].dist.num, 0);
    // distances never decrease along the result
    for w in ranked.windows(2) {
        let a = &w[0].dist;
        let b = &w[1].dist;
        assert!((a.num as u128) * (b.den as u128) <= (b.num as u128) * (a.den as u128));
    }
    // the shifted distribution is at distance 1/3, the distant one at 1
    assert_eq!(ranked[1].property, "Area");
    assert!(ranked[1].dist.eq_frac(&Dist { num: 1, den: 3 }));
    assert_eq!(ranked[2].property, "Height");
    assert!(ranked[2].dist.eq_frac(&Dist { num: 1, den: 1 }));
}

#[test]
fn rank_breaks_ties_lexicographically() {
    let mut idx = ExtensionIndex::new();
    idx.append_value("B".to_string(), "x".to_string(), 1);
    idx.append_value("A".to_string(), "y".to_string(), 1);
    idx.append_value("A".to_string(), "x".to_string(), 1);
    let query: Vec<i64> = vec![1];
    let ranked = rank(&idx, &query).unwrap();
    let keys: Vec<(String, String)> = ranked
        .iter()
        .map(|r| (r.tname.clone(), r.property.clone()))
        .collect();
    assert_eq!(
        keys,
        vec![
            ("A".to_string(), "x".to_string()),
            ("A".to_string(), "y".to_string()),
            ("B".to_string(), "x".to_string()),
        ]
    );
}

#[test]
fn rank_rejects_an_empty_query() {
    let idx = small_index();
    let query: Vec<i64> = Vec::new();
    assert_eq!(rank(&idx, &query).err(), Some(Error::EmptySample));
}

#[test]
fn rank_of_empty_index_is_empty() {
    let idx = ExtensionIndex::new();
    let query: Vec<i64> = Vec::new();
    assert_eq!(rank(&idx, &query).unwrap().len(), 0);
}

#[test]
fn top_k_clamps_to_the_result_count() {
    let idx = small_index();
    let query: Vec<i64> = vec![1, 2, 3];
    let ranked = rank(&idx, &query).unwrap();
    let all: Vec<(String, String)> = ranked
        .iter()
        .map(|r| (r.tname.clone(), r.property.clone()))
        .collect();
    let top = top_k(ranked, 100);
    let kept: Vec<(String, String)> = top
        .iter()
        .map(|r| (r.tname.clone(), r.property.clone()))
        .collect();
    assert_eq!(kept, all);
}

#[test]
fn top_k_zero_is_empty() {
    let idx = small_index();
    let query: Vec<i64> = vec![1, 2, 3];
    let ranked = rank(&idx, &query).unwrap();
    assert!(top_k(ranked, 0).is_empty());
}

#[test]
fn top_k_takes_a_prefix() {
    let idx = small_index();
    let query: Vec<i64> = vec![1, 2, 3];
    let ranked = rank(&idx, &query).unwrap();
    let top = top_k(ranked, 2);
    assert_eq!(top.len(), 2);
    assert_eq!(top[0].property, "Population");
    assert_eq!(top[1].property, "Area");
}

fn ranked_for_filter() -> Vec<Ranked> {
    let idx = small_index();
    let query: Vec<i64> = vec![1, 2, 3];
    rank(&idx, &query).unwrap()
}

#[test]
fn filter_by_type_keeps_only_that_type() {
    let ranked = ranked_for_filter();
    let only = filter_ranked(&ranked, "Place:").unwrap();
    assert_eq!(only.len(), 2);
    assert!(only.iter().all(|r| r.tname == "Place"));
}

#[test]
fn filter_by_property_keeps_only_that_property() {
    let ranked = ranked_for_filter();
    let only = filter_ranked(&ranked, ":Population").unwrap();
    assert_eq!(only.len(), 1);
    assert_eq!(only[0].tname, "Place");
    assert_eq!(only[0].property, "Population");
}

#[test]
fn filter_by_pair_keeps_the_single_match() {
    let ranked = ranked_for_filter();
    let only = filter_ranked(&ranked, "Place:Population").unwrap();
    assert_eq!(only.len(), 1);
    assert_eq!(only[0].tname, "Place");
    assert_eq!(only[0].property, "Population");
    let none = filter_ranked(&ranked, "Place:Height").unwrap();
    assert!(none.is_empty());
}

#[test]
fn filter_without_separator_is_reported() {
    let ranked = ranked_for_filter();
    assert_eq!(filter_ranked(&ranked, "Place").err(), Some(Error::BadPattern));
    assert_eq!(filter_ranked(&ranked, "").err(), Some(Error::BadPattern));
}

#[test]
fn preview_shows_short_lists_in_full() {
    let items: Vec<String> = vec!["1".to_string(), "2.5".to_string(), "3".to_string()];
    assert_eq!(preview_line(&items), "[1, 2.5, 3]");
    let empty: Vec<String> = Vec::new();
    assert_eq!(preview_line(&empty), "[]");
}

#[test]
fn preview_abbreviates_long_lists() {
    let items: Vec<String> = (1..=8).map(|n| n.to_string()).collect();
    assert_eq!(preview_line(&items), "[1, 2, ..., 5, ..., 7, 8]");
}

#[test]
fn rank_of_empty_index_with_values_is_empty() {
    let idx = ExtensionIndex::new();
    let query: Vec<i64> = vec![1, 2];
    assert!(rank(&idx, &query).unwrap().is_empty());
}

#[test]
fn filter_with_extra_separators_reads_the_first_two_segments() {
    let mut idx = ExtensionIndex::new();
    idx.append_value("Place".to_string(), "a:b".to_string(), 1);
    let query: Vec<i64> = vec![1];
    let ranked = rank(&idx, &query).unwrap();
    // ":a:b" selects by the whole remainder as the property name
    let by_property = filter_ranked(&ranked, ":a:b").unwrap();
    assert_eq!(by_property.len(), 1);
    // "Place:a:b" reads the type before the first ':' and the property
    // between the first and second ':'
    let by_pair = filter_ranked(&ranked, "Place:a:b").unwrap();
    assert!(by_pair.is_empty());
}
