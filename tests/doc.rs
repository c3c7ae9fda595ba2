use better_simp::{
    collect_reviews, count_tags, outline_of_response, percent_encode, polygons, sort_tags,
    LookupError, ParseError, TagCount,
};

fn row(cells: &[&str]) -> Vec<String> {
    cells.iter().map(|c| c.to_string()).collect()
}

#[test]
fn only_relevant_reviews_are_collected() {
    let rows = vec![
        row(&["語", "语", "", "", "", ""]),
        row(&["後", "后", "後", "", "", ""]),
        row(&["乾", "干", "", "", "", "多义"]),
    ];
    let v = collect_reviews(&rows).unwrap();
    assert_eq!(v.len(), 2);
    assert_eq!(v[0].mapping.trad, '後');
    assert_eq!(v[1].comment, "多义。");
}

#[test]
fn collecting_stops_at_a_bad_row() {
    let rows = vec![row(&["後", "后", "後", "", "", ""]), row(&["甲", "", "", "", "", ""])];
    assert_eq!(collect_reviews(&rows).unwrap_err(), ParseError::MissingSimp { trad: '甲' });
}

#[test]
fn tags_are_counted_in_order_of_appearance() {
    let rows = vec![
        row(&["後", "后", "後", "", "b a", ""]),
        row(&["乾", "干", "乾", "", "a", ""]),
        row(&["髮", "发", "髮", "", "c a b", ""]),
    ];
    let reviews = collect_reviews(&rows).unwrap();
    let counts = count_tags(&reviews);
    let pairs: Vec<(String, usize)> = counts.iter().map(|c| (c.tag.clone(), c.count)).collect();
    assert_eq!(
        pairs,
        vec![("b".to_string(), 2), ("a".to_string(), 3), ("c".to_string(), 1)]
    );
}

#[test]
fn tags_sort_by_descending_count_stably() {
    let counts = vec![
        TagCount { tag: "x".to_string(), count: 1 },
        TagCount { tag: "y".to_string(), count: 3 },
        TagCount { tag: "z".to_string(), count: 1 },
        TagCount { tag: "w".to_string(), count: 2 },
    ];
    let mut tags: Vec<String> = vec!["x".into(), "y".into(), "z".into(), "w".into()];
    sort_tags(&mut tags, &counts);
    assert_eq!(tags, vec!["y".to_string(), "w".to_string(), "x".to_string(), "z".to_string()]);
    let mut none: Vec<String> = Vec::new();
    sort_tags(&mut none, &counts);
    assert!(none.is_empty());
}

#[test]
fn bytes_are_percent_encoded() {
    assert_eq!(percent_encode("⿰".as_bytes()), "%E2%BF%B0");
    assert_eq!(percent_encode(&[0x0a, 0x7f]), "%0A%7F");
    assert_eq!(percent_encode(&[]), "");
}

#[test]
fn outline_is_split_and_cleaned() {
    let p = polygons(&"\"M1 2,3.5L'|4 5\"||".to_string());
    assert_eq!(p, vec!["1 2,3.5".to_string(), "4 5".to_string(), String::new(), String::new()]);
}

#[test]
fn outline_is_read_from_response() {
    let resp = "{\"⿰木木\": {\"svg\": \"M1 2L3 4|5 6\"}}";
    let v = outline_of_response(resp, "⿰木木").unwrap();
    assert_eq!(v, vec!["1 23 4".to_string(), "5 6".to_string()]);
    assert_eq!(outline_of_response("nope", "⿰木木").unwrap_err(), LookupError::BadJson);
    assert_eq!(outline_of_response("{}", "⿰木木").unwrap_err(), LookupError::NoEntry);
    assert_eq!(outline_of_response("{\"⿰木木\": {}}", "⿰木木").unwrap_err(), LookupError::NoOutline);
}
