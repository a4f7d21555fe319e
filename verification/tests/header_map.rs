use headers::Header;
use headers::HeaderMap;
use headers::Text;

#[test]
fn header_renders_as_name_colon_value() {
    let header = Header::new("X-Custom-Header", "custom value");
    assert_eq!(header.render(), "X-Custom-Header: custom value");
}

#[test]
fn header_from_owned_strings_renders_alike() {
    let value = format!("{} value", "custom");
    let header = Header::new_owned("X-Custom-Header".to_string(), value);
    assert_eq!(header.render(), "X-Custom-Header: custom value");
}

#[test]
fn text_compares_by_content_across_ownership() {
    assert!(Text::Borrowed("abc") == Text::Owned("abc".to_string()));
    assert!(Text::Borrowed("abc") != Text::Borrowed("abd"));
    assert_eq!(Text::Owned("abc".to_string()).as_str(), "abc");
    let t = Text::Borrowed("abc");
    assert!(t.duplicate() == t);
}

#[test]
fn header_equality_is_structural_over_name_and_value() {
    let a = Header::new("X-Custom", "value_1");
    let b = Header::new_owned("X-Custom".to_string(), "value_1".to_string());
    let c = Header::new("X-Custom", "value_2");
    assert!(a == b);
    assert!(a != c);
}

#[test]
fn new_map_is_empty() {
    let map: HeaderMap = HeaderMap::new();
    assert!(map.is_empty());
    assert_eq!(map.len(), 0);
    assert!(!map.contains("X-Custom"));
}

#[test]
fn default_map_is_empty() {
    let map: HeaderMap = Default::default();
    assert!(map.is_empty());
    assert_eq!(map.len(), 0);
}

#[test]
fn add_then_get_round_trip() {
    let mut map = HeaderMap::new();
    map.add_raw("X-Custom", "value_1");
    map.add_raw("X-Custom", "value_2");
    assert_eq!(map.len(), 2);
    assert_eq!(map.get("X-Custom"), vec!["value_1", "value_2"]);
    assert_eq!(map.get_one("X-Custom"), Some("value_1"));
    assert!(!map.is_empty());
}

#[test]
fn add_retains_duplicate_values() {
    let mut map = HeaderMap::new();
    map.add_raw("X-Custom", "same");
    map.add_raw("X-Custom", "same");
    assert_eq!(map.len(), 2);
    assert_eq!(map.get("X-Custom"), vec!["same", "same"]);
}

#[test]
fn add_via_header_values() {
    let mut map = HeaderMap::new();
    map.add(Header::new("Set-Cookie", "a=b"));
    map.add(Header::new("Set-Cookie", "c=d"));
    assert_eq!(map.get("Set-Cookie"), vec!["a=b", "c=d"]);
}

#[test]
fn len_counts_values_not_names() {
    let mut map = HeaderMap::new();
    assert_eq!(map.len(), 0);
    map.add_raw("X-Custom", "value_1");
    assert_eq!(map.len(), 1);
    map.replace_raw("X-Custom", "value_2");
    assert_eq!(map.len(), 1);
    map.add_raw("X-Custom", "value_1");
    assert_eq!(map.len(), 2);
    map.add_raw("X-Other", "other");
    assert_eq!(map.len(), 3);
}

#[test]
fn get_of_absent_name_is_empty() {
    let mut map = HeaderMap::new();
    map.add_raw("X-Custom", "value_1");
    assert_eq!(map.get("X-Other"), Vec::<&str>::new());
    assert_eq!(map.get_one("X-Other"), None);
}

#[test]
fn name_matching_is_case_sensitive() {
    let mut map = HeaderMap::new();
    map.add_raw("X-Custom", "value_1");
    assert!(map.contains("X-Custom"));
    assert!(!map.contains("x-custom"));
    assert_eq!(map.get_one("x-custom"), None);
}

#[test]
fn replace_discards_every_prior_value() {
    let mut map = HeaderMap::new();
    map.add_raw("X-Custom", "value_1");
    map.add_raw("X-Custom", "value_2");
    map.add_raw("X-Custom", "value_3");
    let existed = map.replace_raw("X-Custom", "value_9");
    assert!(existed);
    assert_eq!(map.get_one("X-Custom"), Some("value_9"));
    assert_eq!(map.get("X-Custom").len(), 1);
    assert_eq!(map.len(), 1);
}

#[test]
fn replace_of_absent_name_adds_and_reports_absence() {
    let mut map = HeaderMap::new();
    let existed = map.replace(Header::new("Content-Type", "application/json"));
    assert!(!existed);
    assert_eq!(map.get_one("Content-Type"), Some("application/json"));
    assert_eq!(map.len(), 1);
}

#[test]
fn replace_raw_twice_keeps_last_value() {
    let mut map = HeaderMap::new();
    map.replace_raw("Content-Type", "application/json");
    map.replace_raw("Content-Type", "image/gif");
    assert_eq!(map.len(), 1);
    assert_eq!(map.get_one("Content-Type"), Some("image/gif"));
}

#[test]
fn replace_all_installs_the_full_sequence() {
    let mut map = HeaderMap::new();
    map.add_raw("X-Custom", "value_1");
    map.add_raw("X-Custom", "value_2");
    map.replace_all("X-Custom", vec![
        Text::Borrowed("value_3"),
        Text::Borrowed("value_4"),
    ]);
    assert_eq!(map.get("X-Custom"), vec!["value_3", "value_4"]);
    assert_eq!(map.len(), 2);
}

#[test]
fn replace_all_with_no_values_leaves_the_name_absent() {
    let mut map = HeaderMap::new();
    map.add_raw("X-Custom", "value_1");
    map.replace_all("X-Custom", Vec::new());
    assert!(!map.contains("X-Custom"));
    assert!(map.is_empty());
}

#[test]
fn add_all_appends_in_order_and_drains_its_input() {
    let mut map = HeaderMap::new();
    let mut values = vec![Text::Borrowed("value_1"), Text::Borrowed("value_2")];
    map.add_all("X-Custom", &mut values);
    assert_eq!(map.get("X-Custom").len(), 2);
    assert_eq!(values.len(), 0);
    let mut values = vec![Text::Borrowed("value_3"), Text::Borrowed("value_4")];
    map.add_all("X-Custom", &mut values);
    assert_eq!(values.len(), 0);
    assert_eq!(map.get("X-Custom"), vec!["value_1", "value_2", "value_3", "value_4"]);
    assert_eq!(map.len(), 4);
}

#[test]
fn add_all_with_no_values_stores_no_residue() {
    let mut map = HeaderMap::new();
    let mut values: Vec<Text> = Vec::new();
    map.add_all("X-Custom", &mut values);
    assert!(!map.contains("X-Custom"));
    assert!(map.is_empty());
}

#[test]
fn remove_deletes_the_name_and_all_its_values() {
    let mut map = HeaderMap::new();
    map.add_raw("X-Custom", "value_1");
    map.add_raw("X-Custom", "value_2");
    map.add_raw("X-Other", "other");
    assert_eq!(map.len(), 3);
    map.remove("X-Custom");
    assert_eq!(map.len(), 1);
    assert!(!map.contains("X-Custom"));
    assert_eq!(map.get("X-Custom"), Vec::<&str>::new());
    assert!(map.contains("X-Other"));
}

#[test]
fn remove_of_absent_name_is_a_no_op_twice() {
    let mut map = HeaderMap::new();
    map.add_raw("X-Other", "other");
    map.remove("X-Missing");
    map.remove("X-Missing");
    assert_eq!(map.len(), 1);
    assert!(map.contains("X-Other"));
    assert!(!map.contains("X-Missing"));
}

fn pairs_of(drained: Vec<Header>) -> Vec<(String, String)> {
    let mut pairs = Vec::new();
    for h in drained {
        pairs.push((h.name.as_str().to_string(), h.value.as_str().to_string()));
    }
    pairs
}

#[test]
fn remove_all_drains_everything_grouped_and_in_order() {
    let mut map = HeaderMap::new();
    map.add_raw("X-Custom", "value_1");
    map.add_raw("X-Custom", "value_2");
    map.add_raw("X-Other", "other");
    let removed = map.remove_all();
    assert!(map.is_empty());
    assert_eq!(map.len(), 0);
    let pairs = pairs_of(removed);
    assert_eq!(pairs.len(), 3);
    let customs: Vec<&str> = pairs
        .iter()
        .filter(|p| p.0 == "X-Custom")
        .map(|p| p.1.as_str())
        .collect();
    assert_eq!(customs, vec!["value_1", "value_2"]);
    let others: Vec<&str> = pairs
        .iter()
        .filter(|p| p.0 == "X-Other")
        .map(|p| p.1.as_str())
        .collect();
    assert_eq!(others, vec!["other"]);
    let first = pairs.iter().position(|p| p.0 == "X-Custom").unwrap();
    assert_eq!(pairs[first].1, "value_1");
    assert_eq!(pairs[first + 1].0, "X-Custom");
    assert_eq!(pairs[first + 1].1, "value_2");
}

#[test]
fn iter_yields_everything_and_leaves_the_map_unchanged() {
    let mut map = HeaderMap::new();
    map.add_raw("X-Custom", "value_1");
    map.add_raw("X-Custom", "value_2");
    map.add_raw("X-Other", "other");
    let seen = map.iter();
    assert_eq!(seen.len(), 3);
    let pairs = pairs_of(seen);
    let customs: Vec<&str> = pairs
        .iter()
        .filter(|p| p.0 == "X-Custom")
        .map(|p| p.1.as_str())
        .collect();
    assert_eq!(customs, vec!["value_1", "value_2"]);
    assert_eq!(map.len(), 3);
    assert_eq!(map.get("X-Custom"), vec!["value_1", "value_2"]);
}

#[test]
fn into_iter_consumes_the_map_with_the_same_contents() {
    let mut map = HeaderMap::new();
    map.add_raw("X-Custom", "value_1");
    map.add_raw("X-Custom", "value_2");
    let flat = map.into_iter();
    let pairs = pairs_of(flat);
    assert_eq!(pairs.len(), 2);
    assert_eq!(pairs[0], ("X-Custom".to_string(), "value_1".to_string()));
    assert_eq!(pairs[1], ("X-Custom".to_string(), "value_2".to_string()));
}

#[test]
fn into_iter_raw_yields_each_name_once_with_its_values() {
    let mut map = HeaderMap::new();
    map.add_raw("X-Custom", "value_1");
    map.add_raw("X-Custom", "value_2");
    let raw = map.into_iter_raw();
    assert_eq!(raw.len(), 1);
    assert_eq!(raw[0].0.as_str(), "X-Custom");
    assert_eq!(raw[0].1.len(), 2);
    assert_eq!(raw[0].1[0].as_str(), "value_1");
    assert_eq!(raw[0].1[1].as_str(), "value_2");
}

#[test]
fn typed_headers_flatten_into_owned_pairs() {
    let typed = Header::new("Content-Length", "42");
    let header = Header::from_typed(&typed);
    assert_eq!(header.render(), "Content-Length: 42");
    assert!(matches!(header.name, Text::Owned(_)));
    assert!(matches!(header.value, Text::Owned(_)));
    let mut map = HeaderMap::new();
    map.add(header);
    assert_eq!(map.get_one("Content-Length"), Some("42"));
}

#[test]
fn owned_and_borrowed_values_mix_in_one_map() {
    let mut map = HeaderMap::new();
    map.add(Header::new_owned("X-Custom".to_string(), "owned value".to_string()));
    map.add_raw("X-Custom", "borrowed value");
    assert_eq!(map.get("X-Custom"), vec!["owned value", "borrowed value"]);
}
