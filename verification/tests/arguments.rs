use manifest_runner::arguments::{parse_arguments, split_argument, ManifestArguments};
use manifest_runner::error::RunError;

fn strings(items: &[&str]) -> Vec<String> {
    items.iter().map(|s| s.to_string()).collect()
}

fn pair(key: &str, value: &str) -> Option<(String, String)> {
    Some((key.to_string(), value.to_string()))
}

#[test]
fn split_takes_key_and_value() {
    assert_eq!(split_argument("account=abc123"), pair("account", "abc123"));
}

#[test]
fn split_keeps_blanks_and_case() {
    assert_eq!(split_argument(" Key = Some Value "), pair(" Key ", " Some Value "));
}

#[test]
fn split_allows_empty_sides() {
    assert_eq!(split_argument("=b"), pair("", "b"));
    assert_eq!(split_argument("a="), pair("a", ""));
    assert_eq!(split_argument("="), pair("", ""));
}

#[test]
fn split_refuses_no_separator() {
    assert_eq!(split_argument("account"), None);
    assert_eq!(split_argument(""), None);
}

#[test]
fn split_refuses_two_separators() {
    assert_eq!(split_argument("a=b=c"), None);
    assert_eq!(split_argument("=="), None);
    assert_eq!(split_argument("a=b="), None);
}

#[test]
fn split_counts_characters_not_bytes() {
    assert_eq!(split_argument("schlüssel=wért"), pair("schlüssel", "wért"));
    assert_eq!(split_argument("鍵=値"), pair("鍵", "値"));
}

#[test]
fn parse_empty_list_gives_empty_mapping() {
    let mapping = parse_arguments(Vec::new()).unwrap();
    assert_eq!(mapping.len(), 0);
    assert!(mapping.is_empty());
}

#[test]
fn parse_maps_each_key_to_its_value() {
    let mapping = parse_arguments(strings(&["account=abc123", "amount=10"])).unwrap();
    assert_eq!(mapping.len(), 2);
    assert_eq!(mapping.get(&"account".to_string()), Some(&"abc123".to_string()));
    assert_eq!(mapping.get(&"amount".to_string()), Some(&"10".to_string()));
    assert_eq!(mapping.get(&"other".to_string()), None);
}

#[test]
fn parse_last_occurrence_wins() {
    let mapping = parse_arguments(strings(&["x=1", "y=2", "x=3", "z=4", "y=5"])).unwrap();
    assert_eq!(mapping.len(), 3);
    assert_eq!(mapping.get(&"x".to_string()), Some(&"3".to_string()));
    assert_eq!(mapping.get(&"y".to_string()), Some(&"5".to_string()));
    assert_eq!(mapping.get(&"z".to_string()), Some(&"4".to_string()));
}

#[test]
fn parse_size_is_number_of_distinct_keys() {
    let mapping = parse_arguments(strings(&["a=1", "a=2", "a=3", "b=1"])).unwrap();
    assert_eq!(mapping.len(), 2);
}

#[test]
fn parse_fails_without_separator() {
    let result = parse_arguments(strings(&["x=1", "broken", "y=2"]));
    assert_eq!(result.err(), Some(RunError::MalformedArgument { index: 1 }));
}

#[test]
fn parse_fails_with_two_separators() {
    let result = parse_arguments(strings(&["a=b=c"]));
    assert_eq!(result.err(), Some(RunError::MalformedArgument { index: 0 }));
}

#[test]
fn parse_names_the_first_malformed_argument() {
    let result = parse_arguments(strings(&["x=1", "y=2", "one", "two", "z=3"]));
    assert_eq!(result.err(), Some(RunError::MalformedArgument { index: 2 }));
}

#[test]
fn mapping_starts_empty() {
    let mapping = ManifestArguments::new();
    assert!(mapping.is_empty());
    assert_eq!(mapping.len(), 0);
    assert!(!mapping.contains_key(&"x".to_string()));
    assert_eq!(mapping.get(&"x".to_string()), None);
}

#[test]
fn mapping_insert_then_get() {
    let mut mapping = ManifestArguments::new();
    mapping.insert("x".to_string(), "1".to_string());
    assert!(!mapping.is_empty());
    assert_eq!(mapping.len(), 1);
    assert!(mapping.contains_key(&"x".to_string()));
    assert_eq!(mapping.get(&"x".to_string()), Some(&"1".to_string()));
}

#[test]
fn mapping_insert_overwrites_in_place() {
    let mut mapping = ManifestArguments::new();
    mapping.insert("x".to_string(), "1".to_string());
    mapping.insert("y".to_string(), "2".to_string());
    mapping.insert("x".to_string(), "3".to_string());
    assert_eq!(mapping.len(), 2);
    assert_eq!(mapping.key_at(0), "x");
    assert_eq!(mapping.value_at(0), "3");
    assert_eq!(mapping.key_at(1), "y");
    assert_eq!(mapping.value_at(1), "2");
}

#[test]
fn mapping_keys_differ_by_a_single_character() {
    let mut mapping = ManifestArguments::new();
    mapping.insert("key".to_string(), "1".to_string());
    mapping.insert("Key".to_string(), "2".to_string());
    mapping.insert("key ".to_string(), "3".to_string());
    assert_eq!(mapping.len(), 3);
    assert_eq!(mapping.get(&"key".to_string()), Some(&"1".to_string()));
    assert_eq!(mapping.get(&"Key".to_string()), Some(&"2".to_string()));
    assert_eq!(mapping.get(&"key ".to_string()), Some(&"3".to_string()));
}
