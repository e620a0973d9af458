use manifest_runner::arguments::{parse_arguments, ManifestArguments};
use manifest_runner::template::replace_variables;

fn mapping(pairs: &[(&str, &str)]) -> ManifestArguments {
    let mut mapping = ManifestArguments::new();
    for (key, value) in pairs {
        mapping.insert(key.to_string(), value.to_string());
    }
    mapping
}

fn fill(text: &str, pairs: &[(&str, &str)]) -> String {
    replace_variables(text.to_string(), mapping(pairs))
}

#[test]
fn fills_each_placeholder() {
    assert_eq!(fill("a=${x} b=${y}", &[("x", "1"), ("y", "2")]), "a=1 b=2");
}

#[test]
fn order_of_insertion_does_not_matter() {
    assert_eq!(fill("a=${x} b=${y}", &[("y", "2"), ("x", "1")]), "a=1 b=2");
}

#[test]
fn unknown_placeholder_stays() {
    assert_eq!(fill("${unknown}", &[]), "${unknown}");
    assert_eq!(fill("${unknown} ${x}", &[("x", "1")]), "${unknown} 1");
}

#[test]
fn text_without_placeholders_is_unchanged() {
    let text = "CALL_METHOD Address(\"abc\") \"free\";\n$ { x } {x} $x";
    assert_eq!(fill(text, &[("x", "1"), ("y", "2")]), text);
}

#[test]
fn empty_text_stays_empty() {
    assert_eq!(fill("", &[("x", "1")]), "");
}

#[test]
fn every_occurrence_is_filled() {
    assert_eq!(fill("${x}${x}-${x}", &[("x", "ab")]), "abab-ab");
}

#[test]
fn value_is_not_read_again() {
    assert_eq!(fill("${a}", &[("a", "${b}"), ("b", "2")]), "${b}");
    assert_eq!(fill("${b}${a}", &[("a", "${b}"), ("b", "${a}")]), "${a}${b}");
    assert_eq!(fill("${a}", &[("a", "${a}")]), "${a}");
}

#[test]
fn value_and_following_text_do_not_join_into_a_placeholder() {
    assert_eq!(fill("${a}{b}", &[("a", "$"), ("b", "2")]), "${b}");
}

#[test]
fn value_may_be_empty() {
    assert_eq!(fill("[${x}]", &[("x", "")]), "[]");
}

#[test]
fn key_may_be_empty() {
    assert_eq!(fill("[${}]", &[("", "nothing")]), "[nothing]");
}

#[test]
fn unclosed_placeholder_stays() {
    assert_eq!(fill("${x", &[("x", "1")]), "${x");
    assert_eq!(fill("${", &[("", "1")]), "${");
    assert_eq!(fill("$", &[("x", "1")]), "$");
}

#[test]
fn dollar_before_placeholder_stays() {
    assert_eq!(fill("$${x}", &[("x", "1")]), "$1");
    assert_eq!(fill("${${x}}", &[("x", "1")]), "${1}");
}

#[test]
fn shortest_key_counts_where_two_stand() {
    assert_eq!(fill("${a}b}", &[("a", "1"), ("a}b", "2")]), "1b}");
    assert_eq!(fill("${a}b}", &[("a}b", "2"), ("a", "1")]), "1b}");
    assert_eq!(fill("${a}b}", &[("a}b", "2")]), "2");
}

#[test]
fn leftmost_placeholder_counts_where_two_overlap() {
    assert_eq!(fill("${x${y}", &[("x${y", "1"), ("y", "2")]), "1");
    assert_eq!(fill("${x${y}", &[("y", "2")]), "${x2");
}

#[test]
fn keys_are_matched_to_the_letter() {
    assert_eq!(fill("${X} ${x } ${ x}", &[("x", "1")]), "${X} ${x } ${ x}");
}

#[test]
fn text_beyond_ascii() {
    assert_eq!(fill("größe=${größe} 値=${値}", &[("größe", "zwölf"), ("値", "十")]), "größe=zwölf 値=十");
}

#[test]
fn manifest_with_account_and_amount() {
    let manifest = "CALL_METHOD Address(\"${account}\") \"withdraw\" Decimal(\"${amount}\");";
    let arguments =
        parse_arguments(vec!["account=abc123".to_string(), "amount=10".to_string()]).unwrap();
    assert_eq!(
        replace_variables(manifest.to_string(), arguments),
        "CALL_METHOD Address(\"abc123\") \"withdraw\" Decimal(\"10\");"
    );
}
