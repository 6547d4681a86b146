use erb_num2csv::{apply_patterns, convert_text, CsvInfo, RegexPat, Table};

fn pat(regex: &str, replace: &str) -> RegexPat {
    RegexPat { regex: regex.to_string(), replace: replace.to_string() }
}

#[test]
fn patterns_apply_in_order() {
    let pats = vec![pat("a", "b"), pat("b", "c")];
    assert_eq!(apply_patterns(&pats, "a".to_string()), Some("c".to_string()));

    let pats = vec![pat("b", "c"), pat("a", "b")];
    assert_eq!(apply_patterns(&pats, "a".to_string()), Some("b".to_string()));
}

#[test]
fn patterns_replace_every_match_with_captures() {
    let pats = vec![pat("(\\w+):(\\d)", "$2=$1")];
    assert_eq!(
        apply_patterns(&pats, "x:1 y:2".to_string()),
        Some("1=x 2=y".to_string())
    );
}

#[test]
fn empty_pattern_list_is_identity() {
    assert_eq!(apply_patterns(&Vec::new(), "text".to_string()), Some("text".to_string()));
}

#[test]
fn invalid_pattern_is_fatal() {
    let pats = vec![pat("(", "x")];
    assert_eq!(apply_patterns(&pats, "text".to_string()), None);
}

#[test]
fn convert_text_resolves_then_rewrites() {
    let mut t = Table::new();
    t.insert(0, "HP".to_string());
    let csv = CsvInfo::from_tables(vec![("BASE".to_string(), t)], false);
    let pats = vec![pat("HP", "HitPoint")];
    assert_eq!(
        convert_text(&csv, "BASE:0", &pats),
        Some("BASE:HitPoint".to_string())
    );
    assert_eq!(convert_text(&csv, "BASE:0", &vec![pat("(", "x")]), None);
}
