use erb_num2csv::{is_need_csv, normalize_name, parse_csv, CsvError, CsvInfo, Opt};

#[test]
fn normalize_test() {
    assert_eq!("쾌A", normalize_name("쾌Ａ"));
}

#[test]
fn normalize_rewrites_parens_and_spaces() {
    assert_eq!(normalize_name("a b(c)"), "ab__c");
    assert_eq!(normalize_name("ＡＢ"), "AB");
}

#[test]
fn parse_csv_reads_rows() {
    let table = parse_csv("\u{FEFF}0,HP\n1,MP ; a comment\n;only comment\n\n2,X,ignored\n", false)
        .unwrap();
    assert_eq!(table.get(0), Some(&"HP".to_string()));
    assert_eq!(table.get(1), Some(&"MP ".to_string()));
    assert_eq!(table.get(2), Some(&"X".to_string()));
    assert_eq!(table.get(3), None);
}

#[test]
fn parse_csv_later_rows_override() {
    let table = parse_csv("\u{FEFF}0,first\n0,second\n", false).unwrap();
    assert_eq!(table.get(0), Some(&"second".to_string()));
}

#[test]
fn parse_csv_normalizes_names_when_asked() {
    let table = parse_csv("\u{FEFF}0,쾌Ａ(값)\n", true).unwrap();
    assert_eq!(table.get(0), Some(&"쾌A__값".to_string()));
}

#[test]
fn parse_csv_without_marker_is_skipped() {
    assert!(matches!(parse_csv("0,HP\n", false), Err(CsvError::MissingMarker)));
    assert!(matches!(parse_csv("", false), Err(CsvError::MissingMarker)));
}

#[test]
fn parse_csv_rejects_bad_rows() {
    assert!(matches!(parse_csv("\u{FEFF}no separator\n", false), Err(CsvError::BadRow)));
    assert!(matches!(parse_csv("\u{FEFF}x,Y\n", false), Err(CsvError::BadRow)));
    assert!(matches!(parse_csv("\u{FEFF}99999999999,Y\n", false), Err(CsvError::BadRow)));
}

fn opt(includes: &[&str], excludes: &[&str]) -> Opt {
    Opt {
        includes: includes.iter().map(|s| s.to_string()).collect(),
        excludes: excludes.iter().map(|s| s.to_string()).collect(),
        normalize: false,
        explict_target: false,
    }
}

#[test]
fn selection_policy_orders_include_exclude_defaults() {
    let o = opt(&["MINE"], &["ABL", "MINE"]);
    assert!(is_need_csv("MINE", &o));
    assert!(!is_need_csv("ABL", &o));
    assert!(is_need_csv("BASE", &o));
    assert!(is_need_csv("FLAG", &o));
    assert!(!is_need_csv("OTHER", &o));
}

#[test]
fn store_loads_selected_families_from_files() {
    let files = vec![
        ("abl".to_string(), "\u{FEFF}0,HP\n".to_string()),
        ("other".to_string(), "\u{FEFF}0,X\n".to_string()),
    ];
    let csv = CsvInfo::new(&opt(&[], &[]), &files);
    assert_eq!(csv.replace_all("ABL:0"), "ABL:HP");
    assert_eq!(csv.replace_all("OTHER:0"), "OTHER:0".to_string());
}

#[test]
fn store_skips_file_without_marker() {
    let files = vec![("abl".to_string(), "0,HP\n".to_string())];
    let csv = CsvInfo::new(&opt(&[], &[]), &files);
    assert_eq!(csv.replace_all("ABL:0"), "ABL:0");
}

#[test]
fn store_skips_file_with_bad_row() {
    let files = vec![("abl".to_string(), "\u{FEFF}zz\n".to_string())];
    let csv = CsvInfo::new(&opt(&[], &[]), &files);
    assert_eq!(csv.replace_all("ABL:0"), "ABL:0");
}

#[test]
fn store_respects_excludes() {
    let files = vec![("abl".to_string(), "\u{FEFF}0,HP\n".to_string())];
    let csv = CsvInfo::new(&opt(&[], &["ABL"]), &files);
    assert_eq!(csv.replace_all("ABL:0"), "ABL:0");
}
