use erb_num2csv::{CsvInfo, Table};

fn table(entries: &[(u32, &str)]) -> Table {
    let mut t = Table::new();
    for (idx, name) in entries {
        t.insert(*idx, (*name).to_string());
    }
    t
}

fn demo_store(explict_target: bool) -> CsvInfo {
    CsvInfo::from_tables(
        vec![
            ("ABL".to_string(), table(&[(0, "C감각"), (1, "V감각")])),
            ("BASE".to_string(), table(&[(0, "체력"), (1, "기력")])),
            ("TALENT".to_string(), table(&[(0, "처녀")])),
        ],
        explict_target,
    )
}

#[test]
fn replace() {
    let csv = demo_store(true);

    assert_eq!(csv.replace_all("ABL:0"), "ABL:TARGET:C감각");
    assert_eq!(
        csv.replace_all("@BASERATIO(ARG, ARG:1, ARG:2)"),
        "@BASERATIO(ARG, ARG:1, ARG:2)"
    );
    assert_eq!(csv.replace_all("ABL:TARGET:01"), "ABL:TARGET:V감각");
    assert_eq!(csv.replace_all("TALENT:2:0"), "TALENT:2:처녀");
}

#[test]
fn hit_resolves_to_name() {
    let csv = demo_store(false);
    assert_eq!(csv.replace_all("ABL:0"), "ABL:C감각");
    assert_eq!(csv.replace_all("BASE:1"), "BASE:기력");
}

#[test]
fn family_miss_is_unchanged() {
    let csv = demo_store(false);
    assert_eq!(csv.replace_all("FOO:3"), "FOO:3");
    let csv = demo_store(true);
    assert_eq!(csv.replace_all("FOO:3"), "FOO:3");
}

#[test]
fn index_miss_keeps_digits() {
    let csv = demo_store(false);
    assert_eq!(csv.replace_all("ABL:7"), "ABL:7");
    let csv = demo_store(true);
    assert_eq!(csv.replace_all("ABL:7"), "ABL:TARGET:7");
}

#[test]
fn index_overflow_is_unchanged() {
    let csv = demo_store(true);
    assert_eq!(csv.replace_all("ABL:99999999999"), "ABL:99999999999");
}

#[test]
fn alias_redirects_to_backing_family() {
    let csv = CsvInfo::from_tables(
        vec![
            ("JUEL".to_string(), table(&[(0, "주얼")])),
            ("EX".to_string(), table(&[(0, "엑스")])),
            ("BASE".to_string(), table(&[(0, "HP")])),
        ],
        false,
    );
    assert_eq!(csv.replace_all("PALAM:0"), "PALAM:주얼");
    assert_eq!(csv.replace_all("UP:0"), "UP:주얼");
    assert_eq!(csv.replace_all("DOWN:0"), "DOWN:주얼");
    assert_eq!(csv.replace_all("NOWEX:0"), "NOWEX:엑스");
    assert_eq!(csv.replace_all("UPBASE:0"), "UPBASE:HP");
    assert_eq!(csv.replace_all("DOWNBASE:0"), "DOWNBASE:HP");
}

#[test]
fn name_suffix_strips_to_family() {
    let csv = demo_store(false);
    assert_eq!(csv.replace_all("ABLNAME:1"), "ABLNAME:V감각");
}

#[test]
fn resolver_is_idempotent_on_resolved_output() {
    let csv = demo_store(true);
    let once = csv.replace_all("ABL:0");
    assert_eq!(once, "ABL:TARGET:C감각");
    assert_eq!(csv.replace_all(&once), once);

    let csv = demo_store(false);
    let once = csv.replace_all("ABL:0 and TALENT:2:0");
    assert_eq!(csv.replace_all(&once), once);
}

#[test]
fn level2_name_is_a_fixed_point() {
    let csv = CsvInfo::from_tables(
        vec![("ABL".to_string(), table(&[(2, "LEVEL2")]))],
        false,
    );
    let once = csv.replace_all("ABL:2");
    assert_eq!(once, "ABL:LEVEL2");
    assert_eq!(csv.replace_all(&once), "ABL:LEVEL2");
}

#[test]
fn ascii_scenario() {
    let tables = || {
        vec![
            ("ABL".to_string(), table(&[(0, "C-sense"), (1, "V-sense")])),
            ("BASE".to_string(), table(&[(0, "HP"), (1, "MP")])),
            ("TALENT".to_string(), table(&[(0, "Virgin")])),
        ]
    };
    let plain = CsvInfo::from_tables(tables(), false);
    assert_eq!(plain.replace_all("ABL:0"), "ABL:C-sense");

    let explicit = CsvInfo::from_tables(tables(), true);
    assert_eq!(explicit.replace_all("ABL:0"), "ABL:TARGET:C-sense");
    assert_eq!(explicit.replace_all("ABL:TARGET:01"), "ABL:TARGET:V-sense");
    assert_eq!(explicit.replace_all("TALENT:2:0"), "TALENT:2:Virgin");
}

#[test]
fn mixed_text_keeps_surroundings() {
    let csv = demo_store(false);
    assert_eq!(
        csv.replace_all("PRINTL ability is ABL:1 (raw)"),
        "PRINTL ability is ABL:V감각 (raw)"
    );
}

#[test]
fn scope_qualifier_is_kept() {
    let csv = demo_store(false);
    assert_eq!(csv.replace_all("ABL:MASTER:0"), "ABL:MASTER:C감각");
}
