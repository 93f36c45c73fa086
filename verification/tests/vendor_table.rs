use nodesailor::vendor::{load_oui_table, lookup_mac_vendor, parse_csv_line, VendorTable};

fn strings(fields: &[&str]) -> Vec<String> {
    fields.iter().map(|f| f.to_string()).collect()
}

#[test]
fn csv_line_splits_at_commas() {
    assert_eq!(parse_csv_line("a,b,c"), strings(&["a", "b", "c"]));
    assert_eq!(parse_csv_line("MA-L,AABBCC,Acme Corp,1 Road"), strings(&["MA-L", "AABBCC", "Acme Corp", "1 Road"]));
}

#[test]
fn csv_line_keeps_empty_fields() {
    assert_eq!(parse_csv_line(""), strings(&[""]));
    assert_eq!(parse_csv_line(","), strings(&["", ""]));
    assert_eq!(parse_csv_line("a,,b,"), strings(&["a", "", "b", ""]));
}

#[test]
fn csv_line_keeps_commas_inside_quotes() {
    assert_eq!(
        parse_csv_line("MA-L,001122,\"Acme, Inc.\",\"1 Road, Town\""),
        strings(&["MA-L", "001122", "Acme, Inc.", "1 Road, Town"])
    );
}

#[test]
fn csv_line_drops_quote_marks_wherever_they_stand() {
    assert_eq!(parse_csv_line("a\"b\"c,d"), strings(&["abc", "d"]));
    assert_eq!(parse_csv_line("\"\",x"), strings(&["", "x"]));
    assert_eq!(parse_csv_line("a\"\"b"), strings(&["ab"]));
}

#[test]
fn csv_line_with_an_open_quote_runs_to_the_end() {
    assert_eq!(parse_csv_line("a,\"b,c,d"), strings(&["a", "b,c,d"]));
}

#[test]
fn csv_line_keeps_white_space_and_non_ascii() {
    assert_eq!(parse_csv_line(" a , b "), strings(&[" a ", " b "]));
    assert_eq!(parse_csv_line("é,ü—x"), strings(&["é", "ü—x"]));
}

#[test]
fn lookup_finds_the_entry_of_the_first_six_digits() {
    let mut table = VendorTable::new();
    assert!(table.insert("AABBCC", "Acme Corp"));
    assert_eq!(lookup_mac_vendor("AA:BB:CC:11:22:33", &table), "Acme Corp");
}

#[test]
fn lookup_ignores_case_and_separators() {
    let mut table = VendorTable::new();
    assert!(table.insert("AABBCC", "Acme Corp"));
    assert_eq!(lookup_mac_vendor("aa-bb-cc-11-22-33", &table), "Acme Corp");
    assert_eq!(lookup_mac_vendor("aabb.cc11.2233", &table), "Acme Corp");
    assert_eq!(lookup_mac_vendor("aabbcc", &table), "Acme Corp");
    assert_eq!(lookup_mac_vendor("  Aa:bB:Cc", &table), "Acme Corp");
}

#[test]
fn lookup_of_a_short_mac_is_empty() {
    let mut table = VendorTable::new();
    assert!(table.insert("AABBCC", "Acme Corp"));
    assert_eq!(lookup_mac_vendor("AA:BB:C", &table), "");
    assert_eq!(lookup_mac_vendor("", &table), "");
    assert_eq!(lookup_mac_vendor("zz:yy:xx:ww:vv:uu", &table), "");
    assert_eq!(lookup_mac_vendor("AA:BB", &table), "");
}

#[test]
fn lookup_of_an_unknown_prefix_is_empty() {
    let mut table = VendorTable::new();
    assert!(table.insert("AABBCC", "Acme Corp"));
    assert_eq!(lookup_mac_vendor("AA:BB:CD:11:22:33", &table), "");
    assert_eq!(lookup_mac_vendor("11:22:33:AA:BB:CC", &table), "");
    assert_eq!(lookup_mac_vendor("AA:BB:CC:11:22:33", &VendorTable::new()), "");
}

#[test]
fn insert_normalizes_the_prefix() {
    let mut table = VendorTable::new();
    assert!(table.insert(" aabbcc ", "  Acme Corp  "));
    assert_eq!(table.get("AABBCC"), Some("Acme Corp".to_string()));
    assert_eq!(table.get("aabbcc"), None);
    assert_eq!(table.len(), 1);
}

#[test]
fn insert_refuses_what_is_no_prefix() {
    let mut table = VendorTable::new();
    assert!(!table.insert("AABBC", "five digits"));
    assert!(!table.insert("AABBCCD", "seven digits"));
    assert!(!table.insert("AABBCG", "not hexadecimal"));
    assert!(!table.insert("AA:BB:CC", "separators"));
    assert!(!table.insert("", "empty"));
    assert_eq!(table.len(), 0);
}

#[test]
fn insert_replaces_an_earlier_entry() {
    let mut table = VendorTable::new();
    assert!(table.insert("AABBCC", "First"));
    assert!(table.insert("aabbcc", "Second"));
    assert_eq!(table.len(), 1);
    assert_eq!(table.get("AABBCC"), Some("Second".to_string()));
}

#[test]
fn table_is_built_from_the_dataset() {
    let content = "Registry,Assignment,Organization Name,Organization Address\n\
                   MA-L,AABBCC,Acme Corp,1 Road\n\
                   MA-L,001122,\"Widgets, Inc.\",\"2 Street, City\"\r\n\
                   MA-L,ddeeff,  lower case  ,x\n";
    let table = load_oui_table(content);
    assert_eq!(table.len(), 3);
    assert_eq!(table.get("AABBCC"), Some("Acme Corp".to_string()));
    assert_eq!(table.get("001122"), Some("Widgets, Inc.".to_string()));
    assert_eq!(table.get("DDEEFF"), Some("lower case".to_string()));
    assert_eq!(lookup_mac_vendor("00:11:22:33:44:55", &table), "Widgets, Inc.");
}

#[test]
fn table_skips_the_header_row() {
    let table = load_oui_table("MA-L,AABBCC,Header Org\nMA-L,001122,Real Org\n");
    assert_eq!(table.len(), 1);
    assert_eq!(table.get("AABBCC"), None);
    assert_eq!(table.get("001122"), Some("Real Org".to_string()));
}

#[test]
fn table_skips_malformed_rows() {
    let content = "header\n\
                   MA-L,AABBCC\n\
                   MA-L,AABBC,Too Short\n\
                   MA-L,AABBCCDD,Too Long\n\
                   MA-L,GGHHII,Not Hex\n\
                   \n\
                   MA-L,123456,Good\n";
    let table = load_oui_table(content);
    assert_eq!(table.len(), 1);
    assert_eq!(table.get("123456"), Some("Good".to_string()));
}

#[test]
fn table_of_an_empty_dataset_is_empty() {
    assert_eq!(load_oui_table("").len(), 0);
    assert_eq!(load_oui_table("header only").len(), 0);
    assert_eq!(load_oui_table("header only\n").len(), 0);
}

#[test]
fn table_keeps_the_later_of_two_rows() {
    let table = load_oui_table("h\nx,AABBCC,First\nx,AABBCC,Second\n");
    assert_eq!(table.len(), 1);
    assert_eq!(table.get("AABBCC"), Some("Second".to_string()));
}

#[test]
fn table_reads_a_last_row_without_line_end() {
    let table = load_oui_table("h\nx,AABBCC,Org");
    assert_eq!(table.get("AABBCC"), Some("Org".to_string()));
}
