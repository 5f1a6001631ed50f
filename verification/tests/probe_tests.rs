use hostfacts::probe::{capability_from_table, capability_read_failure, probe_table};

const GLOBAL_LINE: &str = "20010db8000000000000000000000001 02 40 00 80    eth0";
const LINK_LOCAL_LINE: &str = "fe80000000000000021122fffe334455 02 40 20 80    eth0";
const LOOPBACK_LINE: &str = "00000000000000000000000000000001 01 80 10 80       lo";

#[test]
fn probe_finds_global_scope_line() {
    let table = format!("{}\n{}\n", LOOPBACK_LINE, GLOBAL_LINE);
    assert!(probe_table(&table));
}

#[test]
fn probe_rejects_non_global_scopes() {
    let table = format!("{}\n{}\n", LOOPBACK_LINE, LINK_LOCAL_LINE);
    assert!(!probe_table(&table));
}

#[test]
fn probe_skips_short_lines_without_crashing() {
    // a scope-like token in a line with too few fields does not count
    let table = "00 00\nshort\n\n";
    assert!(!probe_table(table));
    let table2 = format!("broken line\n{}\n", GLOBAL_LINE);
    assert!(probe_table(&table2));
}

#[test]
fn probe_empty_table_is_absent() {
    assert!(!probe_table(""));
}

#[test]
fn probe_scope_column_must_be_fourth_field() {
    // "00" in another column does not signal global scope
    let table = "00 01 40 20 80 eth0\n";
    assert!(!probe_table(table));
}

#[test]
fn capability_from_table_has_no_diagnostic() {
    let cap = capability_from_table(GLOBAL_LINE);
    assert!(cap.present);
    assert!(cap.diagnostic.is_none());
}

#[test]
fn capability_read_failure_is_absent_with_diagnostic() {
    let cap = capability_read_failure("permission denied");
    assert!(!cap.present);
    let d = cap.diagnostic.expect("diagnostic expected");
    assert_eq!(d, "error reading interface table: permission denied");
}
