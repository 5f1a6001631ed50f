use hostfacts::facts::{
    build_aggregate, build_ip_facts, parse_group_db, parse_passwd_db, should_race_ipv6,
    skipped_family_result, timezone_value,
};
use hostfacts::json::{normalize, to_json_string};
use hostfacts::probe::capability_from_table;
use hostfacts::racer::FamilyResult;

#[test]
fn parse_passwd_db_builds_user_records() {
    let content = "root:x:0:0:root:/root:/bin/bash\nshort:line\n";
    let v = parse_passwd_db(content);
    let out = to_json_string(&normalize(&v));
    assert_eq!(
        out,
        "{\"root\":{\"comment\":\"root\",\"gid\":\"0\",\"home\":\"/root\",\"shell\":\"/bin/bash\",\"uid\":\"0\"}}"
    );
}

#[test]
fn parse_passwd_db_last_duplicate_wins() {
    let content = "u:x:1:1:a:/h:/s\nu:x:2:2:b:/h2:/s2\n";
    let v = parse_passwd_db(content);
    let out = to_json_string(&normalize(&v));
    assert!(out.contains("\"uid\":\"2\""));
    assert!(!out.contains("\"uid\":\"1\""));
}

#[test]
fn parse_group_db_splits_member_list() {
    let content = "wheel:x:10:alice,bob\n";
    let v = parse_group_db(content);
    let out = to_json_string(&normalize(&v));
    assert_eq!(
        out,
        "{\"wheel\":{\"gid\":\"10\",\"group-list\":[\"alice\",\"bob\"]}}"
    );
}

#[test]
fn parse_group_db_member_field_edge_cases() {
    // an empty fourth field holds one empty name; a missing one holds none
    let v = parse_group_db("nogroup:x:65534:\n");
    assert_eq!(
        to_json_string(&normalize(&v)),
        "{\"nogroup\":{\"gid\":\"65534\",\"group-list\":[\"\"]}}"
    );
    let w = parse_group_db("bare:x:7\n");
    assert_eq!(
        to_json_string(&normalize(&w)),
        "{\"bare\":{\"gid\":\"7\",\"group-list\":[]}}"
    );
}

#[test]
fn timezone_env_wins() {
    let v = timezone_value(Some("America/New_York".to_string()), Some("Europe/Berlin".to_string()));
    assert_eq!(to_json_string(&normalize(&v)), "{\"timezone\":\"America/New_York\"}");
}

#[test]
fn timezone_file_is_trimmed() {
    let v = timezone_value(None, Some(" Europe/Berlin\n".to_string()));
    assert_eq!(to_json_string(&normalize(&v)), "{\"timezone\":\"Europe/Berlin\"}");
}

#[test]
fn timezone_defaults_to_utc() {
    let v = timezone_value(None, None);
    assert_eq!(to_json_string(&normalize(&v)), "{\"timezone\":\"Etc/UTC\"}");
    let w = timezone_value(None, Some("  \n".to_string()));
    assert_eq!(to_json_string(&normalize(&w)), "{\"timezone\":\"Etc/UTC\"}");
}

#[test]
fn skipped_ipv6_has_no_address_and_no_error() {
    // capability absent: the orchestrator races nothing and records nothing
    let cap = capability_from_table("fe80000000000000021122fffe334455 02 40 20 80 eth0\n");
    assert!(!cap.present);
    assert!(!should_race_ipv6(&cap));
    let r = skipped_family_result();
    assert!(r.address.is_none());
    assert!(r.error.is_none());
    // the failed flag is still derived as true from the absent address
    let ipv4 = FamilyResult { address: Some("203.0.113.7".to_string()), error: None };
    let facts = build_ip_facts(ipv4, r, cap.diagnostic);
    let out = to_json_string(&normalize(&facts));
    assert_eq!(
        out,
        "{\"error_ipv4\":null,\"error_ipv6\":null,\"failed_ipv4\":false,\"failed_ipv6\":true,\"ipv6_check_error\":null,\"public_ip\":\"203.0.113.7\",\"public_ipv6\":\"\"}"
    );
}

#[test]
fn aggregate_serializes_with_sorted_top_level_keys() {
    let ipv4 = FamilyResult { address: Some("203.0.113.7".to_string()), error: None };
    let ipv6 = FamilyResult { address: None, error: Some("x: timed out".to_string()) };
    let ip = build_ip_facts(ipv4, ipv6, None);
    let groups = parse_group_db("wheel:x:10:alice\n");
    let users = parse_passwd_db("root:x:0:0:root:/root:/bin/bash\n");
    let tz = timezone_value(Some("Etc/UTC".to_string()), None);
    let agg = build_aggregate(ip, groups, users, tz);
    let out = to_json_string(&normalize(&agg));
    // top-level keys in lexicographic order, one line of compact JSON
    assert!(out.starts_with("{\"groups\":"));
    let gi = out.find("\"groups\"").unwrap();
    let ii = out.find("\"ip\"").unwrap();
    let ti = out.find("\"timezone\":\"Etc/UTC\"").unwrap();
    let ui = out.find("\"users\"").unwrap();
    assert!(gi < ii && ii < ti && ti < ui);
    assert!(!out.contains('\n'));
    assert!(out.contains("\"error_ipv6\":\"x: timed out\""));
    assert!(out.contains("\"failed_ipv6\":true"));
}
