use hostfacts::validator::validate;
use hostfacts::AddressFamily;

#[test]
fn ipv4_accepts_dotted_quad() {
    assert!(validate("192.168.1.1", AddressFamily::V4));
    assert!(validate("0.0.0.0", AddressFamily::V4));
    assert!(validate("255.255.255.255", AddressFamily::V4));
    assert!(validate("203.0.113.7", AddressFamily::V4));
}

#[test]
fn ipv4_rejects_ipv6_and_junk() {
    assert!(!validate("192.168.1.1", AddressFamily::V6));
    assert!(!validate("::1", AddressFamily::V4));
    assert!(!validate("not-an-ip", AddressFamily::V4));
    assert!(!validate("not-an-ip", AddressFamily::V6));
    assert!(!validate("", AddressFamily::V4));
    assert!(!validate("", AddressFamily::V6));
}

#[test]
fn ipv4_rejects_malformed_quads() {
    assert!(!validate("1.2.3", AddressFamily::V4));
    assert!(!validate("1.2.3.4.5", AddressFamily::V4));
    assert!(!validate("256.1.1.1", AddressFamily::V4));
    assert!(!validate("192.168.01.1", AddressFamily::V4));
    assert!(!validate("1..2.3", AddressFamily::V4));
    assert!(!validate("1.2.3.", AddressFamily::V4));
    assert!(!validate(".1.2.3", AddressFamily::V4));
    assert!(!validate("a.b.c.d", AddressFamily::V4));
}

#[test]
fn ipv4_rejects_untrimmed_whitespace() {
    assert!(!validate("192.168.1.1 ", AddressFamily::V4));
    assert!(!validate(" 192.168.1.1", AddressFamily::V4));
    assert!(!validate("192.168.1.1\n", AddressFamily::V4));
    assert!(!validate("::1\n", AddressFamily::V6));
    assert!(!validate("::1 ", AddressFamily::V6));
}

#[test]
fn ipv6_accepts_standard_forms() {
    assert!(validate("::1", AddressFamily::V6));
    assert!(validate("::", AddressFamily::V6));
    assert!(validate("1:2:3:4:5:6:7:8", AddressFamily::V6));
    assert!(validate("2001:db8::8a2e:370:7334", AddressFamily::V6));
    assert!(validate("fe80::", AddressFamily::V6));
    assert!(validate("1:2:3:4:5:6:7::", AddressFamily::V6));
    assert!(validate("::2:3:4:5:6:7:8", AddressFamily::V6));
    assert!(validate("ABCD:ef01:2345:6789:abcd:EF01:2345:6789", AddressFamily::V6));
}

#[test]
fn ipv6_accepts_embedded_ipv4() {
    assert!(validate("::ffff:192.168.1.1", AddressFamily::V6));
    assert!(validate("1:2:3:4:5:6:1.2.3.4", AddressFamily::V6));
    assert!(validate("1::1.2.3.4", AddressFamily::V6));
}

#[test]
fn ipv6_rejects_malformed_forms() {
    assert!(!validate(":::", AddressFamily::V6));
    assert!(!validate(":", AddressFamily::V6));
    assert!(!validate(":1", AddressFamily::V6));
    assert!(!validate("1:", AddressFamily::V6));
    assert!(!validate("1::2::3", AddressFamily::V6));
    assert!(!validate("1:2:3:4:5:6:7:8:9", AddressFamily::V6));
    assert!(!validate("1:2:3:4:5:6:7", AddressFamily::V6));
    assert!(!validate("12345::", AddressFamily::V6));
    assert!(!validate("1:2:3:4:5:6:7:8::", AddressFamily::V6));
    assert!(!validate("::1:2:3:4:5:6:7:8", AddressFamily::V6));
    assert!(!validate("g::1", AddressFamily::V6));
    assert!(!validate("1:2:3:4:5:6:1.2.3.4.5", AddressFamily::V6));
    assert!(!validate("::ffff:192.168.01.1", AddressFamily::V6));
    assert!(!validate("1.2.3.4::", AddressFamily::V6));
}
