use rxterm::session::is_valid_host;
use rxterm::session::validate_session;
use rxterm::session::AuthMethod;
use rxterm::session::Protocol;
use rxterm::session::SshSession;
use rxterm::session::ValidationError;

fn make_session(id: &str, host: &str, port: u16) -> SshSession {
    SshSession {
        id: id.to_string(),
        label: "Test".to_string(),
        protocol: Protocol::Ssh,
        host: host.to_string(),
        port,
        username: "user".to_string(),
        auth_method: AuthMethod::Password,
        password: Some("secret".to_string()),
        private_key_path: None,
        notes: None,
        domain: None,
    }
}

#[test]
fn validate_rejects_empty_id() {
    let s = make_session("", "example.com", 22);
    assert!(matches!(validate_session(&s), Err(ValidationError::EmptyId)));
}

#[test]
fn validate_rejects_empty_host() {
    let s = make_session("abc", "", 22);
    assert!(matches!(validate_session(&s), Err(ValidationError::EmptyHost)));
}

#[test]
fn validate_rejects_port_zero() {
    let s = make_session("abc", "example.com", 0);
    assert!(matches!(validate_session(&s), Err(ValidationError::InvalidPort)));
}

#[test]
fn validate_rejects_invalid_host_chars() {
    let s = make_session("abc", "host;rm -rf /", 22);
    assert!(matches!(validate_session(&s), Err(ValidationError::InvalidHost)));
}

#[test]
fn validate_rejects_path_traversal_in_key_path() {
    let mut s = make_session("abc", "example.com", 22);
    s.private_key_path = Some("../../etc/shadow".to_string());
    assert!(matches!(validate_session(&s), Err(ValidationError::PathTraversal)));
}

#[test]
fn validate_accepts_valid_session() {
    let s = make_session("abc-123", "example.com", 22);
    assert!(validate_session(&s).is_ok());
}

#[test]
fn validate_accepts_ip_address_host() {
    let s = make_session("abc", "192.168.1.1", 22);
    assert!(validate_session(&s).is_ok());
}

#[test]
fn validate_accepts_ipv6_host() {
    let s = make_session("abc", "::1", 22);
    assert!(validate_session(&s).is_ok());
}

#[test]
fn is_valid_host_rejects_empty() {
    assert!(!is_valid_host(""));
}

#[test]
fn is_valid_host_rejects_shell_injection() {
    assert!(!is_valid_host("host;whoami"));
    assert!(!is_valid_host("host$(cmd)"));
    assert!(!is_valid_host("host\ninjection"));
}

#[test]
fn is_valid_host_accepts_hostname() {
    assert!(is_valid_host("example.com"));
    assert!(is_valid_host("my-host.local"));
    assert!(is_valid_host("192.168.1.1"));
    assert!(is_valid_host("::1"));
}

// ── Further cases ──────────────────────────────────────────────────

#[test]
fn validation_checks_in_order() {
    // An empty id is reported before an empty host or a zero port.
    let s = make_session("", "", 0);
    assert!(matches!(validate_session(&s), Err(ValidationError::EmptyId)));
    let s = make_session("a", "", 0);
    assert!(matches!(validate_session(&s), Err(ValidationError::EmptyHost)));
    let s = make_session("a", "bad host", 0);
    assert!(matches!(validate_session(&s), Err(ValidationError::InvalidPort)));
    let mut s = make_session("a", "bad host", 22);
    s.private_key_path = Some("..".to_string());
    assert!(matches!(validate_session(&s), Err(ValidationError::InvalidHost)));
}

#[test]
fn key_path_without_dot_dot_is_accepted() {
    let mut s = make_session("a", "example.com", 22);
    s.private_key_path = Some("/home/u/.ssh/id_ed25519".to_string());
    assert!(validate_session(&s).is_ok());
    s.private_key_path = Some("a.b/c.d".to_string());
    assert!(validate_session(&s).is_ok());
    s.private_key_path = Some("keys/..".to_string());
    assert!(matches!(validate_session(&s), Err(ValidationError::PathTraversal)));
}

#[test]
fn validation_messages() {
    assert_eq!(ValidationError::EmptyId.message(), "Session ID must not be empty");
    assert_eq!(ValidationError::EmptyHost.message(), "Host must not be empty");
    assert_eq!(ValidationError::InvalidHost.message(), "Host contains invalid characters");
    assert_eq!(ValidationError::InvalidPort.message(), "Port must be between 1 and 65535");
    assert_eq!(ValidationError::PathTraversal.message(), "Private key path contains path traversal");
}

#[test]
fn protocol_defaults_to_ssh() {
    assert_eq!(Protocol::default(), Protocol::Ssh);
}

#[test]
fn host_length_limit_is_253_bytes() {
    let ok = "a".repeat(253);
    let long = "a".repeat(254);
    assert!(is_valid_host(&ok));
    assert!(!is_valid_host(&long));
    // Multi-byte characters count by their UTF-8 length.
    let wide = "é".repeat(127);
    assert!(!is_valid_host(&wide));
    let wide_ok = "é".repeat(126);
    assert!(is_valid_host(&wide_ok));
}

#[test]
fn unicode_letters_are_host_characters() {
    assert!(is_valid_host("bücher.example"));
    assert!(!is_valid_host("tab\there"));
    assert!(!is_valid_host("a b"));
    assert!(is_valid_host("under_score-host.local"));
}

#[test]
fn ipv6_forms() {
    assert!(is_valid_host("::"));
    assert!(is_valid_host("fe80::1"));
    assert!(is_valid_host("2001:db8:0:0:0:0:2:1"));
    assert!(is_valid_host("2001:DB8::8:800:200C:417A"));
    assert!(is_valid_host("::ffff:192.168.1.1"));
    assert!(is_valid_host("1:2:3:4:5:6:1.2.3.4"));
    assert!(is_valid_host("1:2:3:4:5:6:7::"));
    assert!(is_valid_host("::2:3:4:5:6:7:8"));
    assert!(!is_valid_host("1:2:3:4:5:6:7:8::"));
    assert!(!is_valid_host("1::2::3"));
    assert!(!is_valid_host(":::"));
    assert!(!is_valid_host("12345::"));
    assert!(!is_valid_host("1:2:3:4:5:6:7"));
    assert!(!is_valid_host("::1.2.3.4:5"));
    assert!(!is_valid_host("1.2.3.4::"));
    assert!(!is_valid_host("::01.2.3.4"));
    assert!(!is_valid_host("1:2:3:4:5:6::1.2.3.4"));
    assert!(!is_valid_host("fe80::1%eth0"));
    assert!(!is_valid_host("[::1]"));
}

#[test]
fn valid_hosts_hold_no_metacharacters() {
    for bad in ["a;b", "a$b", "a/b", "a(b", "a`b", "a|b", "a&b", "a b", "a\u{00A0}b", "a\u{3000}b"] {
        assert!(!is_valid_host(bad), "{:?}", bad);
    }
    assert!(is_valid_host("münchen.example"));
    assert!(is_valid_host("fe80::1"));
    assert!(is_valid_host("my_host-1.local"));
}
