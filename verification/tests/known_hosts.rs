use rxterm::known_hosts::format_host;
use rxterm::known_hosts::parse_known_hosts;
use rxterm::known_hosts::render_known_hosts;
use rxterm::known_hosts::HostKeyStatus;
use rxterm::known_hosts::KnownHostEntry;
use rxterm::known_hosts::KnownHostsError;
use rxterm::known_hosts::KnownHostsStore;

fn temp_store() -> KnownHostsStore {
    KnownHostsStore::with_path("known_hosts".to_string())
}

#[test]
fn accept_rejects_newline_in_algorithm() {
    let mut store = temp_store();
    let result = store.accept(
        "example.com",
        22,
        "AAAAB3NzaC1yc2EAAAA",
        "ssh-rsa\n[evil.host]:22 ssh-ed25519 AAAA",
    );
    assert!(result.is_err(), "should reject algorithm with newline");
}

#[test]
fn accept_rejects_newline_in_key_data() {
    let mut store = temp_store();
    let result = store.accept("example.com", 22, "AAAAB3Nz\n[evil]:22 ssh-rsa BBBB", "ssh-rsa");
    assert!(result.is_err(), "should reject key_data with newline");
}

#[test]
fn accept_rejects_whitespace_in_algorithm() {
    let mut store = temp_store();
    let result = store.accept("example.com", 22, "AAAA", "ssh rsa");
    assert!(result.is_err(), "should reject algorithm with space");
}

#[test]
fn accept_rejects_whitespace_in_host() {
    let mut store = temp_store();
    let result = store.accept("evil host", 22, "AAAA", "ssh-rsa");
    assert!(result.is_err(), "should reject host with space");
}

#[test]
fn accept_valid_entry_persists_correctly() {
    let mut store = temp_store();
    store
        .accept("example.com", 22, "AAAAB3NzaC1yc2EAAAA", "ssh-rsa")
        .expect("valid accept should succeed");

    let entries = store.load_entries();
    assert_eq!(entries.len(), 1);
    assert_eq!(entries[0].host, "[example.com]:22");
    assert_eq!(entries[0].algorithm, "ssh-rsa");
    assert_eq!(entries[0].key_data, "AAAAB3NzaC1yc2EAAAA");
}

#[test]
fn accept_replaces_existing_entry_for_same_host_algo() {
    let mut store = temp_store();
    store.accept("example.com", 22, "OLD_KEY", "ssh-rsa").unwrap();
    store.accept("example.com", 22, "NEW_KEY", "ssh-rsa").unwrap();

    let entries = store.load_entries();
    assert_eq!(entries.len(), 1);
    assert_eq!(entries[0].key_data, "NEW_KEY");
}

#[test]
fn injection_does_not_create_extra_entries() {
    let mut store = temp_store();
    store.accept("legit.host", 22, "LEGIT_KEY", "ssh-rsa").unwrap();

    let result = store.accept(
        "target.host",
        22,
        "AAAA",
        "ssh-rsa\n[evil.host]:22 ssh-ed25519 INJECTED",
    );
    assert!(result.is_err());

    let entries = store.load_entries();
    assert_eq!(entries.len(), 1);
    assert_eq!(entries[0].host, "[legit.host]:22");
}

// ── Further cases ──────────────────────────────────────────────────

#[test]
fn many_accepts_keep_every_entry() {
    let mut store = temp_store();
    for i in 0..10 {
        store
            .accept(&format!("host-{}.example.com", i), 22, &format!("KEY_{}", i), "ssh-rsa")
            .expect("accept should succeed");
    }
    let entries = store.load_entries();
    assert_eq!(entries.len(), 10, "all 10 entries should be present");
    assert_eq!(entries[3].host, "[host-3.example.com]:22");
    assert_eq!(entries[3].key_data, "KEY_3");
}

#[test]
fn file_text_is_one_line_per_entry() {
    let mut store = temp_store();
    store.accept("a.example", 2222, "KEYA", "ssh-ed25519").unwrap();
    store.accept("b.example", 22, "KEYB", "ssh-rsa").unwrap();
    assert_eq!(store.contents(), "[a.example]:2222 ssh-ed25519 KEYA\n[b.example]:22 ssh-rsa KEYB\n");
    assert_eq!(store.path(), "known_hosts");
}

#[test]
fn rejected_accept_leaves_file_unchanged() {
    let mut store = KnownHostsStore::from_contents("p".to_string(), "[h]:22 ssh-rsa K\n".to_string());
    assert_eq!(store.accept("h", 22, "NEW KEY", "ssh-rsa"), Err(KnownHostsError::InvalidInput));
    assert_eq!(store.contents(), "[h]:22 ssh-rsa K\n");
    assert_eq!(
        KnownHostsError::InvalidInput.message(),
        "host, key_data, and algorithm must not contain whitespace or newlines"
    );
}

#[test]
fn same_host_other_port_or_algorithm_is_a_new_entry() {
    let mut store = temp_store();
    store.accept("h", 22, "K1", "ssh-rsa").unwrap();
    store.accept("h", 2222, "K2", "ssh-rsa").unwrap();
    store.accept("h", 22, "K3", "ssh-ed25519").unwrap();
    assert_eq!(store.load_entries().len(), 3);
}

#[test]
fn check_key_known_unknown_changed() {
    let mut store = temp_store();
    store.accept("example.com", 22, "KEY", "ssh-ed25519").unwrap();
    assert!(matches!(
        store.check_key("example.com", 22, "ssh-ed25519", "KEY", "fp".to_string()),
        HostKeyStatus::Known
    ));
    match store.check_key("example.com", 22, "ssh-ed25519", "OTHER", "fp".to_string()) {
        HostKeyStatus::Changed { fingerprint, key_data } => {
            assert_eq!(fingerprint, "fp");
            assert_eq!(key_data, "OTHER");
        }
        other => panic!("expected Changed, got {:?}", other),
    }
    match store.check_key("example.com", 2222, "ssh-ed25519", "KEY", "fp2".to_string()) {
        HostKeyStatus::Unknown { fingerprint, key_data } => {
            assert_eq!(fingerprint, "fp2");
            assert_eq!(key_data, "KEY");
        }
        other => panic!("expected Unknown, got {:?}", other),
    }
    match store.check_key("example.com", 22, "ssh-rsa", "RSAKEY", "fp3".to_string()) {
        HostKeyStatus::Changed { fingerprint, key_data } => {
            assert_eq!(fingerprint, "fp3");
            assert_eq!(key_data, "RSAKEY");
        }
        other => panic!("a key of another algorithm for a stored host is a change, got {:?}", other),
    }
}

#[test]
fn parse_skips_malformed_lines() {
    let text = "[a]:22 ssh-rsa K1\n\nnot an entry at all\n  [b]:22\tssh-ed25519   K2  \r\n[c]:22 only-two\n[d]:1 x y";
    let entries = parse_known_hosts(text);
    assert_eq!(entries.len(), 3);
    assert_eq!(entries[0].host, "[a]:22");
    assert_eq!(entries[1].host, "[b]:22");
    assert_eq!(entries[1].algorithm, "ssh-ed25519");
    assert_eq!(entries[1].key_data, "K2");
    assert_eq!(entries[2].host, "[d]:1");
    assert_eq!(entries[2].key_data, "y");
}

#[test]
fn render_then_parse_round_trip() {
    let entries = vec![
        KnownHostEntry { host: "[x]:22".to_string(), algorithm: "ssh-rsa".to_string(), key_data: "AAA".to_string() },
        KnownHostEntry { host: "[y]:2022".to_string(), algorithm: "ssh-ed25519".to_string(), key_data: "BBB=".to_string() },
    ];
    let text = render_known_hosts(&entries);
    assert_eq!(text, "[x]:22 ssh-rsa AAA\n[y]:2022 ssh-ed25519 BBB=\n");
    let back = parse_known_hosts(&text);
    assert_eq!(back.len(), 2);
    assert_eq!(back[1].host, "[y]:2022");
    assert_eq!(back[1].key_data, "BBB=");
}

#[test]
fn format_host_brackets_and_port() {
    assert_eq!(format_host("example.com", 22), "[example.com]:22");
    assert_eq!(format_host("::1", 65535), "[::1]:65535");
    assert_eq!(format_host("h", 0), "[h]:0");
}

#[test]
fn empty_algorithm_is_accepted_but_not_read_back() {
    let mut store = temp_store();
    assert!(store.accept("h", 22, "KEY", "").is_ok());
    assert_eq!(store.load_entries().len(), 0);
}

#[test]
fn accept_with_empty_key_drops_only_that_entry() {
    let mut store = temp_store();
    store.accept("a", 22, "KA", "ssh-ed25519").unwrap();
    store.accept("b", 22, "KB", "ssh-ed25519").unwrap();
    store.accept("c", 22, "KC", "ssh-rsa").unwrap();
    store.accept("b", 22, "", "ssh-ed25519").unwrap();
    let hosts: Vec<String> = store.load_entries().iter().map(|e| e.host.clone()).collect();
    assert_eq!(hosts, vec!["[a]:22", "[c]:22"]);
    store.accept("d", 22, "KD", "").unwrap();
    assert_eq!(store.load_entries().len(), 2);
}

#[test]
fn accept_rejects_every_unicode_whitespace() {
    let mut store = temp_store();
    for bad in ["ssh rsa", "a\nb", "a\tb", "a\r", "a\u{00A0}b", "a\u{2028}b"] {
        assert!(store.accept("h", 22, "KEY", bad).is_err(), "{:?}", bad);
    }
    assert!(store.accept("[example.com]:22", 22, "KEY", "ssh-rsa").is_ok());
    assert!(store.accept("", 22, "KEY", "ssh-rsa").is_ok());
}
