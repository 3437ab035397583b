use rxterm::known_hosts::key_algorithm;
use rxterm::known_hosts::key_to_base64;
use rxterm::known_hosts::HostKeyStatus;
use rxterm::known_hosts::KnownHostsStore;
use rxterm::known_hosts::PresentedKey;
use rxterm::ssh::review_server_key;

const ED25519: &str = "AAAAC3NzaC1lZDI1NTE5AAAAIOMqqnkVzrm0SdG6UOoqKLsabgH5C9okWi0dh2l9GKJl";

#[test]
fn key_helpers_read_the_key() {
    let key = russh_keys::parse_public_key_base64(ED25519).expect("parse key");
    assert_eq!(key_algorithm(&key), "ssh-ed25519");
    assert_eq!(key_to_base64(&key), ED25519);
    let presented = PresentedKey::from_public_key(&key);
    assert_eq!(presented.algorithm, "ssh-ed25519");
    assert_eq!(presented.key_data, ED25519);
    assert_eq!(presented.fingerprint, key.fingerprint());
    assert_eq!(presented.fingerprint.len(), 43);
    assert!(!presented.fingerprint.contains('='));
}

#[test]
fn check_then_accept_then_known() {
    let key = russh_keys::parse_public_key_base64(ED25519).expect("parse key");
    let presented = PresentedKey::from_public_key(&key);
    let mut store = KnownHostsStore::with_path("kh".to_string());
    match store.check("example.com", 22, &presented) {
        HostKeyStatus::Unknown { fingerprint, key_data } => {
            assert_eq!(key_data, ED25519);
            assert_eq!(fingerprint, key.fingerprint());
        }
        other => panic!("expected Unknown, got {:?}", other),
    }
    store.accept("example.com", 22, ED25519, "ssh-ed25519").unwrap();
    assert!(matches!(store.check("example.com", 22, &presented), HostKeyStatus::Known));
    store.accept("example.com", 22, "AAAA", "ssh-ed25519").unwrap();
    assert!(matches!(store.check("example.com", 22, &presented), HostKeyStatus::Changed { .. }));
}

#[test]
fn other_algorithm_for_a_stored_host_is_a_change() {
    let key = russh_keys::parse_public_key_base64(ED25519).expect("parse key");
    let presented = PresentedKey::from_public_key(&key);
    let mut store = KnownHostsStore::with_path("kh".to_string());
    store.accept("h", 22, "AAAAB3NzaC1yc2E", "ssh-rsa").unwrap();
    match store.check("h", 22, &presented) {
        HostKeyStatus::Changed { key_data, .. } => assert_eq!(key_data, ED25519),
        other => panic!("expected Changed, got {:?}", other),
    }
    assert!(matches!(store.check("h", 23, &presented), HostKeyStatus::Unknown { .. }));
}

#[test]
fn review_captures_unknown_keys() {
    let mut store = KnownHostsStore::with_path("kh".to_string());
    let info = review_server_key(&store, "h", 2222, "ssh-ed25519", ED25519).expect("unknown key is captured");
    assert_eq!(info.algorithm, "ssh-ed25519");
    assert_eq!(info.key_data, ED25519);
    assert_eq!(info.fingerprint, format!("ssh-ed25519 {}", &ED25519[..32]));
    assert!(!info.changed);
    store.accept("h", 2222, &info.key_data, &info.algorithm).unwrap();
    assert!(review_server_key(&store, "h", 2222, "ssh-ed25519", ED25519).is_none());
    let changed = review_server_key(&store, "h", 2222, "ssh-ed25519", "AAAA").expect("changed key is captured");
    assert!(changed.changed);
    assert_eq!(changed.key_data, "AAAA");
    assert_eq!(changed.fingerprint, "ssh-ed25519 AAAA");
    let other_algorithm = review_server_key(&store, "h", 2222, "ssh-rsa", "BBBB").expect("captured");
    assert!(other_algorithm.changed);
    assert!(!review_server_key(&store, "h", 22, "ssh-ed25519", ED25519).expect("captured").changed);
}
