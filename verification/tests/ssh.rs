use rxterm::ssh::captured_key_info;
use rxterm::ssh::channel_event_action;
use rxterm::ssh::choose_ssh_auth;
use rxterm::ssh::ChannelEvent;
use rxterm::ssh::ReaderAction;
use rxterm::ssh::SshAuth;

#[test]
fn short_fingerprint_takes_32_characters() {
    let key = "AAAAC3NzaC1lZDI1NTE5AAAAIOMqqnkVzrm0SdG6UOoqKLsabgH5C9okWi0dh2l9GKJl";
    let info = captured_key_info("ssh-ed25519".to_string(), key.to_string(), false);
    assert_eq!(info.fingerprint, format!("ssh-ed25519 {}", &key[..32]));
    assert_eq!(info.key_data, key);
    assert_eq!(info.algorithm, "ssh-ed25519");
    let short = captured_key_info("ssh-rsa".to_string(), "AAAA".to_string(), true);
    assert_eq!(short.fingerprint, "ssh-rsa AAAA");
    assert!(short.changed && !info.changed);
}

#[test]
fn channel_messages() {
    assert!(matches!(channel_event_action(ChannelEvent::Data(vec![1, 2])), ReaderAction::Output(d) if d == vec![1, 2]));
    assert!(matches!(channel_event_action(ChannelEvent::ExtendedData(vec![3], 1)), ReaderAction::Output(d) if d == vec![3]));
    assert!(matches!(channel_event_action(ChannelEvent::ExtendedData(vec![3], 2)), ReaderAction::Continue));
    assert!(matches!(channel_event_action(ChannelEvent::Eof), ReaderAction::Closed(r) if r == "Connection closed"));
    assert!(matches!(channel_event_action(ChannelEvent::Close), ReaderAction::Closed(r) if r == "Connection closed"));
    assert!(matches!(channel_event_action(ChannelEvent::ExitStatus(127)), ReaderAction::Closed(r) if r == "Exited with status 127"));
    assert!(matches!(channel_event_action(ChannelEvent::ExitStatus(0)), ReaderAction::Closed(r) if r == "Exited with status 0"));
    assert!(matches!(channel_event_action(ChannelEvent::Lost), ReaderAction::Closed(r) if r == "Connection lost"));
    assert!(matches!(channel_event_action(ChannelEvent::Other), ReaderAction::Continue));
}

#[test]
fn key_file_wins_over_password() {
    assert!(matches!(choose_ssh_auth(Some("pw".to_string()), Some("/k".to_string())), Some(SshAuth::PublicKey(p)) if p == "/k"));
    assert!(matches!(choose_ssh_auth(Some("pw".to_string()), None), Some(SshAuth::Password(p)) if p == "pw"));
    assert!(choose_ssh_auth(None, None).is_none());
}
