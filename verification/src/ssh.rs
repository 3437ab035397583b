//! The pure parts of an SSH session: deciding on the server's host key,
//! and what the channel reader does with each channel message.
use vstd::prelude::*;
use crate::known_hosts::HostKeyStatus;
use crate::known_hosts::KnownHostsStore;
use crate::known_hosts::first_entry_for;
use crate::known_hosts::host_has_entry;
use crate::known_hosts::host_key_name;
use crate::known_hosts::is_base64_char;
use crate::known_hosts::is_ssh_key_algorithm;
use crate::known_hosts::parse_entries;
use crate::known_hosts::EntryText;
use crate::text::decimal;
use crate::text::decimal_chars;
use crate::text::extend_chars;
use crate::text::str_chars;
use crate::text::string_from_chars;
use crate::text::sub_chars;

verus! {

/// Host key information captured while connecting, for the user to
/// decide on.
#[derive(Debug, Clone)]
pub struct CapturedHostKeyInfo {
    pub fingerprint: String,
    pub key_data: String,
    pub algorithm: String,
    /// Whether the known hosts hold another key for this host and port
    /// (the stored key changed), rather than none.
    pub changed: bool,
}

/// The short fingerprint shown for a key: its algorithm, a space, and the
/// first 32 characters of its base64 data.
pub open spec fn short_fingerprint(algorithm: Seq<char>, key_data: Seq<char>) -> Seq<char> {
    algorithm + seq![' '] + key_data.take(if key_data.len() < 32 { key_data.len() as int } else { 32 })
}

/// Key data made of base64 characters only.
pub open spec fn is_base64_text(s: Seq<char>) -> bool {
    forall|i: int| 0 <= i < s.len() ==> #[trigger] is_base64_char(s[i])
}

/// The information captured for a key with this algorithm and data;
/// `changed` tells whether another key is stored for the host.
pub fn captured_key_info(algorithm: String, key_data: String, changed: bool) -> (info: CapturedHostKeyInfo)
    requires
        is_base64_text(key_data@),
    ensures
        info.fingerprint@ == short_fingerprint(algorithm@, key_data@),
        info.key_data@ == key_data@,
        info.algorithm@ == algorithm@,
        info.changed == changed,
{
    let chars = str_chars(key_data.as_str());
    let n: usize = if chars.len() < 32 { chars.len() } else { 32 };
    let head = sub_chars(&chars, 0, n);
    let mut text = str_chars(algorithm.as_str());
    text.push(' ');
    extend_chars(&mut text, head.as_slice());
    proof {
        assert(head@ =~= key_data@.take(n as int));
        assert(text@ =~= short_fingerprint(algorithm@, key_data@));
    }
    CapturedHostKeyInfo { fingerprint: string_from_chars(text.as_slice()), key_data, algorithm, changed }
}

/// The outcome of reviewing a server key with algorithm `algorithm` and
/// data `key_data` against entries `es` for stored host `name`: `None` (the
/// key is trusted) when the entry for the host and algorithm holds this
/// key; otherwise the fingerprint, key data and algorithm to show, and
/// whether a key is stored for the host (the stored key changed) or none
/// is (the host is unknown).
pub open spec fn server_key_outcome(
    es: Seq<EntryText>,
    name: Seq<char>,
    algorithm: Seq<char>,
    key_data: Seq<char>,
) -> Option<(Seq<char>, Seq<char>, Seq<char>, bool)> {
    match first_entry_for(es, name, algorithm) {
        Some(i) => if es[i].2 == key_data {
            None
        } else {
            Some((short_fingerprint(algorithm, key_data), key_data, algorithm, true))
        },
        None => Some((short_fingerprint(algorithm, key_data), key_data, algorithm, host_has_entry(es, name))),
    }
}

/// The view of captured key information.
pub open spec fn captured_view(o: Option<CapturedHostKeyInfo>) -> Option<(Seq<char>, Seq<char>, Seq<char>, bool)> {
    match o {
        Some(info) => Some((info.fingerprint@, info.key_data@, info.algorithm@, info.changed)),
        None => None,
    }
}

/// Decide on the key, with algorithm name `algorithm` and base64 data
/// `key_data`, that the server at `host` and `port` presents: `None` when
/// the known hosts hold it, otherwise the information to show the user
/// before refusing the connection, telling a changed key from an unknown
/// host.
pub fn review_server_key(store: &KnownHostsStore, host: &str, port: u16, algorithm: &str, key_data: &str) -> (r:
    Option<CapturedHostKeyInfo>)
    requires
        is_base64_text(key_data@),
    ensures
        captured_view(r) == server_key_outcome(
            parse_entries(store.text()),
            host_key_name(host@, port),
            algorithm@,
            key_data@,
        ),
{
    let status = store.check_key(host, port, algorithm, key_data, String::new());
    match status {
        HostKeyStatus::Known => None,
        HostKeyStatus::Unknown { .. } => Some(
            captured_key_info(String::from_str(algorithm), String::from_str(key_data), false),
        ),
        HostKeyStatus::Changed { .. } => Some(
            captured_key_info(String::from_str(algorithm), String::from_str(key_data), true),
        ),
    }
}

// ── Authentication ────────────────────────────────────────────────

/// How a connection authenticates.
#[derive(Debug)]
pub enum SshAuth {
    /// With the private key in this file.
    PublicKey(String),
    /// With this password.
    Password(String),
}

/// Choose how to authenticate: a key file wins over a password; with
/// neither there is no way to authenticate.
pub fn choose_ssh_auth(password: Option<String>, private_key_path: Option<String>) -> (r: Option<SshAuth>)
    ensures
        match private_key_path {
            Some(path) => r == Some(SshAuth::PublicKey(path)),
            None => match password {
                Some(pw) => r == Some(SshAuth::Password(pw)),
                None => r is None,
            },
        },
{
    match private_key_path {
        Some(path) => Some(SshAuth::PublicKey(path)),
        None => match password {
            Some(pw) => Some(SshAuth::Password(pw)),
            None => None,
        },
    }
}

// ── The channel reader ────────────────────────────────────────────

/// A message from the SSH channel, as the reader sees it.
#[derive(Debug)]
pub enum ChannelEvent {
    /// Output on the main stream.
    Data(Vec<u8>),
    /// Output on an extended stream (1 is standard error).
    ExtendedData(Vec<u8>, u32),
    Eof,
    Close,
    /// The remote command exited with this status.
    ExitStatus(u32),
    /// The channel is gone.
    Lost,
    /// Anything else.
    Other,
}

/// What the reader does with a channel message.
#[derive(Debug)]
pub enum ReaderAction {
    /// Forward these bytes to the terminal.
    Output(Vec<u8>),
    /// Report the session closed for this reason and stop reading.
    Closed(String),
    /// Keep reading.
    Continue,
}

/// The reason given when the remote command exits with `status`.
pub open spec fn exit_reason(status: u32) -> Seq<char> {
    "Exited with status "@ + decimal(status as nat)
}

/// Decide what to do with a channel message: output on the main stream or
/// on standard error is forwarded; end of file, close, exit and loss of
/// the channel end the session with a reason; anything else is ignored.
pub fn channel_event_action(event: ChannelEvent) -> (a: ReaderAction)
    ensures
        match event {
            ChannelEvent::Data(d) => a == ReaderAction::Output(d),
            ChannelEvent::ExtendedData(d, ext) => if ext == 1 {
                a == ReaderAction::Output(d)
            } else {
                a is Continue
            },
            ChannelEvent::Eof | ChannelEvent::Close => a matches ReaderAction::Closed(reason)
                && reason@ == "Connection closed"@,
            ChannelEvent::ExitStatus(s) => a matches ReaderAction::Closed(reason) && reason@
                == exit_reason(s),
            ChannelEvent::Lost => a matches ReaderAction::Closed(reason) && reason@
                == "Connection lost"@,
            ChannelEvent::Other => a is Continue,
        },
{
    match event {
        ChannelEvent::Data(d) => ReaderAction::Output(d),
        ChannelEvent::ExtendedData(d, ext) => {
            if ext == 1 {
                ReaderAction::Output(d)
            } else {
                ReaderAction::Continue
            }
        },
        ChannelEvent::Eof | ChannelEvent::Close => ReaderAction::Closed(
            String::from_str("Connection closed"),
        ),
        ChannelEvent::ExitStatus(status) => {
            let mut text = str_chars("Exited with status ");
            let digits = decimal_chars(status);
            extend_chars(&mut text, digits.as_slice());
            ReaderAction::Closed(string_from_chars(text.as_slice()))
        },
        ChannelEvent::Lost => ReaderAction::Closed(String::from_str("Connection lost")),
        ChannelEvent::Other => ReaderAction::Continue,
    }
}

} // verus!

verus! {

proof fn lemma_algorithm_name_clean(a: Seq<char>)
    requires
        is_ssh_key_algorithm(a),
    ensures
        a.len() > 0,
        !crate::known_hosts::has_white_space(a),
{
    reveal_strlit("ssh-ed25519");
    reveal_strlit("rsa-sha2-256");
    reveal_strlit("rsa-sha2-512");
    reveal_strlit("ssh-rsa");
    reveal_strlit("ecdsa-sha2-nistp256");
    reveal_strlit("ecdsa-sha2-nistp384");
    reveal_strlit("ecdsa-sha2-nistp521");
    if crate::known_hosts::has_white_space(a) {
        let i = choose|i: int| 0 <= i < a.len() && #[trigger] crate::text::is_white_space(a[i]);
        assert(crate::text::is_white_space(a[i]));
    }
}

proof fn lemma_base64_clean(k: Seq<char>)
    requires
        is_base64_text(k),
    ensures
        !crate::known_hosts::has_white_space(k),
{
    if crate::known_hosts::has_white_space(k) {
        let i = choose|i: int| 0 <= i < k.len() && #[trigger] crate::text::is_white_space(k[i]);
        assert(is_base64_char(k[i]));
    }
}

/// Once the user accepts a captured key for a host and port, the next
/// review of that key for the same host and port trusts it.
pub proof fn law_accepted_key_is_trusted(
    text: Seq<char>,
    host: Seq<char>,
    port: u16,
    algorithm: Seq<char>,
    key_data: Seq<char>,
)
    requires
        !crate::known_hosts::has_white_space(host),
        is_ssh_key_algorithm(algorithm),
        key_data.len() > 0,
        is_base64_text(key_data),
    ensures
        server_key_outcome(
            parse_entries(
                crate::known_hosts::render_entries(
                    crate::known_hosts::accept_entries(
                        parse_entries(text),
                        host_key_name(host, port),
                        algorithm,
                        key_data,
                    ),
                ),
            ),
            host_key_name(host, port),
            algorithm,
            key_data,
        ) is None,
{
    lemma_algorithm_name_clean(algorithm);
    lemma_base64_clean(key_data);
    crate::known_hosts::law_accept_then_check(text, host, port, algorithm, key_data);
}

} // verus!
