//! Saved session records and their validation.
use vstd::prelude::*;
use crate::ip::is_ip_chars;
use crate::ip::is_ip_text;
use crate::text::char_is_alphanumeric;
use crate::text::is_alnum_char;
use crate::text::is_ascii_alphanumeric;
use crate::text::is_white_space;
use crate::text::str_chars;
use vstd::utf8::encode_utf8;

verus! {

/// Connection protocol of a session.
#[derive(Debug, Clone, Copy, PartialEq, Eq, Structural)]
pub enum Protocol {
    /// SSH terminal session.
    Ssh,
    /// RDP remote desktop session.
    Rdp,
    /// VNC remote desktop session.
    Vnc,
}

impl Default for Protocol {
    /// Sessions without a protocol are SSH sessions.
    fn default() -> (p: Self)
        ensures
            p == Protocol::Ssh,
    {
        Protocol::Ssh
    }
}

/// Authentication method of an SSH session.
#[derive(Debug, Clone, Copy, PartialEq, Eq, Structural)]
pub enum AuthMethod {
    /// Authenticate with a password.
    Password,
    /// Authenticate with a private key file.
    Key,
}

/// Every user-configurable field of one saved session.
///
/// The SSH-specific fields (`username`, `auth_method`, `private_key_path`)
/// are present for every protocol and ignored where they do not apply.
/// The password is held in memory only; it is never written to disk.
#[derive(Debug, Clone)]
pub struct SshSession {
    /// Unique identifier (UUID v4).
    pub id: String,
    /// Human-readable label.
    pub label: String,
    /// Connection protocol.
    pub protocol: Protocol,
    /// Remote host name or IP address.
    pub host: String,
    /// Port (22 for SSH, 3389 for RDP, 5900 for VNC by convention).
    pub port: u16,
    /// User name (SSH and RDP).
    pub username: String,
    /// Authentication method (SSH only).
    pub auth_method: AuthMethod,
    /// Password, accepted from the frontend, never persisted.
    pub password: Option<String>,
    /// Path to the private key file (SSH key authentication only).
    pub private_key_path: Option<String>,
    /// Free-form notes.
    pub notes: Option<String>,
    /// Windows domain (RDP only).
    pub domain: Option<String>,
}

/// Why a session record was refused.
#[derive(Debug, Clone, Copy, PartialEq, Eq, Structural)]
pub enum ValidationError {
    EmptyId,
    EmptyHost,
    InvalidHost,
    InvalidPort,
    PathTraversal,
}

impl ValidationError {
    /// The text shown for this error.
    pub open spec fn spec_message(self) -> Seq<char> {
        match self {
            ValidationError::EmptyId => "Session ID must not be empty"@,
            ValidationError::EmptyHost => "Host must not be empty"@,
            ValidationError::InvalidHost => "Host contains invalid characters"@,
            ValidationError::InvalidPort => "Port must be between 1 and 65535"@,
            ValidationError::PathTraversal => "Private key path contains path traversal"@,
        }
    }

    /// The text shown for this error.
    pub fn message(&self) -> (s: String)
        ensures
            s@ == self.spec_message(),
    {
        match self {
            ValidationError::EmptyId => String::from_str("Session ID must not be empty"),
            ValidationError::EmptyHost => String::from_str("Host must not be empty"),
            ValidationError::InvalidHost => String::from_str("Host contains invalid characters"),
            ValidationError::InvalidPort => String::from_str("Port must be between 1 and 65535"),
            ValidationError::PathTraversal => String::from_str(
                "Private key path contains path traversal",
            ),
        }
    }
}

/// A character allowed in a host name: alphanumeric, '.', '-' or '_'.
pub open spec fn is_host_name_char(c: char) -> bool {
    is_alnum_char(c) || c == '.' || c == '-' || c == '_'
}

/// A reasonable host: non-empty, at most 253 bytes of UTF-8, and either the
/// text of an IP address or made only of host-name characters.
pub open spec fn valid_host_text(s: Seq<char>) -> bool {
    &&& s.len() > 0
    &&& encode_utf8(s).len() <= 253
    &&& (is_ip_text(s) || forall|i: int| 0 <= i < s.len() ==> #[trigger] is_host_name_char(s[i]))
}

fn all_host_name_chars(v: &Vec<char>) -> (b: bool)
    ensures
        b == forall|i: int| 0 <= i < v@.len() ==> #[trigger] is_host_name_char(v@[i]),
{
    let mut i: usize = 0;
    while i < v.len()
        invariant
            i <= v.len(),
            forall|j: int| 0 <= j < i ==> #[trigger] is_host_name_char(v@[j]),
        decreases v.len() - i,
    {
        let c = v[i];
        let alnum = char_is_alphanumeric(c);
        assert(alnum == is_alnum_char(c));
        if !(alnum || c == '.' || c == '-' || c == '_') {
            assert(!is_host_name_char(v@[i as int]));
            return false;
        }
        i = i + 1;
    }
    true
}

/// Whether `host` is a reasonable IP address or host name.
///
/// Used for every protocol before connecting.
pub fn is_valid_host(host: &str) -> (b: bool)
    ensures
        b == valid_host_text(host@),
{
    let chars = str_chars(host);
    let bytes = host.as_bytes();
    if chars.len() == 0 || bytes.len() > 253 {
        return false;
    }
    if is_ip_chars(&chars) {
        return true;
    }
    all_host_name_chars(&chars)
}

/// Whether `s` contains "..".
pub open spec fn has_dot_dot(s: Seq<char>) -> bool {
    exists|i: int| 0 <= i && i + 1 < s.len() && s[i] == '.' && #[trigger] s[i + 1] == '.'
}

fn contains_dot_dot(s: &String) -> (b: bool)
    ensures
        b == has_dot_dot(s@),
{
    let v = str_chars(s.as_str());
    if v.len() < 2 {
        return false;
    }
    let mut i: usize = 0;
    while i < v.len() - 1
        invariant
            v@ == s@,
            v.len() >= 2,
            i <= v.len() - 1,
            forall|j: int| 0 <= j < i ==> !(v@[j] == '.' && #[trigger] v@[j + 1] == '.'),
        decreases v.len() - 1 - i,
    {
        if v[i] == '.' && v[i + 1] == '.' {
            assert(v@[i as int] == '.' && v@[i + 1] == '.');
            return true;
        }
        i = i + 1;
    }
    false
}

/// The first rule that a session with these fields breaks, in the order
/// id, host, port, host syntax, key path; `None` when it breaks none.
pub open spec fn session_fault(
    id: Seq<char>,
    host: Seq<char>,
    port: u16,
    key_path: Option<Seq<char>>,
) -> Option<ValidationError> {
    if id.len() == 0 {
        Some(ValidationError::EmptyId)
    } else if host.len() == 0 {
        Some(ValidationError::EmptyHost)
    } else if port == 0 {
        Some(ValidationError::InvalidPort)
    } else if !valid_host_text(host) {
        Some(ValidationError::InvalidHost)
    } else if key_path matches Some(p) && has_dot_dot(p) {
        Some(ValidationError::PathTraversal)
    } else {
        None
    }
}

/// The view of an optional string.
pub open spec fn opt_view(o: Option<String>) -> Option<Seq<char>> {
    match o {
        Some(s) => Some(s@),
        None => None,
    }
}

/// The rule that `s` breaks first, if any.
pub open spec fn spec_session_fault(s: SshSession) -> Option<ValidationError> {
    session_fault(s.id@, s.host@, s.port, opt_view(s.private_key_path))
}

/// Whether the fields of `session` have reasonable values.
pub fn validate_session(session: &SshSession) -> (r: Result<(), ValidationError>)
    ensures
        match spec_session_fault(*session) {
            None => r is Ok,
            Some(e) => r == Err::<(), ValidationError>(e),
        },
{
    if session.id.as_str().is_empty() {
        return Err(ValidationError::EmptyId);
    }
    if session.host.as_str().is_empty() {
        return Err(ValidationError::EmptyHost);
    }
    if session.port == 0 {
        return Err(ValidationError::InvalidPort);
    }
    if !is_valid_host(session.host.as_str()) {
        return Err(ValidationError::InvalidHost);
    }
    if let Some(path) = &session.private_key_path {
        if contains_dot_dot(path) {
            return Err(ValidationError::PathTraversal);
        }
    }
    Ok(())
}

} // verus!

verus! {

/// Every character of a valid host is a host-name character
/// (alphanumeric, '.', '-' or '_') or a character of IP address text
/// (a hexadecimal digit, '.' or ':').
pub proof fn law_valid_host_chars(s: Seq<char>)
    requires
        valid_host_text(s),
    ensures
        forall|i: int| 0 <= i < s.len() ==> is_host_name_char(#[trigger] s[i]) || crate::ip::is_ip_char(s[i]),
{
    if is_ip_text(s) {
        crate::ip::law_ip_text_chars(s);
    }
}

/// A valid host holds no whitespace, and its only ASCII characters are
/// letters, digits, '.', '-', '_' and ':' (so no shell metacharacter such
/// as ';', '$', '/', '(', '`', '|' or '&').
pub proof fn law_valid_host_is_inert(s: Seq<char>)
    requires
        valid_host_text(s),
    ensures
        forall|i: int| 0 <= i < s.len() ==> !is_white_space(#[trigger] s[i]),
        forall|i: int|
            0 <= i < s.len() && (#[trigger] s[i] as u32) < 0x80 ==> is_ascii_alphanumeric(s[i]) || s[i] == '.'
                || s[i] == '-' || s[i] == '_' || s[i] == ':',
{
    law_valid_host_chars(s);
    assert forall|i: int| 0 <= i < s.len() implies !is_white_space(#[trigger] s[i]) && ((s[i] as u32) < 0x80
        ==> is_ascii_alphanumeric(s[i]) || s[i] == '.' || s[i] == '-' || s[i] == '_' || s[i] == ':') by {
        let c = s[i];
        assert(is_host_name_char(c) || crate::ip::is_ip_char(c));
    }
}


proof fn lemma_ascii_utf8_len(s: Seq<char>)
    requires
        forall|i: int| 0 <= i < s.len() ==> (#[trigger] s[i] as u32) < 0x80,
    ensures
        encode_utf8(s).len() == s.len(),
    decreases s.len(),
{
    if s.len() > 0 {
        let rest = s.drop_first();
        assert forall|i: int| 0 <= i < rest.len() implies (#[trigger] rest[i] as u32) < 0x80 by {
            assert(rest[i] == s[i + 1]);
        }
        lemma_ascii_utf8_len(rest);
        assert((s[0] as u32) < 0x80);
    }
}

/// Every host name of one to 253 characters, each an ASCII letter, digit,
/// '.', '-' or '_', is a valid host.
pub proof fn law_ascii_host_names_are_valid(s: Seq<char>)
    requires
        1 <= s.len() <= 253,
        forall|i: int|
            0 <= i < s.len() ==> is_ascii_alphanumeric(#[trigger] s[i]) || s[i] == '.' || s[i] == '-' || s[i] == '_',
    ensures
        valid_host_text(s),
{
    assert forall|i: int| 0 <= i < s.len() implies (#[trigger] s[i] as u32) < 0x80 by {
        assert(is_ascii_alphanumeric(s[i]) || s[i] == '.' || s[i] == '-' || s[i] == '_');
    }
    lemma_ascii_utf8_len(s);
    assert forall|i: int| 0 <= i < s.len() implies #[trigger] is_host_name_char(s[i]) by {
        assert((s[i] as u32) < 0x80);
    }
}

/// IP address text of at most 253 characters is a valid host.
pub proof fn law_ip_text_is_valid_host(s: Seq<char>)
    requires
        is_ip_text(s),
        s.len() <= 253,
    ensures
        valid_host_text(s),
{
    crate::ip::law_ip_text_chars(s);
    assert forall|i: int| 0 <= i < s.len() implies (#[trigger] s[i] as u32) < 0x80 by {
        assert(crate::ip::is_ip_char(s[i]));
    }
    lemma_ascii_utf8_len(s);
    if s.len() == 0 {
        assert(crate::text::spec_split(s, '.').len() == 1);
        assert(crate::text::spec_split(s, ':') =~= seq![s]);
        assert(!crate::ip::has_double_colon(s));
        assert(!crate::ip::is_hex_group(s));
        assert(!crate::ip::is_ipv4_text(s));
    }
}


/// A session passes validation exactly when its id is not empty, its host
/// is a valid host, its port is not 0 and its key path (if any) has no
/// "..". A refused session is refused for the first of these in the order
/// id, host presence, port, host syntax, key path.
pub proof fn law_validation_rules(s: SshSession)
    ensures
        spec_session_fault(s) is None <==> (s.id@.len() > 0 && valid_host_text(s.host@) && s.port != 0 && (
        s.private_key_path matches Some(p) ==> !(exists|i: int|
            0 <= i && i + 1 < p@.len() && p@[i] == '.' && #[trigger] p@[i + 1] == '.'))),
        s.id@.len() == 0 ==> spec_session_fault(s) == Some(ValidationError::EmptyId),
        s.id@.len() > 0 && s.host@.len() == 0 ==> spec_session_fault(s) == Some(ValidationError::EmptyHost),
        s.id@.len() > 0 && s.host@.len() > 0 && s.port == 0 ==> spec_session_fault(s) == Some(
            ValidationError::InvalidPort,
        ),
        s.id@.len() > 0 && s.port != 0 && s.host@.len() > 0 && !valid_host_text(s.host@) ==> spec_session_fault(s)
            == Some(ValidationError::InvalidHost),
        s.id@.len() > 0 && s.port != 0 && valid_host_text(s.host@) && s.private_key_path is Some && (exists|i: int|
            0 <= i && i + 1 < s.private_key_path->0@.len() && s.private_key_path->0@[i] == '.'
                && #[trigger] s.private_key_path->0@[i + 1] == '.') ==> spec_session_fault(s) == Some(
            ValidationError::PathTraversal,
        ),
{
}

} // verus!
