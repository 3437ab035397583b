//! The known-hosts store: accepted SSH host keys, one per line of a text
//! file in the form `[host]:port algorithm base64-key`.
use vstd::prelude::*;
use crate::text::char_is_whitespace;
use crate::text::decimal;
use crate::text::decimal_chars;
use crate::text::extend_chars;
use crate::text::is_white_space;
use crate::text::seqs_of;
use crate::text::spec_split;
use crate::text::lemma_split_no_sep;
use crate::text::split_on;
use crate::text::str_chars;
use crate::text::string_from_chars;
use russh_keys::key::PublicKey;
use russh_keys::PublicKeyBase64;

verus! {

/// The text of one entry: host, algorithm and key data.
pub type EntryText = (Seq<char>, Seq<char>, Seq<char>);

/// One accepted host key.
#[derive(Debug, Clone)]
pub struct KnownHostEntry {
    /// `[host]:port`.
    pub host: String,
    /// SSH algorithm name, such as `ssh-ed25519`.
    pub algorithm: String,
    /// Base64 key blob.
    pub key_data: String,
}

impl View for KnownHostEntry {
    type V = EntryText;

    open spec fn view(&self) -> EntryText {
        (self.host@, self.algorithm@, self.key_data@)
    }
}

/// The views of a sequence of entries.
pub open spec fn entry_texts(v: Seq<KnownHostEntry>) -> Seq<EntryText> {
    Seq::new(v.len(), |i: int| v[i]@)
}

// ── Public keys ───────────────────────────────────────────────────

#[verifier::external_type_specification]
#[verifier::external_body]
pub struct ExPublicKey(russh_keys::key::PublicKey);

/// The SSH algorithm names that a public key can carry.
pub open spec fn is_ssh_key_algorithm(s: Seq<char>) -> bool {
    ||| s == "ssh-ed25519"@
    ||| s == "rsa-sha2-256"@
    ||| s == "rsa-sha2-512"@
    ||| s == "ssh-rsa"@
    ||| s == "ecdsa-sha2-nistp256"@
    ||| s == "ecdsa-sha2-nistp384"@
    ||| s == "ecdsa-sha2-nistp521"@
}

/// A character of the standard base64 alphabet, or the padding '='.
pub open spec fn is_base64_char(c: char) -> bool {
    ||| ('A' <= c && c <= 'Z')
    ||| ('a' <= c && c <= 'z')
    ||| ('0' <= c && c <= '9')
    ||| c == '+'
    ||| c == '/'
    ||| c == '='
}

/// Extract the algorithm name from a public key.
///
/// Calls `russh_keys::key::PublicKey::name`, which returns one of the
/// fixed names of the key types it supports. Which name a given key
/// yields is left unsaid, as the key is opaque here.
#[verifier::external_body]
pub fn key_algorithm(key: &PublicKey) -> (s: String)
    ensures
        is_ssh_key_algorithm(s@),
{
    key.name().to_string()
}

/// Encode a public key to base64 for transport and storage.
///
/// Calls `russh_keys::PublicKeyBase64::public_key_base64`, which encodes
/// the (non-empty) key blob in base64 and removes the MIME line breaks, so
/// the text is non-empty and made of base64 characters only. Which text a
/// given key yields is left unsaid, as the key is opaque here.
#[verifier::external_body]
pub fn key_to_base64(key: &PublicKey) -> (s: String)
    ensures
        s@.len() > 0,
        forall|i: int| 0 <= i < s@.len() ==> #[trigger] is_base64_char(s@[i]),
{
    key.public_key_base64()
}

/// The fingerprint of a public key.
///
/// Calls `russh_keys::key::PublicKey::fingerprint`, which encodes the
/// 32-byte SHA-256 digest of the key blob in base64 without padding: 43
/// characters of the base64 alphabet. Which text a given key yields is
/// left unsaid, as the key is opaque here.
#[verifier::external_body]
fn key_fingerprint(key: &PublicKey) -> (s: String)
    ensures
        s@.len() == 43,
        forall|i: int| 0 <= i < s@.len() ==> #[trigger] is_base64_char(s@[i]) && s@[i] != '=',
{
    key.fingerprint()
}

/// A server's public key as the host-key logic reads it: its algorithm
/// name, its base64 key blob and its fingerprint.
#[derive(Debug, Clone)]
pub struct PresentedKey {
    pub algorithm: String,
    pub key_data: String,
    pub fingerprint: String,
}

/// Whether the fields of a presented key have the shape that a public
/// key gives them.
pub open spec fn presented_key_shape(k: PresentedKey) -> bool {
    &&& is_ssh_key_algorithm(k.algorithm@)
    &&& k.key_data@.len() > 0
    &&& forall|i: int| 0 <= i < k.key_data@.len() ==> #[trigger] is_base64_char(k.key_data@[i])
    &&& k.fingerprint@.len() == 43
}

impl PresentedKey {
    /// Read the algorithm name, base64 key blob and fingerprint of `key`.
    pub fn from_public_key(key: &PublicKey) -> (k: Self)
        ensures
            presented_key_shape(k),
    {
        PresentedKey { algorithm: key_algorithm(key), key_data: key_to_base64(key), fingerprint: key_fingerprint(key) }
    }
}

// ── Tokens and lines ──────────────────────────────────────────────

/// One step of splitting text into whitespace-separated words: the words
/// finished so far and the word being read.
pub open spec fn word_step(acc: (Seq<Seq<char>>, Seq<char>), c: char) -> (Seq<Seq<char>>, Seq<char>) {
    if is_white_space(c) {
        if acc.1.len() > 0 {
            (acc.0.push(acc.1), Seq::empty())
        } else {
            (acc.0, Seq::empty())
        }
    } else {
        (acc.0, acc.1.push(c))
    }
}

pub open spec fn word_scan(s: Seq<char>) -> (Seq<Seq<char>>, Seq<char>)
    decreases s.len(),
{
    if s.len() == 0 {
        (Seq::empty(), Seq::empty())
    } else {
        word_step(word_scan(s.drop_last()), s.last())
    }
}

/// The maximal runs of non-whitespace characters of `s`, in order (what
/// `str::split_whitespace` yields).
pub open spec fn words(s: Seq<char>) -> Seq<Seq<char>> {
    let acc = word_scan(s);
    if acc.1.len() > 0 {
        acc.0.push(acc.1)
    } else {
        acc.0
    }
}

/// The entries read from the lines of a file: a line gives an entry when
/// it holds exactly three words; other lines are skipped.
pub open spec fn entries_of_lines(lines: Seq<Seq<char>>) -> Seq<EntryText>
    decreases lines.len(),
{
    if lines.len() == 0 {
        Seq::empty()
    } else {
        let rest = entries_of_lines(lines.drop_last());
        let w = words(lines.last());
        if w.len() == 3 {
            rest.push((w[0], w[1], w[2]))
        } else {
            rest
        }
    }
}

/// The entries that a known-hosts file with text `text` holds.
pub open spec fn parse_entries(text: Seq<char>) -> Seq<EntryText> {
    entries_of_lines(spec_split(text, '\n'))
}

/// The line written for one entry: the three fields separated by single
/// spaces, then a newline.
pub open spec fn entry_line(e: EntryText) -> Seq<char> {
    e.0 + seq![' '] + e.1 + seq![' '] + e.2 + seq!['\n']
}

/// The text of a known-hosts file holding `es`.
pub open spec fn render_entries(es: Seq<EntryText>) -> Seq<char>
    decreases es.len(),
{
    if es.len() == 0 {
        Seq::empty()
    } else {
        render_entries(es.drop_last()) + entry_line(es.last())
    }
}

/// `[host]:port`, the form in which a host is stored.
pub open spec fn host_key_name(host: Seq<char>, port: u16) -> Seq<char> {
    seq!['['] + host + seq![']', ':'] + decimal(port as nat)
}

fn words_of(line: &Vec<char>) -> (res: Vec<Vec<char>>)
    ensures
        seqs_of(res@) == words(line@),
{
    let mut done: Vec<Vec<char>> = Vec::new();
    let mut cur: Vec<char> = Vec::new();
    let mut i: usize = 0;
    proof {
        assert(line@.take(0) =~= Seq::<char>::empty());
        assert(seqs_of(done@) =~= Seq::<Seq<char>>::empty());
    }
    while i < line.len()
        invariant
            i <= line.len(),
            (seqs_of(done@), cur@) == word_scan(line@.take(i as int)),
        decreases line.len() - i,
    {
        let c = line[i];
        proof {
            assert(line@.take(i as int + 1).drop_last() =~= line@.take(i as int));
        }
        if char_is_whitespace(c) {
            if cur.len() > 0 {
                let ghost old_done = done@;
                let w = cur;
                done.push(w);
                cur = Vec::new();
                proof {
                    assert(seqs_of(done@) =~= seqs_of(old_done).push(w@));
                    assert(cur@ =~= Seq::<char>::empty());
                }
            } else {
                cur = Vec::new();
                assert(cur@ =~= Seq::<char>::empty());
            }
        } else {
            cur.push(c);
        }
        i = i + 1;
    }
    proof {
        assert(line@.take(line@.len() as int) =~= line@);
    }
    if cur.len() > 0 {
        let ghost old_done = done@;
        let w = cur;
        done.push(w);
        proof {
            assert(seqs_of(done@) =~= seqs_of(old_done).push(w@));
        }
    }
    done
}

/// The entries of a known-hosts file with text `text`.
pub fn parse_known_hosts(text: &str) -> (res: Vec<KnownHostEntry>)
    ensures
        entry_texts(res@) == parse_entries(text@),
{
    let chars = str_chars(text);
    let lines = split_on(&chars, '\n');
    let mut res: Vec<KnownHostEntry> = Vec::new();
    let mut i: usize = 0;
    proof {
        assert(seqs_of(lines@).take(0) =~= Seq::<Seq<char>>::empty());
        assert(entry_texts(res@) =~= Seq::<EntryText>::empty());
    }
    while i < lines.len()
        invariant
            i <= lines.len(),
            seqs_of(lines@) == spec_split(text@, '\n'),
            entry_texts(res@) == entries_of_lines(seqs_of(lines@).take(i as int)),
        decreases lines.len() - i,
    {
        let w = words_of(&lines[i]);
        proof {
            assert(seqs_of(lines@).take(i as int + 1).drop_last() =~= seqs_of(lines@).take(i as int));
            assert(seqs_of(lines@).take(i as int + 1).last() == lines@[i as int]@);
        }
        if w.len() == 3 {
            let ghost old_res = res@;
            let entry = KnownHostEntry {
                host: string_from_chars(w[0].as_slice()),
                algorithm: string_from_chars(w[1].as_slice()),
                key_data: string_from_chars(w[2].as_slice()),
            };
            proof {
                assert(seqs_of(w@)[0] == w@[0]@);
                assert(seqs_of(w@)[1] == w@[1]@);
                assert(seqs_of(w@)[2] == w@[2]@);
            }
            res.push(entry);
            proof {
                assert(entry_texts(res@) =~= entry_texts(old_res).push(entry@));
            }
        }
        i = i + 1;
    }
    proof {
        assert(seqs_of(lines@).take(lines@.len() as int) =~= seqs_of(lines@));
    }
    res
}

/// The text of a known-hosts file holding `entries`.
pub fn render_known_hosts(entries: &Vec<KnownHostEntry>) -> (text: String)
    ensures
        text@ == render_entries(entry_texts(entries@)),
{
    let mut out: Vec<char> = Vec::new();
    let mut i: usize = 0;
    proof {
        assert(entry_texts(entries@).take(0) =~= Seq::<EntryText>::empty());
    }
    while i < entries.len()
        invariant
            i <= entries.len(),
            out@ == render_entries(entry_texts(entries@).take(i as int)),
        decreases entries.len() - i,
    {
        let e = &entries[i];
        let ghost before = out@;
        extend_chars(&mut out, str_chars(e.host.as_str()).as_slice());
        out.push(' ');
        extend_chars(&mut out, str_chars(e.algorithm.as_str()).as_slice());
        out.push(' ');
        extend_chars(&mut out, str_chars(e.key_data.as_str()).as_slice());
        out.push('\n');
        proof {
            let es = entry_texts(entries@).take(i as int + 1);
            assert(es.drop_last() =~= entry_texts(entries@).take(i as int));
            assert(es.last() == e@);
            assert(out@ =~= before + entry_line(e@));
        }
        i = i + 1;
    }
    proof {
        assert(entry_texts(entries@).take(entries@.len() as int) =~= entry_texts(entries@));
    }
    string_from_chars(out.as_slice())
}

/// `[host]:port`.
pub fn format_host(host: &str, port: u16) -> (s: String)
    ensures
        s@ == host_key_name(host@, port),
{
    let mut out: Vec<char> = Vec::new();
    out.push('[');
    extend_chars(&mut out, str_chars(host).as_slice());
    out.push(']');
    out.push(':');
    let digits = decimal_chars(port as u32);
    extend_chars(&mut out, digits.as_slice());
    assert(out@ =~= host_key_name(host@, port));
    string_from_chars(out.as_slice())
}


// ── Lookup and update ─────────────────────────────────────────────

/// Whether entry `e` is the one for stored host `name` and `algorithm`.
pub open spec fn entry_for(e: EntryText, name: Seq<char>, algorithm: Seq<char>) -> bool {
    e.0 == name && e.1 == algorithm
}

/// The index of the first entry for `name` and `algorithm`.
pub open spec fn first_entry_for(es: Seq<EntryText>, name: Seq<char>, algorithm: Seq<char>) -> Option<int>
    decreases es.len(),
{
    if es.len() == 0 {
        None
    } else {
        match first_entry_for(es.drop_last(), name, algorithm) {
            Some(i) => Some(i),
            None => if entry_for(es.last(), name, algorithm) {
                Some(es.len() - 1)
            } else {
                None
            },
        }
    }
}

/// The entries after accepting key `key` for `name` and `algorithm`: the
/// first entry for them gets the new key, or a new entry is appended.
pub open spec fn accept_entries(
    es: Seq<EntryText>,
    name: Seq<char>,
    algorithm: Seq<char>,
    key: Seq<char>,
) -> Seq<EntryText> {
    match first_entry_for(es, name, algorithm) {
        Some(i) => es.update(i, (name, algorithm, key)),
        None => es.push((name, algorithm, key)),
    }
}

/// Result of checking a host key against the known hosts.
#[derive(Debug)]
pub enum HostKeyStatus {
    /// The key matches the accepted entry.
    Known,
    /// No entry exists for this host and port.
    Unknown { fingerprint: String, key_data: String },
    /// An entry exists for this host and port, but the key has changed: it
    /// holds another key of the same algorithm, or only keys of other
    /// algorithms (a possible man in the middle).
    Changed { fingerprint: String, key_data: String },
}

/// Whether `r` is what checking key `key` (with fingerprint `fp`) against
/// entries `es` for stored host `name` and `algorithm` must give.
pub open spec fn is_check_result(
    r: HostKeyStatus,
    es: Seq<EntryText>,
    name: Seq<char>,
    algorithm: Seq<char>,
    key: Seq<char>,
    fp: Seq<char>,
) -> bool {
    match first_entry_for(es, name, algorithm) {
        Some(i) => if es[i].2 == key {
            r is Known
        } else {
            r matches HostKeyStatus::Changed { fingerprint, key_data } && fingerprint@ == fp
                && key_data@ == key
        },
        None => if host_has_entry(es, name) {
            r matches HostKeyStatus::Changed { fingerprint, key_data } && fingerprint@ == fp
                && key_data@ == key
        } else {
            r matches HostKeyStatus::Unknown { fingerprint, key_data } && fingerprint@ == fp
                && key_data@ == key
        },
    }
}

/// Whether some entry is for stored host `name`, whatever its algorithm.
pub open spec fn host_has_entry(es: Seq<EntryText>, name: Seq<char>) -> bool {
    exists|i: int| 0 <= i < es.len() && (#[trigger] es[i]).0 == name
}

fn has_host_entry(entries: &Vec<KnownHostEntry>, name: &String) -> (b: bool)
    ensures
        b == host_has_entry(entry_texts(entries@), name@),
{
    let mut i: usize = 0;
    while i < entries.len()
        invariant
            i <= entries.len(),
            forall|j: int| 0 <= j < i ==> (#[trigger] entry_texts(entries@)[j]).0 != name@,
        decreases entries.len() - i,
    {
        if entries[i].host == *name {
            assert(entry_texts(entries@)[i as int].0 == name@);
            return true;
        }
        i = i + 1;
    }
    false
}

fn find_entry(entries: &Vec<KnownHostEntry>, name: &String, algorithm: &String) -> (r: Option<usize>)
    ensures
        match r {
            Some(i) => i < entries.len() && first_entry_for(entry_texts(entries@), name@, algorithm@)
                == Some(i as int),
            None => first_entry_for(entry_texts(entries@), name@, algorithm@) is None,
        },
{
    let mut i: usize = 0;
    proof {
        assert(entry_texts(entries@).take(0) =~= Seq::<EntryText>::empty());
    }
    while i < entries.len()
        invariant
            i <= entries.len(),
            first_entry_for(entry_texts(entries@).take(i as int), name@, algorithm@) is None,
        decreases entries.len() - i,
    {
        let ghost es = entry_texts(entries@);
        proof {
            assert(es.take(i as int + 1).drop_last() =~= es.take(i as int));
            lemma_first_entry_prefix(es, name@, algorithm@, i as int + 1);
        }
        if entries[i].host == *name && entries[i].algorithm == *algorithm {
            return Some(i);
        }
        i = i + 1;
    }
    proof {
        assert(entry_texts(entries@).take(entries@.len() as int) =~= entry_texts(entries@));
    }
    None
}

/// A first entry within a prefix is the first entry of the whole.
proof fn lemma_first_entry_prefix(es: Seq<EntryText>, name: Seq<char>, algorithm: Seq<char>, n: int)
    requires
        0 <= n <= es.len(),
    ensures
        first_entry_for(es.take(n), name, algorithm) matches Some(i) ==> first_entry_for(
            es,
            name,
            algorithm,
        ) == Some(i),
        first_entry_for(es, name, algorithm) is None ==> first_entry_for(es.take(n), name, algorithm) is None,
        n == es.len() ==> es.take(n) == es,
    decreases es.len() - n,
{
    assert(es.take(es.len() as int) =~= es);
    if n < es.len() {
        lemma_first_entry_prefix(es, name, algorithm, n + 1);
        assert(es.take(n + 1).drop_last() =~= es.take(n));
    }
}

/// Whether `s` has a whitespace character.
pub open spec fn has_white_space(s: Seq<char>) -> bool {
    exists|i: int| 0 <= i < s.len() && #[trigger] is_white_space(s[i])
}

/// Whether `s` contains any whitespace or newline character.
fn contains_whitespace_or_newline(s: &str) -> (b: bool)
    ensures
        b == has_white_space(s@),
{
    let v = str_chars(s);
    let mut i: usize = 0;
    while i < v.len()
        invariant
            v@ == s@,
            i <= v.len(),
            forall|j: int| 0 <= j < i ==> !#[trigger] is_white_space(v@[j]),
        decreases v.len() - i,
    {
        if char_is_whitespace(v[i]) {
            return true;
        }
        i = i + 1;
    }
    false
}

/// Why the store refused to accept a key.
#[derive(Debug, Clone, Copy, PartialEq, Eq, Structural)]
pub enum KnownHostsError {
    /// The host, key data or algorithm held whitespace or a newline.
    InvalidInput,
}

impl KnownHostsError {
    /// The text shown for this error.
    pub fn message(&self) -> (s: String)
        ensures
            s@ == "host, key_data, and algorithm must not contain whitespace or newlines"@,
    {
        String::from_str("host, key_data, and algorithm must not contain whitespace or newlines")
    }
}

/// The known-hosts file: where it lives and the text it holds.
///
/// Reading and writing the file, and serialising concurrent updates, is
/// left to the caller; every operation here reads or rewrites the text
/// exactly as one read-modify-write cycle on the file would.
pub struct KnownHostsStore {
    path: String,
    contents: String,
}

impl KnownHostsStore {
    /// The text of the file.
    pub closed spec fn text(&self) -> Seq<char> {
        self.contents@
    }

    /// Where the file lives.
    pub closed spec fn location(&self) -> Seq<char> {
        self.path@
    }

    /// A store backed by the file at `path`, which does not exist yet.
    pub fn with_path(path: String) -> (store: Self)
        ensures
            store.location() == path@,
            store.text() == Seq::<char>::empty(),
    {
        KnownHostsStore { path, contents: String::new() }
    }

    /// A store backed by the file at `path`, which holds `contents`.
    pub fn from_contents(path: String, contents: String) -> (store: Self)
        ensures
            store.location() == path@,
            store.text() == contents@,
    {
        KnownHostsStore { path, contents }
    }

    /// Where the file lives.
    pub fn path(&self) -> (p: &str)
        ensures
            p@ == self.location(),
    {
        self.path.as_str()
    }

    /// The text of the file.
    pub fn contents(&self) -> (c: &str)
        ensures
            c@ == self.text(),
    {
        self.contents.as_str()
    }

    /// The entries that the file holds.
    pub fn load_entries(&self) -> (es: Vec<KnownHostEntry>)
        ensures
            entry_texts(es@) == parse_entries(self.text()),
    {
        parse_known_hosts(self.contents.as_str())
    }

    /// Check a host key, given its algorithm name, its base64 data and its
    /// fingerprint, against the entry for `host` and `port`.
    pub fn check_key(
        &self,
        host: &str,
        port: u16,
        algorithm: &str,
        key_data: &str,
        fingerprint: String,
    ) -> (r: HostKeyStatus)
        ensures
            is_check_result(
                r,
                parse_entries(self.text()),
                host_key_name(host@, port),
                algorithm@,
                key_data@,
                fingerprint@,
            ),
    {
        let name = format_host(host, port);
        let algo = String::from_str(algorithm);
        let encoded = String::from_str(key_data);
        let entries = self.load_entries();
        match find_entry(&entries, &name, &algo) {
            Some(i) => {
                if entries[i].key_data == encoded {
                    HostKeyStatus::Known
                } else {
                    HostKeyStatus::Changed { fingerprint, key_data: encoded }
                }
            },
            None => {
                if has_host_entry(&entries, &name) {
                    HostKeyStatus::Changed { fingerprint, key_data: encoded }
                } else {
                    HostKeyStatus::Unknown { fingerprint, key_data: encoded }
                }
            },
        }
    }

    /// Check whether the presented key is known, unknown, or changed for
    /// `host` and `port`.
    pub fn check(&self, host: &str, port: u16, key: &PresentedKey) -> (r: HostKeyStatus)
        ensures
            is_check_result(
                r,
                parse_entries(self.text()),
                host_key_name(host@, port),
                key.algorithm@,
                key.key_data@,
                key.fingerprint@,
            ),
    {
        self.check_key(host, port, key.algorithm.as_str(), key.key_data.as_str(), key.fingerprint.clone())
    }

    /// Persist a host key as accepted for `host` and `port`.
    ///
    /// Inputs holding whitespace or a newline are refused, so that no input
    /// can add lines to the file; the text is then left as it was.
    pub fn accept(
        &mut self,
        host: &str,
        port: u16,
        key_data: &str,
        algorithm: &str,
    ) -> (r: Result<(), KnownHostsError>)
        ensures
            final(self).location() == old(self).location(),
            r is Err <==> (has_white_space(host@) || has_white_space(key_data@)
                || has_white_space(algorithm@)),
            r is Err ==> r == Err::<(), KnownHostsError>(KnownHostsError::InvalidInput),
            r is Err ==> final(self).text() == old(self).text(),
            r is Ok ==> final(self).text() == render_entries(
                accept_entries(
                    parse_entries(old(self).text()),
                    host_key_name(host@, port),
                    algorithm@,
                    key_data@,
                ),
            ),
    {
        if contains_whitespace_or_newline(host) || contains_whitespace_or_newline(key_data)
            || contains_whitespace_or_newline(algorithm) {
            return Err(KnownHostsError::InvalidInput);
        }
        let name = format_host(host, port);
        let algo = String::from_str(algorithm);
        let key = String::from_str(key_data);
        let mut entries = parse_known_hosts(self.contents.as_str());
        let ghost es = entry_texts(entries@);
        match find_entry(&entries, &name, &algo) {
            Some(pos) => {
                let entry = KnownHostEntry { host: name, algorithm: algo, key_data: key };
                entries.set(pos, entry);
                proof {
                    assert(entry_texts(entries@) =~= es.update(pos as int, entry@));
                }
            },
            None => {
                let entry = KnownHostEntry { host: name, algorithm: algo, key_data: key };
                entries.push(entry);
                proof {
                    assert(entry_texts(entries@) =~= es.push(entry@));
                }
            },
        }
        self.contents = render_known_hosts(&entries);
        Ok(())
    }
}

} // verus!

verus! {

// ── Laws ──────────────────────────────────────────────────────────

/// An entry whose fields hold no whitespace (some may be empty).
pub open spec fn clean_entry(e: EntryText) -> bool {
    !has_white_space(e.0) && !has_white_space(e.1) && !has_white_space(e.2)
}

/// An entry that survives being written and read back: three non-empty
/// fields without whitespace.
pub open spec fn well_formed_entry(e: EntryText) -> bool {
    &&& e.0.len() > 0 && !has_white_space(e.0)
    &&& e.1.len() > 0 && !has_white_space(e.1)
    &&& e.2.len() > 0 && !has_white_space(e.2)
}

proof fn lemma_scan_word(s: Seq<char>, w: Seq<char>)
    requires
        !has_white_space(w),
    ensures
        word_scan(s + w) == (word_scan(s).0, word_scan(s).1 + w),
    decreases w.len(),
{
    if w.len() == 0 {
        assert(s + w =~= s);
        assert(word_scan(s).1 + w =~= word_scan(s).1);
    } else {
        let w2 = w.drop_last();
        assert(!has_white_space(w2)) by {
            if has_white_space(w2) {
                let i = choose|i: int| 0 <= i < w2.len() && #[trigger] is_white_space(w2[i]);
                assert(w[i] == w2[i]);
            }
        }
        lemma_scan_word(s, w2);
        assert((s + w).drop_last() =~= s + w2);
        assert((s + w).last() == w.last());
        assert(!is_white_space(w.last())) by {
            assert(w[w.len() - 1] == w.last());
        }
        assert(word_scan(s).1 + w2.push(w.last()) =~= word_scan(s).1 + w);
        assert(w2.push(w.last()) =~= w);
    }
}

proof fn lemma_scan_space(s: Seq<char>)
    ensures
        word_scan(s + seq![' ']) == word_step(word_scan(s), ' '),
{
    assert((s + seq![' ']).drop_last() =~= s);
}

/// The words of an entry's line are its three fields.
proof fn lemma_words_of_line(e: EntryText)
    requires
        well_formed_entry(e),
    ensures
        words(e.0 + seq![' '] + e.1 + seq![' '] + e.2) == seq![e.0, e.1, e.2],
{
    let empty = Seq::<char>::empty();
    assert(is_white_space(' '));
    lemma_scan_word(empty, e.0);
    assert(empty + e.0 =~= e.0);
    let s1 = e.0 + seq![' '];
    lemma_scan_space(e.0);
    lemma_scan_word(s1, e.1);
    let s2 = s1 + e.1 + seq![' '];
    lemma_scan_space(s1 + e.1);
    lemma_scan_word(s2, e.2);
    assert(word_scan(e.0).1 + empty =~= e.0);
    let ws = word_scan(s2 + e.2);
    assert(ws.0 =~= seq![e.0, e.1]);
    assert(ws.1 =~= e.2);
    assert(words(s2 + e.2) =~= seq![e.0, e.1, e.2]);
}

/// The line of an entry without its newline.
pub open spec fn entry_body(e: EntryText) -> Seq<char> {
    e.0 + seq![' '] + e.1 + seq![' '] + e.2
}

proof fn lemma_body_no_newline(e: EntryText)
    requires
        clean_entry(e),
    ensures
        forall|i: int| 0 <= i < entry_body(e).len() ==> entry_body(e)[i] != '\n',
{
    assert(is_white_space('\n'));
    assert forall|i: int| 0 <= i < entry_body(e).len() implies entry_body(e)[i] != '\n' by {
        let b = entry_body(e);
        if i < e.0.len() {
            assert(b[i] == e.0[i]);
            if b[i] == '\n' {
                assert(is_white_space(e.0[i]));
            }
        } else if i == e.0.len() {
        } else if i < e.0.len() + 1 + e.1.len() {
            assert(b[i] == e.1[i - e.0.len() - 1]);
            if b[i] == '\n' {
                assert(is_white_space(e.1[i - e.0.len() - 1]));
            }
        } else if i == e.0.len() + 1 + e.1.len() {
        } else {
            assert(b[i] == e.2[i - e.0.len() - 2 - e.1.len()]);
            if b[i] == '\n' {
                assert(is_white_space(e.2[i - e.0.len() - 2 - e.1.len()]));
            }
        }
    }
}

/// The lines of the text written for `es`: one per entry, then an empty
/// last piece after the final newline.
proof fn lemma_split_render(es: Seq<EntryText>)
    requires
        forall|i: int| 0 <= i < es.len() ==> clean_entry(#[trigger] es[i]),
    ensures
        spec_split(render_entries(es), '\n') == Seq::new(es.len(), |i: int| entry_body(es[i])).push(
            Seq::<char>::empty(),
        ),
    decreases es.len(),
{
    if es.len() == 0 {
        assert(spec_split(Seq::<char>::empty(), '\n') =~= seq![Seq::<char>::empty()]);
        assert(Seq::new(0, |i: int| entry_body(es[i])).push(Seq::<char>::empty()) =~= seq![
            Seq::<char>::empty(),
        ]);
    } else {
        let es2 = es.drop_last();
        assert forall|i: int| 0 <= i < es2.len() implies clean_entry(#[trigger] es2[i]) by {
            assert(es2[i] == es[i]);
        }
        lemma_split_render(es2);
        let e = es.last();
        assert(clean_entry(e)) by {
            assert(es[es.len() - 1] == e);
        }
        let prev = render_entries(es2);
        let body = entry_body(e);
        lemma_body_no_newline(e);
        lemma_split_no_sep(prev, body, '\n');
        assert(render_entries(es) =~= (prev + body).push('\n'));
        assert((prev + body).push('\n').drop_last() =~= prev + body);
        let lines2 = Seq::new(es2.len(), |i: int| entry_body(es2[i]));
        let r = spec_split(prev, '\n');
        assert(r == lines2.push(Seq::<char>::empty()));
        assert(r.update(r.len() - 1, r.last() + body) =~= lines2.push(body));
        assert(lines2.push(body) =~= Seq::new(es.len(), |i: int| entry_body(es[i])));
    }
}

proof fn lemma_entries_of_bodies(es: Seq<EntryText>)
    requires
        forall|i: int| 0 <= i < es.len() ==> well_formed_entry(#[trigger] es[i]),
    ensures
        entries_of_lines(Seq::new(es.len(), |i: int| entry_body(es[i]))) == es,
    decreases es.len(),
{
    let lines = Seq::new(es.len(), |i: int| entry_body(es[i]));
    if es.len() == 0 {
        assert(entries_of_lines(lines) =~= es);
    } else {
        let es2 = es.drop_last();
        assert forall|i: int| 0 <= i < es2.len() implies well_formed_entry(#[trigger] es2[i]) by {
            assert(es2[i] == es[i]);
        }
        lemma_entries_of_bodies(es2);
        assert(lines.drop_last() =~= Seq::new(es2.len(), |i: int| entry_body(es2[i])));
        let e = es.last();
        assert(well_formed_entry(e)) by {
            assert(es[es.len() - 1] == e);
        }
        lemma_words_of_line(e);
        assert(lines.last() == entry_body(e));
        assert(es2.push((e.0, e.1, e.2)) =~= es);
    }
}

/// The words of a clean entry's line are its non-empty fields: three of
/// them exactly when the entry is well-formed.
proof fn lemma_words_of_clean_line(e: EntryText)
    requires
        clean_entry(e),
    ensures
        well_formed_entry(e) ==> words(entry_body(e)) == seq![e.0, e.1, e.2],
        !well_formed_entry(e) ==> words(entry_body(e)).len() != 3,
{
    let empty = Seq::<char>::empty();
    assert(is_white_space(' '));
    lemma_scan_word(empty, e.0);
    assert(empty + e.0 =~= e.0);
    assert(empty + e.1 =~= e.1);
    assert(empty + e.2 =~= e.2);
    let s1 = e.0 + seq![' '];
    lemma_scan_space(e.0);
    let a = word_scan(s1).0;
    assert(word_scan(s1).1 =~= empty);
    assert(a.len() == if e.0.len() > 0 { 1int } else { 0int });
    lemma_scan_word(s1, e.1);
    let s2 = s1 + e.1 + seq![' '];
    lemma_scan_space(s1 + e.1);
    let b = word_scan(s2).0;
    assert(word_scan(s2).1 =~= empty);
    assert(b.len() == a.len() + if e.1.len() > 0 { 1int } else { 0int });
    lemma_scan_word(s2, e.2);
    assert(entry_body(e) =~= s2 + e.2);
    let ws = word_scan(s2 + e.2);
    assert(ws.0 == b);
    assert(ws.1 =~= e.2);
    assert(words(entry_body(e)).len() == b.len() + if e.2.len() > 0 { 1int } else { 0int });
    if well_formed_entry(e) {
        lemma_words_of_line(e);
    }
}

/// The well-formed entries of `es`, in order.
pub open spec fn kept_entries(es: Seq<EntryText>) -> Seq<EntryText>
    decreases es.len(),
{
    if es.len() == 0 {
        Seq::empty()
    } else if well_formed_entry(es.last()) {
        kept_entries(es.drop_last()).push(es.last())
    } else {
        kept_entries(es.drop_last())
    }
}

proof fn lemma_entries_of_clean_bodies(es: Seq<EntryText>)
    requires
        forall|i: int| 0 <= i < es.len() ==> clean_entry(#[trigger] es[i]),
    ensures
        entries_of_lines(Seq::new(es.len(), |i: int| entry_body(es[i]))) == kept_entries(es),
    decreases es.len(),
{
    let lines = Seq::new(es.len(), |i: int| entry_body(es[i]));
    if es.len() == 0 {
        assert(entries_of_lines(lines) =~= kept_entries(es));
    } else {
        let es2 = es.drop_last();
        assert forall|i: int| 0 <= i < es2.len() implies clean_entry(#[trigger] es2[i]) by {
            assert(es2[i] == es[i]);
        }
        lemma_entries_of_clean_bodies(es2);
        assert(lines.drop_last() =~= Seq::new(es2.len(), |i: int| entry_body(es2[i])));
        let e = es.last();
        assert(clean_entry(e)) by {
            assert(es[es.len() - 1] == e);
        }
        lemma_words_of_clean_line(e);
        assert(lines.last() == entry_body(e));
    }
}

/// Reading back the text written for entries whose fields hold no
/// whitespace gives exactly the well-formed ones, in order: an entry with
/// an empty field is lost.
pub proof fn law_render_then_parse_clean(es: Seq<EntryText>)
    requires
        forall|i: int| 0 <= i < es.len() ==> clean_entry(#[trigger] es[i]),
    ensures
        parse_entries(render_entries(es)) == kept_entries(es),
{
    lemma_split_render(es);
    let lines = Seq::new(es.len(), |i: int| entry_body(es[i]));
    lemma_entries_of_clean_bodies(es);
    assert(lines.push(Seq::<char>::empty()).drop_last() =~= lines);
    assert(words(Seq::<char>::empty()) =~= Seq::<Seq<char>>::empty());
}

/// Reading back the text written for well-formed entries gives exactly
/// those entries, in order.
pub proof fn law_render_then_parse(es: Seq<EntryText>)
    requires
        forall|i: int| 0 <= i < es.len() ==> well_formed_entry(#[trigger] es[i]),
    ensures
        parse_entries(render_entries(es)) == es,
{
    lemma_split_render(es);
    let lines = Seq::new(es.len(), |i: int| entry_body(es[i]));
    lemma_entries_of_bodies(es);
    assert(lines.push(Seq::<char>::empty()).drop_last() =~= lines);
    assert(words(Seq::<char>::empty()) =~= Seq::<Seq<char>>::empty());
}

} // verus!

verus! {

proof fn lemma_scan_words_well_formed(s: Seq<char>)
    ensures
        forall|i: int| 0 <= i < word_scan(s).0.len() ==> (#[trigger] word_scan(s).0[i]).len() > 0
            && !has_white_space(word_scan(s).0[i]),
        !has_white_space(word_scan(s).1),
    decreases s.len(),
{
    if s.len() > 0 {
        lemma_scan_words_well_formed(s.drop_last());
        let acc = word_scan(s.drop_last());
        let c = s.last();
        if !is_white_space(c) {
            assert(!has_white_space(acc.1.push(c))) by {
                if has_white_space(acc.1.push(c)) {
                    let i = choose|i: int| 0 <= i < acc.1.push(c).len() && #[trigger] is_white_space(acc.1.push(c)[i]);
                    if i < acc.1.len() {
                        assert(acc.1.push(c)[i] == acc.1[i]);
                    }
                }
            }
        } else {
            assert(!has_white_space(Seq::<char>::empty()));
        }
    } else {
        assert(!has_white_space(Seq::<char>::empty()));
    }
}

proof fn lemma_words_well_formed(s: Seq<char>)
    ensures
        forall|i: int| 0 <= i < words(s).len() ==> (#[trigger] words(s)[i]).len() > 0
            && !has_white_space(words(s)[i]),
{
    lemma_scan_words_well_formed(s);
}

proof fn lemma_entries_of_lines_well_formed(lines: Seq<Seq<char>>)
    ensures
        forall|i: int| 0 <= i < entries_of_lines(lines).len() ==> well_formed_entry(
            #[trigger] entries_of_lines(lines)[i],
        ),
    decreases lines.len(),
{
    if lines.len() > 0 {
        lemma_entries_of_lines_well_formed(lines.drop_last());
        lemma_words_well_formed(lines.last());
        let w = words(lines.last());
        let rest = entries_of_lines(lines.drop_last());
        if w.len() == 3 {
            assert(w[0].len() > 0 && w[1].len() > 0 && w[2].len() > 0);
            let e = (w[0], w[1], w[2]);
            assert(well_formed_entry(e));
            assert forall|i: int| 0 <= i < rest.push(e).len() implies well_formed_entry(
                #[trigger] rest.push(e)[i],
            ) by {
                if i < rest.len() {
                    assert(rest.push(e)[i] == rest[i]);
                }
            }
        }
    }
}

/// Every entry read from a known-hosts file is well-formed.
pub proof fn law_parsed_entries_well_formed(text: Seq<char>)
    ensures
        forall|i: int| 0 <= i < parse_entries(text).len() ==> well_formed_entry(
            #[trigger] parse_entries(text)[i],
        ),
{
    lemma_entries_of_lines_well_formed(spec_split(text, '\n'));
}

proof fn lemma_first_entry_shape(es: Seq<EntryText>, name: Seq<char>, algorithm: Seq<char>)
    ensures
        first_entry_for(es, name, algorithm) matches Some(i) ==> 0 <= i < es.len() && entry_for(
            es[i],
            name,
            algorithm,
        ) && forall|j: int| 0 <= j < i ==> !entry_for(#[trigger] es[j], name, algorithm),
        first_entry_for(es, name, algorithm) is None ==> forall|j: int|
            0 <= j < es.len() ==> !entry_for(#[trigger] es[j], name, algorithm),
    decreases es.len(),
{
    if es.len() > 0 {
        let es2 = es.drop_last();
        lemma_first_entry_shape(es2, name, algorithm);
        assert forall|j: int| 0 <= j < es2.len() implies es2[j] == es[j] by {}
        if first_entry_for(es2, name, algorithm) is None {
            assert(es.last() == es[es.len() - 1]);
        }
    }
}

proof fn lemma_first_entry_is(es: Seq<EntryText>, name: Seq<char>, algorithm: Seq<char>, i: int)
    requires
        0 <= i < es.len(),
        entry_for(es[i], name, algorithm),
        forall|j: int| 0 <= j < i ==> !entry_for(#[trigger] es[j], name, algorithm),
    ensures
        first_entry_for(es, name, algorithm) == Some(i),
{
    lemma_first_entry_shape(es, name, algorithm);
    match first_entry_for(es, name, algorithm) {
        Some(k) => {
            if k < i {
                assert(!entry_for(es[k], name, algorithm));
            }
            if k > i {
                assert(!entry_for(es[i], name, algorithm));
            }
        },
        None => {
            assert(!entry_for(es[i], name, algorithm));
        },
    }
}

proof fn lemma_decimal_digits(n: nat)
    ensures
        decimal(n).len() > 0,
        forall|i: int| 0 <= i < decimal(n).len() ==> '0' <= #[trigger] decimal(n)[i] && decimal(n)[i] <= '9',
    decreases n,
{
    if n >= 10 {
        lemma_decimal_digits(n / 10);
        let d = (n % 10) as nat;
        assert('0' <= crate::text::digit_char(d) <= '9');
        assert forall|i: int| 0 <= i < decimal(n).len() implies '0' <= #[trigger] decimal(n)[i] && decimal(n)[i] <= '9' by {
            if i < decimal(n / 10).len() {
                assert(decimal(n)[i] == decimal(n / 10)[i]);
            }
        }
    } else {
        assert('0' <= crate::text::digit_char(n) <= '9');
    }
}

/// The stored name of a host without whitespace is non-empty and has no
/// whitespace.
proof fn lemma_host_key_name_clean(host: Seq<char>, port: u16)
    requires
        !has_white_space(host),
    ensures
        host_key_name(host, port).len() > 0,
        !has_white_space(host_key_name(host, port)),
{
    let d = decimal(port as nat);
    lemma_decimal_digits(port as nat);
    let n = host_key_name(host, port);
    assert(n[0] == '[');
    if has_white_space(n) {
        let i = choose|i: int| 0 <= i < n.len() && #[trigger] is_white_space(n[i]);
        if 1 <= i < 1 + host.len() {
            assert(n[i] == host[i - 1]);
        } else if i >= host.len() + 3 {
            assert(n[i] == d[i - host.len() - 3]);
        }
    }
}

/// Accepting a key (with non-empty, whitespace-free inputs) and reading
/// the file back gives the updated entries: the entry for the host, port
/// and algorithm holds the new key, replacing the first such entry when
/// there was one (the count is then unchanged) and appended otherwise;
/// every other entry stays as it was. Checking that same key then finds
/// it known.
pub proof fn law_accept_then_check(
    text: Seq<char>,
    host: Seq<char>,
    port: u16,
    algorithm: Seq<char>,
    key: Seq<char>,
)
    requires
        !has_white_space(host),
        algorithm.len() > 0,
        !has_white_space(algorithm),
        key.len() > 0,
        !has_white_space(key),
    ensures
        ({
            let es = parse_entries(text);
            let name = host_key_name(host, port);
            let updated = accept_entries(es, name, algorithm, key);
            let after = parse_entries(render_entries(updated));
            &&& after == updated
            &&& first_entry_for(after, name, algorithm) matches Some(i) && after[i] == (
                name,
                algorithm,
                key,
            )
            &&& first_entry_for(es, name, algorithm) is Some ==> after.len() == es.len()
            &&& first_entry_for(es, name, algorithm) is None ==> after.len() == es.len() + 1
            &&& forall|j: int|
                0 <= j < es.len() && Some(j) != first_entry_for(es, name, algorithm) ==> after[j]
                    == es[j]
            &&& forall|r: HostKeyStatus, fp: Seq<char>|
                is_check_result(r, after, name, algorithm, key, fp) ==> r is Known
        }),
{
    let es = parse_entries(text);
    let name = host_key_name(host, port);
    let updated = accept_entries(es, name, algorithm, key);
    law_parsed_entries_well_formed(text);
    lemma_host_key_name_clean(host, port);
    lemma_first_entry_shape(es, name, algorithm);
    match first_entry_for(es, name, algorithm) {
        Some(i) => {
            assert forall|j: int| 0 <= j < i implies !entry_for(#[trigger] updated[j], name, algorithm) by {
                assert(updated[j] == es[j]);
            }
            lemma_first_entry_is(updated, name, algorithm, i);
        },
        None => {
            assert forall|j: int| 0 <= j < es.len() implies !entry_for(#[trigger] updated[j], name, algorithm) by {
                assert(updated[j] == es[j]);
            }
            lemma_first_entry_is(updated, name, algorithm, es.len() as int);
        },
    }
    assert forall|i: int| 0 <= i < updated.len() implies well_formed_entry(#[trigger] updated[i]) by {
        if i < es.len() && Some(i) != first_entry_for(es, name, algorithm) {
            assert(updated[i] == es[i]);
        }
    }
    law_render_then_parse(updated);
}


proof fn lemma_kept_all(es: Seq<EntryText>)
    requires
        forall|i: int| 0 <= i < es.len() ==> well_formed_entry(#[trigger] es[i]),
    ensures
        kept_entries(es) == es,
    decreases es.len(),
{
    if es.len() > 0 {
        let es2 = es.drop_last();
        assert forall|i: int| 0 <= i < es2.len() implies well_formed_entry(#[trigger] es2[i]) by {
            assert(es2[i] == es[i]);
        }
        lemma_kept_all(es2);
        assert(es[es.len() - 1] == es.last());
        assert(es2.push(es.last()) =~= es);
    }
}

proof fn lemma_kept_update_bad(es: Seq<EntryText>, i: int, b: EntryText)
    requires
        forall|k: int| 0 <= k < es.len() ==> well_formed_entry(#[trigger] es[k]),
        0 <= i < es.len(),
        !well_formed_entry(b),
    ensures
        kept_entries(es.update(i, b)) == es.remove(i),
    decreases es.len(),
{
    let u = es.update(i, b);
    let es2 = es.drop_last();
    assert forall|k: int| 0 <= k < es2.len() implies well_formed_entry(#[trigger] es2[k]) by {
        assert(es2[k] == es[k]);
    }
    if i == es.len() - 1 {
        assert(u.drop_last() =~= es2);
        assert(u.last() == b);
        lemma_kept_all(es2);
        assert(es.remove(i) =~= es2);
    } else {
        assert(u.drop_last() =~= es2.update(i, b));
        assert(u.last() == es.last());
        assert(es[es.len() - 1] == es.last());
        lemma_kept_update_bad(es2, i, b);
        assert(es2.remove(i).push(es.last()) =~= es.remove(i));
    }
}

/// Accepting a key with whitespace-free inputs (the only inputs accepted)
/// changes what the file holds in at most the entry for the host, port and
/// algorithm: with a non-empty algorithm and key the file reads back as
/// the updated entries; with an empty one the new line is not read back,
/// so the first entry for them disappears, or nothing changes when there
/// was none. Every other entry keeps its key and its order, and the count
/// grows by at most one, whatever the inputs.
pub proof fn law_accept_keeps_other_entries(
    text: Seq<char>,
    host: Seq<char>,
    port: u16,
    algorithm: Seq<char>,
    key: Seq<char>,
)
    requires
        !has_white_space(host),
        !has_white_space(algorithm),
        !has_white_space(key),
    ensures
        ({
            let es = parse_entries(text);
            let name = host_key_name(host, port);
            let after = parse_entries(render_entries(accept_entries(es, name, algorithm, key)));
            &&& algorithm.len() > 0 && key.len() > 0 ==> after == accept_entries(es, name, algorithm, key)
            &&& !(algorithm.len() > 0 && key.len() > 0) ==> after == match first_entry_for(es, name, algorithm) {
                Some(i) => es.remove(i),
                None => es,
            }
            &&& after.len() <= es.len() + 1
        }),
{
    let es = parse_entries(text);
    let name = host_key_name(host, port);
    let updated = accept_entries(es, name, algorithm, key);
    law_parsed_entries_well_formed(text);
    lemma_host_key_name_clean(host, port);
    lemma_first_entry_shape(es, name, algorithm);
    let e = (name, algorithm, key);
    assert(clean_entry(e));
    assert forall|i: int| 0 <= i < updated.len() implies clean_entry(#[trigger] updated[i]) by {
        if i < es.len() && Some(i) != first_entry_for(es, name, algorithm) {
            assert(updated[i] == es[i]);
        }
    }
    law_render_then_parse_clean(updated);
    if algorithm.len() > 0 && key.len() > 0 {
        assert forall|i: int| 0 <= i < updated.len() implies well_formed_entry(#[trigger] updated[i]) by {
            if i < es.len() && Some(i) != first_entry_for(es, name, algorithm) {
                assert(updated[i] == es[i]);
            }
        }
        lemma_kept_all(updated);
    } else {
        assert(!well_formed_entry(e));
        match first_entry_for(es, name, algorithm) {
            Some(i) => {
                lemma_kept_update_bad(es, i, e);
            },
            None => {
                assert(updated.drop_last() =~= es);
                lemma_kept_all(es);
            },
        }
    }
}


/// One line of the file (text without a newline) holds an entry exactly
/// when it has three whitespace-separated words, and the entry's host,
/// algorithm and key are those words; leading, trailing and repeated
/// whitespace is ignored, and blank lines or lines of one, two, four or
/// more words hold none.
pub proof fn law_parse_line(line: Seq<char>)
    requires
        forall|i: int| 0 <= i < line.len() ==> line[i] != '\n',
    ensures
        parse_entries(line) == if words(line).len() == 3 {
            seq![(words(line)[0], words(line)[1], words(line)[2])]
        } else {
            Seq::<EntryText>::empty()
        },
{
    let empty = Seq::<char>::empty();
    lemma_split_no_sep(empty, line, '\n');
    assert(empty + line =~= line);
    assert(spec_split(empty, '\n') =~= seq![empty]);
    let lines = spec_split(line, '\n');
    assert(lines =~= seq![line]);
    assert(lines.drop_last() =~= Seq::<Seq<char>>::empty());
    assert(entries_of_lines(lines.drop_last()) =~= Seq::<EntryText>::empty());
    if words(line).len() == 3 {
        assert(Seq::<EntryText>::empty().push((words(line)[0], words(line)[1], words(line)[2])) =~= seq![
            (words(line)[0], words(line)[1], words(line)[2]),
        ]);
    }
}

} // verus!
