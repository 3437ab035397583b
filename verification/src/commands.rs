//! What the frontend's commands decide: how the saved session list
//! changes on save, delete and import, and what a connection request is
//! asked to do. Reading and writing the session file is left to the
//! caller.
use vstd::prelude::*;
use crate::session::AuthMethod;
use crate::session::Protocol;
use crate::session::SshSession;
use crate::session::ValidationError;
use crate::session::is_valid_host;
use crate::session::opt_view;
use crate::session::spec_session_fault;
use crate::session::valid_host_text;
use crate::session::validate_session;

verus! {

/// Response to a successful SSH connection attempt.
#[derive(Debug, Clone)]
pub struct SshConnectResult {
    pub connection_id: String,
}

/// The host key that the user is asked to trust.
#[derive(Debug, Clone)]
pub struct HostKeyInfo {
    pub fingerprint: String,
    pub key_data: String,
    pub algorithm: String,
}

/// Response to a successful VNC connection attempt.
#[derive(Debug, Clone)]
pub struct VncConnectResult {
    pub connection_id: String,
}

/// Response to a successful RDP connection attempt.
#[derive(Debug, Clone)]
pub struct RdpConnectResult {
    pub connection_id: String,
}

/// Errors surfaced to the frontend; I/O and serialisation errors are
/// carried by their messages.
#[derive(Debug, Clone)]
pub enum AppError {
    Io(String),
    Serde(String),
    Ssh(String),
    Vnc(String),
    Rdp(String),
    NotFound(String),
    Validation(String),
    HostKeyUnknown(HostKeyInfo),
    /// The host presented a key other than the one stored for it.
    HostKeyChanged(HostKeyInfo),
}

// ── The saved session list ────────────────────────────────────────

/// The index of the first session with id `id`.
pub open spec fn position_of_id(ss: Seq<SshSession>, id: Seq<char>) -> Option<int>
    decreases ss.len(),
{
    if ss.len() == 0 {
        None
    } else {
        match position_of_id(ss.drop_last(), id) {
            Some(i) => Some(i),
            None => if ss.last().id@ == id {
                Some(ss.len() - 1)
            } else {
                None
            },
        }
    }
}

/// The list after saving `s`: it replaces the first session with the same
/// id, or is appended.
pub open spec fn upserted(ss: Seq<SshSession>, s: SshSession) -> Seq<SshSession> {
    match position_of_id(ss, s.id@) {
        Some(i) => ss.update(i, s),
        None => ss.push(s),
    }
}

/// The list without the sessions whose id is `id`, in order.
pub open spec fn without_id(ss: Seq<SshSession>, id: Seq<char>) -> Seq<SshSession>
    decreases ss.len(),
{
    if ss.len() == 0 {
        Seq::empty()
    } else {
        let rest = without_id(ss.drop_last(), id);
        if ss.last().id@ == id {
            rest
        } else {
            rest.push(ss.last())
        }
    }
}

/// The list after importing `imported`, one session after another.
pub open spec fn merged(ss: Seq<SshSession>, imported: Seq<SshSession>) -> Seq<SshSession>
    decreases imported.len(),
{
    if imported.len() == 0 {
        ss
    } else {
        upserted(merged(ss, imported.drop_last()), imported.last())
    }
}

/// The index of the first session that breaks a validation rule.
pub open spec fn first_faulty(ss: Seq<SshSession>) -> Option<int>
    decreases ss.len(),
{
    if ss.len() == 0 {
        None
    } else {
        match first_faulty(ss.drop_last()) {
            Some(i) => Some(i),
            None => if spec_session_fault(ss.last()) is Some {
                Some(ss.len() - 1)
            } else {
                None
            },
        }
    }
}

proof fn lemma_position_prefix(ss: Seq<SshSession>, id: Seq<char>, n: int)
    requires
        0 <= n < ss.len(),
        position_of_id(ss.take(n), id) is None,
        ss[n].id@ == id,
    ensures
        position_of_id(ss, id) == Some(n),
    decreases ss.len() - n,
{
    assert(ss.take(n + 1).drop_last() =~= ss.take(n));
    if n + 1 < ss.len() {
        lemma_position_extend(ss, id, n + 1);
    } else {
        assert(ss.take(n + 1) =~= ss);
    }
}

proof fn lemma_position_extend(ss: Seq<SshSession>, id: Seq<char>, n: int)
    requires
        0 < n <= ss.len(),
        position_of_id(ss.take(n), id) is Some,
    ensures
        position_of_id(ss, id) == position_of_id(ss.take(n), id),
    decreases ss.len() - n,
{
    if n < ss.len() {
        assert(ss.take(n + 1).drop_last() =~= ss.take(n));
        lemma_position_extend(ss, id, n + 1);
    } else {
        assert(ss.take(n) =~= ss);
    }
}

fn find_session(sessions: &Vec<SshSession>, id: &String) -> (r: Option<usize>)
    ensures
        match r {
            Some(i) => i < sessions.len() && position_of_id(sessions@, id@) == Some(i as int),
            None => position_of_id(sessions@, id@) is None,
        },
{
    let mut i: usize = 0;
    proof {
        assert(sessions@.take(0) =~= Seq::<SshSession>::empty());
    }
    while i < sessions.len()
        invariant
            i <= sessions.len(),
            position_of_id(sessions@.take(i as int), id@) is None,
        decreases sessions.len() - i,
    {
        if sessions[i].id == *id {
            proof {
                lemma_position_prefix(sessions@, id@, i as int);
            }
            return Some(i);
        }
        proof {
            assert(sessions@.take(i as int + 1).drop_last() =~= sessions@.take(i as int));
        }
        i = i + 1;
    }
    proof {
        assert(sessions@.take(sessions@.len() as int) =~= sessions@);
    }
    None
}

/// Save `session` into the list: it replaces the first session with the
/// same id, or is appended.
pub fn upsert_session(sessions: &mut Vec<SshSession>, session: SshSession)
    ensures
        final(sessions)@ == upserted(old(sessions)@, session),
{
    let id = session.id.clone();
    match find_session(sessions, &id) {
        Some(pos) => {
            sessions.set(pos, session);
        },
        None => {
            sessions.push(session);
        },
    }
}

/// Remove every session with id `id`, keeping the others in order.
pub fn remove_session(sessions: &mut Vec<SshSession>, id: &str)
    ensures
        final(sessions)@ == without_id(old(sessions)@, id@),
{
    let key = String::from_str(id);
    let mut kept: Vec<SshSession> = Vec::new();
    let ghost all = sessions@;
    assert(all.len() == sessions.len());
    let mut taken: usize = 0;
    proof {
        assert(all.take(0) =~= Seq::<SshSession>::empty());
    }
    while sessions.len() > 0
        invariant
            taken + sessions@.len() == all.len(),
            all.len() <= usize::MAX,
            sessions@ == all.skip(taken as int),
            kept@ == without_id(all.take(taken as int), id@),
            key@ == id@,
        decreases sessions.len(),
    {
        let s = sessions.remove(0);
        proof {
            assert(s == all[taken as int]);
            assert(all.take(taken as int + 1).drop_last() =~= all.take(taken as int));
            assert(all.take(taken as int + 1).last() == s);
        }
        if s.id != key {
            kept.push(s);
        }
        taken = taken + 1;
        proof {
            assert(sessions@ =~= all.skip(taken as int));
        }
    }
    proof {
        assert(all.take(taken as int) =~= all);
    }
    *sessions = kept;
}

/// Import sessions into the list, one after another; an imported session
/// replaces the first one with the same id, or is appended.
pub fn merge_sessions(sessions: &mut Vec<SshSession>, imported: Vec<SshSession>)
    ensures
        final(sessions)@ == merged(old(sessions)@, imported@),
{
    let mut rest = imported;
    let ghost all = rest@;
    assert(all.len() == rest.len());
    let mut done: usize = 0;
    proof {
        assert(all.take(0) =~= Seq::<SshSession>::empty());
    }
    while rest.len() > 0
        invariant
            done + rest@.len() == all.len(),
            all.len() <= usize::MAX,
            rest@ == all.skip(done as int),
            sessions@ == merged(old(sessions)@, all.take(done as int)),
        decreases rest.len(),
    {
        let s = rest.remove(0);
        proof {
            assert(s == all[done as int]);
            assert(all.take(done as int + 1).drop_last() =~= all.take(done as int));
            assert(all.take(done as int + 1).last() == s);
        }
        upsert_session(sessions, s);
        done = done + 1;
        proof {
            assert(rest@ =~= all.skip(done as int));
        }
    }
    proof {
        assert(all.take(done as int) =~= all);
    }
}

/// Validate a session before it is saved; a refusal is reported with the
/// validation message.
pub fn check_session(session: &SshSession) -> (r: Result<(), AppError>)
    ensures
        match spec_session_fault(*session) {
            None => r is Ok,
            Some(e) => r matches Err(AppError::Validation(msg)) && msg@ == e.spec_message(),
        },
{
    match validate_session(session) {
        Ok(()) => Ok(()),
        Err(e) => Err(AppError::Validation(e.message())),
    }
}

/// The message for an imported session that breaks a rule.
pub open spec fn import_fault_message(id: Seq<char>, e: ValidationError) -> Seq<char> {
    "session '"@ + id + "': "@ + e.spec_message()
}

/// Validate every session of an import; the first one that breaks a rule
/// is reported, naming its id.
pub fn check_imported_sessions(imported: &Vec<SshSession>) -> (r: Result<(), AppError>)
    ensures
        match first_faulty(imported@) {
            None => r is Ok,
            Some(i) => spec_session_fault(imported@[i]) matches Some(e) && r matches Err(
                AppError::Validation(msg),
            ) && msg@ == import_fault_message(imported@[i].id@, e),
        },
{
    let mut i: usize = 0;
    proof {
        assert(imported@.take(0) =~= Seq::<SshSession>::empty());
    }
    while i < imported.len()
        invariant
            i <= imported.len(),
            first_faulty(imported@.take(i as int)) is None,
        decreases imported.len() - i,
    {
        proof {
            assert(imported@.take(i as int + 1).drop_last() =~= imported@.take(i as int));
            assert(imported@.take(i as int + 1).last() == imported@[i as int]);
            lemma_first_faulty_extend(imported@, i as int + 1);
        }
        match validate_session(&imported[i]) {
            Ok(()) => {},
            Err(e) => {
                let msg = String::from_str("session '").concat(imported[i].id.as_str()).concat(
                    "': ",
                ).concat(e.message().as_str());
                return Err(AppError::Validation(msg));
            },
        }
        i = i + 1;
    }
    proof {
        assert(imported@.take(imported@.len() as int) =~= imported@);
    }
    Ok(())
}

proof fn lemma_first_faulty_extend(ss: Seq<SshSession>, n: int)
    requires
        0 < n <= ss.len(),
    ensures
        first_faulty(ss.take(n)) is Some ==> first_faulty(ss) == first_faulty(ss.take(n)),
    decreases ss.len() - n,
{
    if n < ss.len() {
        assert(ss.take(n + 1).drop_last() =~= ss.take(n));
        lemma_first_faulty_extend(ss, n + 1);
    } else {
        assert(ss.take(n) =~= ss);
    }
}

// ── Connection requests ───────────────────────────────────────────

/// What an SSH connection attempt is asked to do.
#[derive(Debug)]
pub struct SshConnectPlan {
    pub host: String,
    pub port: u16,
    pub username: String,
    pub password: Option<String>,
    pub private_key_path: Option<String>,
}

/// What an RDP connection attempt is asked to do.
#[derive(Debug)]
pub struct RdpConnectPlan {
    pub host: String,
    pub port: u16,
    pub username: String,
    pub password: String,
    pub domain: Option<String>,
}

/// What a VNC connection attempt is asked to do.
#[derive(Debug)]
pub struct VncConnectPlan {
    pub host: String,
    pub port: u16,
    pub password: String,
    pub username: Option<String>,
}

/// The message for a session id that the list does not hold.
pub open spec fn not_found_message(id: Seq<char>) -> Seq<char> {
    "Session "@ + id + " not found"@
}

/// The first of two optional values that is present.
pub open spec fn or_else(a: Option<Seq<char>>, b: Option<Seq<char>>) -> Option<Seq<char>> {
    if a is Some { a } else { b }
}

fn clone_opt(o: &Option<String>) -> (r: Option<String>)
    ensures
        opt_view(r) == opt_view(*o),
{
    match o {
        Some(s) => Some(s.clone()),
        None => None,
    }
}

fn not_found(session_id: &str) -> (e: AppError)
    ensures
        e matches AppError::NotFound(msg) && msg@ == not_found_message(session_id@),
{
    AppError::NotFound(String::from_str("Session ").concat(session_id).concat(" not found"))
}

/// Look up the session to open over SSH: its host must be valid; the
/// password given now takes precedence over a stored one, and the key file
/// is used only for key authentication.
pub fn plan_ssh_connect(sessions: &Vec<SshSession>, session_id: &str, password: Option<String>) -> (r:
    Result<SshConnectPlan, AppError>)
    ensures
        match position_of_id(sessions@, session_id@) {
            None => r matches Err(AppError::NotFound(msg)) && msg@ == not_found_message(session_id@),
            Some(i) => {
                let s = sessions@[i];
                if !valid_host_text(s.host@) {
                    r matches Err(AppError::Validation(msg)) && msg@ == "Invalid SSH host: "@ + s.host@
                } else {
                    r matches Ok(plan) && plan.host@ == s.host@ && plan.port == s.port
                        && plan.username@ == s.username@ && opt_view(plan.password) == or_else(
                        opt_view(password),
                        opt_view(s.password),
                    ) && opt_view(plan.private_key_path) == if s.auth_method == AuthMethod::Key {
                        opt_view(s.private_key_path)
                    } else {
                        None
                    }
                }
            },
        },
{
    let key = String::from_str(session_id);
    let pos = match find_session(sessions, &key) {
        Some(p) => p,
        None => {
            return Err(not_found(session_id));
        },
    };
    let session = &sessions[pos];
    if !is_valid_host(session.host.as_str()) {
        return Err(
            AppError::Validation(String::from_str("Invalid SSH host: ").concat(session.host.as_str())),
        );
    }
    let pw = match password {
        Some(p) => Some(p),
        None => clone_opt(&session.password),
    };
    let key_path = if session.auth_method == AuthMethod::Key {
        clone_opt(&session.private_key_path)
    } else {
        None
    };
    Ok(
        SshConnectPlan {
            host: session.host.clone(),
            port: session.port,
            username: session.username.clone(),
            password: pw,
            private_key_path: key_path,
        },
    )
}

/// Look up the session to open over RDP: it must be an RDP session; the
/// password given now takes precedence over a stored one, and is empty
/// when there is neither.
pub fn plan_rdp_connect(sessions: &Vec<SshSession>, session_id: &str, password: Option<String>) -> (r:
    Result<RdpConnectPlan, AppError>)
    ensures
        match position_of_id(sessions@, session_id@) {
            None => r matches Err(AppError::NotFound(msg)) && msg@ == not_found_message(session_id@),
            Some(i) => {
                let s = sessions@[i];
                if s.protocol != Protocol::Rdp {
                    r matches Err(AppError::Rdp(msg)) && msg@ == "Session is not an RDP session"@
                } else {
                    r matches Ok(plan) && plan.host@ == s.host@ && plan.port == s.port
                        && plan.username@ == s.username@ && plan.password@ == match or_else(
                        opt_view(password),
                        opt_view(s.password),
                    ) {
                        Some(p) => p,
                        None => Seq::<char>::empty(),
                    } && opt_view(plan.domain) == opt_view(s.domain)
                }
            },
        },
{
    let key = String::from_str(session_id);
    let pos = match find_session(sessions, &key) {
        Some(p) => p,
        None => {
            return Err(not_found(session_id));
        },
    };
    let session = &sessions[pos];
    if session.protocol != Protocol::Rdp {
        return Err(AppError::Rdp(String::from_str("Session is not an RDP session")));
    }
    let pw = match password {
        Some(p) => p,
        None => match &session.password {
            Some(p) => p.clone(),
            None => String::new(),
        },
    };
    Ok(
        RdpConnectPlan {
            host: session.host.clone(),
            port: session.port,
            username: session.username.clone(),
            password: pw,
            domain: clone_opt(&session.domain),
        },
    )
}

/// Look up the session to open over VNC: it must be a VNC session; the
/// password given now takes precedence over a stored one, and is empty
/// when there is neither; the user name is passed on only when not empty.
pub fn plan_vnc_connect(sessions: &Vec<SshSession>, session_id: &str, password: Option<String>) -> (r:
    Result<VncConnectPlan, AppError>)
    ensures
        match position_of_id(sessions@, session_id@) {
            None => r matches Err(AppError::NotFound(msg)) && msg@ == not_found_message(session_id@),
            Some(i) => {
                let s = sessions@[i];
                if s.protocol != Protocol::Vnc {
                    r matches Err(AppError::Vnc(msg)) && msg@ == "Session is not a VNC session"@
                } else {
                    r matches Ok(plan) && plan.host@ == s.host@ && plan.port == s.port
                        && plan.password@ == match or_else(opt_view(password), opt_view(s.password)) {
                        Some(p) => p,
                        None => Seq::<char>::empty(),
                    } && opt_view(plan.username) == if s.username@.len() == 0 {
                        None
                    } else {
                        Some(s.username@)
                    }
                }
            },
        },
{
    let key = String::from_str(session_id);
    let pos = match find_session(sessions, &key) {
        Some(p) => p,
        None => {
            return Err(not_found(session_id));
        },
    };
    let session = &sessions[pos];
    if session.protocol != Protocol::Vnc {
        return Err(AppError::Vnc(String::from_str("Session is not a VNC session")));
    }
    let pw = match password {
        Some(p) => p,
        None => match &session.password {
            Some(p) => p.clone(),
            None => String::new(),
        },
    };
    let username = if session.username.as_str().unicode_len() == 0 {
        None
    } else {
        Some(session.username.clone())
    };
    Ok(VncConnectPlan { host: session.host.clone(), port: session.port, password: pw, username })
}

} // verus!

verus! {

// ── Laws ──────────────────────────────────────────────────────────

proof fn lemma_position_shape(ss: Seq<SshSession>, id: Seq<char>)
    ensures
        position_of_id(ss, id) matches Some(i) ==> 0 <= i < ss.len() && ss[i].id@ == id && forall|j: int|
            0 <= j < i ==> (#[trigger] ss[j]).id@ != id,
        position_of_id(ss, id) is None ==> forall|j: int| 0 <= j < ss.len() ==> (#[trigger] ss[j]).id@ != id,
    decreases ss.len(),
{
    if ss.len() > 0 {
        lemma_position_shape(ss.drop_last(), id);
        assert forall|j: int| 0 <= j < ss.len() - 1 implies ss.drop_last()[j] == ss[j] by {}
        assert(ss.last() == ss[ss.len() - 1]);
    }
}

proof fn lemma_position_is(ss: Seq<SshSession>, id: Seq<char>, i: int)
    requires
        0 <= i < ss.len(),
        ss[i].id@ == id,
        forall|j: int| 0 <= j < i ==> (#[trigger] ss[j]).id@ != id,
    ensures
        position_of_id(ss, id) == Some(i),
{
    lemma_position_shape(ss, id);
    match position_of_id(ss, id) {
        Some(k) => {
            if k < i {
                assert(ss[k].id@ != id);
            }
            if k > i {
                assert(ss[i].id@ != id);
            }
        },
        None => {
            assert(ss[i].id@ != id);
        },
    }
}

/// Saving a session puts it in the list under its id: looking the id up
/// afterwards finds exactly that session. The list grows by one when the
/// id was new and keeps its length otherwise, and no other session
/// changes.
pub proof fn law_save_then_lookup(ss: Seq<SshSession>, s: SshSession)
    ensures
        position_of_id(upserted(ss, s), s.id@) matches Some(i) && upserted(ss, s)[i] == s,
        position_of_id(ss, s.id@) is Some ==> upserted(ss, s).len() == ss.len(),
        position_of_id(ss, s.id@) is None ==> upserted(ss, s).len() == ss.len() + 1,
        forall|j: int|
            0 <= j < ss.len() && Some(j) != position_of_id(ss, s.id@) ==> #[trigger] upserted(ss, s)[j]
                == ss[j],
{
    let after = upserted(ss, s);
    lemma_position_shape(ss, s.id@);
    match position_of_id(ss, s.id@) {
        Some(i) => {
            assert forall|j: int| 0 <= j < i implies (#[trigger] after[j]).id@ != s.id@ by {
                assert(after[j] == ss[j]);
            }
            lemma_position_is(after, s.id@, i);
        },
        None => {
            assert forall|j: int| 0 <= j < ss.len() implies (#[trigger] after[j]).id@ != s.id@ by {
                assert(after[j] == ss[j]);
            }
            lemma_position_is(after, s.id@, ss.len() as int);
        },
    }
}

/// Deleting by id keeps exactly the sessions with other ids, in order; the
/// id is then found nowhere in the list.
pub proof fn law_delete_removes(ss: Seq<SshSession>, id: Seq<char>)
    ensures
        without_id(ss, id) == ss.filter(|s: SshSession| s.id@ != id),
        position_of_id(without_id(ss, id), id) is None,
    decreases ss.len(),
{
    reveal_with_fuel(Seq::<_>::filter, 1);
    if ss.len() > 0 {
        law_delete_removes(ss.drop_last(), id);
    }
    let rest = without_id(ss, id);
    assert forall|j: int| 0 <= j < rest.len() implies (#[trigger] rest[j]).id@ != id by {
        lemma_without_ids(ss, id);
    }
    lemma_position_shape(rest, id);
    if position_of_id(rest, id) is Some {
        let i = position_of_id(rest, id)->0;
        assert(rest[i].id@ != id);
    }
}

proof fn lemma_without_ids(ss: Seq<SshSession>, id: Seq<char>)
    ensures
        forall|j: int| 0 <= j < without_id(ss, id).len() ==> (#[trigger] without_id(ss, id)[j]).id@ != id,
    decreases ss.len(),
{
    if ss.len() > 0 {
        lemma_without_ids(ss.drop_last(), id);
        let rest = without_id(ss.drop_last(), id);
        if ss.last().id@ != id {
            assert forall|j: int| 0 <= j < rest.push(ss.last()).len() implies (#[trigger] rest.push(ss.last())[j]).id@ != id by {
                if j < rest.len() {
                    assert(rest.push(ss.last())[j] == rest[j]);
                }
            }
        }
    }
}

/// Importing sessions makes every imported id present in the list, and
/// the session held under an id is the last imported one with that id.
pub proof fn law_import_then_lookup(ss: Seq<SshSession>, imported: Seq<SshSession>, k: int)
    requires
        0 <= k < imported.len(),
        forall|j: int| k < j < imported.len() ==> (#[trigger] imported[j]).id@ != imported[k].id@,
    ensures
        position_of_id(merged(ss, imported), imported[k].id@) matches Some(i) && merged(ss, imported)[i]
            == imported[k],
    decreases imported.len(),
{
    let id = imported[k].id@;
    let last = imported.last();
    let before = merged(ss, imported.drop_last());
    if k == imported.len() - 1 {
        law_save_then_lookup(before, last);
    } else {
        assert forall|j: int| k < j < imported.drop_last().len() implies (#[trigger] imported.drop_last()[j]).id@
            != imported.drop_last()[k].id@ by {
            assert(imported.drop_last()[j] == imported[j]);
        }
        law_import_then_lookup(ss, imported.drop_last(), k);
        assert(imported.drop_last()[k] == imported[k]);
        assert(last.id@ != id) by {
            assert(imported[imported.len() - 1] == last);
        }
        let i = position_of_id(before, id)->0;
        lemma_position_shape(before, id);
        law_save_then_lookup(before, last);
        let after = upserted(before, last);
        assert(Some(i) != position_of_id(before, last.id@)) by {
            lemma_position_shape(before, last.id@);
        }
        assert(after[i] == before[i]);
        assert forall|j: int| 0 <= j < i implies (#[trigger] after[j]).id@ != id by {
            if Some(j) == position_of_id(before, last.id@) {
                assert(after[j] == last);
            } else {
                assert(after[j] == before[j]);
            }
        }
        lemma_position_is(after, id, i);
    }
}

/// An import is accepted exactly when every imported session passes
/// validation.
pub proof fn law_import_validation(ss: Seq<SshSession>)
    ensures
        first_faulty(ss) is None <==> forall|i: int| 0 <= i < ss.len() ==> spec_session_fault(#[trigger] ss[i]) is None,
        first_faulty(ss) matches Some(i) ==> 0 <= i < ss.len() && spec_session_fault(ss[i]) is Some,
    decreases ss.len(),
{
    if ss.len() > 0 {
        law_import_validation(ss.drop_last());
        assert forall|j: int| 0 <= j < ss.len() - 1 implies ss.drop_last()[j] == ss[j] by {}
        assert(ss.last() == ss[ss.len() - 1]);
    }
}

} // verus!
