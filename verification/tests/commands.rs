use rxterm::commands::check_imported_sessions;
use rxterm::commands::check_session;
use rxterm::commands::merge_sessions;
use rxterm::commands::plan_rdp_connect;
use rxterm::commands::plan_ssh_connect;
use rxterm::commands::plan_vnc_connect;
use rxterm::commands::remove_session;
use rxterm::commands::upsert_session;
use rxterm::commands::AppError;
use rxterm::session::AuthMethod;
use rxterm::session::Protocol;
use rxterm::session::SshSession;

fn session(id: &str, protocol: Protocol, host: &str) -> SshSession {
    SshSession {
        id: id.to_string(),
        label: format!("label {}", id),
        protocol,
        host: host.to_string(),
        port: 22,
        username: "user".to_string(),
        auth_method: AuthMethod::Password,
        password: None,
        private_key_path: None,
        notes: None,
        domain: None,
    }
}

fn ids(v: &[SshSession]) -> Vec<String> {
    v.iter().map(|s| s.id.clone()).collect()
}

#[test]
fn save_replaces_or_appends() {
    let mut list = vec![session("a", Protocol::Ssh, "h1"), session("b", Protocol::Ssh, "h2")];
    upsert_session(&mut list, session("b", Protocol::Rdp, "h3"));
    assert_eq!(ids(&list), vec!["a", "b"]);
    assert_eq!(list[1].host, "h3");
    upsert_session(&mut list, session("c", Protocol::Vnc, "h4"));
    assert_eq!(ids(&list), vec!["a", "b", "c"]);
}

#[test]
fn delete_removes_every_match() {
    let mut list = vec![
        session("a", Protocol::Ssh, "h"),
        session("b", Protocol::Ssh, "h"),
        session("a", Protocol::Ssh, "h"),
    ];
    remove_session(&mut list, "a");
    assert_eq!(ids(&list), vec!["b"]);
    remove_session(&mut list, "zzz");
    assert_eq!(ids(&list), vec!["b"]);
}

#[test]
fn import_merges_in_order() {
    let mut list = vec![session("a", Protocol::Ssh, "old")];
    merge_sessions(
        &mut list,
        vec![session("b", Protocol::Ssh, "x"), session("a", Protocol::Ssh, "new"), session("b", Protocol::Ssh, "y")],
    );
    assert_eq!(ids(&list), vec!["a", "b"]);
    assert_eq!(list[0].host, "new");
    assert_eq!(list[1].host, "y");
}

#[test]
fn save_validation_message() {
    assert!(check_session(&session("a", Protocol::Ssh, "example.com")).is_ok());
    match check_session(&session("a", Protocol::Ssh, "")) {
        Err(AppError::Validation(m)) => assert_eq!(m, "Host must not be empty"),
        other => panic!("unexpected {:?}", other),
    }
}

#[test]
fn import_validation_names_the_session() {
    let good = vec![session("a", Protocol::Ssh, "example.com")];
    assert!(check_imported_sessions(&good).is_ok());
    let bad = vec![session("a", Protocol::Ssh, "example.com"), session("b2", Protocol::Ssh, "x y"), session("", Protocol::Ssh, "h")];
    match check_imported_sessions(&bad) {
        Err(AppError::Validation(m)) => assert_eq!(m, "session 'b2': Host contains invalid characters"),
        other => panic!("unexpected {:?}", other),
    }
}

#[test]
fn ssh_plan_prefers_given_password_and_key_only_for_key_auth() {
    let mut s = session("a", Protocol::Ssh, "example.com");
    s.password = Some("stored".to_string());
    s.private_key_path = Some("/k".to_string());
    let list = vec![s];
    let plan = plan_ssh_connect(&list, "a", Some("typed".to_string())).unwrap();
    assert_eq!(plan.password.as_deref(), Some("typed"));
    assert_eq!(plan.private_key_path, None);
    let plan = plan_ssh_connect(&list, "a", None).unwrap();
    assert_eq!(plan.password.as_deref(), Some("stored"));
    let mut k = list[0].clone();
    k.auth_method = AuthMethod::Key;
    let plan = plan_ssh_connect(&vec![k], "a", None).unwrap();
    assert_eq!(plan.private_key_path.as_deref(), Some("/k"));
    assert_eq!(plan.host, "example.com");
    assert_eq!(plan.port, 22);
    assert_eq!(plan.username, "user");
}

#[test]
fn ssh_plan_errors() {
    let list = vec![session("a", Protocol::Ssh, "bad host")];
    match plan_ssh_connect(&list, "nope", None) {
        Err(AppError::NotFound(m)) => assert_eq!(m, "Session nope not found"),
        other => panic!("unexpected {:?}", other),
    }
    match plan_ssh_connect(&list, "a", None) {
        Err(AppError::Validation(m)) => assert_eq!(m, "Invalid SSH host: bad host"),
        other => panic!("unexpected {:?}", other),
    }
}

#[test]
fn rdp_and_vnc_plans_check_the_protocol() {
    let mut r = session("r", Protocol::Rdp, "win.local");
    r.domain = Some("CORP".to_string());
    let list = vec![r, session("v", Protocol::Vnc, "mac.local")];
    let plan = plan_rdp_connect(&list, "r", None).unwrap();
    assert_eq!(plan.password, "");
    assert_eq!(plan.domain.as_deref(), Some("CORP"));
    match plan_rdp_connect(&list, "v", None) {
        Err(AppError::Rdp(m)) => assert_eq!(m, "Session is not an RDP session"),
        other => panic!("unexpected {:?}", other),
    }
    let plan = plan_vnc_connect(&list, "v", None).unwrap();
    assert_eq!((plan.host.as_str(), plan.port), ("mac.local", 22));
    assert_eq!(plan.password, "");
    assert_eq!(plan.username.as_deref(), Some("user"));
    let plan = plan_vnc_connect(&list, "v", Some("pw".to_string())).unwrap();
    assert_eq!(plan.password, "pw");
    let mut anonymous = session("w", Protocol::Vnc, "mac.local");
    anonymous.username = String::new();
    anonymous.password = Some("stored".to_string());
    let plan = plan_vnc_connect(&vec![anonymous], "w", None).unwrap();
    assert_eq!(plan.username, None);
    assert_eq!(plan.password, "stored");
    match plan_vnc_connect(&list, "r", None) {
        Err(AppError::Vnc(m)) => assert_eq!(m, "Session is not a VNC session"),
        other => panic!("unexpected {:?}", other),
    }
    match plan_vnc_connect(&list, "x", None) {
        Err(AppError::NotFound(m)) => assert_eq!(m, "Session x not found"),
        other => panic!("unexpected {:?}", other),
    }
}
