use authenticator::account::{Account, AppConfig, AppState};
use authenticator::import::{default_import_issuer, is_text_import_extension};

fn state() -> AppState {
    AppState { accounts: Vec::new(), config: AppConfig::default() }
}

fn entries(st: &AppState) -> Vec<(String, String, String, String)> {
    st.accounts
        .iter()
        .map(|a| (a.issuer.clone(), a.name.clone(), a.password.clone(), a.secret.clone()))
        .collect()
}

fn e(issuer: &str, name: &str, password: &str, secret: &str) -> (String, String, String, String) {
    (issuer.into(), name.into(), password.into(), secret.into())
}

#[test]
fn import_issuer_is_google() {
    assert_eq!(default_import_issuer(), "Google");
}

#[test]
fn bulk_import_line_shapes() {
    let mut st = state();
    let text = "alice:pw:jbsw y3dp\n\
                bob:JBSWY3DPEHPK3PXP\n\
                carol:hunter2\n\
                \n\
                   \t \n\
                nocolon\n\
                dave:a:b:GEZDGNBV\r\n\
                erin:pw:not-base32\n\
                frank:pw:\n\
                 grace : pass : gezd gnbv ";
    let count = st.bulk_import(text);
    assert_eq!(count, 5);
    assert_eq!(
        entries(&st),
        vec![
            e("Google", "alice", "", "JBSWY3DP"),
            e("Google", "bob", "", "JBSWY3DPEHPK3PXP"),
            e("Google", "carol", "", ""),
            e("Google", "dave", "", "GEZDGNBV"),
            e("Google", "grace", "", "GEZDGNBV"),
        ]
    );
    for a in &st.accounts {
        assert_eq!((a.digits, a.period), (6, 30));
        assert_eq!(a.id.len(), 17);
    }
}

#[test]
fn bulk_import_deduplicates() {
    let mut st = state();
    st.accounts.push(Account {
        id: "1".into(),
        issuer: "google".into(),
        name: "ALICE".into(),
        password: "pw".into(),
        secret: "JBSWY3DP".into(),
        digits: 6,
        period: 30,
    });
    let count = st.bulk_import("alice:pw:JBSWY3DP\nbob:x\nBOB:x\nbob:X\nALICE::JBSWY3DP");
    assert_eq!(count, 2);
    assert_eq!(entries(&st)[1], e("Google", "alice", "", "JBSWY3DP"));
    assert_eq!(entries(&st)[2], e("Google", "bob", "", ""));
}

#[test]
fn bulk_import_readme_example_ignores_passwords() {
    let mut st = state();
    let text = "Alice:pass123:JBSWY3DPEHPK3PXP\nBob:pass456:KRMVATZTJFZUC4BY\nCharlie:pass789:GEZDGNBVGY3TQOJQ";
    assert_eq!(st.bulk_import(text), 3);
    let names: Vec<&str> = st.accounts.iter().map(|a| a.name.as_str()).collect();
    assert_eq!(names, vec!["Alice", "Bob", "Charlie"]);
    let secrets: Vec<&str> = st.accounts.iter().map(|a| a.secret.as_str()).collect();
    assert_eq!(secrets, vec!["JBSWY3DPEHPK3PXP", "KRMVATZTJFZUC4BY", "GEZDGNBVGY3TQOJQ"]);
    assert!(st.accounts.iter().all(|a| a.issuer == "Google" && a.password.is_empty()));
}

#[test]
fn reimport_adds_nothing() {
    let mut st = state();
    let text = "a:1\nb:2:JBSWY3DP\nc:JBSWY3DPEHPK3PXP";
    assert_eq!(st.bulk_import(text), 3);
    assert_eq!(st.bulk_import(text), 0);
    assert_eq!(st.accounts.len(), 3);
}

#[test]
fn empty_import() {
    let mut st = state();
    assert_eq!(st.bulk_import(""), 0);
    assert_eq!(st.bulk_import("\n\n"), 0);
    assert!(st.accounts.is_empty());
}

#[test]
fn export_format_and_count() {
    let mut st = state();
    let mk = |name: &str, password: &str, secret: &str| Account {
        id: "1".into(),
        issuer: "I".into(),
        name: name.into(),
        password: password.into(),
        secret: secret.into(),
        digits: 6,
        period: 30,
    };
    st.accounts = vec![mk("a", "pw", ""), mk("b", "", "SECRET"), mk("c", "pw", "SECRET"), mk("d", " ", " ")];
    let (text, count) = st.export_accounts();
    assert_eq!(text, "a:pw\nb:SECRET\nc:pw:SECRET\nd: ");
    assert_eq!(count, 4);
    assert_eq!(state().export_accounts(), (String::new(), 0));
}

#[test]
fn export_then_import_round_trip() {
    let mut st = state();
    st.add_account("GitHub".into(), "alice".into(), Some("pw:with:colons".into()), Some("JBSWY3DP".into())).unwrap();
    st.add_account("X".into(), "bob".into(), None, Some("JBSWY3DPEHPK3PXP".into())).unwrap();
    st.add_account("Y".into(), "carol".into(), Some("hunter2".into()), None).unwrap();
    let (text, _) = st.export_accounts();
    let mut fresh = state();
    assert_eq!(fresh.bulk_import(&text), 3);
    let back: Vec<(String, String)> =
        fresh.accounts.iter().map(|a| (a.name.clone(), a.secret.clone())).collect();
    let orig: Vec<(String, String)> =
        st.accounts.iter().map(|a| (a.name.clone(), a.secret.clone())).collect();
    assert_eq!(back, orig);
    assert!(fresh.accounts.iter().all(|a| a.password.is_empty()));
    assert!(fresh.accounts.iter().all(|a| a.issuer == "Google"));
}

#[test]
fn export_then_import_of_no_accounts() {
    let (text, count) = state().export_accounts();
    assert_eq!(count, 0);
    let mut fresh = state();
    assert_eq!(fresh.bulk_import(&text), 0);
    assert!(fresh.accounts.is_empty());
}

#[test]
fn import_file_extensions() {
    assert!(is_text_import_extension(Some("txt")));
    assert!(is_text_import_extension(Some("csv")));
    assert!(!is_text_import_extension(Some("TXT")));
    assert!(!is_text_import_extension(Some("json")));
    assert!(!is_text_import_extension(None));
}
