use authenticator::account::{account_exists, Account, AccountError, AppConfig, AppState};
use authenticator::codes::{account_code, created_at};
use authenticator::secret::SecretError;

fn state() -> AppState {
    AppState { accounts: Vec::new(), config: AppConfig::default() }
}

fn account(id: &str, issuer: &str, name: &str, password: &str, secret: &str) -> Account {
    Account {
        id: id.to_string(),
        issuer: issuer.to_string(),
        name: name.to_string(),
        password: password.to_string(),
        secret: secret.to_string(),
        digits: 6,
        period: 30,
    }
}

#[test]
fn default_account() {
    let a = Account::default();
    assert_eq!(a.digits, 6);
    assert_eq!(a.period, 30);
    assert!(a.id.is_empty() && a.issuer.is_empty() && a.name.is_empty());
    assert!(a.password.is_empty() && a.secret.is_empty());
}

#[test]
fn config_path() {
    let mut c = AppConfig::default();
    assert_eq!(c.custom_data_path(), None);
    c.set_custom_data_path("/data".to_string());
    assert_eq!(c.custom_data_path(), Some("/data".to_string()));
    assert_eq!(AppConfig::new(Some("x".to_string())).custom_data_path(), Some("x".to_string()));
}

#[test]
fn exists_ignores_ascii_case_of_issuer_and_name_only() {
    let accounts = vec![account("1", "GitHub", "Alice", "pw", "JBSWY3DP")];
    assert!(account_exists(&accounts, "github", "ALICE", "pw", "JBSWY3DP"));
    assert!(!account_exists(&accounts, "github", "alice", "PW", "JBSWY3DP"));
    assert!(!account_exists(&accounts, "github", "alice", "pw", "jbswy3dp"));
    assert!(!account_exists(&[], "a", "b", "c", "d"));
}

#[test]
fn add_account_adds_and_deduplicates() {
    let mut st = state();
    let added = st
        .add_account("GitHub".into(), "alice".into(), None, Some(" jbsw y3dp ".into()))
        .unwrap();
    assert!(added);
    assert_eq!(st.accounts.len(), 1);
    let a = &st.accounts[0];
    assert_eq!(a.issuer, "GitHub");
    assert_eq!(a.name, "alice");
    assert_eq!(a.password, "");
    assert_eq!(a.secret, "JBSWY3DP");
    assert_eq!((a.digits, a.period), (6, 30));
    assert_eq!(a.id.len(), 17);
    let again = st
        .add_account("GITHUB".into(), "Alice".into(), Some(String::new()), Some("JBSWY3DP".into()))
        .unwrap();
    assert!(!again);
    assert_eq!(st.accounts.len(), 1);
}

#[test]
fn add_account_blank_secret_is_empty() {
    let mut st = state();
    assert!(st.add_account("X".into(), "y".into(), Some("pw".into()), Some("   ".into())).unwrap());
    assert_eq!(st.accounts[0].secret, "");
    assert_eq!(st.accounts[0].password, "pw");
}

#[test]
fn add_account_refuses_bad_secret() {
    let mut st = state();
    let r = st.add_account("X".into(), "y".into(), None, Some("not-base32".into()));
    assert!(matches!(r, Err(SecretError::InvalidBase32(_))));
    assert!(st.accounts.is_empty());
}

#[test]
fn add_account_cleans_secret_and_makes_digit_id() {
    let mut st = state();
    let added = st
        .add_account("GitHub".into(), "bob".into(), None, Some(" jbsw y3dp ehpk 3pxp ".into()))
        .unwrap();
    assert!(added);
    assert_eq!(st.accounts.len(), 1);
    let a = &st.accounts[0];
    assert_eq!(a.secret, "JBSWY3DPEHPK3PXP");
    assert_eq!(a.password, "");
    assert!(!a.id.is_empty() && a.id.chars().all(|c| c.is_ascii_digit()));
}

#[test]
fn add_account_refuses_wrong_symbol_count() {
    let mut st = state();
    let r = st.add_account("X".into(), "y".into(), None, Some("JBSWY3DPEHPK3PXPA".into()));
    assert!(matches!(r, Err(SecretError::InvalidBase32(_))));
    assert!(st.accounts.is_empty());
}

#[test]
fn remove_account_removes_all_with_id() {
    let mut st = state();
    st.accounts = vec![
        account("1", "a", "n1", "", ""),
        account("2", "b", "n2", "", ""),
        account("1", "c", "n3", "", ""),
    ];
    st.remove_account("1");
    assert_eq!(st.accounts.len(), 1);
    assert_eq!(st.accounts[0].id, "2");
    assert!(matches!(st.get_account_details("1"), Err(AccountError::NotFound)));
    st.remove_account("zzz");
    assert_eq!(st.accounts.len(), 1);
}

#[test]
fn edit_account_cases() {
    let mut st = state();
    st.accounts = vec![account("1", "a", "n1", "pw", "JBSWY3DP"), account("2", "b", "n2", "", "")];
    assert!(matches!(
        st.edit_account("9", "x".into(), "y".into(), None, None),
        Err(AccountError::NotFound)
    ));
    st.edit_account("1", "GitHub".into(), "alice".into(), None, Some("gezd gnbv".into())).unwrap();
    let a = &st.accounts[0];
    assert_eq!((a.issuer.as_str(), a.name.as_str(), a.password.as_str()), ("GitHub", "alice", "pw"));
    assert_eq!(a.secret, "GEZDGNBV");
    st.edit_account("1", "I".into(), "N".into(), Some("new".into()), Some(" ".into())).unwrap();
    assert_eq!(st.accounts[0].secret, "");
    assert_eq!(st.accounts[0].password, "new");
    // A refused secret: the other fields are already changed, the secret is kept.
    st.accounts[0].secret = "JBSWY3DP".to_string();
    let r = st.edit_account("1", "I2".into(), "N2".into(), None, Some("1!".into()));
    match r {
        Err(e @ AccountError::InvalidSecret(_)) => {
            assert!(e.message().starts_with("Invalid base32 secret: "))
        }
        other => panic!("unexpected {:?}", other),
    }
    assert_eq!(st.accounts[0].issuer, "I2");
    assert_eq!(st.accounts[0].secret, "JBSWY3DP");
    assert_eq!(st.accounts[1].name, "n2");
    assert_eq!(AccountError::NotFound.message(), "Account not found");
}

#[test]
fn details_of_first_match() {
    let mut st = state();
    st.accounts = vec![account("1", "a", "n1", "p1", "S1"), account("1", "b", "n2", "p2", "S2")];
    let d = st.get_account_details("1").unwrap();
    assert_eq!((d.id.as_str(), d.issuer.as_str(), d.name.as_str()), ("1", "a", "n1"));
    assert_eq!((d.password.as_str(), d.secret.as_str()), ("p1", "S1"));
}

#[test]
fn reorder_accounts_cases() {
    let mut st = state();
    st.accounts = vec![account("1", "a", "", "", ""), account("2", "b", "", "", ""), account("3", "c", "", "", "")];
    st.reorder_accounts(&["3".to_string(), "1".to_string(), "9".to_string(), "3".to_string()]);
    let ids: Vec<&str> = st.accounts.iter().map(|a| a.id.as_str()).collect();
    assert_eq!(ids, vec!["3", "1", "3"]);
    let own: Vec<String> = st.accounts.iter().map(|a| a.id.clone()).collect();
    let before: Vec<String> = st.accounts.iter().map(|a| a.issuer.clone()).collect();
    st.reorder_accounts(&own);
    let after: Vec<String> = st.accounts.iter().map(|a| a.issuer.clone()).collect();
    assert_eq!(after, vec!["c", "a", "c"]);
    assert_eq!(before, vec!["c", "a", "c"]);
    let mut distinct = state();
    distinct.accounts = vec![account("1", "a", "", "", ""), account("2", "b", "", "", "")];
    let own: Vec<String> = distinct.accounts.iter().map(|a| a.id.clone()).collect();
    distinct.reorder_accounts(&own);
    assert_eq!(distinct.accounts.len(), 2);
    assert_eq!(distinct.accounts[1].issuer, "b");
}

#[test]
fn created_at_from_ids() {
    assert_eq!(created_at("17000000000000042"), 1700000000000);
    assert_eq!(created_at("abc"), 0);
    assert_eq!(created_at("-12"), -12);
    assert_eq!(created_at("12345678901234"), 1234567890123);
    assert_eq!(created_at(""), 0);
    let id = authenticator::clock::format_id(1712345678901, 9);
    assert_eq!(created_at(&id), 1712345678901);
}

#[test]
fn account_codes() {
    let a = account("17000000000000042", "GitHub", "alice", "pw", "GEZDGNBVGY3TQOJQGEZDGNBVGY3TQOJQ");
    let c = account_code(&a, 59);
    assert!(c.has_code);
    assert_eq!(c.code.len(), 6);
    assert_eq!(c.remaining, 30 - 59 % 30);
    assert_eq!(c.created_at, 1700000000000);
    assert_eq!((c.id.as_str(), c.issuer.as_str(), c.name.as_str(), c.password.as_str()), (a.id.as_str(), "GitHub", "alice", "pw"));
    let bad = account("x", "I", "n", "", "!!!");
    let c = account_code(&bad, 100);
    assert_eq!(c.code, "------");
    assert_eq!(c.remaining, 30 - 100 % 30);
    let none = account("x", "I", "n", "", "  ");
    let c = account_code(&none, 100);
    assert!(!c.has_code);
    assert_eq!(c.code, "");
    assert_eq!(c.remaining, 0);
}

#[test]
fn account_list() {
    let mut st = state();
    st.accounts = vec![account("1", "a", "n", "", "JBSWY3DP"), account("2", "b", "m", "", "")];
    let codes = st.get_accounts();
    assert_eq!(codes.len(), 2);
    assert!(codes[0].has_code && !codes[1].has_code);
    assert!(codes[0].remaining >= 1 && codes[0].remaining <= 30);
}
