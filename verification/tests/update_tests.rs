use authenticator::account::{AppConfig, AppState};
use authenticator::update::{
    updater_endpoint, updater_pubkey, UpdateCheckResult, DEFAULT_UPDATER_ENDPOINT, DEFAULT_UPDATER_PUBKEY,
};

#[test]
fn pubkey_defaults_and_unescapes() {
    assert_eq!(updater_pubkey(None), Some(DEFAULT_UPDATER_PUBKEY.to_string()));
    assert_eq!(updater_pubkey(Some("a\\nb")), Some("a\nb".to_string()));
    assert_eq!(updater_pubkey(Some("a\\\\nb")), Some("a\\\nb".to_string()));
    assert_eq!(updater_pubkey(Some("   ")), None);
    assert_eq!(updater_pubkey(Some("\\n")), None);
    assert_eq!(updater_pubkey(Some("")), None);
    let key = "x\\ny\\n";
    assert_eq!(updater_pubkey(Some(key)), Some(key.replace("\\n", "\n")));
}

#[test]
fn endpoint_defaults() {
    assert_eq!(updater_endpoint(None), DEFAULT_UPDATER_ENDPOINT);
    assert_eq!(updater_endpoint(Some(" ")), DEFAULT_UPDATER_ENDPOINT);
    assert_eq!(updater_endpoint(Some("https://x/y.json")), "https://x/y.json");
}

#[test]
fn update_check_results() {
    let r = UpdateCheckResult::not_configured("1.2.3".into());
    assert!(!r.configured && !r.available);
    assert_eq!(r.message, "Automatic updates are not configured in this build");
    assert_eq!(r.current_version, "1.2.3");
    let r = UpdateCheckResult::update_available("1.0.0".into(), "1.1.0".into(), Some("notes".into()), None);
    assert!(r.configured && r.available);
    assert_eq!(r.message, "Update available: v1.1.0");
    assert_eq!(r.latest_version.as_deref(), Some("1.1.0"));
    assert_eq!(r.notes.as_deref(), Some("notes"));
    let r = UpdateCheckResult::up_to_date("2.0.0".into());
    assert!(r.configured && !r.available);
    assert_eq!(r.message, "You're on the latest version (2.0.0)");
    assert!(r.latest_version.is_none());
}

#[test]
fn app_info_counts_accounts() {
    let st = AppState { accounts: Vec::new(), config: AppConfig::default() };
    let info = st.app_info("0.1.0".into(), "/data".into());
    assert_eq!(info.account_count, 0);
    assert_eq!(info.version, "0.1.0");
    assert_eq!(info.data_path, "/data");
}
