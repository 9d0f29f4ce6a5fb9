//! Updater settings, the result of an update check, and application facts.

use vstd::prelude::*;
use crate::text::{chars_of, is_blank, is_blank_text, push_char};
use crate::account::AppState;

verus! {

/// The public key that release updates are signed with, unless the build sets
/// another one.
pub const DEFAULT_UPDATER_PUBKEY: &'static str = "dW50cnVzdGVkIGNvbW1lbnQ6IG1pbmlzaWduIHB1YmxpYyBrZXk6IEM0OEQ0NzA0OUIzREMyRTUKUldUbHdqMmJCRWVOeEUzbEZodFhrZXRXVEJKblRqOVRtNVEwcWdTY2NvRGs1eVYyVkdXYUpiYmIK";

/// Where the description of the latest release is fetched from, unless the build sets another place.
pub const DEFAULT_UPDATER_ENDPOINT: &'static str = "https://github.com/designer9999/authenticator/releases/latest/download/latest.json";

/// `s.replace("\\n", "\n")`: every two-character sequence backslash, `n` (left to
/// right, not overlapping) becomes a line feed.
pub open spec fn unescape_newlines(s: Seq<char>) -> Seq<char>
    decreases s.len(),
{
    if s.len() == 0 {
        s
    } else if s.len() >= 2 && s[0] == '\\' && s[1] == 'n' {
        seq!['\n'] + unescape_newlines(s.skip(2))
    } else {
        seq![s[0]] + unescape_newlines(s.drop_first())
    }
}

fn unescape_newlines_text(s: &str) -> (r: String)
    ensures
        r@ == unescape_newlines(s@),
{
    let cs = chars_of(s);
    let n = cs.len();
    let mut out = String::new();
    let mut i: usize = 0;
    assert(cs@.skip(0) =~= cs@);
    while i < n
        invariant
            n == cs@.len(),
            cs@ == s@,
            i <= n,
            out@ + unescape_newlines(cs@.skip(i as int)) == unescape_newlines(s@),
        decreases n - i,
    {
        let ghost rest = cs@.skip(i as int);
        if i + 1 < n && cs[i] == '\\' && cs[i + 1] == 'n' {
            assert(rest.skip(2) =~= cs@.skip(i + 2));
            push_char(&mut out, '\n');
            assert(out@ + unescape_newlines(cs@.skip(i + 2)) =~= unescape_newlines(s@));
            i += 2;
        } else {
            assert(rest.drop_first() =~= cs@.skip(i + 1));
            push_char(&mut out, cs[i]);
            assert(out@ + unescape_newlines(cs@.skip(i + 1)) =~= unescape_newlines(s@));
            i += 1;
        }
    }
    assert(cs@.skip(i as int) =~= Seq::<char>::empty());
    assert(out@ + Seq::<char>::empty() =~= out@);
    out
}

/// The updater public key: the one set at build time (with `\n` escapes turned
/// into line feeds) or else the default one; none when that is blank.
pub open spec fn updater_pubkey_spec(configured: Option<Seq<char>>) -> Option<Seq<char>> {
    let key = match configured {
        Some(c) => unescape_newlines(c),
        None => DEFAULT_UPDATER_PUBKEY@,
    };
    if is_blank(key) {
        None
    } else {
        Some(key)
    }
}

/// The updater public key, from the key set at build time, if any.
pub fn updater_pubkey(configured: Option<&str>) -> (r: Option<String>)
    ensures
        match r {
            Some(k) => updater_pubkey_spec(match configured { Some(c) => Some(c@), None => None }) == Some(k@),
            None => updater_pubkey_spec(match configured { Some(c) => Some(c@), None => None }) is None,
        },
{
    let key = match configured {
        Some(c) => unescape_newlines_text(c),
        None => String::from_str(DEFAULT_UPDATER_PUBKEY),
    };
    if is_blank_text(key.as_str()) {
        None
    } else {
        Some(key)
    }
}

proof fn lemma_defaults_not_blank()
    ensures
        !is_blank(DEFAULT_UPDATER_PUBKEY@),
        !is_blank(DEFAULT_UPDATER_ENDPOINT@),
{
    reveal_strlit("dW50cnVzdGVkIGNvbW1lbnQ6IG1pbmlzaWduIHB1YmxpYyBrZXk6IEM0OEQ0NzA0OUIzREMyRTUKUldUbHdqMmJCRWVOeEUzbEZodFhrZXRXVEJKblRqOVRtNVEwcWdTY2NvRGs1eVYyVkdXYUpiYmIK");
    reveal_strlit("https://github.com/designer9999/authenticator/releases/latest/download/latest.json");
    assert(!crate::text::is_white_space(DEFAULT_UPDATER_PUBKEY@[0]));
    assert(!crate::text::is_white_space(DEFAULT_UPDATER_ENDPOINT@[0]));
}

/// Without a key set at build time the default key is used.
pub proof fn lemma_default_pubkey_used()
    ensures
        updater_pubkey_spec(None) == Some(DEFAULT_UPDATER_PUBKEY@),
{
    lemma_defaults_not_blank();
}

/// The updater endpoint: the one set at build time unless it is blank, else the
/// default one; it is never blank.
pub fn updater_endpoint<'a>(configured: Option<&'a str>) -> (r: &'a str)
    ensures
        !is_blank(r@),
        r@ == match configured {
            Some(c) => if is_blank(c@) {
                DEFAULT_UPDATER_ENDPOINT@
            } else {
                c@
            },
            None => DEFAULT_UPDATER_ENDPOINT@,
        },
{
    proof {
        lemma_defaults_not_blank();
    }
    match configured {
        Some(c) => if is_blank_text(c) {
            DEFAULT_UPDATER_ENDPOINT
        } else {
            c
        },
        None => DEFAULT_UPDATER_ENDPOINT,
    }
}

/// What an update check found.
#[derive(Debug)]
pub struct UpdateCheckResult {
    pub configured: bool,
    pub available: bool,
    pub current_version: String,
    pub latest_version: Option<String>,
    pub notes: Option<String>,
    pub published_at: Option<String>,
    pub message: String,
}

impl UpdateCheckResult {
    /// No updater key in this build: nothing was checked.
    pub fn not_configured(current_version: String) -> (r: Self)
        ensures
            !r.configured,
            !r.available,
            r.current_version == current_version,
            r.latest_version is None,
            r.notes is None,
            r.published_at is None,
            r.message@ == "Automatic updates are not configured in this build"@,
    {
        UpdateCheckResult {
            configured: false,
            available: false,
            current_version,
            latest_version: None,
            notes: None,
            published_at: None,
            message: String::from_str("Automatic updates are not configured in this build"),
        }
    }

    /// A newer release `version` exists.
    pub fn update_available(
        current_version: String,
        version: String,
        notes: Option<String>,
        published_at: Option<String>,
    ) -> (r: Self)
        ensures
            r.configured,
            r.available,
            r.current_version == current_version,
            r.latest_version == Some(version),
            r.notes == notes,
            r.published_at == published_at,
            r.message@ == "Update available: v"@ + version@,
    {
        let message = String::from_str("Update available: v").concat(version.as_str());
        UpdateCheckResult {
            configured: true,
            available: true,
            current_version,
            latest_version: Some(version),
            notes,
            published_at,
            message,
        }
    }

    /// The running version is the latest one.
    pub fn up_to_date(current_version: String) -> (r: Self)
        ensures
            r.configured,
            !r.available,
            r.current_version == current_version,
            r.latest_version is None,
            r.notes is None,
            r.published_at is None,
            r.message@ == "You're on the latest version ("@ + current_version@ + ")"@,
    {
        let message = String::from_str("You're on the latest version (").concat(
            current_version.as_str(),
        ).concat(")");
        UpdateCheckResult {
            configured: true,
            available: false,
            current_version,
            latest_version: None,
            notes: None,
            published_at: None,
            message,
        }
    }
}

/// Facts about the running application.
#[derive(Debug)]
pub struct AppInfo {
    pub version: String,
    pub account_count: usize,
    pub data_path: String,
}

impl AppState {
    /// The application facts: its version, how many accounts there are, and the
    /// data directory.
    pub fn app_info(&self, version: String, data_path: String) -> (info: AppInfo)
        ensures
            info.version == version,
            info.account_count == self.accounts@.len(),
            info.data_path == data_path,
    {
        AppInfo { version, account_count: self.accounts.len(), data_path }
    }
}

} // verus!
