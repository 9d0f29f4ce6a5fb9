# authenticator

The core of a desktop TOTP authenticator, written in Verus. The logic in
`src/` carries contracts that Verus proves; the few trusted wrappers around
the outside crates and std (clock, random numbers, base32 decoding,
HMAC-SHA1, Unicode upper case, appending a character to a `String`) are
assumed, not proved, and their doc comments say what is assumed.

- `src/text.rs`, `src/number.rs`: white space, trimming, ASCII case, decimal text
  and `i64` parsing, stated over `Seq<char>`.
- `src/secret.rs`: normalising a typed base32 secret (`clean_secret`) and
  recognising text that looks like one.
- `src/totp.rs`: HOTP/TOTP codes (RFC 4226, RFC 6238) over HMAC-SHA1.
- `src/clock.rs`: the system clock and account identifiers.
- `src/account.rs`, `src/codes.rs`: accounts, the application state and its
  operations, and the list of accounts with their current codes.
- `src/import.rs`: the `name:password:secret` text format of bulk import and
  export.
- `src/update.rs`: updater settings and update-check results.
- `app/`: the Tauri shell (storage on disk, commands, updater), plain Rust.

The outside crates `data-encoding`, `hmac`, `sha1`, `chrono` and `rand` are
called through small trusted wrappers whose doc comments say what is assumed.
