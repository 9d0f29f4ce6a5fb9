//! Core logic of a TOTP authenticator: secret normalisation, one-time codes,
//! the account list and its bulk import/export text format.

pub mod text;
pub mod number;
pub mod secret;
pub mod clock;
pub mod totp;
pub mod account;
pub mod codes;
pub mod import;
pub mod update;
