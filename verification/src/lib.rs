//! Verified core of the `brain` idea store.
pub mod text;
pub mod markdown;
pub mod export;
pub mod stored;
pub mod rank;
pub mod search;
pub mod session;
pub mod admin;
