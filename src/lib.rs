//! An in-process key/value cache whose entries may carry a time to live.
//!
//! The table and the rules that keep its expiration index consistent live in
//! [`cache`]; the line-oriented request grammar of the server lives in
//! [`database`].
pub mod cache;
pub mod database;
