//! Rockmail: the verified logic of procmail-style mail handling: the
//! rcfile grammar and the decisions of recipe evaluation, header-field
//! editing, mailbox splitting, duplicate detection and log bookkeeping.

pub mod num;
pub mod text;
pub mod cli;
pub mod config;
pub mod dedup;
pub mod delivery;
pub mod engine;
pub mod field;
pub mod formail;
pub mod locking;
pub mod lockfile;
pub mod mailstat;
mod system;
