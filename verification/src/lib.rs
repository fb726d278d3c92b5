//! Incremental IMAP to Maildir archive (like mbsync, pull-only): its rules, names and decisions.
//!
//! One JSON config lists any number of IMAP accounts; each gets its own directory below the
//! Maildir root (`<maildir>/<account name>/INBOX/{cur,new,tmp}`).
//!
//! It is an archive, not a mirror: a message that disappears server-side stays on disk
//! unless the account sets `"expunge": true`, a changed UIDVALIDITY makes the folder stop
//! rather than delete anything, and every message is fsynced before its name becomes visible.
//!
//! Nothing here reads or writes anything: what is to be done outside is returned as a value, and
//! what has happened there is taken in as one.

pub mod archive;
pub mod backfill;
pub mod backoff;
pub mod comments;
pub mod config;
pub mod durable;
pub mod folder;
pub mod hook;
pub mod job;
pub mod maildir;
pub mod path;
pub mod sync;
pub mod text;
