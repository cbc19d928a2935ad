//! Core rules of a Linux junk-file cleaner: which directories hold junk,
//! how big they are, what a cleaning run removes and how the results are
//! presented. Everything here works on snapshots of the file system and on
//! plain text handed in by the caller; reading and deleting stay outside.

pub mod clean;
pub mod logs;
pub mod report;
pub mod run;
pub mod scan;
pub mod sysinfo;
pub mod text;
pub mod tree;

