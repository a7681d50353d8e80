//! A resumable directory-enumeration cursor for a virtual filesystem provider.
//!
//! The cursor caches the entries of one directory for one scan epoch, sorts
//! them into a case-insensitive ordinal collation, and serves them one at a
//! time to a host that may pause, resume, or restart the scan.

pub mod collation;
pub mod cursor;

pub use cursor::DirInfo;
pub use cursor::FileBasicInfo;
