//! Resolves a path pattern whose wildcard segment stands for a
//! version-numbered directory, picking the highest version, and prepares the
//! launch of the executable found there.  Pattern parsing, version ordering
//! and candidate selection are verified; directory listing, existence checks
//! and process creation are left to the surrounding binary, which hands this
//! library plain values.

pub mod pattern;
pub mod platform;
pub mod resolve;
pub mod text;
pub mod version;
