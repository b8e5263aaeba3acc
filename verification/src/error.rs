//! What the library reports when it refuses an input.
use vstd::prelude::*;

verus! {

#[derive(Debug)]
pub enum Error {
    /// Text that names no value of the kind expected.
    Parse { kind: &'static str, value: String },
    /// No directory to keep the database in.
    NoDataDir,
    /// A schema version below zero.
    MigrationVersion(i64),
    /// A schema version above the newest this code knows.
    DatabaseVersion(i64),
}

} // verus!
