//! The version of the stored data.

use vstd::prelude::*;

verus! {

/// Bump on any change to the tables.
pub const SCHEMA_VERSION: i64 = 6;

/// Whether a database can be used: a fresh one, or one of this version. No
/// migrations: the base is rebuilt from the export in minutes.
pub fn fits(found: i64) -> (r: bool)
    ensures
        r == (found == 0 || found == SCHEMA_VERSION),
{
    found == 0 || found == SCHEMA_VERSION
}

} // verus!
