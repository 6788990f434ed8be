//! The schema check of the font database.

use vstd::prelude::*;
use crate::text::{chars_of, parse_i32, spec_parse_i32};

verus! {

/// The schema version that this library writes and reads.
pub const CURRENT_SCHEMA_VERSION: i32 = 1;

/// Whether a database is of the current schema: it has a `meta` table
/// (`meta_tables` counts them) whose schema version parses as an integer
/// equal to `CURRENT_SCHEMA_VERSION`. `schema_version` is the stored text,
/// `None` where it could not be read.
pub fn check_schema_version(meta_tables: i32, schema_version: Option<&str>) -> (r: bool)
    ensures
        r == (meta_tables != 0 && (schema_version matches Some(v) && spec_parse_i32(v@) == Some(CURRENT_SCHEMA_VERSION))),
{
    if meta_tables == 0 {
        return false;
    }
    match schema_version {
        None => false,
        Some(text) => {
            let chars = chars_of(text);
            assert(chars@.subrange(0, chars@.len() as int) =~= chars@);
            match parse_i32(&chars, 0, chars.len()) {
                Some(ver) => ver == CURRENT_SCHEMA_VERSION,
                None => false,
            }
        },
    }
}

} // verus!
