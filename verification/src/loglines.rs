//! Value checks for the structured log-line schema: the checks that every
//! emitted log line is held to, on the plain values a caller has parsed
//! out of it.

use vstd::prelude::*;

use crate::strutil::str_eq;

verus! {

/// The log schema version the checks expect.
pub const EXPECTED_LOG_VERSION: i64 = 2;

/// The levels a log line may carry.
pub open spec fn spec_level_ok(level: Seq<char>) -> bool {
    ||| level == "debug"@
    ||| level == "info"@
    ||| level == "warn"@
    ||| level == "error"@
}

/// Whether the plain fields of a log line carry the expected values: the
/// expected schema version, the fixed line type, and a known level.
pub open spec fn spec_log_line_values_ok(
    log_version: i64,
    line_type: Seq<char>,
    level: Seq<char>,
) -> bool {
    &&& log_version == EXPECTED_LOG_VERSION
    &&& line_type == "log_line"@
    &&& spec_level_ok(level)
}

/// Decides whether a log line's plain fields carry the expected values.
pub fn log_line_values_ok(log_version: i64, line_type: &str, level: &str) -> (r: bool)
    ensures
        r == spec_log_line_values_ok(log_version, line_type@, level@),
{
    if log_version != EXPECTED_LOG_VERSION {
        return false;
    }
    if !str_eq(line_type, "log_line") {
        return false;
    }
    str_eq(level, "debug") || str_eq(level, "info") || str_eq(level, "warn") || str_eq(
        level,
        "error",
    )
}

} // verus!
