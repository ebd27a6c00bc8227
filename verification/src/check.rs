//! The verdict of `tlarc check`: a summary, for scripts and the harness,
//! of how the SANY bridge judged a spec. The `.cfg` file is echoed but not interpreted.

use vstd::prelude::*;
use crate::VERSION;
use crate::ast::Document;
use crate::bridge::BridgeError;
use crate::text::str_equal;

verus! {

/// The status of a spec that SANY parsed and analyzed.
pub const STATUS_OK: &'static str = "ok";

/// The status of a spec that the bridge could not parse.
pub const STATUS_PARSE_ERROR: &'static str = "parse_error";

/// Counts of the definitions SANY resolved in the root module.
#[derive(Debug, Clone, PartialEq)]
pub struct DefCounts {
    pub operators: usize,
    pub variables: usize,
    pub constants: usize,
}

/// The machine-readable result of `tlarc check`.
#[derive(Debug, Clone, PartialEq)]
pub struct CheckVerdict {
    pub version: &'static str,
    /// `"ok"` when SANY parsed and analyzed the spec; `"parse_error"` otherwise.
    pub status: &'static str,
    pub spec: String,
    pub config: String,
    /// Present iff `status == "ok"`.
    pub schema: Option<String>,
    /// Present iff `status == "ok"`.
    pub module: Option<String>,
    /// Present iff `status == "ok"`.
    pub counts: Option<DefCounts>,
    /// Present iff `status == "parse_error"`.
    pub error: Option<String>,
}

/// Summarize the bridge's parse of `spec` (run with `config`) as a verdict.
/// `parsed` is what the bridge gave back for the spec.
pub fn check_spec(spec: &str, config: &str, parsed: Result<Document, BridgeError>) -> (r:
    CheckVerdict)
    ensures
        r.version == VERSION,
        r.spec@ == spec@,
        r.config@ == config@,
        r.status == STATUS_OK || r.status == STATUS_PARSE_ERROR,
        r.schema is Some <==> r.status == STATUS_OK,
        r.module is Some <==> r.status == STATUS_OK,
        r.counts is Some <==> r.status == STATUS_OK,
        r.error is Some <==> r.status == STATUS_PARSE_ERROR,
        match parsed {
            Ok(doc) => {
                &&& r.status == STATUS_OK
                &&& r.schema == Some(doc.schema)
                &&& r.module == Some(doc.module.name)
                &&& r.counts == Some(
                    DefCounts {
                        operators: doc.module.operators.len(),
                        variables: doc.module.variables.len(),
                        constants: doc.module.constants.len(),
                    },
                )
                &&& r.error is None
            },
            Err(e) => {
                &&& r.status == STATUS_PARSE_ERROR
                &&& r.schema is None
                &&& r.module is None
                &&& r.counts is None
                &&& r.error == Some(e.message)
            },
        },
{
    match parsed {
        Ok(doc) => {
            let counts = DefCounts {
                operators: doc.module.operators.len(),
                variables: doc.module.variables.len(),
                constants: doc.module.constants.len(),
            };
            CheckVerdict {
                version: VERSION,
                status: STATUS_OK,
                spec: spec.to_owned(),
                config: config.to_owned(),
                schema: Some(doc.schema),
                module: Some(doc.module.name),
                counts: Some(counts),
                error: None,
            }
        },
        Err(e) => CheckVerdict {
            version: VERSION,
            status: STATUS_PARSE_ERROR,
            spec: spec.to_owned(),
            config: config.to_owned(),
            schema: None,
            module: None,
            counts: None,
            error: Some(e.message),
        },
    }
}

/// The exit code of `tlarc check` for a spec that SANY accepted.
pub const EXIT_OK: i32 = 0;

/// The exit code of `tlarc check` for a SANY parse or analysis error.
pub const EXIT_PARSE_ERROR: i32 = 1;

/// The exit code of `tlarc check` when the bridge is unavailable or on an
/// internal error.
pub const EXIT_INTERNAL: i32 = 3;

/// The exit code for a verdict status: 0 for `"ok"`, 1 for
/// `"parse_error"`, 3 for any other status.
pub open spec fn exit_code_of(status: Seq<char>) -> i32 {
    if status == STATUS_OK@ {
        EXIT_OK
    } else if status == STATUS_PARSE_ERROR@ {
        EXIT_PARSE_ERROR
    } else {
        EXIT_INTERNAL
    }
}

/// The exit code `tlarc check` ends with for a verdict.
pub fn check_exit_code(verdict: &CheckVerdict) -> (r: i32)
    ensures
        r == exit_code_of(verdict.status@),
{
    if str_equal(verdict.status, STATUS_OK) {
        EXIT_OK
    } else if str_equal(verdict.status, STATUS_PARSE_ERROR) {
        EXIT_PARSE_ERROR
    } else {
        EXIT_INTERNAL
    }
}

/// The exit code of a `tlarc check` run: 3 when the bridge could not be
/// found (the verdict then carries why), otherwise that of its verdict.
pub fn run_exit_code(bridge_found: bool, verdict: &CheckVerdict) -> (r: i32)
    ensures
        r == if bridge_found {
            exit_code_of(verdict.status@)
        } else {
            EXIT_INTERNAL
        },
{
    if bridge_found {
        check_exit_code(verdict)
    } else {
        EXIT_INTERNAL
    }
}

/// Law: the verdict of a parsed spec exits with 0 and that of a spec the
/// bridge could not parse exits with 1 (so, with `check_spec`, `tlarc
/// check` exits with 0 exactly when the bridge parsed the spec).
pub proof fn lemma_status_exit_codes()
    ensures
        exit_code_of(STATUS_OK@) == EXIT_OK,
        exit_code_of(STATUS_PARSE_ERROR@) == EXIT_PARSE_ERROR,
{
    reveal_strlit("ok");
    reveal_strlit("parse_error");
    assert(STATUS_OK@.len() != STATUS_PARSE_ERROR@.len());
}

} // verus!
