//! Errors of the `sany-json` bridge client, which runs the Java bridge as a
//! subprocess and reads its JSON stdout into the AST.

use vstd::prelude::*;
use vstd::string::StringExecFns;
use crate::text::{trim, trim_str};

verus! {

/// What prefixes the message of a bridge run that exited with failure.
pub const BRIDGE_EXITED: &'static str = "bridge exited with ";

/// What prefixes the message of bridge output that is not valid JSON.
pub const BRIDGE_INVALID_JSON: &'static str = "bridge emitted invalid JSON: ";

/// A failure to invoke the bridge or to interpret its output.
#[derive(Debug, Clone, PartialEq)]
pub struct BridgeError {
    pub message: String,
}

impl BridgeError {
    /// A bridge error with the given message.
    pub fn new(message: String) -> (r: Self)
        ensures
            r.message == message,
    {
        BridgeError { message }
    }
}

/// The error for a bridge run that exited with `status` (as the process
/// status displays itself): the status and the bridge's stderr, trimmed.
pub fn exit_error(status: &str, stderr: &str) -> (r: BridgeError)
    ensures
        r.message@ == BRIDGE_EXITED@ + status@ + ": "@ + trim(stderr@),
{
    let mut m = String::from_str(BRIDGE_EXITED);
    m.append(status);
    m.append(": ");
    let t = trim_str(stderr);
    m.append(t.as_str());
    BridgeError::new(m)
}

/// The error for bridge output that JSON parsing refused with `detail`.
pub fn invalid_json_error(detail: &str) -> (r: BridgeError)
    ensures
        r.message@ == BRIDGE_INVALID_JSON@ + detail@,
{
    let mut m = String::from_str(BRIDGE_INVALID_JSON);
    m.append(detail);
    BridgeError::new(m)
}

} // verus!
