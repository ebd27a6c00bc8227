//! tlarc: the verified core of a TLA+ model checker front end.
//!
//! The library holds the TLA+ value order, the AST of the `tla-ast/v1`
//! bridge schema, the verdict of `tlarc check`, and the reading of Java
//! TLC's textual output used by the differential harness.

pub mod ast;
pub mod bridge;
pub mod check;
pub mod diff;
pub mod text;
pub mod value;

use vstd::prelude::*;

verus! {

/// The tlarc version, kept equal to the package version.
pub const VERSION: &'static str = "0.0.0";

/// Path to the `tla2tools.jar` used by the Java SANY bridge,
/// relative to the repository root.
pub const TLA2TOOLS_JAR_RELPATH: &'static str = "bridge/lib/tla2tools.jar";

} // verus!
