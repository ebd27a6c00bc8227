use tlarc::{TLA2TOOLS_JAR_RELPATH, VERSION};

#[test]
fn version_is_nonempty() {
    assert!(!VERSION.is_empty());
}

#[test]
fn jar_relpath_is_pinned() {
    assert_eq!(TLA2TOOLS_JAR_RELPATH, "bridge/lib/tla2tools.jar");
}
