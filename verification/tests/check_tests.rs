use tlarc::ast::{Document, Expr, Module, OpDecl, OpDef, AST_SCHEMA};
use tlarc::bridge::{exit_error, invalid_json_error, BridgeError};
use tlarc::check::{
    check_exit_code, check_spec, run_exit_code, DefCounts, EXIT_INTERNAL, EXIT_OK, EXIT_PARSE_ERROR, STATUS_OK,
    STATUS_PARSE_ERROR,
};
use tlarc::VERSION;

fn numeral(v: &str) -> Expr {
    Expr::Numeral { value: String::from(v) }
}

fn var(name: &str) -> Expr {
    Expr::OpAppl { operator: String::from(name), args: vec![] }
}

fn trivial_document() -> Document {
    let def = |name: &str, body: Expr| OpDef {
        name: String::from(name),
        arity: 0,
        params: vec![],
        body,
    };
    Document {
        schema: String::from(AST_SCHEMA),
        module: Module {
            name: String::from("trivial"),
            constants: vec![],
            variables: vec![OpDecl {
                name: String::from("x"),
                kind: String::from("VariableDeclKind"),
            }],
            operators: vec![
                def(
                    "Init",
                    Expr::OpAppl { operator: String::from("="), args: vec![var("x"), numeral("0")] },
                ),
                def(
                    "Next",
                    Expr::LetIn {
                        defs: vec![def("y", numeral("1"))],
                        body: Box::new(Expr::String { value: String::from("s") }),
                    },
                ),
                def("Inv", Expr::Unhandled { node_type: String::from("oparg") }),
            ],
        },
    }
}

#[test]
fn ok_verdict_carries_counts() {
    // Pins the shape of the counts; `ok_verdict_from_a_parsed_document`
    // builds a whole verdict from a parsed document.
    let counts = DefCounts {
        operators: 3,
        variables: 1,
        constants: 0,
    };
    assert_eq!(counts.operators, 3);
}

#[test]
fn ok_verdict_from_a_parsed_document() {
    let v = check_spec("corpus/trivial.tla", "corpus/trivial.cfg", Ok(trivial_document()));
    assert_eq!(v.version, VERSION);
    assert_eq!(v.status, "ok");
    assert_eq!(v.status, STATUS_OK);
    assert_eq!(v.spec, "corpus/trivial.tla");
    assert_eq!(v.config, "corpus/trivial.cfg");
    assert_eq!(v.schema.as_deref(), Some("tla-ast/v1"));
    assert_eq!(v.module.as_deref(), Some("trivial"));
    assert_eq!(
        v.counts,
        Some(DefCounts { operators: 3, variables: 1, constants: 0 })
    );
    assert!(v.error.is_none());
}

#[test]
fn parse_error_verdict_carries_the_message() {
    let e = BridgeError::new(String::from("bridge exited with exit status: 1: SANY reported errors"));
    let v = check_spec("bad.tla", "trivial.cfg", Err(e));
    assert_eq!(v.status, "parse_error");
    assert_eq!(v.status, STATUS_PARSE_ERROR);
    assert!(v.schema.is_none());
    assert!(v.module.is_none());
    assert!(v.counts.is_none());
    assert_eq!(
        v.error.as_deref(),
        Some("bridge exited with exit status: 1: SANY reported errors")
    );
    assert_eq!(v.spec, "bad.tla");
}

#[test]
fn bridge_error_messages() {
    let e = exit_error("exit status: 1", "\n  SANY reported errors \n");
    assert_eq!(e.message, "bridge exited with exit status: 1: SANY reported errors");
    let e = invalid_json_error("expected value at line 1 column 1");
    assert_eq!(
        e.message,
        "bridge emitted invalid JSON: expected value at line 1 column 1"
    );
    assert!(e.message.contains("invalid JSON"));
}

#[test]
fn schema_is_pinned() {
    assert_eq!(AST_SCHEMA, "tla-ast/v1");
}

#[test]
fn exit_codes_follow_the_status() {
    let ok = check_spec("s.tla", "s.cfg", Ok(trivial_document()));
    assert_eq!(check_exit_code(&ok), 0);
    assert_eq!(check_exit_code(&ok), EXIT_OK);
    let bad = check_spec("s.tla", "s.cfg", Err(BridgeError::new(String::from("x"))));
    assert_eq!(check_exit_code(&bad), 1);
    assert_eq!(check_exit_code(&bad), EXIT_PARSE_ERROR);
    let mut other = ok.clone();
    other.status = "not_implemented";
    assert_eq!(check_exit_code(&other), 3);
    assert_eq!(check_exit_code(&other), EXIT_INTERNAL);
}

#[test]
fn documents_clone_whole() {
    let d = trivial_document();
    let c = d.clone();
    assert_eq!(c, d);
    assert_eq!(c.module.operators[1].clone(), d.module.operators[1]);
    assert_eq!(c.module.operators[1].body.clone(), d.module.operators[1].body);
}

#[test]
fn a_missing_bridge_exits_with_the_internal_code() {
    let e = BridgeError::new(String::from("cannot locate scripts/sany-json.sh"));
    let v = check_spec("s.tla", "s.cfg", Err(e));
    assert_eq!(run_exit_code(false, &v), EXIT_INTERNAL);
    assert_eq!(run_exit_code(true, &v), EXIT_PARSE_ERROR);
    let ok = check_spec("s.tla", "s.cfg", Ok(trivial_document()));
    assert_eq!(run_exit_code(true, &ok), EXIT_OK);
}
