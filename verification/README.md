# tlarc

The verified core of `tlarc`, a TLA+ model checker front end that is tested
differentially against Java TLC.

- `src/` is the library, verified with Verus:
  - `value`: TLA+ values and the TLA+ value order (FALSE < TRUE < integers <
    strings), with proofs that it is a total order.
  - `ast`: the `tla-ast/v1` AST that the SANY bridge emits.
  - `bridge`: the bridge's error type and messages.
  - `check`: the verdict of `tlarc check` from the bridge's parse result,
    and its exit code.
  - `diff`: reading TLC's textual output (verdict, state counts, first error
    line), reading the JSON verdict of a `tlarc check` run (through
    `serde_json`), choosing and ordering the corpus's spec files, and the
    harness's per-spec and summary decisions.
  - `text`: character-level search, line and trimming utilities, with their
    laws.
- `app/` is the command line and the differential harness: processes, files,
  environment, JSON (de)serialization into and from serde copies of the library
  types. It starts the harness when run under the name `tlarc-test-harness`.
- `tests/` runs the library on concrete inputs.
