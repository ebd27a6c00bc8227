//! Reading Java TLC's textual output into a verdict, for the differential
//! harness that runs TLC and `tlarc check` side by side.
//!
//! TLC's exit codes are raw JVM codes, not a stable verdict contract: the
//! output text is the source of truth for the verdict.

use vstd::prelude::*;
use vstd::string::StringExecFns;
use crate::check::STATUS_OK;
use crate::text::{
    chars_of, contains, find, first_line_with, first_occurrence, lemma_first_line_with,
    lemma_first_occurrence, lemma_line_bounds, lemma_lines_before, lemma_text_lines_first_line, text_lines,
    trimmed_line, lemma_line_end_past, lemma_trim_keeps_occurrence,
    line_bounds, line_end, occurs_at, line_of_first_occurrence, line_start, string_of_range,
    trim, trim_bounds, trim_str,
};

verus! {

/// The line TLC prints when model checking found no error.
pub const TLC_NO_ERROR_MARKER: &'static str = "Model checking completed. No error has been found.";

/// The marker of an error line in TLC's output.
pub const TLC_ERROR_MARKER: &'static str = "Error:";

/// What follows the count of generated states in TLC's summary line.
pub const GENERATED_STATES_MARKER: &'static str = " states generated,";

/// What follows the count of distinct states in TLC's summary line.
pub const DISTINCT_STATES_MARKER: &'static str = " distinct states found,";

/// How Java TLC itself judged the spec.
#[derive(Debug, Clone, Copy, PartialEq, Eq, Structural)]
pub enum TlcVerdict {
    /// "Model checking completed. No error has been found."
    NoError,
    /// At least one `Error:` in TLC's output.
    Error,
    /// TLC ran but produced neither marker.
    Unknown,
}

/// What Java TLC reported for one spec run.
#[derive(Debug, Clone, PartialEq)]
pub struct TlcOutcome {
    pub ran: bool,
    pub exit_code: i32,
    pub generated_states: Option<u64>,
    pub distinct_states: Option<u64>,
    pub verdict: TlcVerdict,
    /// The first `Error:` line from TLC, trimmed, when there is one.
    pub error: Option<String>,
}

/// A failure to invoke a tool, distinct from a tool rejecting a spec.
#[derive(Debug, Clone, PartialEq)]
pub struct ToolError {
    pub message: String,
}

impl ToolError {
    /// A tool error with the given message.
    pub fn new(message: String) -> (r: Self)
        ensures
            r.message == message,
    {
        ToolError { message }
    }
}

/// The characters of an optional string.
pub open spec fn opt_chars(o: Option<String>) -> Option<Seq<char>> {
    match o {
        Some(s) => Some(s@),
        None => None,
    }
}

/// An ASCII decimal digit.
pub open spec fn is_ascii_digit(c: char) -> bool {
    '0' <= c <= '9'
}

/// The start of the run of ASCII digits that ends `t`.
pub open spec fn digit_run_start(t: Seq<char>) -> int
    decreases t.len(),
{
    if t.len() > 0 && is_ascii_digit(t.last()) {
        digit_run_start(t.drop_last())
    } else {
        t.len() as int
    }
}

/// The value of a string of decimal digits.
pub open spec fn decimal_value(t: Seq<char>) -> int
    decreases t.len(),
{
    if t.len() == 0 {
        0
    } else {
        decimal_value(t.drop_last()) * 10 + (t.last() as int - '0' as int)
    }
}

/// The number written by the digits at the end of `t`, if `t` ends in a digit.
pub open spec fn trailing_number(t: Seq<char>) -> Option<int> {
    let k = digit_run_start(t);
    if k == t.len() {
        None
    } else {
        Some(decimal_value(t.subrange(k, t.len() as int)))
    }
}

/// A number when it fits in a `u64`.
pub open spec fn fit_u64(n: Option<int>) -> Option<u64> {
    match n {
        Some(v) => if 0 <= v <= u64::MAX {
            Some(v as u64)
        } else {
            None
        },
        None => None,
    }
}

/// The integer that immediately precedes the first occurrence of `needle`
/// in `haystack`: the run of ASCII digits just before it, read in decimal,
/// when that run is not empty and its value fits in a `u64`.
pub open spec fn number_before_value(haystack: Seq<char>, needle: Seq<char>) -> Option<u64> {
    match first_occurrence(haystack, needle) {
        Some(i) => fit_u64(trailing_number(haystack.take(i))),
        None => None,
    }
}

/// TLC's verdict as its output states it.
pub open spec fn tlc_verdict(output: Seq<char>) -> TlcVerdict {
    if contains(output, TLC_NO_ERROR_MARKER@) {
        TlcVerdict::NoError
    } else if contains(output, TLC_ERROR_MARKER@) {
        TlcVerdict::Error
    } else {
        TlcVerdict::Unknown
    }
}

/// The first line of the output (as `str::lines` splits it) that holds
/// `Error:`, trimmed.
pub open spec fn first_error_line(output: Seq<char>) -> Option<Seq<char>> {
    trimmed_line(first_line_with(text_lines(output), TLC_ERROR_MARKER@))
}

/// The error line is the trimmed line around the first `Error:`.
proof fn lemma_first_error_line_position(output: Seq<char>)
    ensures
        first_error_line(output) == match line_of_first_occurrence(output, TLC_ERROR_MARKER@) {
            Some(line) => Some(trim(line)),
            None => None,
        },
        TLC_ERROR_MARKER@.len() == 6,
{
    reveal_strlit("Error:");
    let m = TLC_ERROR_MARKER@;
    assert(m.len() == 6);
    lemma_text_lines_first_line(output, m);
    lemma_first_line_with(output, m);
}

/// Law: TLC's error line is reported exactly when its output holds
/// `Error:`; it then holds `Error:` itself; an `Error` verdict always comes
/// with an error line, and an `Unknown` verdict never does.
pub proof fn lemma_error_line(output: Seq<char>)
    ensures
        first_error_line(output) is Some <==> contains(output, TLC_ERROR_MARKER@),
        first_error_line(output) matches Some(line) ==> contains(line, TLC_ERROR_MARKER@),
        tlc_verdict(output) == TlcVerdict::Error ==> first_error_line(output) is Some,
        tlc_verdict(output) == TlcVerdict::Unknown ==> first_error_line(output) is None,
{
    let m = TLC_ERROR_MARKER@;
    lemma_first_error_line_position(output);
    lemma_first_occurrence(output, m);
    if let Some(p) = first_occurrence(output, m) {
        reveal_strlit("Error:");
        assert forall|j: int| p <= j < p + 6 implies output[j] != '\n' by {
            assert(output.subrange(p, p + 6)[j - p] == m[j - p]);
        }
        lemma_line_bounds(output, p);
        lemma_line_end_past(output, p, p + 6);
        let a = line_start(output, p);
        let b = line_end(output, p);
        let t = output.subrange(a, b);
        assert(t.subrange(p - a, p - a + 6) =~= m) by {
            assert forall|j: int| 0 <= j < 6 implies t.subrange(p - a, p - a + 6)[j] == m[j] by {
                assert(output.subrange(p, p + 6)[j] == m[j]);
            }
        }
        lemma_trim_keeps_occurrence(t, m, p - a);
    }
}

/// The run of digits that ends a text does not reach back past a character
/// that is not a digit.
proof fn lemma_digit_run_after(p: Seq<char>, t: Seq<char>)
    requires
        p.len() > 0,
        !is_ascii_digit(p.last()),
    ensures
        digit_run_start(p + t) == p.len() + digit_run_start(t),
    decreases t.len(),
{
    if t.len() > 0 && is_ascii_digit(t.last()) {
        assert((p + t).drop_last() =~= p + t.drop_last());
        lemma_digit_run_after(p, t.drop_last());
    } else if t.len() == 0 {
        assert(p + t =~= p);
    }
}

proof fn lemma_digit_run_bounds(t: Seq<char>)
    ensures
        0 <= digit_run_start(t) <= t.len(),
    decreases t.len(),
{
    if t.len() > 0 && is_ascii_digit(t.last()) {
        lemma_digit_run_bounds(t.drop_last());
    }
}

/// Law: digits read in decimal: no digits are worth 0, and one more digit
/// `c` multiplies the value by ten and adds `c`'s worth.
pub proof fn lemma_decimal_value_digits(t: Seq<char>, c: char)
    ensures
        decimal_value(Seq::<char>::empty()) == 0,
        decimal_value(t.push(c)) == decimal_value(t) * 10 + (c as int - 48),
{
    assert(t.push(c).drop_last() =~= t);
}

/// Law: a text that ends in a non-empty run of ASCII digits, after nothing or
/// after a character that is not one, ends in the number those digits write.
pub proof fn lemma_trailing_number_of_digits(p: Seq<char>, d: Seq<char>)
    requires
        d.len() > 0,
        forall|j: int| 0 <= j < d.len() ==> '0' <= #[trigger] d[j] <= '9',
        p.len() > 0 ==> !('0' <= p.last() <= '9'),
    ensures
        trailing_number(p + d) == Some(decimal_value(d)),
{
    lemma_digit_run_of_digits(p, d);
    lemma_digit_run_bounds(p + d);
    assert((p + d).subrange(p.len() as int, (p + d).len() as int) =~= d);
}

proof fn lemma_digit_run_of_digits(p: Seq<char>, d: Seq<char>)
    requires
        forall|j: int| 0 <= j < d.len() ==> '0' <= #[trigger] d[j] <= '9',
        p.len() > 0 ==> !('0' <= p.last() <= '9'),
    ensures
        digit_run_start(p + d) == p.len(),
    decreases d.len(),
{
    if d.len() > 0 {
        assert((p + d).drop_last() =~= p + d.drop_last());
        assert((p + d).last() == d[d.len() - 1]);
        lemma_digit_run_of_digits(p, d.drop_last());
    } else {
        assert(p + d =~= p);
    }
}

/// Whole lines without the marker put before a text leave the number before
/// the marker as it was.
proof fn lemma_number_before_lines(p: Seq<char>, o: Seq<char>, m: Seq<char>)
    requires
        p.len() > 0,
        p.last() == '\n',
        !contains(p, m),
        forall|j: int| 0 <= j < m.len() ==> m[j] != '\n',
    ensures
        number_before_value(p + o, m) == number_before_value(o, m),
{
    lemma_lines_before(p, o, m);
    lemma_first_occurrence(o, m);
    if let Some(i) = first_occurrence(o, m) {
        let t = o.take(i);
        lemma_digit_run_bounds(t);
        assert((p + o).take(i + p.len()) =~= p + t);
        lemma_digit_run_after(p, t);
        let k = digit_run_start(t);
        if k != t.len() {
            assert((p + t).subrange(k + p.len(), (p + t).len() as int) =~= t.subrange(
                k,
                t.len() as int,
            ));
        }
    }
}

/// Law: header lines that hold none of TLC's markers, put before an output,
/// change nothing that the output reports: not the verdict, not the state
/// counts, not the error line.
pub proof fn lemma_header_lines_ignored(
    p: Seq<char>,
    output: Seq<char>,
    r: TlcOutcome,
    exit_code: i32,
)
    requires
        p.len() > 0,
        p.last() == '\n',
        !contains(p, TLC_NO_ERROR_MARKER@),
        !contains(p, TLC_ERROR_MARKER@),
        !contains(p, GENERATED_STATES_MARKER@),
        !contains(p, DISTINCT_STATES_MARKER@),
    ensures
        outcome_of_output(r, p + output, exit_code) <==> outcome_of_output(r, output, exit_code),
{
    reveal_strlit("Model checking completed. No error has been found.");
    reveal_strlit("Error:");
    reveal_strlit(" states generated,");
    reveal_strlit(" distinct states found,");
    lemma_lines_before(p, output, TLC_NO_ERROR_MARKER@);
    lemma_lines_before(p, output, TLC_ERROR_MARKER@);
    lemma_number_before_lines(p, output, GENERATED_STATES_MARKER@);
    lemma_number_before_lines(p, output, DISTINCT_STATES_MARKER@);
    lemma_first_error_line_position(p + output);
    lemma_first_error_line_position(output);
}

proof fn lemma_decimal_value_nonneg(t: Seq<char>)
    requires
        forall|j: int| 0 <= j < t.len() ==> is_ascii_digit(#[trigger] t[j]),
    ensures
        decimal_value(t) >= 0,
    decreases t.len(),
{
    if t.len() > 0 {
        lemma_decimal_value_nonneg(t.drop_last());
    }
}

/// A string of digits is worth at least any of its prefixes.
proof fn lemma_decimal_value_monotone(t: Seq<char>, j: int)
    requires
        0 <= j <= t.len(),
        forall|i: int| 0 <= i < t.len() ==> is_ascii_digit(#[trigger] t[i]),
    ensures
        decimal_value(t.take(j)) <= decimal_value(t),
    decreases t.len(),
{
    if j == t.len() {
        assert(t.take(j) =~= t);
    } else {
        lemma_decimal_value_monotone(t.drop_last(), j);
        assert(t.drop_last().take(j) =~= t.take(j));
        lemma_decimal_value_nonneg(t.drop_last());
    }
}

fn ascii_digit(c: char) -> (r: bool)
    ensures
        r == is_ascii_digit(c),
{
    c >= '0' && c <= '9'
}

/// The number written by the digits that end `h[..end]`, if it fits in a `u64`.
fn trailing_number_in(h: &Vec<char>, end: usize) -> (r: Option<u64>)
    requires
        end <= h.len(),
    ensures
        r == fit_u64(trailing_number(h@.take(end as int))),
{
    let ghost t = h@.take(end as int);
    let mut k: usize = end;
    while k > 0 && ascii_digit(h[k - 1])
        invariant
            k <= end <= h.len(),
            t == h@.take(end as int),
            digit_run_start(t) == digit_run_start(h@.take(k as int)),
            forall|j: int| k <= j < end ==> is_ascii_digit(#[trigger] h@[j]),
        decreases k,
    {
        assert(h@.take(k as int).drop_last() =~= h@.take(k - 1));
        k = k - 1;
    }
    assert(digit_run_start(h@.take(k as int)) == k);
    if k == end {
        return None;
    }
    let ghost digits = h@.subrange(k as int, end as int);
    assert(t.subrange(k as int, end as int) =~= digits);
    let mut v: u64 = 0;
    let mut j: usize = k;
    while j < end
        invariant
            k <= j <= end <= h.len(),
            digits == h@.subrange(k as int, end as int),
            forall|i: int| k <= i < end ==> is_ascii_digit(#[trigger] h@[i]),
            v == decimal_value(h@.subrange(k as int, j as int)),
            trailing_number(h@.take(end as int)) == Some(decimal_value(digits)),
        decreases end - j,
    {
        let c = h[j];
        let d: u64 = (c as u32 - '0' as u32) as u64;
        assert(h@.subrange(k as int, j + 1).drop_last() =~= h@.subrange(k as int, j as int));
        assert(d == h@[j as int] as int - '0' as int);
        assert(decimal_value(h@.subrange(k as int, j + 1)) == v * 10 + d);
        assert(digits.take(j + 1 - k) =~= h@.subrange(k as int, j + 1));
        match v.checked_mul(10) {
            None => {
                proof {
                    lemma_decimal_value_monotone(digits, j + 1 - k);
                }
                return None;
            },
            Some(m) => match m.checked_add(d) {
                None => {
                    proof {
                        lemma_decimal_value_monotone(digits, j + 1 - k);
                    }
                    return None;
                },
                Some(w) => {
                    v = w;
                },
            },
        }
        j = j + 1;
    }
    proof {
        lemma_decimal_value_nonneg(digits);
    }
    Some(v)
}

fn number_before_chars(h: &Vec<char>, n: &Vec<char>) -> (r: Option<u64>)
    ensures
        r == number_before_value(h@, n@),
{
    match find(h, n) {
        Some(i) => {
            proof {
                lemma_first_occurrence(h@, n@);
            }
            trailing_number_in(h, i)
        },
        None => None,
    }
}

/// The integer that immediately precedes the first occurrence of `needle`
/// in `haystack`, if any.
pub fn number_before(haystack: &str, needle: &str) -> (r: Option<u64>)
    ensures
        r == number_before_value(haystack@, needle@),
{
    let h = chars_of(haystack);
    let n = chars_of(needle);
    number_before_chars(&h, &n)
}

/// `r` is what TLC's `output`, from a run that exited with `exit_code`, reports.
pub open spec fn outcome_of_output(r: TlcOutcome, output: Seq<char>, exit_code: i32) -> bool {
    &&& r.ran
    &&& r.exit_code == exit_code
    &&& r.generated_states == number_before_value(output, GENERATED_STATES_MARKER@)
    &&& r.distinct_states == number_before_value(output, DISTINCT_STATES_MARKER@)
    &&& r.verdict == tlc_verdict(output)
    &&& opt_chars(r.error) == first_error_line(output)
}

/// Parse a captured TLC output, with the exit code of its run, into a
/// [`TlcOutcome`].
pub fn parse_tlc_output(output: &str, exit_code: i32) -> (r: TlcOutcome)
    ensures
        outcome_of_output(r, output@, exit_code),
{
    let s = chars_of(output);
    let no_error = chars_of(TLC_NO_ERROR_MARKER);
    let error_marker = chars_of(TLC_ERROR_MARKER);
    proof {
        lemma_first_occurrence(s@, no_error@);
        lemma_first_occurrence(s@, error_marker@);
        lemma_first_error_line_position(s@);
    }
    let first_error = find(&s, &error_marker);
    let verdict = if find(&s, &no_error).is_some() {
        TlcVerdict::NoError
    } else if first_error.is_some() {
        TlcVerdict::Error
    } else {
        TlcVerdict::Unknown
    };
    let error = match first_error {
        Some(p) => {
            let (a, b) = line_bounds(&s, p);
            let (x, y) = trim_bounds(&s, a, b);
            Some(string_of_range(&s, x, y))
        },
        None => None,
    };
    let generated = number_before_chars(&s, &chars_of(GENERATED_STATES_MARKER));
    let distinct = number_before_chars(&s, &chars_of(DISTINCT_STATES_MARKER));
    TlcOutcome {
        ran: true,
        exit_code,
        generated_states: generated,
        distinct_states: distinct,
        verdict,
        error,
    }
}

/// The outcome of a TLC run from what it printed on stdout and stderr (read
/// in that order) and its exit code, `-1` when it has none.
pub fn tlc_outcome_of_run(stdout: &str, stderr: &str, exit_code: Option<i32>) -> (r: TlcOutcome)
    ensures
        outcome_of_output(
            r,
            stdout@ + stderr@,
            match exit_code {
                Some(c) => c,
                None => -1i32,
            },
        ),
{
    let mut text = String::from_str(stdout);
    text.append(stderr);
    let code = match exit_code {
        Some(c) => c,
        None => -1,
    };
    parse_tlc_output(text.as_str(), code)
}

/// The outcome recorded for a TLC run that could not be started.
pub fn tlc_not_run() -> (r: TlcOutcome)
    ensures
        !r.ran,
        r.exit_code == -1,
        r.generated_states is None,
        r.distinct_states is None,
        r.verdict == TlcVerdict::Unknown,
        r.error is None,
{
    TlcOutcome {
        ran: false,
        exit_code: -1,
        generated_states: None,
        distinct_states: None,
        verdict: TlcVerdict::Unknown,
        error: None,
    }
}

/// TLC accepted the spec: it ran, exited with 0 and found no error.
pub open spec fn tlc_accepted(tlc: TlcOutcome) -> bool {
    tlc.ran && tlc.exit_code == 0 && tlc.verdict == TlcVerdict::NoError
}

/// What a `tlarc check --json` run reported, as the harness judges it.
#[derive(Debug, Clone, PartialEq)]
pub struct TlarcRun {
    pub ran: bool,
    pub exit_code: i32,
    /// The `status` field of the JSON verdict on stdout, when there is one.
    pub status: Option<String>,
    /// The error of a failed run: its stderr, or the verdict's `error` field.
    pub error: Option<String>,
}

/// The string value of the top-level field `key` of the JSON object in
/// `text`, if `text` parses as one (as `serde_json` parses it).
pub uninterp spec fn json_str_field(text: Seq<char>, key: Seq<char>) -> Option<Seq<char>>;

/// Calls `serde_json::from_str::<serde_json::Value>` on `text`, then
/// `Value::get(key)` and `Value::as_str` on what it gives. The contract
/// claims only that the result is the named field of `text`.
#[verifier::external_body]
fn verdict_str_field(text: &str, key: &str) -> (r: Option<String>)
    ensures
        opt_chars(r) == json_str_field(text@, key@),
{
    match serde_json::from_str::<serde_json::Value>(text) {
        Ok(value) => match value.get(key) {
            Some(field) => match field.as_str() {
                Some(s) => Some(s.to_string()),
                None => None,
            },
            None => None,
        },
        Err(_) => None,
    }
}

/// The key of the verdict's status field.
pub const VERDICT_STATUS_KEY: &'static str = "status";

/// The key of the verdict's error field.
pub const VERDICT_ERROR_KEY: &'static str = "error";

/// What a `tlarc check --json` run reports, from its stdout (the JSON
/// verdict), its stderr, whether it succeeded, and its exit code (`-1` when
/// it has none).
pub fn tlarc_outcome_of_run(stdout: &str, stderr: &str, success: bool, exit_code: Option<i32>) -> (r:
    TlarcRun)
    ensures
        r.ran,
        r.exit_code == match exit_code {
            Some(c) => c,
            None => -1i32,
        },
        opt_chars(r.status) == json_str_field(stdout@, VERDICT_STATUS_KEY@),
        success ==> r.error is None,
        !success && trim(stderr@).len() > 0 ==> opt_chars(r.error) == Some(trim(stderr@)),
        !success && trim(stderr@).len() == 0 ==> opt_chars(r.error) == json_str_field(
            stdout@,
            VERDICT_ERROR_KEY@,
        ),
{
    let status = verdict_str_field(stdout, VERDICT_STATUS_KEY);
    let verdict_error = verdict_str_field(stdout, VERDICT_ERROR_KEY);
    let code = match exit_code {
        Some(c) => c,
        None => -1,
    };
    TlarcRun {
        ran: true,
        exit_code: code,
        status,
        error: tlarc_error(success, stderr, verdict_error),
    }
}

/// The outcome recorded for a `tlarc check` run that could not be started.
pub fn tlarc_not_run() -> (r: TlarcRun)
    ensures
        !r.ran,
        r.exit_code == -1,
        r.status is None,
        r.error is None,
{
    TlarcRun { ran: false, exit_code: -1, status: None, error: None }
}

/// tlarc accepted the spec: it ran, exited with 0 and its verdict says `ok`.
pub open spec fn tlarc_accepted(tlarc: TlarcRun) -> bool {
    tlarc.ran && tlarc.exit_code == 0 && opt_chars(tlarc.status) == Some(STATUS_OK@)
}

/// Law: tlarc accepts a spec only with the status `ok` itself; any other
/// status (`parse_error`, `not_implemented`, ...) or none is no acceptance.
pub proof fn lemma_tlarc_accepted_only_ok(tlarc: TlarcRun)
    ensures
        tlarc_accepted(tlarc) <==> (tlarc.ran && tlarc.exit_code == 0 && tlarc.status is Some
            && tlarc.status->0@ == seq!['o', 'k']),
{
    reveal_strlit("ok");
    assert(STATUS_OK@ =~= seq!['o', 'k']);
}

/// Whether both tools ran and accepted the spec: TLC with no error and
/// exit 0, tlarc with exit 0 and an `"ok"` verdict status.
pub fn report_ok(tlc: &TlcOutcome, tlarc: &TlarcRun) -> (r: bool)
    ensures
        r == (tlc_accepted(*tlc) && tlarc_accepted(*tlarc)),
        r == (tlc.ran && tlc.exit_code == 0 && tlc.verdict == TlcVerdict::NoError && tlarc.ran
            && tlarc.exit_code == 0 && tlarc.status is Some && tlarc.status->0@ == seq!['o', 'k']),
{
    proof {
        lemma_tlarc_accepted_only_ok(*tlarc);
    }
    let tlc_ok = tlc.ran && tlc.exit_code == 0 && tlc.verdict == TlcVerdict::NoError;
    let tlarc_ok = tlarc.ran && tlarc.exit_code == 0 && match &tlarc.status {
        Some(s) => {
            let ok = String::from_str(STATUS_OK);
            *s == ok
        },
        None => false,
    };
    tlc_ok && tlarc_ok
}

/// How many of the per-spec results passed.
pub open spec fn passed_count(oks: Seq<bool>) -> nat
    decreases oks.len(),
{
    if oks.len() == 0 {
        0
    } else {
        passed_count(oks.drop_last()) + if oks.last() {
            1nat
        } else {
            0nat
        }
    }
}

/// Law: the passes are counted one by one: none in an empty list, and one
/// more result adds one exactly when it passed, whatever came before.
pub proof fn lemma_passed_count_push(oks: Seq<bool>, b: bool)
    ensures
        passed_count(Seq::<bool>::empty()) == 0,
        passed_count(oks.push(b)) == passed_count(oks) + if b {
            1int
        } else {
            0int
        },
{
    assert(oks.push(b).drop_last() =~= oks);
}

/// All results pass exactly when every one of them is counted as passed.
proof fn lemma_passed_count_all(oks: Seq<bool>)
    ensures
        passed_count(oks) <= oks.len(),
        passed_count(oks) == oks.len() <==> forall|i: int| 0 <= i < oks.len() ==> #[trigger] oks[i],
    decreases oks.len(),
{
    if oks.len() > 0 {
        let d = oks.drop_last();
        lemma_passed_count_all(d);
        if passed_count(oks) == oks.len() {
            assert forall|i: int| 0 <= i < oks.len() implies #[trigger] oks[i] by {
                if i < oks.len() - 1 {
                    assert(d[i] == oks[i]);
                }
            }
        }
        if forall|i: int| 0 <= i < oks.len() ==> #[trigger] oks[i] {
            assert forall|i: int| 0 <= i < d.len() implies #[trigger] d[i] by {
                assert(d[i] == oks[i]);
            }
            assert(oks[oks.len() - 1]);
        }
    }
}

/// The harness summary of per-spec results: how many passed and how many
/// failed. The harness fails exactly when the second is not zero.
pub fn tally(oks: &Vec<bool>) -> (r: (usize, usize))
    ensures
        r.0 == passed_count(oks@),
        r.0 + r.1 == oks.len(),
        r.1 == 0 <==> forall|i: int| 0 <= i < oks.len() ==> #[trigger] oks@[i],
{
    let mut passed: usize = 0;
    let mut i: usize = 0;
    while i < oks.len()
        invariant
            i <= oks.len(),
            passed == passed_count(oks@.take(i as int)),
            passed <= i,
        decreases oks.len() - i,
    {
        assert(oks@.take(i + 1).drop_last() =~= oks@.take(i as int));
        if oks[i] {
            passed = passed + 1;
        }
        i = i + 1;
    }
    assert(oks@.take(oks.len() as int) =~= oks@);
    proof {
        lemma_passed_count_all(oks@);
    }
    (passed, oks.len() - passed)
}

/// The error recorded for a `tlarc check` run: none on success; otherwise
/// its stderr, trimmed, unless that is empty, and then the `error` field
/// of its JSON verdict.
pub fn tlarc_error(success: bool, stderr: &str, verdict_error: Option<String>) -> (r: Option<
    String,
>)
    ensures
        success ==> r is None,
        !success && trim(stderr@).len() > 0 ==> opt_chars(r) == Some(trim(stderr@)),
        !success && trim(stderr@).len() == 0 ==> r == verdict_error,
{
    if success {
        None
    } else {
        let t = trim_str(stderr);
        if t.as_str().is_empty() {
            verdict_error
        } else {
            Some(t)
        }
    }
}

/// The stem of the final component of a path, as `std::path::Path::file_stem`
/// computes it (the file name without its last extension).
pub uninterp spec fn path_file_stem(path: Seq<char>) -> Option<Seq<char>>;

/// The index of the last `c` in `s`, or -1.
pub open spec fn last_index_of(s: Seq<char>, c: char) -> int
    decreases s.len(),
{
    if s.len() == 0 {
        -1
    } else if s.last() == c {
        s.len() - 1
    } else {
        last_index_of(s.drop_last(), c)
    }
}

/// What follows the last `/` of a path (the whole path when it has none):
/// on Unix, where `/` is the only separator, its last segment.
pub open spec fn final_segment(path: Seq<char>) -> Seq<char> {
    path.skip(last_index_of(path, '/') + 1)
}

/// The final segment of a path is its file name: it is not empty, `.` or `..`.
pub open spec fn ends_in_file_name(path: Seq<char>) -> bool {
    let f = final_segment(path);
    f.len() > 0 && f != seq!['.'] && f != seq!['.', '.']
}

/// The stem of a file name, as `Path::file_stem` documents it: the whole
/// name when it has no `.` or only a leading one; otherwise what comes
/// before its last `.`.
pub open spec fn stem_of_file_name(name: Seq<char>) -> Seq<char> {
    let k = last_index_of(name, '.');
    if k <= 0 {
        name
    } else {
        name.take(k)
    }
}

/// Calls `std::path::Path::file_stem` on `path`; the stem of a `&str` path
/// is valid UTF-8, so the lossy conversion keeps it whole. The contract
/// claims that the result is the named stem of `path`, and, where the path
/// ends in a file name, the stem of that name as std documents it for Unix
/// paths (on Windows `\` separates too, and the second clause would not
/// hold there); what it is for paths ending in `/`, `.` or `..` is left to
/// the name.
#[verifier::external_body]
fn file_stem(path: &str) -> (r: Option<String>)
    ensures
        opt_chars(r) == path_file_stem(path@),
        ends_in_file_name(path@) ==> opt_chars(r) == Some(
            stem_of_file_name(final_segment(path@)),
        ),
{
    match std::path::Path::new(path).file_stem() {
        Some(stem) => Some(stem.to_string_lossy().into_owned()),
        None => None,
    }
}

/// The spec base name from the stem of its path: the stem, or the whole
/// path when it has none.
pub fn base_name_from_stem(stem: Option<String>, path: &str) -> (r: String)
    ensures
        r@ == match opt_chars(stem) {
            Some(s) => s,
            None => path@,
        },
{
    match stem {
        Some(s) => s,
        None => String::from_str(path),
    }
}

/// The spec base name: `corpus/foo.tla` gives `"foo"`.
pub fn spec_base_name(tla: &str) -> (r: String)
    ensures
        r@ == match path_file_stem(tla@) {
            Some(s) => s,
            None => tla@,
        },
        ends_in_file_name(tla@) ==> r@ == stem_of_file_name(final_segment(tla@)),
{
    base_name_from_stem(file_stem(tla), tla)
}

/// The extension of a TLA+ spec file, `.tla`, as ASCII bytes.
pub open spec fn spec_extension() -> Seq<u8> {
    seq![46u8, 116u8, 108u8, 97u8]
}

/// The extension of a TLC model configuration file, `.cfg`, as ASCII bytes.
pub open spec fn config_extension() -> Seq<u8> {
    seq![46u8, 99u8, 102u8, 103u8]
}

/// The configuration file name that goes with the spec file name `name`
/// (its bytes, as the file system gives them): for `base.tla`, with `base`
/// not empty, `base.cfg`; but for `..tla`, `..`, as `Path::with_extension`
/// then gives. This is what `Path::extension` and `Path::with_extension`
/// give for a plain file name (one without `/`, as a directory listing gives
/// them, on Unix, where they split names at the byte `.`).
pub open spec fn sibling_config(name: Seq<u8>) -> Option<Seq<u8>> {
    if name.len() > 4 && name.skip(name.len() - 4) == spec_extension() {
        let base = name.take(name.len() - 4);
        if base == seq![46u8] {
            Some(seq![46u8, 46u8])
        } else {
            Some(base + config_extension())
        }
    } else {
        None
    }
}

/// Law: a spec file name `base.tla`, with `base` neither empty nor `.`, goes
/// with the configuration file name `base.cfg`, `base` kept byte for byte;
/// a name that does not end in `.tla` after a non-empty base goes with none.
pub proof fn lemma_sibling_config_keeps_base(base: Seq<u8>, name: Seq<u8>)
    ensures
        base.len() > 0 && base != seq![46u8] ==> sibling_config(
            base + seq![46u8, 116u8, 108u8, 97u8],
        ) == Some(base + seq![46u8, 99u8, 102u8, 103u8]),
        !(name.len() > 4 && name.skip(name.len() - 4) == seq![46u8, 116u8, 108u8, 97u8])
            ==> sibling_config(name) is None,
        sibling_config(seq![46u8, 46u8, 116u8, 108u8, 97u8]) == Some(seq![46u8, 46u8]),
{
    let dd = seq![46u8, 46u8, 116u8, 108u8, 97u8];
    assert(dd.skip(1) =~= seq![46u8, 116u8, 108u8, 97u8]);
    assert(dd.take(1) =~= seq![46u8]);
    let n = base + seq![46u8, 116u8, 108u8, 97u8];
    assert(n.skip(n.len() - 4) =~= seq![46u8, 116u8, 108u8, 97u8]);
    assert(n.take(n.len() - 4) =~= base);
}

/// The configuration file name that goes with the file name `name`, when
/// `name` names a spec (`*.tla`).
pub fn sibling_config_name(name: &Vec<u8>) -> (r: Option<Vec<u8>>)
    ensures
        match r {
            Some(c) => sibling_config(name@) == Some(c@),
            None => sibling_config(name@) is None,
        },
{
    let n = name.len();
    if n <= 4 || name[n - 4] != 46u8 || name[n - 3] != 116u8 || name[n - 2] != 108u8 || name[n
        - 1] != 97u8 {
        proof {
            if n > 4 {
                assert(name@.skip(n - 4)[0] == name@[n - 4]);
                assert(name@.skip(n - 4)[1] == name@[n - 3]);
                assert(name@.skip(n - 4)[2] == name@[n - 2]);
                assert(name@.skip(n - 4)[3] == name@[n - 1]);
            }
        }
        return None;
    }
    assert(name@.skip(n - 4) =~= spec_extension());
    let base_len = n - 4;
    if base_len == 1 && name[0] == 46u8 {
        assert(name@.take(1) =~= seq![46u8]);
        let parent: Vec<u8> = vec![46u8, 46u8];
        assert(parent@ =~= seq![46u8, 46u8]);
        return Some(parent);
    }
    assert(name@.take(base_len as int) != seq![46u8]) by {
        if base_len == 1 {
            assert(name@.take(1)[0] != seq![46u8][0]);
        } else {
            assert(name@.take(base_len as int).len() != seq![46u8].len());
        }
    }
    let mut r: Vec<u8> = Vec::new();
    let mut i: usize = 0;
    while i < base_len
        invariant
            i <= base_len < name.len(),
            r@ == name@.take(i as int),
        decreases base_len - i,
    {
        r.push(name[i]);
        assert(name@.take(i + 1) =~= name@.take(i as int).push(name@[i as int]));
        i = i + 1;
    }
    r.push(46u8);
    r.push(99u8);
    r.push(102u8);
    r.push(103u8);
    assert(r@ =~= name@.take(base_len as int) + config_extension());
    Some(r)
}

/// Byte-wise lexicographic order: `a` comes no later than `b`. This is the
/// order of `OsStr`, so the order of paths that differ only in their file
/// name.
pub open spec fn bytes_le(a: Seq<u8>, b: Seq<u8>) -> bool
    decreases a.len(),
{
    if a.len() == 0 {
        true
    } else if b.len() == 0 {
        false
    } else if a[0] != b[0] {
        a[0] < b[0]
    } else {
        bytes_le(a.drop_first(), b.drop_first())
    }
}

/// Law: two names are ordered at the first byte where they differ: the one
/// with the smaller byte there comes first, whatever their lengths.
pub proof fn lemma_bytes_order_first_difference(a: Seq<u8>, b: Seq<u8>, i: int)
    requires
        0 <= i < a.len(),
        i < b.len(),
        a.take(i) == b.take(i),
        a[i] < b[i],
    ensures
        bytes_le(a, b),
        !bytes_le(b, a),
    decreases i,
{
    if i > 0 {
        assert(a[0] == a.take(i)[0]);
        assert(b[0] == b.take(i)[0]);
        assert(a.drop_first().take(i - 1) =~= a.take(i).drop_first());
        assert(b.drop_first().take(i - 1) =~= b.take(i).drop_first());
        lemma_bytes_order_first_difference(a.drop_first(), b.drop_first(), i - 1);
    }
}

/// Law: a name comes no later than every name that it begins, and a name
/// that is longer comes after it.
pub proof fn lemma_bytes_order_prefix(a: Seq<u8>, b: Seq<u8>)
    requires
        a.len() <= b.len(),
        b.take(a.len() as int) == a,
    ensures
        bytes_le(a, b),
        a.len() < b.len() ==> !bytes_le(b, a),
    decreases a.len(),
{
    if a.len() > 0 {
        assert(a[0] == b.take(a.len() as int)[0]);
        assert(b.drop_first().take(a.len() - 1) =~= a.drop_first());
        lemma_bytes_order_prefix(a.drop_first(), b.drop_first());
    }
}

/// Byte-wise order is transitive.
proof fn lemma_bytes_le_transitive(a: Seq<u8>, b: Seq<u8>, c: Seq<u8>)
    requires
        bytes_le(a, b),
        bytes_le(b, c),
    ensures
        bytes_le(a, c),
    decreases a.len(),
{
    if a.len() > 0 && b.len() > 0 && c.len() > 0 && a[0] == b[0] && b[0] == c[0] {
        lemma_bytes_le_transitive(a.drop_first(), b.drop_first(), c.drop_first());
    }
}

/// Byte-wise order is total.
proof fn lemma_bytes_le_total(a: Seq<u8>, b: Seq<u8>)
    ensures
        bytes_le(a, b) || bytes_le(b, a),
    decreases a.len(),
{
    if a.len() > 0 && b.len() > 0 && a[0] == b[0] {
        lemma_bytes_le_total(a.drop_first(), b.drop_first());
    }
}

/// Whether `a` comes no later than `b` byte-wise.
fn le_bytes(a: &Vec<u8>, b: &Vec<u8>) -> (r: bool)
    ensures
        r == bytes_le(a@, b@),
{
    let mut i: usize = 0;
    assert(a@.skip(0) =~= a@);
    assert(b@.skip(0) =~= b@);
    while i < a.len() && i < b.len() && a[i] == b[i]
        invariant
            i <= a.len(),
            i <= b.len(),
            bytes_le(a@, b@) == bytes_le(a@.skip(i as int), b@.skip(i as int)),
        decreases a.len() - i,
    {
        assert(a@.skip(i as int).drop_first() =~= a@.skip(i + 1));
        assert(b@.skip(i as int).drop_first() =~= b@.skip(i + 1));
        i = i + 1;
    }
    if i == a.len() {
        true
    } else if i == b.len() {
        false
    } else {
        a[i] < b[i]
    }
}

/// File names in byte-wise order.
pub open spec fn names_sorted(s: Seq<Vec<u8>>) -> bool {
    forall|i: int, k: int| 0 <= i < k < s.len() ==> bytes_le(#[trigger] s[i]@, #[trigger] s[k]@)
}

/// The file names in byte-wise order: a permutation of `names` that is
/// sorted. Spec files of one directory, sorted so, come in the order of
/// their paths.
pub fn sort_names(names: Vec<Vec<u8>>) -> (r: Vec<Vec<u8>>)
    ensures
        r@.to_multiset() == names@.to_multiset(),
        names_sorted(r@),
{
    broadcast use vstd::seq_lib::group_to_multiset_ensures;

    let ghost all = names@;
    let mut rest = names;
    let mut r: Vec<Vec<u8>> = Vec::new();
    while rest.len() > 0
        invariant
            r@.to_multiset().add(rest@.to_multiset()) == all.to_multiset(),
            names_sorted(r@),
        decreases rest.len(),
    {
        let ghost old_rest = rest@;
        let x = rest.pop().unwrap();
        proof {
            assert(old_rest =~= rest@.push(x));
            vstd::seq_lib::to_multiset_build(rest@, x);
        }
        let mut j: usize = 0;
        while j < r.len() && le_bytes(&r[j], &x)
            invariant
                j <= r.len(),
                forall|t: int| 0 <= t < j ==> bytes_le(#[trigger] r@[t]@, x@),
            decreases r.len() - j,
        {
            j = j + 1;
        }
        let ghost old_r = r@;
        proof {
            if j < old_r.len() {
                lemma_bytes_le_total(old_r[j as int]@, x@);
            }
        }
        r.insert(j, x);
        proof {
            let nr = r@;
            assert forall|a: int, b: int| 0 <= a < b < nr.len() implies bytes_le(
                #[trigger] nr[a]@,
                #[trigger] nr[b]@,
            ) by {
                if b < j {
                    assert(nr[a] == old_r[a] && nr[b] == old_r[b]);
                } else if b == j {
                    assert(nr[a] == old_r[a]);
                } else if a < j {
                    assert(nr[a] == old_r[a] && nr[b] == old_r[b - 1]);
                } else if a == j {
                    assert(nr[b] == old_r[b - 1]);
                    if j < b - 1 {
                        lemma_bytes_le_transitive(x@, old_r[j as int]@, old_r[b - 1]@);
                    }
                } else {
                    assert(nr[a] == old_r[a - 1] && nr[b] == old_r[b - 1]);
                }
            }
            vstd::seq_lib::to_multiset_insert(old_r, j as int, x);
            assert(nr.to_multiset() =~= old_r.to_multiset().insert(x));
            assert(r@.to_multiset().add(rest@.to_multiset()) =~= old_r.to_multiset().add(
                old_rest.to_multiset(),
            ));
        }
    }
    assert(rest@.to_multiset() =~= vstd::multiset::Multiset::<Vec<u8>>::empty());
    assert(r@.to_multiset().add(rest@.to_multiset()) =~= r@.to_multiset());
    r
}

} // verus!
