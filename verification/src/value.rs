//! TLA+ values: booleans, integers and strings, with the TLA+ value order
//! (FALSE < TRUE < integers < strings; integers numerically, strings
//! lexicographically).

use std::cmp::Ordering;
use vstd::prelude::*;
use crate::text::{chars_of, common_prefix_len, index_int};

verus! {

/// A TLA+ value. Integers are held as `i64` in this slice of the value system.
#[derive(Debug, Clone, PartialEq, Eq, Hash)]
pub enum Value {
    Bool(bool),
    Int(i64),
    Str(String),
}

/// The mathematical content of a [`Value`]: a string is its characters.
pub enum ValueView {
    Bool(bool),
    Int(int),
    Str(Seq<char>),
}

impl View for Value {
    type V = ValueView;

    open spec fn view(&self) -> ValueView {
        match self {
            Value::Bool(b) => ValueView::Bool(*b),
            Value::Int(i) => ValueView::Int(*i as int),
            Value::Str(s) => ValueView::Str(s@),
        }
    }
}

/// The order of two integers.
pub open spec fn int_order(x: int, y: int) -> Ordering {
    if x < y {
        Ordering::Less
    } else if x == y {
        Ordering::Equal
    } else {
        Ordering::Greater
    }
}

/// Lexicographic order of two character sequences, by code point.
///
/// UTF-8 keeps code-point order byte by byte, so this is also the byte
/// order in which Rust orders `String`s.
pub open spec fn lex_order(a: Seq<char>, b: Seq<char>) -> Ordering
    decreases a.len(),
{
    if a.len() == 0 {
        if b.len() == 0 {
            Ordering::Equal
        } else {
            Ordering::Less
        }
    } else if b.len() == 0 {
        Ordering::Greater
    } else if a[0] < b[0] {
        Ordering::Less
    } else if a[0] > b[0] {
        Ordering::Greater
    } else {
        lex_order(a.drop_first(), b.drop_first())
    }
}

/// The position of a value's kind in the order: FALSE, TRUE, integers, strings.
pub open spec fn kind_rank(v: ValueView) -> int {
    match v {
        ValueView::Bool(false) => 0,
        ValueView::Bool(true) => 1,
        ValueView::Int(_) => 2,
        ValueView::Str(_) => 3,
    }
}

/// The TLA+ value order: by kind rank first, then by contents.
pub open spec fn value_order(a: ValueView, b: ValueView) -> Ordering {
    match (a, b) {
        (ValueView::Int(x), ValueView::Int(y)) => int_order(x, y),
        (ValueView::Str(x), ValueView::Str(y)) => lex_order(x, y),
        _ => int_order(kind_rank(a), kind_rank(b)),
    }
}

/// The order reversed.
pub open spec fn reversed(o: Ordering) -> Ordering {
    match o {
        Ordering::Less => Ordering::Greater,
        Ordering::Equal => Ordering::Equal,
        Ordering::Greater => Ordering::Less,
    }
}

/// `lex_order` is `Equal` exactly on equal sequences.
proof fn lemma_lex_order_equal(a: Seq<char>, b: Seq<char>)
    ensures
        (lex_order(a, b) == Ordering::Equal) <==> a == b,
    decreases a.len(),
{
    if a.len() > 0 && b.len() > 0 && a[0] == b[0] {
        lemma_lex_order_equal(a.drop_first(), b.drop_first());
        if a.drop_first() == b.drop_first() {
            assert(a =~= seq![a[0]] + a.drop_first());
            assert(b =~= seq![b[0]] + b.drop_first());
        }
    } else if a.len() == 0 && b.len() == 0 {
        assert(a =~= b);
    }
}

/// Swapping the arguments of `lex_order` reverses it.
proof fn lemma_lex_order_antisymmetric(a: Seq<char>, b: Seq<char>)
    ensures
        lex_order(b, a) == reversed(lex_order(a, b)),
    decreases a.len(),
{
    if a.len() > 0 && b.len() > 0 && a[0] == b[0] {
        lemma_lex_order_antisymmetric(a.drop_first(), b.drop_first());
    }
}

/// `lex_order` is transitive on `Less`.
proof fn lemma_lex_order_transitive(a: Seq<char>, b: Seq<char>, c: Seq<char>)
    requires
        lex_order(a, b) == Ordering::Less,
        lex_order(b, c) == Ordering::Less,
    ensures
        lex_order(a, c) == Ordering::Less,
    decreases a.len(),
{
    if a.len() > 0 && b.len() > 0 && c.len() > 0 && a[0] == b[0] && b[0] == c[0] {
        lemma_lex_order_transitive(a.drop_first(), b.drop_first(), c.drop_first());
    }
}

/// Law: two values compare `Equal` exactly when they are the same value.
pub proof fn lemma_value_order_equal_iff(a: ValueView, b: ValueView)
    ensures
        (value_order(a, b) == Ordering::Equal) <==> a == b,
{
    match (a, b) {
        (ValueView::Str(x), ValueView::Str(y)) => {
            lemma_lex_order_equal(x, y);
        },
        _ => {},
    }
}

/// Law: swapping the two values reverses their order.
pub proof fn lemma_value_order_antisymmetric(a: ValueView, b: ValueView)
    ensures
        value_order(b, a) == reversed(value_order(a, b)),
{
    match (a, b) {
        (ValueView::Str(x), ValueView::Str(y)) => {
            lemma_lex_order_antisymmetric(x, y);
        },
        _ => {},
    }
}

/// Law: the value order is transitive: `a < b` and `b < c` give `a < c`.
pub proof fn lemma_value_order_transitive(a: ValueView, b: ValueView, c: ValueView)
    requires
        value_order(a, b) == Ordering::Less,
        value_order(b, c) == Ordering::Less,
    ensures
        value_order(a, c) == Ordering::Less,
{
    match (a, b, c) {
        (ValueView::Str(x), ValueView::Str(y), ValueView::Str(z)) => {
            lemma_lex_order_transitive(x, y, z);
        },
        _ => {},
    }
}

/// Law: every value compares `Equal` to itself.
pub proof fn lemma_value_order_reflexive(a: ValueView)
    ensures
        value_order(a, a) == Ordering::Equal,
{
    lemma_value_order_equal_iff(a, a);
}

/// Law: values of different kinds are ordered by kind alone:
/// FALSE < TRUE < every integer < every string.
pub proof fn lemma_value_order_by_kind(a: ValueView, b: ValueView)
    requires
        kind_rank(a) < kind_rank(b),
    ensures
        value_order(a, b) == Ordering::Less,
{
}

/// Law: two strings are ordered at the first position where they differ:
/// the one with the smaller character there comes first, whatever their
/// lengths.
pub proof fn lemma_string_order_first_difference(x: Seq<char>, y: Seq<char>, i: int)
    requires
        0 <= i < x.len(),
        i < y.len(),
        x.take(i) == y.take(i),
        x[i] < y[i],
    ensures
        value_order(ValueView::Str(x), ValueView::Str(y)) == Ordering::Less,
        value_order(ValueView::Str(y), ValueView::Str(x)) == Ordering::Greater,
{
    lemma_lex_order_after_prefix(x, y, i);
    lemma_lex_order_after_prefix(y, x, i);
    assert(x.skip(i)[0] == x[i]);
    assert(y.skip(i)[0] == y[i]);
}

/// Law: a string comes before every longer string that it begins.
pub proof fn lemma_string_order_prefix(x: Seq<char>, y: Seq<char>)
    requires
        x.len() < y.len(),
        forall|j: int| 0 <= j < x.len() ==> x[j] == y[j],
    ensures
        value_order(ValueView::Str(x), ValueView::Str(y)) == Ordering::Less,
        value_order(ValueView::Str(y), ValueView::Str(x)) == Ordering::Greater,
{
    let n = x.len() - 0;
    assert(x.take(n) =~= x);
    assert(y.take(n) =~= x);
    lemma_lex_order_after_prefix(x, y, n);
    lemma_lex_order_after_prefix(y, x, n);
    assert(x.skip(n).len() == 0);
}

/// Law: kinds come in the order FALSE, TRUE, integers, strings, whatever
/// the values.
pub proof fn lemma_kind_order(b: bool, i: int, x: Seq<char>)
    ensures
        value_order(ValueView::Bool(b), ValueView::Int(i)) == Ordering::Less,
        value_order(ValueView::Bool(b), ValueView::Str(x)) == Ordering::Less,
        value_order(ValueView::Int(i), ValueView::Str(x)) == Ordering::Less,
        value_order(ValueView::Int(i), ValueView::Bool(b)) == Ordering::Greater,
        value_order(ValueView::Str(x), ValueView::Bool(b)) == Ordering::Greater,
        value_order(ValueView::Str(x), ValueView::Int(i)) == Ordering::Greater,
{
}

/// Law: integers are ordered numerically, and booleans as FALSE < TRUE.
pub proof fn lemma_number_and_bool_order(i: int, j: int)
    ensures
        i < j ==> value_order(ValueView::Int(i), ValueView::Int(j)) == Ordering::Less,
        i > j ==> value_order(ValueView::Int(i), ValueView::Int(j)) == Ordering::Greater,
        value_order(ValueView::Bool(false), ValueView::Bool(true)) == Ordering::Less,
        value_order(ValueView::Bool(true), ValueView::Bool(false)) == Ordering::Greater,
{
}

/// The canonical form of a value: for these three kinds, the value itself.
pub fn normalize(v: Value) -> (r: Value)
    ensures
        r == v,
{
    v
}

/// Two sequences that agree on their first `i` elements are ordered as
/// what follows those elements.
proof fn lemma_lex_order_after_prefix(a: Seq<char>, b: Seq<char>, i: int)
    requires
        0 <= i <= a.len(),
        i <= b.len(),
        a.take(i) == b.take(i),
    ensures
        lex_order(a, b) == lex_order(a.skip(i), b.skip(i)),
    decreases i,
{
    if i > 0 {
        assert(a[0] == a.take(i)[0]);
        assert(b[0] == b.take(i)[0]);
        assert(a.drop_first().take(i - 1) =~= a.take(i).drop_first());
        assert(b.drop_first().take(i - 1) =~= b.take(i).drop_first());
        lemma_lex_order_after_prefix(a.drop_first(), b.drop_first(), i - 1);
        assert(a.drop_first().skip(i - 1) =~= a.skip(i));
        assert(b.drop_first().skip(i - 1) =~= b.skip(i));
    } else {
        assert(a.skip(0) =~= a);
        assert(b.skip(0) =~= b);
    }
}

/// Lexicographic comparison of two character vectors.
fn compare_chars(a: &Vec<char>, b: &Vec<char>) -> (r: Ordering)
    ensures
        r == lex_order(a@, b@),
{
    let n = common_prefix_len(a, b);
    proof {
        lemma_lex_order_after_prefix(a@, b@, index_int(n));
    }
    if n == a.len() {
        if n == b.len() {
            Ordering::Equal
        } else {
            Ordering::Less
        }
    } else if n == b.len() {
        Ordering::Greater
    } else if a[n] < b[n] {
        Ordering::Less
    } else {
        Ordering::Greater
    }
}

/// The TLA+ value order: FALSE < TRUE < integers < strings. Mixed kinds
/// compare by that rank; integers compare numerically and strings
/// lexicographically.
pub fn compare(a: &Value, b: &Value) -> (r: Ordering)
    ensures
        r == value_order(a@, b@),
{
    match (a, b) {
        (Value::Bool(x), Value::Bool(y)) => {
            if *x == *y {
                Ordering::Equal
            } else if !*x {
                Ordering::Less
            } else {
                Ordering::Greater
            }
        },
        (Value::Int(x), Value::Int(y)) => {
            if *x < *y {
                Ordering::Less
            } else if *x == *y {
                Ordering::Equal
            } else {
                Ordering::Greater
            }
        },
        (Value::Str(x), Value::Str(y)) => {
            let xs = chars_of(x.as_str());
            let ys = chars_of(y.as_str());
            compare_chars(&xs, &ys)
        },
        (Value::Bool(_), _) => Ordering::Less,
        (_, Value::Bool(_)) => Ordering::Greater,
        (Value::Int(_), _) => Ordering::Less,
        (_, Value::Int(_)) => Ordering::Greater,
    }
}

} // verus!
