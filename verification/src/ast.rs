//! The tlarc AST: the mirror of the `tla-ast/v1` JSON that the SANY bridge
//! emits (see the schema document of the bridge).

use vstd::prelude::*;

verus! {

/// The AST schema version.
pub const AST_SCHEMA: &'static str = "tla-ast/v1";

/// Root of the bridge output.
#[derive(Debug, Clone, PartialEq)]
pub struct Document {
    pub schema: String,
    pub module: Module,
}

/// A resolved TLA+ module (the root module of the spec).
#[derive(Debug, Clone, PartialEq)]
pub struct Module {
    pub name: String,
    pub constants: Vec<OpDecl>,
    pub variables: Vec<OpDecl>,
    pub operators: Vec<OpDef>,
}

/// A variable or constant declaration.
#[derive(Debug, Clone, PartialEq)]
pub struct OpDecl {
    pub name: String,
    /// SANY's printable kind name, e.g. "OpDeclKind".
    pub kind: String,
}

/// An operator definition: `Name(p1, ..., pn) == body`.
#[derive(Debug, PartialEq)]
pub struct OpDef {
    pub name: String,
    pub arity: usize,
    pub params: Vec<String>,
    pub body: Expr,
}

/// An expression node, tagged in JSON by its `kind` field.
///
/// Unknown constructs are surfaced as [`Expr::Unhandled`] rather than
/// rejected.
#[derive(Debug, PartialEq)]
pub enum Expr {
    /// Operator application `f(a1, ..., an)`; `operator` is the SANY
    /// symbol name, e.g. `"="` for equality.
    OpAppl { operator: String, args: Vec<Expr> },
    /// An integer literal, as a decimal string.
    Numeral { value: String },
    /// A string literal.
    String { value: String },
    /// `LET d1 == e1 ... dn == en IN body`
    LetIn { defs: Vec<OpDef>, body: Box<Expr> },
    /// A construct the AST does not model yet; `node_type` (the JSON field
    /// `type`) names the SANY node class, or "oparg" for operator arguments.
    Unhandled { node_type: String },
}

/// The content of an expression: its strings as characters and its lists
/// as sequences.
pub enum ExprView {
    OpAppl { operator: Seq<char>, args: Seq<ExprView> },
    Numeral { value: Seq<char> },
    String { value: Seq<char> },
    LetIn { defs: Seq<OpDefView>, body: Box<ExprView> },
    Unhandled { node_type: Seq<char> },
}

/// The content of an operator definition.
pub struct OpDefView {
    pub name: Seq<char>,
    pub arity: usize,
    pub params: Seq<Seq<char>>,
    pub body: ExprView,
}

/// The content of an expression.
pub open spec fn expr_view(e: Expr) -> ExprView
    decreases e,
{
    match e {
        Expr::OpAppl { operator, args } => ExprView::OpAppl {
            operator: operator@,
            args: exprs_view(args@),
        },
        Expr::Numeral { value } => ExprView::Numeral { value: value@ },
        Expr::String { value } => ExprView::String { value: value@ },
        Expr::LetIn { defs, body } => ExprView::LetIn {
            defs: op_defs_view(defs@),
            body: Box::new(expr_view(*body)),
        },
        Expr::Unhandled { node_type } => ExprView::Unhandled { node_type: node_type@ },
    }
}

/// The contents of a sequence of expressions.
pub open spec fn exprs_view(s: Seq<Expr>) -> Seq<ExprView>
    decreases s,
{
    if s.len() == 0 {
        Seq::empty()
    } else {
        exprs_view(s.subrange(0, s.len() - 1)).push(expr_view(s[s.len() - 1]))
    }
}

/// The content of an operator definition.
pub open spec fn op_def_view(d: OpDef) -> OpDefView
    decreases d,
{
    OpDefView {
        name: d.name@,
        arity: d.arity,
        params: d.params@.map_values(|p: String| p@),
        body: expr_view(d.body),
    }
}

/// The contents of a sequence of operator definitions.
pub open spec fn op_defs_view(s: Seq<OpDef>) -> Seq<OpDefView>
    decreases s,
{
    if s.len() == 0 {
        Seq::empty()
    } else {
        op_defs_view(s.subrange(0, s.len() - 1)).push(op_def_view(s[s.len() - 1]))
    }
}

impl View for Expr {
    type V = ExprView;

    open spec fn view(&self) -> ExprView {
        expr_view(*self)
    }
}

impl View for OpDef {
    type V = OpDefView;

    open spec fn view(&self) -> OpDefView {
        op_def_view(*self)
    }
}

proof fn lemma_exprs_view_push(s: Seq<Expr>, e: Expr)
    ensures
        exprs_view(s.push(e)) == exprs_view(s).push(expr_view(e)),
{
    assert(s.push(e).subrange(0, s.len() as int) =~= s);
}

proof fn lemma_op_defs_view_push(s: Seq<OpDef>, d: OpDef)
    ensures
        op_defs_view(s.push(d)) == op_defs_view(s).push(op_def_view(d)),
{
    assert(s.push(d).subrange(0, s.len() as int) =~= s);
}

/// A copy of `e`, node by node.
fn clone_expr(e: &Expr) -> (r: Expr)
    ensures
        r@ == e@,
    decreases e,
{
    match e {
        Expr::OpAppl { operator, args } => Expr::OpAppl {
            operator: operator.clone(),
            args: clone_exprs(args),
        },
        Expr::Numeral { value } => Expr::Numeral { value: value.clone() },
        Expr::String { value } => Expr::String { value: value.clone() },
        Expr::LetIn { defs, body } => Expr::LetIn {
            defs: clone_op_defs(defs),
            body: Box::new(clone_expr(body)),
        },
        Expr::Unhandled { node_type } => Expr::Unhandled { node_type: node_type.clone() },
    }
}

/// A copy of each expression of `v`, in order.
fn clone_exprs(v: &Vec<Expr>) -> (r: Vec<Expr>)
    ensures
        exprs_view(r@) == exprs_view(v@),
    decreases v,
{
    let mut r: Vec<Expr> = Vec::new();
    let mut i: usize = 0;
    while i < v.len()
        invariant
            i <= v.len(),
            exprs_view(r@) == exprs_view(v@.take(i as int)),
        decreases v.len() - i,
    {
        proof {
            assert(decreases_to!(v => v@));
            assert(decreases_to!(v@ => v@[i as int]));
        }
        let c = clone_expr(&v[i]);
        proof {
            lemma_exprs_view_push(r@, c);
            lemma_exprs_view_push(v@.take(i as int), v@[i as int]);
            assert(v@.take(i + 1) =~= v@.take(i as int).push(v@[i as int]));
        }
        r.push(c);
        i = i + 1;
    }
    assert(v@.take(v.len() as int) =~= v@);
    r
}

/// A copy of each string of `v`, in order.
fn clone_strings(v: &Vec<String>) -> (r: Vec<String>)
    ensures
        r@ == v@,
{
    let mut r: Vec<String> = Vec::new();
    let mut i: usize = 0;
    while i < v.len()
        invariant
            i <= v.len(),
            r@ == v@.take(i as int),
        decreases v.len() - i,
    {
        r.push(v[i].clone());
        assert(v@.take(i + 1) =~= v@.take(i as int).push(v@[i as int]));
        i = i + 1;
    }
    assert(v@.take(v.len() as int) =~= v@);
    r
}

/// A copy of `d`.
fn clone_op_def(d: &OpDef) -> (r: OpDef)
    ensures
        r@ == d@,
    decreases d,
{
    OpDef {
        name: d.name.clone(),
        arity: d.arity,
        params: clone_strings(&d.params),
        body: clone_expr(&d.body),
    }
}

/// A copy of each definition of `v`, in order.
fn clone_op_defs(v: &Vec<OpDef>) -> (r: Vec<OpDef>)
    ensures
        op_defs_view(r@) == op_defs_view(v@),
    decreases v,
{
    let mut r: Vec<OpDef> = Vec::new();
    let mut i: usize = 0;
    while i < v.len()
        invariant
            i <= v.len(),
            op_defs_view(r@) == op_defs_view(v@.take(i as int)),
        decreases v.len() - i,
    {
        proof {
            assert(decreases_to!(v => v@));
            assert(decreases_to!(v@ => v@[i as int]));
        }
        let c = clone_op_def(&v[i]);
        proof {
            lemma_op_defs_view_push(r@, c);
            lemma_op_defs_view_push(v@.take(i as int), v@[i as int]);
            assert(v@.take(i + 1) =~= v@.take(i as int).push(v@[i as int]));
        }
        r.push(c);
        i = i + 1;
    }
    assert(v@.take(v.len() as int) =~= v@);
    r
}

impl Clone for Expr {
    /// A copy with the same content.
    fn clone(&self) -> (r: Self)
        ensures
            r@ == self@,
    {
        clone_expr(self)
    }
}

impl Clone for OpDef {
    /// A copy with the same content.
    fn clone(&self) -> (r: Self)
        ensures
            r@ == self@,
    {
        clone_op_def(self)
    }
}

} // verus!
