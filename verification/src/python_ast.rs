//! The part of a Python module's syntax tree that the readers of package
//! definition files look at: top-level statements, the targets and values
//! of assignments, literal constants, lists, names and calls.
//!
//! Parsing itself is done by `rustpython_parser`; its tree is written into
//! these plain types field for field, and everything past that point is
//! verified code over them.
use vstd::prelude::*;
use rustpython_parser::ast::{Constant, ExceptHandler, Expr, Mod, Stmt};

verus! {

/// A literal constant.
#[derive(Debug)]
pub enum PyConst {
    /// A string literal.
    Str(String),
    /// `True` or `False`.
    Bool(bool),
    /// `None`.
    NoneValue,
    /// Any other literal (a number, bytes, a tuple, `...`).
    Other,
}

/// An expression.
#[derive(Debug)]
pub enum PyExpr {
    /// A literal constant.
    Constant(PyConst),
    /// A bare name.
    Name(String),
    /// A list display `[a, b, ...]`.
    List(Vec<PyExpr>),
    /// A tuple display `(a, b, ...)`.
    Tuple(Vec<PyExpr>),
    /// A call; the expression that is called.
    Call(Box<PyExpr>),
    /// A starred expression `*value`.
    Starred(Box<PyExpr>),
    /// Any other expression.
    Other,
}

/// A statement.
#[derive(Debug)]
pub enum PyStmt {
    /// An expression statement.
    Expr(PyExpr),
    /// `t1 = t2 = ... = value`: the targets, then the value.
    Assign(Vec<PyExpr>, PyExpr),
    /// `target: annotation = value`, the value being optional.
    AnnAssign(PyExpr, Option<PyExpr>),
    /// `target op= value`: the target.
    AugAssign(PyExpr),
    /// `def name(...)`.
    FunctionDef(String),
    /// `async def name(...)`.
    AsyncFunctionDef(String),
    /// `with items: body`: the context expressions, then the body.
    With(Vec<PyExpr>, Vec<PyStmt>),
    /// `async with items: body`.
    AsyncWith(Vec<PyExpr>, Vec<PyStmt>),
    /// `if ...: body else: orelse`.
    If(Vec<PyStmt>, Vec<PyStmt>),
    /// `for ... in ...: body else: orelse`.
    For(Vec<PyStmt>, Vec<PyStmt>),
    /// Another statement with blocks of statements: `while` and
    /// `async for` (body, `else`), `try` (body, each handler's body,
    /// `else`, `finally`) and `match` (each case's body).
    Compound(Vec<Vec<PyStmt>>),
    /// Any other statement (imports, classes, `del`, `pass`, ...).
    Other,
}

#[verifier::external_type_specification]
#[verifier::external_body]
#[verifier::reject_recursive_types(R)]
pub struct ExPyStmt<R>(rustpython_parser::ast::Stmt<R>);

#[verifier::external_type_specification]
#[verifier::external_body]
#[verifier::reject_recursive_types(R)]
pub struct ExPyExpr<R>(rustpython_parser::ast::Expr<R>);

#[verifier::external_type_specification]
#[verifier::external_body]
pub struct ExTextRange(rustpython_parser::text_size::TextRange);

/// The top-level statements of `source` read as a Python module, or
/// `None` where it is not valid Python.
pub uninterp spec fn python_module(source: Seq<char>) -> Option<Seq<PyStmt>>;

/// The statements of an optional vector, as a sequence.
pub open spec fn stmts_view(r: Option<Vec<PyStmt>>) -> Option<Seq<PyStmt>> {
    match r {
        Some(v) => Some(v@),
        None => None,
    }
}

/// Parses `source` with `rustpython_parser::parse` in module mode and
/// writes the module's top-level statements into `PyStmt`.
///
/// Claimed: the result depends on the source text alone (it is named
/// `python_module`). Not claimed: which texts parse, nor what the
/// statements are; those are the parser's.
#[verifier::external_body]
pub fn parse_python_module(source: &str) -> (r: Option<Vec<PyStmt>>)
    ensures
        stmts_view(r) == python_module(source@),
{
    match rustpython_parser::parse(source, rustpython_parser::Mode::Module, "<package.py>") {
        Ok(Mod::Module(m)) => Some(stmts_node(&m.body)),
        _ => None,
    }
}

/// Writes statements of the parser's tree into `PyStmt`, one for one.
#[verifier::external_body]
fn stmts_node(body: &[Stmt]) -> Vec<PyStmt> {
    body.iter().map(stmt_node).collect()
}

/// Writes one statement of the parser's tree into `PyStmt`.
#[verifier::external_body]
fn stmt_node(s: &Stmt) -> PyStmt {
    match s {
        Stmt::Expr(e) => PyStmt::Expr(expr_node(&e.value)),
        Stmt::Assign(a) => PyStmt::Assign(exprs_node(&a.targets), expr_node(&a.value)),
        Stmt::AnnAssign(a) => PyStmt::AnnAssign(expr_node(&a.target), a.value.as_deref().map(expr_node)),
        Stmt::AugAssign(a) => PyStmt::AugAssign(expr_node(&a.target)),
        Stmt::FunctionDef(f) => PyStmt::FunctionDef(f.name.as_str().to_string()),
        Stmt::AsyncFunctionDef(f) => PyStmt::AsyncFunctionDef(f.name.as_str().to_string()),
        _ => block_node(s),
    }
}

/// Writes a compound statement of the parser's tree into `PyStmt`.
#[verifier::external_body]
fn block_node(s: &Stmt) -> PyStmt {
    match s {
        Stmt::With(w) => PyStmt::With(w.items.iter().map(|i| expr_node(&i.context_expr)).collect(), stmts_node(&w.body)),
        Stmt::AsyncWith(w) => PyStmt::AsyncWith(w.items.iter().map(|i| expr_node(&i.context_expr)).collect(), stmts_node(&w.body)),
        Stmt::If(i) => PyStmt::If(stmts_node(&i.body), stmts_node(&i.orelse)),
        Stmt::For(f) => PyStmt::For(stmts_node(&f.body), stmts_node(&f.orelse)),
        _ => compound_node(s),
    }
}

/// Writes a `while`, `async for`, `try` or `match` statement of the
/// parser's tree into `PyStmt`, with its blocks in order.
#[verifier::external_body]
fn compound_node(s: &Stmt) -> PyStmt {
    match s {
        Stmt::While(w) => PyStmt::Compound(vec![stmts_node(&w.body), stmts_node(&w.orelse)]),
        Stmt::AsyncFor(f) => PyStmt::Compound(vec![stmts_node(&f.body), stmts_node(&f.orelse)]),
        Stmt::Try(_) | Stmt::TryStar(_) => try_node(s),
        Stmt::Match(m) => PyStmt::Compound(m.cases.iter().map(|c| stmts_node(&c.body)).collect()),
        _ => PyStmt::Other,
    }
}

/// Writes a `try` (or `try ... except*`) statement of the parser's tree
/// into `PyStmt`: its body, each handler's body, its `else` and its
/// `finally`.
#[verifier::external_body]
fn try_node(s: &Stmt) -> PyStmt {
    let (body, handlers, orelse, finalbody) = match s {
        Stmt::Try(t) => (&t.body, &t.handlers, &t.orelse, &t.finalbody),
        Stmt::TryStar(t) => (&t.body, &t.handlers, &t.orelse, &t.finalbody),
        _ => return PyStmt::Other,
    };
    let mut blocks = vec![stmts_node(body)];
    blocks.extend(handlers.iter().map(|h| match h {
        ExceptHandler::ExceptHandler(e) => stmts_node(&e.body),
    }));
    blocks.push(stmts_node(orelse));
    blocks.push(stmts_node(finalbody));
    PyStmt::Compound(blocks)
}

/// Writes expressions of the parser's tree into `PyExpr`, one for one.
#[verifier::external_body]
fn exprs_node(es: &[Expr]) -> Vec<PyExpr> {
    es.iter().map(expr_node).collect()
}

/// Writes one expression of the parser's tree into `PyExpr`.
#[verifier::external_body]
fn expr_node(e: &Expr) -> PyExpr {
    match e {
        Expr::Constant(c) => PyExpr::Constant(match &c.value {
            Constant::Str(s) => PyConst::Str(s.clone()),
            Constant::Bool(b) => PyConst::Bool(*b),
            Constant::None => PyConst::NoneValue,
            _ => PyConst::Other,
        }),
        Expr::Name(n) => PyExpr::Name(n.id.as_str().to_string()),
        Expr::List(l) => PyExpr::List(exprs_node(&l.elts)),
        Expr::Tuple(t) => PyExpr::Tuple(exprs_node(&t.elts)),
        Expr::Call(c) => PyExpr::Call(Box::new(expr_node(&c.func))),
        Expr::Starred(st) => PyExpr::Starred(Box::new(expr_node(&st.value))),
        _ => PyExpr::Other,
    }
}

} // verus!
