//! Reading the four solver fields of a rez `package.py` (`name`,
//! `version`, `requires`, `variants`) from its syntax tree, without
//! running it.
//!
//! The reader is conservative: every top-level statement must be one it
//! recognises and the solver fields must be literals; anything else makes
//! it give up (`None`), so that the caller falls back to evaluating the
//! file.
use vstd::prelude::*;
use crate::python_ast::{PyConst, PyExpr, PyStmt, parse_python_module, python_module};
use crate::requirement::strings_view;
use crate::text::str_eq;

verus! {

/// The solver fields of a package definition, as raw text.
#[derive(Clone, Debug, PartialEq, Eq)]
pub struct PackageInfo {
    /// The package family name.
    pub name: String,
    /// The version string.
    pub version: String,
    /// The requirement strings.
    pub requires: Vec<String>,
    /// The variants, each a list of requirement strings.
    pub variants: Vec<Vec<String>>,
}

/// What a `PackageInfo` holds.
pub struct PackageInfoModel {
    pub name: Seq<char>,
    pub version: Seq<char>,
    pub requires: Seq<Seq<char>>,
    pub variants: Seq<Seq<Seq<char>>>,
}

/// The texts of a sequence of string lists.
pub open spec fn string_lists_view(v: Seq<Vec<String>>) -> Seq<Seq<Seq<char>>> {
    v.map_values(|w: Vec<String>| strings_view(w@))
}

impl View for PackageInfo {
    type V = PackageInfoModel;

    open spec fn view(&self) -> PackageInfoModel {
        PackageInfoModel {
            name: self.name@,
            version: self.version@,
            requires: strings_view(self.requires@),
            variants: string_lists_view(self.variants@),
        }
    }
}

/// The model of an optional `PackageInfo`.
pub open spec fn info_view(r: Option<PackageInfo>) -> Option<PackageInfoModel> {
    match r {
        Some(i) => Some(i@),
        None => None,
    }
}

/// The four fields that the solver reads.
#[derive(PartialEq, Eq, Structural, Clone, Copy, Debug)]
pub enum SolverField {
    Name,
    Version,
    Requires,
    Variants,
}

/// The solver field that a name denotes, if any.
pub open spec fn solver_field(n: Seq<char>) -> Option<SolverField> {
    if n == "name"@ {
        Some(SolverField::Name)
    } else if n == "version"@ {
        Some(SolverField::Version)
    } else if n == "requires"@ {
        Some(SolverField::Requires)
    } else if n == "variants"@ {
        Some(SolverField::Variants)
    } else {
        None
    }
}

/// Whether an expression is a bare name that denotes a solver field.
pub open spec fn names_solver_field(e: PyExpr) -> bool {
    match e {
        PyExpr::Name(n) => solver_field(n@) is Some,
        _ => false,
    }
}

/// Whether an assignment target binds a name that denotes a solver field:
/// the name itself, or one inside a tuple, list or starred target.
pub open spec fn binds_solver_field(e: PyExpr) -> bool
    decreases e,
{
    match e {
        PyExpr::Name(n) => solver_field(n@) is Some,
        PyExpr::List(v) => exists|i: int| 0 <= i < v@.len() && binds_solver_field(#[trigger] v@[i]),
        PyExpr::Tuple(v) => exists|i: int| 0 <= i < v@.len() && binds_solver_field(#[trigger] v@[i]),
        PyExpr::Starred(b) => binds_solver_field(*b),
        _ => false,
    }
}

/// The text of a string literal.
pub open spec fn str_value(e: PyExpr) -> Option<Seq<char>> {
    match e {
        PyExpr::Constant(PyConst::Str(s)) => Some(s@),
        _ => None,
    }
}

/// The elements of a list or tuple display.
pub open spec fn elements(e: PyExpr) -> Option<Seq<PyExpr>> {
    match e {
        PyExpr::List(v) => Some(v@),
        PyExpr::Tuple(v) => Some(v@),
        _ => None,
    }
}

/// Whether every expression is a string literal.
pub open spec fn all_str(es: Seq<PyExpr>) -> bool {
    forall|i: int| 0 <= i < es.len() ==> (#[trigger] str_value(es[i])) is Some
}

/// The texts of a list or tuple of string literals.
pub open spec fn str_list_value(e: PyExpr) -> Option<Seq<Seq<char>>> {
    match elements(e) {
        Some(es) => if all_str(es) {
            Some(es.map_values(|x: PyExpr| str_value(x).unwrap()))
        } else {
            None
        },
        None => None,
    }
}

/// Whether every expression is a list or tuple of string literals.
pub open spec fn all_str_list(es: Seq<PyExpr>) -> bool {
    forall|i: int| 0 <= i < es.len() ==> (#[trigger] str_list_value(es[i])) is Some
}

/// The texts of a list or tuple of lists or tuples of string literals.
pub open spec fn str_list_list_value(e: PyExpr) -> Option<Seq<Seq<Seq<char>>>> {
    match elements(e) {
        Some(es) => if all_str_list(es) {
            Some(es.map_values(|x: PyExpr| str_list_value(x).unwrap()))
        } else {
            None
        },
        None => None,
    }
}

/// Whether an expression is a call of the bare name `scope`.
pub open spec fn is_scope_call(e: PyExpr) -> bool {
    match e {
        PyExpr::Call(f) => match *f {
            PyExpr::Name(n) => n@ == "scope"@,
            _ => false,
        },
        _ => false,
    }
}

/// Whether a `with` statement opens `scope(...)` contexts only (and at
/// least one).
pub open spec fn is_scope_with(items: Seq<PyExpr>) -> bool {
    items.len() > 0 && forall|i: int| 0 <= i < items.len() ==> #[trigger] is_scope_call(items[i])
}

/// Whether a statement assigns a solver field, at any depth of the
/// blocks of `with`, `if`, `for`, `while`, `try` and `match` statements.
pub open spec fn stmt_touches(s: PyStmt) -> bool
    decreases s,
{
    match s {
        PyStmt::Assign(targets, _) => exists|j: int|
            0 <= j < targets@.len() && binds_solver_field(#[trigger] targets@[j]),
        PyStmt::AnnAssign(t, _) => binds_solver_field(t),
        PyStmt::AugAssign(t) => binds_solver_field(t),
        PyStmt::With(_, b) => body_touches(b@),
        PyStmt::AsyncWith(_, b) => body_touches(b@),
        PyStmt::If(b, e) => body_touches(b@) || body_touches(e@),
        PyStmt::For(b, e) => body_touches(b@) || body_touches(e@),
        PyStmt::Compound(bs) => blocks_touch(bs@),
        _ => false,
    }
}

/// Whether some statement of a body assigns a solver field.
pub open spec fn body_touches(body: Seq<PyStmt>) -> bool
    decreases body,
{
    exists|i: int| 0 <= i < body.len() && stmt_touches(#[trigger] body[i])
}

/// Whether some statement of some block assigns a solver field.
pub open spec fn blocks_touch(bs: Seq<Vec<PyStmt>>) -> bool
    decreases bs,
{
    exists|i: int| 0 <= i < bs.len() && body_touches(#[trigger] bs[i]@)
}


/// The solver field that a name denotes, if any.
fn solver_field_of(n: &str) -> (r: Option<SolverField>)
    ensures
        r == solver_field(n@),
{
    if str_eq(n, "name") {
        Some(SolverField::Name)
    } else if str_eq(n, "version") {
        Some(SolverField::Version)
    } else if str_eq(n, "requires") {
        Some(SolverField::Requires)
    } else if str_eq(n, "variants") {
        Some(SolverField::Variants)
    } else {
        None
    }
}

/// Whether an expression is a bare name that denotes a solver field.
fn names_solver_field_exec(e: &PyExpr) -> (r: bool)
    ensures
        r == names_solver_field(*e),
{
    match e {
        PyExpr::Name(n) => solver_field_of(n.as_str()).is_some(),
        _ => false,
    }
}

/// Whether an assignment target binds a name that denotes a solver field.
fn binds_solver_field_exec(e: &PyExpr) -> (r: bool)
    ensures
        r == binds_solver_field(*e),
    decreases *e,
{
    match e {
        PyExpr::Name(n) => solver_field_of(n.as_str()).is_some(),
        PyExpr::List(v) => any_binds_solver_field(v.as_slice()),
        PyExpr::Tuple(v) => any_binds_solver_field(v.as_slice()),
        PyExpr::Starred(b) => binds_solver_field_exec(&**b),
        _ => false,
    }
}

/// Whether some target of a list binds a solver field.
fn any_binds_solver_field(v: &[PyExpr]) -> (r: bool)
    ensures
        r == exists|i: int| 0 <= i < v@.len() && binds_solver_field(#[trigger] v@[i]),
    decreases v@,
{
    let mut i: usize = 0;
    while i < v.len()
        invariant
            i <= v@.len(),
            forall|k: int| 0 <= k < i ==> !binds_solver_field(#[trigger] v@[k]),
        decreases v.len() - i,
    {
        if binds_solver_field_exec(&v[i]) {
            return true;
        }
        i = i + 1;
    }
    false
}

/// The text of a string literal.
fn str_literal(expr: &PyExpr) -> (r: Option<String>)
    ensures
        opt_text(r) == str_value(*expr),
{
    match expr {
        PyExpr::Constant(PyConst::Str(s)) => Some(s.clone()),
        _ => None,
    }
}

/// The text of an optional string.
pub open spec fn opt_text(r: Option<String>) -> Option<Seq<char>> {
    match r {
        Some(s) => Some(s@),
        None => None,
    }
}

/// The texts of an optional list of strings.
pub open spec fn opt_texts(r: Option<Vec<String>>) -> Option<Seq<Seq<char>>> {
    match r {
        Some(v) => Some(strings_view(v@)),
        None => None,
    }
}

/// The texts of an optional list of string lists.
pub open spec fn opt_text_lists(r: Option<Vec<Vec<String>>>) -> Option<Seq<Seq<Seq<char>>>> {
    match r {
        Some(v) => Some(string_lists_view(v@)),
        None => None,
    }
}

/// The elements of a list or tuple display.
fn elements_of(expr: &PyExpr) -> (r: Option<&Vec<PyExpr>>)
    ensures
        match r {
            Some(v) => elements(*expr) == Some(v@),
            None => elements(*expr) is None,
        },
{
    match expr {
        PyExpr::List(v) => Some(v),
        PyExpr::Tuple(v) => Some(v),
        _ => None,
    }
}

/// The texts of a list or tuple of string literals.
fn list_of_str_literal(expr: &PyExpr) -> (r: Option<Vec<String>>)
    ensures
        opt_texts(r) == str_list_value(*expr),
{
    let elts = match elements_of(expr) {
        Some(v) => v,
        None => return None,
    };
    let mut out: Vec<String> = Vec::new();
    let mut i: usize = 0;
    while i < elts.len()
        invariant
            i <= elts@.len(),
            out@.len() == i,
            elements(*expr) == Some(elts@),
            all_str(elts@.take(i as int)),
            strings_view(out@) == elts@.take(i as int).map_values(|x: PyExpr| str_value(x).unwrap()),
        decreases elts.len() - i,
    {
        match str_literal(&elts[i]) {
            Some(s) => {
                let ghost before = out@;
                out.push(s);
                proof {
                    let t = elts@.take(i as int + 1);
                    let p = elts@.take(i as int);
                    assert forall|k: int| 0 <= k < t.len() implies (#[trigger] str_value(t[k])) is Some by {
                        if k < i {
                            assert(t[k] == p[k]);
                        }
                    }
                    assert forall|k: int| 0 <= k < t.len() implies #[trigger] strings_view(out@)[k]
                        == t.map_values(|x: PyExpr| str_value(x).unwrap())[k] by {
                        if k < i {
                            assert(t[k] == p[k]);
                            assert(out@[k] == before[k]);
                            assert(strings_view(before)[k] == p.map_values(|x: PyExpr| str_value(x).unwrap())[k]);
                        }
                    }
                    assert(strings_view(out@) =~= t.map_values(|x: PyExpr| str_value(x).unwrap()));
                }
            },
            None => {
                proof {
                    assert(!all_str(elts@));
                }
                return None;
            },
        }
        i = i + 1;
    }
    assert(elts@.take(i as int) =~= elts@);
    Some(out)
}

/// The texts of a list or tuple of lists or tuples of string literals.
fn list_of_list_of_str_literal(expr: &PyExpr) -> (r: Option<Vec<Vec<String>>>)
    ensures
        opt_text_lists(r) == str_list_list_value(*expr),
{
    let outer = match elements_of(expr) {
        Some(v) => v,
        None => return None,
    };
    let mut out: Vec<Vec<String>> = Vec::new();
    let mut i: usize = 0;
    while i < outer.len()
        invariant
            i <= outer@.len(),
            out@.len() == i,
            elements(*expr) == Some(outer@),
            all_str_list(outer@.take(i as int)),
            string_lists_view(out@) == outer@.take(i as int).map_values(
                |x: PyExpr| str_list_value(x).unwrap(),
            ),
        decreases outer.len() - i,
    {
        match list_of_str_literal(&outer[i]) {
            Some(v) => {
                let ghost before = out@;
                out.push(v);
                proof {
                    let t = outer@.take(i as int + 1);
                    let p = outer@.take(i as int);
                    assert forall|k: int| 0 <= k < t.len() implies (#[trigger] str_list_value(t[k])) is Some by {
                        if k < i {
                            assert(t[k] == p[k]);
                        }
                    }
                    assert forall|k: int| 0 <= k < t.len() implies #[trigger] string_lists_view(out@)[k]
                        == t.map_values(|x: PyExpr| str_list_value(x).unwrap())[k] by {
                        if k < i {
                            assert(t[k] == p[k]);
                            assert(out@[k] == before[k]);
                            assert(string_lists_view(before)[k] == p.map_values(|x: PyExpr| str_list_value(x).unwrap())[k]);
                        }
                    }
                    assert(string_lists_view(out@) =~= t.map_values(|x: PyExpr| str_list_value(x).unwrap()));
                }
            },
            None => {
                proof {
                    assert(!all_str_list(outer@));
                }
                return None;
            },
        }
        i = i + 1;
    }
    assert(outer@.take(i as int) =~= outer@);
    Some(out)
}

/// Whether an expression is a call of the bare name `scope`.
fn is_scope_call_exec(expr: &PyExpr) -> (r: bool)
    ensures
        r == is_scope_call(*expr),
{
    match expr {
        PyExpr::Call(f) => match &**f {
            PyExpr::Name(n) => str_eq(n.as_str(), "scope"),
            _ => false,
        },
        _ => false,
    }
}

/// Whether a `with` statement opens `scope(...)` contexts only.
fn is_scope_with_exec(items: &[PyExpr]) -> (r: bool)
    ensures
        r == is_scope_with(items@),
{
    if items.len() == 0 {
        return false;
    }
    let mut i: usize = 0;
    while i < items.len()
        invariant
            i <= items@.len(),
            forall|k: int| 0 <= k < i ==> #[trigger] is_scope_call(items@[k]),
        decreases items.len() - i,
    {
        if !is_scope_call_exec(&items[i]) {
            return false;
        }
        i = i + 1;
    }
    true
}

/// Whether a statement assigns a solver field, at any depth.
fn stmt_touches_solver_field(stmt: &PyStmt) -> (r: bool)
    ensures
        r == stmt_touches(*stmt),
    decreases *stmt,
{
    match stmt {
        PyStmt::Assign(targets, _) => any_binds_solver_field(targets.as_slice()),
        PyStmt::AnnAssign(t, _) => binds_solver_field_exec(t),
        PyStmt::AugAssign(t) => binds_solver_field_exec(t),
        PyStmt::With(_, b) => with_body_touches_solver_field(b.as_slice()),
        PyStmt::AsyncWith(_, b) => with_body_touches_solver_field(b.as_slice()),
        PyStmt::If(b, e) => with_body_touches_solver_field(b.as_slice())
            || with_body_touches_solver_field(e.as_slice()),
        PyStmt::For(b, e) => with_body_touches_solver_field(b.as_slice())
            || with_body_touches_solver_field(e.as_slice()),
        PyStmt::Compound(bs) => blocks_touch_solver_field(bs.as_slice()),
        _ => false,
    }
}

/// Whether a statement of some block assigns a solver field, at any
/// depth.
fn blocks_touch_solver_field(bs: &[Vec<PyStmt>]) -> (r: bool)
    ensures
        r == blocks_touch(bs@),
    decreases bs@,
{
    let mut i: usize = 0;
    while i < bs.len()
        invariant
            i <= bs@.len(),
            forall|k: int| 0 <= k < i ==> !body_touches(#[trigger] bs@[k]@),
        decreases bs.len() - i,
    {
        if with_body_touches_solver_field(bs[i].as_slice()) {
            return true;
        }
        i = i + 1;
    }
    false
}

/// Whether a statement of a body assigns a solver field, at any depth of
/// the blocks of compound statements. Keeps a `with scope(...)` block from
/// shadowing a solver field.
pub fn with_body_touches_solver_field(body: &[PyStmt]) -> (r: bool)
    ensures
        r == body_touches(body@),
    decreases body@,
{
    let mut i: usize = 0;
    while i < body.len()
        invariant
            i <= body@.len(),
            forall|k: int| 0 <= k < i ==> !stmt_touches(#[trigger] body@[k]),
        decreases body.len() - i,
    {
        if stmt_touches_solver_field(&body[i]) {
            return true;
        }
        i = i + 1;
    }
    false
}


/// What the reader has gathered so far: each solver field that was
/// assigned, and whether a statement has been passed (a string literal
/// standing first is the module's docstring).
pub struct ScanModel {
    pub name: Option<Seq<char>>,
    pub version: Option<Seq<char>>,
    pub requires: Option<Seq<Seq<char>>>,
    pub variants: Option<Seq<Seq<Seq<char>>>>,
    pub started: bool,
}

/// Nothing gathered yet.
pub open spec fn scan_start() -> ScanModel {
    ScanModel { name: None, version: None, requires: None, variants: None, started: false }
}

/// Assigns `value` to a solver field; `None` (give up) where the value
/// is not a literal of the field's shape.
pub open spec fn set_field(m: ScanModel, f: SolverField, value: PyExpr) -> Option<ScanModel> {
    match f {
        SolverField::Name => match str_value(value) {
            Some(s) => Some(ScanModel { name: Some(s), ..m }),
            None => None,
        },
        SolverField::Version => match str_value(value) {
            Some(s) => Some(ScanModel { version: Some(s), ..m }),
            None => None,
        },
        SolverField::Requires => match str_list_value(value) {
            Some(l) => Some(ScanModel { requires: Some(l), ..m }),
            None => None,
        },
        SolverField::Variants => match str_list_list_value(value) {
            Some(l) => Some(ScanModel { variants: Some(l), ..m }),
            None => None,
        },
    }
}

/// One target of an assignment: a bare name that denotes a solver field
/// takes the value; the reader gives up on a tuple, list or starred
/// target that binds a solver field; any other target is passed over.
pub open spec fn assign_target(st: Option<ScanModel>, target: PyExpr, value: PyExpr) -> Option<ScanModel> {
    match st {
        None => None,
        Some(m) => match target {
            PyExpr::Name(n) => match solver_field(n@) {
                Some(f) => set_field(m, f, value),
                None => Some(m),
            },
            _ => if binds_solver_field(target) {
                None
            } else {
                Some(m)
            },
        },
    }
}

/// The targets of an assignment, in order.
pub open spec fn assign_targets(st: Option<ScanModel>, targets: Seq<PyExpr>, value: PyExpr) -> Option<ScanModel>
    decreases targets.len(),
{
    if targets.len() == 0 {
        st
    } else {
        assign_target(assign_targets(st, targets.drop_last(), value), targets.last(), value)
    }
}

/// Whether a statement is a bare string literal.
pub open spec fn is_docstring(s: PyStmt) -> bool {
    match s {
        PyStmt::Expr(e) => str_value(e) is Some,
        _ => false,
    }
}

/// One top-level statement; `None` where the reader gives up.
pub open spec fn scan_stmt(m0: ScanModel, s: PyStmt) -> Option<ScanModel> {
    if !m0.started && is_docstring(s) {
        Some(ScanModel { started: true, ..m0 })
    } else {
        let m = ScanModel { started: true, ..m0 };
        match s {
            PyStmt::With(items, body) => if is_scope_with(items@) && !body_touches(body@) {
                Some(m)
            } else {
                None
            },
            PyStmt::AsyncWith(items, body) => if is_scope_with(items@) && !body_touches(body@) {
                Some(m)
            } else {
                None
            },
            PyStmt::FunctionDef(n) => if solver_field(n@) is Some {
                None
            } else {
                Some(m)
            },
            PyStmt::AsyncFunctionDef(n) => if solver_field(n@) is Some {
                None
            } else {
                Some(m)
            },
            PyStmt::Assign(targets, value) => assign_targets(Some(m), targets@, value),
            PyStmt::AnnAssign(target, value) => match target {
                PyExpr::Name(n) => match solver_field(n@) {
                    Some(f) => match value {
                        Some(v) => set_field(m, f, v),
                        None => None,
                    },
                    None => Some(m),
                },
                _ => Some(m),
            },
            PyStmt::AugAssign(target) => if names_solver_field(target) {
                None
            } else {
                Some(m)
            },
            _ => None,
        }
    }
}

/// The top-level statements, in order; `None` where the reader gives up.
pub open spec fn scan(stmts: Seq<PyStmt>) -> Option<ScanModel>
    decreases stmts.len(),
{
    if stmts.len() == 0 {
        Some(scan_start())
    } else {
        match scan(stmts.drop_last()) {
            Some(m) => scan_stmt(m, stmts.last()),
            None => None,
        }
    }
}

/// The solver fields of a module's top-level statements: `None` where the
/// reader gives up or `name` or `version` is not assigned; `requires` and
/// `variants` default to empty.
pub open spec fn static_package(stmts: Seq<PyStmt>) -> Option<PackageInfoModel> {
    match scan(stmts) {
        Some(m) => if m.name is Some && m.version is Some {
            Some(PackageInfoModel {
                name: m.name.unwrap(),
                version: m.version.unwrap(),
                requires: match m.requires {
                    Some(r) => r,
                    None => Seq::empty(),
                },
                variants: match m.variants {
                    Some(v) => v,
                    None => Seq::empty(),
                },
            })
        } else {
            None
        },
        None => None,
    }
}

/// Once the reader gives up, it stays so.
proof fn lemma_scan_gives_up(stmts: Seq<PyStmt>, i: int, j: int)
    requires
        0 <= i <= j <= stmts.len(),
        scan(stmts.take(i)) is None,
    ensures
        scan(stmts.take(j)) is None,
    decreases j - i,
{
    if i < j {
        lemma_scan_gives_up(stmts, i, j - 1);
        assert(stmts.take(j).drop_last() =~= stmts.take(j - 1));
    }
}

/// The reader's state.
struct Scan {
    name: Option<String>,
    version: Option<String>,
    requires: Option<Vec<String>>,
    variants: Option<Vec<Vec<String>>>,
    started: bool,
}

impl View for Scan {
    type V = ScanModel;

    closed spec fn view(&self) -> ScanModel {
        ScanModel {
            name: opt_text(self.name),
            version: opt_text(self.version),
            requires: opt_texts(self.requires),
            variants: opt_text_lists(self.variants),
            started: self.started,
        }
    }
}

impl Scan {
    /// Assigns `value` to a solver field; `false` where the value has not
    /// the field's shape.
    fn set_field(&mut self, f: SolverField, value: &PyExpr) -> (ok: bool)
        ensures
            ok == set_field(old(self)@, f, *value) is Some,
            ok ==> set_field(old(self)@, f, *value) == Some(final(self)@),
    {
        match f {
            SolverField::Name => match str_literal(value) {
                Some(s) => {
                    self.name = Some(s);
                    true
                },
                None => false,
            },
            SolverField::Version => match str_literal(value) {
                Some(s) => {
                    self.version = Some(s);
                    true
                },
                None => false,
            },
            SolverField::Requires => match list_of_str_literal(value) {
                Some(l) => {
                    self.requires = Some(l);
                    true
                },
                None => false,
            },
            SolverField::Variants => match list_of_list_of_str_literal(value) {
                Some(l) => {
                    self.variants = Some(l);
                    true
                },
                None => false,
            },
        }
    }

    /// The targets of an assignment; `false` where the reader gives up.
    fn assign(&mut self, targets: &[PyExpr], value: &PyExpr) -> (ok: bool)
        ensures
            ok == assign_targets(Some(old(self)@), targets@, *value) is Some,
            ok ==> assign_targets(Some(old(self)@), targets@, *value) == Some(final(self)@),
    {
        let ghost start = self@;
        let mut j: usize = 0;
        while j < targets.len()
            invariant
                j <= targets@.len(),
                start == old(self)@,
                assign_targets(Some(start), targets@.take(j as int), *value) == Some(self@),
            decreases targets.len() - j,
        {
            let ghost before = self@;
            proof {
                assert(targets@.take(j as int + 1).drop_last() =~= targets@.take(j as int));
            }
            match &targets[j] {
                PyExpr::Name(n) => match solver_field_of(n.as_str()) {
                    Some(f) => {
                        if !self.set_field(f, value) {
                            proof {
                                assert(targets@.take(j as int + 1).last() == targets@[j as int]);
                                assert(assign_targets(Some(start), targets@.take(j as int + 1), *value)
                                    == assign_target(Some(before), targets@[j as int], *value));
                                lemma_assign_gives_up(start, targets@, *value, j as int + 1);
                            }
                            return false;
                        }
                    },
                    None => {},
                },
                t => {
                    if binds_solver_field_exec(t) {
                        proof {
                            assert(targets@.take(j as int + 1).last() == targets@[j as int]);
                            assert(assign_targets(Some(start), targets@.take(j as int + 1), *value)
                                == assign_target(Some(before), targets@[j as int], *value));
                            lemma_assign_gives_up(start, targets@, *value, j as int + 1);
                        }
                        return false;
                    }
                },
            }
            j = j + 1;
        }
        assert(targets@.take(j as int) =~= targets@);
        true
    }

    /// One top-level statement; `false` where the reader gives up.
    fn step(&mut self, stmt: &PyStmt) -> (ok: bool)
        ensures
            ok == scan_stmt(old(self)@, *stmt) is Some,
            ok ==> scan_stmt(old(self)@, *stmt) == Some(final(self)@),
    {
        if !self.started {
            if let PyStmt::Expr(e) = stmt {
                if str_literal(e).is_some() {
                    self.started = true;
                    return true;
                }
            }
        }
        self.started = true;
        match stmt {
            PyStmt::With(items, body) => is_scope_with_exec(items.as_slice())
                && !with_body_touches_solver_field(body.as_slice()),
            PyStmt::AsyncWith(items, body) => is_scope_with_exec(items.as_slice())
                && !with_body_touches_solver_field(body.as_slice()),
            PyStmt::FunctionDef(n) => solver_field_of(n.as_str()).is_none(),
            PyStmt::AsyncFunctionDef(n) => solver_field_of(n.as_str()).is_none(),
            PyStmt::Assign(targets, value) => self.assign(targets.as_slice(), value),
            PyStmt::AnnAssign(target, value) => match target {
                PyExpr::Name(n) => match solver_field_of(n.as_str()) {
                    Some(f) => match value {
                        Some(v) => self.set_field(f, v),
                        None => false,
                    },
                    None => true,
                },
                _ => true,
            },
            PyStmt::AugAssign(target) => !names_solver_field_exec(target),
            _ => false,
        }
    }
}

/// Once an assignment gives up, it stays so.
proof fn lemma_assign_gives_up(st: ScanModel, targets: Seq<PyExpr>, value: PyExpr, i: int)
    requires
        0 <= i <= targets.len(),
        assign_targets(Some(st), targets.take(i), value) is None,
    ensures
        assign_targets(Some(st), targets, value) is None,
    decreases targets.len() - i,
{
    if i < targets.len() {
        assert(targets.take(i + 1).drop_last() =~= targets.take(i));
        lemma_assign_gives_up(st, targets, value, i + 1);
    } else {
        assert(targets.take(i) =~= targets);
    }
}

/// The solver fields of a module's top-level statements (see
/// `static_package`).
pub fn static_package_info(stmts: &[PyStmt]) -> (r: Option<PackageInfo>)
    ensures
        info_view(r) == static_package(stmts@),
{
    let mut st = Scan { name: None, version: None, requires: None, variants: None, started: false };
    let mut i: usize = 0;
    assert(stmts@.take(0) =~= Seq::<PyStmt>::empty());
    while i < stmts.len()
        invariant
            i <= stmts@.len(),
            scan(stmts@.take(i as int)) == Some(st@),
        decreases stmts.len() - i,
    {
        proof {
            assert(stmts@.take(i as int + 1).drop_last() =~= stmts@.take(i as int));
        }
        if !st.step(&stmts[i]) {
            proof {
                lemma_scan_gives_up(stmts@, i as int + 1, stmts@.len() as int);
                assert(stmts@.take(stmts@.len() as int) =~= stmts@);
            }
            return None;
        }
        i = i + 1;
    }
    assert(stmts@.take(i as int) =~= stmts@);
    match (st.name, st.version) {
        (Some(name), Some(version)) => {
            let req_list = match st.requires {
                Some(r) => r,
                None => Vec::new(),
            };
            let variants = match st.variants {
                Some(v) => v,
                None => Vec::new(),
            };
            let info = PackageInfo { name, version, requires: req_list, variants };
            assert(info@.requires =~= static_package(stmts@).unwrap().requires);
            assert(info@.variants =~= static_package(stmts@).unwrap().variants);
            Some(info)
        },
        _ => None,
    }
}

/// Reads the solver fields of a rez `package.py` from its source without
/// running it: `None` where the source is not valid Python, where some
/// top-level statement could make the fields dynamic, or where `name` or
/// `version` is missing.
pub fn parse_static_package_py(source: &str) -> (r: Option<PackageInfo>)
    ensures
        match python_module(source@) {
            Some(stmts) => info_view(r) == static_package(stmts),
            None => r is None,
        },
{
    match parse_python_module(source) {
        Some(stmts) => static_package_info(stmts.as_slice()),
        None => None,
    }
}


/// A top-level `if` or `for`, or any statement that the reader does not
/// recognise (an import, a class, a `while`, a `try`, ...), makes it give
/// up, whatever the rest of the module holds.
pub proof fn law_unrecognised_statement_gives_up(stmts: Seq<PyStmt>, i: int)
    requires
        0 <= i < stmts.len(),
        stmts[i] is Other || stmts[i] is If || stmts[i] is For,
    ensures
        static_package(stmts) is None,
{
    assert(stmts.take(i + 1).drop_last() =~= stmts.take(i));
    assert(stmts.take(i + 1).last() == stmts[i]);
    lemma_scan_gives_up(stmts, i + 1, stmts.len() as int);
    assert(stmts.take(stmts.len() as int) =~= stmts);
}

/// A `with scope(...)` block that assigns a solver field anywhere in its
/// body makes the reader give up.
pub proof fn law_scope_block_touching_solver_field_gives_up(stmts: Seq<PyStmt>, i: int)
    requires
        0 <= i < stmts.len(),
        stmts[i] matches PyStmt::With(_, body) && body_touches(body@),
    ensures
        static_package(stmts) is None,
{
    assert(stmts.take(i + 1).drop_last() =~= stmts.take(i));
    assert(stmts.take(i + 1).last() == stmts[i]);
    lemma_scan_gives_up(stmts, i + 1, stmts.len() as int);
    assert(stmts.take(stmts.len() as int) =~= stmts);
}

/// Whether a value is a literal of the shape of a solver field.
pub open spec fn literal_of_field(f: SolverField, value: PyExpr) -> bool {
    match f {
        SolverField::Name => str_value(value) is Some,
        SolverField::Version => str_value(value) is Some,
        SolverField::Requires => str_list_value(value) is Some,
        SolverField::Variants => str_list_list_value(value) is Some,
    }
}

/// The targets of an assignment from `k` on, once one has failed, give up.
proof fn lemma_targets_fail(st: ScanModel, targets: Seq<PyExpr>, value: PyExpr, j: int, k: int)
    requires
        0 <= j < k <= targets.len(),
        targets[j] is Name,
        solver_field(targets[j]->Name_0@) is Some,
        !literal_of_field(solver_field(targets[j]->Name_0@).unwrap(), value),
    ensures
        assign_targets(Some(st), targets.take(k), value) is None,
    decreases k,
{
    assert(targets.take(k).drop_last() =~= targets.take(k - 1));
    assert(targets.take(k).last() == targets[k - 1]);
    if k - 1 > j {
        lemma_targets_fail(st, targets, value, j, k - 1);
    } else {
        let prev = assign_targets(Some(st), targets.take(k - 1), value);
        if let Some(m) = prev {
            let f = solver_field(targets[j]->Name_0@).unwrap();
            assert(set_field(m, f, value) is None);
        }
    }
}

/// Assigning a solver field something other than a literal of its shape
/// (a call, a name, an expression, a list holding anything but strings)
/// makes the reader give up, whatever the rest of the module holds.
pub proof fn law_non_literal_solver_field_gives_up(stmts: Seq<PyStmt>, i: int, j: int)
    requires
        0 <= i < stmts.len(),
        stmts[i] is Assign,
        0 <= j < stmts[i]->Assign_0@.len(),
        stmts[i]->Assign_0@[j] is Name,
        solver_field(stmts[i]->Assign_0@[j]->Name_0@) is Some,
        !literal_of_field(solver_field(stmts[i]->Assign_0@[j]->Name_0@).unwrap(), stmts[i]->Assign_1),
    ensures
        static_package(stmts) is None,
{
    assert(stmts.take(i + 1).drop_last() =~= stmts.take(i));
    assert(stmts.take(i + 1).last() == stmts[i]);
    if let Some(m0) = scan(stmts.take(i)) {
        let targets = stmts[i]->Assign_0@;
        let value = stmts[i]->Assign_1;
        let m = ScanModel { started: true, ..m0 };
        lemma_targets_fail(m, targets, value, j, targets.len() as int);
        assert(targets.take(targets.len() as int) =~= targets);
        assert(!is_docstring(stmts[i]));
    }
    lemma_scan_gives_up(stmts, i + 1, stmts.len() as int);
    assert(stmts.take(stmts.len() as int) =~= stmts);
}

/// What the reader returns holds the last literal assigned to `name` and
/// to `version`: neither is ever left out.
pub proof fn law_result_has_name_and_version(stmts: Seq<PyStmt>)
    requires
        static_package(stmts) is Some,
    ensures
        scan(stmts) matches Some(m) && m.name == Some(static_package(stmts).unwrap().name)
            && m.version == Some(static_package(stmts).unwrap().version),
{
}

} // verus!
