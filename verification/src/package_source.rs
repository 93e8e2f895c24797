//! Reading every top-level assignment of a package definition file into
//! the standard rez package attributes, keeping the others aside.
use vstd::prelude::*;
use crate::python_ast::{PyConst, PyExpr, PyStmt, parse_python_module, python_module};
use crate::requirement::strings_view;
use crate::text::str_eq;

verus! {

/// A value assigned at the top level: a constant, a list of constants,
/// or a list of lists of constants.
#[derive(Debug)]
pub enum PyValue {
    Constant(PyConst),
    List(Vec<PyConst>),
    NestedList(Vec<Vec<PyConst>>),
}

/// What a `PyConst` holds.
pub enum ConstModel {
    Str(Seq<char>),
    Bool(bool),
    NoneValue,
    Other,
}

/// What a `PyValue` holds.
pub enum ValueModel {
    Constant(ConstModel),
    List(Seq<ConstModel>),
    NestedList(Seq<Seq<ConstModel>>),
}

pub open spec fn const_view(c: PyConst) -> ConstModel {
    match c {
        PyConst::Str(s) => ConstModel::Str(s@),
        PyConst::Bool(b) => ConstModel::Bool(b),
        PyConst::NoneValue => ConstModel::NoneValue,
        PyConst::Other => ConstModel::Other,
    }
}

pub open spec fn consts_view(v: Seq<PyConst>) -> Seq<ConstModel> {
    v.map_values(|c: PyConst| const_view(c))
}

pub open spec fn value_view(v: PyValue) -> ValueModel {
    match v {
        PyValue::Constant(c) => ValueModel::Constant(const_view(c)),
        PyValue::List(l) => ValueModel::List(consts_view(l@)),
        PyValue::NestedList(l) => ValueModel::NestedList(
            l@.map_values(|w: Vec<PyConst>| consts_view(w@)),
        ),
    }
}

pub open spec fn opt_value_view(v: Option<PyValue>) -> Option<ValueModel> {
    match v {
        Some(x) => Some(value_view(x)),
        None => None,
    }
}

/// The model of one assignment: the name, and the value where it is of a
/// kind that is kept.
pub type EntryModel = (Seq<char>, Option<ValueModel>);

pub open spec fn entry_view(e: (String, Option<PyValue>)) -> EntryModel {
    (e.0@, opt_value_view(e.1))
}

pub open spec fn entries_view(v: Seq<(String, Option<PyValue>)>) -> Seq<EntryModel> {
    v.map_values(|e: (String, Option<PyValue>)| entry_view(e))
}

/// The constants among the expressions, in order.
pub open spec fn constants_in(es: Seq<PyExpr>) -> Seq<ConstModel>
    decreases es.len(),
{
    if es.len() == 0 {
        Seq::empty()
    } else {
        constants_in(es.drop_last()) + match es.last() {
            PyExpr::Constant(c) => seq![const_view(c)],
            _ => Seq::empty(),
        }
    }
}

/// The constants of each list among the expressions, in order.
pub open spec fn lists_in(es: Seq<PyExpr>) -> Seq<Seq<ConstModel>>
    decreases es.len(),
{
    if es.len() == 0 {
        Seq::empty()
    } else {
        lists_in(es.drop_last()) + match es.last() {
            PyExpr::List(inner) => seq![constants_in(inner@)],
            _ => Seq::empty(),
        }
    }
}

/// Whether a list display is among the expressions.
pub open spec fn has_list(es: Seq<PyExpr>) -> bool {
    exists|i: int| 0 <= i < es.len() && (#[trigger] es[i]) is List
}

/// The value kept of an assigned expression: a constant; the constants of
/// a list; or, where a list holds lists, the constants of each of those.
/// Any other expression keeps no value.
pub open spec fn assigned_value(e: PyExpr) -> Option<ValueModel> {
    match e {
        PyExpr::Constant(c) => Some(ValueModel::Constant(const_view(c))),
        PyExpr::List(es) => Some(
            if has_list(es@) {
                ValueModel::NestedList(lists_in(es@))
            } else {
                ValueModel::List(constants_in(es@))
            },
        ),
        _ => None,
    }
}

/// An assignment whose first target is a bare name: that name with the
/// value kept; `None` for any other assignment.
pub open spec fn assign_entry(targets: Seq<PyExpr>, value: PyExpr) -> Option<EntryModel> {
    if targets.len() > 0 {
        match targets[0] {
            PyExpr::Name(n) => Some((n@, assigned_value(value))),
            _ => None,
        }
    } else {
        None
    }
}

/// The index of the entry named `k`, from `i` on.
pub open spec fn key_index(m: Seq<EntryModel>, k: Seq<char>, i: int) -> Option<int>
    decreases m.len() - i,
{
    if i < 0 || i >= m.len() {
        None
    } else if m[i].0 == k {
        Some(i)
    } else {
        key_index(m, k, i + 1)
    }
}

/// Records an entry: it replaces the entry of the same name, or is added
/// at the end.
pub open spec fn put_entry(m: Seq<EntryModel>, e: EntryModel) -> Seq<EntryModel> {
    match key_index(m, e.0, 0) {
        Some(k) => m.update(k, e),
        None => m.push(e),
    }
}

/// The top-level assignments of a module, each name once with the value
/// of its last assignment, in the order of first assignment.
pub open spec fn assignments(stmts: Seq<PyStmt>) -> Seq<EntryModel>
    decreases stmts.len(),
{
    if stmts.len() == 0 {
        Seq::empty()
    } else {
        let prev = assignments(stmts.drop_last());
        match stmts.last() {
            PyStmt::Assign(targets, value) => match assign_entry(targets@, value) {
                Some(e) => put_entry(prev, e),
                None => prev,
            },
            _ => prev,
        }
    }
}

/// The copy of a constant.
fn copy_const(c: &PyConst) -> (r: PyConst)
    ensures
        const_view(r) == const_view(*c),
{
    match c {
        PyConst::Str(s) => PyConst::Str(s.clone()),
        PyConst::Bool(b) => PyConst::Bool(*b),
        PyConst::NoneValue => PyConst::NoneValue,
        PyConst::Other => PyConst::Other,
    }
}

/// The constants among the expressions, in order.
fn constants_of(es: &[PyExpr]) -> (r: Vec<PyConst>)
    ensures
        consts_view(r@) == constants_in(es@),
{
    let mut out: Vec<PyConst> = Vec::new();
    let mut i: usize = 0;
    while i < es.len()
        invariant
            i <= es@.len(),
            consts_view(out@) == constants_in(es@.take(i as int)),
        decreases es.len() - i,
    {
        let ghost before = out@;
        proof {
            assert(es@.take(i as int + 1).drop_last() =~= es@.take(i as int));
        }
        match &es[i] {
            PyExpr::Constant(c) => {
                out.push(copy_const(c));
                assert(consts_view(out@) =~= consts_view(before) + seq![const_view(*c)]);
            },
            _ => {
                assert(consts_view(out@) =~= consts_view(before) + Seq::<ConstModel>::empty());
            },
        }
        i = i + 1;
    }
    assert(es@.take(i as int) =~= es@);
    out
}

/// The value kept of an assigned expression (see `assigned_value`).
fn value_of(e: &PyExpr) -> (r: Option<PyValue>)
    ensures
        opt_value_view(r) == assigned_value(*e),
{
    match e {
        PyExpr::Constant(c) => Some(PyValue::Constant(copy_const(c))),
        PyExpr::List(es) => {
            let list = constants_of(es.as_slice());
            let mut nested: Vec<Vec<PyConst>> = Vec::new();
            let mut is_nested = false;
            let mut i: usize = 0;
            while i < es.len()
                invariant
                    i <= es@.len(),
                    nested@.map_values(|w: Vec<PyConst>| consts_view(w@)) == lists_in(es@.take(i as int)),
                    is_nested == has_list(es@.take(i as int)),
                decreases es.len() - i,
            {
                let ghost before = nested@;
                let ghost t = es@.take(i as int + 1);
                proof {
                    assert(t.drop_last() =~= es@.take(i as int));
                }
                match &es[i] {
                    PyExpr::List(inner) => {
                        is_nested = true;
                        nested.push(constants_of(inner.as_slice()));
                        assert(t[i as int] is List);
                        assert(nested@.map_values(|w: Vec<PyConst>| consts_view(w@)) =~= before.map_values(
                            |w: Vec<PyConst>| consts_view(w@),
                        ) + seq![constants_in(inner@)]);
                    },
                    _ => {
                        assert(nested@.map_values(|w: Vec<PyConst>| consts_view(w@)) =~= before.map_values(
                            |w: Vec<PyConst>| consts_view(w@),
                        ) + Seq::<Seq<ConstModel>>::empty());
                        proof {
                            if is_nested {
                                let j = choose|j: int| 0 <= j < i && (#[trigger] es@.take(i as int)[j]) is List;
                                assert(t[j] == es@.take(i as int)[j]);
                                assert(t[j] is List);
                            } else {
                                assert forall|j: int| 0 <= j < t.len() implies !((#[trigger] t[j]) is List) by {
                                    if j < i {
                                        assert(t[j] == es@.take(i as int)[j]);
                                    }
                                }
                            }
                        }
                    },
                }
                i = i + 1;
            }
            assert(es@.take(i as int) =~= es@);
            if is_nested {
                Some(PyValue::NestedList(nested))
            } else {
                Some(PyValue::List(list))
            }
        },
        _ => None,
    }
}

/// Reads one assignment: its first target, where that is a bare name,
/// with the value kept (see `assign_entry`).
pub fn parse_assign_statement(targets: &[PyExpr], value: &PyExpr) -> (r: Option<(String, Option<PyValue>)>)
    ensures
        match r {
            Some(e) => assign_entry(targets@, *value) == Some(entry_view(e)),
            None => assign_entry(targets@, *value) is None,
        },
{
    if targets.len() == 0 {
        return None;
    }
    match &targets[0] {
        PyExpr::Name(n) => Some((n.clone(), value_of(value))),
        _ => None,
    }
}


/// The index of the entry named `k`, if any.
fn find_key(m: &[(String, Option<PyValue>)], k: &str) -> (r: Option<usize>)
    ensures
        match r {
            Some(i) => key_index(entries_view(m@), k@, 0) == Some(i as int) && i < m@.len(),
            None => key_index(entries_view(m@), k@, 0) is None,
        },
{
    let ghost mv = entries_view(m@);
    let mut i: usize = 0;
    while i < m.len()
        invariant
            i <= m@.len(),
            mv == entries_view(m@),
            key_index(mv, k@, 0) == key_index(mv, k@, i as int),
        decreases m.len() - i,
    {
        assert(mv[i as int].0 == m@[i as int].0@);
        if str_eq(m[i].0.as_str(), k) {
            return Some(i);
        }
        i = i + 1;
    }
    None
}

/// Reads the top-level assignments of a module (see `assignments`).
pub fn parse_assign_statements(stmts: &[PyStmt]) -> (r: Vec<(String, Option<PyValue>)>)
    ensures
        entries_view(r@) == assignments(stmts@),
{
    let mut out: Vec<(String, Option<PyValue>)> = Vec::new();
    let mut i: usize = 0;
    while i < stmts.len()
        invariant
            i <= stmts@.len(),
            entries_view(out@) == assignments(stmts@.take(i as int)),
        decreases stmts.len() - i,
    {
        proof {
            assert(stmts@.take(i as int + 1).drop_last() =~= stmts@.take(i as int));
        }
        let ghost before = entries_view(out@);
        if let PyStmt::Assign(targets, value) = &stmts[i] {
            if let Some(e) = parse_assign_statement(targets.as_slice(), value) {
                let ghost em = entry_view(e);
                match find_key(out.as_slice(), e.0.as_str()) {
                    Some(k) => {
                        out.set(k, e);
                        assert(entries_view(out@) =~= before.update(k as int, em));
                    },
                    None => {
                        out.push(e);
                        assert(entries_view(out@) =~= before.push(em));
                    },
                }
            }
        }
        i = i + 1;
    }
    assert(stmts@.take(i as int) =~= stmts@);
    out
}

/// The value assigned to `k`: `Some` of the kept value where `k` is
/// assigned.
pub open spec fn lookup(m: Seq<EntryModel>, k: Seq<char>) -> Option<Option<ValueModel>> {
    match key_index(m, k, 0) {
        Some(i) => Some(m[i].1),
        None => None,
    }
}

/// An attribute assigned a string.
pub open spec fn str_attr(m: Seq<EntryModel>, k: Seq<char>) -> Option<Seq<char>> {
    match lookup(m, k) {
        Some(Some(ValueModel::Constant(ConstModel::Str(s)))) => Some(s),
        _ => None,
    }
}

/// An attribute assigned `True` or `False`.
pub open spec fn bool_attr(m: Seq<EntryModel>, k: Seq<char>) -> Option<bool> {
    match lookup(m, k) {
        Some(Some(ValueModel::Constant(ConstModel::Bool(b)))) => Some(b),
        _ => None,
    }
}

/// The strings among constants, in order.
pub open spec fn strs_in(cs: Seq<ConstModel>) -> Seq<Seq<char>>
    decreases cs.len(),
{
    if cs.len() == 0 {
        Seq::empty()
    } else {
        strs_in(cs.drop_last()) + match cs.last() {
            ConstModel::Str(s) => seq![s],
            _ => Seq::empty(),
        }
    }
}

/// An attribute assigned a list: its strings.
pub open spec fn list_attr(m: Seq<EntryModel>, k: Seq<char>) -> Option<Seq<Seq<char>>> {
    match lookup(m, k) {
        Some(Some(ValueModel::List(cs))) => Some(strs_in(cs)),
        _ => None,
    }
}

/// An attribute assigned a list of lists: the strings of each.
pub open spec fn nested_attr(m: Seq<EntryModel>, k: Seq<char>) -> Option<Seq<Seq<Seq<char>>>> {
    match lookup(m, k) {
        Some(Some(ValueModel::NestedList(vs))) => Some(vs.map_values(|w: Seq<ConstModel>| strs_in(w))),
        _ => None,
    }
}

/// Whether a name is one of the standard package attributes.
pub open spec fn is_standard(k: Seq<char>) -> bool {
    k == "name"@ || k == "version"@ || k == "description"@ || k == "requires"@
        || k == "variants"@ || k == "authors"@ || k == "build_requires"@ || k == "cachable"@
        || k == "has_plugins"@ || k == "hashed_variants"@ || k == "plugin_for"@
        || k == "relocatable"@ || k == "tools"@ || k == "uuid"@
}

/// The assignments to other names, with `None` standing for a value that
/// is not kept.
pub open spec fn custom_of(m: Seq<EntryModel>) -> Seq<(Seq<char>, ValueModel)>
    decreases m.len(),
{
    if m.len() == 0 {
        Seq::empty()
    } else {
        let e = m.last();
        custom_of(m.drop_last()) + if is_standard(e.0) {
            Seq::empty()
        } else {
            seq![(e.0, match e.1 {
                Some(v) => v,
                None => ValueModel::Constant(ConstModel::NoneValue),
            })]
        }
    }
}

/// What a `Package` holds.
pub struct PackageModel {
    pub name: Option<Seq<char>>,
    pub version: Option<Seq<char>>,
    pub description: Option<Seq<char>>,
    pub requires: Option<Seq<Seq<char>>>,
    pub variants: Option<Seq<Seq<Seq<char>>>>,
    pub authors: Option<Seq<Seq<char>>>,
    pub build_requires: Option<Seq<Seq<char>>>,
    pub cachable: Option<bool>,
    pub has_plugins: Option<bool>,
    pub hashed_variants: Option<bool>,
    pub plugin_for: Option<Seq<char>>,
    pub relocatable: Option<bool>,
    pub tools: Option<Seq<Seq<char>>>,
    pub uuid: Option<Seq<char>>,
    pub custom: Seq<(Seq<char>, ValueModel)>,
}

/// The package that a module's assignments describe: each standard
/// attribute where it is assigned a value of its kind (strings kept out
/// of lists), the other assignments aside.
pub open spec fn package_of(m: Seq<EntryModel>) -> PackageModel {
    PackageModel {
        name: str_attr(m, "name"@),
        version: str_attr(m, "version"@),
        description: str_attr(m, "description"@),
        requires: list_attr(m, "requires"@),
        variants: nested_attr(m, "variants"@),
        authors: list_attr(m, "authors"@),
        build_requires: list_attr(m, "build_requires"@),
        cachable: bool_attr(m, "cachable"@),
        has_plugins: bool_attr(m, "has_plugins"@),
        hashed_variants: bool_attr(m, "hashed_variants"@),
        plugin_for: str_attr(m, "plugin_for"@),
        relocatable: bool_attr(m, "relocatable"@),
        tools: list_attr(m, "tools"@),
        uuid: str_attr(m, "uuid"@),
        custom: custom_of(m),
    }
}

pub open spec fn opt_str_view(o: Option<String>) -> Option<Seq<char>> {
    match o {
        Some(s) => Some(s@),
        None => None,
    }
}

pub open spec fn opt_strs_view(o: Option<Vec<String>>) -> Option<Seq<Seq<char>>> {
    match o {
        Some(v) => Some(strings_view(v@)),
        None => None,
    }
}

pub open spec fn opt_str_lists_view(o: Option<Vec<Vec<String>>>) -> Option<Seq<Seq<Seq<char>>>> {
    match o {
        Some(v) => Some(v@.map_values(|w: Vec<String>| strings_view(w@))),
        None => None,
    }
}

pub open spec fn customs_view(v: Seq<(String, PyValue)>) -> Seq<(Seq<char>, ValueModel)> {
    v.map_values(|e: (String, PyValue)| (e.0@, value_view(e.1)))
}

/// A rez package read from the assignments of its definition file.
#[derive(Debug)]
pub struct Package {
    name: Option<String>,
    version: Option<String>,
    description: Option<String>,
    requires: Option<Vec<String>>,
    variants: Option<Vec<Vec<String>>>,
    authors: Option<Vec<String>>,
    build_requires: Option<Vec<String>>,
    cachable: Option<bool>,
    has_plugins: Option<bool>,
    hashed_variants: Option<bool>,
    plugin_for: Option<String>,
    relocatable: Option<bool>,
    tools: Option<Vec<String>>,
    uuid: Option<String>,
    custom_attributes: Vec<(String, PyValue)>,
}

impl View for Package {
    type V = PackageModel;

    closed spec fn view(&self) -> PackageModel {
        PackageModel {
            name: opt_str_view(self.name),
            version: opt_str_view(self.version),
            description: opt_str_view(self.description),
            requires: opt_strs_view(self.requires),
            variants: opt_str_lists_view(self.variants),
            authors: opt_strs_view(self.authors),
            build_requires: opt_strs_view(self.build_requires),
            cachable: self.cachable,
            has_plugins: self.has_plugins,
            hashed_variants: self.hashed_variants,
            plugin_for: opt_str_view(self.plugin_for),
            relocatable: self.relocatable,
            tools: opt_strs_view(self.tools),
            uuid: opt_str_view(self.uuid),
            custom: customs_view(self.custom_attributes@),
        }
    }
}

/// The strings among constants, in order.
fn strs_of(cs: &[PyConst]) -> (r: Vec<String>)
    ensures
        strings_view(r@) == strs_in(consts_view(cs@)),
{
    let mut out: Vec<String> = Vec::new();
    let mut i: usize = 0;
    while i < cs.len()
        invariant
            i <= cs@.len(),
            strings_view(out@) == strs_in(consts_view(cs@.take(i as int))),
        decreases cs.len() - i,
    {
        let ghost before = strings_view(out@);
        proof {
            assert(consts_view(cs@.take(i as int + 1)).drop_last() =~= consts_view(cs@.take(i as int)));
            assert(consts_view(cs@.take(i as int + 1)).last() == const_view(cs@[i as int]));
        }
        match &cs[i] {
            PyConst::Str(s) => {
                out.push(s.clone());
                assert(strings_view(out@) =~= before + seq![s@]);
            },
            _ => {
                assert(strings_view(out@) =~= before + Seq::<Seq<char>>::empty());
            },
        }
        i = i + 1;
    }
    assert(cs@.take(i as int) =~= cs@);
    out
}

/// The value assigned to `k`, if `k` is assigned.
fn lookup_exec<'a>(raw: &'a [(String, Option<PyValue>)], k: &str) -> (r: Option<&'a Option<PyValue>>)
    ensures
        match r {
            Some(v) => lookup(entries_view(raw@), k@) == Some(opt_value_view(*v)),
            None => lookup(entries_view(raw@), k@) is None,
        },
{
    match find_key(raw, k) {
        Some(i) => Some(&raw[i].1),
        None => None,
    }
}

/// An attribute assigned a string.
fn str_attr_exec(raw: &[(String, Option<PyValue>)], k: &str) -> (r: Option<String>)
    ensures
        opt_str_view(r) == str_attr(entries_view(raw@), k@),
{
    match lookup_exec(raw, k) {
        Some(Some(PyValue::Constant(PyConst::Str(s)))) => Some(s.clone()),
        _ => None,
    }
}

/// An attribute assigned `True` or `False`.
fn bool_attr_exec(raw: &[(String, Option<PyValue>)], k: &str) -> (r: Option<bool>)
    ensures
        r == bool_attr(entries_view(raw@), k@),
{
    match lookup_exec(raw, k) {
        Some(Some(PyValue::Constant(PyConst::Bool(b)))) => Some(*b),
        _ => None,
    }
}

/// An attribute assigned a list: its strings.
fn list_attr_exec(raw: &[(String, Option<PyValue>)], k: &str) -> (r: Option<Vec<String>>)
    ensures
        opt_strs_view(r) == list_attr(entries_view(raw@), k@),
{
    match lookup_exec(raw, k) {
        Some(Some(PyValue::List(cs))) => Some(strs_of(cs.as_slice())),
        _ => None,
    }
}

/// An attribute assigned a list of lists: the strings of each.
fn nested_attr_exec(raw: &[(String, Option<PyValue>)], k: &str) -> (r: Option<Vec<Vec<String>>>)
    ensures
        opt_str_lists_view(r) == nested_attr(entries_view(raw@), k@),
{
    match lookup_exec(raw, k) {
        Some(Some(PyValue::NestedList(vs))) => {
            let mut out: Vec<Vec<String>> = Vec::new();
            let mut i: usize = 0;
            while i < vs.len()
                invariant
                    i <= vs@.len(),
                    out@.len() == i,
                    forall|j: int| 0 <= j < i ==> strings_view(#[trigger] out@[j]@) == strs_in(consts_view(vs@[j]@)),
                decreases vs.len() - i,
            {
                out.push(strs_of(vs[i].as_slice()));
                i = i + 1;
            }
            let ghost want = vs@.map_values(|w: Vec<PyConst>| consts_view(w@)).map_values(
                |w: Seq<ConstModel>| strs_in(w),
            );
            assert(out@.map_values(|w: Vec<String>| strings_view(w@)) =~= want);
            Some(out)
        },
        _ => None,
    }
}

/// Whether a name is one of the standard package attributes.
fn is_standard_exec(k: &str) -> (r: bool)
    ensures
        r == is_standard(k@),
{
    str_eq(k, "name") || str_eq(k, "version") || str_eq(k, "description") || str_eq(k, "requires")
        || str_eq(k, "variants") || str_eq(k, "authors") || str_eq(k, "build_requires")
        || str_eq(k, "cachable") || str_eq(k, "has_plugins") || str_eq(k, "hashed_variants")
        || str_eq(k, "plugin_for") || str_eq(k, "relocatable") || str_eq(k, "tools")
        || str_eq(k, "uuid")
}

/// The copy of a value.
fn copy_value(v: &PyValue) -> (r: PyValue)
    ensures
        value_view(r) == value_view(*v),
{
    match v {
        PyValue::Constant(c) => PyValue::Constant(copy_const(c)),
        PyValue::List(cs) => PyValue::List(copy_consts(cs.as_slice())),
        PyValue::NestedList(vs) => {
            let mut out: Vec<Vec<PyConst>> = Vec::new();
            let mut i: usize = 0;
            while i < vs.len()
                invariant
                    i <= vs@.len(),
                    out@.len() == i,
                    forall|j: int| 0 <= j < i ==> consts_view(#[trigger] out@[j]@) == consts_view(vs@[j]@),
                decreases vs.len() - i,
            {
                out.push(copy_consts(vs[i].as_slice()));
                i = i + 1;
            }
            assert(out@.map_values(|w: Vec<PyConst>| consts_view(w@)) =~= vs@.map_values(
                |w: Vec<PyConst>| consts_view(w@),
            ));
            PyValue::NestedList(out)
        },
    }
}

/// The copy of a list of constants.
fn copy_consts(cs: &[PyConst]) -> (r: Vec<PyConst>)
    ensures
        consts_view(r@) == consts_view(cs@),
{
    let mut out: Vec<PyConst> = Vec::new();
    let mut i: usize = 0;
    while i < cs.len()
        invariant
            i <= cs@.len(),
            out@.len() == i,
            forall|j: int| 0 <= j < i ==> const_view(#[trigger] out@[j]) == const_view(cs@[j]),
        decreases cs.len() - i,
    {
        out.push(copy_const(&cs[i]));
        i = i + 1;
    }
    assert(consts_view(out@) =~= consts_view(cs@));
    out
}

/// The assignments to other names (see `custom_of`).
fn custom_attributes_of(raw: &[(String, Option<PyValue>)]) -> (r: Vec<(String, PyValue)>)
    ensures
        customs_view(r@) == custom_of(entries_view(raw@)),
{
    let mut out: Vec<(String, PyValue)> = Vec::new();
    let mut i: usize = 0;
    while i < raw.len()
        invariant
            i <= raw@.len(),
            customs_view(out@) == custom_of(entries_view(raw@.take(i as int))),
        decreases raw.len() - i,
    {
        let ghost before = customs_view(out@);
        proof {
            assert(entries_view(raw@.take(i as int + 1)).drop_last() =~= entries_view(raw@.take(i as int)));
            assert(entries_view(raw@.take(i as int + 1)).last() == entry_view(raw@[i as int]));
        }
        if !is_standard_exec(raw[i].0.as_str()) {
            let v = match &raw[i].1 {
                Some(v) => copy_value(v),
                None => PyValue::Constant(PyConst::NoneValue),
            };
            out.push((raw[i].0.clone(), v));
            assert(customs_view(out@) =~= before + seq![(raw@[i as int].0@, value_view(v))]);
        } else {
            assert(customs_view(out@) =~= before + Seq::<(Seq<char>, ValueModel)>::empty());
        }
        i = i + 1;
    }
    assert(raw@.take(i as int) =~= raw@);
    out
}

impl Package {
    /// The package described by assignments, each name once (see
    /// `package_of`).
    pub fn from_data(raw_data: &[(String, Option<PyValue>)]) -> (p: Package)
        ensures
            p@ == package_of(entries_view(raw_data@)),
    {
        Package {
            name: str_attr_exec(raw_data, "name"),
            version: str_attr_exec(raw_data, "version"),
            description: str_attr_exec(raw_data, "description"),
            requires: list_attr_exec(raw_data, "requires"),
            variants: nested_attr_exec(raw_data, "variants"),
            authors: list_attr_exec(raw_data, "authors"),
            build_requires: list_attr_exec(raw_data, "build_requires"),
            cachable: bool_attr_exec(raw_data, "cachable"),
            has_plugins: bool_attr_exec(raw_data, "has_plugins"),
            hashed_variants: bool_attr_exec(raw_data, "hashed_variants"),
            plugin_for: str_attr_exec(raw_data, "plugin_for"),
            relocatable: bool_attr_exec(raw_data, "relocatable"),
            tools: list_attr_exec(raw_data, "tools"),
            uuid: str_attr_exec(raw_data, "uuid"),
            custom_attributes: custom_attributes_of(raw_data),
        }
    }

    /// Reads a package from the source of its definition file: `None`
    /// where the source is not valid Python.
    pub fn from_source(source: &str) -> (r: Option<Package>)
        ensures
            match python_module(source@) {
                Some(stmts) => r matches Some(p) && p@ == package_of(assignments(stmts)),
                None => r is None,
            },
    {
        match parse_python_module(source) {
            Some(stmts) => {
                let raw = parse_assign_statements(stmts.as_slice());
                Some(Package::from_data(raw.as_slice()))
            },
            None => None,
        }
    }

    /// The requirements of the package, empty where none are assigned.
    pub fn get_dependencies(&self) -> (r: Vec<String>)
        ensures
            strings_view(r@) == match self@.requires {
                Some(v) => v,
                None => Seq::empty(),
            },
    {
        match &self.requires {
            Some(v) => {
                let mut out: Vec<String> = Vec::new();
                let mut i: usize = 0;
                while i < v.len()
                    invariant
                        i <= v@.len(),
                        out@.len() == i,
                        forall|j: int| 0 <= j < i ==> (#[trigger] out@[j])@ == v@[j]@,
                    decreases v.len() - i,
                {
                    out.push(v[i].clone());
                    i = i + 1;
                }
                assert(strings_view(out@) =~= strings_view(v@));
                out
            },
            None => Vec::new(),
        }
    }
}

} // verus!
