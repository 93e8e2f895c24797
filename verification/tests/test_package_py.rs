use rer::package_py::parse_static_package_py;

/// Smallest static `package.py`.
#[test]
fn parses_minimal_static() {
    let src = r#"
name = "foo"
version = "1.0.0"
"#;
    let info = parse_static_package_py(src).expect("static minimal");
    assert_eq!(info.name, "foo");
    assert_eq!(info.version, "1.0.0");
    assert_eq!(info.requires, Vec::<String>::new());
    assert_eq!(info.variants, Vec::<Vec<String>>::new());
}

#[test]
fn parses_full_static() {
    let src = r#"
name = "maya"
version = "2024.0"
description = "irrelevant"
authors = ["Autodesk"]
requires = ["python-3", "qt-5"]
variants = [["linux", "python-3.10"], ["linux", "python-3.11"]]

def commands():
    env.PYTHONPATH.append("{root}/python")
"#;
    let info = parse_static_package_py(src).expect("full static");
    assert_eq!(info.name, "maya");
    assert_eq!(info.version, "2024.0");
    assert_eq!(info.requires, vec!["python-3", "qt-5"]);
    assert_eq!(
        info.variants,
        vec![
            vec!["linux".to_string(), "python-3.10".to_string()],
            vec!["linux".to_string(), "python-3.11".to_string()]
        ]
    );
}

/// The dominant Fortiche-corpus pattern: solver fields at top level
/// plus a `with scope("config")` block setting non-solver fields.
/// Accounts for 34.9% of the Fortiche repo per the survey.
#[test]
fn parses_with_scope_config() {
    let src = r#"
# -*- coding: utf-8 -*-
name = "fortichebox"
version = "0.2.0"
requires = ["python-2.7+<3"]

def commands():
    env["FPATH"].append("$SPACE/generic")

with scope("config") as config:
    config.release_packages_path = "/some/path"
    config.something_else = 42

timestamp = 1642007300
"#;
    let info = parse_static_package_py(src).expect("with scope is ignorable");
    assert_eq!(info.name, "fortichebox");
    assert_eq!(info.version, "0.2.0");
    assert_eq!(info.requires, vec!["python-2.7+<3"]);
    assert!(info.variants.is_empty());
}

#[test]
fn ignores_module_docstring() {
    let src = r#""""Some docstring."""

name = "foo"
version = "1.0"
"#;
    assert!(parse_static_package_py(src).is_some());
}

#[test]
fn ignores_unknown_top_level_fields() {
    // `description`, `authors`, `tools`, `tests`, `build_command`,
    // `timestamp`, `format_version`, `hashed_variants`, …
    let src = r#"
name = "foo"
version = "1.0"
description = "anything"
authors = ["Alice", "Bob"]
tools = ["foo-cli"]
timestamp = 123456789
format_version = 2
hashed_variants = True
build_command = "cmake ..."
"#;
    assert!(parse_static_package_py(src).is_some());
}

// --- Bail cases ----------------------------------------------------

#[test]
fn bails_on_at_early_requires() {
    let src = r#"
name = "foo"
version = "1.0"

@early()
def requires():
    return ["python-3"]
"#;
    assert!(parse_static_package_py(src).is_none());
}

#[test]
fn bails_on_at_late_variants() {
    let src = r#"
name = "foo"
version = "1.0"

@late()
def variants():
    return [["a"]]
"#;
    assert!(parse_static_package_py(src).is_none());
}

#[test]
fn bails_on_top_level_if() {
    let src = r#"
name = "foo"
version = "1.0"

import os
if os.getenv("DEV"):
    requires = ["dev-lib"]
else:
    requires = ["prod-lib"]
"#;
    assert!(parse_static_package_py(src).is_none());
}

#[test]
fn bails_on_import() {
    let src = r#"
import sys

name = "foo"
version = "1.0"
"#;
    assert!(parse_static_package_py(src).is_none());
}

#[test]
fn bails_on_from_import() {
    let src = r#"
from sys import platform

name = "foo"
version = "1.0"
"#;
    assert!(parse_static_package_py(src).is_none());
}

#[test]
fn bails_on_classdef() {
    let src = r#"
name = "foo"
version = "1.0"

class Helper:
    pass
"#;
    assert!(parse_static_package_py(src).is_none());
}

#[test]
fn bails_on_non_scope_with() {
    let src = r#"
name = "foo"
version = "1.0"

with open("config.json") as f:
    pass
"#;
    assert!(parse_static_package_py(src).is_none());
}

#[test]
fn bails_on_scope_with_that_touches_solver_field() {
    // Pathological — scope-with that rebinds `name` (in real Python,
    // `name = ...` inside a `with` block IS module-level).
    let src = r#"
name = "foo"
version = "1.0"

with scope("config") as config:
    config.release_path = "/foo"
    name = "rebinding"
"#;
    assert!(parse_static_package_py(src).is_none());
}

#[test]
fn bails_on_non_literal_name() {
    // `name = a + b` — not a literal.
    let src = r#"
prefix = "f"
name = prefix + "oo"
version = "1.0"
"#;
    assert!(parse_static_package_py(src).is_none());
}

#[test]
fn bails_on_function_call_for_requires() {
    let src = r#"
name = "foo"
version = "1.0"
requires = build_requires()
"#;
    assert!(parse_static_package_py(src).is_none());
}

#[test]
fn bails_on_missing_name() {
    let src = r#"
version = "1.0"
"#;
    assert!(parse_static_package_py(src).is_none());
}

#[test]
fn bails_on_missing_version() {
    let src = r#"
name = "foo"
"#;
    assert!(parse_static_package_py(src).is_none());
}

#[test]
fn bails_on_syntax_error() {
    let src = r#"
name = "foo
"#;
    assert!(parse_static_package_py(src).is_none());
}

#[test]
fn requires_can_be_empty_or_absent() {
    let src = r#"
name = "foo"
version = "1.0"
requires = []
"#;
    let info = parse_static_package_py(src).expect("empty requires is fine");
    assert!(info.requires.is_empty());
}

#[test]
fn variants_can_be_a_tuple_of_tuples() {
    // rez accepts list-of-lists as the canonical form; we accept
    // tuples too defensively.
    let src = r#"
name = "foo"
version = "1.0"
variants = (("a",), ("b",))
"#;
    let info = parse_static_package_py(src).expect("tuple variants");
    assert_eq!(
        info.variants,
        vec![vec!["a".to_string()], vec!["b".to_string()]]
    );
}

#[test]
fn annotated_assignment_sets_a_field() {
    let src = r#"
name: str = "foo"
version = "2.0"
requires: list = ["bar-1"]
"#;
    let info = parse_static_package_py(src).expect("annotated fields are literal");
    assert_eq!(info.name, "foo");
    assert_eq!(info.requires, vec!["bar-1"]);
}

#[test]
fn bails_on_annotation_without_value_for_solver_field() {
    let src = r#"
name = "foo"
version = "1.0"
requires: list
"#;
    assert!(parse_static_package_py(src).is_none());
}

#[test]
fn bails_on_augmented_solver_field() {
    let src = r#"
name = "foo"
version = "1.0"
requires = ["a"]
requires += ["b"]
"#;
    assert!(parse_static_package_py(src).is_none());
}

#[test]
fn bails_on_bare_call_statement() {
    let src = r#"
name = "foo"
version = "1.0"
print("hello")
"#;
    assert!(parse_static_package_py(src).is_none());
}

#[test]
fn bails_on_string_that_is_not_first() {
    let src = r#"
name = "foo"
"not a docstring"
version = "1.0"
"#;
    assert!(parse_static_package_py(src).is_none());
}

#[test]
fn later_assignment_replaces_earlier() {
    let src = r#"
name = "foo"
version = "1.0"
version = "2.0"
"#;
    let info = parse_static_package_py(src).expect("both literal");
    assert_eq!(info.version, "2.0");
}

#[test]
fn bails_on_variants_not_nested() {
    let src = r#"
name = "foo"
version = "1.0"
variants = ["a", "b"]
"#;
    assert!(parse_static_package_py(src).is_none());
}

#[test]
fn bails_on_scope_with_that_nests_a_solver_field() {
    let src = r#"
name = "foo"
version = "1.0"

with scope("config") as config:
    if True:
        requires = ["x"]
"#;
    assert!(parse_static_package_py(src).is_none());
}

#[test]
fn ignores_plain_function_and_chained_targets() {
    let src = r#"
name = other = "foo"
version = "1.0"

def pre_commands():
    pass
"#;
    let info = parse_static_package_py(src).expect("static");
    assert_eq!(info.name, "foo");
}

#[test]
fn tuple_target_rebinding_a_solver_field_gives_up() {
    let src = "name = \"foo\"\nversion = \"1.0\"\nname, other = \"bar\", 1\n";
    assert!(parse_static_package_py(src).is_none());
    let src = "name = \"foo\"\nversion = \"1.0\"\n[a, *rest] = [1, 2]\n";
    let info = parse_static_package_py(src).expect("tuple target of other names is passed over");
    assert_eq!(info.name, "foo");
    let src = "name = \"foo\"\nversion = \"1.0\"\n*name, = [\"x\"]\n";
    assert!(parse_static_package_py(src).is_none());
}

#[test]
fn scope_block_touching_a_field_inside_try_gives_up() {
    let src = "name = \"foo\"\nversion = \"1.0\"\nwith scope(\"config\") as config:\n    try:\n        name = \"x\"\n    except Exception:\n        pass\n";
    assert!(parse_static_package_py(src).is_none());
    let src = "name = \"foo\"\nversion = \"1.0\"\nwith scope(\"config\") as config:\n    while False:\n        version = \"2\"\n";
    assert!(parse_static_package_py(src).is_none());
    let src = "name = \"foo\"\nversion = \"1.0\"\nwith scope(\"config\") as config:\n    match x:\n        case 1:\n            requires = []\n";
    assert!(parse_static_package_py(src).is_none());
    let src = "name = \"foo\"\nversion = \"1.0\"\nwith scope(\"config\") as config:\n    try:\n        config.x = 1\n    finally:\n        pass\n";
    assert_eq!(parse_static_package_py(src).expect("untouched").name, "foo");
}
