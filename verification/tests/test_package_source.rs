use rer::package_source::{parse_assign_statement, Package, PyValue};
use rer::python_ast::{PyConst, PyExpr};

#[test]
fn dependencies_keep_only_strings() {
    let src = r#"
name = "maya"
version = "2024.0"
requires = ["python-3", 1, "qt-5"]
"#;
    let p = Package::from_source(src).expect("valid python");
    assert_eq!(p.get_dependencies(), vec!["python-3", "qt-5"]);
}

#[test]
fn dependencies_empty_when_absent_or_not_a_list() {
    let p = Package::from_source("name = \"a\"\n").expect("valid python");
    assert!(p.get_dependencies().is_empty());
    let p = Package::from_source("requires = (\"a\",)\n").expect("valid python");
    assert!(p.get_dependencies().is_empty());
}

#[test]
fn last_assignment_of_a_name_wins() {
    let src = "requires = [\"a\"]\nrequires = [\"b\", \"c\"]\n";
    let p = Package::from_source(src).expect("valid python");
    assert_eq!(p.get_dependencies(), vec!["b", "c"]);
}

#[test]
fn invalid_source_gives_none() {
    assert!(Package::from_source("name = \"foo\n").is_none());
}

#[test]
fn assignment_to_attribute_is_skipped() {
    let targets = vec![PyExpr::Other];
    let value = PyExpr::Constant(PyConst::Bool(true));
    assert!(parse_assign_statement(&targets, &value).is_none());
}

#[test]
fn assignment_of_nested_list_keeps_inner_constants() {
    let targets = vec![PyExpr::Name("variants".to_string())];
    let value = PyExpr::List(vec![
        PyExpr::Constant(PyConst::Str("x".to_string())),
        PyExpr::List(vec![PyExpr::Constant(PyConst::Str("a".to_string())), PyExpr::Other]),
    ]);
    let (name, v) = parse_assign_statement(&targets, &value).expect("name target");
    assert_eq!(name, "variants");
    match v {
        Some(PyValue::NestedList(vs)) => {
            assert_eq!(vs.len(), 1);
            assert_eq!(vs[0].len(), 1);
            assert!(matches!(&vs[0][0], PyConst::Str(s) if s == "a"));
        }
        other => panic!("unexpected {:?}", other),
    }
}

#[test]
fn assignment_of_call_keeps_no_value() {
    let targets = vec![PyExpr::Name("requires".to_string())];
    let value = PyExpr::Call(Box::new(PyExpr::Name("f".to_string())));
    let (_, v) = parse_assign_statement(&targets, &value).expect("name target");
    assert!(v.is_none());
}

#[test]
fn from_data_reads_standard_attributes() {
    let raw = vec![
        ("requires".to_string(), Some(PyValue::List(vec![PyConst::Str("z-1".to_string()), PyConst::NoneValue]))),
        ("custom".to_string(), None),
    ];
    let p = Package::from_data(&raw);
    assert_eq!(p.get_dependencies(), vec!["z-1"]);
}
