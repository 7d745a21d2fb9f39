//! Tests for the annotation and C-declaration grammars.

use composer::annotation::CDecl;
use composer::parser::annotation::{
    parse_annotation_parameter, parse_split_type, ParsedParameter, ParsedSplitType,
};
use composer::parser::cdecl::{parse_c_decl, parse_c_parameter, parse_c_type};

fn check_split_type(input: &str, expected: Option<ParsedSplitType>) {
    let result = parse_split_type(input);
    if let Some(expected) = expected {
        assert_eq!(result.unwrap().0, expected);
    } else {
        assert!(result.is_none(), "Expected an error");
    }
}

fn check_parameter(input: &str, expected: Option<ParsedParameter>) {
    let result = parse_annotation_parameter(input);
    if let Some(expected) = expected {
        assert_eq!(result.unwrap().0, expected);
    } else {
        assert!(result.is_none(), "Expected an error");
    }
}

#[test]
fn parse_split_type_no_args() {
    check_split_type("TestSplit()", Some(ParsedSplitType::new_named("TestSplit", vec![])));
}

#[test]
fn parse_split_type_one_arg() {
    check_split_type("TestSplit(n)", Some(ParsedSplitType::new_named("TestSplit", vec!["n"])));
}

#[test]
fn parse_split_type_broadcast() {
    check_split_type("broadcast", Some(ParsedSplitType::Broadcast));
}

#[test]
fn parse_split_type_generic() {
    check_split_type("S", Some(ParsedSplitType::Generic("S".to_string())));
}

#[test]
fn parse_split_two_args() {
    check_split_type(
        "TestSplit(a, b)",
        Some(ParsedSplitType::new_named("TestSplit", vec!["a", "b"])),
    );
}

#[test]
fn parse_split_type_whitespace() {
    check_split_type("   TestSplit ( )  ", Some(ParsedSplitType::new_named("TestSplit", vec![])));
}

#[test]
fn parse_split_type_arg_whitespace() {
    check_split_type(
        "TestSplit(a,    b  )",
        Some(ParsedSplitType::new_named("TestSplit", vec!["a", "b"])),
    );
}

#[test]
fn parse_parameter_simple() {
    let ty = ParsedSplitType::new_named("TestSplit", vec!["a"]);
    check_parameter("n: TestSplit(a)", Some(ParsedParameter::new("n", ty)));
}

#[test]
fn parse_parameter_underscore() {
    let ty = ParsedSplitType::new_named("TestSplit", vec!["a"]);
    check_parameter("arg_name: TestSplit(a)", Some(ParsedParameter::new("arg_name", ty)));
}

#[test]
fn parse_parameter_whitepsace() {
    let ty = ParsedSplitType::new_named("TestSplit", vec!["a"]);
    check_parameter("   n:    TestSplit(a)   ", Some(ParsedParameter::new("n", ty)));
}

#[test]
fn parse_parameter_extra_semicolon() {
    check_parameter("n:: TestSplit(a)", None);
}

fn check_type(input: &str, expected: Option<&str>) {
    let result = parse_c_type(input);
    if let Some(expected) = expected {
        assert_eq!(expected, result.unwrap().0);
    } else {
        assert!(result.is_none(), "Expected an error");
    }
}

fn check_c_parameter(input: &str, expected: Option<(&str, Option<&str>)>) {
    let result = parse_c_parameter(input);
    if let Some(expected) = expected {
        let result = result.unwrap().0;
        assert_eq!(result, (String::from(expected.0), expected.1.map(|v| String::from(v))));
    } else {
        assert!(result.is_none(), "Expected an error");
    }
}

fn check_decl(input: &str, expected: Option<CDecl>) {
    let result = parse_c_decl(input);
    if let Some(expected) = expected {
        let result = result.unwrap().0;
        assert_eq!(result, expected);
    } else {
        assert!(result.is_none(), "Expected an error");
    }
}

#[test]
fn simple_type() {
    check_type("int", Some("int"));
}

#[test]
fn pointer_type() {
    check_type("int*", Some("int*"));
}

#[test]
fn const_type() {
    check_type("const int", Some("const int"));
}

#[test]
fn pointer_type_with_space() {
    check_type("int *", Some("int*"));
}

#[test]
fn struct_type() {
    check_type("struct myStruct", Some("struct myStruct"));
}

#[test]
fn const_struct_type() {
    check_type("const struct myStruct", Some("const struct myStruct"));
}

#[test]
fn struct_pointer_type() {
    check_type("struct myStruct *", Some("struct myStruct*"));
}

#[test]
fn const_struct_pointer_type() {
    check_type("const struct myStruct *", Some("const struct myStruct*"));
}

#[test]
fn double_pointer_type() {
    check_type("int**", Some("int**"));
}

#[test]
fn simple_parameter() {
    check_c_parameter("int x", Some(("int", Some("x"))))
}

#[test]
fn pointer_parameter() {
    check_c_parameter("int *x", Some(("int*", Some("x"))))
}

#[test]
fn struct_parameter() {
    check_c_parameter("struct foo *x", Some(("struct foo*", Some("x"))))
}

#[test]
fn no_name_parameter() {
    check_c_parameter("struct foo *", Some(("struct foo*", None)))
}

#[test]
fn incomplete_type_parameter() {
    check_c_parameter("struc foo *x", Some(("struc", Some("foo"))))
}

#[test]
fn basic_decl() {
    check_decl("int foo();", Some(CDecl::new("int", "foo", vec![])));
}

#[test]
fn decl_with_arg() {
    check_decl("int foo(int);", Some(CDecl::new("int", "foo", vec![("int", None)])));
}

#[test]
fn decl_with_many_args() {
    let args = vec![("int", None), ("struct myStruct**", None), ("float*", None)];
    let expected = CDecl::new("int", "foo", args);
    check_decl("int foo(int, struct myStruct **, float *);", Some(expected));
}

#[test]
fn decl_with_some_named_args() {
    let args = vec![("int", None), ("struct myStruct**", Some("arg2")), ("float*", None)];
    let expected = CDecl::new("int", "foo", args);
    check_decl("int foo(int, struct myStruct **arg2, float *);", Some(expected));
}

#[test]
fn parse_whole_annotation_file() {
    let input = "@sa(v: RangeSplit(v, n), n: broadcast) -> broadcast { int sum(int *v, int n); }";
    let annotations = composer::parser::parse(input).unwrap();
    assert_eq!(annotations.len(), 1);
    let a = &annotations[0];
    assert_eq!(a.function.func_name, "sum");
    assert_eq!(a.params.len(), 2);
    assert_eq!(a.params[0].arguments, vec![0usize, 1usize]);
    assert!(a.params[1].ty.is_broadcast());
    assert!(a.return_param.is_some());
}

#[test]
fn parse_rejects_mismatched_parameter_count() {
    let input = "@sa(v: broadcast) -> broadcast { int sum(int *v, int n); }";
    assert!(composer::parser::parse(input).is_err());
}

#[test]
fn parse_rejects_unknown_splitter_argument() {
    let input = "@sa(v: RangeSplit(zz)) { void consume(int *v); }";
    assert!(composer::parser::parse(input).is_err());
}

#[test]
fn parse_reports_exact_error_texts() {
    // a grammar failure yields the fixed parse-error text
    let garbled = "not an annotation file";
    assert_eq!(
        composer::parser::parse(garbled).unwrap_err().message().as_str(),
        "Parse error"
    );
    // a conversion failure propagates the conversion's own message
    let unresolved = "@sa(v: RangeSplit(zz)) { void consume(int *v); }";
    assert_eq!(
        composer::parser::parse(unresolved).unwrap_err().message().as_str(),
        "Parameter zz not found."
    );
    let mismatched = "@sa(v: broadcast) -> broadcast { int sum(int *v, int n); }";
    assert_eq!(
        composer::parser::parse(mismatched).unwrap_err().message().as_str(),
        "Number of annotation types must equal number of args in declaration."
    );
    let duplicate = "@sa(v: broadcast, v: broadcast) { void f(int a, int b); }";
    assert_eq!(
        composer::parser::parse(duplicate).unwrap_err().message().as_str(),
        "Parameter names in annotation must be unique."
    );
}
