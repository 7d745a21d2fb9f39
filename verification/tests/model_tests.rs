//! Tests for the annotation model, the JSON codec, the header-name helpers
//! and the shared utilities.

use composer::annotation::{Annotation, CDecl, SplitType, SplitTypeParameter, SplitTypeRuntimeInfo};
use composer::error::Error;
use composer::util::{join, str_eq};
use composer::writer::AnnotationHeaderWriter;

#[test]
fn is_void_checks_the_return_type() {
    let void_decl = CDecl::new("void", "f", vec![]);
    let int_decl = CDecl::new("int", "f", vec![]);
    assert!(void_decl.is_void());
    assert!(!int_decl.is_void());
}

#[test]
fn strip_type_qualifiers_removes_const() {
    assert_eq!(CDecl::strip_type_qualifiers("const int"), "int");
    assert_eq!(CDecl::strip_type_qualifiers("const struct foo*"), "struct foo*");
    assert_eq!(CDecl::strip_type_qualifiers("int"), "int");
    assert_eq!(CDecl::strip_type_qualifiers("const const int"), "int");
}

#[test]
fn display_renders_a_declaration() {
    let decl = CDecl::new("int", "foo", vec![("int", Some("x")), ("float*", None)]);
    assert_eq!(decl.display_string(), "int foo(int x, float*)");
}

#[test]
fn split_type_accessors() {
    let broadcast = SplitType::Broadcast { runtime: None };
    let generic = SplitType::Generic { name: "T".to_string() };
    let named = SplitType::Named {
        name: "RangeSplit".to_string(),
        arguments: 2,
        runtime: Some(SplitTypeRuntimeInfo { initializer: 1, next: 2, data_size: 16 }),
    };
    assert!(broadcast.is_broadcast());
    assert!(!broadcast.is_named());
    assert_eq!(broadcast.name(), None);
    assert_eq!(generic.name(), Some("T"));
    assert!(!generic.is_named());
    assert_eq!(named.name(), Some("RangeSplit"));
    assert!(named.is_named());
    assert_eq!(named.runtime_info().data_size, 16);
}

#[test]
fn set_type_runtime_info_fills_the_slot() {
    let mut ann = Annotation {
        function: CDecl::new("void", "f", vec![("int", None)]),
        params: vec![SplitTypeParameter {
            ty: SplitType::Broadcast { runtime: None },
            arguments: vec![],
        }],
        return_param: None,
        defaults: vec![],
    };
    let info = SplitTypeRuntimeInfo { initializer: 10, next: 20, data_size: 4 };
    assert!(ann.set_type_runtime_info(0, info).is_ok());
    assert_eq!(ann.params[0].ty.runtime_info().data_size, 4);
    assert_eq!(ann.params[0].ty.runtime_info().initializer, 10);
}

#[test]
fn set_type_runtime_info_skips_generic_types() {
    let mut ann = Annotation {
        function: CDecl::new("void", "f", vec![("int", None)]),
        params: vec![SplitTypeParameter {
            ty: SplitType::Generic { name: "T".to_string() },
            arguments: vec![],
        }],
        return_param: None,
        defaults: vec![],
    };
    let info = SplitTypeRuntimeInfo { initializer: 10, next: 20, data_size: 4 };
    assert!(ann.set_type_runtime_info(0, info).is_ok());
    assert_eq!(ann.params[0].ty, SplitType::Generic { name: "T".to_string() });
}

#[test]
fn join_concatenates_with_separators() {
    let parts = vec!["a".to_string(), "b".to_string(), "c".to_string()];
    assert_eq!(join(String::new(), ", ", &parts), "a, b, c");
    assert_eq!(join("x=".to_string(), "+", &parts), "x=a+b+c");
    assert_eq!(join("start".to_string(), ",", &vec![]), "start");
}

#[test]
fn str_eq_compares_contents() {
    assert!(str_eq("hello", "hello"));
    assert!(!str_eq("hello", "hellp"));
    assert!(!str_eq("hello", "hell"));
    assert!(str_eq("", ""));
}

#[test]
fn error_carries_its_description() {
    let e = Error::new("boom".to_string());
    assert_eq!(e.message().as_str(), "boom");
    let from_string: Error = "gone".to_string().into();
    assert_eq!(from_string.message().as_str(), "gone");
}

fn sample_annotation() -> Annotation {
    Annotation {
        function: CDecl::new("long", "sum", vec![("int*", Some("v")), ("int", None)]),
        params: vec![
            SplitTypeParameter {
                ty: SplitType::Named {
                    name: "RangeSplit".to_string(),
                    arguments: 2,
                    runtime: Some(SplitTypeRuntimeInfo {
                        initializer: 123,
                        next: 456,
                        data_size: 8,
                    }),
                },
                arguments: vec![0, 1],
            },
            SplitTypeParameter { ty: SplitType::Broadcast { runtime: None }, arguments: vec![] },
        ],
        return_param: Some(SplitTypeParameter {
            ty: SplitType::Broadcast { runtime: None },
            arguments: vec![],
        }),
        defaults: vec![("T".to_string(), SplitType::Generic { name: "S".to_string() })],
    }
}

#[test]
fn json_round_trip_reproduces_the_annotation() {
    let a = sample_annotation();
    let text = composer::json::to_json(&a);
    let b = Annotation::from_json(&text).unwrap();
    assert_eq!(a, b);
}

#[test]
fn json_document_has_the_canonical_layout() {
    let a = Annotation {
        function: CDecl::new("void", "noop", vec![]),
        params: vec![],
        return_param: None,
        defaults: vec![],
    };
    let text = composer::json::to_json(&a);
    assert_eq!(
        text,
        "{\"function\":{\"return_type\":\"void\",\"func_name\":\"noop\",\"arguments\":[]},\"params\":[],\"return_param\":null,\"defaults\":{}}"
    );
    let b = Annotation::from_json(&text).unwrap();
    assert_eq!(a, b);
}

#[test]
fn from_json_rejects_other_documents() {
    assert!(Annotation::from_json("").is_err());
    assert!(Annotation::from_json("{}").is_err());
    assert!(Annotation::from_json("not json at all").is_err());
}

#[test]
fn writer_derives_names_from_the_annotation() {
    let writer = AnnotationHeaderWriter::new(Annotation {
        function: CDecl::new("int", "foo", vec![("int", Some("x"))]),
        params: vec![],
        return_param: None,
        defaults: vec![],
    });
    assert_eq!(writer.filename(), "foo_composer");
    assert_eq!(writer.function_header(), "int c_foo(int x)");
}

#[test]
fn splitter_function_names_follow_the_type_name() {
    let named = SplitType::Named { name: "RangeSplit".to_string(), arguments: 0, runtime: None };
    assert_eq!(named.splitter_init_func(), "RangeSplit_new");
    assert_eq!(named.splitter_next_func(), "RangeSplit_next");
    assert_eq!(named.splitter_init_arg_struct(), "struct RangeSplit_init_args");
    assert_eq!(named.splitter_c_type(), "struct RangeSplit");
}

#[test]
fn from_parsed_rejects_duplicate_adjacent_names() {
    let input = "@sa(v: broadcast, v: broadcast) { void f(int a, int b); }";
    assert!(composer::parser::parse(input).is_err());
}

#[test]
fn annotations_must_declare_a_return_split_type_exactly_when_needed() {
    // non-void function without a return split type
    let missing = "@sa(v: broadcast) { int f(int v); }";
    assert!(composer::parser::parse(missing).is_err());
    // void function with a return split type
    let extra = "@sa(v: broadcast) -> broadcast { void f(int v); }";
    assert!(composer::parser::parse(extra).is_err());
}

#[test]
fn quoted_names_cannot_round_trip() {
    // a name holding a quote cannot stand unescaped in the canonical
    // document, so reading the serialized text back is refused rather than
    // returning a different annotation
    let a = Annotation {
        function: CDecl::new("void", "we\"ird", vec![]),
        params: vec![],
        return_param: None,
        defaults: vec![],
    };
    let text = composer::json::to_json(&a);
    assert!(Annotation::from_json(&text).is_err());
}
