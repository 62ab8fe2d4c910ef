use structlayout::analyze::{analyze_sources, SourceFile};
use structlayout::config::{compile_patterns, Config, Mode};
use structlayout::error::Error;
use structlayout::files::{detect_operable_language, Language};
use structlayout::layout::{compute_layout, ResolvedField};
use structlayout::optimize::optimize;
use structlayout::parsers::rust::RustParser;
use structlayout::registry::{default_registry, TypeInfo, TypeRegistry};
use structlayout::resolve::resolve;

fn field(name: &str, size: u64, alignment: u64, decl_index: usize) -> ResolvedField {
    ResolvedField {
        name: name.to_string(),
        size,
        alignment,
        decl_index,
    }
}

#[test]
fn scenario_two_flags_around_a_word() {
    // fields (bool,1,1) (u32,4,4) (bool,1,1) in declared order
    let fields = vec![field("a", 1, 1, 0), field("b", 4, 4, 1), field("c", 1, 1, 2)];
    let layout = compute_layout(&fields).unwrap();
    assert_eq!(layout.entries.len(), 3);
    assert_eq!(layout.entries[0].offset, 0);
    assert_eq!(layout.entries[1].offset, 4);
    assert_eq!(layout.entries[1].padding_before, 3);
    assert_eq!(layout.entries[2].offset, 8);
    assert_eq!(layout.trailing_padding, 3);
    assert_eq!(layout.total_size, 12);
    assert_eq!(layout.alignment, 4);

    let suggestion = optimize(&fields, &layout).unwrap();
    // deterministic tie-break: the two single-byte fields keep their
    // declared relative order
    assert_eq!(suggestion.order[0].name, "b");
    assert_eq!(suggestion.order[1].name, "a");
    assert_eq!(suggestion.order[2].name, "c");
    assert_eq!(suggestion.layout.entries[0].offset, 0);
    assert_eq!(suggestion.layout.entries[1].offset, 4);
    assert_eq!(suggestion.layout.entries[2].offset, 5);
    assert_eq!(suggestion.layout.trailing_padding, 2);
    assert_eq!(suggestion.layout.total_size, 8);
    assert_eq!(suggestion.bytes_saved, 4);
}

#[test]
fn optimizer_is_idempotent() {
    let fields = vec![field("a", 1, 1, 0), field("b", 4, 4, 1), field("c", 1, 1, 2)];
    let layout = compute_layout(&fields).unwrap();
    let first = optimize(&fields, &layout).unwrap();
    assert_eq!(first.bytes_saved, 4);
    let second = optimize(&first.order, &first.layout).unwrap();
    assert_eq!(second.bytes_saved, 0);
    let names: Vec<&str> = first.order.iter().map(|f| f.name.as_str()).collect();
    let names2: Vec<&str> = second.order.iter().map(|f| f.name.as_str()).collect();
    assert_eq!(names, names2);
}

#[test]
fn optimizer_keeps_the_field_set() {
    let fields = vec![field("x", 2, 2, 0), field("y", 8, 8, 1), field("z", 1, 1, 2)];
    let layout = compute_layout(&fields).unwrap();
    let suggestion = optimize(&fields, &layout).unwrap();
    let mut before: Vec<String> = fields.iter().map(|f| f.name.clone()).collect();
    let mut after: Vec<String> = suggestion.order.iter().map(|f| f.name.clone()).collect();
    before.sort();
    after.sort();
    assert_eq!(before, after);
}

#[test]
fn total_size_bounds_hold_for_any_order() {
    let orders = [
        vec![field("a", 1, 1, 0), field("b", 4, 4, 1), field("c", 1, 1, 2)],
        vec![field("b", 4, 4, 1), field("a", 1, 1, 0), field("c", 1, 1, 2)],
    ];
    for fields in orders.iter() {
        let layout = compute_layout(fields).unwrap();
        let sum: u64 = fields.iter().map(|f| f.size).sum();
        assert!(layout.total_size >= sum);
        assert_eq!(layout.total_size % layout.alignment, 0);
    }
}

#[test]
fn empty_structure_has_size_zero() {
    let layout = compute_layout(&Vec::new()).unwrap();
    assert_eq!(layout.total_size, 0);
    assert_eq!(layout.alignment, 1);
    assert_eq!(layout.trailing_padding, 0);
}

#[test]
fn scenario_nested_resolution() {
    // Inner{x:u8} resolves first; Outer embeds it by value
    let parser = RustParser::new();
    let defs = parser
        .parse(
            "struct Outer {\n    i: Inner,\n    y: u32,\n}\n\nstruct Inner {\n    x: u8,\n}\n"
                .to_string(),
        )
        .unwrap();
    let mut registry = default_registry();
    let report = resolve(&defs, &mut registry).unwrap();
    assert_eq!(report.skipped.len(), 0);
    assert_eq!(report.resolved.len(), 2);

    let inner = report.resolved.iter().find(|r| r.name == "Inner").unwrap();
    assert_eq!(inner.layout.total_size, 1);
    assert_eq!(inner.layout.alignment, 1);

    let outer = report.resolved.iter().find(|r| r.name == "Outer").unwrap();
    assert_eq!(outer.layout.entries[0].offset, 0);
    assert_eq!(outer.layout.entries[0].size, 1);
    assert_eq!(outer.layout.entries[1].padding_before, 3);
    assert_eq!(outer.layout.entries[1].offset, 4);
    assert_eq!(outer.layout.entries[1].size, 4);
    assert_eq!(outer.layout.total_size, 8);
    assert_eq!(outer.layout.alignment, 4);
}

#[test]
fn scenario_self_reference_fails() {
    let parser = RustParser::new();
    let defs = parser
        .parse("struct Node {\n    next: Node,\n}\n".to_string())
        .unwrap();
    let mut registry = default_registry();
    let err = resolve(&defs, &mut registry).unwrap_err();
    match err {
        Error::CyclicDependency(names) => {
            assert!(names.iter().any(|n| n == "Node"));
        }
        other => panic!("expected a cycle error, got {:?}", other),
    }
}

#[test]
fn indirect_cycle_fails() {
    let parser = RustParser::new();
    let defs = parser
        .parse(
            "struct A {\n    b: B,\n}\nstruct B {\n    c: C,\n}\nstruct C {\n    a: A,\n}\n"
                .to_string(),
        )
        .unwrap();
    let mut registry = default_registry();
    let err = resolve(&defs, &mut registry).unwrap_err();
    match err {
        Error::CyclicDependency(names) => {
            assert!(names.len() >= 3);
        }
        other => panic!("expected a cycle error, got {:?}", other),
    }
}

#[test]
fn scenario_unknown_type_is_isolated() {
    let parser = RustParser::new();
    let defs = parser
        .parse(
            "struct Widget {\n    f: Foo,\n}\n\nstruct Simple {\n    a: u32,\n}\n".to_string(),
        )
        .unwrap();
    let mut registry = default_registry();
    let report = resolve(&defs, &mut registry).unwrap();
    assert_eq!(report.skipped.len(), 1);
    assert_eq!(report.skipped[0].name, "Widget");
    assert_eq!(report.skipped[0].field_name, "f");
    assert_eq!(report.skipped[0].unresolved_type, "Foo");
    assert_eq!(report.resolved.len(), 1);
    assert_eq!(report.resolved[0].name, "Simple");
}

#[test]
fn duplicate_definition_aborts() {
    let parser = RustParser::new();
    let defs = parser
        .parse("struct D {\n    a: u8,\n}\nstruct D {\n    b: u8,\n}\n".to_string())
        .unwrap();
    let mut registry = default_registry();
    let err = resolve(&defs, &mut registry).unwrap_err();
    match err {
        Error::DuplicateDefinition(name) => assert_eq!(name, "D"),
        other => panic!("expected a duplicate error, got {:?}", other),
    }
}

#[test]
fn scenario_override_changes_layout() {
    // an override makes u32 eight bytes wide and eight-aligned,
    // scoped to the registry it was applied to
    let parser = RustParser::new();
    let text = "struct S {\n    a: bool,\n    b: u32,\n    c: bool,\n}\n".to_string();
    let defs = parser.parse(text.clone()).unwrap();

    let mut overridden = default_registry();
    overridden.apply_overrides(&vec![(
        "u32".to_string(),
        TypeInfo { nat_align: 8, size: 8 },
    )]);
    let report = resolve(&defs, &mut overridden).unwrap();
    assert_eq!(report.resolved[0].layout.total_size, 24);
    assert_eq!(report.resolved[0].layout.alignment, 8);

    // a fresh registry is untouched by the other run's override
    let defs2 = parser.parse(text).unwrap();
    let mut fresh = default_registry();
    let report2 = resolve(&defs2, &mut fresh).unwrap();
    assert_eq!(report2.resolved[0].layout.total_size, 12);
    assert_eq!(report2.resolved[0].layout.alignment, 4);
}

#[test]
fn registry_lookup_finds_latest() {
    let mut registry = TypeRegistry::new();
    assert!(registry.lookup("u8").is_none());
    registry.register("u8".to_string(), TypeInfo { nat_align: 1, size: 1 });
    assert_eq!(registry.lookup("u8").unwrap(), TypeInfo { nat_align: 1, size: 1 });
    registry.register("u8".to_string(), TypeInfo { nat_align: 2, size: 2 });
    assert_eq!(registry.lookup("u8").unwrap(), TypeInfo { nat_align: 2, size: 2 });
}

#[test]
fn language_detection_by_extension() {
    assert_eq!(detect_operable_language("src/main.rs"), Some(Language::Rust));
    assert_eq!(detect_operable_language("pkg/mod.go"), Some(Language::Go));
    assert_eq!(detect_operable_language("lib/io.c"), Some(Language::C));
    assert_eq!(detect_operable_language("lib/io.cpp"), Some(Language::Cpp));
    assert_eq!(detect_operable_language("README.md"), None);
    assert_eq!(detect_operable_language("Makefile"), None);
    assert_eq!(detect_operable_language("dir/.gitignore"), None);
}

#[test]
fn exclude_patterns_filter_paths() {
    let config = Config {
        operation_mode: Mode::Suggest,
        overrides: None,
        included_files: None,
        excluded_files: Some(vec!["^target/".to_string()]),
        working_directory: ".".to_string(),
    };
    assert!(!config.should_process_file("target/debug/foo.rs"));
    assert!(config.should_process_file("src/lib.rs"));
}

#[test]
fn pattern_lists_are_validated() {
    let ok = compile_patterns("foo.*,bar").unwrap();
    assert_eq!(ok.len(), 2);
    assert_eq!(ok[0], "foo.*");
    assert_eq!(ok[1], "bar");
    let err = compile_patterns("good,([").unwrap_err();
    assert!(matches!(err, Error::CommaSeparated(_)));
}

#[test]
fn pipeline_analyzes_mixed_sources() {
    let files = vec![
        SourceFile {
            path: "a.rs".to_string(),
            language: Language::Rust,
            content: "struct Pair {\n    lo: u8,\n    hi: u64,\n}\n".to_string(),
        },
        SourceFile {
            path: "b.c".to_string(),
            language: Language::C,
            content: "struct CPair {\n    u8 lo\n    u64 hi\n}\n".to_string(),
        },
    ];
    let mut registry = default_registry();
    let report = analyze_sources(&files, &mut registry).unwrap();
    assert_eq!(report.resolved.len(), 2);
    assert_eq!(report.resolved[0].name, "Pair");
    assert_eq!(report.resolved[0].layout.total_size, 16);
    assert_eq!(report.resolved[1].name, "CPair");
    assert_eq!(report.resolved[1].layout.total_size, 16);
    let suggestion = &report.resolved[0].suggestion;
    assert_eq!(suggestion.layout.total_size, 16);
    assert_eq!(suggestion.bytes_saved, 0);
}
