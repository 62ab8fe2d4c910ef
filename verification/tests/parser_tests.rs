use structlayout::parsers::rust::RustParser;
use structlayout::structs::StructFinder;

#[test]
fn test_single_field_struct() {
    let parser = RustParser::new();
    let input = "struct Simple {\n  value: u32\n}";

    let result = parser.extract(input).unwrap();

    assert_eq!(result.name, "Simple");
    assert_eq!(result.fields.len(), 1);
    assert_eq!(result.fields[0].field_name, "value");
    assert_eq!(result.fields[0].field_type, "u32");
}

#[test]
fn test_multiple_fields_struct() {
    let parser = RustParser::new();
    let input = "struct Point {\n    x: i32,\n    y: i32,\n    z: i32\n}";

    let result = parser.extract(input).unwrap();

    assert_eq!(result.name, "Point");
    assert_eq!(result.fields.len(), 3);
}

#[test]
fn test_mixed_types_struct() {
    let parser = RustParser::new();
    let input = "struct Mixed {\n    flag: bool,\n    count: u64,\n    value: f32\n}";

    let result = parser.extract(input).unwrap();

    assert_eq!(result.fields.len(), 3);
}

#[test]
fn rust_test_parse_multiple_structs() {
    let parser = RustParser::new();
    let input = String::from("struct First {\n    x: u8\n}\n\nstruct Second {\n    y: u16\n}");

    let result = parser.parse(input).unwrap();

    assert_eq!(result.len(), 2);
    assert_eq!(result[0].name, "First");
    assert_eq!(result[1].name, "Second");
}

#[test]
fn test_nested_structs() {
    let parser = RustParser::new();
    let input = r#"
            struct Child {
                x: u8,
                y: i32,
            }

            struct Parent {
                name: u32,
                data: f64,
                child: Child,
                numbers: Option<u32>,
            }
        "#;

    let result = parser.parse(input.to_string()).unwrap();

    let child = &result[0];
    assert_eq!(child.name, "Child");
    assert_eq!(child.fields.len(), 2);
    assert_eq!(child.fields[0].field_type, "u8");
    assert_eq!(child.fields[1].field_type, "i32");

    let parent = &result[1];
    assert_eq!(parent.name, "Parent");
    assert_eq!(parent.fields.len(), 4);
    assert_eq!(parent.fields[0].field_type, "u32");
    assert_eq!(parent.fields[1].field_type, "f64");
    assert_eq!(parent.fields[2].field_type, "Child");
    assert_eq!(parent.fields[3].field_type, "Option<u32>");
}

#[test]
fn test_custom_type() {
    let parser = RustParser::new();
    let input = "struct Custom {\n    field: CustomFieldType\n}";

    let result = parser.parse(input.to_string()).unwrap();
    assert_eq!(result[0].name, "Custom");
}

#[test]
fn test_parse_single_struct() {
    let finder = StructFinder::new();
    let file_content = r#"
            struct Test {
                field1: u32,
                field2: String,
            }
        "#
    .to_string();

    let result = finder.parse(file_content).unwrap();
    assert_eq!(result.len(), 1);
    assert_eq!(result[0].name, "Test");
    assert_eq!(result[0].fields.len(), 2);
    assert_eq!(result[0].fields[0].field_name, "field1");
    assert_eq!(result[0].fields[0].field_type, "u32");
    assert_eq!(result[0].fields[1].field_name, "field2");
    assert_eq!(result[0].fields[1].field_type, "String");
}

#[test]
fn structs_test_parse_multiple_structs() {
    let finder = StructFinder::new();
    let file_content = r#"
            struct Test1 {
                field1: u32,
            }

            struct Test2 {
                field2: String,
            }
        "#
    .to_string();

    let result = finder.parse(file_content).unwrap();
    assert_eq!(result.len(), 2);
    assert_eq!(result[0].name, "Test1");
    assert_eq!(result[0].fields.len(), 1);
    assert_eq!(result[0].fields[0].field_name, "field1");
    assert_eq!(result[0].fields[0].field_type, "u32");

    assert_eq!(result[1].name, "Test2");
    assert_eq!(result[1].fields.len(), 1);
    assert_eq!(result[1].fields[0].field_name, "field2");
    assert_eq!(result[1].fields[0].field_type, "String");
}

#[test]
fn test_parse_cursed() {
    let finder = StructFinder::new();
    let file_content = r#"
            struct   Test1    {
        field1: u32,
              }

        struct   Test2 {

                field2: String,
            }
        // TEST COMMENT
        "#
    .to_string();

    let result = finder.parse(file_content).unwrap();
    assert_eq!(result.len(), 2);
    assert_eq!(result[0].name, "Test1");
    assert_eq!(result[0].fields.len(), 1);
    assert_eq!(result[0].fields[0].field_name, "field1");
    assert_eq!(result[0].fields[0].field_type, "u32");

    assert_eq!(result[1].name, "Test2");
    assert_eq!(result[1].fields.len(), 1);
    assert_eq!(result[1].fields[0].field_name, "field2");
    assert_eq!(result[1].fields[0].field_type, "String");
}

#[test]
fn test_parse_nested_structs() {
    let finder = StructFinder::new();
    let file_content = r#"
            struct Outer {
                inner: Inner,
            }

            struct Inner {
                field: u32,
            }
        "#
    .to_string();

    let result = finder.parse(file_content).unwrap();
    assert_eq!(result.len(), 2);
    assert_eq!(result[0].name, "Outer");
    assert_eq!(result[0].fields.len(), 1);
    assert_eq!(result[0].fields[0].field_name, "inner");
    assert_eq!(result[0].fields[0].field_type, "Inner");

    assert_eq!(result[1].name, "Inner");
    assert_eq!(result[1].fields.len(), 1);
    assert_eq!(result[1].fields[0].field_name, "field");
    assert_eq!(result[1].fields[0].field_type, "u32");
}

#[test]
fn finder_annotates_primitive_fields() {
    let finder = StructFinder::new();
    let result = finder
        .parse("struct S {\n    a: u32,\n    b: CustomThing,\n}".to_string())
        .unwrap();
    assert_eq!(result[0].fields[0].size, 4);
    assert_eq!(result[0].fields[0].alignment, 4);
    assert_eq!(result[0].fields[1].size, 0);
    assert_eq!(result[0].fields[1].alignment, 0);
}

#[test]
fn pub_fields_are_stripped() {
    let parser = RustParser::new();
    let result = parser
        .extract("pub struct Visible {\n    pub shown: u8,\n}")
        .unwrap();
    assert_eq!(result.name, "Visible");
    assert_eq!(result.fields[0].field_name, "shown");
}

#[test]
fn malformed_block_is_rejected() {
    let parser = RustParser::new();
    let err = parser.extract("not a definition at all").unwrap_err();
    assert!(matches!(err, structlayout::Error::MalformedDefinition(_)));
}

#[test]
fn generic_parse_dispatches() {
    let parser = RustParser::new();
    let result =
        structlayout::parsers::base::parse(&parser, "struct G {\n    n: u16,\n}".to_string())
            .unwrap();
    assert_eq!(result.len(), 1);
    assert_eq!(result[0].name, "G");
}

#[test]
fn c_parser_reads_whitespace_fields() {
    let input = "struct Packet {\n    int kind\n    char tag\n}\n";
    let result = structlayout::parsers::c::parse_c_structs(input);
    assert_eq!(result.len(), 1);
    assert_eq!(result[0].0, "Packet");
    assert_eq!(result[0].1.len(), 2);
    assert_eq!(result[0].1[0], ("kind".to_string(), "int".to_string()));
    assert_eq!(result[0].1[1], ("tag".to_string(), "char".to_string()));
}
