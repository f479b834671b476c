use onnx::proto_structure::{KindOf, Message, OneOf, Proto, ProtoAnnotation, ProtoAttribute, Schema};
use onnx::read_proto::{create_struct_from_proto_file, search_message_in_hashmap, SchemaError};

fn field<'a>(s: &'a Schema, owner: usize, tag: i32) -> Option<&'a onnx::proto_structure::FieldEntry> {
    s.fields.iter().find(|f| f.owner == owner && f.tag == tag)
}

#[test]
fn schema_parse() {
    let text = "syntax=\"proto2\";\nmessage A {\n  optional int32 x = 1;\n  message B { optional float y = 2; }\n}\n";
    let s = create_struct_from_proto_file(text).unwrap();
    assert_eq!(s.version, 2);
    let a = search_message_in_hashmap(&s, &vec!["A".to_string()]).unwrap();
    let x = field(&s, a, 1).unwrap();
    assert_eq!(x.attribute.annotation, ProtoAnnotation::Optional);
    assert_eq!(x.attribute.attribute_name, "x");
    assert_eq!(x.attribute.attribute_type, "int32");
    let b = search_message_in_hashmap(&s, &vec!["A".to_string(), "B".to_string()]).unwrap();
    assert_eq!(s.scopes[b].parent, Some(a));
    let y = field(&s, b, 2).unwrap();
    assert_eq!(y.attribute.annotation, ProtoAnnotation::Optional);
    assert_eq!(y.attribute.attribute_name, "y");
    assert_eq!(y.attribute.attribute_type, "float");
    assert!(field(&s, a, 2).is_none());
}

#[test]
fn schema_proto3_version_and_labels() {
    let text = "syntax = \"proto3\";\npackage demo;\nmessage M {\n  repeated int64 dims = 1 [packed = true];\n  string name = 2; // trailing comment\n  map<string, int32> counts = 3;\n}\n";
    let s = create_struct_from_proto_file(text).unwrap();
    assert_eq!(s.version, 3);
    let m = search_message_in_hashmap(&s, &vec!["M".to_string()]).unwrap();
    let dims = field(&s, m, 1).unwrap();
    assert_eq!(dims.attribute.annotation, ProtoAnnotation::Repeated);
    assert_eq!(dims.attribute.attribute_type, "int64");
    let name = field(&s, m, 2).unwrap();
    assert_eq!(name.attribute.annotation, ProtoAnnotation::Optional);
    assert_eq!(name.attribute.attribute_name, "name");
    let counts = field(&s, m, 3).unwrap();
    assert_eq!(counts.attribute.annotation, ProtoAnnotation::Mapped);
    assert_eq!(counts.attribute.attribute_type, "int32");
}

#[test]
fn schema_oneof_and_enum() {
    let text = "message T {\n  enum Kind { UNDEFINED = 0; FLOAT = 1; }\n  optional Kind kind = 1;\n  oneof value {\n    int64 i = 2;\n    string s = 3;\n  }\n}\n";
    let s = create_struct_from_proto_file(text).unwrap();
    let t = search_message_in_hashmap(&s, &vec!["T".to_string()]).unwrap();
    let k = search_message_in_hashmap(&s, &vec!["T".to_string(), "Kind".to_string()]).unwrap();
    let v = search_message_in_hashmap(&s, &vec!["T".to_string(), "value".to_string()]).unwrap();
    assert_eq!(s.scopes[k].kind, KindOf::Enum);
    assert_eq!(s.scopes[v].kind, KindOf::OneOf);
    assert_eq!(field(&s, k, 1).unwrap().attribute.attribute_name, "FLOAT");
    assert_eq!(field(&s, k, 0).unwrap().attribute.attribute_type, "UNDEFINED");
    assert_eq!(field(&s, v, 2).unwrap().attribute.attribute_name, "i");
    assert_eq!(field(&s, t, 1).unwrap().attribute.attribute_type, "Kind");
}

#[test]
fn schema_duplicate_tag() {
    let text = "message A { optional int32 x = 1; optional int32 y = 1; }";
    assert_eq!(create_struct_from_proto_file(text).err(), Some(SchemaError::DuplicateTag));
}

#[test]
fn schema_oneof_shares_the_parent_tag_space() {
    let text = "message A { optional int32 x = 1; oneof v { int32 y = 1; } }";
    assert_eq!(create_struct_from_proto_file(text).err(), Some(SchemaError::DuplicateTag));
}

#[test]
fn schema_duplicate_message_name() {
    let text = "message A { }\nmessage A { }\n";
    assert_eq!(create_struct_from_proto_file(text).err(), Some(SchemaError::DuplicateName));
}

#[test]
fn schema_same_name_in_other_scopes_is_fine() {
    let text = "message A { message C { } }\nmessage B { message C { } }\n";
    assert!(create_struct_from_proto_file(text).is_ok());
}

#[test]
fn schema_unterminated_message() {
    let text = "message A {\n optional int32 x = 1;\n";
    assert_eq!(create_struct_from_proto_file(text).err(), Some(SchemaError::Unterminated));
}

#[test]
fn schema_malformed_tag() {
    assert_eq!(
        create_struct_from_proto_file("message A { optional int32 x = one; }").err(),
        Some(SchemaError::MalformedTag)
    );
    assert_eq!(
        create_struct_from_proto_file("message A { optional int32 x = 0; }").err(),
        Some(SchemaError::MalformedTag)
    );
}

#[test]
fn schema_unknown_annotation() {
    assert_eq!(
        create_struct_from_proto_file("message A { sometimes int32 x = 1; }").err(),
        Some(SchemaError::UnknownAnnotation)
    );
}

#[test]
fn schema_stray_brace() {
    assert_eq!(create_struct_from_proto_file("}").err(), Some(SchemaError::Unexpected));
}

#[test]
fn annotation_words() {
    let w: Vec<char> = "repeated".chars().collect();
    assert_eq!(ProtoAnnotation::from_word(&w), Ok(ProtoAnnotation::Repeated));
    let w: Vec<char> = "Optional".chars().collect();
    assert!(ProtoAnnotation::from_word(&w).is_err());
}

#[test]
fn annotation_from_str() {
    assert_eq!("optional".parse::<ProtoAnnotation>(), Ok(ProtoAnnotation::Optional));
    assert_eq!("required".parse::<ProtoAnnotation>(), Ok(ProtoAnnotation::Required));
    assert_eq!("map".parse::<ProtoAnnotation>(), Ok(ProtoAnnotation::Mapped));
    assert!("".parse::<ProtoAnnotation>().is_err());
}

#[test]
fn attribute_new_is_empty_optional() {
    let a = ProtoAttribute::new();
    assert_eq!(a.annotation, ProtoAnnotation::Optional);
    assert!(a.attribute_name.is_empty());
    assert!(a.attribute_type.is_empty());
}

#[test]
fn proto_tables_replace_by_key() {
    let mut m = <Message as Proto>::new();
    let mut a = ProtoAttribute::new();
    a.attribute_name = "x".to_string();
    m.set_attributes(1, a);
    let mut b = ProtoAttribute::new();
    b.attribute_name = "y".to_string();
    m.set_attributes(1, b);
    assert_eq!(m.attributes.len(), 1);
    assert_eq!(m.get_attribute(1).unwrap().attribute_name, "y");
    assert!(m.get_attribute(2).is_none());
    let mut o = <OneOf as Proto>::new();
    o.set_attributes(3, ProtoAttribute::new());
    assert!(o.get_attribute(3).is_some());
}

#[test]
fn schema_skips_comments_options_and_services() {
    let text = "// leading comment\nsyntax = \"proto2\";\n/* block\n comment */\noption java_package = \"x\";\nservice S { rpc Call (A) returns (A); }\nmessage A {\n  reserved 5, 6;\n  optional int32 x = 1 [default = 3]; // trailing\n}\n";
    let s = create_struct_from_proto_file(text).unwrap();
    assert_eq!(s.scopes.len(), 1);
    assert_eq!(s.fields.len(), 1);
    let a = search_message_in_hashmap(&s, &vec!["A".to_string()]).unwrap();
    assert_eq!(field(&s, a, 1).unwrap().attribute.attribute_name, "x");
}

#[test]
fn schema_message_inside_oneof_is_refused() {
    let text = "message A { oneof v { message B { } } }";
    assert_eq!(create_struct_from_proto_file(text).err(), Some(SchemaError::Unexpected));
}
