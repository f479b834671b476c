use onnx::onnx_structure::ModelProto;
use onnx::proto_structure::Schema;
use onnx::read_onnx::{generate_onnx_file, is_simple_type, read_onnx_file, FieldValue};
use onnx::read_proto::{create_struct_from_proto_file, search_message_in_hashmap};
use onnx::wire::DecodeError;

const SCHEMA: &str = "syntax = \"proto2\";
message ModelProto {
  optional int64 ir_version = 1;
  optional string producer_name = 2;
  optional GraphProto graph = 7;
}
message GraphProto {
  repeated NodeProto node = 1;
  optional string name = 2;
}
message NodeProto {
  repeated string input = 1;
  repeated string output = 2;
  optional string op_type = 4;
  optional float alpha = 5;
  optional DataType kind = 6;
  enum DataType { UNDEFINED = 0; FLOAT = 1; }
}
";

fn schema_and_root() -> (Schema, usize) {
    let s = create_struct_from_proto_file(SCHEMA).unwrap();
    let root = search_message_in_hashmap(&s, &vec!["ModelProto".to_string()]).unwrap();
    (s, root)
}

fn model_bytes() -> Vec<u8> {
    let node: Vec<u8> = vec![
        0x0a, 0x01, b'x', 0x12, 0x01, b'y', 0x22, 0x04, b'R', b'e', b'l', b'u', 0x2d, 0x00, 0x00, 0x80,
        0x3f, 0x30, 0x01,
    ];
    let mut graph = vec![0x0a, node.len() as u8];
    graph.extend(node);
    graph.extend(vec![0x12, 0x01, b'g']);
    let mut model = vec![0x08, 0x03, 0x3a, graph.len() as u8];
    model.extend(graph);
    model
}

#[test]
fn decode_nested_model() {
    let (s, root) = schema_and_root();
    let bytes = model_bytes();
    let fields = read_onnx_file(&bytes, &s, root).unwrap();
    let names: Vec<&str> = fields.iter().map(|f| f.name.as_str()).collect();
    assert_eq!(names, vec!["ir_version", "graph", "node", "input", "output", "op_type", "alpha", "kind", "name"]);
    let depths: Vec<usize> = fields.iter().map(|f| f.depth).collect();
    assert_eq!(depths, vec![1, 1, 2, 3, 3, 3, 3, 3, 2]);
    assert!(matches!(fields[0].value, FieldValue::Varint(3)));
    assert!(matches!(fields[1].value, FieldValue::Nested(24)));
    match &fields[6].value {
        FieldValue::Fixed32(bits) => assert_eq!(f32::from_bits(*bits), 1.0),
        other => panic!("unexpected {:?}", other),
    }
    match &fields[7].value {
        FieldValue::EnumConst(v, name) => {
            assert_eq!(*v, 1);
            assert_eq!(name, "FLOAT");
        },
        other => panic!("unexpected {:?}", other),
    }
}

#[test]
fn decode_round_trip() {
    let (s, root) = schema_and_root();
    let bytes = model_bytes();
    let fields = read_onnx_file(&bytes, &s, root).unwrap();
    assert_eq!(generate_onnx_file(&fields), bytes);
}

#[test]
fn decode_consumes_every_byte() {
    let (s, root) = schema_and_root();
    let bytes = model_bytes();
    let fields = read_onnx_file(&bytes, &s, root).unwrap();
    let total: usize = fields.iter().map(|f| onnx::read_onnx::encode_field(f).len()).sum();
    assert_eq!(total, bytes.len());
}

#[test]
fn decode_builds_model_tree() {
    let (s, root) = schema_and_root();
    let fields = read_onnx_file(&model_bytes(), &s, root).unwrap();
    let m = ModelProto::from_fields(&fields);
    assert_eq!(m.ir_version, 3);
    assert_eq!(m.graph.name, "g");
    assert_eq!(m.graph.node.len(), 1);
    assert_eq!(m.graph.node[0].op_type, "Relu");
    assert_eq!(m.graph.node[0].input, vec!["x".to_string()]);
    assert_eq!(m.graph.node[0].output, vec!["y".to_string()]);
}

#[test]
fn decode_empty_input() {
    let (s, root) = schema_and_root();
    assert_eq!(read_onnx_file(&vec![], &s, root).unwrap().len(), 0);
}

#[test]
fn decode_unknown_field() {
    let (s, root) = schema_and_root();
    assert_eq!(read_onnx_file(&vec![0x48, 0x01], &s, root).err(), Some(DecodeError::UnknownField));
}

#[test]
fn decode_type_mismatch() {
    let (s, root) = schema_and_root();
    assert_eq!(read_onnx_file(&vec![0x0a, 0x00], &s, root).err(), Some(DecodeError::TypeMismatch));
}

#[test]
fn decode_truncated() {
    let (s, root) = schema_and_root();
    assert_eq!(read_onnx_file(&vec![0x08], &s, root).err(), Some(DecodeError::Malformed));
    assert_eq!(read_onnx_file(&vec![0x12, 0x05, b'a'], &s, root).err(), Some(DecodeError::Malformed));
}

#[test]
fn decode_nested_length_past_input() {
    let (s, root) = schema_and_root();
    let bytes = vec![0x3a, 0x05, 0x12, 0x01, b'g'];
    assert_eq!(read_onnx_file(&bytes, &s, root).err(), Some(DecodeError::Malformed));
    assert_eq!(read_onnx_file(&vec![0x3a, 0x05], &s, root).err(), Some(DecodeError::Malformed));
}

#[test]
fn decode_nested_length_past_enclosing_region() {
    let (s, root) = schema_and_root();
    // graph of 3 bytes holding a node that claims 3 bytes: inside the input, past the graph
    let bytes = vec![0x3a, 0x03, 0x0a, 0x03, 0x0a, 0x01, b'x'];
    assert_eq!(read_onnx_file(&bytes, &s, root).err(), Some(DecodeError::InconsistentLength));
}

#[test]
fn decode_field_past_its_region() {
    let (s, root) = schema_and_root();
    let bytes = vec![0x3a, 0x02, 0x12, 0x01, b'g'];
    assert_eq!(read_onnx_file(&bytes, &s, root).err(), Some(DecodeError::InconsistentLength));
}

#[test]
fn simple_types() {
    assert!(is_simple_type(&"int64".to_string()));
    assert!(is_simple_type(&"bytes".to_string()));
    assert!(is_simple_type(&"double".to_string()));
    assert!(!is_simple_type(&"GraphProto".to_string()));
}

#[test]
fn bytes_as_characters() {
    assert_eq!(onnx::read_onnx::binary_string_to_ascii(b'A'), Some('A'));
    assert_eq!(onnx::read_onnx::binary_string_to_ascii(0x20), Some(' '));
    assert_eq!(onnx::read_onnx::binary_string_to_ascii(0xe9), Some('é'));
}

#[test]
fn decode_unknown_enum_constant() {
    let (s, root) = schema_and_root();
    // graph { node { kind = 7 } }
    let bytes = vec![0x3a, 0x04, 0x0a, 0x02, 0x30, 0x07];
    assert_eq!(read_onnx_file(&bytes, &s, root).err(), Some(DecodeError::UnknownField));
}

#[test]
fn decode_packed_repeated_field() {
    let s = create_struct_from_proto_file("message T { repeated int64 dims = 1; }").unwrap();
    let root = search_message_in_hashmap(&s, &vec!["T".to_string()]).unwrap();
    let bytes = vec![0x0a, 0x03, 0x01, 0x96, 0x01];
    let fields = read_onnx_file(&bytes, &s, root).unwrap();
    assert_eq!(fields.len(), 1);
    assert!(matches!(&fields[0].value, FieldValue::Bytes(b) if b == &vec![0x01, 0x96, 0x01]));
    let t = onnx::onnx_structure::TensorProto::from_fields(&fields);
    assert_eq!(t.dims, vec![1, 150]);
}

#[test]
fn decode_nested_length_past_region_closed_by_header() {
    let s = create_struct_from_proto_file(
        "message M { optional G g = 7; }\nmessage G { repeated N node = 1; }\nmessage N { repeated string input = 1; }\n",
    )
    .unwrap();
    let root = search_message_in_hashmap(&s, &vec!["M".to_string()]).unwrap();
    // the node's key and length fill the 2-byte graph; its 3 bytes lie past it
    let bytes = vec![0x3a, 0x02, 0x0a, 0x03, 0x0a, 0x01, b'x'];
    assert_eq!(read_onnx_file(&bytes, &s, root).err(), Some(DecodeError::InconsistentLength));
    let good = vec![0x3a, 0x05, 0x0a, 0x03, 0x0a, 0x01, b'x'];
    assert_eq!(read_onnx_file(&good, &s, root).unwrap().len(), 3);
}
