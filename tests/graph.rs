use onnx::convolution_op::Padding;
use onnx::model_inference::{
    already_into_initializer, axis_attribute, contains_name, convolution_attributes, drop_out_attributes,
    max_pool_attributes, plan_levels, search_input_data_shape, search_node_without_previous_dependencies,
    ExecError,
};
use onnx::onnx_structure::{AttributeProto, ModelProto, NodeProto, TensorProto, ValueInfoProto};

fn node(op: &str, inputs: &[&str], outputs: &[&str]) -> NodeProto {
    NodeProto {
        input: inputs.iter().map(|s| s.to_string()).collect(),
        output: outputs.iter().map(|s| s.to_string()).collect(),
        name: op.to_string(),
        op_type: op.to_string(),
        attribute: Vec::new(),
    }
}

fn ints(name: &str, v: &[i64]) -> AttributeProto {
    AttributeProto { name: name.to_string(), f: None, i: None, s: None, ints: v.to_vec(), floats: Vec::new() }
}

fn int_attr(name: &str, v: i64) -> AttributeProto {
    AttributeProto { name: name.to_string(), f: None, i: Some(v), s: None, ints: Vec::new(), floats: Vec::new() }
}

fn text(name: &str, v: &str) -> AttributeProto {
    AttributeProto { name: name.to_string(), f: None, i: None, s: Some(v.as_bytes().to_vec()), ints: Vec::new(), floats: Vec::new() }
}

fn names(v: &[&str]) -> Vec<String> {
    v.iter().map(|s| s.to_string()).collect()
}

#[test]
fn parallel_independent_branches() {
    let nodes = vec![
        node("Conv", &["x1", "w1"], &["y1"]),
        node("Conv", &["x2", "w2"], &["y2"]),
        node("Concat", &["y1", "y2"], &["z"]),
    ];
    let levels = plan_levels(&nodes, &names(&["x1", "w1", "x2", "w2"])).unwrap();
    assert_eq!(levels, vec![0, 0, 1]);
    let ready = search_node_without_previous_dependencies(&nodes, &names(&["x1", "w1", "x2", "w2"]), &Vec::new()).unwrap();
    assert_eq!(ready, vec![0, 1]);
    // weights held as initializers count as available
    let inits = vec![
        TensorProto { dims: vec![1], data_type: 1, float_data: vec![0], int64_data: Vec::new(), name: "w1".to_string(), raw_data: None },
        TensorProto { dims: vec![1], data_type: 1, float_data: vec![0], int64_data: Vec::new(), name: "w2".to_string(), raw_data: None },
    ];
    let ready = search_node_without_previous_dependencies(&nodes, &names(&["x1", "x2"]), &inits).unwrap();
    assert_eq!(ready, vec![0, 1]);
    assert!(search_node_without_previous_dependencies(&nodes, &names(&["x1", "x2"]), &Vec::new()).is_none());
}

#[test]
fn schedule_follows_dependencies() {
    let nodes = vec![
        node("Relu", &["b"], &["c"]),
        node("Relu", &["a"], &["b"]),
        node("Add", &["c", "a"], &["d"]),
    ];
    let levels = plan_levels(&nodes, &names(&["a"])).unwrap();
    assert_eq!(levels, vec![1, 0, 2]);
    assert!(search_node_without_previous_dependencies(&nodes, &names(&["a"]), &Vec::new()).is_none());
}

#[test]
fn schedule_missing_input() {
    let nodes = vec![node("Relu", &["a"], &["b"]), node("Relu", &["nowhere"], &["c"])];
    assert_eq!(plan_levels(&nodes, &names(&["a"])), Err(ExecError::MissingInput));
}

#[test]
fn schedule_empty_graph() {
    assert_eq!(plan_levels(&Vec::new(), &Vec::new()), Ok(Vec::new()));
}

#[test]
fn conv_attributes_read() {
    let mut n = node("Conv", &["x", "w"], &["y"]);
    n.attribute = vec![text("auto_pad", "SAME_UPPER"), ints("strides", &[2, 2]), ints("kernel_shape", &[3, 3]), int_attr("group", 1)];
    let a = convolution_attributes(&n).unwrap();
    assert_eq!(a.auto_pad, Padding::SameUpper);
    assert_eq!(a.strides, (2, 2));
    assert_eq!(a.kernel_shape, Some((3, 3)));
    assert_eq!(a.dilations, (1, 1));
    assert_eq!(a.pads, (0, 0, 0, 0));
}

#[test]
fn conv_attributes_pads_and_errors() {
    let mut n = node("Conv", &["x", "w"], &["y"]);
    n.attribute = vec![ints("pads", &[1, 2, 3, 4]), ints("dilations", &[2, 2])];
    let a = convolution_attributes(&n).unwrap();
    assert_eq!(a.pads, (1, 2, 3, 4));
    assert_eq!(a.dilations, (2, 2));
    n.attribute = vec![int_attr("alpha", 1)];
    assert_eq!(convolution_attributes(&n).err(), Some(ExecError::AttrUnknown));
    n.attribute = vec![text("auto_pad", "SAME")];
    assert_eq!(convolution_attributes(&n).err(), Some(ExecError::AttrUnknown));
    n.attribute = vec![ints("strides", &[1])];
    assert_eq!(convolution_attributes(&n).err(), Some(ExecError::KernelFailure));
}

#[test]
fn max_pool_attributes_need_kernel_shape() {
    let mut n = node("MaxPool", &["x"], &["y"]);
    n.attribute = vec![ints("strides", &[2, 2])];
    assert_eq!(max_pool_attributes(&n).err(), Some(ExecError::AttrMissing));
    n.attribute.push(ints("kernel_shape", &[3, 3]));
    let a = max_pool_attributes(&n).unwrap();
    assert_eq!(a.kernel_shape, Some((3, 3)));
    assert_eq!(a.strides, (2, 2));
    n.attribute.push(ints("dilations", &[1, 1]));
    assert_eq!(max_pool_attributes(&n).err(), Some(ExecError::AttrUnknown));
}

#[test]
fn axis_and_dropout_attributes() {
    let mut n = node("Concat", &["a", "b"], &["c"]);
    assert_eq!(axis_attribute(&n, 1), Ok(1));
    n.attribute = vec![int_attr("axis", 2)];
    assert_eq!(axis_attribute(&n, 1), Ok(2));
    n.attribute = vec![int_attr("ratio", 2)];
    assert_eq!(axis_attribute(&n, 1), Err(ExecError::AttrUnknown));
    let mut d = node("Dropout", &["a"], &["b"]);
    d.attribute = vec![AttributeProto { name: "ratio".to_string(), f: Some(0.5f32.to_bits()), i: None, s: None, ints: Vec::new(), floats: Vec::new() }];
    assert_eq!(drop_out_attributes(&d), Ok(()));
    d.attribute.push(int_attr("seed", 3));
    assert_eq!(drop_out_attributes(&d), Err(ExecError::AttrUnknown));
}

#[test]
fn initializers_and_input_shapes() {
    let mut m = ModelProto::new();
    m.graph.initializer.push(TensorProto { dims: vec![2], data_type: 1, float_data: vec![0, 0], int64_data: Vec::new(), name: "w".to_string(), raw_data: None });
    m.graph.input.push(ValueInfoProto { name: "data".to_string(), dims: vec![1, 3, 224, 224] });
    assert!(already_into_initializer(&m.graph.initializer, &"w".to_string()));
    assert!(!already_into_initializer(&m.graph.initializer, &"data".to_string()));
    assert_eq!(search_input_data_shape(&m.graph.input, &"data".to_string()), vec![1, 3, 224, 224]);
    assert!(search_input_data_shape(&m.graph.input, &"w".to_string()).is_empty());
    assert!(contains_name(&names(&["a", "b"]), &"b".to_string()));
    assert!(!contains_name(&names(&["a", "b"]), &"c".to_string()));
}

#[test]
fn batches_group_nodes_by_level() {
    let batches = onnx::model_inference::level_batches(&vec![1, 0, 2, 0, 1]);
    assert_eq!(batches, vec![vec![1, 3], vec![0, 4], vec![2]]);
    assert!(onnx::model_inference::level_batches(&Vec::new()).is_empty());
}

#[test]
fn operator_catalog() {
    assert_eq!(onnx::model_inference::op_kind(&"Conv".to_string()), Ok(onnx::model_inference::OpKind::Conv));
    assert_eq!(onnx::model_inference::op_kind(&"MatMul".to_string()), Ok(onnx::model_inference::OpKind::MatMul));
    assert_eq!(onnx::model_inference::op_kind(&"Gemm".to_string()), Err(ExecError::UnknownOp));
}

#[test]
fn caller_input_dims_and_choice() {
    assert_eq!(onnx::model_inference::input_dims(&vec![1, 3, 2, 2], 12), Ok(vec![1, 3, 2, 2]));
    assert_eq!(onnx::model_inference::input_dims(&vec![1, 3, 2, 2], 11), Err(ExecError::KernelFailure));
    assert_eq!(onnx::model_inference::input_dims(&vec![-1, 3], 3), Err(ExecError::KernelFailure));
    let inputs = vec![
        ValueInfoProto { name: "w".to_string(), dims: vec![2] },
        ValueInfoProto { name: "data".to_string(), dims: vec![1, 3] },
    ];
    let inits = vec![TensorProto { dims: vec![2], data_type: 1, float_data: vec![0, 0], int64_data: Vec::new(), name: "w".to_string(), raw_data: None }];
    assert_eq!(onnx::model_inference::first_free_input(&inputs, &inits), Some(1));
    let only_w = vec![ValueInfoProto { name: "w".to_string(), dims: vec![2] }];
    assert_eq!(onnx::model_inference::first_free_input(&only_w, &inits), None);
}
