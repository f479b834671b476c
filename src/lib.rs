//! A CPU inference engine for ONNX models: a `.proto` schema reader, a
//! schema-driven decoder of binary messages, the model tree, graph
//! scheduling, and the index work of the operator kernels.
pub mod convolution_op;
pub mod model_inference;
pub mod onnx_structure;
pub mod proto_structure;
pub mod read_onnx;
pub mod read_proto;
pub mod tensor_store;
pub mod wire;
