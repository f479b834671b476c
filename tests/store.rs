use onnx::tensor_store::{StoreError, TensorStore};

#[test]
fn store_publishes_each_name_once() {
    let mut s: TensorStore<Vec<f32>> = TensorStore::new();
    assert_eq!(s.get(&"a".to_string()), None);
    assert_eq!(s.put("a".to_string(), vec![1.0, 2.0]), Ok(()));
    assert_eq!(s.put("a".to_string(), vec![3.0]), Err(StoreError::Duplicate));
    assert_eq!(s.get(&"a".to_string()), Some(&vec![1.0, 2.0]));
    assert!(s.contains(&"a".to_string()));
    assert!(!s.contains(&"b".to_string()));
    assert_eq!(s.put("b".to_string(), vec![]), Ok(()));
    assert_eq!(s.get(&"b".to_string()), Some(&vec![]));
    assert_eq!(s.get(&"a".to_string()), Some(&vec![1.0, 2.0]));
}
