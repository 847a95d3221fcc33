use pg_bart::forest::{deserialize_forest, serialize_forest};
use pg_bart::tree::DecisionTree;

fn sample_forest() -> Vec<DecisionTree> {
    let mut a = DecisionTree::new(1.0f64.to_bits());
    a.split_node(0, 2, 0.5f64.to_bits(), (-1.0f64).to_bits(), 2.0f64.to_bits(), 4, 6)
        .unwrap();
    let b = DecisionTree::new((-3.25f64).to_bits());
    vec![a, b]
}

#[test]
fn serialize_single_leaf_exact_bytes() {
    let t = DecisionTree::new(1.0f64.to_bits());
    let bytes = serialize_forest(&[t]);
    let mut expected: Vec<u8> = Vec::new();
    expected.extend_from_slice(&1u32.to_le_bytes());
    expected.extend_from_slice(&1u32.to_le_bytes());
    expected.extend_from_slice(&0u32.to_le_bytes());
    expected.extend_from_slice(&0.0f64.to_le_bytes());
    expected.extend_from_slice(&1.0f64.to_le_bytes());
    for v in [-1i32, -1, -1, 0, 0, 0, 1] {
        expected.extend_from_slice(&v.to_le_bytes());
    }
    assert_eq!(bytes, expected);
    assert_eq!(bytes.len(), 4 + 8 + 44);
}

#[test]
fn serialize_empty_forest() {
    assert_eq!(serialize_forest(&[]), vec![0, 0, 0, 0]);
    assert_eq!(deserialize_forest(&[0, 0, 0, 0]).unwrap(), Vec::<DecisionTree>::new());
}

#[test]
fn roundtrip_gives_back_the_forest() {
    let forest = sample_forest();
    let bytes = serialize_forest(&forest);
    let back = deserialize_forest(&bytes).unwrap();
    assert_eq!(back, forest);
    assert_eq!(serialize_forest(&back), bytes);
}

#[test]
fn trailing_bytes_are_refused() {
    let mut bytes = serialize_forest(&sample_forest());
    bytes.push(0);
    assert_eq!(
        deserialize_forest(&bytes).unwrap_err(),
        "Trailing bytes after decoding forest."
    );
}

#[test]
fn truncated_buffer_is_refused() {
    let bytes = serialize_forest(&sample_forest());
    for cut in [0usize, 3, 4, 10, bytes.len() - 1] {
        assert_eq!(
            deserialize_forest(&bytes[..cut]).unwrap_err(),
            "Unexpected end of buffer while decoding."
        );
    }
}

#[test]
fn oversized_tree_count_is_refused() {
    assert_eq!(
        deserialize_forest(&[5, 0, 0, 0]).unwrap_err(),
        "Unexpected end of buffer while decoding."
    );
}
