use vision_ai::config::config_layer_sizes;

#[test]
fn layer_sizes_read_from_config() {
    assert_eq!(config_layer_sizes(r#"{"layer_sizes": [12288, 64, 3]}"#), Some(vec![12288, 64, 3]));
    assert_eq!(config_layer_sizes(r#"{"layer_sizes": []}"#), Some(vec![]));
}

#[test]
fn non_integer_entries_are_skipped() {
    assert_eq!(config_layer_sizes(r#"{"layer_sizes": [4, -1, 2.5, "8", null, 3]}"#), Some(vec![4, 3]));
}

#[test]
fn missing_or_invalid_config() {
    assert_eq!(config_layer_sizes("not json"), None);
    assert_eq!(config_layer_sizes(r#"{"sizes": [1, 2]}"#), None);
    assert_eq!(config_layer_sizes(r#"{"layer_sizes": 5}"#), None);
    assert_eq!(config_layer_sizes("[1, 2]"), None);
}
