use vision_ai::activations::{default_activation, Activation as LayerActivation};
use vision_ai::mlp::{
    export_weights, import_weights, initial_weights, neuron_slots, weight_count, weight_draw_count, Activation,
};

fn sample_weights() -> (Vec<usize>, Vec<Vec<Vec<f64>>>) {
    let d = vec![2, 2, 1];
    let w = vec![
        vec![],
        vec![vec![0.0, 0.1, 0.2], vec![0.0, 0.3, 0.4], vec![0.0, 0.5, 0.6]],
        vec![vec![0.0, 0.7], vec![0.0, 0.8], vec![0.0, 0.9]],
    ];
    (d, w)
}

#[test]
fn from_code_values() {
    assert_eq!(Activation::from_code(0), Activation::Tanh);
    assert_eq!(Activation::from_code(1), Activation::Sigmoid);
    assert_eq!(Activation::from_code(2), Activation::Relu);
    assert_eq!(Activation::from_code(3), Activation::Tanh);
    assert_eq!(Activation::from_code(usize::MAX), Activation::Tanh);
}

#[test]
fn default_hidden_activation_is_relu() {
    assert_eq!(default_activation(), LayerActivation::ReLU);
}

#[test]
fn export_weights_order() {
    let (d, w) = sample_weights();
    let mut out = vec![-1.0; 17];
    export_weights(&d, &w, &mut out);
    assert_eq!(
        out,
        vec![0.0, 0.1, 0.2, 0.0, 0.3, 0.4, 0.0, 0.5, 0.6, 0.0, 0.7, 0.0, 0.8, 0.0, 0.9, -1.0, -1.0]
    );
}

#[test]
fn import_weights_reads_export_order() {
    let (d, mut w) = sample_weights();
    let inp: Vec<f64> = (0..15).map(|k| k as f64).collect();
    import_weights(&d, &mut w, &inp);
    assert!(w[0].is_empty());
    assert_eq!(w[1], vec![vec![0.0, 1.0, 2.0], vec![3.0, 4.0, 5.0], vec![6.0, 7.0, 8.0]]);
    assert_eq!(w[2], vec![vec![9.0, 10.0], vec![11.0, 12.0], vec![13.0, 14.0]]);
}

#[test]
fn export_then_import_roundtrip() {
    let (d, w) = sample_weights();
    let mut buf = vec![0.0; 15];
    export_weights(&d, &w, &mut buf);
    let mut other = vec![
        vec![],
        vec![vec![5.0; 3]; 3],
        vec![vec![5.0; 2]; 3],
    ];
    import_weights(&d, &mut other, &buf);
    assert_eq!(other, w);
}

#[test]
fn single_layer_network_has_no_weights() {
    let d = vec![4];
    let w: Vec<Vec<Vec<f64>>> = vec![vec![]];
    let mut out = vec![3.0; 2];
    export_weights(&d, &w, &mut out);
    assert_eq!(out, vec![3.0, 3.0]);
}

#[test]
fn draw_count_skips_bias_column() {
    // (2 + 1) * 3 + (3 + 1) * 1
    assert_eq!(weight_draw_count(&[2, 3, 1]), Some(13));
    assert_eq!(weight_draw_count(&[5]), Some(0));
    assert_eq!(weight_draw_count(&[]), Some(0));
    assert_eq!(weight_draw_count(&[usize::MAX, 0]), Some(0));
    assert_eq!(weight_draw_count(&[usize::MAX, 2]), None);
    assert_eq!(weight_draw_count(&[1 << 40, 1 << 40]), None);
}

#[test]
fn initial_weights_fill_in_export_order() {
    let d = [2usize, 3, 1];
    let draws: Vec<u32> = (1..=13).collect();
    let w = initial_weights(&d, 0u32, &draws);
    assert_eq!(w.len(), 3);
    assert!(w[0].is_empty());
    assert_eq!(w[1], vec![vec![0, 1, 2, 3], vec![0, 4, 5, 6], vec![0, 7, 8, 9]]);
    assert_eq!(w[2], vec![vec![0, 10], vec![0, 11], vec![0, 12], vec![0, 13]]);
    let mut out = vec![99u32; 22];
    export_weights(&d, &w, &mut out);
    assert_eq!(out, vec![0, 1, 2, 3, 0, 4, 5, 6, 0, 7, 8, 9, 0, 10, 0, 11, 0, 12, 0, 13, 99, 99]);
}

#[test]
fn neuron_slots_lead_with_bias() {
    assert_eq!(neuron_slots(&[2, 1], 1u8, 0u8), vec![vec![1, 0, 0], vec![1, 0]]);
    assert_eq!(neuron_slots(&[0], 7u8, 0u8), vec![vec![7]]);
    assert!(neuron_slots::<u8>(&[], 1, 0).is_empty());
}

#[test]
fn weight_count_includes_bias_row_and_column() {
    // (2 + 1) * (3 + 1) + (3 + 1) * (1 + 1)
    assert_eq!(weight_count(&[2, 3, 1]), Some(20));
    assert_eq!(weight_count(&[4]), Some(0));
    assert_eq!(weight_count(&[]), Some(0));
    assert_eq!(weight_count(&[usize::MAX, 0]), None);
    assert_eq!(weight_count(&[1 << 40, 1 << 40]), None);
    let (d, w) = sample_weights();
    let n = weight_count(&d).unwrap();
    let mut out = vec![0.0; n];
    export_weights(&d, &w, &mut out);
    assert_eq!(out[n - 1], 0.9);
}
