//! Integer and layout logic of a small machine-learning toolkit: evaluation
//! metrics over class labels, cross-validation splits, flat matrix layouts,
//! the weight layout of a multi-layer perceptron, the choice of initial
//! centres for radial-basis networks, the text format of a saved linear
//! model, model and kernel names, and the checks of the prediction service.

pub mod activations;
pub mod metrics;
pub mod matrix;
pub mod rows;
pub mod mlp;
pub mod centers;
pub mod saved;
pub mod save;
pub mod names;
pub mod request;
pub mod config;
