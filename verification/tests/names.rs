use vision_ai::names::{kernel_kind, model_kind, KernelKind, ModelKind};

#[test]
fn kernel_names_select_kernels() {
    assert_eq!(kernel_kind("linear"), Some(KernelKind::Linear));
    assert_eq!(kernel_kind("rbf"), Some(KernelKind::Rbf));
    assert_eq!(kernel_kind("poly"), Some(KernelKind::Polynomial));
    assert_eq!(kernel_kind("polynomial"), Some(KernelKind::Polynomial));
}

#[test]
fn unknown_kernel_names_are_refused() {
    assert_eq!(kernel_kind("sigmoid"), None);
    assert_eq!(kernel_kind(""), None);
    assert_eq!(kernel_kind("Linear"), None);
    assert_eq!(kernel_kind("linear "), None);
    assert_eq!(kernel_kind("pol"), None);
}

#[test]
fn model_names_select_families() {
    assert_eq!(model_kind("linear"), Some(ModelKind::Linear));
    assert_eq!(model_kind("linear_regression"), Some(ModelKind::Linear));
    assert_eq!(model_kind("mlp"), Some(ModelKind::Mlp));
    assert_eq!(model_kind("rbf"), None);
    assert_eq!(model_kind("MLP"), None);
    assert_eq!(model_kind(""), None);
}

