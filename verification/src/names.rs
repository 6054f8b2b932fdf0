use vstd::prelude::*;
use crate::saved::chars_of;

verus! {

/// The kernels a support-vector machine can be built with.
#[derive(Clone, Copy, Debug, PartialEq, Eq, Structural)]
pub enum KernelKind {
    Linear,
    Rbf,
    Polynomial,
}

/// The model families that can be created by name.
#[derive(Clone, Copy, Debug, PartialEq, Eq, Structural)]
pub enum ModelKind {
    Linear,
    Mlp,
}

/// The kernel a name selects: `linear`, `rbf`, and `poly` or `polynomial`.
pub open spec fn kernel_named(name: Seq<char>) -> Option<KernelKind> {
    if name == "linear"@ {
        Some(KernelKind::Linear)
    } else if name == "rbf"@ {
        Some(KernelKind::Rbf)
    } else if name == "poly"@ || name == "polynomial"@ {
        Some(KernelKind::Polynomial)
    } else {
        None
    }
}

/// The model family a name selects: `linear` or `linear_regression`, and
/// `mlp`.
pub open spec fn model_named(name: Seq<char>) -> Option<ModelKind> {
    if name == "linear"@ || name == "linear_regression"@ {
        Some(ModelKind::Linear)
    } else if name == "mlp"@ {
        Some(ModelKind::Mlp)
    } else {
        None
    }
}

/// Whether the characters of `a` are those of `b`.
fn same_text(a: &Vec<char>, word: &str) -> (r: bool)
    ensures
        r == (a@ == word@),
{
    let b = chars_of(word);
    if a.len() != b.len() {
        return false;
    }
    let mut i: usize = 0;
    while i < a.len()
        invariant
            a@.len() == b@.len(),
            b@ == word@,
            i <= a@.len(),
            forall|j: int| 0 <= j < i ==> a@[j] == b@[j],
        decreases a@.len() - i,
    {
        if a[i] != b[i] {
            assert(a@[i as int] != b@[i as int]);
            return false;
        }
        i = i + 1;
    }
    assert(a@ =~= b@);
    true
}

/// The kernel named `name`, or `None` when no kernel has that name.
pub fn kernel_kind(name: &str) -> (k: Option<KernelKind>)
    ensures
        k == kernel_named(name@),
{
    proof {
        reveal_strlit("linear");
        reveal_strlit("rbf");
        reveal_strlit("poly");
        reveal_strlit("polynomial");
    }
    let text = chars_of(name);
    if same_text(&text, "linear") {
        Some(KernelKind::Linear)
    } else if same_text(&text, "rbf") {
        Some(KernelKind::Rbf)
    } else if same_text(&text, "poly") || same_text(&text, "polynomial") {
        Some(KernelKind::Polynomial)
    } else {
        None
    }
}

/// The model family named `name`, or `None` when none has that name.
pub fn model_kind(name: &str) -> (k: Option<ModelKind>)
    ensures
        k == model_named(name@),
{
    let text = chars_of(name);
    if same_text(&text, "linear") || same_text(&text, "linear_regression") {
        Some(ModelKind::Linear)
    } else if same_text(&text, "mlp") {
        Some(ModelKind::Mlp)
    } else {
        None
    }
}

} // verus!
