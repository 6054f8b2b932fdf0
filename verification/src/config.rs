//! The layer sizes that a network's JSON configuration gives.

use vstd::prelude::*;

verus! {

/// The entries of the `layer_sizes` array of the JSON text `text`, each as a
/// `u64` when it is a non-negative integer that fits one and `None`
/// otherwise; `None` when the text is no JSON value or has no such array.
pub uninterp spec fn json_layer_entries(text: Seq<char>) -> Option<Seq<Option<u64>>>;

/// `serde_json::from_str::<serde_json::Value>`, then `["layer_sizes"]`,
/// `as_array()` and `as_u64()` on each entry. The result depends on the text
/// alone.
#[verifier::external_body]
fn layer_entries(text: &str) -> (r: Option<Vec<Option<u64>>>)
    ensures
        match r {
            Some(v) => json_layer_entries(text@) == Some(v@),
            None => json_layer_entries(text@) is None,
        },
{
    match serde_json::from_str::<serde_json::Value>(text) {
        Ok(config) => match config["layer_sizes"].as_array() {
            Some(entries) => Some(entries.iter().map(serde_json::Value::as_u64).collect()),
            None => None,
        },
        Err(_) => None,
    }
}

/// The entries that are integers, in order, each taken as a `usize`.
pub open spec fn integer_entries(es: Seq<Option<u64>>) -> Seq<usize>
    decreases es.len(),
{
    if es.len() == 0 {
        seq![]
    } else {
        let rest = integer_entries(es.drop_last());
        match es.last() {
            Some(n) => rest.push(n as usize),
            None => rest,
        }
    }
}

/// The layer sizes that the JSON configuration `text` gives: the integer
/// entries of its `layer_sizes` array, in order, other entries skipped;
/// `None` when the text is no JSON value or has no such array.
pub fn config_layer_sizes(text: &str) -> (r: Option<Vec<usize>>)
    ensures
        match json_layer_entries(text@) {
            None => r is None,
            Some(es) => r matches Some(v) && v@ == integer_entries(es),
        },
{
    let entries = match layer_entries(text) {
        Some(e) => e,
        None => {
            return None;
        },
    };
    let mut sizes: Vec<usize> = Vec::new();
    let mut i: usize = 0;
    while i < entries.len()
        invariant
            i <= entries@.len(),
            sizes@ == integer_entries(entries@.take(i as int)),
        decreases entries@.len() - i,
    {
        assert(entries@.take(i + 1).drop_last() =~= entries@.take(i as int));
        match entries[i] {
            Some(n) => {
                sizes.push(n as usize);
            },
            None => {},
        }
        i = i + 1;
    }
    assert(entries@.take(entries@.len() as int) =~= entries@);
    Some(sizes)
}

} // verus!
