use vstd::prelude::*;
use crate::rows::{
    copy_prefix,
    flatten_rows,
    lemma_flatten_then_split,
    lemma_split_then_flatten,
    lemma_split_uniform,
    lemma_uniform_flatten,
    rows_view,
    split_rows_from,
    uniform_rows,
};

verus! {

/// Hidden-layer activation of the multi-layer perceptron.
#[derive(Clone, Copy, Debug, PartialEq, Eq, Structural)]
pub enum Activation {
    Tanh,
    Sigmoid,
    Relu,
}

impl Activation {
    /// Decodes an activation code: 1 is the sigmoid, 2 the ReLU, any other
    /// code the hyperbolic tangent.
    pub fn from_code(code: usize) -> (a: Activation)
        ensures
            a == (if code == 1 {
                Activation::Sigmoid
            } else if code == 2 {
                Activation::Relu
            } else {
                Activation::Tanh
            }),
    {
        match code {
            1 => Activation::Sigmoid,
            2 => Activation::Relu,
            _ => Activation::Tanh,
        }
    }
}

/// The weights of a network with layer sizes `d`, as nested sequences:
/// `w[l][i][j]` links neuron `i` of layer `l - 1` (0 being the bias) to
/// neuron `j` of layer `l`.
pub open spec fn weights_view<T>(w: Seq<Vec<Vec<T>>>) -> Seq<Seq<Seq<T>>> {
    w.map_values(|layer: Vec<Vec<T>>| rows_view(layer@))
}

/// `w` has the shape that layer sizes `d` give it: one entry per layer; for
/// each layer `l >= 1`, `d[l - 1] + 1` rows (bias included) of `d[l] + 1`
/// weights (bias column included).
pub open spec fn shaped<T>(w: Seq<Vec<Vec<T>>>, d: Seq<usize>) -> bool {
    &&& d.len() >= 1
    &&& w.len() == d.len()
    &&& forall|l: int|
        1 <= l < d.len() ==> (#[trigger] w[l])@.len() == d[l - 1] + 1 && uniform_rows(
            rows_view(w[l]@),
            (d[l] + 1) as nat,
        )
}

/// The weights of each layer `l >= 1`, row after row.
pub open spec fn weight_blocks<T>(w: Seq<Vec<Vec<T>>>) -> Seq<Seq<T>> {
    Seq::new((w.len() - 1) as nat, |m: int| rows_view(w[m + 1]@).flatten())
}

/// All weights in export order: layer `l` from 1 up, then row `i`, then
/// column `j`.
pub open spec fn flat_weights<T>(w: Seq<Vec<Vec<T>>>) -> Seq<T> {
    weight_blocks(w).flatten()
}

/// How many weights of layers `1 .. l - 1` are drawn at random when a
/// network is built: all but the bias column, `(d[m - 1] + 1) * d[m]` for
/// each layer `m`.
pub open spec fn draws_before(d: Seq<usize>, l: int) -> int
    decreases l,
{
    if l <= 1 {
        0
    } else {
        draws_before(d, l - 1) + (d[l - 2] + 1) * d[l - 1]
    }
}

/// Where the random value of weight `(l, i, j)`, `j >= 1`, is read from:
/// layers in order, then rows, then columns.
pub open spec fn draw_index(d: Seq<usize>, l: int, i: int, j: int) -> int {
    draws_before(d, l) + i * d[l] + (j - 1)
}

proof fn lemma_draws_before_monotone(d: Seq<usize>, a: int, b: int)
    requires
        a <= b,
    ensures
        draws_before(d, a) <= draws_before(d, b),
    decreases b - a,
{
    if a < b {
        lemma_draws_before_monotone(d, a, b - 1);
        if b > 1 {
            assert((d[b - 2] + 1) * d[b - 1] >= 0) by (nonlinear_arith);
        }
    }
}

/// How many random values a network with layer sizes `d` draws for its
/// weights; `None` when the count does not fit in a `usize`.
pub fn weight_draw_count(d: &[usize]) -> (n: Option<usize>)
    ensures
        match n {
            Some(k) => k == draws_before(d@, d@.len() as int),
            None => draws_before(d@, d@.len() as int) > usize::MAX,
        },
{
    let mut total: usize = 0;
    let mut l: usize = 1;
    while l < d.len()
        invariant
            1 <= l,
            l <= d@.len() || d@.len() == 0,
            total == draws_before(d@, l as int),
        decreases d@.len() - l,
    {
        let rows = match d[l - 1].checked_add(1) {
            Some(r) => r,
            None => {
                proof {
                    lemma_draws_before_monotone(d@, l + 1, d@.len() as int);
                    assert(draws_before(d@, l + 1) == total + (d@[l - 1] + 1) * d@[l as int]);
                    assert((d@[l - 1] + 1) * d@[l as int] >= 0) by (nonlinear_arith);
                    assert(d@[l as int] >= 1 ==> (d@[l - 1] + 1) * d@[l as int] >= d@[l - 1] + 1)
                        by (nonlinear_arith);
                }
                if d[l] == 0 {
                    // a layer of no neuron draws nothing, whatever feeds it
                    l = l + 1;
                    assert(draws_before(d@, l as int) == total + (d@[l - 2] + 1) * d@[l - 1]);
                    assert((d@[l - 2] + 1) * d@[l - 1] == 0) by (nonlinear_arith)
                        requires
                            d@[l - 1] == 0,
                    ;
                    continue;
                }
                return None;
            },
        };
        let block = match rows.checked_mul(d[l]) {
            Some(b) => b,
            None => {
                proof {
                    lemma_draws_before_monotone(d@, l + 1, d@.len() as int);
                }
                return None;
            },
        };
        let next = match total.checked_add(block) {
            Some(t) => t,
            None => {
                proof {
                    lemma_draws_before_monotone(d@, l + 1, d@.len() as int);
                }
                return None;
            },
        };
        total = next;
        l = l + 1;
    }
    if d.len() == 0 {
        return Some(0);
    }
    Some(total)
}

/// The weights of a new network with layer sizes `d`: layer 0 has none;
/// each layer `l >= 1` has `d[l - 1] + 1` rows of `d[l] + 1` weights, the
/// bias column (`j == 0`) holding `bias_col` and every other weight the
/// next value of `draws`, in export order.
pub fn initial_weights<T: Copy>(d: &[usize], bias_col: T, draws: &[T]) -> (w: Vec<Vec<Vec<T>>>)
    requires
        d@.len() >= 1,
        forall|l: int| 0 <= l < d@.len() ==> #[trigger] d@[l] < usize::MAX,
        draws_before(d@, d@.len() as int) <= draws@.len(),
    ensures
        shaped(w@, d@),
        w@[0]@.len() == 0,
        forall|l: int, i: int|
            1 <= l < d@.len() && 0 <= i <= d@[l - 1] ==> (#[trigger] w@[l]@[i])@[0] == bias_col,
        forall|l: int, i: int, j: int|
            1 <= l < d@.len() && 0 <= i <= d@[l - 1] && 1 <= j <= d@[l] ==> #[trigger] w@[l]@[i]@[j]
                == draws@[draw_index(d@, l, i, j)],
{
    let dlen = draws.len();
    let mut w: Vec<Vec<Vec<T>>> = Vec::new();
    w.push(Vec::new());
    let mut offset: usize = 0;
    let mut layer: usize = 1;
    while layer < d.len()
        invariant
            1 <= layer <= d@.len(),
            w@.len() == layer,
            w@[0]@.len() == 0,
            forall|l: int| 0 <= l < d@.len() ==> #[trigger] d@[l] < usize::MAX,
            draws_before(d@, d@.len() as int) <= draws@.len(),
            dlen == draws@.len(),
            offset == draws_before(d@, layer as int),
            forall|l: int|
                1 <= l < layer ==> (#[trigger] w@[l])@.len() == d@[l - 1] + 1 && uniform_rows(
                    rows_view(w@[l]@),
                    (d@[l] + 1) as nat,
                ),
            forall|l: int, i: int|
                1 <= l < layer && 0 <= i <= d@[l - 1] ==> (#[trigger] w@[l]@[i])@[0] == bias_col,
            forall|l: int, i: int, j: int|
                1 <= l < layer && 0 <= i <= d@[l - 1] && 1 <= j <= d@[l] ==> #[trigger] w@[l]@[i]@[j]
                    == draws@[draw_index(d@, l, i, j)],
        decreases d@.len() - layer,
    {
        let rows_n = d[layer - 1] + 1;
        let cols = d[layer];
        proof {
            lemma_draws_before_monotone(d@, layer + 1, d@.len() as int);
            assert(draws_before(d@, layer + 1) == offset + rows_n * cols);
        }
        let mut block: Vec<Vec<T>> = Vec::new();
        let mut i: usize = 0;
        while i < rows_n
            invariant
                i <= rows_n,
                rows_n == d@[layer - 1] + 1,
                cols == d@[layer as int],
                cols < usize::MAX,
                offset + rows_n * cols <= draws@.len(),
                dlen == draws@.len(),
                block@.len() == i,
                forall|r: int| 0 <= r < i ==> (#[trigger] block@[r])@.len() == cols + 1,
                forall|r: int| 0 <= r < i ==> (#[trigger] block@[r])@[0] == bias_col,
                forall|r: int, j: int|
                    0 <= r < i && 1 <= j <= cols ==> #[trigger] block@[r]@[j] == draws@[offset + r
                        * cols + j - 1],
            decreases rows_n - i,
        {
            assert((i + 1) * cols <= rows_n * cols) by (nonlinear_arith)
                requires
                    i + 1 <= rows_n,
            ;
            assert((i + 1) * cols == i * cols + cols) by (nonlinear_arith);
            let base = offset + i * cols;
            let mut row: Vec<T> = Vec::new();
            row.push(bias_col);
            let mut j: usize = 1;
            while j <= cols
                invariant
                    1 <= j <= cols + 1,
                    cols < usize::MAX,
                    base + cols <= draws@.len(),
                    dlen == draws@.len(),
                    row@.len() == j,
                    row@[0] == bias_col,
                    forall|k: int| 1 <= k < j ==> #[trigger] row@[k] == draws@[base + k - 1],
                decreases cols + 1 - j,
            {
                row.push(draws[base + j - 1]);
                j = j + 1;
            }
            block.push(row);
            i = i + 1;
        }
        let ghost prev = w@;
        w.push(block);
        proof {
            assert(w@[layer as int] == block);
            assert forall|l: int|
                1 <= l < layer + 1 implies (#[trigger] w@[l])@.len() == d@[l - 1] + 1 && uniform_rows(
                rows_view(w@[l]@),
                (d@[l] + 1) as nat,
            ) by {
                if l < layer {
                    assert(w@[l] == prev[l]);
                } else {
                    assert forall|r: int| 0 <= r < rows_view(w@[l]@).len() implies (
                    #[trigger] rows_view(w@[l]@)[r]).len() == (d@[l] + 1) as nat by {
                        assert(rows_view(w@[l]@)[r] == block@[r]@);
                    }
                }
            }
            assert forall|l: int, i2: int|
                1 <= l < layer + 1 && 0 <= i2 <= d@[l - 1] implies (#[trigger] w@[l]@[i2])@[0]
                == bias_col by {
                if l < layer {
                    assert(w@[l] == prev[l]);
                }
            }
            assert forall|l: int, i2: int, j2: int|
                1 <= l < layer + 1 && 0 <= i2 <= d@[l - 1] && 1 <= j2 <= d@[l] implies #[trigger] w@[
                l]@[i2]@[j2] == draws@[draw_index(d@, l, i2, j2)] by {
                if l < layer {
                    assert(w@[l] == prev[l]);
                } else {
                    assert(block@[i2]@[j2] == draws@[offset + i2 * cols + j2 - 1]);
                }
            }
        }
        offset = offset + rows_n * cols;
        layer = layer + 1;
    }
    w
}

/// One slot per neuron of each layer, plus a leading bias slot: layer `l`
/// gets `d[l] + 1` entries, `first` at index 0 and `rest` everywhere else.
pub fn neuron_slots<T: Copy>(d: &[usize], first: T, rest: T) -> (x: Vec<Vec<T>>)
    requires
        forall|l: int| 0 <= l < d@.len() ==> #[trigger] d@[l] < usize::MAX,
    ensures
        x@.len() == d@.len(),
        forall|l: int| 0 <= l < d@.len() ==> (#[trigger] x@[l])@.len() == d@[l] + 1,
        forall|l: int| 0 <= l < d@.len() ==> (#[trigger] x@[l])@[0] == first,
        forall|l: int, j: int| 0 <= l < d@.len() && 1 <= j <= d@[l] ==> #[trigger] x@[l]@[j] == rest,
{
    let mut x: Vec<Vec<T>> = Vec::new();
    let mut l: usize = 0;
    while l < d.len()
        invariant
            l <= d@.len(),
            x@.len() == l,
            forall|k: int| 0 <= k < d@.len() ==> #[trigger] d@[k] < usize::MAX,
            forall|k: int| 0 <= k < l ==> (#[trigger] x@[k])@.len() == d@[k] + 1,
            forall|k: int| 0 <= k < l ==> (#[trigger] x@[k])@[0] == first,
            forall|k: int, j: int| 0 <= k < l && 1 <= j <= d@[k] ==> #[trigger] x@[k]@[j] == rest,
        decreases d@.len() - l,
    {
        let n = d[l];
        let mut slots: Vec<T> = Vec::new();
        slots.push(first);
        let mut j: usize = 1;
        while j <= n
            invariant
                1 <= j <= n + 1,
                n < usize::MAX,
                slots@.len() == j,
                slots@[0] == first,
                forall|k: int| 1 <= k < j ==> #[trigger] slots@[k] == rest,
            decreases n + 1 - j,
        {
            slots.push(rest);
            j = j + 1;
        }
        x.push(slots);
        l = l + 1;
    }
    x
}

/// How many weights layers `1 .. l - 1` hold, bias row and column
/// included: `(d[m - 1] + 1) * (d[m] + 1)` for each layer `m`.
pub open spec fn weights_before(d: Seq<usize>, l: int) -> int
    decreases l,
{
    if l <= 1 {
        0
    } else {
        weights_before(d, l - 1) + (d[l - 2] + 1) * (d[l - 1] + 1)
    }
}

proof fn lemma_weights_before_monotone(d: Seq<usize>, a: int, b: int)
    requires
        a <= b,
    ensures
        weights_before(d, a) <= weights_before(d, b),
    decreases b - a,
{
    if a < b {
        lemma_weights_before_monotone(d, a, b - 1);
        if b > 1 {
            assert((d[b - 2] + 1) * (d[b - 1] + 1) >= 0) by (nonlinear_arith);
        }
    }
}

/// How many weights a network with layer sizes `d` exports; `None` when
/// the count does not fit in a `usize`.
pub fn weight_count(d: &[usize]) -> (n: Option<usize>)
    ensures
        match n {
            Some(k) => k == weights_before(d@, d@.len() as int),
            None => weights_before(d@, d@.len() as int) > usize::MAX,
        },
{
    let mut total: usize = 0;
    let mut l: usize = 1;
    while l < d.len()
        invariant
            1 <= l,
            l <= d@.len() || d@.len() == 0,
            total == weights_before(d@, l as int),
        decreases d@.len() - l,
    {
        proof {
            lemma_weights_before_monotone(d@, l + 1, d@.len() as int);
            assert(weights_before(d@, l + 1) == total + (d@[l - 1] + 1) * (d@[l as int] + 1));
            assert((d@[l - 1] + 1) * (d@[l as int] + 1) >= d@[l - 1] + 1) by (nonlinear_arith);
            assert((d@[l - 1] + 1) * (d@[l as int] + 1) >= d@[l as int] + 1) by (nonlinear_arith);
        }
        let rows = match d[l - 1].checked_add(1) {
            Some(r) => r,
            None => {
                return None;
            },
        };
        let cols = match d[l].checked_add(1) {
            Some(c) => c,
            None => {
                return None;
            },
        };
        let block = match rows.checked_mul(cols) {
            Some(b) => b,
            None => {
                return None;
            },
        };
        total = match total.checked_add(block) {
            Some(t) => t,
            None => {
                return None;
            },
        };
        l = l + 1;
    }
    if d.len() == 0 {
        return Some(0);
    }
    Some(total)
}

/// The weights of a network with layer sizes `d` export to
/// `weights_before(d, d.len())` entries: the length `weight_count` gives.
pub proof fn lemma_export_len<T>(w: Seq<Vec<Vec<T>>>, d: Seq<usize>)
    requires
        shaped(w, d),
    ensures
        flat_weights(w).len() == weights_before(d, d.len() as int),
{
    let blocks = weight_blocks(w);
    assert forall|l: int| 1 <= l <= d.len() implies #[trigger] blocks.take(l - 1).flatten_alt().len()
        == weights_before(d, l) by {
        lemma_blocks_prefix_len(w, d, l);
    }
    assert(blocks.take(d.len() - 1) =~= blocks);
    blocks.lemma_flatten_and_flatten_alt_are_equivalent();
}

proof fn lemma_blocks_prefix_len<T>(w: Seq<Vec<Vec<T>>>, d: Seq<usize>, l: int)
    requires
        shaped(w, d),
        1 <= l <= d.len(),
    ensures
        weight_blocks(w).take(l - 1).flatten_alt().len() == weights_before(d, l),
    decreases l,
{
    if l > 1 {
        lemma_blocks_prefix_len(w, d, l - 1);
        lemma_flatten_alt_take_step(weight_blocks(w), l - 2);
        lemma_block_len(w, d, l - 1);
    } else {
        assert(weight_blocks(w).take(0) =~= Seq::<Seq<T>>::empty());
    }
}

/// Writes the weights, in export order, at the start of `out`; the rest of
/// `out` is kept.
pub fn export_weights<T: Copy>(d: &[usize], w: &Vec<Vec<Vec<T>>>, out: &mut [T])
    requires
        shaped(w@, d@),
        flat_weights(w@).len() <= old(out)@.len(),
    ensures
        final(out)@.len() == old(out)@.len(),
        final(out)@.take(flat_weights(w@).len() as int) == flat_weights(w@),
        final(out)@.skip(flat_weights(w@).len() as int) == old(out)@.skip(
            flat_weights(w@).len() as int,
        ),
{
    let ghost blocks = weight_blocks(w@);
    let mut flat: Vec<T> = Vec::new();
    let mut layer: usize = 1;
    while layer < w.len()
        invariant
            1 <= layer <= w@.len(),
            blocks == weight_blocks(w@),
            flat@ == blocks.take(layer - 1).flatten_alt(),
        decreases w@.len() - layer,
    {
        let block = flatten_rows(&w[layer]);
        let ghost before = flat@;
        let mut q: usize = 0;
        while q < block.len()
            invariant
                q <= block@.len(),
                flat@ == before + block@.take(q as int),
            decreases block@.len() - q,
        {
            flat.push(block[q]);
            q = q + 1;
            assert(flat@ =~= before + block@.take(q as int));
        }
        assert(blocks.take(layer as int).drop_last() =~= blocks.take(layer - 1));
        assert(block@.take(q as int) =~= block@);
        assert(blocks[layer - 1] == block@);
        layer = layer + 1;
    }
    proof {
        assert(blocks.take(w@.len() - 1) =~= blocks);
        blocks.lemma_flatten_and_flatten_alt_are_equivalent();
    }
    copy_prefix(out, flat.as_slice());
    assert(out@.take(flat@.len() as int) =~= flat@);
    assert(out@.skip(flat@.len() as int) =~= old(out)@.skip(flat@.len() as int));
}

proof fn lemma_flatten_alt_take_step<T>(s: Seq<Seq<T>>, k: int)
    requires
        0 <= k < s.len(),
    ensures
        s.take(k + 1).flatten_alt() == s.take(k).flatten_alt() + s[k],
{
    assert(s.take(k + 1).drop_last() =~= s.take(k));
}

proof fn lemma_flatten_alt_take_len<T>(s: Seq<Seq<T>>, a: int, b: int)
    requires
        0 <= a <= b <= s.len(),
    ensures
        s.take(a).flatten_alt().len() <= s.take(b).flatten_alt().len(),
    decreases b - a,
{
    if a < b {
        lemma_flatten_alt_take_len(s, a, b - 1);
        lemma_flatten_alt_take_step(s, b - 1);
    }
}

proof fn lemma_block_len<T>(w: Seq<Vec<Vec<T>>>, d: Seq<usize>, l: int)
    requires
        shaped(w, d),
        1 <= l < d.len(),
    ensures
        weight_blocks(w)[l - 1].len() == (d[l - 1] + 1) * (d[l] + 1),
{
    let rows = rows_view(w[l]@);
    lemma_uniform_flatten(rows, (d[l] + 1) as nat);
    rows.lemma_flatten_and_flatten_alt_are_equivalent();
}

/// Replaces every weight of layers `l >= 1` by the entries of `inp`, read in
/// export order; layer 0 and the shape are kept.
pub fn import_weights<T: Copy>(d: &[usize], w: &mut Vec<Vec<Vec<T>>>, inp: &[T])
    requires
        shaped(old(w)@, d@),
        flat_weights(old(w)@).len() <= inp@.len(),
    ensures
        shaped(final(w)@, d@),
        final(w)@[0] == old(w)@[0],
        flat_weights(final(w)@) == inp@.take(flat_weights(old(w)@).len() as int),
{
    let ghost old_blocks = weight_blocks(old(w)@);
    proof {
        old_blocks.lemma_flatten_and_flatten_alt_are_equivalent();
        assert(old_blocks.take(old_blocks.len() as int) =~= old_blocks);
    }
    let ilen = inp.len();
    let mut offset: usize = 0;
    let mut layer: usize = 1;
    while layer < w.len()
        invariant
            1 <= layer <= w@.len(),
            ilen == inp@.len(),
            shaped(w@, d@),
            w@.len() == old(w)@.len(),
            w@[0] == old(w)@[0],
            old_blocks == weight_blocks(old(w)@),
            shaped(old(w)@, d@),
            old_blocks.flatten_alt().len() <= inp@.len(),
            old_blocks.take(old_blocks.len() as int) == old_blocks,
            offset == old_blocks.take(layer - 1).flatten_alt().len(),
            weight_blocks(w@).take(layer - 1).flatten_alt() == inp@.take(offset as int),
            forall|l: int| layer <= l < w@.len() ==> #[trigger] w@[l] == old(w)@[l],
        decreases w@.len() - layer,
    {
        proof {
            lemma_block_len(old(w)@, d@, layer as int);
            lemma_flatten_alt_take_step(old_blocks, layer - 1);
            lemma_flatten_alt_take_len(old_blocks, layer as int, old_blocks.len() as int);
            assert(w@[layer as int] == old(w)@[layer as int]);
            assert(rows_view(w@[layer as int]@)[0] == w@[layer as int]@[0]@);
        }
        let n = w[layer].len();
        let dim = w[layer][0].len();
        assert(n == d@[layer - 1] + 1 && dim == d@[layer as int] + 1);
        let rows = split_rows_from(inp, offset, n, dim);
        let ghost prev = w@;
        w.set(layer, rows);
        proof {
            let flat_part = inp@.skip(offset as int);
            lemma_split_then_flatten(flat_part, n as nat, dim as nat);
            lemma_split_uniform(flat_part, n as nat, dim as nat);
            assert(weight_blocks(w@)[layer - 1] == rows_view(rows@).flatten());
            assert(weight_blocks(w@)[layer - 1] =~= inp@.subrange(offset as int, offset + n * dim));
            assert(weight_blocks(w@).take(layer - 1) =~= weight_blocks(prev).take(layer - 1));
            lemma_flatten_alt_take_step(weight_blocks(w@), layer - 1);
            assert(inp@.take(offset + n * dim) =~= inp@.take(offset as int) + inp@.subrange(
                offset as int,
                offset + n * dim,
            ));
            assert forall|l: int| 1 <= l < d@.len() implies (#[trigger] w@[l])@.len() == d@[l - 1]
                + 1 && uniform_rows(rows_view(w@[l]@), (d@[l] + 1) as nat) by {
                if l != layer {
                    assert(w@[l] == prev[l]);
                }
            }
        }
        offset = offset + n * dim;
        layer = layer + 1;
    }
    proof {
        assert(weight_blocks(w@).take(w@.len() - 1) =~= weight_blocks(w@));
        weight_blocks(w@).lemma_flatten_and_flatten_alt_are_equivalent();
    }
}

proof fn lemma_flatten_alt_same_lengths<T>(s: Seq<Seq<T>>, t: Seq<Seq<T>>)
    requires
        s.len() == t.len(),
        forall|i: int| 0 <= i < s.len() ==> (#[trigger] s[i]).len() == t[i].len(),
    ensures
        s.flatten_alt().len() == t.flatten_alt().len(),
    decreases s.len(),
{
    if s.len() > 0 {
        lemma_flatten_alt_same_lengths(s.drop_last(), t.drop_last());
    }
}

proof fn lemma_flatten_alt_injective<T>(s: Seq<Seq<T>>, t: Seq<Seq<T>>)
    requires
        s.len() == t.len(),
        forall|i: int| 0 <= i < s.len() ==> (#[trigger] s[i]).len() == t[i].len(),
        s.flatten_alt() == t.flatten_alt(),
    ensures
        s == t,
    decreases s.len(),
{
    if s.len() > 0 {
        let a = s.drop_last();
        let b = t.drop_last();
        lemma_flatten_alt_same_lengths(a, b);
        let k = a.flatten_alt().len() as int;
        assert(s.flatten_alt() == a.flatten_alt() + s.last());
        assert(t.flatten_alt() == b.flatten_alt() + t.last());
        assert(a.flatten_alt() =~= s.flatten_alt().take(k));
        assert(b.flatten_alt() =~= t.flatten_alt().take(k));
        assert(s.last() =~= s.flatten_alt().skip(k));
        assert(t.last() =~= t.flatten_alt().skip(k));
        lemma_flatten_alt_injective(a, b);
        assert(s =~= a.push(s.last()));
        assert(t =~= b.push(t.last()));
    }
}

/// Two weight sets of the shape given by the same layer sizes export to
/// sequences of the same length: importing what one exported reads exactly
/// the exported weights.
pub proof fn lemma_same_shape_same_export_len<T>(w: Seq<Vec<Vec<T>>>, v: Seq<Vec<Vec<T>>>, d: Seq<
    usize,
>)
    requires
        shaped(w, d),
        shaped(v, d),
    ensures
        flat_weights(w).len() == flat_weights(v).len(),
{
    let bw = weight_blocks(w);
    let bv = weight_blocks(v);
    assert forall|i: int| 0 <= i < bw.len() implies (#[trigger] bw[i]).len() == bv[i].len() by {
        lemma_block_len(w, d, i + 1);
        lemma_block_len(v, d, i + 1);
    }
    lemma_flatten_alt_same_lengths(bw, bv);
    bw.lemma_flatten_and_flatten_alt_are_equivalent();
    bv.lemma_flatten_and_flatten_alt_are_equivalent();
}

/// The export order loses nothing: two weight sets of the same shape that
/// export to the same sequence hold the same weights in every layer
/// `l >= 1`. So importing what `export_weights` wrote into a network of the
/// same layer sizes restores the exported weights.
pub proof fn lemma_export_determines_weights<T>(w: Seq<Vec<Vec<T>>>, v: Seq<Vec<Vec<T>>>, d: Seq<
    usize,
>)
    requires
        shaped(w, d),
        shaped(v, d),
        flat_weights(w) == flat_weights(v),
    ensures
        forall|l: int| 1 <= l < d.len() ==> #[trigger] weights_view(w)[l] == weights_view(v)[l],
{
    let bw = weight_blocks(w);
    let bv = weight_blocks(v);
    assert forall|i: int| 0 <= i < bw.len() implies (#[trigger] bw[i]).len() == bv[i].len() by {
        lemma_block_len(w, d, i + 1);
        lemma_block_len(v, d, i + 1);
    }
    bw.lemma_flatten_and_flatten_alt_are_equivalent();
    bv.lemma_flatten_and_flatten_alt_are_equivalent();
    lemma_flatten_alt_injective(bw, bv);
    assert forall|l: int| 1 <= l < d.len() implies #[trigger] weights_view(w)[l] == weights_view(
        v,
    )[l] by {
        let rw = rows_view(w[l]@);
        let rv = rows_view(v[l]@);
        assert(bw[l - 1] == bv[l - 1]);
        lemma_flatten_then_split(rw, (d[l] + 1) as nat);
        lemma_flatten_then_split(rv, (d[l] + 1) as nat);
        assert(rw.len() == rv.len());
    }
}

} // verus!
