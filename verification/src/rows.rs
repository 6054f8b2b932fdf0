use vstd::prelude::*;

verus! {

/// The rows of a `Vec` of `Vec`s, as sequences.
pub open spec fn rows_view<T>(rows: Seq<Vec<T>>) -> Seq<Seq<T>> {
    rows.map_values(|r: Vec<T>| r@)
}

/// Every row is `width` long.
pub open spec fn uniform_rows<T>(rows: Seq<Seq<T>>, width: nat) -> bool {
    forall|r: int| 0 <= r < rows.len() ==> (#[trigger] rows[r]).len() == width
}

/// The `n` consecutive slices of length `dim` at the start of `flat`.
pub open spec fn split_spec<T>(flat: Seq<T>, n: nat, dim: nat) -> Seq<Seq<T>> {
    Seq::new(n, |k: int| flat.subrange(k * dim, (k + 1) * dim))
}

/// End of the `r`-th chunk of length `size` of a sequence of length `len`.
pub open spec fn chunk_end(r: int, size: int, len: int) -> int {
    if (r + 1) * size <= len {
        (r + 1) * size
    } else {
        len
    }
}

/// `rows` are the leading chunks of `flat`, cut every `size` elements (the
/// last chunk may be shorter), keeping at most `max_rows` of them: no chunk
/// starts at or past the end of `flat`, and chunks stop only at `max_rows`
/// or when `flat` is used up.
pub open spec fn is_chunking_of<T>(rows: Seq<Seq<T>>, flat: Seq<T>, size: int, max_rows: int) -> bool {
    &&& rows.len() <= max_rows
    &&& rows.len() == max_rows || rows.len() * size >= flat.len()
    &&& rows.len() == 0 || (rows.len() - 1) * size < flat.len()
    &&& forall|r: int|
        0 <= r < rows.len() ==> #[trigger] rows[r] == flat.subrange(
            r * size,
            chunk_end(r, size, flat.len() as int),
        )
}

proof fn lemma_mul_step(k: int, dim: int)
    ensures
        (k + 1) * dim == k * dim + dim,
{
    assert((k + 1) * dim == k * dim + dim) by (nonlinear_arith);
}

proof fn lemma_mul_le(a: int, b: int, dim: int)
    requires
        a <= b,
        dim >= 0,
    ensures
        a * dim <= b * dim,
{
    assert(a * dim <= b * dim) by (nonlinear_arith)
        requires
            a <= b,
            dim >= 0,
    ;
}

/// Concatenating rows of a common width puts entry `q` of row `r` at
/// `r * width + q`.
pub proof fn lemma_uniform_flatten<T>(rows: Seq<Seq<T>>, width: nat)
    requires
        uniform_rows(rows, width),
    ensures
        rows.flatten_alt().len() == rows.len() * width,
        forall|r: int, q: int|
            0 <= r < rows.len() && 0 <= q < width ==> rows.flatten_alt()[r * width + q]
                == #[trigger] rows[r][q],
    decreases rows.len(),
{
    if rows.len() > 0 {
        let init = rows.drop_last();
        assert(uniform_rows(init, width)) by {
            assert forall|r: int| 0 <= r < init.len() implies (#[trigger] init[r]).len()
                == width by {
                assert(init[r] == rows[r]);
            }
        }
        lemma_uniform_flatten(init, width);
        lemma_mul_step(rows.len() - 1, width as int);
        assert forall|r: int, q: int|
            0 <= r < rows.len() && 0 <= q < width implies rows.flatten_alt()[r * width + q]
                == #[trigger] rows[r][q] by {
            if r < rows.len() - 1 {
                assert(init[r] == rows[r]);
                assert(init[r][q] == init.flatten_alt()[r * width + q]);
                lemma_mul_le(r + 1, rows.len() - 1, width as int);
                lemma_mul_step(r, width as int);
            }
        }
    }
}

/// The entries `flat[start..end]`, copied.
fn copy_range<T: Copy>(flat: &[T], start: usize, end: usize) -> (row: Vec<T>)
    requires
        start <= end <= flat@.len(),
    ensures
        row@ == flat@.subrange(start as int, end as int),
{
    let mut row: Vec<T> = Vec::new();
    let mut q: usize = start;
    while q < end
        invariant
            start <= q <= end,
            end <= flat@.len(),
            row@ == flat@.subrange(start as int, q as int),
        decreases end - q,
    {
        row.push(flat[q]);
        q = q + 1;
        assert(row@ =~= flat@.subrange(start as int, q as int));
    }
    row
}

/// The rows of `flat[0..n * dim]` taken `dim` at a time (a flat table of `n`
/// samples of dimension `dim`).
pub fn split_rows<T: Copy>(flat: &[T], n: usize, dim: usize) -> (rows: Vec<Vec<T>>)
    requires
        n * dim <= flat@.len(),
    ensures
        rows_view(rows@) == split_spec(flat@, n as nat, dim as nat),
{
    let rows = split_rows_from(flat, 0, n, dim);
    assert(flat@.skip(0) =~= flat@);
    rows
}

/// `n` rows of `dim` entries read from `flat` starting at `offset`.
pub(crate) fn split_rows_from<T: Copy>(flat: &[T], offset: usize, n: usize, dim: usize) -> (rows: Vec<
    Vec<T>,
>)
    requires
        offset + n * dim <= flat@.len(),
    ensures
        rows_view(rows@) == split_spec(flat@.skip(offset as int), n as nat, dim as nat),
{
    let flen = flat.len();
    let mut rows: Vec<Vec<T>> = Vec::new();
    let mut k: usize = 0;
    while k < n
        invariant
            k <= n,
            flen == flat@.len(),
            offset + n * dim <= flat@.len(),
            rows@.len() == k,
            forall|r: int|
                0 <= r < k ==> (#[trigger] rows@[r])@ == flat@.skip(offset as int).subrange(
                    r * dim,
                    (r + 1) * dim,
                ),
        decreases n - k,
    {
        proof {
            lemma_mul_step(k as int, dim as int);
            lemma_mul_le((k + 1) as int, n as int, dim as int);
        }
        let start = offset + k * dim;
        let row = copy_range(flat, start, start + dim);
        assert(row@ =~= flat@.skip(offset as int).subrange(k * dim, (k + 1) * dim));
        rows.push(row);
        k = k + 1;
    }
    assert(rows_view(rows@) =~= split_spec(flat@.skip(offset as int), n as nat, dim as nat));
    rows
}

/// The chunks of `flat` of `size` elements (the last one possibly shorter),
/// keeping the first `max_rows` of them.
pub fn chunk_rows<T: Copy>(flat: &[T], size: usize, max_rows: usize) -> (rows: Vec<Vec<T>>)
    requires
        size > 0,
    ensures
        is_chunking_of(rows_view(rows@), flat@, size as int, max_rows as int),
{
    let len = flat.len();
    let mut rows: Vec<Vec<T>> = Vec::new();
    let mut start: usize = 0;
    while rows.len() < max_rows && start < len
        invariant
            size > 0,
            len == flat@.len(),
            rows@.len() <= max_rows,
            start <= len,
            start < len ==> start == rows@.len() * size,
            start == len ==> rows@.len() * size >= len,
            rows@.len() > 0 ==> (rows@.len() - 1) * size < len,
            forall|r: int|
                0 <= r < rows@.len() ==> (#[trigger] rows@[r])@ == flat@.subrange(
                    r * size,
                    chunk_end(r, size as int, len as int),
                ),
        decreases len - start,
    {
        let ghost cur = rows@.len();
        proof {
            lemma_mul_step(cur as int, size as int);
        }
        assert(start == cur * size);
        let end = if len - start > size {
            start + size
        } else {
            len
        };
        assert(end == chunk_end(cur as int, size as int, len as int));
        let row = copy_range(flat, start, end);
        let ghost before = rows@;
        rows.push(row);
        start = end;
        proof {
            assert(rows@.len() == cur + 1);
            if end < len {
                assert(end == (cur + 1) * size);
            } else {
                assert((cur + 1) * size >= len);
            }
            assert forall|rr: int|
                0 <= rr < rows@.len() implies (#[trigger] rows@[rr])@ == flat@.subrange(
                    rr * size,
                    chunk_end(rr, size as int, len as int),
                ) by {
                lemma_mul_step(rr as int, size as int);
                if rr < cur {
                    assert(rows@[rr] == before[rr]);
                } else {
                    assert(rr == cur);
                }
            }
        }
    }
    proof {
        let v = rows_view(rows@);
        assert forall|r: int| 0 <= r < v.len() implies #[trigger] v[r]
            == flat@.subrange(r * size, chunk_end(r, size as int, flat@.len() as int)) by {
            assert(v[r] == rows@[r]@);
        }
        assert(rows@.len() > 0 ==> (rows@.len() - 1) * size < len);
        assert(v.len() == rows@.len());
    }
    rows
}

/// All rows, one after the other.
pub fn flatten_rows<T: Copy>(rows: &Vec<Vec<T>>) -> (flat: Vec<T>)
    ensures
        flat@ == rows_view(rows@).flatten(),
{
    let ghost v = rows_view(rows@);
    let mut flat: Vec<T> = Vec::new();
    let mut r: usize = 0;
    while r < rows.len()
        invariant
            r <= rows@.len(),
            v == rows_view(rows@),
            flat@ == v.take(r as int).flatten_alt(),
        decreases rows@.len() - r,
    {
        let row = &rows[r];
        let ghost before = flat@;
        let mut q: usize = 0;
        while q < row.len()
            invariant
                q <= row@.len(),
                flat@ == before + row@.take(q as int),
            decreases row@.len() - q,
        {
            flat.push(row[q]);
            q = q + 1;
            assert(flat@ =~= before + row@.take(q as int));
        }
        assert(v.take(r + 1).drop_last() =~= v.take(r as int));
        assert(row@.take(q as int) =~= row@);
        r = r + 1;
    }
    proof {
        assert(v.take(rows@.len() as int) =~= v);
        v.lemma_flatten_and_flatten_alt_are_equivalent();
    }
    flat
}

/// Overwrites the leading entries of `dst` with those of `src`, as many as
/// both hold; the rest of `dst` is kept.
pub fn copy_prefix<T: Copy>(dst: &mut [T], src: &[T])
    ensures
        final(dst)@.len() == old(dst)@.len(),
        forall|i: int|
            0 <= i < old(dst)@.len() ==> #[trigger] final(dst)@[i] == if i < src@.len() {
                src@[i]
            } else {
                old(dst)@[i]
            },
{
    let n = if dst.len() <= src.len() {
        dst.len()
    } else {
        src.len()
    };
    let mut i: usize = 0;
    while i < n
        invariant
            i <= n,
            n <= src@.len(),
            n == old(dst)@.len() || n == src@.len(),
            n <= old(dst)@.len(),
            dst@.len() == old(dst)@.len(),
            forall|k: int|
                0 <= k < old(dst)@.len() ==> #[trigger] dst@[k] == if k < i {
                    src@[k]
                } else {
                    old(dst)@[k]
                },
        decreases n - i,
    {
        dst[i] = src[i];
        i = i + 1;
    }
}

proof fn lemma_decompose(k: int, n: int, dim: int)
    requires
        dim > 0,
        0 <= k < n * dim,
    ensures
        0 <= k / dim < n,
        0 <= k % dim < dim,
        k == (k / dim) * dim + k % dim,
{
    let r = k / dim;
    let q = k % dim;
    assert(k == r * dim + q && 0 <= q < dim) by (nonlinear_arith)
        requires
            dim > 0,
            r == k / dim,
            q == k % dim,
    ;
    assert(0 <= r < n) by (nonlinear_arith)
        requires
            dim > 0,
            0 <= k < n * dim,
            k == r * dim + q,
            0 <= q < dim,
    ;
}

/// Cutting a flat table into `n` rows of `dim` entries gives rows of `dim`
/// entries.
pub proof fn lemma_split_uniform<T>(flat: Seq<T>, n: nat, dim: nat)
    requires
        n * dim <= flat.len(),
    ensures
        uniform_rows(split_spec(flat, n, dim), dim),
{
    let rows = split_spec(flat, n, dim);
    assert forall|r: int| 0 <= r < rows.len() implies (#[trigger] rows[r]).len() == dim by {
        lemma_mul_step(r, dim as int);
        lemma_mul_le(r + 1, n as int, dim as int);
    }
}

/// Cutting a flat table into `n` rows of `dim` entries and concatenating the
/// rows again gives back the first `n * dim` entries.
pub proof fn lemma_split_then_flatten<T>(flat: Seq<T>, n: nat, dim: nat)
    requires
        n * dim <= flat.len(),
    ensures
        split_spec(flat, n, dim).flatten() == flat.take((n * dim) as int),
{
    let rows = split_spec(flat, n, dim);
    lemma_split_uniform(flat, n, dim);
    lemma_uniform_flatten(rows, dim);
    rows.lemma_flatten_and_flatten_alt_are_equivalent();
    if dim > 0 {
        assert forall|k: int| 0 <= k < n * dim implies rows.flatten_alt()[k] == flat[k] by {
            lemma_decompose(k, n as int, dim as int);
            let r = k / (dim as int);
            let q = k % (dim as int);
            lemma_mul_step(r, dim as int);
            lemma_mul_le(r + 1, n as int, dim as int);
            assert(rows[r][q] == flat[r * dim + q]);
        }
    } else {
        assert(n * dim == 0) by (nonlinear_arith)
            requires
                dim == 0,
        ;
    }
    assert(rows.flatten_alt() =~= flat.take((n * dim) as int));
}

/// Concatenating `n` rows of `dim` entries and cutting the result into rows
/// of `dim` entries gives back the rows.
pub proof fn lemma_flatten_then_split<T>(rows: Seq<Seq<T>>, dim: nat)
    requires
        uniform_rows(rows, dim),
    ensures
        rows.flatten().len() == rows.len() * dim,
        split_spec(rows.flatten(), rows.len(), dim) == rows,
{
    lemma_uniform_flatten(rows, dim);
    rows.lemma_flatten_and_flatten_alt_are_equivalent();
    let flat = rows.flatten();
    let back = split_spec(flat, rows.len(), dim);
    assert forall|r: int| 0 <= r < rows.len() implies #[trigger] back[r] == rows[r] by {
        lemma_mul_step(r, dim as int);
        lemma_mul_le(r + 1, rows.len() as int, dim as int);
        assert forall|q: int| 0 <= q < dim implies back[r][q] == rows[r][q] by {
            assert(flat[r * dim + q] == rows[r][q]);
        }
        assert(back[r] =~= rows[r]);
    }
    assert(back =~= rows);
}

/// Concatenating rows of `size > 0` entries and cutting the result into
/// chunks of `size`, keeping as many chunks as there were rows, gives back
/// the rows: the only chunking of the concatenation is the rows themselves.
pub proof fn lemma_flatten_then_chunk<T>(rows: Seq<Seq<T>>, size: nat, chunks: Seq<Seq<T>>)
    requires
        size > 0,
        uniform_rows(rows, size),
        is_chunking_of(chunks, rows.flatten(), size as int, rows.len() as int),
    ensures
        chunks == rows,
{
    lemma_flatten_then_split(rows, size);
    let flat = rows.flatten();
    let n = rows.len();
    if chunks.len() < n {
        assert(chunks.len() * size >= n * size);
        assert(false) by (nonlinear_arith)
            requires
                chunks.len() < n,
                chunks.len() * size >= n * size,
                size > 0,
        ;
    }
    assert(chunks.len() == n);
    assert forall|r: int| 0 <= r < n implies #[trigger] chunks[r] == rows[r] by {
        lemma_mul_step(r, size as int);
        lemma_mul_le(r + 1, n as int, size as int);
        assert(chunk_end(r, size as int, flat.len() as int) == (r + 1) * size);
        assert(split_spec(flat, n, size)[r] == rows[r]);
    }
    assert(chunks =~= rows);
}

} // verus!
