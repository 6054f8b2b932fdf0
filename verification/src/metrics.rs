use vstd::prelude::*;

verus! {

/// Number of (prediction, target) pairs that a pairwise walk visits: the
/// length of the shorter sequence.
pub open spec fn paired_len(predictions: Seq<usize>, targets: Seq<usize>) -> nat {
    if predictions.len() <= targets.len() {
        predictions.len()
    } else {
        targets.len()
    }
}

/// Among the first `n` pairs, how many have target `t` and prediction `p`.
pub open spec fn pair_count(predictions: Seq<usize>, targets: Seq<usize>, n: nat, t: int, p: int) -> nat
    decreases n,
{
    if n == 0 {
        0
    } else {
        pair_count(predictions, targets, (n - 1) as nat, t, p) + if targets[n - 1] == t
            && predictions[n - 1] == p {
            1nat
        } else {
            0nat
        }
    }
}

/// Among the first `n` pairs, how many have target `t`.
pub open spec fn target_count(targets: Seq<usize>, n: nat, t: int) -> nat
    decreases n,
{
    if n == 0 {
        0
    } else {
        target_count(targets, (n - 1) as nat, t) + if targets[n - 1] == t {
            1nat
        } else {
            0nat
        }
    }
}

/// Among the first `n` pairs, how many have prediction `p`.
pub open spec fn prediction_count(predictions: Seq<usize>, n: nat, p: int) -> nat
    decreases n,
{
    if n == 0 {
        0
    } else {
        prediction_count(predictions, (n - 1) as nat, p) + if predictions[n - 1] == p {
            1nat
        } else {
            0nat
        }
    }
}

/// Among the first `n` pairs, how many have a prediction equal to the target.
pub open spec fn match_count(predictions: Seq<usize>, targets: Seq<usize>, n: nat) -> nat
    decreases n,
{
    if n == 0 {
        0
    } else {
        match_count(predictions, targets, (n - 1) as nat) + if predictions[n - 1]
            == targets[n - 1] {
            1nat
        } else {
            0nat
        }
    }
}

/// Every label of the visited pairs names one of `num_classes` classes.
pub open spec fn labels_below(predictions: Seq<usize>, targets: Seq<usize>, num_classes: nat) -> bool {
    forall|j: int|
        0 <= j < paired_len(predictions, targets) ==> #[trigger] targets[j] < num_classes
            && predictions[j] < num_classes
}

/// `m` is the `num_classes` x `num_classes` confusion matrix of the pairs:
/// row = true label, column = predicted label, entry = number of such pairs.
pub open spec fn is_confusion_matrix(
    m: Seq<Vec<usize>>,
    predictions: Seq<usize>,
    targets: Seq<usize>,
    num_classes: nat,
) -> bool {
    &&& m.len() == num_classes
    &&& forall|r: int| 0 <= r < num_classes ==> (#[trigger] m[r])@.len() == num_classes
    &&& forall|t: int, p: int|
        0 <= t < num_classes && 0 <= p < num_classes ==> (#[trigger] m[t]@[p]) == pair_count(
            predictions,
            targets,
            paired_len(predictions, targets),
            t,
            p,
        )
}

/// Sum of the entries `m[i][col]` for rows `i < upto` other than `skip`.
pub open spec fn column_sum_except(m: Seq<Vec<usize>>, col: int, skip: int, upto: nat) -> int
    decreases upto,
{
    if upto == 0 {
        0
    } else {
        column_sum_except(m, col, skip, (upto - 1) as nat) + if upto - 1 == skip {
            0
        } else {
            m[upto - 1]@[col] as int
        }
    }
}

/// Sum of the entries `m[row][j]` for columns `j < upto` other than `skip`.
pub open spec fn row_sum_except(m: Seq<Vec<usize>>, row: int, skip: int, upto: nat) -> int
    decreases upto,
{
    if upto == 0 {
        0
    } else {
        row_sum_except(m, row, skip, (upto - 1) as nat) + if upto - 1 == skip {
            0
        } else {
            m[row]@[upto - 1] as int
        }
    }
}

/// Test indices of fold `i` when `n_samples` samples are cut into `k` folds:
/// the `n_samples / k` consecutive indices starting at `i * (n_samples / k)`.
pub open spec fn fold_test(n_samples: nat, k: nat, i: nat) -> Seq<usize> {
    let size = n_samples / k;
    Seq::new(size, |j: int| (i * size + j) as usize)
}

/// Training indices of fold `i`: the indices `0..n_samples` in increasing
/// order, without the test indices of that fold.
pub open spec fn fold_train(n_samples: nat, k: nat, i: nat) -> Seq<usize> {
    let size = n_samples / k;
    Seq::new(
        (n_samples - size) as nat,
        |j: int|
            if j < i * size {
                j as usize
            } else {
                (j + size) as usize
            },
    )
}

proof fn lemma_pair_count_bound(predictions: Seq<usize>, targets: Seq<usize>, n: nat, t: int, p: int)
    ensures
        pair_count(predictions, targets, n, t, p) <= n,
    decreases n,
{
    if n > 0 {
        lemma_pair_count_bound(predictions, targets, (n - 1) as nat, t, p);
    }
}

proof fn lemma_pair_count_prefix(
    predictions: Seq<usize>,
    targets: Seq<usize>,
    p2: Seq<usize>,
    t2: Seq<usize>,
    n: nat,
    t: int,
    p: int,
)
    requires
        n <= predictions.len(),
        n <= targets.len(),
        n <= p2.len(),
        n <= t2.len(),
        forall|j: int| 0 <= j < n ==> predictions[j] == p2[j] && targets[j] == t2[j],
    ensures
        pair_count(predictions, targets, n, t, p) == pair_count(p2, t2, n, t, p),
    decreases n,
{
    if n > 0 {
        lemma_pair_count_prefix(predictions, targets, p2, t2, (n - 1) as nat, t, p);
    }
}

/// Confusion matrix: row = true label, column = predicted label. Pairs are
/// taken position by position up to the shorter of the two sequences.
pub fn confusion_matrix(predictions: &[usize], targets: &[usize], num_classes: usize) -> (m: Vec<
    Vec<usize>,
>)
    requires
        labels_below(predictions@, targets@, num_classes as nat),
    ensures
        is_confusion_matrix(m@, predictions@, targets@, num_classes as nat),
{
    let mut matrix: Vec<Vec<usize>> = Vec::new();
    let mut r: usize = 0;
    while r < num_classes
        invariant
            r <= num_classes,
            matrix@.len() == r,
            forall|i: int|
                0 <= i < r ==> (#[trigger] matrix@[i])@.len() == num_classes && forall|p: int|
                    0 <= p < num_classes ==> matrix@[i]@[p] == 0,
        decreases num_classes - r,
    {
        let mut row: Vec<usize> = Vec::new();
        let mut c: usize = 0;
        while c < num_classes
            invariant
                c <= num_classes,
                row@.len() == c,
                forall|p: int| 0 <= p < c ==> row@[p] == 0,
            decreases num_classes - c,
        {
            row.push(0);
            c = c + 1;
        }
        matrix.push(row);
        r = r + 1;
    }
    let n: usize = if predictions.len() <= targets.len() {
        predictions.len()
    } else {
        targets.len()
    };
    let mut j: usize = 0;
    while j < n
        invariant
            j <= n,
            n == paired_len(predictions@, targets@),
            labels_below(predictions@, targets@, num_classes as nat),
            matrix@.len() == num_classes,
            forall|i: int| 0 <= i < num_classes ==> (#[trigger] matrix@[i])@.len() == num_classes,
            forall|t: int, p: int|
                0 <= t < num_classes && 0 <= p < num_classes ==> (#[trigger] matrix@[t]@[p])
                    == pair_count(predictions@, targets@, j as nat, t, p),
        decreases n - j,
    {
        let pred = predictions[j];
        let target = targets[j];
        assert(targets@[j as int] < num_classes && predictions@[j as int] < num_classes);
        proof {
            lemma_pair_count_bound(predictions@, targets@, j as nat, target as int, pred as int);
        }
        let old_count = matrix[target][pred];
        matrix[target].set(pred, old_count + 1);
        j = j + 1;
    }
    matrix
}

/// Number of positions where the prediction equals the target (the numerator
/// of the accuracy).
pub fn correct_count(predictions: &[usize], targets: &[usize]) -> (c: usize)
    requires
        predictions@.len() == targets@.len(),
    ensures
        c == match_count(predictions@, targets@, predictions@.len()),
{
    let mut count: usize = 0;
    let mut j: usize = 0;
    while j < predictions.len()
        invariant
            j <= predictions@.len(),
            predictions@.len() == targets@.len(),
            count == match_count(predictions@, targets@, j as nat),
            count <= j,
        decreases predictions@.len() - j,
    {
        if predictions[j] == targets[j] {
            count = count + 1;
        }
        j = j + 1;
    }
    count
}

/// False positives of `class`: the entries of its column outside the
/// diagonal (pairs predicted as `class` whose true label differs); `None`
/// when their sum does not fit in a `usize`.
pub fn false_positives(matrix: &[Vec<usize>], class: usize) -> (fp: Option<usize>)
    requires
        class < matrix@.len(),
        forall|i: int| 0 <= i < matrix@.len() ==> class < (#[trigger] matrix@[i])@.len(),
    ensures
        match fp {
            Some(v) => v == column_sum_except(matrix@, class as int, class as int, matrix@.len()),
            None => column_sum_except(matrix@, class as int, class as int, matrix@.len()) > usize::MAX,
        },
{
    let mut sum: usize = 0;
    let mut i: usize = 0;
    while i < matrix.len()
        invariant
            i <= matrix@.len(),
            forall|r: int| 0 <= r < matrix@.len() ==> class < (#[trigger] matrix@[r])@.len(),
            sum == column_sum_except(matrix@, class as int, class as int, i as nat),
        decreases matrix@.len() - i,
    {
        if i != class {
            match sum.checked_add(matrix[i][class]) {
                Some(v) => {
                    sum = v;
                },
                None => {
                    proof {
                        lemma_column_sum_monotone(
                            matrix@,
                            class as int,
                            class as int,
                            (i + 1) as nat,
                            matrix@.len(),
                        );
                    }
                    return None;
                },
            }
        }
        i = i + 1;
    }
    Some(sum)
}

/// False negatives of `class`: the entries of its row outside the diagonal
/// (pairs whose true label is `class` but predicted otherwise); `None` when
/// their sum does not fit in a `usize`.
pub fn false_negatives(matrix: &[Vec<usize>], class: usize) -> (fn_: Option<usize>)
    requires
        class < matrix@.len(),
        matrix@.len() <= matrix@[class as int]@.len(),
    ensures
        match fn_ {
            Some(v) => v == row_sum_except(matrix@, class as int, class as int, matrix@.len()),
            None => row_sum_except(matrix@, class as int, class as int, matrix@.len()) > usize::MAX,
        },
{
    let mut sum: usize = 0;
    let mut j: usize = 0;
    while j < matrix.len()
        invariant
            j <= matrix@.len(),
            class < matrix@.len(),
            matrix@.len() <= matrix@[class as int]@.len(),
            sum == row_sum_except(matrix@, class as int, class as int, j as nat),
        decreases matrix@.len() - j,
    {
        if j != class {
            match sum.checked_add(matrix[class][j]) {
                Some(v) => {
                    sum = v;
                },
                None => {
                    proof {
                        lemma_row_sum_monotone(
                            matrix@,
                            class as int,
                            class as int,
                            (j + 1) as nat,
                            matrix@.len(),
                        );
                    }
                    return None;
                },
            }
        }
        j = j + 1;
    }
    Some(sum)
}

proof fn lemma_column_sum_monotone(m: Seq<Vec<usize>>, col: int, skip: int, a: nat, b: nat)
    requires
        a <= b,
    ensures
        column_sum_except(m, col, skip, a) <= column_sum_except(m, col, skip, b),
    decreases b,
{
    if a < b {
        lemma_column_sum_monotone(m, col, skip, a, (b - 1) as nat);
    }
}

proof fn lemma_row_sum_monotone(m: Seq<Vec<usize>>, row: int, skip: int, a: nat, b: nat)
    requires
        a <= b,
    ensures
        row_sum_except(m, row, skip, a) <= row_sum_except(m, row, skip, b),
    decreases b,
{
    if a < b {
        lemma_row_sum_monotone(m, row, skip, a, (b - 1) as nat);
    }
}

proof fn lemma_fold_bounds(n_samples: nat, k: nat, i: nat)
    requires
        k > 0,
        i < k,
    ensures
        (i + 1) * (n_samples / k) <= n_samples,
        i * (n_samples / k) + n_samples / k == (i + 1) * (n_samples / k),
{
    let size = n_samples / k;
    assert(k * size <= n_samples) by (nonlinear_arith)
        requires
            k > 0,
            size == n_samples / k,
    ;
    assert((i + 1) * size <= k * size) by (nonlinear_arith)
        requires
            i + 1 <= k,
    ;
    assert(i * size + size == (i + 1) * size) by (nonlinear_arith);
}

/// Cuts `0..n_samples` into `k` folds for cross-validation. Fold `i` tests on
/// the `n_samples / k` consecutive indices from `i * (n_samples / k)` and
/// trains on every other index below `n_samples`, in increasing order.
pub fn kfold_indices(n_samples: usize, k: usize) -> (folds: Vec<(Vec<usize>, Vec<usize>)>)
    requires
        k > 0,
    ensures
        folds@.len() == k,
        forall|i: int|
            0 <= i < k ==> (#[trigger] folds@[i]).0@ == fold_train(n_samples as nat, k as nat, i as nat)
                && folds@[i].1@ == fold_test(n_samples as nat, k as nat, i as nat),
{
    let fold_size = n_samples / k;
    let mut folds: Vec<(Vec<usize>, Vec<usize>)> = Vec::new();
    let mut i: usize = 0;
    while i < k
        invariant
            i <= k,
            k > 0,
            fold_size == n_samples / k,
            folds@.len() == i,
            forall|f: int|
                0 <= f < i ==> (#[trigger] folds@[f]).0@ == fold_train(
                    n_samples as nat,
                    k as nat,
                    f as nat,
                ) && folds@[f].1@ == fold_test(n_samples as nat, k as nat, f as nat),
        decreases k - i,
    {
        proof {
            lemma_fold_bounds(n_samples as nat, k as nat, i as nat);
        }
        let start = i * fold_size;
        let end = start + fold_size;
        let mut test: Vec<usize> = Vec::new();
        let mut x: usize = start;
        while x < end
            invariant
                start <= x <= end,
                end == start + fold_size,
                start == i * fold_size,
                fold_size == n_samples / k,
                test@.len() == x - start,
                forall|j: int| 0 <= j < test@.len() ==> test@[j] == start + j,
            decreases end - x,
        {
            test.push(x);
            x = x + 1;
        }
        let mut train: Vec<usize> = Vec::new();
        let mut y: usize = 0;
        while y < n_samples
            invariant
                y <= n_samples,
                start <= end <= n_samples,
                end == start + fold_size,
                train@.len() == if y <= start {
                    y as int
                } else if y <= end {
                    start as int
                } else {
                    y - fold_size
                },
                forall|j: int|
                    0 <= j < train@.len() ==> train@[j] == if j < start {
                        j
                    } else {
                        j + fold_size
                    },
            decreases n_samples - y,
        {
            if y < start || y >= end {
                train.push(y);
            }
            y = y + 1;
        }
        assert(test@ =~= fold_test(n_samples as nat, k as nat, i as nat));
        assert(train@ =~= fold_train(n_samples as nat, k as nat, i as nat));
        folds.push((train, test));
        i = i + 1;
    }
    folds
}

/// Sum of the diagonal entries `m[c][c]` for `c < upto`.
pub open spec fn diagonal_sum(m: Seq<Vec<usize>>, upto: nat) -> int
    decreases upto,
{
    if upto == 0 {
        0
    } else {
        diagonal_sum(m, (upto - 1) as nat) + m[upto - 1]@[upto - 1] as int
    }
}

spec fn pairs_row_sum(predictions: Seq<usize>, targets: Seq<usize>, n: nat, t: int, upto: nat) -> int
    decreases upto,
{
    if upto == 0 {
        0
    } else {
        pairs_row_sum(predictions, targets, n, t, (upto - 1) as nat) + pair_count(
            predictions,
            targets,
            n,
            t,
            upto - 1,
        )
    }
}

spec fn pairs_col_sum(predictions: Seq<usize>, targets: Seq<usize>, n: nat, p: int, upto: nat) -> int
    decreases upto,
{
    if upto == 0 {
        0
    } else {
        pairs_col_sum(predictions, targets, n, p, (upto - 1) as nat) + pair_count(
            predictions,
            targets,
            n,
            upto - 1,
            p,
        )
    }
}

spec fn pairs_diag_sum(predictions: Seq<usize>, targets: Seq<usize>, n: nat, upto: nat) -> int
    decreases upto,
{
    if upto == 0 {
        0
    } else {
        pairs_diag_sum(predictions, targets, n, (upto - 1) as nat) + pair_count(
            predictions,
            targets,
            n,
            upto - 1,
            upto - 1,
        )
    }
}

proof fn lemma_pairs_row_step(predictions: Seq<usize>, targets: Seq<usize>, n: nat, t: int, upto: nat)
    requires
        n > 0,
    ensures
        pairs_row_sum(predictions, targets, n, t, upto) == pairs_row_sum(
            predictions,
            targets,
            (n - 1) as nat,
            t,
            upto,
        ) + if targets[n - 1] == t && predictions[n - 1] < upto {
            1int
        } else {
            0int
        },
    decreases upto,
{
    if upto > 0 {
        lemma_pairs_row_step(predictions, targets, n, t, (upto - 1) as nat);
    }
}

proof fn lemma_pairs_col_step(predictions: Seq<usize>, targets: Seq<usize>, n: nat, p: int, upto: nat)
    requires
        n > 0,
    ensures
        pairs_col_sum(predictions, targets, n, p, upto) == pairs_col_sum(
            predictions,
            targets,
            (n - 1) as nat,
            p,
            upto,
        ) + if predictions[n - 1] == p && targets[n - 1] < upto {
            1int
        } else {
            0int
        },
    decreases upto,
{
    if upto > 0 {
        lemma_pairs_col_step(predictions, targets, n, p, (upto - 1) as nat);
    }
}

proof fn lemma_pairs_diag_step(predictions: Seq<usize>, targets: Seq<usize>, n: nat, upto: nat)
    requires
        n > 0,
    ensures
        pairs_diag_sum(predictions, targets, n, upto) == pairs_diag_sum(
            predictions,
            targets,
            (n - 1) as nat,
            upto,
        ) + if predictions[n - 1] == targets[n - 1] && targets[n - 1] < upto {
            1int
        } else {
            0int
        },
    decreases upto,
{
    if upto > 0 {
        lemma_pairs_diag_step(predictions, targets, n, (upto - 1) as nat);
    }
}

proof fn lemma_pairs_sums_empty(predictions: Seq<usize>, targets: Seq<usize>, x: int, upto: nat)
    ensures
        pairs_row_sum(predictions, targets, 0, x, upto) == 0,
        pairs_col_sum(predictions, targets, 0, x, upto) == 0,
        pairs_diag_sum(predictions, targets, 0, upto) == 0,
    decreases upto,
{
    if upto > 0 {
        lemma_pairs_sums_empty(predictions, targets, x, (upto - 1) as nat);
    }
}

proof fn lemma_pairs_row_total(
    predictions: Seq<usize>,
    targets: Seq<usize>,
    n: nat,
    t: int,
    num_classes: nat,
)
    requires
        n <= predictions.len(),
        n <= targets.len(),
        forall|j: int| 0 <= j < n ==> #[trigger] predictions[j] < num_classes,
    ensures
        pairs_row_sum(predictions, targets, n, t, num_classes) == target_count(targets, n, t),
    decreases n,
{
    lemma_pairs_sums_empty(predictions, targets, t, num_classes);
    if n > 0 {
        lemma_pairs_row_step(predictions, targets, n, t, num_classes);
        assert(predictions[n - 1] < num_classes);
        lemma_pairs_row_total(predictions, targets, (n - 1) as nat, t, num_classes);
    }
}

proof fn lemma_pairs_col_total(
    predictions: Seq<usize>,
    targets: Seq<usize>,
    n: nat,
    p: int,
    num_classes: nat,
)
    requires
        n <= predictions.len(),
        n <= targets.len(),
        forall|j: int| 0 <= j < n ==> #[trigger] targets[j] < num_classes,
    ensures
        pairs_col_sum(predictions, targets, n, p, num_classes) == prediction_count(
            predictions,
            n,
            p,
        ),
    decreases n,
{
    lemma_pairs_sums_empty(predictions, targets, p, num_classes);
    if n > 0 {
        lemma_pairs_col_step(predictions, targets, n, p, num_classes);
        assert(targets[n - 1] < num_classes);
        lemma_pairs_col_total(predictions, targets, (n - 1) as nat, p, num_classes);
    }
}

proof fn lemma_pairs_diag_total(
    predictions: Seq<usize>,
    targets: Seq<usize>,
    n: nat,
    num_classes: nat,
)
    requires
        n <= predictions.len(),
        n <= targets.len(),
        forall|j: int| 0 <= j < n ==> #[trigger] targets[j] < num_classes,
    ensures
        pairs_diag_sum(predictions, targets, n, num_classes) == match_count(
            predictions,
            targets,
            n,
        ),
    decreases n,
{
    lemma_pairs_sums_empty(predictions, targets, 0, num_classes);
    if n > 0 {
        lemma_pairs_diag_step(predictions, targets, n, num_classes);
        assert(targets[n - 1] < num_classes);
        lemma_pairs_diag_total(predictions, targets, (n - 1) as nat, num_classes);
    }
}

proof fn lemma_row_matches_pairs(
    m: Seq<Vec<usize>>,
    predictions: Seq<usize>,
    targets: Seq<usize>,
    num_classes: nat,
    c: int,
    upto: nat,
)
    requires
        is_confusion_matrix(m, predictions, targets, num_classes),
        0 <= c < num_classes,
        upto <= num_classes,
    ensures
        row_sum_except(m, c, c, upto) + (if c < upto {
            m[c]@[c] as int
        } else {
            0int
        }) == pairs_row_sum(predictions, targets, paired_len(predictions, targets), c, upto),
    decreases upto,
{
    if upto > 0 {
        lemma_row_matches_pairs(m, predictions, targets, num_classes, c, (upto - 1) as nat);
        assert(m[c]@[upto - 1] == pair_count(
            predictions,
            targets,
            paired_len(predictions, targets),
            c,
            upto - 1,
        ));
    }
}

proof fn lemma_col_matches_pairs(
    m: Seq<Vec<usize>>,
    predictions: Seq<usize>,
    targets: Seq<usize>,
    num_classes: nat,
    c: int,
    upto: nat,
)
    requires
        is_confusion_matrix(m, predictions, targets, num_classes),
        0 <= c < num_classes,
        upto <= num_classes,
    ensures
        column_sum_except(m, c, c, upto) + (if c < upto {
            m[c]@[c] as int
        } else {
            0int
        }) == pairs_col_sum(predictions, targets, paired_len(predictions, targets), c, upto),
    decreases upto,
{
    if upto > 0 {
        lemma_col_matches_pairs(m, predictions, targets, num_classes, c, (upto - 1) as nat);
        assert(m[upto - 1]@[c] == pair_count(
            predictions,
            targets,
            paired_len(predictions, targets),
            upto - 1,
            c,
        ));
    }
}

proof fn lemma_diag_matches_pairs(
    m: Seq<Vec<usize>>,
    predictions: Seq<usize>,
    targets: Seq<usize>,
    num_classes: nat,
    upto: nat,
)
    requires
        is_confusion_matrix(m, predictions, targets, num_classes),
        upto <= num_classes,
    ensures
        diagonal_sum(m, upto) == pairs_diag_sum(
            predictions,
            targets,
            paired_len(predictions, targets),
            upto,
        ),
    decreases upto,
{
    if upto > 0 {
        lemma_diag_matches_pairs(m, predictions, targets, num_classes, (upto - 1) as nat);
        assert(m[upto - 1]@[upto - 1] == pair_count(
            predictions,
            targets,
            paired_len(predictions, targets),
            upto - 1,
            upto - 1,
        ));
    }
}

/// In a confusion matrix, the true positives of a class plus its false
/// negatives are all the pairs whose true label is that class.
pub proof fn lemma_confusion_row_is_support(
    m: Seq<Vec<usize>>,
    predictions: Seq<usize>,
    targets: Seq<usize>,
    num_classes: nat,
    class: int,
)
    requires
        labels_below(predictions, targets, num_classes),
        is_confusion_matrix(m, predictions, targets, num_classes),
        0 <= class < num_classes,
    ensures
        m[class]@[class] + row_sum_except(m, class, class, num_classes) == target_count(
            targets,
            paired_len(predictions, targets),
            class,
        ),
{
    lemma_row_matches_pairs(m, predictions, targets, num_classes, class, num_classes);
    assert forall|j: int| 0 <= j < paired_len(predictions, targets) implies #[trigger] predictions[j]
        < num_classes by {
        assert(targets[j] < num_classes);
    }
    lemma_pairs_row_total(predictions, targets, paired_len(predictions, targets), class, num_classes);
}

/// In a confusion matrix, the true positives of a class plus its false
/// positives are all the pairs predicted as that class.
pub proof fn lemma_confusion_column_is_predicted(
    m: Seq<Vec<usize>>,
    predictions: Seq<usize>,
    targets: Seq<usize>,
    num_classes: nat,
    class: int,
)
    requires
        labels_below(predictions, targets, num_classes),
        is_confusion_matrix(m, predictions, targets, num_classes),
        0 <= class < num_classes,
    ensures
        m[class]@[class] + column_sum_except(m, class, class, num_classes) == prediction_count(
            predictions,
            paired_len(predictions, targets),
            class,
        ),
{
    lemma_col_matches_pairs(m, predictions, targets, num_classes, class, num_classes);
    lemma_pairs_col_total(predictions, targets, paired_len(predictions, targets), class, num_classes);
}

/// The diagonal of the confusion matrix of two equally long label sequences
/// sums to the number of correct predictions.
pub proof fn lemma_confusion_trace_is_correct_count(
    m: Seq<Vec<usize>>,
    predictions: Seq<usize>,
    targets: Seq<usize>,
    num_classes: nat,
)
    requires
        predictions.len() == targets.len(),
        labels_below(predictions, targets, num_classes),
        is_confusion_matrix(m, predictions, targets, num_classes),
    ensures
        diagonal_sum(m, num_classes) == match_count(predictions, targets, predictions.len()),
{
    lemma_diag_matches_pairs(m, predictions, targets, num_classes, num_classes);
    lemma_pairs_diag_total(predictions, targets, predictions.len(), num_classes);
}

/// Every fold of `kfold_indices` partitions `0..n_samples`: its test indices
/// are below `n_samples`, and an index below `n_samples` is a training index
/// exactly when it is not a test index. Training indices are strictly
/// increasing; a fold tests on `n_samples / k` indices and trains on the rest.
pub proof fn lemma_kfold_fold_partitions(n_samples: nat, k: nat, i: nat)
    requires
        k > 0,
        i < k,
        n_samples <= usize::MAX,
    ensures
        fold_test(n_samples, k, i).len() == n_samples / k,
        fold_train(n_samples, k, i).len() == n_samples - n_samples / k,
        forall|x: usize| #[trigger] fold_test(n_samples, k, i).contains(x) ==> x < n_samples,
        forall|x: usize| #[trigger] fold_train(n_samples, k, i).contains(x) ==> x < n_samples,
        forall|x: usize|
            x < n_samples ==> (#[trigger] fold_train(n_samples, k, i).contains(x) <==> !fold_test(
                n_samples,
                k,
                i,
            ).contains(x)),
        forall|a: int, b: int|
            0 <= a < b < fold_train(n_samples, k, i).len() ==> fold_train(n_samples, k, i)[a]
                < fold_train(n_samples, k, i)[b],
{
    lemma_fold_bounds(n_samples, k, i);
    let size = n_samples / k;
    let test = fold_test(n_samples, k, i);
    let train = fold_train(n_samples, k, i);
    assert forall|x: usize| #[trigger] test.contains(x) implies x < n_samples by {
        let j = choose|j: int| 0 <= j < test.len() && test[j] == x;
    }
    assert forall|x: usize| #[trigger] train.contains(x) implies x < n_samples by {
        let j = choose|j: int| 0 <= j < train.len() && train[j] == x;
    }
    assert forall|x: usize| x < n_samples implies (#[trigger] train.contains(x) <==> !test.contains(
        x,
    )) by {
        if test.contains(x) {
            let j = choose|j: int| 0 <= j < test.len() && test[j] == x;
            if train.contains(x) {
                let a = choose|a: int| 0 <= a < train.len() && train[a] == x;
            }
        } else {
            if x < i * size {
                assert(train[x as int] == x);
            } else if x >= i * size + size {
                assert(train[x - size] == x);
            } else {
                assert(test[x - i * size] == x);
            }
        }
    }
}

/// The test folds of `kfold_indices` are pairwise disjoint.
pub proof fn lemma_kfold_tests_disjoint(n_samples: nat, k: nat, i: nat, j: nat)
    requires
        k > 0,
        i < k,
        j < k,
        i != j,
        n_samples <= usize::MAX,
    ensures
        forall|x: usize|
            #[trigger] fold_test(n_samples, k, i).contains(x) ==> !fold_test(
                n_samples,
                k,
                j,
            ).contains(x),
{
    lemma_fold_bounds(n_samples, k, i);
    lemma_fold_bounds(n_samples, k, j);
    let size = n_samples / k;
    if i < j {
        assert((i + 1) * size <= j * size) by (nonlinear_arith)
            requires
                i + 1 <= j,
        ;
    } else {
        assert((j + 1) * size <= i * size) by (nonlinear_arith)
            requires
                j + 1 <= i,
        ;
    }
    assert forall|x: usize| #[trigger] fold_test(n_samples, k, i).contains(x) implies !fold_test(
        n_samples,
        k,
        j,
    ).contains(x) by {
        let a = choose|a: int| 0 <= a < size && fold_test(n_samples, k, i)[a] == x;
        if fold_test(n_samples, k, j).contains(x) {
            let b = choose|b: int| 0 <= b < size && fold_test(n_samples, k, j)[b] == x;
        }
    }
}

} // verus!
