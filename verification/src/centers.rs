use vstd::prelude::*;
use rand::Rng;

verus! {

/// `s` lists distinct indices below `n`.
pub open spec fn distinct_below(s: Seq<usize>, n: nat) -> bool {
    &&& forall|i: int| 0 <= i < s.len() ==> #[trigger] s[i] < n
    &&& forall|i: int, j: int| 0 <= i < j < s.len() ==> #[trigger] s[i] != #[trigger] s[j]
}

/// A uniformly drawn index in `0..=upper`, from the thread-local generator of
/// `rand` (`rand::thread_rng().gen_range(0..=upper)`). Its documentation and
/// source promise a value inside the range; which value comes out is chance,
/// so nothing more is stated.
#[verifier::external_body]
fn random_index_up_to(upper: usize) -> (r: usize)
    ensures
        r <= upper,
{
    rand::thread_rng().gen_range(0..=upper)
}

/// Starting centres of the k-means of a radial-basis network over `n`
/// samples: the samples taken at regular intervals, `i * n / k` for `i < k`.
pub fn initial_center_indices(n: usize, k: usize) -> (idx: Vec<usize>)
    requires
        k == 0 || (k - 1) * n <= usize::MAX,
    ensures
        idx@.len() == k,
        forall|i: int| 0 <= i < k ==> #[trigger] idx@[i] == i * n / (k as int),
        n > 0 ==> forall|i: int| 0 <= i < k ==> #[trigger] idx@[i] < n,
{
    let mut idx: Vec<usize> = Vec::new();
    let mut i: usize = 0;
    while i < k
        invariant
            i <= k,
            k == 0 || (k - 1) * n <= usize::MAX,
            idx@.len() == i,
            forall|j: int| 0 <= j < i ==> #[trigger] idx@[j] == j * n / (k as int),
            n > 0 ==> forall|j: int| 0 <= j < i ==> #[trigger] idx@[j] < n,
        decreases k - i,
    {
        proof {
            assert(i * n <= (k - 1) * n) by (nonlinear_arith)
                requires
                    i <= k - 1,
            ;
            assert(i * n / (k as int) < n || n == 0) by (nonlinear_arith)
                requires
                    i < k,
            ;
        }
        idx.push(i * n / k);
        i = i + 1;
    }
    idx
}

/// `draws` can drive a Fisher-Yates shuffle of `0..n`: one draw for each
/// position `i` from `n - 1` down to 1, the draw of position `i` at most `i`.
pub open spec fn valid_draws(n: nat, draws: Seq<usize>) -> bool {
    &&& draws.len() == (if n > 0 {
        n - 1
    } else {
        0
    })
    &&& forall|t: int| 0 <= t < draws.len() ==> #[trigger] draws[t] <= n - 1 - t
}

/// `p` with the entries at `i` and `j` exchanged.
pub open spec fn swapped(p: Seq<usize>, i: int, j: int) -> Seq<usize> {
    p.update(i, p[j]).update(j, p[i])
}

/// The indices `0..n` after the Fisher-Yates steps that `draws` give: step
/// `t` exchanges position `n - 1 - t` with position `draws[t]`.
pub open spec fn fisher_yates(n: nat, draws: Seq<usize>) -> Seq<usize>
    decreases draws.len(),
{
    if draws.len() == 0 {
        Seq::new(n, |i: int| i as usize)
    } else {
        swapped(
            fisher_yates(n, draws.drop_last()),
            n - draws.len(),
            draws.last() as int,
        )
    }
}

/// The indices `0..n` shuffled by Fisher-Yates with the given draws: for
/// `i` from `n - 1` down to 1, position `i` is exchanged with position
/// `draws[n - 1 - i]`. The result lists each index below `n` once.
pub fn shuffle_with(n: usize, draws: &[usize]) -> (perm: Vec<usize>)
    requires
        valid_draws(n as nat, draws@),
    ensures
        perm@ == fisher_yates(n as nat, draws@),
        perm@.len() == n,
        distinct_below(perm@, n as nat),
{
    let mut perm: Vec<usize> = Vec::new();
    let mut x: usize = 0;
    while x < n
        invariant
            x <= n,
            perm@.len() == x,
            forall|i: int| 0 <= i < x ==> #[trigger] perm@[i] == i,
        decreases n - x,
    {
        perm.push(x);
        x = x + 1;
    }
    assert(perm@ =~= fisher_yates(n as nat, draws@.take(0)));
    let mut t: usize = 0;
    while t < draws.len()
        invariant
            t <= draws@.len(),
            valid_draws(n as nat, draws@),
            perm@.len() == n,
            perm@ == fisher_yates(n as nat, draws@.take(t as int)),
            distinct_below(perm@, n as nat),
        decreases draws@.len() - t,
    {
        let i = n - 1 - t;
        let j = draws[t];
        let a = perm[i];
        let b = perm[j];
        let ghost before = perm@;
        perm.set(i, b);
        perm.set(j, a);
        proof {
            assert(draws@.take(t + 1).drop_last() =~= draws@.take(t as int));
            assert(draws@.take(t + 1).last() == j);
            assert(perm@ =~= swapped(before, i as int, j as int));
            assert forall|p: int, q: int| 0 <= p < q < perm@.len() implies #[trigger] perm@[p]
                != #[trigger] perm@[q] by {
                let sp = if p == j {
                    i as int
                } else if p == i {
                    j as int
                } else {
                    p
                };
                let sq = if q == j {
                    i as int
                } else if q == i {
                    j as int
                } else {
                    q
                };
                assert(perm@[p] == before[sp]);
                assert(perm@[q] == before[sq]);
                assert(sp != sq);
            }
            assert forall|p: int| 0 <= p < perm@.len() implies #[trigger] perm@[p] < n by {
                let sp = if p == j {
                    i as int
                } else if p == i {
                    j as int
                } else {
                    p
                };
                assert(perm@[p] == before[sp]);
            }
        }
        t = t + 1;
    }
    assert(draws@.take(draws@.len() as int) =~= draws@);
    perm
}

/// Starting centres of a radial-basis network over `n` samples, given the
/// draws of a shuffle: the first `min(n_centers, n)` indices of the shuffle.
pub fn center_indices_with(n: usize, n_centers: usize, draws: &[usize]) -> (idx: Vec<usize>)
    requires
        valid_draws(n as nat, draws@),
    ensures
        idx@ == fisher_yates(n as nat, draws@).take(
            if n_centers <= n {
                n_centers as int
            } else {
                n as int
            },
        ),
        idx@.len() == if n_centers <= n {
            n_centers
        } else {
            n
        },
        distinct_below(idx@, n as nat),
{
    let k = if n_centers <= n {
        n_centers
    } else {
        n
    };
    let perm = shuffle_with(n, draws);
    let mut idx: Vec<usize> = Vec::new();
    let mut c: usize = 0;
    while c < k
        invariant
            c <= k,
            k <= n,
            perm@.len() == n,
            idx@ == perm@.take(c as int),
        decreases k - c,
    {
        idx.push(perm[c]);
        c = c + 1;
        assert(idx@ =~= perm@.take(c as int));
    }
    idx
}

/// The random draws of a Fisher-Yates shuffle of `0..n`.
fn fisher_yates_draws(n: usize) -> (draws: Vec<usize>)
    ensures
        valid_draws(n as nat, draws@),
{
    let mut draws: Vec<usize> = Vec::new();
    if n == 0 {
        return draws;
    }
    let mut i: usize = n - 1;
    while i >= 1
        invariant
            i < n,
            draws@.len() == n - 1 - i,
            forall|t: int| 0 <= t < draws@.len() ==> #[trigger] draws@[t] <= n - 1 - t,
        decreases i,
    {
        let j = random_index_up_to(i);
        draws.push(j);
        i = i - 1;
    }
    draws
}

/// Random starting centres of a radial-basis network over `n` samples: the
/// first `min(n_centers, n)` indices of a random Fisher-Yates shuffle of
/// `0..n`, so distinct samples.
pub fn random_center_indices(n: usize, n_centers: usize) -> (idx: Vec<usize>)
    ensures
        idx@.len() == if n_centers <= n {
            n_centers
        } else {
            n
        },
        distinct_below(idx@, n as nat),
        exists|draws: Seq<usize>|
            valid_draws(n as nat, draws) && idx@ == fisher_yates(n as nat, draws).take(
                if n_centers <= n {
                    n_centers as int
                } else {
                    n as int
                },
            ),
{
    let draws = fisher_yates_draws(n);
    center_indices_with(n, n_centers, draws.as_slice())
}

/// The samples below `upto` whose nearest centre is `j`, in increasing
/// order.
pub open spec fn members(assign: Seq<usize>, j: int, upto: nat) -> Seq<usize>
    decreases upto,
{
    if upto == 0 {
        seq![]
    } else {
        let m = members(assign, j, (upto - 1) as nat);
        if assign[upto - 1] == j {
            m.push((upto - 1) as usize)
        } else {
            m
        }
    }
}

/// The clusters of a k-means step, given for each sample the index of its
/// nearest centre: cluster `j` lists the samples assigned to centre `j`, in
/// increasing order.
pub fn clusters_of(assign: &[usize], k: usize) -> (clusters: Vec<Vec<usize>>)
    requires
        forall|i: int| 0 <= i < assign@.len() ==> #[trigger] assign@[i] < k,
    ensures
        clusters@.len() == k,
        forall|j: int| 0 <= j < k ==> (#[trigger] clusters@[j])@ == members(assign@, j, assign@.len()),
{
    let mut clusters: Vec<Vec<usize>> = Vec::new();
    let mut j: usize = 0;
    while j < k
        invariant
            j <= k,
            clusters@.len() == j,
            forall|c: int| 0 <= c < j ==> (#[trigger] clusters@[c])@ == members(assign@, c, 0),
        decreases k - j,
    {
        clusters.push(Vec::new());
        j = j + 1;
    }
    let mut i: usize = 0;
    while i < assign.len()
        invariant
            i <= assign@.len(),
            clusters@.len() == k,
            forall|t: int| 0 <= t < assign@.len() ==> #[trigger] assign@[t] < k,
            forall|c: int| 0 <= c < k ==> (#[trigger] clusters@[c])@ == members(assign@, c, i as nat),
        decreases assign@.len() - i,
    {
        let a = assign[i];
        let ghost before = clusters@;
        clusters[a].push(i);
        proof {
            assert forall|c: int| 0 <= c < k implies (#[trigger] clusters@[c])@ == members(
                assign@,
                c,
                (i + 1) as nat,
            ) by {
                if c != a {
                    assert(clusters@[c] == before[c]);
                }
            }
        }
        i = i + 1;
    }
    clusters
}

/// Each sample lies in the cluster of its nearest centre and in no other:
/// the clusters of a k-means step partition the samples.
pub proof fn lemma_clusters_partition(assign: Seq<usize>, j: int, s: usize)
    requires
        assign.len() <= usize::MAX,
    ensures
        members(assign, j, assign.len()).contains(s) <==> (s < assign.len() && assign[s as int] == j),
{
    lemma_members(assign, j, assign.len(), s);
}

proof fn lemma_members(assign: Seq<usize>, j: int, upto: nat, s: usize)
    requires
        upto <= assign.len() <= usize::MAX,
    ensures
        forall|q: int| 0 <= q < members(assign, j, upto).len() ==> #[trigger] members(assign, j, upto)[q]
            < upto,
        members(assign, j, upto).contains(s) <==> (s < upto && assign[s as int] == j),
    decreases upto,
{
    if upto > 0 {
        lemma_members(assign, j, (upto - 1) as nat, s);
        let m = members(assign, j, (upto - 1) as nat);
        let last = (upto - 1) as usize;
        assert(last == upto - 1);
        if assign[upto - 1] == j {
            let mm = m.push(last);
            assert forall|q: int| 0 <= q < mm.len() implies #[trigger] mm[q] < upto by {
                if q < m.len() {
                    assert(mm[q] == m[q]);
                }
            }
            if mm.contains(s) {
                let q = choose|q: int| 0 <= q < mm.len() && mm[q] == s;
                if q < m.len() {
                    assert(m[q] == mm[q]);
                    assert(m.contains(s));
                }
            }
            if s < upto && assign[s as int] == j {
                if s == last {
                    assert(mm[m.len() as int] == s);
                } else {
                    let q = choose|q: int| 0 <= q < m.len() && m[q] == s;
                    assert(mm[q] == m[q]);
                }
            }
        } else if s == last && m.contains(s) {
            let q = choose|q: int| 0 <= q < m.len() && m[q] == s;
            assert(m[q] < upto - 1);
        }
    }
}

/// Each draw is at most its position: draw `t` at most `n - 1 - t`.
pub open spec fn draws_in_range(n: nat, draws: Seq<usize>) -> bool {
    forall|t: int| 0 <= t < draws.len() ==> #[trigger] draws[t] <= n - 1 - t
}

proof fn lemma_fisher_yates_perm(n: nat, d: Seq<usize>)
    requires
        n <= usize::MAX,
        d.len() < n || d.len() == 0,
        draws_in_range(n, d),
    ensures
        fisher_yates(n, d).len() == n,
        distinct_below(fisher_yates(n, d), n),
    decreases d.len(),
{
    if d.len() == 0 {
        let p = fisher_yates(n, d);
        assert forall|i: int| 0 <= i < p.len() implies #[trigger] p[i] < n && p[i] == i by {
            assert(p[i] == i as usize);
        }
    } else {
        let e = d.drop_last();
        assert forall|t: int| 0 <= t < e.len() implies #[trigger] e[t] <= n - 1 - t by {
            assert(e[t] == d[t]);
        }
        lemma_fisher_yates_perm(n, e);
        let before = fisher_yates(n, e);
        let i = n - d.len();
        let j = d.last() as int;
        assert(d[d.len() - 1] <= n - 1 - (d.len() - 1));
        let perm = fisher_yates(n, d);
        assert(perm == swapped(before, i, j));
        assert forall|p: int, q: int| 0 <= p < q < perm.len() implies #[trigger] perm[p]
            != #[trigger] perm[q] by {
            let sp = if p == j {
                i
            } else if p == i {
                j
            } else {
                p
            };
            let sq = if q == j {
                i
            } else if q == i {
                j
            } else {
                q
            };
            assert(perm[p] == before[sp]);
            assert(perm[q] == before[sq]);
            assert(sp != sq);
        }
        assert forall|p: int| 0 <= p < perm.len() implies #[trigger] perm[p] < n by {
            let sp = if p == j {
                i
            } else if p == i {
                j
            } else {
                p
            };
            assert(perm[p] == before[sp]);
        }
    }
}

proof fn lemma_fisher_yates_len(n: nat, d: Seq<usize>)
    requires
        draws_in_range(n, d),
    ensures
        fisher_yates(n, d).len() == n,
        d.len() <= n,
    decreases d.len(),
{
    if d.len() > 0 {
        let e = d.drop_last();
        assert forall|s: int| 0 <= s < e.len() implies #[trigger] e[s] <= n - 1 - s by {
            assert(e[s] == d[s]);
        }
        assert(d[d.len() - 1] <= n - 1 - (d.len() - 1));
        lemma_fisher_yates_len(n, e);
    }
}

/// After step `t`, positions from `n - t` on are never touched again.
proof fn lemma_fisher_yates_settled(n: nat, d: Seq<usize>, t: int, q: int)
    requires
        draws_in_range(n, d),
        0 <= t <= d.len(),
        n - t <= q < n,
    ensures
        fisher_yates(n, d)[q] == fisher_yates(n, d.take(t))[q],
    decreases d.len(),
{
    if d.len() == t {
        assert(d.take(t) =~= d);
    } else {
        let e = d.drop_last();
        assert forall|s: int| 0 <= s < e.len() implies #[trigger] e[s] <= n - 1 - s by {
            assert(e[s] == d[s]);
        }
        assert(d[d.len() - 1] <= n - 1 - (d.len() - 1));
        lemma_fisher_yates_settled(n, e, t, q);
        assert(e.take(t) =~= d.take(t));
        let before = fisher_yates(n, e);
        lemma_fisher_yates_len(n, e);
        lemma_fisher_yates_len(n, d);
        assert(fisher_yates(n, d) == swapped(before, n - d.len(), d.last() as int));
        assert(q != n - d.len());
        assert(q != d.last() as int);
    }
}

/// Different draws give different shuffles: a Fisher-Yates shuffle of
/// `0..n` comes from exactly one sequence of valid draws, so no ordering is
/// reached twice and, with each draw uniform in its range, each reachable
/// ordering is equally likely.
pub proof fn lemma_fisher_yates_injective(n: nat, d1: Seq<usize>, d2: Seq<usize>)
    requires
        n <= usize::MAX,
        valid_draws(n, d1),
        valid_draws(n, d2),
        fisher_yates(n, d1) == fisher_yates(n, d2),
    ensures
        d1 == d2,
{
    let len = d1.len() as int;
    assert forall|t: int| 0 <= t <= len implies #[trigger] d1.take(t) == d2.take(t) by {
        lemma_draws_prefix_agree(n, d1, d2, t);
    }
    assert(d1.take(len) =~= d1);
    assert(d2.take(len) =~= d2);
}

proof fn lemma_draws_prefix_agree(n: nat, d1: Seq<usize>, d2: Seq<usize>, t: int)
    requires
        n <= usize::MAX,
        valid_draws(n, d1),
        valid_draws(n, d2),
        fisher_yates(n, d1) == fisher_yates(n, d2),
        0 <= t <= d1.len(),
    ensures
        d1.take(t) == d2.take(t),
    decreases t,
{
    if t > 0 {
        lemma_draws_prefix_agree(n, d1, d2, t - 1);
        let s = t - 1;
        let a = d1.take(s);
        assert(d2.take(s) == a);
        let i = n - 1 - s;
        assert(d1[s] <= n - 1 - s);
        assert(d2[s] <= n - 1 - s);
        assert(draws_in_range(n, d1));
        assert(draws_in_range(n, d2));
        assert(draws_in_range(n, a)) by {
            assert forall|u: int| 0 <= u < a.len() implies #[trigger] a[u] <= n - 1 - u by {
                assert(a[u] == d1[u]);
            }
        }
        lemma_fisher_yates_perm(n, a);
        let p = fisher_yates(n, a);
        let t1 = d1.take(t);
        let t2 = d2.take(t);
        assert(t1.drop_last() =~= a);
        assert(t2.drop_last() =~= a);
        assert(t1.last() == d1[s]);
        assert(t2.last() == d2[s]);
        assert(fisher_yates(n, t1) == swapped(p, i, d1[s] as int));
        assert(fisher_yates(n, t2) == swapped(p, i, d2[s] as int));
        assert(fisher_yates(n, t1)[i] == p[d1[s] as int]);
        assert(fisher_yates(n, t2)[i] == p[d2[s] as int]);
        lemma_fisher_yates_settled(n, d1, t, i);
        lemma_fisher_yates_settled(n, d2, t, i);
        if d1[s] != d2[s] {
            if d1[s] < d2[s] {
                assert(p[d1[s] as int] != p[d2[s] as int]);
            } else {
                assert(p[d2[s] as int] != p[d1[s] as int]);
            }
        }
        assert(t1 =~= t2);
    }
}

} // verus!
