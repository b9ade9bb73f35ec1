//! Mathematical model of an edge list `(source, target, weight)` grouped by source,
//! the order in which a compressed sparse row (CSR) layout stores it.

use vstd::prelude::*;

verus! {

/// The edges of `edges` whose source is `s`, in their input order.
pub open spec fn bucket<S>(edges: Seq<(usize, usize, S)>, s: int) -> Seq<(usize, usize, S)>
    decreases edges.len(),
{
    if edges.len() == 0 {
        Seq::empty()
    } else {
        let rest = bucket(edges.drop_last(), s);
        if edges.last().0 == s {
            rest.push(edges.last())
        } else {
            rest
        }
    }
}

/// The number of edges of `edges` whose source is below `s`: where the run of
/// source `s` starts in the grouped order.
pub open spec fn count_below<S>(edges: Seq<(usize, usize, S)>, s: int) -> nat
    decreases edges.len(),
{
    if edges.len() == 0 {
        0
    } else {
        count_below(edges.drop_last(), s) + if edges.last().0 < s {
            1nat
        } else {
            0nat
        }
    }
}

/// Every source of `edges` is at most `n`.
pub open spec fn sources_at_most<S>(edges: Seq<(usize, usize, S)>, n: int) -> bool {
    forall|k: int| 0 <= k < edges.len() ==> #[trigger] edges[k].0 <= n
}

/// The targets of a run of edges.
pub open spec fn targets<S>(edges: Seq<(usize, usize, S)>) -> Seq<usize> {
    edges.map_values(|e: (usize, usize, S)| e.1)
}

/// The weights of a run of edges.
pub open spec fn weights_of<S>(edges: Seq<(usize, usize, S)>) -> Seq<S> {
    edges.map_values(|e: (usize, usize, S)| e.2)
}

/// Extending a prefix by one edge extends the bucket of that edge's source only.
pub proof fn lemma_bucket_take_step<S>(edges: Seq<(usize, usize, S)>, k: int, s: int)
    requires
        0 <= k < edges.len(),
    ensures
        bucket(edges.take(k + 1), s) == if edges[k].0 == s {
            bucket(edges.take(k), s).push(edges[k])
        } else {
            bucket(edges.take(k), s)
        },
{
    assert(edges.take(k + 1).drop_last() =~= edges.take(k));
    assert(edges.take(k + 1).last() == edges[k]);
}

/// Extending a prefix by one edge adds one to the count of that edge's source only.
pub proof fn lemma_count_below_take_step<S>(edges: Seq<(usize, usize, S)>, k: int, s: int)
    requires
        0 <= k < edges.len(),
    ensures
        count_below(edges.take(k + 1), s) == count_below(edges.take(k), s) + if edges[k].0 < s {
            1nat
        } else {
            0nat
        },
{
    assert(edges.take(k + 1).drop_last() =~= edges.take(k));
}

/// The run of source `s` ends where the run of `s + 1` starts.
pub proof fn lemma_count_below_succ<S>(edges: Seq<(usize, usize, S)>, s: int)
    requires
        s >= 0,
    ensures
        count_below(edges, s + 1) == count_below(edges, s) + bucket(edges, s).len(),
    decreases edges.len(),
{
    if edges.len() > 0 {
        lemma_count_below_succ(edges.drop_last(), s);
    }
}

/// Runs start in increasing order of source.
pub proof fn lemma_count_below_monotone<S>(edges: Seq<(usize, usize, S)>, s1: int, s2: int)
    requires
        s1 <= s2,
    ensures
        count_below(edges, s1) <= count_below(edges, s2),
    decreases edges.len(),
{
    if edges.len() > 0 {
        lemma_count_below_monotone(edges.drop_last(), s1, s2);
    }
}

/// When every source is at most `n`, the runs of sources `0..=n` cover the list.
pub proof fn lemma_count_below_all<S>(edges: Seq<(usize, usize, S)>, n: int)
    requires
        sources_at_most(edges, n),
    ensures
        count_below(edges, n + 1) == edges.len(),
    decreases edges.len(),
{
    if edges.len() > 0 {
        assert(edges.last().0 <= n) by {
            assert(edges[edges.len() - 1].0 <= n);
        }
        assert(sources_at_most(edges.drop_last(), n)) by {
            assert forall|k: int| 0 <= k < edges.drop_last().len() implies #[trigger] edges.drop_last()[k].0 <= n by {
                assert(edges.drop_last()[k] == edges[k]);
            }
        }
        lemma_count_below_all(edges.drop_last(), n);
    }
}

/// A bucket of a prefix never holds more edges than the bucket of a longer prefix.
pub proof fn lemma_bucket_take_len_monotone<S>(edges: Seq<(usize, usize, S)>, k1: int, k2: int, s: int)
    requires
        0 <= k1 <= k2 <= edges.len(),
    ensures
        bucket(edges.take(k1), s).len() <= bucket(edges.take(k2), s).len(),
    decreases k2 - k1,
{
    if k1 < k2 {
        lemma_bucket_take_len_monotone(edges, k1, k2 - 1, s);
        lemma_bucket_take_step(edges, k2 - 1, s);
    }
}

/// No edge has a source below zero.
pub proof fn lemma_count_below_zero<S>(edges: Seq<(usize, usize, S)>)
    ensures
        count_below(edges, 0) == 0,
    decreases edges.len(),
{
    if edges.len() > 0 {
        lemma_count_below_zero(edges.drop_last());
    }
}

/// A bucket is no longer than the list it is drawn from.
pub proof fn lemma_bucket_len_bounded<S>(edges: Seq<(usize, usize, S)>, s: int)
    ensures
        bucket(edges, s).len() <= edges.len(),
    decreases edges.len(),
{
    if edges.len() > 0 {
        lemma_bucket_len_bounded(edges.drop_last(), s);
    }
}

/// The edges of a dense row-major `n`-by-`n` matrix `t` read up to (excluding) the
/// row-major position `c`: entry `k` becomes the edge `(k / n, k % n, t[k])` when
/// `keep[k]` holds, and is skipped otherwise.
pub open spec fn dense_edges<S>(n: nat, t: Seq<S>, keep: Seq<bool>, c: nat) -> Seq<(usize, usize, S)>
    decreases c,
{
    if c == 0 {
        Seq::empty()
    } else {
        let prev = dense_edges(n, t, keep, (c - 1) as nat);
        let k = c - 1;
        if keep[k] {
            prev.push(((k / n as int) as usize, (k % n as int) as usize, t[k]))
        } else {
            prev
        }
    }
}

/// Every edge read from a dense `n`-by-`n` matrix has a source below `n`.
pub proof fn lemma_dense_edges_sources<S>(n: nat, t: Seq<S>, keep: Seq<bool>, c: nat)
    requires
        c <= n * n,
        n * n <= usize::MAX,
    ensures
        sources_at_most(dense_edges(n, t, keep, c), n - 1),
        forall|k: int| 0 <= k < dense_edges(n, t, keep, c).len() ==> #[trigger] dense_edges(n, t, keep, c)[k].0 < n,
    decreases c,
{
    if c > 0 {
        lemma_dense_edges_sources(n, t, keep, (c - 1) as nat);
        let k = c - 1;
        assert(0 <= k / (n as int) < n) by (nonlinear_arith)
            requires
                0 <= k < n * n,
                n > 0,
        ;
        assert(n > 0) by (nonlinear_arith)
            requires
                c <= n * n,
                c > 0,
        ;
    }
}

/// The out-edges of row `i` of a dense row-major `n`-by-`n` matrix `t`, reading
/// columns `0..m`: column `j` gives the edge `(i, j, t[i * n + j])` when
/// `keep[i * n + j]` holds.
pub open spec fn row_edges<S>(n: nat, t: Seq<S>, keep: Seq<bool>, i: int, m: nat) -> Seq<(usize, usize, S)>
    decreases m,
{
    if m == 0 {
        Seq::empty()
    } else {
        let prev = row_edges(n, t, keep, i, (m - 1) as nat);
        let j = m - 1;
        if keep[i * n + j] {
            prev.push((i as usize, j as usize, t[i * n + j]))
        } else {
            prev
        }
    }
}

/// How many columns of row `i` the first `c` row-major positions cover.
pub open spec fn columns_read(n: nat, i: int, c: int) -> nat {
    if c - i * n < 0 {
        0
    } else if c - i * n > n {
        n
    } else {
        (c - i * n) as nat
    }
}

/// Appending an edge to a list extends the bucket of its source only.
pub proof fn lemma_bucket_push<S>(edges: Seq<(usize, usize, S)>, e: (usize, usize, S), s: int)
    ensures
        bucket(edges.push(e), s) == if e.0 == s {
            bucket(edges, s).push(e)
        } else {
            bucket(edges, s)
        },
{
    assert(edges.push(e).drop_last() =~= edges);
}

/// Reading the first `c` row-major positions of the matrix yields, for source
/// `i`, the edges of the columns of row `i` read so far.
proof fn lemma_dense_bucket<S>(n: nat, t: Seq<S>, keep: Seq<bool>, i: int, c: nat)
    requires
        0 <= i < n,
        c <= n * n,
        n <= usize::MAX,
    ensures
        bucket(dense_edges(n, t, keep, c), i) == row_edges(n, t, keep, i, columns_read(n, i, c as int)),
    decreases c,
{
    if c == 0 {
        assert(i * n >= 0) by (nonlinear_arith)
            requires
                0 <= i,
        ;
    } else {
        let k = c - 1;
        lemma_dense_bucket(n, t, keep, i, (c - 1) as nat);
        let q = k / n as int;
        let r = k % n as int;
        vstd::arithmetic::div_mod::lemma_fundamental_div_mod(k, n as int);
        assert(0 <= r < n);
        let prev = dense_edges(n, t, keep, (c - 1) as nat);
        let e = ((k / n as int) as usize, (k % n as int) as usize, t[k]);
        lemma_bucket_push(prev, e, i);
        assert(0 <= q < n) by (nonlinear_arith)
            requires
                0 <= k < n * n,
                k == n * q + r,
                0 <= r < n,
        ;
        if q == i {
            assert(k == i * n + r) by (nonlinear_arith)
                requires
                    k == n * q + r,
                    q == i,
            ;
            assert(columns_read(n, i, c as int) == r + 1);
            assert(columns_read(n, i, k) == r);
        } else if q < i {
            assert(k + 1 <= i * n) by (nonlinear_arith)
                requires
                    k == n * q + r,
                    q < i,
                    r < n,
            ;
        } else {
            assert(k >= i * n + n) by (nonlinear_arith)
                requires
                    k == n * q + r,
                    q > i,
                    r >= 0,
            ;
        }
    }
}

/// The edges of one row: all have source `i`, targets are increasing columns
/// below `m`, the weight of the edge to `j` is `t[i * n + j]`, and column `j` is
/// present exactly when `keep[i * n + j]` holds.
pub proof fn lemma_row_edges_shape<S>(n: nat, t: Seq<S>, keep: Seq<bool>, i: int, m: nat)
    requires
        0 <= i < n,
        m <= n,
        n <= usize::MAX,
    ensures
        forall|a: int| 0 <= a < row_edges(n, t, keep, i, m).len() ==> {
            let e = #[trigger] row_edges(n, t, keep, i, m)[a];
            &&& e.0 == i
            &&& e.1 < m
            &&& e.2 == t[i * n + e.1]
        },
        forall|a: int, b: int| 0 <= a < b < row_edges(n, t, keep, i, m).len() ==>
            (#[trigger] row_edges(n, t, keep, i, m)[a]).1 < (#[trigger] row_edges(n, t, keep, i, m)[b]).1,
        forall|j: int| 0 <= j < m ==> (#[trigger] keep[i * n + j] <==> exists|a: int|
            0 <= a < row_edges(n, t, keep, i, m).len() && (#[trigger] row_edges(n, t, keep, i, m)[a]).1 == j),
    decreases m,
{
    if m > 0 {
        let prev = row_edges(n, t, keep, i, (m - 1) as nat);
        lemma_row_edges_shape(n, t, keep, i, (m - 1) as nat);
        let cur = row_edges(n, t, keep, i, m);
        let j = m - 1;
        assert forall|x: int| 0 <= x < m implies (#[trigger] keep[i * n + x] <==> exists|a: int|
            0 <= a < cur.len() && (#[trigger] cur[a]).1 == x) by {
            if x < j {
                if keep[i * n + x] {
                    let a = choose|a: int| 0 <= a < prev.len() && prev[a].1 == x;
                    assert(cur[a] == prev[a]);
                }
                if exists|a: int| 0 <= a < cur.len() && cur[a].1 == x {
                    let a = choose|a: int| 0 <= a < cur.len() && cur[a].1 == x;
                    if a < prev.len() {
                        assert(cur[a] == prev[a]);
                    }
                }
            } else {
                if keep[i * n + x] {
                    assert(cur[cur.len() - 1].1 == x);
                }
                if exists|a: int| 0 <= a < cur.len() && cur[a].1 == x {
                    let a = choose|a: int| 0 <= a < cur.len() && cur[a].1 == x;
                    if a < prev.len() {
                        assert(cur[a] == prev[a]);
                    }
                }
            }
        }
    }
}

/// Row `i` of a dense matrix becomes the out-edges of vertex `i`: their targets
/// are the columns `j` with `keep[i * n + j]`, in increasing order, and the edge
/// to `j` carries `t[i * n + j]`.
pub proof fn lemma_dense_row<S>(n: nat, t: Seq<S>, keep: Seq<bool>, i: int)
    requires
        0 <= i < n,
        n * n <= usize::MAX,
    ensures
        bucket(dense_edges(n, t, keep, n * n), i) == row_edges(n, t, keep, i, n),
        forall|a: int| 0 <= a < bucket(dense_edges(n, t, keep, n * n), i).len() ==> {
            let e = #[trigger] bucket(dense_edges(n, t, keep, n * n), i)[a];
            &&& e.0 == i
            &&& e.1 < n
            &&& e.2 == t[i * n + e.1]
        },
        forall|a: int, b: int| 0 <= a < b < bucket(dense_edges(n, t, keep, n * n), i).len() ==>
            (#[trigger] bucket(dense_edges(n, t, keep, n * n), i)[a]).1
                < (#[trigger] bucket(dense_edges(n, t, keep, n * n), i)[b]).1,
        forall|j: int| 0 <= j < n ==> (#[trigger] keep[i * n + j] <==> exists|a: int|
            0 <= a < bucket(dense_edges(n, t, keep, n * n), i).len()
                && (#[trigger] bucket(dense_edges(n, t, keep, n * n), i)[a]).1 == j),
{
    assert(n <= n * n && n * n - i * n >= n) by (nonlinear_arith)
        requires
            0 <= i < n,
    ;
    assert(n <= usize::MAX);
    lemma_dense_bucket(n, t, keep, i, n * n);
    assert(columns_read(n, i, (n * n) as int) == n);
    lemma_row_edges_shape(n, t, keep, i, n);
}

/// Every edge is in the bucket of its source.
pub proof fn lemma_edge_in_bucket<S>(edges: Seq<(usize, usize, S)>, k: int)
    requires
        0 <= k < edges.len(),
    ensures
        exists|j: int| 0 <= j < bucket(edges, edges[k].0 as int).len()
            && #[trigger] bucket(edges, edges[k].0 as int)[j] == edges[k],
    decreases edges.len(),
{
    let s = edges[k].0 as int;
    let rest = edges.drop_last();
    if k == edges.len() - 1 {
        assert(bucket(edges, s)[bucket(rest, s).len() as int] == edges[k]);
    } else {
        assert(rest[k] == edges[k]);
        lemma_edge_in_bucket(rest, k);
        let j = choose|j: int| 0 <= j < bucket(rest, s).len() && #[trigger] bucket(rest, s)[j] == edges[k];
        assert(bucket(edges, s)[j] == edges[k]);
    }
}

} // verus!
