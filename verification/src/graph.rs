//! Graphs in compressed sparse row (CSR) form, their builder, and small
//! fixed-size graphs with bit-packed adjacency.

use vstd::prelude::*;
use crate::aligned::AlignedVec;
use crate::bits::{bit_set, lemma_clear_lowest_bit, lemma_set_bit, lemma_zero_has_no_bits};
use crate::edge_list::{
    bucket, count_below, lemma_bucket_take_len_monotone, lemma_bucket_take_step,
    lemma_count_below_all, lemma_count_below_monotone, lemma_count_below_succ,
    lemma_count_below_zero, lemma_bucket_len_bounded, sources_at_most, dense_edges,
    lemma_dense_edges_sources, lemma_edge_in_bucket, targets, weights_of,
};

verus! {

/// A graph stored as edge lists (CSR): `offsets[i]..offsets[i + 1]` is the range
/// of `neighbors` and `weights` that holds the out-edges of vertex `i`.
/// `S` is the type of the weights and vertex attributes.
pub struct Graph<S> {
    pub n: usize,
    pub offsets: Vec<usize>,
    pub neighbors: Vec<usize>,
    pub weights: Vec<S>,
    /// Vertex attributes by name; no name occurs twice.
    pub attributes: Vec<(String, AlignedVec<S>)>,
    /// The dense row-major transition matrix the graph was built from, if any.
    pub transitions: Option<AlignedVec<S>>,
}

impl<S> Graph<S> {
    /// The CSR layout is consistent.
    pub open spec fn wf(&self) -> bool {
        &&& self.offsets@.len() == self.n + 1
        &&& forall|i: int, j: int|
            0 <= i <= j <= self.n ==> #[trigger] self.offsets@[i] <= #[trigger] self.offsets@[j]
        &&& self.offsets@[self.n as int] <= self.neighbors@.len()
        &&& self.neighbors@.len() == self.weights@.len()
        &&& attribute_names_distinct(self.attributes@)
    }

    /// The targets of the out-edges of vertex `i`.
    pub open spec fn neighbor_run(&self, i: int) -> Seq<usize> {
        self.neighbors@.subrange(self.offsets@[i] as int, self.offsets@[i + 1] as int)
    }

    /// The weights of the out-edges of vertex `i`.
    pub open spec fn weight_run(&self, i: int) -> Seq<S> {
        self.weights@.subrange(self.offsets@[i] as int, self.offsets@[i + 1] as int)
    }

    /// The CSR arrays hold exactly `edges`, grouped by source: the run of vertex
    /// `s` lists the edges whose source is `s` in their order in `edges`, and
    /// `offsets[i]` is the number of edges whose source is below `i`. Edges whose
    /// source is `n` follow the last run.
    pub open spec fn holds_edges(&self, edges: Seq<(usize, usize, S)>) -> bool {
        &&& self.wf()
        &&& self.neighbors@.len() == edges.len()
        &&& forall|i: int| 0 <= i <= self.n ==> #[trigger] self.offsets@[i] == count_below(edges, i)
        &&& forall|s: int| 0 <= s < self.n ==> #[trigger] self.neighbor_run(s) == targets(bucket(edges, s))
        &&& forall|s: int| 0 <= s < self.n ==> #[trigger] self.weight_run(s) == weights_of(bucket(edges, s))
        &&& self.neighbors@.subrange(self.offsets@[self.n as int] as int, self.neighbors@.len() as int)
            == targets(bucket(edges, self.n as int))
        &&& self.weights@.subrange(self.offsets@[self.n as int] as int, self.weights@.len() as int)
            == weights_of(bucket(edges, self.n as int))
    }

    /// The stored transition matrix.
    pub open spec fn stored_transitions(&self) -> Option<Seq<S>> {
        match self.transitions {
            Some(t) => Some(t@),
            None => None,
        }
    }

    /// An empty graph on `n` vertices.
    pub fn new(n: usize) -> (g: Self)
        requires
            n < usize::MAX,
        ensures
            g.wf(),
            g.n == n,
            forall|i: int| 0 <= i <= n ==> g.offsets@[i] == 0,
            g.neighbors@.len() == 0,
            g.attributes@.len() == 0,
            g.stored_transitions() is None,
    {
        Graph {
            n,
            offsets: vec![0usize; n + 1],
            neighbors: Vec::new(),
            weights: Vec::new(),
            attributes: Vec::new(),
            transitions: None,
        }
    }

    /// Builds the CSR layout from an edge list `(source, target, weight)`: the edges
    /// are grouped by source, keeping their input order within a source.
    /// `offsets[i]` is the number of edges whose source is below `i`; edges whose
    /// source is `n` follow the last run, after `offsets[n]`.
    pub fn from_edges(n: usize, edges: &[(usize, usize, S)]) -> (g: Self)
        where S: Copy
        requires
            n < usize::MAX,
            sources_at_most(edges@, n as int),
        ensures
            g.n == n,
            g.holds_edges(edges@),
            g.attributes@.len() == 0,
            g.stored_transitions() is None,
    {
        let m = edges.len();
        let ghost es = edges@;
        proof {
            lemma_count_below_all(es, n as int);
        }
        // How many edges leave each source.
        let mut counts: Vec<usize> = vec![0usize; n + 1];
        for k in 0..m
            invariant
                m == es.len(),
                es == edges@,
                sources_at_most(es, n as int),
                counts@.len() == n + 1,
                forall|s: int| 0 <= s <= n ==> #[trigger] counts@[s] == bucket(es.take(k as int), s).len(),
        {
            let s = edges[k].0;
            assert(es[k as int].0 <= n);
            proof {
                assert forall|s2: int| 0 <= s2 <= n implies #[trigger] bucket(es.take(k + 1), s2)
                    == if es[k as int].0 == s2 {
                        bucket(es.take(k as int), s2).push(es[k as int])
                    } else {
                        bucket(es.take(k as int), s2)
                    } by {
                    lemma_bucket_take_step(es, k as int, s2);
                }
            }
            let c = counts[s];
            proof {
                lemma_bucket_len_bounded(es.take(k as int), s as int);
            }
            counts.set(s, c + 1);
        }
        assert(es.take(m as int) =~= es);
        proof {
            lemma_count_below_zero(es);
        }
        // Where the run of each source starts.
        let mut offsets: Vec<usize> = Vec::new();
        offsets.push(0);
        for i in 0..n
            invariant
                m == es.len(),
                es == edges@,
                sources_at_most(es, n as int),
                counts@.len() == n + 1,
                forall|s: int| 0 <= s <= n ==> #[trigger] counts@[s] == bucket(es, s).len(),
                offsets@.len() == i + 1,
                forall|t: int| 0 <= t <= i ==> #[trigger] offsets@[t] == count_below(es, t),
                count_below(es, n + 1) == m,
        {
            proof {
                lemma_count_below_succ(es, i as int);
                lemma_count_below_monotone(es, i + 1, n + 1);
            }
            let next = offsets[i] + counts[i];
            offsets.push(next);
        }
        // Place each edge at the next free slot of its source's run.
        let mut cursor: Vec<usize> = offsets.clone();
        let mut neighbors: Vec<usize> = vec![0usize; m];
        let mut weights: Vec<S> = if m > 0 {
            vec![edges[0].2; m]
        } else {
            Vec::new()
        };
        let mut k: usize = 0;
        while k < m
            invariant
                k <= m,
                m == es.len(),
                es == edges@,
                sources_at_most(es, n as int),
                offsets@.len() == n + 1,
                forall|t: int| 0 <= t <= n ==> #[trigger] offsets@[t] == count_below(es, t),
                count_below(es, n + 1) == m,
                cursor@.len() == n + 1,
                forall|s: int| 0 <= s <= n ==> #[trigger] cursor@[s]
                    == count_below(es, s) + bucket(es.take(k as int), s).len(),
                neighbors@.len() == m,
                weights@.len() == m,
                forall|s: int, j: int|
                    #![trigger bucket(es.take(k as int), s)[j]]
                    0 <= s <= n && 0 <= j < bucket(es.take(k as int), s).len()
                    ==> neighbors@[count_below(es, s) + j] == bucket(es.take(k as int), s)[j].1
                        && weights@[count_below(es, s) + j] == bucket(es.take(k as int), s)[j].2,
            decreases m - k,
        {
            let (s, t, w) = edges[k];
            assert(es[k as int].0 <= n);
            let p = cursor[s];
            proof {
                lemma_bucket_take_len_monotone(es, k + 1, m as int, s as int);
                lemma_bucket_take_step(es, k as int, s as int);
                assert(es.take(m as int) =~= es);
                lemma_count_below_succ(es, s as int);
                lemma_count_below_monotone(es, s + 1, n + 1);
            }
            let ghost old_nb = neighbors@;
            let ghost old_wt = weights@;
            let ghost old_bucket = bucket(es.take(k as int), s as int);
            neighbors.set(p, t);
            weights.set(p, w);
            cursor.set(s, p + 1);
            proof {
                assert forall|s2: int, j: int|
                    #![trigger bucket(es.take(k + 1), s2)[j]]
                    0 <= s2 <= n && 0 <= j < bucket(es.take(k + 1), s2).len()
                    implies neighbors@[count_below(es, s2) + j] == bucket(es.take(k + 1), s2)[j].1
                    && weights@[count_below(es, s2) + j] == bucket(es.take(k + 1), s2)[j].2 by {
                    lemma_bucket_take_step(es, k as int, s2);
                    if s2 == s {
                        if j < old_bucket.len() {
                            assert(bucket(es.take(k + 1), s2)[j] == old_bucket[j]);
                            assert(neighbors@[count_below(es, s2) + j] == old_nb[count_below(es, s2) + j]);
                            assert(weights@[count_below(es, s2) + j] == old_wt[count_below(es, s2) + j]);
                            assert(old_nb[count_below(es, s2) + j] == old_bucket[j].1);
                        } else {
                            assert(j == old_bucket.len());
                            assert(bucket(es.take(k + 1), s2)[j] == es[k as int]);
                        }
                    } else {
                        lemma_bucket_take_len_monotone(es, k as int, m as int, s2);
                        lemma_count_below_succ(es, s2);
                        if s2 < s {
                            lemma_count_below_monotone(es, s2 + 1, s as int);
                        } else {
                            lemma_count_below_monotone(es, s + 1, s2);
                        }
                        lemma_count_below_monotone(es, s2 + 1, n + 1);
                        assert(count_below(es, s2) + j != p);
                        assert(bucket(es.take(k + 1), s2) == bucket(es.take(k as int), s2));
                        assert(neighbors@[count_below(es, s2) + j] == old_nb[count_below(es, s2) + j]);
                        assert(weights@[count_below(es, s2) + j] == old_wt[count_below(es, s2) + j]);
                        assert(old_nb[count_below(es, s2) + j] == bucket(es.take(k as int), s2)[j].1);
                        assert(old_wt[count_below(es, s2) + j] == bucket(es.take(k as int), s2)[j].2);
                    }
                }
                assert forall|s2: int| 0 <= s2 <= n implies #[trigger] cursor@[s2]
                    == count_below(es, s2) + bucket(es.take(k + 1), s2).len() by {
                    lemma_bucket_take_step(es, k as int, s2);
                }
            }
            k = k + 1;
        }
        let g = Graph {
            n,
            offsets,
            neighbors,
            weights,
            attributes: Vec::new(),
            transitions: None,
        };
        proof {
            assert(es.take(m as int) =~= es);
            assert forall|i: int, j: int| 0 <= i <= j <= n implies #[trigger] g.offsets@[i]
                <= #[trigger] g.offsets@[j] by {
                lemma_count_below_monotone(es, i, j);
            }
            lemma_count_below_monotone(es, n as int, n + 1);
            assert forall|s: int|
                #![trigger g.neighbor_run(s)]
                #![trigger g.weight_run(s)]
                0 <= s < n implies g.neighbor_run(s) == targets(bucket(es, s))
                && g.weight_run(s) == weights_of(bucket(es, s)) by {
                lemma_count_below_succ(es, s);
                lemma_count_below_monotone(es, s + 1, n + 1);
                assert forall|i: int| 0 <= i < bucket(es, s).len() implies
                    g.neighbors@[count_below(es, s) + i] == bucket(es, s)[i].1
                    && g.weights@[count_below(es, s) + i] == bucket(es, s)[i].2 by {
                    assert(bucket(es.take(m as int), s)[i] == bucket(es, s)[i]);
                }
                assert(g.neighbor_run(s) =~= targets(bucket(es, s)));
                assert(g.weight_run(s) =~= weights_of(bucket(es, s)));
            }
            lemma_count_below_succ(es, n as int);
            assert forall|i: int| 0 <= i < bucket(es, n as int).len() implies
                g.neighbors@[count_below(es, n as int) + i] == bucket(es, n as int)[i].1
                && g.weights@[count_below(es, n as int) + i] == bucket(es, n as int)[i].2 by {
                assert(bucket(es.take(m as int), n as int)[i] == bucket(es, n as int)[i]);
            }
            assert(g.neighbors@.subrange(g.offsets@[n as int] as int, g.neighbors@.len() as int)
                =~= targets(bucket(es, n as int)));
            assert(g.weights@.subrange(g.offsets@[n as int] as int, g.weights@.len() as int)
                =~= weights_of(bucket(es, n as int)));
        }
        g
    }

    /// Builds the graph of a dense row-major `n`-by-`n` transition matrix: entry
    /// `(i, j)` becomes the edge `i -> j` with weight `transitions[i * n + j]` when
    /// `positive[i * n + j]` holds (the entry is greater than zero). The matrix is
    /// kept in the graph.
    pub fn from_transitions(n: usize, transitions: &[S], positive: &[bool]) -> (g: Self)
        where S: Copy
        requires
            n < usize::MAX,
            transitions@.len() == n * n,
            positive@.len() == n * n,
        ensures
            g.n == n,
            g.holds_edges(dense_edges(n as nat, transitions@, positive@, (n * n) as nat)),
            g.attributes@.len() == 0,
            g.stored_transitions() == Some(transitions@),
    {
        let ghost t = transitions@;
        let ghost keep = positive@;
        let total = transitions.len();
        assert(0 * n == 0) by (nonlinear_arith);
        let mut edges: Vec<(usize, usize, S)> = Vec::new();
        for i in 0..n
            invariant
                n * n == total,
                transitions@ == t,
                positive@ == keep,
                t.len() == n * n,
                keep.len() == n * n,
                edges@ == dense_edges(n as nat, t, keep, (i * n) as nat),
        {
            assert((i + 1) * n <= n * n) by (nonlinear_arith)
                requires
                    i < n,
            ;
            for j in 0..n
                invariant
                    n * n == total,
                    transitions@ == t,
                    positive@ == keep,
                    t.len() == n * n,
                    keep.len() == n * n,
                    i < n,
                    (i + 1) * n <= n * n,
                    edges@ == dense_edges(n as nat, t, keep, (i * n + j) as nat),
            {
                assert(i * n + j < (i + 1) * n) by (nonlinear_arith)
                    requires
                        j < n,
                ;
                let k = i * n + j;
                proof {
                    vstd::arithmetic::div_mod::lemma_fundamental_div_mod_converse(
                        k as int,
                        n as int,
                        i as int,
                        j as int,
                    );
                }
                if positive[k] {
                    edges.push((i, j, transitions[k]));
                }
            }
            assert((i * n + n) == (i + 1) * n) by (nonlinear_arith);
        }
        assert(edges@ == dense_edges(n as nat, t, keep, (n * n) as nat));
        proof {
            lemma_dense_edges_sources(n as nat, t, keep, (n * n) as nat);
        }
        let mut g = Self::from_edges(n, edges.as_slice());
        proof {
            let es = edges@;
            lemma_count_below_all(es, (n - 1) as int);
            lemma_count_below_monotone(es, n as int, n as int + 1);
        }
        let ghost g0 = g;
        g.transitions = Some(AlignedVec::from_vec(vstd::slice::slice_to_vec(transitions)));
        proof {
            lemma_holds_edges_same_layout(g0, g, edges@);
        }
        g
    }

    /// Stores the vertex attribute `name`, replacing any attribute of that name.
    pub fn add_attribute(&mut self, name: &str, values: Vec<S>)
        requires
            attribute_names_distinct(old(self).attributes@),
            values@.len() == old(self).n,
        ensures
            attribute_names_distinct(final(self).attributes@),
            old(self).wf() ==> final(self).wf(),
            final(self).n == old(self).n,
            final(self).offsets@ == old(self).offsets@,
            final(self).neighbors@ == old(self).neighbors@,
            final(self).weights@ == old(self).weights@,
            final(self).stored_transitions() == old(self).stored_transitions(),
            forall|k: Seq<char>| #[trigger] lookup_attribute(final(self).attributes@, k)
                == if k == name@ { Some(values@) } else { lookup_attribute(old(self).attributes@, k) },
    {
        insert_attribute(&mut self.attributes, name.to_owned(), AlignedVec::from_vec(values));
    }

    /// Whether the CSR layout is consistent (`wf`): checked by those who hold a
    /// graph whose public fields may have been changed.
    pub fn layout_ok(&self) -> (r: bool)
        ensures
            r == self.wf(),
    {
        let n = self.n;
        let offsets_len = self.offsets.len();
        if n == usize::MAX || offsets_len != n + 1 {
            return false;
        }
        let mut i: usize = 0;
        while i < n
            invariant
                n == self.n,
                n < usize::MAX,
                self.offsets@.len() == n + 1,
                i <= n,
                forall|a: int, b: int| 0 <= a <= b <= i ==> #[trigger] self.offsets@[a] <= #[trigger] self.offsets@[b],
            decreases n - i,
        {
            if self.offsets[i] > self.offsets[i + 1] {
                return false;
            }
            i = i + 1;
        }
        if self.offsets[n] > self.neighbors.len() || self.neighbors.len() != self.weights.len() {
            return false;
        }
        let len = self.attributes.len();
        let mut a: usize = 0;
        while a < len
            invariant
                len == self.attributes@.len(),
                a <= len,
                forall|x: int, y: int| 0 <= x < a && 0 <= y < len && x != y ==>
                    #[trigger] self.attributes@[x].0@ != #[trigger] self.attributes@[y].0@,
            decreases len - a,
        {
            let mut b: usize = 0;
            while b < len
                invariant
                    len == self.attributes@.len(),
                    a < len,
                    b <= len,
                    forall|x: int, y: int| 0 <= x < a && 0 <= y < len && x != y ==>
                        #[trigger] self.attributes@[x].0@ != #[trigger] self.attributes@[y].0@,
                    forall|y: int| 0 <= y < b && y != a ==> self.attributes@[a as int].0@ != #[trigger] self.attributes@[y].0@,
                decreases len - b,
            {
                if b != a && self.attributes[a].0 == self.attributes[b].0 {
                    return false;
                }
                b = b + 1;
            }
            a = a + 1;
        }
        true
    }

    /// Number of edges.
    pub fn edge_count(&self) -> (r: usize)
        ensures
            r == self.neighbors@.len(),
    {
        self.neighbors.len()
    }

    /// Out-degree of vertex `i`.
    pub fn degree(&self, i: usize) -> (r: usize)
        requires
            self.wf(),
            i < self.n,
        ensures
            r == self.offsets@[i + 1] - self.offsets@[i as int],
            r == self.neighbor_run(i as int).len(),
    {
        self.offsets[i + 1] - self.offsets[i]
    }

    /// Targets and weights of the out-edges of vertex `i`.
    pub fn neighbors(&self, i: usize) -> (r: (&[usize], &[S]))
        requires
            self.wf(),
            i < self.n,
        ensures
            r.0@ == self.neighbor_run(i as int),
            r.1@ == self.weight_run(i as int),
    {
        let start = self.offsets[i];
        let end = self.offsets[i + 1];
        (
            vstd::slice::slice_subrange(self.neighbors.as_slice(), start, end),
            vstd::slice::slice_subrange(self.weights.as_slice(), start, end),
        )
    }

    /// The transition matrix the graph was built from, or an empty slice.
    pub fn transitions(&self) -> (r: &[S])
        ensures
            match self.stored_transitions() {
                Some(t) => r@ == t,
                None => r@.len() == 0,
            },
    {
        match &self.transitions {
            Some(t) => t.as_slice(),
            None => &[],
        }
    }
}

/// Marker: the graph is built and ready for Laplacian construction.
pub struct GraphBuilt;

impl GraphBuilt {
    /// The marker, for a graph constructed directly rather than by a builder.
    pub fn mark() -> (r: Self) {
        GraphBuilt
    }
}

/// Builder for [`Graph`]: collects edges, a dense transition matrix and vertex
/// attributes, then lays them out.
pub struct GraphBuilder<S> {
    n: usize,
    edges: Vec<(usize, usize, S)>,
    attributes: Vec<(String, AlignedVec<S>)>,
    /// The dense row-major matrix and which of its entries are positive.
    transitions: Option<(Vec<S>, Vec<bool>)>,
}

impl<S> GraphBuilder<S> {
    #[verifier::type_invariant]
    spec fn inv(self) -> bool {
        &&& self.n < usize::MAX
        &&& forall|k: int| 0 <= k < self.edges@.len() ==> (#[trigger] self.edges@[k]).0 < self.n
            && self.edges@[k].1 < self.n
        &&& match self.transitions {
            Some((t, p)) => t@.len() == self.n * self.n && p@.len() == self.n * self.n,
            None => true,
        }
        &&& attribute_names_distinct(self.attributes@)
    }

    /// Number of vertices of the graph being built.
    pub closed spec fn vertex_count(&self) -> nat {
        self.n as nat
    }

    /// The edges added so far, in order.
    pub closed spec fn pending_edges(&self) -> Seq<(usize, usize, S)> {
        self.edges@
    }

    /// The dense matrix and its positivity flags, if one was given.
    pub closed spec fn pending_dense(&self) -> Option<(Seq<S>, Seq<bool>)> {
        match self.transitions {
            Some((t, p)) => Some((t@, p@)),
            None => None,
        }
    }

    /// The attributes added so far.
    pub closed spec fn pending_attribute(&self, key: Seq<char>) -> Option<Seq<S>> {
        lookup_attribute(self.attributes@, key)
    }

    /// Number of vertices of the graph being built.
    pub fn vertices(&self) -> (r: usize)
        ensures
            r == self.vertex_count(),
    {
        self.n
    }

    /// A builder for a graph on `n` vertices, with nothing added yet.
    pub fn new(n: usize) -> (b: Self)
        requires
            n < usize::MAX,
        ensures
            b.vertex_count() == n,
            b.pending_edges() == Seq::<(usize, usize, S)>::empty(),
            b.pending_dense() is None,
            forall|k: Seq<char>| #[trigger] b.pending_attribute(k) is None,
    {
        GraphBuilder { n, edges: Vec::new(), attributes: Vec::new(), transitions: None }
    }

    /// Adds the edge `source -> target` with the given weight.
    pub fn edge(self, source: usize, target: usize, weight: S) -> (b: Self)
        requires
            source < self.vertex_count(),
            target < self.vertex_count(),
        ensures
            b.vertex_count() == self.vertex_count(),
            b.pending_edges() == self.pending_edges().push((source, target, weight)),
            b.pending_dense() == self.pending_dense(),
            forall|k: Seq<char>| #[trigger] b.pending_attribute(k) == self.pending_attribute(k),
    {
        proof {
            use_type_invariant(&self);
        }
        let GraphBuilder { n, mut edges, attributes, transitions } = self;
        edges.push((source, target, weight));
        GraphBuilder { n, edges, attributes, transitions }
    }

    /// Adds the given edges, in order.
    pub fn edges(self, new_edges: &[(usize, usize, S)]) -> (b: Self)
        where S: Copy
        requires
            forall|k: int| 0 <= k < new_edges@.len() ==> (#[trigger] new_edges@[k]).0 < self.vertex_count()
                && new_edges@[k].1 < self.vertex_count(),
        ensures
            b.vertex_count() == self.vertex_count(),
            b.pending_edges() == self.pending_edges() + new_edges@,
            b.pending_dense() == self.pending_dense(),
            forall|k: Seq<char>| #[trigger] b.pending_attribute(k) == self.pending_attribute(k),
    {
        proof {
            use_type_invariant(&self);
        }
        let GraphBuilder { n, mut edges, attributes, transitions } = self;
        let ghost before = edges@;
        for k in 0..new_edges.len()
            invariant
                edges@ == before + new_edges@.take(k as int),
                forall|j: int| 0 <= j < before.len() ==> (#[trigger] before[j]).0 < n && before[j].1 < n,
                forall|j: int| 0 <= j < new_edges@.len() ==> (#[trigger] new_edges@[j]).0 < n
                    && new_edges@[j].1 < n,
        {
            edges.push(new_edges[k]);
            assert(new_edges@.take(k + 1) =~= new_edges@.take(k as int).push(new_edges@[k as int]));
        }
        assert(new_edges@.take(new_edges@.len() as int) =~= new_edges@);
        let b = GraphBuilder { n, edges, attributes, transitions };
        b
    }

    /// Uses the dense row-major matrix `t` (with `positive[k]` telling whether
    /// `t[k]` is greater than zero) in place of the edge list.
    pub fn transitions(self, t: &[S], positive: &[bool]) -> (b: Self)
        where S: Copy
        requires
            t@.len() == self.vertex_count() * self.vertex_count(),
            positive@.len() == self.vertex_count() * self.vertex_count(),
        ensures
            b.vertex_count() == self.vertex_count(),
            b.pending_edges() == self.pending_edges(),
            b.pending_dense() == Some((t@, positive@)),
            forall|k: Seq<char>| #[trigger] b.pending_attribute(k) == self.pending_attribute(k),
    {
        proof {
            use_type_invariant(&self);
        }
        let GraphBuilder { n, edges, attributes, transitions: _ } = self;
        let t_vec = vstd::slice::slice_to_vec(t);
        let p_vec = vstd::slice::slice_to_vec(positive);
        GraphBuilder { n, edges, attributes, transitions: Some((t_vec, p_vec)) }
    }

    /// Stores the vertex attribute `name`, replacing any attribute of that name.
    pub fn attribute(self, name: &str, values: Vec<S>) -> (b: Self)
        requires
            values@.len() == self.vertex_count(),
        ensures
            b.vertex_count() == self.vertex_count(),
            b.pending_edges() == self.pending_edges(),
            b.pending_dense() == self.pending_dense(),
            forall|k: Seq<char>| #[trigger] b.pending_attribute(k)
                == if k == name@ { Some(values@) } else { self.pending_attribute(k) },
    {
        proof {
            use_type_invariant(&self);
        }
        let GraphBuilder { n, edges, mut attributes, transitions } = self;
        insert_attribute(&mut attributes, name.to_owned(), AlignedVec::from_vec(values));
        GraphBuilder { n, edges, attributes, transitions }
    }

    /// Lays the graph out: from the dense matrix when one was given, from the
    /// edge list otherwise; then stores the attributes.
    pub fn build(self) -> (r: (Graph<S>, GraphBuilt))
        where S: Copy
        ensures
            r.0.n == self.vertex_count(),
            match self.pending_dense() {
                Some((t, p)) => r.0.holds_edges(dense_edges(self.vertex_count(), t, p,
                    self.vertex_count() * self.vertex_count()))
                    && r.0.stored_transitions() == Some(t),
                None => r.0.holds_edges(self.pending_edges()) && r.0.stored_transitions() is None,
            },
            forall|k: Seq<char>| #[trigger] lookup_attribute(r.0.attributes@, k) == self.pending_attribute(k),
    {
        proof {
            use_type_invariant(&self);
        }
        let ghost orig = self.attributes@;
        let GraphBuilder { n, edges, mut attributes, transitions } = self;
        let mut graph = match transitions {
            Some((t, p)) => Graph::from_transitions(n, t.as_slice(), p.as_slice()),
            None => {
                assert(sources_at_most(edges@, n as int)) by {
                    assert forall|k: int| 0 <= k < edges@.len() implies #[trigger] edges@[k].0 <= n by {
                        assert(edges@[k].0 < n);
                    }
                }
                Graph::from_edges(n, edges.as_slice())
            },
        };
        let ghost laid = graph;
        proof {
            assert forall|k: Seq<char>| #[trigger] lookup_attribute(graph.attributes@, k) is None by {
                lemma_lookup_attribute_absent(graph.attributes@, k);
            }
        }
        loop
            invariant
                graph.n == laid.n,
                graph.offsets@ == laid.offsets@,
                graph.neighbors@ == laid.neighbors@,
                graph.weights@ == laid.weights@,
                graph.transitions == laid.transitions,
                attribute_names_distinct(graph.attributes@),
                attribute_names_distinct(attributes@),
                attributes@ == orig.take(attributes@.len() as int),
                attributes@.len() <= orig.len(),
                attribute_names_distinct(orig),
                forall|k: Seq<char>| #[trigger] lookup_attribute(orig, k) == match lookup_attribute(attributes@, k) {
                    Some(v) => Some(v),
                    None => lookup_attribute(graph.attributes@, k),
                },
            ensures
                attributes@.len() == 0,
            decreases attributes@.len(),
        {
            let ghost rest = attributes@;
            match attributes.pop() {
                Some((name, values)) => {
                    let ghost key = name@;
                    let ghost vals = values@;
                    proof {
                        assert(rest.last() == rest[rest.len() - 1]);
                        assert(attributes@ =~= rest.drop_last());
                        assert forall|a: int| 0 <= a < attributes@.len() implies #[trigger] attributes@[a].0@ != key by {
                            assert(attributes@[a] == rest[a]);
                        }
                        lemma_lookup_attribute_absent(attributes@, key);
                        assert(attribute_names_distinct(attributes@)) by {
                            assert forall|x: int, y: int|
                                0 <= x < attributes@.len() && 0 <= y < attributes@.len() && x != y
                                implies #[trigger] attributes@[x].0@ != #[trigger] attributes@[y].0@ by {
                                assert(attributes@[x] == rest[x] && attributes@[y] == rest[y]);
                            }
                        }
                        assert(attributes@ =~= orig.take(attributes@.len() as int));
                    }
                    insert_attribute(&mut graph.attributes, name, values);
                },
                None => {
                    break;
                },
            }
        }
        proof {
            assert forall|k: Seq<char>| #[trigger] lookup_attribute(graph.attributes@, k) == lookup_attribute(orig, k) by {
                assert(lookup_attribute(attributes@, k) is None);
            }
            if laid.stored_transitions() is None {
                lemma_holds_edges_same_layout(laid, graph, edges@);
            } else {
                let t = laid.stored_transitions()->0;
                assert(self.pending_dense() is Some);
                let p = (self.pending_dense()->0).1;
                lemma_holds_edges_same_layout(laid, graph, dense_edges(n as nat, t, p, (n * n) as nat));
            }
        }
        (graph, GraphBuilt)
    }
}

/// Number of 64-bit adjacency words per row of a graph on `n` vertices: `ceil(n / 64)`.
pub open spec fn words_per_row(n: int) -> int {
    (n + 63) / 64
}

/// Where bit `j` of row `i` lives: word `i * words_per_row(n) + j / 64`, bit `j % 64`.
pub open spec fn adjacency_word(n: int, i: int, j: int) -> int {
    i * words_per_row(n) + j / 64
}

/// Row `i`'s word for column `j` lies in its row, inside `0..n * words_per_row(n)`,
/// and a row's words cover every column.
pub proof fn lemma_adjacency_word_bounds(n: int, i: int, j: int)
    requires
        0 <= i < n,
        0 <= j < n,
    ensures
        0 <= j / 64 < words_per_row(n),
        0 <= j % 64 < 64,
        j == 64 * (j / 64) + j % 64,
        0 <= adjacency_word(n, i, j) < n * words_per_row(n),
        64 * words_per_row(n) <= n + 63,
        n <= 64 * words_per_row(n),
{
    let w = words_per_row(n);
    vstd::arithmetic::div_mod::lemma_fundamental_div_mod(n + 63, 64);
    vstd::arithmetic::div_mod::lemma_fundamental_div_mod(j, 64);
    assert(0 <= j / 64 < w) by (nonlinear_arith)
        requires
            j == 64 * (j / 64) + j % 64,
            0 <= j % 64 < 64,
            n + 63 == 64 * w + (n + 63) % 64,
            0 <= (n + 63) % 64 < 64,
            0 <= j < n,
    ;
    assert(0 <= i * w + j / 64 < n * w) by (nonlinear_arith)
        requires
            0 <= j / 64 < w,
            0 <= i < n,
    ;
}

/// Distinct cells of the adjacency are distinct bits: the same word and bit
/// means the same row and column.
pub proof fn lemma_adjacency_cell_injective(n: int, i: int, j: int, a: int, b: int)
    requires
        0 <= i < n,
        0 <= j < n,
        0 <= a < n,
        0 <= b < n,
        adjacency_word(n, a, b) == adjacency_word(n, i, j),
    ensures
        a == i,
        b / 64 == j / 64,
        b % 64 == j % 64 ==> b == j,
{
    lemma_adjacency_word_bounds(n, i, j);
    lemma_adjacency_word_bounds(n, a, b);
    let w = words_per_row(n);
    vstd::arithmetic::div_mod::lemma_fundamental_div_mod_converse(i * w + j / 64, w, i, j / 64);
    vstd::arithmetic::div_mod::lemma_fundamental_div_mod_converse(a * w + b / 64, w, a, b / 64);
}

/// A graph on `N` vertices with dense weights and bit-packed adjacency. Each row
/// takes `ceil(N / 64)` words (one word for `N <= 64`): bit `j % 64` of word
/// `i * ceil(N / 64) + j / 64` records the edge `i -> j`.
pub struct FixedGraph<S, const N: usize> {
    pub adjacency_bits: Vec<u64>,
    pub weights: [[S; N]; N],
}

impl<S, const N: usize> FixedGraph<S, N> {
    /// The adjacency holds `ceil(N / 64)` words per row.
    pub open spec fn wf(&self) -> bool {
        &&& N + 63 <= usize::MAX
        &&& self.adjacency_bits@.len() == N * words_per_row(N as int)
    }

    /// The edge `i -> j` is recorded.
    pub open spec fn has_edge(&self, i: int, j: int) -> bool {
        bit_set(self.adjacency_bits@[adjacency_word(N as int, i, j)], (j % 64) as u64)
    }

    /// Whether the adjacency holds `ceil(N / 64)` words per row (`wf`).
    pub fn layout_ok(&self) -> (r: bool)
        ensures
            r == self.wf(),
    {
        let len = self.adjacency_bits.len();
        if N > usize::MAX - 63 {
            return false;
        }
        let w = row_words::<N>();
        match N.checked_mul(w) {
            Some(total) => len == total,
            None => false,
        }
    }
}

/// `ceil(N / 64)`.
fn row_words<const N: usize>() -> (w: usize)
    requires
        N + 63 <= usize::MAX,
    ensures
        w == words_per_row(N as int),
{
    (N + 63) / 64
}

impl<S: Copy + Default, const N: usize> FixedGraph<S, N> {
    /// A graph with no edges; every weight is `S::default()`.
    pub fn new() -> (g: Self)
        requires
            N + 63 <= usize::MAX,
            N * words_per_row(N as int) <= usize::MAX,
        ensures
            g.wf(),
            forall|i: int, j: int| 0 <= i < N && 0 <= j < N ==> !#[trigger] g.has_edge(i, j),
            forall|i: int, j: int, k: int, l: int| 0 <= i < N && 0 <= j < N && 0 <= k < N && 0 <= l < N
                ==> #[trigger] g.weights@[i]@[j] == #[trigger] g.weights@[k]@[l],
    {
        let zero = S::default();
        let row: [S; N] = [zero; N];
        let w = row_words::<N>();
        let g = FixedGraph { adjacency_bits: vec![0u64; N * w], weights: [row; N] };
        proof {
            assert forall|i: int, j: int| 0 <= i < N && 0 <= j < N implies !#[trigger] g.has_edge(i, j) by {
                lemma_adjacency_word_bounds(N as int, i, j);
                lemma_zero_has_no_bits((j % 64) as u64);
            }
        }
        g
    }
}

impl<S: Copy, const N: usize> FixedGraph<S, N> {
    /// Adds the edge `i -> j` with weight `w`: sets its adjacency bit and weight.
    pub fn add_edge(&mut self, i: usize, j: usize, w: S)
        requires
            old(self).wf(),
            i < N,
            j < N,
        ensures
            final(self).wf(),
            final(self).adjacency_bits@ == old(self).adjacency_bits@.update(
                adjacency_word(N as int, i as int, j as int),
                old(self).adjacency_bits@[adjacency_word(N as int, i as int, j as int)] | (1u64 << ((j % 64) as u64)),
            ),
            forall|a: int, b: int| 0 <= a < N && 0 <= b < N ==> #[trigger] final(self).has_edge(a, b)
                == ((a == i && b == j) || old(self).has_edge(a, b)),
            forall|a: int, b: int| 0 <= a < N && 0 <= b < N ==> #[trigger] final(self).weights@[a]@[b]
                == if a == i && b == j { w } else { old(self).weights@[a]@[b] },
    {
        let words = row_words::<N>();
        let _total = self.adjacency_bits.len();
        proof {
            lemma_adjacency_word_bounds(N as int, i as int, j as int);
        }
        let k = i * words + j / 64;
        let shift = (j % 64) as u64;
        let word = self.adjacency_bits[k] | (1u64 << shift);
        self.adjacency_bits.set(k, word);
        let mut row = self.weights[i];
        row[j] = w;
        self.weights[i] = row;
        proof {
            assert forall|a: int, b: int| 0 <= a < N && 0 <= b < N implies #[trigger] self.has_edge(a, b)
                == ((a == i && b == j) || old(self).has_edge(a, b)) by {
                lemma_adjacency_edge_update(*old(self), *self, i as int, j as int, a, b);
            }
        }
    }

    /// The vertices `j` with a recorded edge `i -> j`, in increasing order: the
    /// order in which the Laplacian product visits the neighbours of `i`.
    pub fn adjacent(&self, i: usize) -> (r: Vec<usize>)
        requires
            self.wf(),
            i < N,
        ensures
            forall|a: int, b: int| 0 <= a < b < r@.len() ==> #[trigger] r@[a] < #[trigger] r@[b],
            forall|a: int| 0 <= a < r@.len() ==> #[trigger] r@[a] < N,
            forall|j: usize| j < N ==> (#[trigger] r@.contains(j) <==> self.has_edge(i as int, j as int)),
    {
        let words = row_words::<N>();
        let _total = self.adjacency_bits.len();
        let mut r: Vec<usize> = Vec::new();
        let mut q: usize = 0;
        proof {
            if N > 0 {
                lemma_adjacency_word_bounds(N as int, i as int, 0);
            }
            assert(i * words + words <= N * words) by (nonlinear_arith)
                requires
                    i < N,
            ;
        }
        while q < words
            invariant
                self.wf(),
                i < N,
                words == words_per_row(N as int),
                i * words + words <= N * words,
                N * words <= usize::MAX,
                q <= words,
                forall|a: int, b: int| 0 <= a < b < r@.len() ==> #[trigger] r@[a] < #[trigger] r@[b],
                forall|a: int| 0 <= a < r@.len() ==> #[trigger] r@[a] < N && r@[a] < 64 * q,
                forall|j: usize| j < N && j < 64 * q ==> (#[trigger] r@.contains(j) <==> self.has_edge(i as int, j as int)),
            decreases words - q,
        {
            proof {
                if N > 0 {
                    lemma_adjacency_word_bounds(N as int, i as int, 0);
                }
            }
            let word = self.adjacency_bits[i * words + q];
            let base = 64 * q;
            let ghost before = r@;
            push_set_bits(word, base, N, &mut r);
            proof {
                assert forall|a: int| 0 <= a < r@.len() implies #[trigger] r@[a] < N && r@[a] < 64 * (q + 1) by {
                    if a < before.len() {
                        assert(r@[a] == before[a]);
                    }
                }
                assert forall|j: usize| j < N && j < 64 * (q + 1) implies (#[trigger] r@.contains(j)
                    <==> self.has_edge(i as int, j as int)) by {
                    lemma_adjacency_word_bounds(N as int, i as int, j as int);
                    if j < base {
                        if before.contains(j) {
                            let a = choose|a: int| 0 <= a < before.len() && before[a] == j;
                            assert(r@[a] == j);
                        }
                        if r@.contains(j) {
                            let a = choose|a: int| 0 <= a < r@.len() && r@[a] == j;
                            if a >= before.len() {
                                assert(r@[a] >= base);
                            } else {
                                assert(before[a] == j);
                            }
                        }
                    } else {
                        let t = (j - base) as u64;
                        vstd::arithmetic::div_mod::lemma_fundamental_div_mod_converse(j as int, 64, q as int, t as int);
                        assert(bit_set(word, t) == bit_set(word, t));
                        assert((base + t) as usize == j);
                    }
                }
            }
            q = q + 1;
        }
        proof {
            if N > 0 {
                lemma_adjacency_word_bounds(N as int, i as int, 0);
            }
        }
        r
    }
}

/// Appends to `r`, in increasing order, `base + t` for each bit `t` set in `word`
/// with `base + t < limit`.
fn push_set_bits(word: u64, base: usize, limit: usize, r: &mut Vec<usize>)
    requires
        base + 64 <= usize::MAX,
        forall|a: int| 0 <= a < old(r)@.len() ==> #[trigger] old(r)@[a] < base,
        forall|a: int, b: int| 0 <= a < b < old(r)@.len() ==> #[trigger] old(r)@[a] < #[trigger] old(r)@[b],
    ensures
        final(r)@.len() >= old(r)@.len(),
        forall|a: int| 0 <= a < old(r)@.len() ==> #[trigger] final(r)@[a] == old(r)@[a],
        forall|a: int| old(r)@.len() <= a < final(r)@.len() ==> base <= #[trigger] final(r)@[a] < base + 64
            && final(r)@[a] < limit,
        forall|a: int, b: int| 0 <= a < b < final(r)@.len() ==> #[trigger] final(r)@[a] < #[trigger] final(r)@[b],
        forall|t: u64| t < 64 ==> (final(r)@.contains((base + t) as usize) <==> (base + t < limit
            && #[trigger] bit_set(word, t))),
{
    let ghost start = r@;
    let mut bits = word;
    while bits != 0
        invariant
            base + 64 <= usize::MAX,
            r@.len() >= start.len(),
            forall|a: int| 0 <= a < start.len() ==> #[trigger] start[a] < base,
            forall|a: int| 0 <= a < start.len() ==> #[trigger] r@[a] == start[a],
            forall|a: int| start.len() <= a < r@.len() ==> base <= #[trigger] r@[a] < base + 64 && r@[a] < limit,
            forall|a: int, b: int| 0 <= a < b < r@.len() ==> #[trigger] r@[a] < #[trigger] r@[b],
            forall|a: int, t: u64| 0 <= a < r@.len() && t < 64 && #[trigger] bit_set(bits, t) ==> #[trigger] r@[a] < base + t,
            forall|t: u64| t < 64 ==> (#[trigger] bit_set(word, t) && base + t < limit <==> (r@.contains((base + t) as usize)
                || (bit_set(bits, t) && base + t < limit))),
            forall|t: u64| t < 64 && #[trigger] bit_set(bits, t) ==> !r@.contains((base + t) as usize),
        decreases bits,
    {
        let t = bits.trailing_zeros();
        proof {
            vstd::std_specs::bits::axiom_u64_trailing_zeros(bits);
        }
        let ghost old_bits = bits;
        let ghost old_r = r@;
        let next = bits & (bits - 1);
        proof {
            assert forall|x: u64| x < 64 implies bit_set(next, x) == (x != t && bit_set(old_bits, x)) by {
                lemma_clear_lowest_bit(old_bits, t as u64, x);
            }
            lemma_clear_lowest_bit(old_bits, t as u64, 0);
        }
        bits = next;
        let v = base + t as usize;
        if v < limit {
            r.push(v);
        }
        proof {
            assert forall|a: int| 0 <= a < old_r.len() implies #[trigger] old_r[a] < base + t by {
                assert(bit_set(old_bits, t as u64));
            }
            assert forall|a: int, x: u64| 0 <= a < r@.len() && x < 64 && #[trigger] bit_set(bits, x)
                implies #[trigger] r@[a] < base + x by {
                if x < t {
                    assert((old_bits >> x) & 1u64 == 0u64);
                }
                if a < old_r.len() {
                    assert(r@[a] == old_r[a]);
                    assert(bit_set(old_bits, x));
                }
            }
            assert forall|x: u64| x < 64 implies (#[trigger] bit_set(word, x) && base + x < limit <==> (
                r@.contains((base + x) as usize) || (bit_set(bits, x) && base + x < limit))) by {
                assert(old_r.contains((base + x) as usize) ==> r@.contains((base + x) as usize)) by {
                    if old_r.contains((base + x) as usize) {
                        let a = choose|a: int| 0 <= a < old_r.len() && old_r[a] == (base + x) as usize;
                        assert(r@[a] == old_r[a]);
                    }
                }
                if r@.contains((base + x) as usize) {
                    let a = choose|a: int| 0 <= a < r@.len() && r@[a] == (base + x) as usize;
                    if a < old_r.len() {
                        assert(old_r[a] == r@[a]);
                    } else {
                        assert(r@[a] == v);
                        assert(x == t as u64);
                    }
                }
                if x == t as u64 && v < limit {
                    assert(r@[r@.len() - 1] == v);
                }
            }
            assert forall|x: u64| x < 64 && #[trigger] bit_set(bits, x) implies !r@.contains((base + x) as usize) by {
                assert(bit_set(old_bits, x));
                assert(x != t as u64);
                if r@.contains((base + x) as usize) {
                    let a = choose|a: int| 0 <= a < r@.len() && r@[a] == (base + x) as usize;
                    if a < old_r.len() {
                        assert(old_r[a] == r@[a]);
                    }
                }
            }
        }
    }
    proof {
        assert forall|t: u64| t < 64 implies (r@.contains((base + t) as usize) <==> (base + t < limit
            && #[trigger] bit_set(word, t))) by {
            lemma_zero_has_no_bits(t);
        }
    }
}

/// `add_edge(i, j, w)` records the edge `i -> j` and keeps every other recorded
/// edge and non-edge: `adjacent(i)` then lists `j`.
pub proof fn lemma_adjacency_edge_update<S, const N: usize>(
    before: FixedGraph<S, N>,
    after: FixedGraph<S, N>,
    i: int,
    j: int,
    a: int,
    b: int,
)
    requires
        before.wf(),
        0 <= i < N,
        0 <= j < N,
        after.adjacency_bits@ == before.adjacency_bits@.update(
            adjacency_word(N as int, i, j),
            before.adjacency_bits@[adjacency_word(N as int, i, j)] | (1u64 << ((j % 64) as u64)),
        ),
        0 <= a < N,
        0 <= b < N,
    ensures
        after.has_edge(a, b) == ((a == i && b == j) || before.has_edge(a, b)),
{
    lemma_adjacency_word_bounds(N as int, i, j);
    lemma_adjacency_word_bounds(N as int, a, b);
    if adjacency_word(N as int, a, b) == adjacency_word(N as int, i, j) {
        lemma_adjacency_cell_injective(N as int, i, j, a, b);
        lemma_set_bit(
            before.adjacency_bits@[adjacency_word(N as int, i, j)],
            (j % 64) as u64,
            (b % 64) as u64,
        );
    }
}

/// Every edge whose source is a vertex appears in that vertex's run: the laid-out
/// graph loses no edge of its input.
pub proof fn lemma_edge_in_run<S>(g: Graph<S>, edges: Seq<(usize, usize, S)>, k: int)
    requires
        g.holds_edges(edges),
        0 <= k < edges.len(),
        edges[k].0 < g.n,
    ensures
        exists|j: int| 0 <= j < g.neighbor_run(edges[k].0 as int).len()
            && #[trigger] g.neighbor_run(edges[k].0 as int)[j] == edges[k].1
            && g.weight_run(edges[k].0 as int)[j] == edges[k].2,
{
    let s = edges[k].0 as int;
    lemma_edge_in_bucket(edges, k);
    let j = choose|j: int| 0 <= j < bucket(edges, s).len() && #[trigger] bucket(edges, s)[j] == edges[k];
    assert(g.neighbor_run(s) == targets(bucket(edges, s)));
    assert(g.weight_run(s) == weights_of(bucket(edges, s)));
    assert(g.neighbor_run(s)[j] == edges[k].1);
}

/// Two graphs with the same CSR arrays hold the same edges.
proof fn lemma_holds_edges_same_layout<S>(g1: Graph<S>, g2: Graph<S>, edges: Seq<(usize, usize, S)>)
    requires
        g1.holds_edges(edges),
        g2.n == g1.n,
        g2.offsets@ == g1.offsets@,
        g2.neighbors@ == g1.neighbors@,
        g2.weights@ == g1.weights@,
        attribute_names_distinct(g2.attributes@),
    ensures
        g2.holds_edges(edges),
{
    assert forall|s: int| 0 <= s < g2.n implies #[trigger] g2.neighbor_run(s) == g1.neighbor_run(s)
        && g2.weight_run(s) == g1.weight_run(s) by {}
    assert forall|s: int| 0 <= s < g2.n implies #[trigger] g2.weight_run(s) == g1.weight_run(s) by {}
}

/// The values stored under `key` in an attribute list, if any.
pub open spec fn lookup_attribute<S>(attrs: Seq<(String, AlignedVec<S>)>, key: Seq<char>) -> Option<Seq<S>>
    decreases attrs.len(),
{
    if attrs.len() == 0 {
        None
    } else if attrs.last().0@ == key {
        Some(attrs.last().1@)
    } else {
        lookup_attribute(attrs.drop_last(), key)
    }
}

/// With distinct names, the entry named `key` is the one found.
pub proof fn lemma_lookup_attribute_at<S>(attrs: Seq<(String, AlignedVec<S>)>, a: int)
    requires
        attribute_names_distinct(attrs),
        0 <= a < attrs.len(),
    ensures
        lookup_attribute(attrs, attrs[a].0@) == Some(attrs[a].1@),
    decreases attrs.len(),
{
    if a < attrs.len() - 1 {
        let rest = attrs.drop_last();
        assert(attrs.last() == attrs[attrs.len() - 1]);
        assert(rest[a] == attrs[a]);
        assert(attribute_names_distinct(rest)) by {
            assert forall|x: int, y: int|
                0 <= x < rest.len() && 0 <= y < rest.len() && x != y implies #[trigger] rest[x].0@
                    != #[trigger] rest[y].0@ by {
                assert(rest[x] == attrs[x] && rest[y] == attrs[y]);
            }
        }
        lemma_lookup_attribute_at(rest, a);
    }
}

/// A name that no entry carries is not found.
pub proof fn lemma_lookup_attribute_absent<S>(attrs: Seq<(String, AlignedVec<S>)>, key: Seq<char>)
    requires
        forall|a: int| 0 <= a < attrs.len() ==> #[trigger] attrs[a].0@ != key,
    ensures
        lookup_attribute(attrs, key) is None,
    decreases attrs.len(),
{
    if attrs.len() > 0 {
        let rest = attrs.drop_last();
        assert(attrs.last() == attrs[attrs.len() - 1]);
        assert forall|a: int| 0 <= a < rest.len() implies #[trigger] rest[a].0@ != key by {
            assert(rest[a] == attrs[a]);
        }
        lemma_lookup_attribute_absent(rest, key);
    }
}

/// Stores `values` under `key`, replacing the values already stored under it.
fn insert_attribute<S>(attrs: &mut Vec<(String, AlignedVec<S>)>, key: String, values: AlignedVec<S>)
    requires
        attribute_names_distinct(old(attrs)@),
    ensures
        attribute_names_distinct(final(attrs)@),
        forall|k: Seq<char>| #[trigger] lookup_attribute(final(attrs)@, k)
            == if k == key@ { Some(values@) } else { lookup_attribute(old(attrs)@, k) },
{
    let ghost before = attrs@;
    let len = attrs.len();
    let mut a: usize = 0;
    while a < len
        invariant
            attrs@ == before,
            before == old(attrs)@,
            attribute_names_distinct(before),
            len == before.len(),
            a <= len,
            forall|b: int| 0 <= b < a ==> #[trigger] before[b].0@ != key@,
        decreases len - a,
    {
        if attrs[a].0 == key {
            let ghost key_view = key@;
            let ghost vals_view = values@;
            attrs.set(a, (key, values));
            proof {
                let after = attrs@;
                assert forall|x: int, y: int|
                    0 <= x < after.len() && 0 <= y < after.len() && x != y implies #[trigger] after[x].0@
                        != #[trigger] after[y].0@ by {
                    if x != a && y != a {
                        assert(after[x] == before[x] && after[y] == before[y]);
                    } else if x == a {
                        assert(after[y] == before[y]);
                    } else {
                        assert(after[x] == before[x]);
                    }
                }
                assert forall|k: Seq<char>| #[trigger] lookup_attribute(after, k)
                    == if k == key_view { Some(vals_view) } else { lookup_attribute(before, k) } by {
                    if k == key_view {
                        lemma_lookup_attribute_at(after, a as int);
                    } else if exists|b: int| 0 <= b < before.len() && #[trigger] before[b].0@ == k {
                        let b = choose|b: int| 0 <= b < before.len() && #[trigger] before[b].0@ == k;
                        assert(b != a);
                        assert(after[b] == before[b]);
                        lemma_lookup_attribute_at(after, b);
                        lemma_lookup_attribute_at(before, b);
                    } else {
                        lemma_lookup_attribute_absent(before, k);
                        assert forall|c: int| 0 <= c < after.len() implies #[trigger] after[c].0@ != k by {
                            if c != a {
                                assert(after[c] == before[c]);
                            }
                        }
                        lemma_lookup_attribute_absent(after, k);
                    }
                }
            }
            return;
        }
        a = a + 1;
    }
    let ghost key_view = key@;
    let ghost vals_view = values@;
    attrs.push((key, values));
    proof {
        let after = attrs@;
        assert forall|x: int, y: int|
            0 <= x < after.len() && 0 <= y < after.len() && x != y implies #[trigger] after[x].0@
                != #[trigger] after[y].0@ by {
            if x < len && y < len {
                assert(after[x] == before[x] && after[y] == before[y]);
            } else if x < len {
                assert(after[x] == before[x]);
            } else {
                assert(after[y] == before[y]);
            }
        }
        assert(after.drop_last() =~= before);
    }
}

/// No attribute name occurs twice.
pub open spec fn attribute_names_distinct<S>(attrs: Seq<(String, AlignedVec<S>)>) -> bool {
    forall|a: int, b: int|
        0 <= a < attrs.len() && 0 <= b < attrs.len() && a != b ==> #[trigger] attrs[a].0@
            != #[trigger] attrs[b].0@
}

} // verus!
