use vstd::prelude::*;

verus! {

/// One weighted edge between two vertex ids, stored in the direction it was
/// written. Weights are fixed-point numbers: the stored `i64` counts
/// thousandths of a weight unit, so a textual weight `1.5` is stored as 1500.
#[derive(Clone, Copy, Debug)]
pub struct Edge {
    pub source: usize,
    pub target: usize,
    pub weight: i64,
}

/// A weighted multigraph over dense vertex ids `0 .. labels.len()`.
///
/// Vertex `v` carries the label `labels[v]`; labels are pairwise distinct, so
/// each label names exactly one id. `edges` keeps the edges in insertion
/// order; parallel edges are allowed. When `directed` is false every edge may
/// be walked in either direction. The graph is immutable once built.
#[derive(Debug)]
pub struct Graph {
    pub labels: Vec<String>,
    pub edges: Vec<Edge>,
    pub directed: bool,
}

impl Graph {
    /// Number of vertices.
    pub open spec fn n(self) -> int {
        self.labels@.len() as int
    }

    /// Number of edges.
    pub open spec fn m(self) -> int {
        self.edges@.len() as int
    }

    /// The labels as character sequences, by vertex id.
    pub open spec fn labels_view(self) -> Seq<Seq<char>> {
        strings_view(self.labels@)
    }

    /// No two vertices carry the same label.
    pub open spec fn labels_distinct(self) -> bool {
        distinct_seqs(self.labels_view())
    }

    /// Every edge references existing vertex ids.
    pub open spec fn edges_in_range(self) -> bool {
        forall|k: int|
            0 <= k < self.m() ==> (#[trigger] self.edges@[k]).source < self.n()
                && self.edges@[k].target < self.n()
    }

    /// Well-formedness: the structural invariants plus a capacity bound.
    /// The capacity bound says that the absolute weights of all edges sum to
    /// at most `i64::MAX`, so the weight of any path (which uses each edge at
    /// most once) is representable.
    pub open spec fn wf(self) -> bool {
        &&& self.labels_distinct()
        &&& self.edges_in_range()
        &&& usable_abs(self, Set::<int>::empty(), 0) <= i64::MAX
    }
}

/// Absolute value of an `i64`, as a mathematical integer.
pub open spec fn abs_i64(w: i64) -> int {
    if w < 0 {
        -(w as int)
    } else {
        w as int
    }
}

/// The views of a sequence of strings.
pub open spec fn strings_view(ss: Seq<String>) -> Seq<Seq<char>> {
    ss.map_values(|s: String| s@)
}

/// All entries pairwise different.
pub open spec fn distinct_seqs(ls: Seq<Seq<char>>) -> bool {
    forall|i: int, j: int| 0 <= i < j < ls.len() ==> ls[i] != ls[j]
}

/// The position of the first entry equal to `l`, or `labels.len()` if none is.
pub open spec fn label_index(labels: Seq<Seq<char>>, l: Seq<char>) -> int
    decreases labels.len(),
{
    if labels.len() == 0 {
        0
    } else if labels[0] == l {
        0
    } else {
        1 + label_index(labels.drop_first(), l)
    }
}

/// Whether some entry equals `l`.
pub open spec fn has_label(labels: Seq<Seq<char>>, l: Seq<char>) -> bool {
    label_index(labels, l) < labels.len()
}

/// `label_index` is where the first match sits.
pub proof fn lemma_label_index_at(labels: Seq<Seq<char>>, l: Seq<char>, j: int)
    requires
        0 <= j <= labels.len(),
        forall|i: int| 0 <= i < j ==> labels[i] != l,
        j == labels.len() || labels[j] == l,
    ensures
        label_index(labels, l) == j,
    decreases j,
{
    if j > 0 {
        lemma_label_index_at(labels.drop_first(), l, j - 1);
    }
}

/// A present label sits at its index.
pub proof fn lemma_label_index_found(labels: Seq<Seq<char>>, l: Seq<char>)
    requires
        has_label(labels, l),
    ensures
        0 <= label_index(labels, l) < labels.len(),
        labels[label_index(labels, l)] == l,
    decreases labels.len(),
{
    if labels.len() > 0 && labels[0] != l {
        lemma_label_index_found(labels.drop_first(), l);
    }
}

/// Edge `k` can be walked from vertex `u` (from its source, or from its
/// target as well when the graph is undirected).
pub open spec fn steps_from(g: Graph, k: int, u: int) -> bool {
    g.edges@[k].source == u || (!g.directed && g.edges@[k].target == u)
}

/// The vertex reached when edge `k` is walked from `u`.
pub open spec fn step_target(g: Graph, k: int, u: int) -> int {
    if g.edges@[k].source == u {
        g.edges@[k].target as int
    } else {
        g.edges@[k].source as int
    }
}

/// Edge `k` joins `u` to `t`, respecting direction on a directed graph.
pub open spec fn connects(g: Graph, k: int, u: int, t: int) -> bool {
    (g.edges@[k].source == u && g.edges@[k].target == t) || (!g.directed
        && g.edges@[k].target == u && g.edges@[k].source == t)
}

/// No two edges join the same ordered vertex pair (in either direction when
/// the graph is undirected): a consecutive pair then determines its edge.
pub open spec fn no_parallel(g: Graph) -> bool {
    forall|k1: int, k2: int, u: int, t: int|
        #![trigger connects(g, k1, u, t), connects(g, k2, u, t)]
        0 <= k1 < g.m() && 0 <= k2 < g.m() && connects(g, k1, u, t) && connects(g, k2, u, t)
            ==> k1 == k2
}

/// `p` is a sequence of edge ids forming a simple path that starts at vertex
/// `u` and avoids the vertices in `v`; `v` already contains `u`, so no vertex
/// is used twice.
pub open spec fn path_from(g: Graph, u: int, p: Seq<int>, v: Set<int>) -> bool
    decreases p.len(),
{
    p.len() == 0 || {
        let k = p[0];
        &&& 0 <= k < g.m()
        &&& steps_from(g, k, u)
        &&& !v.contains(step_target(g, k, u))
        &&& path_from(
            g,
            step_target(g, k, u),
            p.drop_first(),
            v.insert(step_target(g, k, u)),
        )
    }
}

/// Total weight of a sequence of edge ids.
pub open spec fn path_weight(g: Graph, p: Seq<int>) -> int
    decreases p.len(),
{
    if p.len() == 0 {
        0
    } else {
        g.edges@[p[0]].weight + path_weight(g, p.drop_first())
    }
}

/// Absolute value of a mathematical integer.
pub open spec fn abs_int(w: int) -> int {
    if w < 0 {
        -w
    } else {
        w
    }
}

/// The edges as triples (source, target, weight in thousandths).
pub open spec fn edges_view(es: Seq<Edge>) -> Seq<(int, int, int)> {
    es.map_values(|e: Edge| (e.source as int, e.target as int, e.weight as int))
}

/// Sum of the absolute weights of the edge triples from position `i` on.
pub open spec fn edges_abs_from(es: Seq<(int, int, int)>, i: int) -> int
    decreases es.len() - i,
{
    if i < 0 || i >= es.len() {
        0
    } else {
        abs_int(es[i].2) + edges_abs_from(es, i + 1)
    }
}

/// Appending an edge adds its absolute weight to the sum.
pub proof fn lemma_edges_abs_push(es: Seq<(int, int, int)>, e: (int, int, int), i: int)
    requires
        0 <= i <= es.len(),
    ensures
        edges_abs_from(es.push(e), i) == edges_abs_from(es, i) + abs_int(e.2),
    decreases es.len() - i,
{
    if i < es.len() {
        lemma_edges_abs_push(es, e, i + 1);
    } else {
        assert(edges_abs_from(es.push(e), i + 1) == 0);
    }
}

/// With no vertex used yet, every edge is usable: the capacity budget is the
/// total of the absolute weights.
pub proof fn lemma_usable_abs_all(g: Graph, i: int)
    ensures
        usable_abs(g, Set::<int>::empty(), i) == edges_abs_from(edges_view(g.edges@), i),
    decreases g.m() - i,
{
    if 0 <= i < g.m() {
        lemma_usable_abs_all(g, i + 1);
    }
}

/// Edge `k` is still usable while some endpoint lies outside `v`: a simple
/// path whose used vertices are exactly `v` can still traverse it.
pub open spec fn usable(g: Graph, k: int, v: Set<int>) -> bool {
    !v.contains(g.edges@[k].source as int) || !v.contains(g.edges@[k].target as int)
}

/// Sum of the absolute weights of the usable edges with id `>= i`.
pub open spec fn usable_abs(g: Graph, v: Set<int>, i: int) -> int
    decreases g.m() - i,
{
    if i < 0 || i >= g.m() {
        0
    } else {
        (if usable(g, i, v) {
            abs_i64(g.edges@[i].weight)
        } else {
            0
        }) + usable_abs(g, v, i + 1)
    }
}

/// The usable-weight budget is never negative.
pub proof fn lemma_usable_abs_nonneg(g: Graph, v: Set<int>, i: int)
    ensures
        usable_abs(g, v, i) >= 0,
    decreases g.m() - i,
{
    if 0 <= i < g.m() {
        lemma_usable_abs_nonneg(g, v, i + 1);
    }
}

/// A single usable edge weighs no more than the whole budget.
pub proof fn lemma_usable_abs_ge_edge(g: Graph, v: Set<int>, i: int, k: int)
    requires
        0 <= i <= k < g.m(),
        usable(g, k, v),
    ensures
        abs_i64(g.edges@[k].weight) <= usable_abs(g, v, i),
    decreases g.m() - i,
{
    lemma_usable_abs_nonneg(g, v, i + 1);
    if i < k {
        lemma_usable_abs_ge_edge(g, v, i + 1, k);
        lemma_usable_abs_nonneg(g, v, i);
        assert(usable_abs(g, v, i) >= usable_abs(g, v, i + 1));
    }
}

/// Growing the used-vertex set can only shrink the budget.
pub proof fn lemma_usable_abs_mono(g: Graph, v1: Set<int>, v2: Set<int>, i: int)
    requires
        v1.subset_of(v2),
    ensures
        usable_abs(g, v2, i) <= usable_abs(g, v1, i),
    decreases g.m() - i,
{
    if 0 <= i < g.m() {
        lemma_usable_abs_mono(g, v1, v2, i + 1);
    }
}

/// When growing the used-vertex set retires edge `k`, the budget shrinks by
/// at least that edge's weight.
pub proof fn lemma_usable_abs_retire(g: Graph, v1: Set<int>, v2: Set<int>, i: int, k: int)
    requires
        v1.subset_of(v2),
        0 <= i <= k < g.m(),
        usable(g, k, v1),
        !usable(g, k, v2),
    ensures
        usable_abs(g, v2, i) + abs_i64(g.edges@[k].weight) <= usable_abs(g, v1, i),
    decreases g.m() - i,
{
    if i == k {
        lemma_usable_abs_mono(g, v1, v2, i + 1);
    } else {
        lemma_usable_abs_retire(g, v1, v2, i + 1, k);
    }
}

} // verus!
