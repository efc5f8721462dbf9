use vstd::prelude::*;

use crate::graph::Graph;
use vstd::string::StringExecFns;

verus! {

/// The node sequence obtained by walking the edges from `prev`: each step
/// moves to the edge's other endpoint (or to its target when `prev` is on
/// neither side, following the edge's stored orientation).
pub open spec fn walk_nodes(g: Graph, prev: int, p: Seq<int>) -> Seq<int>
    decreases p.len(),
{
    if p.len() == 0 {
        Seq::<int>::empty()
    } else {
        let x = g.edges@[p[0]].source as int;
        let y = g.edges@[p[0]].target as int;
        let nxt = if x == prev {
            y
        } else {
            x
        };
        seq![nxt] + walk_nodes(g, nxt, p.drop_first())
    }
}

proof fn lemma_walk_nodes_len(g: Graph, prev: int, p: Seq<int>)
    ensures
        walk_nodes(g, prev, p).len() == p.len(),
    decreases p.len(),
{
    if p.len() > 0 {
        let x = g.edges@[p[0]].source as int;
        let y = g.edges@[p[0]].target as int;
        let nxt = if x == prev {
            y
        } else {
            x
        };
        lemma_walk_nodes_len(g, nxt, p.drop_first());
    }
}

/// The starting vertex a non-empty edge sequence is read from: for a single
/// edge its source; otherwise the endpoint of the first edge that the second
/// edge does not share.
pub open spec fn walk_start(g: Graph, p: Seq<int>) -> int {
    if p.len() <= 1 {
        g.edges@[p[0]].source as int
    } else {
        let a = g.edges@[p[0]].source as int;
        let b = g.edges@[p[0]].target as int;
        let c = g.edges@[p[1]].source as int;
        let d = g.edges@[p[1]].target as int;
        if a == c || a == d {
            b
        } else {
            a
        }
    }
}

/// The vertex ids a path of edge ids passes through, starting vertex first.
/// An empty path gives an empty sequence.
pub fn edge_path_to_nodes(path: &Vec<usize>, g: &Graph) -> (r: Vec<usize>)
    requires
        forall|i: int| 0 <= i < path@.len() ==> (#[trigger] path@[i] as int) < g.m(),
        g.edges_in_range(),
    ensures
        ({
            let pm = path@.map_values(|k: usize| k as int);
            if path@.len() == 0 {
                r@.len() == 0
            } else {
                r@.map_values(|v: usize| v as int) == seq![walk_start(*g, pm)] + walk_nodes(
                    *g,
                    walk_start(*g, pm),
                    pm,
                )
            }
        }),
{
    let ghost pm = path@.map_values(|k: usize| k as int);
    let plen: usize = path.len();
    let mut r: Vec<usize> = Vec::new();
    if plen == 0 {
        return r;
    }
    let e0 = g.edges[path[0]];
    let start: usize = if plen == 1 {
        e0.source
    } else {
        let e1 = g.edges[path[1]];
        if e0.source == e1.source || e0.source == e1.target {
            e0.target
        } else {
            e0.source
        }
    };
    r.push(start);
    let mut prev: usize = start;
    let mut i: usize = 0;
    proof {
        assert(r@.map_values(|v: usize| v as int) =~= seq![walk_start(*g, pm)]);
        assert(pm.skip(0) =~= pm);
    }
    while i < plen
        invariant
            plen == path@.len(),
            pm == path@.map_values(|k: usize| k as int),
            forall|l: int| 0 <= l < path@.len() ==> (#[trigger] path@[l] as int) < g.m(),
            g.edges_in_range(),
            i <= plen,
            r@.len() == i + 1,
            r@[i as int] == prev,
            r@.map_values(|v: usize| v as int) == seq![walk_start(*g, pm)] + walk_nodes(
                *g,
                walk_start(*g, pm),
                pm,
            ).take(i as int),
            walk_nodes(*g, walk_start(*g, pm), pm).skip(i as int) == walk_nodes(
                *g,
                prev as int,
                pm.skip(i as int),
            ),
        decreases plen - i,
    {
        let e = g.edges[path[i]];
        let nxt: usize = if e.source == prev {
            e.target
        } else {
            e.source
        };
        proof {
            let full = walk_nodes(*g, walk_start(*g, pm), pm);
            lemma_walk_nodes_len(*g, walk_start(*g, pm), pm);
            lemma_walk_nodes_len(*g, prev as int, pm.skip(i as int));
            lemma_walk_nodes_len(*g, nxt as int, pm.skip(i as int + 1));
            assert(pm.skip(i as int)[0] == pm[i as int]);
            assert(pm.skip(i as int).drop_first() =~= pm.skip(i as int + 1));
            assert(walk_nodes(*g, prev as int, pm.skip(i as int)) == seq![nxt as int]
                + walk_nodes(*g, nxt as int, pm.skip(i as int + 1)));
            assert(full.skip(i as int)[0] == full[i as int]);
            assert(full[i as int] == nxt as int);
            assert(full.skip(i as int).drop_first() =~= full.skip(i as int + 1));
            assert(full.take(i as int + 1) =~= full.take(i as int).push(nxt as int));
            assert((r@.push(nxt)).map_values(|v: usize| v as int) =~= r@.map_values(
                |v: usize| v as int,
            ).push(nxt as int));
            assert(r@.map_values(|v: usize| v as int).push(nxt as int) =~= seq![
                walk_start(*g, pm),
            ] + full.take(i as int).push(nxt as int));
        }
        r.push(nxt);
        prev = nxt;
        i = i + 1;
    }
    proof {
        let full = walk_nodes(*g, walk_start(*g, pm), pm);
        lemma_walk_nodes_len(*g, walk_start(*g, pm), pm);
        assert(full.take(plen as int) =~= full);
    }
    r
}

/// Which vertices and edges a path touches: the membership behind the two
/// color functions handed to the renderer.
pub struct Highlight {
    pub node_marks: Vec<bool>,
    pub edge_marks: Vec<bool>,
}

/// Edge `k` of the path touches vertex `v`.
pub open spec fn touches(g: Graph, p: Seq<usize>, v: int) -> bool {
    exists|i: int|
        0 <= i < p.len() && ((#[trigger] g.edges@[p[i] as int]).source == v || g.edges@[p[i]
            as int].target == v)
}

/// Classify the graph's vertices and edges against a path: a mark means the
/// element lies on the path. Pure; the renderer reads the marks through the
/// two color functions below.
pub fn path_highlighter(path: &Vec<usize>, g: &Graph) -> (r: Highlight)
    requires
        forall|i: int| 0 <= i < path@.len() ==> (#[trigger] path@[i] as int) < g.m(),
        g.edges_in_range(),
    ensures
        r.node_marks@.len() == g.n(),
        r.edge_marks@.len() == g.m(),
        forall|k: int|
            0 <= k < g.m() ==> ((#[trigger] r.edge_marks@[k]) <==> (exists|j: int|
                0 <= j < path@.len() && path@[j] == k as usize)),
        forall|v: int| 0 <= v < g.n() ==> (r.node_marks@[v] <==> touches(*g, path@, v)),
{
    let n: usize = g.labels.len();
    let m: usize = g.edges.len();
    let mut node_marks: Vec<bool> = Vec::new();
    let mut edge_marks: Vec<bool> = Vec::new();
    let mut a: usize = 0;
    while a < n
        invariant
            a <= n,
            node_marks@ =~= Seq::new(a as nat, |v: int| false),
        decreases n - a,
    {
        node_marks.push(false);
        a = a + 1;
    }
    let mut b: usize = 0;
    while b < m
        invariant
            b <= m,
            edge_marks@ =~= Seq::new(b as nat, |v: int| false),
        decreases m - b,
    {
        edge_marks.push(false);
        b = b + 1;
    }
    let plen: usize = path.len();
    let mut i: usize = 0;
    while i < plen
        invariant
            plen == path@.len(),
            n == g.n(),
            m == g.m(),
            forall|l: int| 0 <= l < path@.len() ==> (#[trigger] path@[l] as int) < g.m(),
            g.edges_in_range(),
            i <= plen,
            node_marks@.len() == n,
            edge_marks@.len() == m,
            forall|k: int|
                0 <= k < m ==> (edge_marks@[k] <==> (exists|j: int|
                    0 <= j < i && path@[j] == k as usize)),
            forall|v: int|
                0 <= v < n ==> (node_marks@[v] <==> (exists|j: int|
                    0 <= j < i && ((#[trigger] g.edges@[path@[j] as int]).source == v
                        || g.edges@[path@[j] as int].target == v))),
        decreases plen - i,
    {
        let ghost old_edge_marks = edge_marks@;
        let ghost old_node_marks = node_marks@;
        let k = path[i];
        let e = g.edges[k];
        edge_marks.set(k, true);
        node_marks.set(e.source, true);
        node_marks.set(e.target, true);
        proof {
            assert forall|kk: int|
                0 <= kk < m implies (edge_marks@[kk] <==> (exists|j: int|
                0 <= j < i + 1 && path@[j] == kk as usize)) by {
                if kk == k as int {
                    assert(path@[i as int] == kk as usize);
                } else {
                    if edge_marks@[kk] {
                        assert(old_edge_marks[kk]);
                        let j = choose|j: int| 0 <= j < i && path@[j] == kk as usize;
                        assert(0 <= j < i + 1 && path@[j] == kk as usize);
                    }
                    if exists|j: int| 0 <= j < i + 1 && path@[j] == kk as usize {
                        let j = choose|j: int| 0 <= j < i + 1 && path@[j] == kk as usize;
                        assert(j < i);
                        assert(old_edge_marks[kk]);
                    }
                }
            }
            assert forall|v: int|
                0 <= v < n implies (node_marks@[v] <==> (exists|j: int|
                0 <= j < i + 1 && ((#[trigger] g.edges@[path@[j] as int]).source == v
                    || g.edges@[path@[j] as int].target == v))) by {
                if v == e.source as int || v == e.target as int {
                    let pi = path@[i as int] as int;
                    assert(g.edges@[pi].source == v || g.edges@[pi].target == v);
                } else {
                    if node_marks@[v] {
                        assert(old_node_marks[v]);
                        let j = choose|j: int|
                            0 <= j < i && (g.edges@[path@[j] as int].source == v
                                || g.edges@[path@[j] as int].target == v);
                        assert(0 <= j < i + 1 && (g.edges@[path@[j] as int].source == v
                            || g.edges@[path@[j] as int].target == v));
                    }
                    if exists|j: int|
                        0 <= j < i + 1 && (g.edges@[path@[j] as int].source == v
                            || g.edges@[path@[j] as int].target == v) {
                        let j = choose|j: int|
                            0 <= j < i + 1 && (g.edges@[path@[j] as int].source == v
                                || g.edges@[path@[j] as int].target == v);
                        assert(j < i);
                        assert(old_node_marks[v]);
                    }
                }
            }
        }
        i = i + 1;
    }
    Highlight { node_marks, edge_marks }
}

impl Highlight {
    /// The color the renderer paints vertex `v` with.
    pub fn node_color(&self, v: usize) -> (c: String)
        requires
            v < self.node_marks@.len(),
        ensures
            self.node_marks@[v as int] ==> c@ == "#0000ff"@,
            !self.node_marks@[v as int] ==> c@ == "#000000"@,
    {
        if self.node_marks[v] {
            String::from_str("#0000ff")
        } else {
            String::from_str("#000000")
        }
    }

    /// The color the renderer paints edge `k` with.
    pub fn edge_color(&self, k: usize) -> (c: String)
        requires
            k < self.edge_marks@.len(),
        ensures
            self.edge_marks@[k as int] ==> c@ == "#0000ff"@,
            !self.edge_marks@[k as int] ==> c@ == "#000000"@,
    {
        if self.edge_marks[k] {
            String::from_str("#0000ff")
        } else {
            String::from_str("#000000")
        }
    }
}

} // verus!
