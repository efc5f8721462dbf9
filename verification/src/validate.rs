use vstd::prelude::*;

use crate::bits::{bits_get, bits_of, bits_repeat, bits_set, BitSet};
use crate::graph::{
    connects, has_label, label_index, lemma_label_index_at, lemma_label_index_found, strings_view,
    Graph,
};

verus! {

/// Why a requested vertex sequence is rejected. Checks run left to right and
/// the first violation wins.
#[derive(Debug, PartialEq)]
pub enum ParsePathError {
    /// The named label is not a vertex of the graph.
    InvalidVertex(String),
    /// The named label occurs more than once in the request.
    DuplicateVertex(String),
    /// No edge joins the two named consecutive labels.
    NonexistentEdge(String, String),
    /// The request holds fewer than two labels (the count is carried).
    EmptyPath(usize),
}

/// The label names a vertex.
pub open spec fn vertex_ok(g: Graph, l: Seq<char>) -> bool {
    has_label(g.labels_view(), l)
}

/// The label at `p` repeats an earlier one.
pub open spec fn dup_at(ls: Seq<Seq<char>>, p: int) -> bool {
    exists|j: int| 0 <= j < p && ls[j] == ls[p]
}

/// Position `p` violates the vertex checks.
pub open spec fn bad_at(g: Graph, ls: Seq<Seq<char>>, p: int) -> bool {
    !vertex_ok(g, ls[p]) || dup_at(ls, p)
}

/// The first violating position at or after `i`, or `ls.len()`.
pub open spec fn first_bad(g: Graph, ls: Seq<Seq<char>>, i: int) -> int
    decreases ls.len() - i,
{
    if i < 0 || i >= ls.len() {
        ls.len() as int
    } else if bad_at(g, ls, i) {
        i
    } else {
        first_bad(g, ls, i + 1)
    }
}

pub proof fn lemma_first_bad_at(g: Graph, ls: Seq<Seq<char>>, i: int, j: int)
    requires
        0 <= i <= j <= ls.len(),
        forall|l: int| i <= l < j ==> !bad_at(g, ls, l),
        j == ls.len() || bad_at(g, ls, j),
    ensures
        first_bad(g, ls, i) == j,
    decreases j - i,
{
    if i < j {
        lemma_first_bad_at(g, ls, i + 1, j);
    }
}

/// The lowest edge id at or after `k` joining `a` to `b`, or `g.m()`.
pub open spec fn pair_edge(g: Graph, a: int, b: int, k: int) -> int
    decreases g.m() - k,
{
    if k < 0 || k >= g.m() {
        g.m()
    } else if connects(g, k, a, b) {
        k
    } else {
        pair_edge(g, a, b, k + 1)
    }
}

proof fn lemma_pair_edge_at(g: Graph, a: int, b: int, k: int, j: int)
    requires
        0 <= k <= j <= g.m(),
        forall|l: int| k <= l < j ==> !connects(g, l, a, b),
        j == g.m() || connects(g, j, a, b),
    ensures
        pair_edge(g, a, b, k) == j,
    decreases j - k,
{
    if k < j {
        lemma_pair_edge_at(g, a, b, k + 1, j);
    }
}

/// The vertex ids the labels name (`g.n()` marks an absent label).
pub open spec fn ids_of(g: Graph, ls: Seq<Seq<char>>) -> Seq<int> {
    ls.map_values(|l: Seq<char>| label_index(g.labels_view(), l))
}

/// The first consecutive pair at or after `i` with no joining edge, or
/// `ids.len() - 1`.
pub open spec fn first_missing(g: Graph, ids: Seq<int>, i: int) -> int
    decreases ids.len() - i,
{
    if i < 0 || i >= ids.len() - 1 {
        ids.len() - 1
    } else if pair_edge(g, ids[i], ids[i + 1], 0) == g.m() {
        i
    } else {
        first_missing(g, ids, i + 1)
    }
}

pub proof fn lemma_first_missing_at(g: Graph, ids: Seq<int>, i: int, j: int)
    requires
        0 <= i <= j <= ids.len() - 1,
        forall|l: int| i <= l < j ==> #[trigger] pair_edge(g, ids[l], ids[l + 1], 0) != g.m(),
        j == ids.len() - 1 || pair_edge(g, ids[j], ids[j + 1], 0) == g.m(),
    ensures
        first_missing(g, ids, i) == j,
    decreases j - i,
{
    if i < j {
        lemma_first_missing_at(g, ids, i + 1, j);
    }
}

fn find_label(labels: &Vec<String>, t: &String) -> (r: usize)
    ensures
        r as int == label_index(strings_view(labels@), t@),
        r <= labels@.len(),
{
    let nl: usize = labels.len();
    let mut i: usize = 0;
    while i < nl
        invariant
            nl == labels@.len(),
            i <= nl,
            forall|l: int| 0 <= l < i ==> strings_view(labels@)[l] != t@,
        decreases nl - i,
    {
        if labels[i] == *t {
            proof {
                lemma_label_index_at(strings_view(labels@), t@, i as int);
            }
            return i;
        }
        i = i + 1;
    }
    proof {
        lemma_label_index_at(strings_view(labels@), t@, nl as int);
    }
    nl
}

fn find_pair_edge(g: &Graph, a: usize, b: usize) -> (r: usize)
    ensures
        r as int == pair_edge(*g, a as int, b as int, 0),
        r <= g.m(),
{
    let m: usize = g.edges.len();
    let mut k: usize = 0;
    while k < m
        invariant
            m == g.m(),
            k <= m,
            forall|l: int| 0 <= l < k ==> !connects(*g, l, a as int, b as int),
        decreases m - k,
    {
        let e = g.edges[k];
        if (e.source == a && e.target == b) || (!g.directed && e.target == a && e.source == b) {
            proof {
                lemma_pair_edge_at(*g, a as int, b as int, 0, k as int);
            }
            return k;
        }
        k = k + 1;
    }
    proof {
        lemma_pair_edge_at(*g, a as int, b as int, 0, m as int);
    }
    m
}

/// Map a requested sequence of vertex labels onto edge ids of the graph.
/// The checks run in order: at least two labels, every label a vertex, no
/// label twice, and an edge for every consecutive pair (in either direction
/// on an undirected graph). The result walks the requested vertices; with
/// parallel edges the lowest joining edge id is picked.
pub fn parse_path(path: &Vec<String>, g: &Graph) -> (r: Result<Vec<usize>, ParsePathError>)
    ensures
        ({
            let ls = strings_view(path@);
            let ids = ids_of(*g, ls);
            match r {
                Ok(es) => {
                    &&& ls.len() >= 2
                    &&& first_bad(*g, ls, 0) == ls.len()
                    &&& first_missing(*g, ids, 0) == ls.len() - 1
                    &&& es@.len() == ls.len() - 1
                    &&& forall|i: int|
                        0 <= i < ls.len() - 1 ==> (#[trigger] es@[i]) as int == pair_edge(
                            *g,
                            ids[i],
                            ids[i + 1],
                            0,
                        )
                },
                Err(ParsePathError::EmptyPath(c)) => ls.len() < 2 && c == ls.len(),
                Err(ParsePathError::InvalidVertex(v)) => {
                    let p = first_bad(*g, ls, 0);
                    &&& ls.len() >= 2
                    &&& p < ls.len()
                    &&& !vertex_ok(*g, ls[p])
                    &&& v@ == ls[p]
                },
                Err(ParsePathError::DuplicateVertex(v)) => {
                    let p = first_bad(*g, ls, 0);
                    &&& ls.len() >= 2
                    &&& p < ls.len()
                    &&& vertex_ok(*g, ls[p])
                    &&& dup_at(ls, p)
                    &&& v@ == ls[p]
                },
                Err(ParsePathError::NonexistentEdge(a, b)) => {
                    let q = first_missing(*g, ids, 0);
                    &&& ls.len() >= 2
                    &&& first_bad(*g, ls, 0) == ls.len()
                    &&& q < ls.len() - 1
                    &&& a@ == ls[q]
                    &&& b@ == ls[q + 1]
                },
            }
        }),
{
    let ghost ls = strings_view(path@);
    let plen: usize = path.len();
    if plen < 2 {
        return Err(ParsePathError::EmptyPath(plen));
    }
    let n: usize = g.labels.len();
    let mut visited = bits_repeat(false, n);
    let mut ids: Vec<usize> = Vec::new();
    let mut p: usize = 0;
    while p < plen
        invariant
            ls == strings_view(path@),
            plen == path@.len(),
            plen >= 2,
            n == g.labels@.len(),
            p <= plen,
            ids@.len() == p,
            bits_of(visited).len() == n,
            forall|i: int|
                0 <= i < p ==> (#[trigger] ids@[i]) as int == label_index(
                    g.labels_view(),
                    ls[i],
                ),
            forall|i: int| 0 <= i < p ==> (ids@[i] as int) < n,
            forall|i: int| 0 <= i < p ==> !bad_at(*g, ls, i),
            forall|v: int|
                0 <= v < n ==> (bits_of(visited)[v] <==> (exists|i: int|
                    0 <= i < p && ids@[i] == v)),
        decreases plen - p,
    {
        let idx = find_label(&g.labels, &path[p]);
        proof {
            assert(ls[p as int] == path@[p as int]@);
        }
        if idx == n {
            proof {
                assert(!vertex_ok(*g, ls[p as int]));
                assert(bad_at(*g, ls, p as int));
                lemma_first_bad_at(*g, ls, 0, p as int);
            }
            return Err(ParsePathError::InvalidVertex(path[p].clone()));
        }
        proof {
            lemma_label_index_found(g.labels_view(), ls[p as int]);
        }
        if bits_get(&visited, idx) {
            proof {
                let i = choose|i: int| 0 <= i < p && ids@[i] == idx;
                lemma_label_index_found(g.labels_view(), ls[i]);
                assert(ls[i] == ls[p as int]);
                assert(dup_at(ls, p as int));
                lemma_first_bad_at(*g, ls, 0, p as int);
            }
            return Err(ParsePathError::DuplicateVertex(path[p].clone()));
        }
        proof {
            if dup_at(ls, p as int) {
                let j = choose|j: int| 0 <= j < p && ls[j] == ls[p as int];
                assert(ids@[j] as int == label_index(g.labels_view(), ls[j]));
                assert(ids@[j] == idx);
            }
            assert(!bad_at(*g, ls, p as int));
        }
        let ghost prev_bits = bits_of(visited);
        let ghost prev_ids = ids@;
        bits_set(&mut visited, idx, true);
        ids.push(idx);
        proof {
            assert forall|v: int|
                0 <= v < n implies ((bits_of(visited)[v]) <==> (exists|i: int|
                0 <= i < p + 1 && ids@[i] == v)) by {
                if v == idx as int {
                    assert(ids@[p as int] == v);
                } else {
                    if bits_of(visited)[v] {
                        assert(prev_bits[v]);
                        let i = choose|i: int| 0 <= i < p && prev_ids[i] == v;
                        assert(ids@[i] == v);
                    }
                    if exists|i: int| 0 <= i < p + 1 && ids@[i] == v {
                        let i = choose|i: int| 0 <= i < p + 1 && ids@[i] == v;
                        assert(i < p);
                        assert(prev_ids[i] == v);
                        assert(prev_bits[v]);
                    }
                }
            }
        }
        p = p + 1;
    }
    proof {
        lemma_first_bad_at(*g, ls, 0, plen as int);
    }
    let mut es: Vec<usize> = Vec::new();
    let mut q: usize = 0;
    let ghost idseq = ids_of(*g, ls);
    proof {
        assert(idseq.len() == plen);
        assert(forall|i: int| 0 <= i < plen ==> idseq[i] == (#[trigger] ids@[i]) as int);
    }
    while q + 1 < plen
        invariant
            ls == strings_view(path@),
            plen == path@.len(),
            plen >= 2,
            first_bad(*g, ls, 0) == plen as int,
            idseq == ids_of(*g, ls),
            idseq.len() == plen,
            ids@.len() == plen,
            forall|i: int| 0 <= i < plen ==> idseq[i] == (#[trigger] ids@[i]) as int,
            q <= plen - 1,
            es@.len() == q,
            forall|i: int|
                0 <= i < q ==> (#[trigger] es@[i]) as int == pair_edge(
                    *g,
                    idseq[i],
                    idseq[i + 1],
                    0,
                ),
            forall|i: int|
                0 <= i < q ==> #[trigger] pair_edge(*g, idseq[i], idseq[i + 1], 0) != g.m(),
        decreases plen - q,
    {
        let found = find_pair_edge(g, ids[q], ids[q + 1]);
        if found == g.edges.len() {
            proof {
                lemma_first_missing_at(*g, idseq, 0, q as int);
                assert(ls[q as int] == path@[q as int]@);
                assert(ls[q as int + 1] == path@[q as int + 1]@);
            }
            return Err(
                ParsePathError::NonexistentEdge(path[q].clone(), path[q + 1].clone()),
            );
        }
        es.push(found);
        q = q + 1;
    }
    proof {
        lemma_first_missing_at(*g, idseq, 0, plen - 1);
    }
    Ok(es)
}

} // verus!
