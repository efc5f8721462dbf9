use vstd::prelude::*;

use crate::graph::{
    connects, distinct_seqs, has_label, label_index, lemma_label_index_at, no_parallel, path_from,
    step_target, steps_from, Graph,
};
use crate::highlight::{walk_nodes, walk_start};
use crate::store::{add_label_model, graph_model, record_step, store_fold, StoreState};
use crate::text::tokens_of;
use crate::validate::{
    bad_at, dup_at, first_bad, first_missing, ids_of, lemma_first_bad_at, lemma_first_missing_at,
    pair_edge, vertex_ok,
};

verus! {

// The laws of the store: each distinct label gets exactly one id, ids follow
// first-occurrence order, and rebuilding from the same lines reproduces them.

proof fn lemma_has_label_exists(ls: Seq<Seq<char>>, l: Seq<char>)
    ensures
        has_label(ls, l) <==> exists|i: int| 0 <= i < ls.len() && ls[i] == l,
    decreases ls.len(),
{
    if ls.len() > 0 {
        lemma_has_label_exists(ls.drop_first(), l);
        if ls[0] != l {
            assert forall|i: int|
                0 <= i < ls.len() && ls[i] == l implies has_label(ls, l) by {
                assert(ls.drop_first()[i - 1] == ls[i]);
            }
            if has_label(ls, l) {
                let i = choose|i: int|
                    0 <= i < ls.drop_first().len() && ls.drop_first()[i] == l;
                assert(ls[i + 1] == l);
            }
        }
    }
}

proof fn lemma_add_label_distinct(ls: Seq<Seq<char>>, l: Seq<char>)
    requires
        distinct_seqs(ls),
    ensures
        distinct_seqs(add_label_model(ls, l)),
        ls.len() <= add_label_model(ls, l).len(),
        forall|i: int| 0 <= i < ls.len() ==> add_label_model(ls, l)[i] == ls[i],
{
    if !has_label(ls, l) {
        lemma_has_label_exists(ls, l);
        assert forall|i: int, j: int|
            0 <= i < j < ls.push(l).len() implies ls.push(l)[i] != ls.push(l)[j] by {
            if j == ls.len() {
                assert(ls[i] != l);
            }
        }
    }
}

/// Exactly one id per distinct label: the labels of a successful fold are
/// pairwise distinct whenever the labels brought in were.
pub proof fn lemma_store_labels_distinct(lines: Seq<Seq<char>>, st: StoreState)
    requires
        store_fold(lines, st) is Ok,
        distinct_seqs(st.labels),
    ensures
        distinct_seqs(store_fold(lines, st)->Ok_0.labels),
    decreases lines.len(),
{
    if lines.len() > 0 {
        let toks = tokens_of(lines[0]);
        match record_step(st, lines[0]) {
            Ok(st2) => {
                lemma_add_label_distinct(st.labels, toks[0]);
                lemma_add_label_distinct(add_label_model(st.labels, toks[0]), toks[1]);
                lemma_store_labels_distinct(lines.drop_first(), st2);
            },
            Err(_) => {},
        }
    }
}

/// The two vertex labels of each record, in record order: the order in which
/// the store first sees labels.
pub open spec fn record_label_stream(lines: Seq<Seq<char>>) -> Seq<Seq<char>>
    decreases lines.len(),
{
    if lines.len() == 0 {
        Seq::<Seq<char>>::empty()
    } else {
        let toks = tokens_of(lines[0]);
        (if toks.len() >= 2 {
            seq![toks[0], toks[1]]
        } else {
            Seq::<Seq<char>>::empty()
        }) + record_label_stream(lines.drop_first())
    }
}

/// Walking a label stream, keeping each label's first occurrence only.
pub open spec fn first_seen(ls: Seq<Seq<char>>, stream: Seq<Seq<char>>) -> Seq<Seq<char>>
    decreases stream.len(),
{
    if stream.len() == 0 {
        ls
    } else {
        first_seen(add_label_model(ls, stream[0]), stream.drop_first())
    }
}

/// Ids follow first-occurrence order: the labels of a successful fold are
/// exactly the label stream of the records with repeats dropped, so a label's
/// id is the number of distinct labels seen before it first occurred.
pub proof fn lemma_store_ids_first_occurrence(lines: Seq<Seq<char>>, st: StoreState)
    requires
        store_fold(lines, st) is Ok,
    ensures
        store_fold(lines, st)->Ok_0.labels == first_seen(st.labels, record_label_stream(lines)),
    decreases lines.len(),
{
    if lines.len() > 0 {
        let toks = tokens_of(lines[0]);
        match record_step(st, lines[0]) {
            Ok(st2) => {
                let stream = record_label_stream(lines);
                let rest = record_label_stream(lines.drop_first());
                assert(stream == seq![toks[0], toks[1]] + rest);
                assert(stream[0] == toks[0]);
                assert(stream.drop_first() =~= seq![toks[1]] + rest);
                assert((seq![toks[1]] + rest)[0] == toks[1]);
                assert((seq![toks[1]] + rest).drop_first() =~= rest);
                assert(store_fold(lines, st) == store_fold(lines.drop_first(), st2));
                assert(st2.labels == add_label_model(
                    add_label_model(st.labels, toks[0]),
                    toks[1],
                ));
                assert(first_seen(st.labels, stream) == first_seen(
                    add_label_model(st.labels, toks[0]),
                    stream.drop_first(),
                ));
                assert(first_seen(st.labels, stream) == first_seen(st2.labels, rest));
                lemma_store_ids_first_occurrence(lines.drop_first(), st2);
            },
            Err(_) => {},
        }
    }
}

/// Rebuilding from the same lines yields identical ids: the model pins the
/// labels and edges, so two graphs built from equal lines agree.
pub proof fn lemma_store_rebuild_identical(
    lines1: Seq<Seq<char>>,
    lines2: Seq<Seq<char>>,
    g1: Graph,
    g2: Graph,
)
    requires
        lines1 == lines2,
        graph_model(lines1) is Ok,
        g1.labels_view() == graph_model(lines1)->Ok_0.labels,
        g2.labels_view() == graph_model(lines2)->Ok_0.labels,
        crate::graph::edges_view(g1.edges@) == graph_model(lines1)->Ok_0.edges,
        crate::graph::edges_view(g2.edges@) == graph_model(lines2)->Ok_0.edges,
    ensures
        g1.labels_view() == g2.labels_view(),
        crate::graph::edges_view(g1.edges@) == crate::graph::edges_view(g2.edges@),
{
}

// The round-trip law: on a graph without parallel edges, the vertex labels
// of a simple path validate back to exactly that path's edge sequence.

/// The vertices a simple path passes through, the start first.
pub open spec fn path_nodes(g: Graph, u: int, p: Seq<int>) -> Seq<int>
    decreases p.len(),
{
    if p.len() == 0 {
        seq![u]
    } else {
        seq![u] + path_nodes(g, step_target(g, p[0], u), p.drop_first())
    }
}

#[verifier::rlimit(50)]
proof fn lemma_path_nodes_props(g: Graph, u: int, p: Seq<int>, v: Set<int>)
    requires
        g.edges_in_range(),
        path_from(g, u, p, v),
        v.contains(u),
        0 <= u < g.n(),
    ensures
        path_nodes(g, u, p).len() == p.len() + 1,
        path_nodes(g, u, p)[0] == u,
        forall|i: int|
            0 <= i < path_nodes(g, u, p).len() ==> 0 <= #[trigger] path_nodes(g, u, p)[i]
                < g.n(),
        forall|i: int|
            1 <= i < path_nodes(g, u, p).len() ==> !v.contains(
                #[trigger] path_nodes(g, u, p)[i],
            ),
        forall|i: int, j: int|
            0 <= i < j < path_nodes(g, u, p).len() ==> path_nodes(g, u, p)[i] != path_nodes(
                g,
                u,
                p,
            )[j],
        forall|i: int|
            0 <= i < p.len() ==> connects(
                g,
                #[trigger] p[i],
                path_nodes(g, u, p)[i],
                path_nodes(g, u, p)[i + 1],
            ) && 0 <= p[i] < g.m(),
    decreases p.len(),
{
    let ns = path_nodes(g, u, p);
    if p.len() > 0 {
        let t = step_target(g, p[0], u);
        lemma_path_nodes_props(g, t, p.drop_first(), v.insert(t));
        let sub = path_nodes(g, t, p.drop_first());
        assert(ns == seq![u] + sub);
        assert forall|i: int| 0 <= i < ns.len() implies 0 <= #[trigger] ns[i] < g.n() by {
            if i >= 1 {
                assert(ns[i] == sub[i - 1]);
            }
        }
        assert forall|i: int| 1 <= i < ns.len() implies !v.contains(#[trigger] ns[i]) by {
            assert(ns[i] == sub[i - 1]);
            if i >= 2 {
                assert(!v.insert(t).contains(sub[i - 1]));
            }
        }
        assert forall|i: int, j: int| 0 <= i < j < ns.len() implies ns[i] != ns[j] by {
            if i == 0 {
                assert(ns[j] == sub[j - 1]);
                assert(!v.contains(ns[j]));
            } else {
                assert(ns[i] == sub[i - 1] && ns[j] == sub[j - 1]);
            }
        }
        assert forall|i: int|
            0 <= i < p.len() implies connects(g, #[trigger] p[i], ns[i], ns[i + 1]) && 0 <= p[i]
            < g.m() by {
            if i == 0 {
                assert(steps_from(g, p[0], u));
                assert(ns[0] == u && ns[1] == sub[0] && sub[0] == t);
            } else {
                assert(ns[i] == sub[i - 1] && ns[i + 1] == sub[i]);
                assert(p.drop_first()[i - 1] == p[i]);
                assert(connects(g, p.drop_first()[i - 1], sub[i - 1], sub[i]));
            }
        }
    }
}

proof fn lemma_label_index_inverse(ls: Seq<Seq<char>>, v: int)
    requires
        distinct_seqs(ls),
        0 <= v < ls.len(),
    ensures
        label_index(ls, ls[v]) == v,
{
    lemma_label_index_at(ls, ls[v], v);
}

proof fn lemma_pair_edge_first(g: Graph, a: int, b: int, i: int, k: int)
    requires
        0 <= i <= k < g.m(),
        connects(g, k, a, b),
    ensures
        i <= pair_edge(g, a, b, i) <= k,
        connects(g, pair_edge(g, a, b, i), a, b),
    decreases k - i,
{
    if !connects(g, i, a, b) {
        lemma_pair_edge_first(g, a, b, i + 1, k);
    }
}

/// Validation recovers the path: for any simple path in a graph without
/// parallel edges, the labels of its vertex sequence pass every check of the
/// validator, and the edge chosen for each consecutive pair is exactly the
/// path's own edge. Fed the labels of a solver result, `parse_path` therefore
/// succeeds and returns the solver's edge sequence.
pub proof fn lemma_validate_recovers_path(g: Graph, s: int, p: Seq<int>)
    requires
        g.wf(),
        no_parallel(g),
        0 <= s < g.n(),
        1 <= p.len(),
        path_from(g, s, p, Set::<int>::empty().insert(s)),
    ensures
        ({
            let ns = path_nodes(g, s, p);
            let ls = ns.map_values(|v: int| g.labels_view()[v]);
            let ids = ids_of(g, ls);
            &&& ls.len() == p.len() + 1
            &&& first_bad(g, ls, 0) == ls.len()
            &&& first_missing(g, ids, 0) == ls.len() - 1
            &&& forall|i: int|
                0 <= i < p.len() ==> #[trigger] pair_edge(g, ids[i], ids[i + 1], 0) == p[i]
        }),
{
    let v0 = Set::<int>::empty().insert(s);
    lemma_path_nodes_props(g, s, p, v0);
    let ns = path_nodes(g, s, p);
    let ls = ns.map_values(|v: int| g.labels_view()[v]);
    let ids = ids_of(g, ls);
    assert forall|i: int| 0 <= i < ls.len() implies ids[i] == ns[i] by {
        lemma_label_index_inverse(g.labels_view(), ns[i]);
    }
    assert forall|q: int| 0 <= q < ls.len() implies !bad_at(g, ls, q) by {
        lemma_label_index_inverse(g.labels_view(), ns[q]);
        assert(vertex_ok(g, ls[q]));
        if dup_at(ls, q) {
            let j = choose|j: int| 0 <= j < q && ls[j] == ls[q];
            lemma_label_index_inverse(g.labels_view(), ns[j]);
            assert(ns[j] == ns[q]);
            assert(false);
        }
    }
    lemma_first_bad_at(g, ls, 0, ls.len() as int);
    assert forall|i: int|
        0 <= i < p.len() implies #[trigger] pair_edge(g, ids[i], ids[i + 1], 0) == p[i] by {
        assert(0 <= p[i] < g.m() && connects(g, p[i], ns[i], ns[i + 1]));
        lemma_pair_edge_first(g, ns[i], ns[i + 1], 0, p[i]);
    }
    assert forall|l: int|
        0 <= l < ids.len() - 1 implies #[trigger] pair_edge(g, ids[l], ids[l + 1], 0)
        != g.m() by {
        assert(0 <= l < p.len());
        assert(connects(g, p[l], ns[l], ns[l + 1]));
        assert(pair_edge(g, ids[l], ids[l + 1], 0) == p[l]);
    }
    lemma_first_missing_at(g, ids, 0, ids.len() - 1);
}

/// Reading a path's edges back as vertex labels: the walk that
/// `edge_path_to_nodes` performs recovers exactly the path's vertex
/// sequence, with its start detected correctly whenever the path has at
/// least two edges (a single undirected edge is reported in stored
/// orientation, which validates to the same edge).
pub proof fn lemma_walk_matches_path(g: Graph, s: int, p: Seq<int>)
    requires
        g.wf(),
        0 <= s < g.n(),
        2 <= p.len(),
        path_from(g, s, p, Set::<int>::empty().insert(s)),
    ensures
        walk_start(g, p) == s,
        seq![s] + walk_nodes(g, s, p) == path_nodes(g, s, p),
{
    let v0 = Set::<int>::empty().insert(s);
    lemma_path_nodes_props(g, s, p, v0);
    let ns = path_nodes(g, s, p);
    assert(connects(g, p[0], ns[0], ns[1]));
    assert(connects(g, p[1], ns[1], ns[2]));
    lemma_walk_follows_path(g, s, p, v0);
}

proof fn lemma_walk_follows_path(g: Graph, u: int, p: Seq<int>, v: Set<int>)
    requires
        g.edges_in_range(),
        path_from(g, u, p, v),
        v.contains(u),
        0 <= u < g.n(),
    ensures
        seq![u] + walk_nodes(g, u, p) == path_nodes(g, u, p),
    decreases p.len(),
{
    if p.len() == 0 {
        assert(seq![u] + walk_nodes(g, u, p) =~= seq![u]);
    } else {
        let t = step_target(g, p[0], u);
        lemma_walk_follows_path(g, t, p.drop_first(), v.insert(t));
        let x = g.edges@[p[0]].source as int;
        let y = g.edges@[p[0]].target as int;
        assert(steps_from(g, p[0], u));
        assert((if x == u { y } else { x }) == t);
        assert(seq![u] + walk_nodes(g, u, p) =~= path_nodes(g, u, p));
    }
}

/// The single-edge round trip: a one-edge path is read back in the edge's
/// stored orientation (source first), and those two labels validate to
/// exactly that edge again, whichever way the path traversed it.
pub proof fn lemma_single_edge_round_trip(g: Graph, s: int, p: Seq<int>)
    requires
        g.wf(),
        no_parallel(g),
        0 <= s < g.n(),
        p.len() == 1,
        path_from(g, s, p, Set::<int>::empty().insert(s)),
    ensures
        ({
            let a = g.edges@[p[0]].source as int;
            let b = g.edges@[p[0]].target as int;
            let ls = seq![g.labels_view()[a], g.labels_view()[b]];
            let ids = ids_of(g, ls);
            &&& first_bad(g, ls, 0) == 2
            &&& first_missing(g, ids, 0) == 1
            &&& pair_edge(g, ids[0], ids[1], 0) == p[0]
        }),
{
    let k = p[0];
    let a = g.edges@[k].source as int;
    let b = g.edges@[k].target as int;
    let t = step_target(g, k, s);
    assert(steps_from(g, k, s));
    assert(a != b);
    let ls = seq![g.labels_view()[a], g.labels_view()[b]];
    let ids = ids_of(g, ls);
    lemma_label_index_inverse(g.labels_view(), a);
    lemma_label_index_inverse(g.labels_view(), b);
    assert(ids[0] == a && ids[1] == b);
    assert(!bad_at(g, ls, 0));
    assert(!bad_at(g, ls, 1)) by {
        if dup_at(ls, 1) {
            assert(ls[0] == ls[1]);
        }
    }
    lemma_first_bad_at(g, ls, 0, 2);
    assert(connects(g, k, a, b));
    lemma_pair_edge_first(g, a, b, 0, k);
    assert(pair_edge(g, ids[0], ids[1], 0) == k);
    assert forall|l: int|
        0 <= l < ids.len() - 1 implies #[trigger] pair_edge(g, ids[l], ids[l + 1], 0)
        != g.m() by {
        assert(l == 0);
    }
    lemma_first_missing_at(g, ids, 0, 1);
}

proof fn lemma_first_bad_none(g: Graph, ls: Seq<Seq<char>>, i: int)
    requires
        0 <= i <= ls.len(),
        first_bad(g, ls, i) == ls.len(),
    ensures
        forall|q: int| i <= q < ls.len() ==> !bad_at(g, ls, q),
    decreases ls.len() - i,
{
    if i < ls.len() {
        lemma_first_bad_none(g, ls, i + 1);
    }
}

proof fn lemma_first_missing_none(g: Graph, ids: Seq<int>, i: int)
    requires
        0 <= i <= ids.len() - 1,
        first_missing(g, ids, i) == ids.len() - 1,
    ensures
        forall|l: int| i <= l < ids.len() - 1 ==> #[trigger] pair_edge(g, ids[l], ids[l + 1], 0)
            != g.m(),
    decreases ids.len() - i,
{
    if i < ids.len() - 1 {
        lemma_first_missing_none(g, ids, i + 1);
    }
}

proof fn lemma_pair_edge_found(g: Graph, a: int, b: int, i: int)
    requires
        0 <= i,
        pair_edge(g, a, b, i) < g.m(),
    ensures
        i <= pair_edge(g, a, b, i),
        connects(g, pair_edge(g, a, b, i), a, b),
    decreases g.m() - i,
{
    if i < g.m() && !connects(g, i, a, b) {
        lemma_pair_edge_found(g, a, b, i + 1);
    }
}

proof fn lemma_ids_suffix_path(g: Graph, ids: Seq<int>, es: Seq<int>, i: int, v: Set<int>)
    requires
        g.wf(),
        2 <= ids.len(),
        es.len() == ids.len() - 1,
        forall|q: int| 0 <= q < ids.len() ==> 0 <= #[trigger] ids[q] < g.n(),
        forall|q1: int, q2: int| 0 <= q1 < q2 < ids.len() ==> ids[q1] != ids[q2],
        forall|l: int|
            0 <= l < es.len() ==> 0 <= #[trigger] es[l] < g.m() && connects(
                g,
                es[l],
                ids[l],
                ids[l + 1],
            ),
        0 <= i <= ids.len() - 1,
        forall|x: int|
            #[trigger] v.contains(x) <==> exists|q: int| 0 <= q <= i && ids[q] == x,
    ensures
        path_from(g, ids[i], es.skip(i), v),
        path_nodes(g, ids[i], es.skip(i)) == ids.skip(i),
    decreases ids.len() - i,
{
    if i < ids.len() - 1 {
        let k = es[i];
        let a = ids[i];
        let b = ids[i + 1];
        assert(connects(g, k, a, b));
        assert(a != b);
        assert(steps_from(g, k, a));
        assert(step_target(g, k, a) == b);
        assert(!v.contains(b)) by {
            if v.contains(b) {
                let q = choose|q: int| 0 <= q <= i && ids[q] == b;
                assert(ids[q] == ids[i + 1]);
            }
        }
        let v2 = v.insert(b);
        assert forall|x: int|
            #[trigger] v2.contains(x) <==> exists|q: int| 0 <= q <= i + 1 && ids[q] == x by {
            if v2.contains(x) {
                if x == b {
                    assert(ids[i + 1] == x);
                } else {
                    let q = choose|q: int| 0 <= q <= i && ids[q] == x;
                    assert(0 <= q <= i + 1 && ids[q] == x);
                }
            }
            if exists|q: int| 0 <= q <= i + 1 && ids[q] == x {
                let q = choose|q: int| 0 <= q <= i + 1 && ids[q] == x;
                if q == i + 1 {
                    assert(v2.contains(b));
                } else {
                    assert(v.contains(x));
                }
            }
        }
        lemma_ids_suffix_path(g, ids, es, i + 1, v2);
        assert(es.skip(i)[0] == es[i]);
        assert(es.skip(i).drop_first() =~= es.skip(i + 1));
        assert(path_nodes(g, b, es.skip(i + 1)) == ids.skip(i + 1));
        assert(path_nodes(g, a, es.skip(i)) == seq![a] + path_nodes(g, b, es.skip(i + 1)));
        assert(seq![a] + ids.skip(i + 1) =~= ids.skip(i));
    } else {
        assert(es.skip(i) =~= Seq::<int>::empty());
        assert(path_nodes(g, ids[i], es.skip(i)) =~= seq![ids[i]]);
        assert(ids.skip(i) =~= seq![ids[i]]);
    }
}

/// What the validator accepts is a simple path of the graph: the edges it
/// chooses walk exactly the requested vertices, in order, visiting none
/// twice. Feeding an accepted request back into the graph therefore
/// reproduces the request.
pub proof fn lemma_validated_is_path(g: Graph, ls: Seq<Seq<char>>)
    requires
        g.wf(),
        2 <= ls.len(),
        first_bad(g, ls, 0) == ls.len(),
        first_missing(g, ids_of(g, ls), 0) == ls.len() - 1,
    ensures
        ({
            let ids = ids_of(g, ls);
            let es = Seq::new((ls.len() - 1) as nat, |l: int| pair_edge(g, ids[l], ids[l + 1], 0));
            &&& path_from(g, ids[0], es, Set::<int>::empty().insert(ids[0]))
            &&& path_nodes(g, ids[0], es) == ids
        }),
{
    let ids = ids_of(g, ls);
    let es = Seq::new((ls.len() - 1) as nat, |l: int| pair_edge(g, ids[l], ids[l + 1], 0));
    lemma_first_bad_none(g, ls, 0);
    assert forall|q: int| 0 <= q < ids.len() implies 0 <= #[trigger] ids[q] < g.n() by {
        assert(!bad_at(g, ls, q));
        assert(vertex_ok(g, ls[q]));
        crate::graph::lemma_label_index_found(g.labels_view(), ls[q]);
        assert(ids[q] == label_index(g.labels_view(), ls[q]));
    }
    assert forall|q1: int, q2: int|
        0 <= q1 < q2 < ids.len() implies ids[q1] != ids[q2] by {
        if ids[q1] == ids[q2] {
            crate::graph::lemma_label_index_found(g.labels_view(), ls[q1]);
            crate::graph::lemma_label_index_found(g.labels_view(), ls[q2]);
            assert(ls[q1] == ls[q2]);
            assert(dup_at(ls, q2));
            assert(!bad_at(g, ls, q2));
        }
    }
    lemma_first_missing_none(g, ids, 0);
    assert forall|l: int|
        0 <= l < es.len() implies 0 <= #[trigger] es[l] < g.m() && connects(
        g,
        es[l],
        ids[l],
        ids[l + 1],
    ) by {
        assert(pair_edge(g, ids[l], ids[l + 1], 0) != g.m());
        lemma_pair_edge_le_m(g, ids[l], ids[l + 1], 0);
        lemma_pair_edge_found(g, ids[l], ids[l + 1], 0);
    }
    let v0 = Set::<int>::empty().insert(ids[0]);
    assert forall|x: int|
        #[trigger] v0.contains(x) <==> exists|q: int| 0 <= q <= 0 && ids[q] == x by {
        if v0.contains(x) {
            assert(ids[0] == x);
        }
    }
    lemma_ids_suffix_path(g, ids, es, 0, v0);
    assert(es.skip(0) =~= es);
    assert(ids.skip(0) =~= ids);
}

proof fn lemma_pair_edge_le_m(g: Graph, a: int, b: int, i: int)
    requires
        0 <= i <= g.m(),
    ensures
        pair_edge(g, a, b, i) <= g.m(),
    decreases g.m() - i,
{
    if i < g.m() && !connects(g, i, a, b) {
        lemma_pair_edge_le_m(g, a, b, i + 1);
    }
}

} // verus!
