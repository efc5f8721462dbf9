use vstd::prelude::*;

use crate::bits::{bits_get, bits_of, bits_repeat, bits_set, BitSet};
use crate::graph::{
    abs_i64, lemma_usable_abs_ge_edge, lemma_usable_abs_mono, lemma_usable_abs_nonneg,
    lemma_usable_abs_retire, path_from, path_weight, step_target, steps_from, usable, usable_abs,
    Graph,
};
use vstd::set_lib::{lemma_int_range, lemma_len_subset, set_int_range};

verus! {

/// The set of vertex ids of `g`.
pub open spec fn vertex_ids(g: Graph) -> Set<int> {
    set_int_range(0, g.n())
}

/// Conditions under which the search model below is defined: `v` is a finite
/// set of vertex ids not containing the current vertex `u`.
pub open spec fn search_pre(g: Graph, u: int, v: Set<int>) -> bool {
    &&& g.edges_in_range()
    &&& v.finite()
    &&& v.subset_of(vertex_ids(g))
    &&& 0 <= u < g.n()
    &&& !v.contains(u)
}

/// The result of the exhaustive backtracking search started at `u` with the
/// vertices in `v` already used: the edge-id sequence of the best simple path
/// from `u` avoiding `v`, and its weight (the weight gained from `u` on, so
/// `0` for the empty path). On equal weights the path discovered first wins:
/// extensions are scanned in edge insertion order and replace the incumbent
/// only on strict improvement.
pub open spec fn search_at(g: Graph, u: int, v: Set<int>) -> (Seq<int>, int)
    decreases g.n() - v.len(), 0int,
    when search_pre(g, u, v)
    via search_at_dec
{
    search_edges(g, u, v.insert(u), 0)
}

/// The best extension of the current path, considering only the edges with
/// id `>= i` as the first step. `v` already contains the current vertex `u`.
/// Carrying the scan from the front as a recursion from the back, the earlier
/// candidate wins a tie, and a candidate is taken at all only when it beats
/// the empty extension (weight `0`) strictly.
pub open spec fn search_edges(g: Graph, u: int, v: Set<int>, i: int) -> (Seq<int>, int)
    decreases g.n() - v.len(), g.m() - i,
    when ({
        &&& g.edges_in_range()
        &&& v.finite()
        &&& v.subset_of(vertex_ids(g))
        &&& 0 <= u < g.n()
        &&& v.contains(u)
        &&& 0 <= i
    })
    via search_edges_dec
{
    if i >= g.m() {
        (Seq::<int>::empty(), 0)
    } else {
        let rest = search_edges(g, u, v, i + 1);
        if steps_from(g, i, u) && !v.contains(step_target(g, i, u)) {
            let t = step_target(g, i, u);
            let sub = search_at(g, t, v);
            let cand_w = g.edges@[i].weight + sub.1;
            if cand_w >= rest.1 && cand_w > 0 {
                (seq![i] + sub.0, cand_w)
            } else {
                rest
            }
        } else {
            rest
        }
    }
}

#[via_fn]
proof fn search_at_dec(g: Graph, u: int, v: Set<int>) {
    lemma_int_range(0, g.n());
    lemma_len_subset(v.insert(u), vertex_ids(g));
}

#[via_fn]
proof fn search_edges_dec(g: Graph, u: int, v: Set<int>, i: int) {
    lemma_int_range(0, g.n());
    lemma_len_subset(v, vertex_ids(g));
}

/// A search result never loses weight against the empty extension, and only
/// a non-empty path gains weight.
proof fn lemma_search_edges_basic(g: Graph, u: int, v: Set<int>, i: int)
    requires
        g.edges_in_range(),
        v.finite(),
        v.subset_of(vertex_ids(g)),
        0 <= u < g.n(),
        v.contains(u),
        0 <= i,
    ensures
        search_edges(g, u, v, i).1 >= 0,
        search_edges(g, u, v, i).1 == 0 ==> search_edges(g, u, v, i).0 == Seq::<int>::empty(),
    decreases g.m() - i,
{
    if i < g.m() {
        lemma_search_edges_basic(g, u, v, i + 1);
    }
}

/// The set of vertex ids whose bit is set.
pub open spec fn marked(bits: Seq<bool>) -> Set<int> {
    Set::new(|i: int| 0 <= i < bits.len() && bits[i])
}

proof fn lemma_marked_props(bits: Seq<bool>)
    ensures
        marked(bits).finite(),
        marked(bits).subset_of(set_int_range(0, bits.len() as int)),
        marked(bits).len() <= bits.len(),
{
    lemma_int_range(0, bits.len() as int);
    lemma_len_subset(marked(bits), set_int_range(0, bits.len() as int));
}

proof fn lemma_marked_update(bits: Seq<bool>, t: int, b: bool)
    requires
        0 <= t < bits.len(),
    ensures
        b ==> marked(bits.update(t, b)) == marked(bits).insert(t),
        !b ==> marked(bits.update(t, b)) == marked(bits).remove(t),
{
    if b {
        assert(marked(bits.update(t, b)) =~= marked(bits).insert(t));
    } else {
        assert(marked(bits.update(t, b)) =~= marked(bits).remove(t));
    }
}

/// One level of the backtracking descent, mirroring the model: mark `u`,
/// scan the edges in insertion order, recurse into each unvisited neighbor,
/// and keep a strictly improving result. `w` is the weight accumulated on
/// the way to `u`; `u` is left marked for the caller to unmark.
fn search_rec(
    g: &Graph,
    u: usize,
    w: i64,
    visited: &mut BitSet,
    Ghost(vset): Ghost<Set<int>>,
) -> (r: (Vec<usize>, i64))
    requires
        g.wf(),
        (u as int) < g.n(),
        vset == marked(bits_of(*old(visited))),
        bits_of(*old(visited)).len() == g.n(),
        !bits_of(*old(visited))[u as int],
        abs_i64(w) + usable_abs(*g, marked(bits_of(*old(visited))).insert(u as int), 0)
            <= i64::MAX,
    ensures
        bits_of(*final(visited)) == bits_of(*old(visited)).update(u as int, true),
        ({
            let s = search_at(*g, u as int, marked(bits_of(*old(visited))));
            r.0@.map_values(|k: usize| k as int) == s.0 && r.1 == w + s.1
        }),
    decreases g.n() - vset.len(),
{
    let ghost old_bits = bits_of(*visited);
    let ghost v0 = marked(old_bits);
    let ghost v1 = v0.insert(u as int);
    proof {
        lemma_marked_props(old_bits);
        lemma_marked_update(old_bits, u as int, true);
    }
    bits_set(visited, u, true);

    let mut best_path: Vec<usize> = Vec::new();
    let mut best_w: i64 = w;
    let n_edges: usize = g.edges.len();
    proof {
        lemma_search_edges_basic(*g, u as int, v1, 0);
        assert(best_path@.map_values(|k: usize| k as int) =~= Seq::<int>::empty());
    }
    let mut i: usize = 0;
    while i < n_edges
        invariant
            g.wf(),
            (u as int) < g.n(),
            old_bits.len() == g.n(),
            !old_bits[u as int],
            v0 == marked(old_bits),
            vset == v0,
            v0.finite(),
            v1 == v0.insert(u as int),
            v1.finite(),
            v1.subset_of(vertex_ids(*g)),
            bits_of(*visited) == old_bits.update(u as int, true),
            marked(bits_of(*visited)) == v1,
            n_edges == g.m(),
            i <= n_edges,
            abs_i64(w) + usable_abs(*g, v1, 0) <= i64::MAX,
            best_w as int - w as int >= 0,
            ({
                let full = search_edges(*g, u as int, v1, 0);
                let rest = search_edges(*g, u as int, v1, i as int);
                let bg = best_w as int - w as int;
                full == (if bg >= rest.1 {
                    (best_path@.map_values(|k: usize| k as int), bg)
                } else {
                    rest
                })
            }),
        decreases n_edges - i,
    {
        let e = g.edges[i];
        let from_u: bool = e.source == u || (!g.directed && e.target == u);
        if from_u {
            let t: usize = if e.source == u {
                e.target
            } else {
                e.source
            };
            let t_marked = bits_get(visited, t);
            if !t_marked {
                proof {
                    assert(usable(*g, i as int, v1));
                    lemma_usable_abs_ge_edge(*g, v1, 0, i as int);
                }
                let w2: i64 = w + e.weight;
                proof {
                    assert(!usable(*g, i as int, v1.insert(t as int)));
                    lemma_usable_abs_retire(*g, v1, v1.insert(t as int), 0, i as int);
                    lemma_usable_abs_nonneg(*g, v1.insert(t as int), 0);
                    lemma_int_range(0, g.n());
                    lemma_len_subset(v1, vertex_ids(*g));
                    vstd::set::axiom_set_insert_len(v0, u as int);
                }
                let (sub_path, sub_w) = search_rec(g, t, w2, visited, Ghost(v1));
                proof {
                    assert(bits_of(*visited).update(t as int, false) =~= old_bits.update(
                        u as int,
                        true,
                    ));
                }
                bits_set(visited, t, false);
                if sub_w > best_w {
                    let ghost sp = sub_path@;
                    let mut np = sub_path;
                    np.insert(0, i);
                    proof {
                        let f = |k: usize| k as int;
                        assert(np@.map_values(f) =~= seq![i as int] + sp.map_values(f));
                    }
                    best_path = np;
                    best_w = sub_w;
                }
            }
        }
        i = i + 1;
    }
    (best_path, best_w)
}

/// The best simple path that starts at `start`: exhaustive backtracking
/// search over all simple paths from there, in the model `search_at`.
pub fn longest_from_start(g: &Graph, start: usize) -> (r: (Vec<usize>, i64))
    requires
        g.wf(),
        (start as int) < g.n(),
    ensures
        ({
            let s = search_at(*g, start as int, Set::<int>::empty());
            r.0@.map_values(|k: usize| k as int) == s.0 && r.1 == s.1
        }),
{
    let n: usize = g.labels.len();
    let mut visited = bits_repeat(false, n);
    proof {
        assert(marked(bits_of(visited)) =~= Set::<int>::empty());
        lemma_usable_abs_mono(
            *g,
            Set::<int>::empty(),
            Set::<int>::empty().insert(start as int),
            0,
        );
    }
    search_rec(g, start, 0, &mut visited, Ghost(Set::<int>::empty()))
}

/// The best result over the start vertices `0 .. i`, scanned in ascending
/// order; on an exact weight tie the lower start id is kept.
pub open spec fn global_best(g: Graph, i: int) -> (Seq<int>, int)
    decreases i,
{
    if i <= 1 {
        search_at(g, 0, Set::<int>::empty())
    } else {
        let prev = global_best(g, i - 1);
        let cur = search_at(g, i - 1, Set::<int>::empty());
        if cur.1 > prev.1 {
            cur
        } else {
            prev
        }
    }
}

/// The maximum-weight simple path of the whole graph: the search is run from
/// every vertex as a candidate start and the best result is kept, with the
/// lowest start id winning exact weight ties.
pub fn longest_path(g: &Graph) -> (r: (Vec<usize>, i64))
    requires
        g.wf(),
        g.n() >= 1,
    ensures
        ({
            let b = global_best(*g, g.n());
            r.0@.map_values(|k: usize| k as int) == b.0 && r.1 == b.1
        }),
{
    let n: usize = g.labels.len();
    let first = longest_from_start(g, 0);
    let mut best_path = first.0;
    let mut best_w = first.1;
    let mut s: usize = 1;
    while s < n
        invariant
            g.wf(),
            n == g.n(),
            1 <= s <= n,
            ({
                let b = global_best(*g, s as int);
                best_path@.map_values(|k: usize| k as int) == b.0 && best_w == b.1
            }),
        decreases n - s,
    {
        let cur = longest_from_start(g, s);
        if cur.1 > best_w {
            best_path = cur.0;
            best_w = cur.1;
        }
        s = s + 1;
    }
    (best_path, best_w)
}

/// The view of one per-start result: the edge ids and the weight.
pub open spec fn result_view(pr: (Vec<usize>, i64)) -> (Seq<int>, int) {
    (pr.0@.map_values(|k: usize| k as int), pr.1 as int)
}

/// The best of the first `i` entries of a list of results, the earliest entry
/// winning an exact weight tie. This is the reduction step of the per-start
/// fan-out; it depends only on the list, never on completion order.
pub open spec fn reduce_model(rs: Seq<(Seq<int>, int)>, i: int) -> (Seq<int>, int)
    decreases i,
{
    if i <= 1 {
        rs[0]
    } else {
        let prev = reduce_model(rs, i - 1);
        let cur = rs[i - 1];
        if cur.1 > prev.1 {
            cur
        } else {
            prev
        }
    }
}

fn copy_ids(v: &Vec<usize>) -> (r: Vec<usize>)
    ensures
        r@ == v@,
{
    let mut r: Vec<usize> = Vec::new();
    let mut i: usize = 0;
    while i < v.len()
        invariant
            i <= v.len(),
            r@ == v@.take(i as int),
        decreases v.len() - i,
    {
        r.push(v[i]);
        proof {
            assert(v@.take(i + 1 as int) =~= v@.take(i as int).push(v@[i as int]));
        }
        i = i + 1;
    }
    proof {
        assert(v@.take(v@.len() as int) =~= v@);
    }
    r
}

/// Deterministic reduction of per-start results, as the parallel mode needs
/// it: the entry with the greatest weight wins and the earliest entry wins an
/// exact weight tie, whatever order the entries were produced in.
pub fn reduce_results(results: &Vec<(Vec<usize>, i64)>) -> (r: (Vec<usize>, i64))
    requires
        results@.len() >= 1,
    ensures
        ({
            let b = reduce_model(results@.map_values(|pr| result_view(pr)), results@.len() as int);
            r.0@.map_values(|k: usize| k as int) == b.0 && r.1 == b.1
        }),
{
    let mut bi: usize = 0;
    let mut i: usize = 1;
    while i < results.len()
        invariant
            results@.len() >= 1,
            bi < i <= results@.len(),
            ({
                let rs = results@.map_values(|pr| result_view(pr));
                reduce_model(rs, i as int) == rs[bi as int]
            }),
        decreases results@.len() - i,
    {
        if results[i].1 > results[bi].1 {
            bi = i;
        }
        i = i + 1;
    }
    let best = &results[bi];
    (copy_ids(&best.0), best.1)
}

/// Scanning from `i` on yields at least the candidate value of any single
/// admissible edge `k >= i`.
proof fn lemma_search_edges_ge(g: Graph, u: int, v: Set<int>, i: int, k: int)
    requires
        g.edges_in_range(),
        v.finite(),
        v.subset_of(vertex_ids(g)),
        0 <= u < g.n(),
        v.contains(u),
        0 <= i <= k < g.m(),
        steps_from(g, k, u),
        !v.contains(step_target(g, k, u)),
    ensures
        search_edges(g, u, v, i).1 >= g.edges@[k].weight + search_at(
            g,
            step_target(g, k, u),
            v,
        ).1,
    decreases g.m() - i,
{
    lemma_search_edges_basic(g, u, v, i + 1);
    if i < k {
        lemma_search_edges_ge(g, u, v, i + 1, k);
    }
}

/// Completeness of the single-start search: its weight is at least the
/// weight of every simple path from `u` that avoids `v`.
pub proof fn lemma_search_at_complete(g: Graph, u: int, v: Set<int>, p: Seq<int>)
    requires
        search_pre(g, u, v),
        path_from(g, u, p, v.insert(u)),
    ensures
        search_at(g, u, v).1 >= path_weight(g, p),
    decreases p.len(),
{
    let v1 = v.insert(u);
    lemma_search_edges_basic(g, u, v1, 0);
    if p.len() > 0 {
        let k = p[0];
        let t = step_target(g, k, u);
        lemma_search_edges_ge(g, u, v1, 0, k);
        lemma_search_at_complete(g, t, v1, p.drop_first());
    }
}

/// Soundness of the scan: what it returns is a real simple path from `u`
/// avoiding `v`, and the returned weight is that path's weight.
proof fn lemma_search_edges_sound(g: Graph, u: int, v: Set<int>, i: int)
    requires
        g.edges_in_range(),
        v.finite(),
        v.subset_of(vertex_ids(g)),
        0 <= u < g.n(),
        v.contains(u),
        0 <= i,
    ensures
        path_from(g, u, search_edges(g, u, v, i).0, v),
        path_weight(g, search_edges(g, u, v, i).0) == search_edges(g, u, v, i).1,
    decreases g.n() - v.len(), g.m() - i,
{
    lemma_int_range(0, g.n());
    lemma_len_subset(v, vertex_ids(g));
    if i < g.m() {
        lemma_search_edges_sound(g, u, v, i + 1);
        if steps_from(g, i, u) && !v.contains(step_target(g, i, u)) {
            let t = step_target(g, i, u);
            vstd::set::axiom_set_insert_len(v, t);
            lemma_len_subset(v.insert(t), vertex_ids(g));
            lemma_search_edges_sound(g, t, v.insert(t), 0);
            let sub = search_at(g, t, v);
            let r = (seq![i] + sub.0, g.edges@[i].weight + sub.1);
            assert(r.0.drop_first() =~= sub.0);
            assert(r.0[0] == i);
        }
    }
}

/// Soundness of the single-start search, stated on `search_at`.
pub proof fn lemma_search_at_sound(g: Graph, u: int, v: Set<int>)
    requires
        search_pre(g, u, v),
    ensures
        path_from(g, u, search_at(g, u, v).0, v.insert(u)),
        path_weight(g, search_at(g, u, v).0) == search_at(g, u, v).1,
{
    lemma_search_edges_sound(g, u, v.insert(u), 0);
}

/// The global result dominates every single-start result it scanned.
proof fn lemma_global_best_ge(g: Graph, s: int, i: int)
    requires
        g.wf(),
        0 <= s < i <= g.n(),
        1 <= i,
    ensures
        global_best(g, i).1 >= search_at(g, s, Set::<int>::empty()).1,
    decreases i,
{
    if i > 1 && s < i - 1 {
        lemma_global_best_ge(g, s, i - 1);
    }
}

/// The global result is itself a search result from some start vertex.
proof fn lemma_global_best_is_some_start(g: Graph, i: int)
    requires
        g.wf(),
        1 <= i <= g.n(),
    ensures
        exists|s: int|
            0 <= s < i && global_best(g, i) == search_at(g, s, Set::<int>::empty()),
    decreases i,
{
    if i <= 1 {
        assert(global_best(g, i) == search_at(g, 0, Set::<int>::empty()));
    } else {
        lemma_global_best_is_some_start(g, i - 1);
    }
}

/// The maximality law: the weight returned by the global search is at least
/// the weight of every simple path in the graph, wherever it starts.
pub proof fn lemma_longest_path_maximal(g: Graph, s: int, p: Seq<int>)
    requires
        g.wf(),
        g.n() >= 1,
        0 <= s < g.n(),
        path_from(g, s, p, Set::<int>::empty().insert(s)),
    ensures
        global_best(g, g.n()).1 >= path_weight(g, p),
{
    lemma_search_at_complete(g, s, Set::<int>::empty(), p);
    lemma_global_best_ge(g, s, g.n());
}

/// The witness law: the global result is a real simple path from some start
/// vertex, and the returned weight is exactly that path's weight.
pub proof fn lemma_longest_path_sound(g: Graph)
    requires
        g.wf(),
        g.n() >= 1,
    ensures
        exists|s: int|
            0 <= s < g.n() && path_from(
                g,
                s,
                global_best(g, g.n()).0,
                Set::<int>::empty().insert(s),
            ) && path_weight(g, global_best(g, g.n()).0) == global_best(g, g.n()).1,
{
    lemma_global_best_is_some_start(g, g.n());
    let s = choose|s: int|
        0 <= s < g.n() && global_best(g, g.n()) == search_at(g, s, Set::<int>::empty());
    lemma_search_at_sound(g, s, Set::<int>::empty());
}

/// The determinism law of the fan-out: when `rs` holds, for every start
/// vertex in order, exactly the result of the search from that start, then
/// reducing `rs` gives the same answer as the sequential scan over starts.
/// The parallel mode therefore returns the same weight (and the same path)
/// as the sequential mode on every graph.
pub proof fn lemma_reduce_matches_sequential(g: Graph, rs: Seq<(Seq<int>, int)>)
    requires
        g.wf(),
        g.n() >= 1,
        rs.len() == g.n(),
        forall|s: int| 0 <= s < g.n() ==> rs[s] == search_at(g, s, Set::<int>::empty()),
    ensures
        reduce_model(rs, rs.len() as int) == global_best(g, g.n()),
{
    lemma_reduce_matches_prefix(g, rs, rs.len() as int);
}

proof fn lemma_reduce_matches_prefix(g: Graph, rs: Seq<(Seq<int>, int)>, i: int)
    requires
        g.wf(),
        g.n() >= 1,
        rs.len() == g.n(),
        forall|s: int| 0 <= s < g.n() ==> rs[s] == search_at(g, s, Set::<int>::empty()),
        1 <= i <= rs.len(),
    ensures
        reduce_model(rs, i) == global_best(g, i),
    decreases i,
{
    if i > 1 {
        lemma_reduce_matches_prefix(g, rs, i - 1);
    }
}

} // verus!
