use vstd::prelude::*;

use crate::graph::{
    abs_int, distinct_seqs, edges_abs_from, edges_view, has_label, label_index,
    lemma_edges_abs_push, lemma_label_index_at, lemma_usable_abs_all, strings_view, Edge, Graph,
};
use crate::text::{
    digits_val, lemma_digits_val_bounds, lemma_weight_val_bounds, parse_count, parse_weight,
    tokenize, tokens_of, valid_count, valid_weight, weight_val,
};

verus! {

/// The field of the graph text that an error concerns.
#[derive(Clone, Copy, Debug, PartialEq, Eq, Structural)]
pub enum Field {
    VertexCount,
    EdgeCount,
    VertexA,
    VertexB,
    Weight,
}

/// A fatal error of graph construction; no partially built graph survives it.
#[derive(Debug, PartialEq)]
pub enum GraphParseError {
    /// A line lacks the named token.
    MissingField(Field),
    /// The shown token cannot be read as its field asks (or a weight would
    /// overflow the total capacity).
    InvalidValue(String),
}

/// The spec-level image of `GraphParseError`.
pub enum SpecParseErr {
    MissingField(Field),
    InvalidValue(Seq<char>),
}

/// The error value carries what its model says.
pub open spec fn err_matches(e: GraphParseError, m: SpecParseErr) -> bool {
    match (e, m) {
        (GraphParseError::MissingField(f1), SpecParseErr::MissingField(f2)) => f1 == f2,
        (GraphParseError::InvalidValue(s), SpecParseErr::InvalidValue(t)) => s@ == t,
        _ => false,
    }
}

/// The store under construction: labels in first-occurrence order, edge
/// triples in insertion order, and the running total of absolute weights.
pub struct StoreState {
    pub labels: Seq<Seq<char>>,
    pub edges: Seq<(int, int, int)>,
    pub total: int,
}

pub open spec fn empty_store() -> StoreState {
    StoreState { labels: Seq::<Seq<char>>::empty(), edges: Seq::<(int, int, int)>::empty(), total: 0 }
}

/// A label keeps its id on re-occurrence and gets the next id when new.
pub open spec fn add_label_model(ls: Seq<Seq<char>>, l: Seq<char>) -> Seq<Seq<char>> {
    if has_label(ls, l) {
        ls
    } else {
        ls.push(l)
    }
}

/// One edge record: two labels and a weight, whitespace-separated; extra
/// tokens are ignored. The capacity test keeps the total of absolute weights
/// representable, so that every path weight fits an `i64`.
pub open spec fn record_step(st: StoreState, line: Seq<char>) -> Result<StoreState, SpecParseErr> {
    let toks = tokens_of(line);
    if toks.len() == 0 {
        Err(SpecParseErr::MissingField(Field::VertexA))
    } else if toks.len() == 1 {
        Err(SpecParseErr::MissingField(Field::VertexB))
    } else if toks.len() == 2 {
        Err(SpecParseErr::MissingField(Field::Weight))
    } else if !valid_weight(toks[2]) {
        Err(SpecParseErr::InvalidValue(toks[2]))
    } else if st.total + abs_int(weight_val(toks[2])) > i64::MAX {
        Err(SpecParseErr::InvalidValue(toks[2]))
    } else {
        let w = weight_val(toks[2]);
        let labels1 = add_label_model(st.labels, toks[0]);
        let ia = label_index(labels1, toks[0]);
        let labels2 = add_label_model(labels1, toks[1]);
        let ib = label_index(labels2, toks[1]);
        Ok(
            StoreState {
                labels: labels2,
                edges: st.edges.push((ia, ib, w)),
                total: st.total + abs_int(w),
            },
        )
    }
}

/// Folding the records over the store; the first error aborts everything.
pub open spec fn store_fold(lines: Seq<Seq<char>>, st: StoreState) -> Result<
    StoreState,
    SpecParseErr,
>
    decreases lines.len(),
{
    if lines.len() == 0 {
        Ok(st)
    } else {
        match record_step(st, lines[0]) {
            Ok(st2) => store_fold(lines.drop_first(), st2),
            Err(e) => Err(e),
        }
    }
}

/// The index of the first line with any token, or `lines.len()`.
pub open spec fn header_pos(lines: Seq<Seq<char>>) -> int
    decreases lines.len(),
{
    if lines.len() == 0 {
        0
    } else if tokens_of(lines[0]).len() > 0 {
        0
    } else {
        1 + header_pos(lines.drop_first())
    }
}

proof fn lemma_header_pos_at(ls: Seq<Seq<char>>, j: int)
    requires
        0 <= j <= ls.len(),
        forall|l: int| 0 <= l < j ==> tokens_of(ls[l]).len() == 0,
        j == ls.len() || tokens_of(ls[j]).len() > 0,
    ensures
        header_pos(ls) == j,
    decreases j,
{
    if j > 0 {
        lemma_header_pos_at(ls.drop_first(), j - 1);
    }
}

/// What graph construction yields on the given lines: the first non-empty
/// line holds the counts `N M` (`N` is advisory and only checked for form),
/// then up to `M` following lines are read as edge records; fewer lines than
/// `M` just end the input.
pub open spec fn graph_model(lines: Seq<Seq<char>>) -> Result<StoreState, SpecParseErr> {
    let h = header_pos(lines);
    if h >= lines.len() {
        Err(SpecParseErr::MissingField(Field::VertexCount))
    } else {
        let toks = tokens_of(lines[h]);
        if toks.len() < 2 {
            Err(SpecParseErr::MissingField(Field::EdgeCount))
        } else if !valid_count(toks[0]) {
            Err(SpecParseErr::InvalidValue(toks[0]))
        } else if !valid_count(toks[1]) {
            Err(SpecParseErr::InvalidValue(toks[1]))
        } else {
            let m = digits_val(toks[1]);
            let avail = lines.len() - h - 1;
            let cnt = if m <= avail {
                m
            } else {
                avail as int
            };
            store_fold(lines.skip(h + 1).take(cnt), empty_store())
        }
    }
}

fn header_line_empty(lines: &Vec<String>, h: usize, nl: usize) -> (r: bool)
    requires
        nl == lines@.len(),
        h <= nl,
    ensures
        r == (h < nl && tokens_of(strings_view(lines@)[h as int]).len() == 0),
{
    if h < nl {
        let t = tokenize(lines[h].as_str());
        proof {
            assert(t@.map_values(|s: String| s@).len() == t@.len());
        }
        t.len() == 0
    } else {
        false
    }
}

/// Look the label up, or give it the next id: the returned id is the
/// label's position in the label list after the call.
fn add_label(labels: &mut Vec<String>, t: &String) -> (r: usize)
    requires
        distinct_seqs(strings_view(old(labels)@)),
    ensures
        strings_view(final(labels)@) == add_label_model(strings_view(old(labels)@), t@),
        distinct_seqs(strings_view(final(labels)@)),
        r as int == label_index(strings_view(final(labels)@), t@),
        (r as int) < final(labels)@.len(),
        old(labels)@.len() <= final(labels)@.len(),
        final(labels)@[r as int]@ == t@,
        forall|i: int| 0 <= i < old(labels)@.len() ==> final(labels)@[i] == old(labels)@[i],
{
    let nl: usize = labels.len();
    let mut i: usize = 0;
    while i < nl
        invariant
            labels@ == old(labels)@,
            distinct_seqs(strings_view(labels@)),
            nl == labels@.len(),
            i <= nl,
            forall|l: int| 0 <= l < i ==> strings_view(labels@)[l] != t@,
        decreases nl - i,
    {
        if labels[i] == *t {
            proof {
                lemma_label_index_at(strings_view(labels@), t@, i as int);
            }
            return i;
        }
        i = i + 1;
    }
    proof {
        lemma_label_index_at(strings_view(labels@), t@, nl as int);
    }
    labels.push(t.clone());
    proof {
        assert(strings_view(labels@) =~= strings_view(old(labels)@).push(t@));
        lemma_label_index_at(strings_view(labels@), t@, nl as int);
    }
    nl
}

/// Build the graph from its text lines. Construction is all or nothing: the
/// result is exactly what `graph_model` says of the lines, a well-formed
/// graph or the first error.
pub fn read_graph(lines: &Vec<String>, directed: bool) -> (r: Result<Graph, GraphParseError>)
    ensures
        match r {
            Ok(g) => {
                &&& graph_model(strings_view(lines@)) is Ok
                &&& g.directed == directed
                &&& g.labels_view() == graph_model(strings_view(lines@))->Ok_0.labels
                &&& edges_view(g.edges@) == graph_model(strings_view(lines@))->Ok_0.edges
                &&& g.wf()
            },
            Err(e) => {
                &&& graph_model(strings_view(lines@)) is Err
                &&& err_matches(e, graph_model(strings_view(lines@))->Err_0)
            },
        },
{
    let ghost lv = strings_view(lines@);
    let nl: usize = lines.len();
    let mut h: usize = 0;
    let mut advancing: bool = header_line_empty(lines, h, nl);
    while advancing
        invariant
            nl == lines@.len(),
            lv == strings_view(lines@),
            h <= nl,
            forall|l: int| 0 <= l < h ==> tokens_of(lv[l]).len() == 0,
            advancing == (h < nl && tokens_of(lv[h as int]).len() == 0),
        decreases nl - h,
    {
        h = h + 1;
        advancing = header_line_empty(lines, h, nl);
    }
    proof {
        lemma_header_pos_at(lv, h as int);
    }
    if h == nl {
        return Err(GraphParseError::MissingField(Field::VertexCount));
    }
    let toks = tokenize(lines[h].as_str());
    proof {
        assert(toks@.map_values(|s: String| s@) == tokens_of(lv[h as int]));
        assert(toks@.len() == tokens_of(lv[h as int]).len());
    }
    if toks.len() < 2 {
        return Err(GraphParseError::MissingField(Field::EdgeCount));
    }
    proof {
        assert(toks@.map_values(|s: String| s@)[0] == toks@[0]@);
        assert(toks@.map_values(|s: String| s@)[1] == toks@[1]@);
    }
    if parse_count(toks[0].as_str()).is_none() {
        return Err(GraphParseError::InvalidValue(toks[0].clone()));
    }
    let m_u64: u64 = match parse_count(toks[1].as_str()) {
        None => {
            return Err(GraphParseError::InvalidValue(toks[1].clone()));
        },
        Some(v) => v,
    };
    proof {
        lemma_digits_val_bounds(tokens_of(lv[h as int])[1]);
    }
    let ghost m_spec = digits_val(tokens_of(lv[h as int])[1]);
    let ghost avail = lv.len() - h - 1;
    let ghost cnt = if m_spec <= avail {
        m_spec
    } else {
        avail as int
    };
    let ghost body = lv.skip(h as int + 1).take(cnt);

    let mut labels: Vec<String> = Vec::new();
    let mut edges: Vec<Edge> = Vec::new();
    let mut total: u64 = 0;
    let mut p: u64 = 0;
    let mut li: usize = h + 1;
    proof {
        assert(strings_view(labels@) =~= Seq::<Seq<char>>::empty());
        assert(edges_view(edges@) =~= Seq::<(int, int, int)>::empty());
        assert(body.skip(0) =~= body);
    }
    while p < m_u64 && li < nl
        invariant
            nl == lines@.len(),
            lv == strings_view(lines@),
            h < nl,
            header_pos(lv) == h as int,
            tokens_of(lv[h as int]).len() >= 2,
            valid_count(tokens_of(lv[h as int])[0]),
            valid_count(tokens_of(lv[h as int])[1]),
            m_spec == digits_val(tokens_of(lv[h as int])[1]),
            m_u64 as int == m_spec,
            avail == lv.len() - h - 1,
            cnt == (if m_spec <= avail {
                m_spec
            } else {
                avail as int
            }),
            body == lv.skip(h as int + 1).take(cnt),
            li == h + 1 + p,
            p as int <= cnt,
            0 <= cnt <= avail,
            distinct_seqs(strings_view(labels@)),
            forall|k: int|
                0 <= k < edges@.len() ==> (#[trigger] edges@[k]).source < labels@.len()
                    && edges@[k].target < labels@.len(),
            total as int == edges_abs_from(edges_view(edges@), 0),
            total <= i64::MAX,
            store_fold(body, empty_store()) == store_fold(
                body.skip(p as int),
                StoreState {
                    labels: strings_view(labels@),
                    edges: edges_view(edges@),
                    total: total as int,
                },
            ),
        decreases nl - li,
    {
        let ghost st_now = StoreState {
            labels: strings_view(labels@),
            edges: edges_view(edges@),
            total: total as int,
        };
        proof {
            assert((p as int) < cnt);
            assert(body[p as int] == lv[li as int]);
            assert(body.skip(p as int)[0] == body[p as int]);
            assert(body.skip(p as int).drop_first() =~= body.skip(p as int + 1));
        }
        let toks2 = tokenize(lines[li].as_str());
        proof {
            assert(toks2@.map_values(|s: String| s@) == tokens_of(lv[li as int]));
            assert(toks2@.len() == tokens_of(lv[li as int]).len());
        }
        if toks2.len() == 0 {
            return Err(GraphParseError::MissingField(Field::VertexA));
        }
        if toks2.len() == 1 {
            return Err(GraphParseError::MissingField(Field::VertexB));
        }
        if toks2.len() == 2 {
            return Err(GraphParseError::MissingField(Field::Weight));
        }
        proof {
            assert(toks2@.map_values(|s: String| s@)[0] == toks2@[0]@);
            assert(toks2@.map_values(|s: String| s@)[1] == toks2@[1]@);
            assert(toks2@.map_values(|s: String| s@)[2] == toks2@[2]@);
        }
        let w: i64 = match parse_weight(toks2[2].as_str()) {
            None => {
                return Err(GraphParseError::InvalidValue(toks2[2].clone()));
            },
            Some(v) => v,
        };
        proof {
            lemma_weight_val_bounds(toks2@[2]@);
        }
        let wa: u64 = if w < 0 {
            (-w) as u64
        } else {
            w as u64
        };
        if total > (i64::MAX as u64) - wa {
            return Err(GraphParseError::InvalidValue(toks2[2].clone()));
        }
        total = total + wa;
        let ia = add_label(&mut labels, &toks2[0]);
        let ib = add_label(&mut labels, &toks2[1]);
        edges.push(Edge { source: ia, target: ib, weight: w });
        proof {
            let tk = tokens_of(lv[li as int]);
            let labels1 = add_label_model(st_now.labels, tk[0]);
            let labels2 = add_label_model(labels1, tk[1]);
            assert(edges_view(edges@) =~= st_now.edges.push(
                (ia as int, ib as int, w as int),
            ));
            lemma_edges_abs_push(st_now.edges, (ia as int, ib as int, w as int), 0);
            assert(record_step(st_now, body[p as int]) == Ok::<StoreState, SpecParseErr>(
                StoreState {
                    labels: strings_view(labels@),
                    edges: edges_view(edges@),
                    total: total as int,
                },
            ));
        }
        p = p + 1;
        li = li + 1;
    }
    proof {
        assert(p as int == cnt);
        assert(body.skip(cnt) =~= Seq::<Seq<char>>::empty());
    }
    let g = Graph { labels, edges, directed };
    proof {
        lemma_usable_abs_all(g, 0);
    }
    Ok(g)
}

} // verus!
