//! The left-corner recognizer: each bucket is split by the symbol its edges
//! wait for, so that predict reads only the rules a symbol starts and complete
//! reads only the edges waiting for the completed symbol.
use vstd::prelude::*;

use crate::baseline::complete_into;
use crate::bound::{edge_bound, lemma_bucket_bound};
use crate::closure::{
    chart_inv, closed_at, held, lemma_chart_complete, lemma_chart_inv_push, lemma_closed_at_step,
    lemma_edges_push, lemma_sound_contains, obligations_met, sound,
};
use crate::leftcorner::{
    corner_rules, find_corner, indexes, indices, leftcorners_dict, lemma_corner_rules, LeftCorner,
};
use crate::model::{
    advanced, chart_of, completes, grammar_ok, lemma_predicted_valid, lemma_scan_valid,
    lemma_valid_shaped, predicted, predicts, published, scan_edge, shaped, valid, EdgeModel,
    RuleModel,
};
use crate::types::{buckets, contains_edge, copy_edges, copy_syms, edges, rules, syms, words, Chart, Edge, Rule};

verus! {

/// The edges of one bucket that wait for the same symbol (`None`: the passive ones).
pub struct SubBucket {
    pub key: Option<String>,
    pub edges: Vec<Edge>,
}

pub open spec fn key_view(k: Option<String>) -> Option<Seq<char>> {
    match k {
        Some(s) => Some(s@),
        None => None,
    }
}

/// The sub-bucket an edge belongs in: the symbol it waits for, if any.
pub open spec fn corner_key(x: EdgeModel) -> Option<Seq<char>> {
    if x.passive() {
        None
    } else {
        Some(x.rhs[x.dot])
    }
}

/// Distinct keys, each edge under its own key, no edge twice in a sub-bucket.
pub open spec fn partitioned(b: Seq<SubBucket>) -> bool {
    &&& forall|t: int, u: int|
        0 <= t < u < b.len() ==> key_view((#[trigger] b[t]).key) != key_view((#[trigger] b[u]).key)
    &&& forall|t: int, m: int|
        0 <= t < b.len() && 0 <= m < b[t].edges.len() ==> corner_key(
            (#[trigger] b[t].edges@[m])@,
        ) == key_view(b[t].key)
    &&& forall|t: int| 0 <= t < b.len() ==> edges((#[trigger] b[t]).edges@).no_duplicates()
}

/// Some sub-bucket of `b` holds `x`.
pub open spec fn holds(b: Seq<SubBucket>, x: EdgeModel) -> bool {
    exists|t: int| 0 <= t < b.len() && #[trigger] edges(b[t].edges@).contains(x)
}

/// The partitioned bucket `b` holds exactly the edges of `flat`.
pub open spec fn mirrors(b: Seq<SubBucket>, flat: Seq<EdgeModel>) -> bool {
    &&& partitioned(b)
    &&& forall|x: EdgeModel| #[trigger] flat.contains(x) <==> holds(b, x)
}

/// The key of an edge whose dot is in range.
fn key_of(e: &Edge) -> (r: Option<String>)
    requires
        e.dot <= e.rhs.len(),
    ensures
        key_view(r) == corner_key(e@),
{
    if e.dot == e.rhs.len() {
        None
    } else {
        Some(e.rhs[e.dot].clone())
    }
}

/// The sub-bucket of `b` with key `key`, if there is one.
fn find_sub(b: &Vec<SubBucket>, key: &Option<String>) -> (r: Option<usize>)
    ensures
        match r {
            Some(t) => t < b.len() && key_view(b@[t as int].key) == key_view(*key),
            None => forall|t: int| 0 <= t < b.len() ==> key_view((#[trigger] b@[t]).key) != key_view(*key),
        },
{
    let mut t: usize = 0;
    while t < b.len()
        invariant
            t <= b.len(),
            forall|u: int| 0 <= u < t ==> key_view((#[trigger] b@[u]).key) != key_view(*key),
        decreases b.len() - t,
    {
        let same = match (&b[t].key, key) {
            (None, None) => true,
            (Some(x), Some(y)) => *x == *y,
            _ => false,
        };
        if same {
            return Some(t);
        }
        t = t + 1;
    }
    None
}

proof fn lemma_holds_unique(b: Seq<SubBucket>, t: int, x: EdgeModel)
    requires
        partitioned(b),
        0 <= t < b.len(),
        key_view(b[t].key) == corner_key(x),
        holds(b, x),
    ensures
        edges(b[t].edges@).contains(x),
{
    let u = choose|u: int| 0 <= u < b.len() && #[trigger] edges(b[u].edges@).contains(x);
    let m = choose|m: int| 0 <= m < edges(b[u].edges@).len() && edges(b[u].edges@)[m] == x;
    assert(corner_key(b[u].edges@[m]@) == key_view(b[u].key));
    if u < t {
        assert(key_view(b[u].key) != key_view(b[t].key));
    } else if t < u {
        assert(key_view(b[t].key) != key_view(b[u].key));
    }
}

proof fn lemma_holds_none(b: Seq<SubBucket>, x: EdgeModel)
    requires
        partitioned(b),
        forall|t: int| 0 <= t < b.len() ==> key_view((#[trigger] b[t]).key) != corner_key(x),
    ensures
        !holds(b, x),
{
    if holds(b, x) {
        let u = choose|u: int| 0 <= u < b.len() && #[trigger] edges(b[u].edges@).contains(x);
        let m = choose|m: int| 0 <= m < edges(b[u].edges@).len() && edges(b[u].edges@)[m] == x;
        assert(corner_key(b[u].edges@[m]@) == key_view(b[u].key));
        assert(key_view(b[u].key) != corner_key(x));
    }
}

proof fn lemma_holds_push(b: Seq<SubBucket>, b2: Seq<SubBucket>, t: int, x: EdgeModel)
    requires
        0 <= t < b.len(),
        b2.len() == b.len(),
        forall|u: int| 0 <= u < b.len() && u != t ==> b2[u] == b[u],
        forall|y: EdgeModel| #[trigger]
            edges(b2[t].edges@).contains(y) <==> (edges(b[t].edges@).contains(y) || y == x),
    ensures
        forall|y: EdgeModel| #[trigger] holds(b2, y) <==> (holds(b, y) || y == x),
{
    assert forall|y: EdgeModel| #[trigger] holds(b2, y) <==> (holds(b, y) || y == x) by {
        if holds(b2, y) {
            let u = choose|u: int| 0 <= u < b2.len() && #[trigger] edges(b2[u].edges@).contains(y);
            if u != t {
                assert(b2[u] == b[u]);
            }
        }
        if holds(b, y) {
            let u = choose|u: int| 0 <= u < b.len() && #[trigger] edges(b[u].edges@).contains(y);
            if u != t {
                assert(b2[u] == b[u]);
            }
            assert(edges(b2[u].edges@).contains(y));
        }
        if y == x {
            assert(edges(b2[t].edges@).contains(y));
        }
    }
}

/// Pushes onto `agenda` each edge that a rule listed under the left corner
/// `edge.lhs` starts over the passive `edge`.
fn predict_lc(
    grammar: &[Rule],
    index: &Vec<LeftCorner>,
    edge: &Edge,
    agenda: &mut Vec<Edge>,
    Ghost(w): Ghost<Seq<Seq<char>>>,
)
    requires
        grammar_ok(rules(grammar@)),
        indexes(rules(grammar@), index@, grammar@.len() as int),
        edge@.passive(),
        valid(rules(grammar@), w, edge@),
        sound(rules(grammar@), w, edge@.end, edges(old(agenda)@)),
    ensures
        sound(rules(grammar@), w, edge@.end, edges(final(agenda)@)),
        forall|x: EdgeModel|
            edges(old(agenda)@).contains(x) ==> #[trigger] edges(final(agenda)@).contains(x),
        forall|i: int|
            predicts(rules(grammar@), edge@, i) ==> edges(final(agenda)@).contains(
                #[trigger] predicted(rules(grammar@)[i], edge@),
            ),
{
    let ghost g = rules(grammar@);
    let ghost a0 = edges(agenda@);
    let ghost cr = corner_rules(g, edge@.lhs, g.len() as int);
    proof {
        lemma_corner_rules(g, edge@.lhs, g.len() as int);
    }
    match find_corner(index, &edge.lhs) {
        None => {
            proof {
                assert(cr == Seq::<int>::empty());
                assert forall|i: int| predicts(g, edge@, i) implies edges(agenda@).contains(
                    #[trigger] predicted(g[i], edge@),
                ) by {
                    assert(cr.contains(i));
                }
            }
        },
        Some(t) => {
            let list = &index[t].rules;
            assert(indices(list@) == cr);
            let mut m: usize = 0;
            while m < list.len()
                invariant
                    m <= list.len(),
                    indices(list@) == cr,
                    g == rules(grammar@),
                    grammar_ok(g),
                    edge@.passive(),
                    valid(g, w, edge@),
                    forall|q: int|
                        0 <= q < cr.len() ==> 0 <= #[trigger] cr[q] < g.len() && g[cr[q]].rhs[0]
                            == edge@.lhs,
                    sound(g, w, edge@.end, edges(agenda@)),
                    forall|x: EdgeModel| a0.contains(x) ==> #[trigger] edges(agenda@).contains(x),
                    forall|q: int|
                        0 <= q < m ==> edges(agenda@).contains(#[trigger] predicted(g[cr[q]], edge@)),
                decreases list.len() - m,
            {
                let ri = list[m];
                assert(cr[m as int] == ri as int);
                let rule = &grammar[ri];
                assert(g[ri as int] == rule@);
                let ne = Edge {
                    start: edge.start,
                    end: edge.end,
                    lhs: rule.lhs.clone(),
                    rhs: copy_syms(&rule.rhs),
                    dot: 1,
                };
                proof {
                    assert(predicts(g, edge@, ri as int));
                    lemma_predicted_valid(g, w, edge@, ri as int);
                    assert(ne@ == predicted(g[ri as int], edge@));
                    lemma_edges_push(agenda@, ne);
                }
                agenda.push(ne);
                m = m + 1;
            }
            proof {
                assert forall|i: int| predicts(g, edge@, i) implies edges(agenda@).contains(
                    #[trigger] predicted(g[i], edge@),
                ) by {
                    assert(cr.contains(i));
                    let q = choose|q: int| 0 <= q < cr.len() && cr[q] == i;
                    assert(edges(agenda@).contains(predicted(g[cr[q]], edge@)));
                }
            }
        },
    }
}

/// Pushes onto `agenda` each edge of the sub-bucket of `bucket` waiting for
/// `edge.lhs`, advanced over the passive `edge`.
fn complete_lc(
    bucket: &Vec<SubBucket>,
    edge: &Edge,
    agenda: &mut Vec<Edge>,
    Ghost(g): Ghost<Seq<RuleModel>>,
    Ghost(w): Ghost<Seq<Seq<char>>>,
    Ghost(flat): Ghost<Seq<EdgeModel>>,
)
    requires
        mirrors(bucket@, flat),
        sound(g, w, edge@.start, flat),
        edge@.passive(),
        valid(g, w, edge@),
        sound(g, w, edge@.end, edges(old(agenda)@)),
    ensures
        sound(g, w, edge@.end, edges(final(agenda)@)),
        forall|x: EdgeModel|
            edges(old(agenda)@).contains(x) ==> #[trigger] edges(final(agenda)@).contains(x),
        forall|a: EdgeModel|
            flat.contains(a) && completes(a, edge@) ==> edges(final(agenda)@).contains(
                #[trigger] advanced(a, edge@),
            ),
{
    let key = Some(edge.lhs.clone());
    match find_sub(bucket, &key) {
        Some(t) => {
            proof {
                let sv = edges(bucket@[t as int].edges@);
                assert forall|j: int| 0 <= j < sv.len() implies valid(g, w, #[trigger] sv[j])
                    && sv[j].end == edge@.start by {
                    assert(sv.contains(sv[j]));
                    assert(holds(bucket@, sv[j]));
                    lemma_sound_contains(g, w, edge@.start, flat, sv[j]);
                }
            }
            complete_into(&bucket[t].edges, edge, agenda, Ghost(g), Ghost(w));
            proof {
                assert forall|a: EdgeModel| flat.contains(a) && completes(a, edge@) implies edges(
                    agenda@,
                ).contains(#[trigger] advanced(a, edge@)) by {
                    lemma_holds_unique(bucket@, t as int, a);
                }
            }
        },
        None => {
            proof {
                assert forall|a: EdgeModel| flat.contains(a) && completes(a, edge@) implies edges(
                    agenda@,
                ).contains(#[trigger] advanced(a, edge@)) by {
                    lemma_holds_none(bucket@, a);
                }
            }
        },
    }
}

/// The partitioned bucket for position `chart.len()`, and the edges it holds.
fn fill_lc_bucket(
    grammar: &[Rule],
    index: &Vec<LeftCorner>,
    chart: &Vec<Vec<SubBucket>>,
    word: &str,
    Ghost(w): Ghost<Seq<Seq<char>>>,
    Ghost(cv): Ghost<Seq<Seq<EdgeModel>>>,
) -> (r: (Vec<SubBucket>, Ghost<Seq<EdgeModel>>))
    requires
        grammar_ok(rules(grammar@)),
        indexes(rules(grammar@), index@, grammar@.len() as int),
        1 <= chart.len() <= w.len(),
        word@ == w[chart.len() - 1],
        chart_inv(rules(grammar@), w, cv),
        cv.len() == chart.len(),
        forall|j: int| 0 <= j < chart.len() ==> mirrors(#[trigger] chart@[j]@, cv[j]),
    ensures
        mirrors(r.0@, r.1@),
        sound(rules(grammar@), w, chart.len() as int, r.1@),
        r.1@.no_duplicates(),
        closed_at(rules(grammar@), w, cv, chart.len() as int, r.1@, Seq::empty()),
{
    let ghost g = rules(grammar@);
    let k = chart.len();
    let mut lcb: Vec<SubBucket> = Vec::new();
    let ghost mut flat: Seq<EdgeModel> = Seq::empty();
    let mut agenda: Vec<Edge> = Vec::new();
    let scanned = Edge { start: k - 1, end: k, lhs: word.to_owned(), rhs: Vec::new(), dot: 0 };
    proof {
        assert(syms(scanned.rhs@) =~= Seq::empty());
        assert(scanned@ == scan_edge(w, k as int));
        lemma_scan_valid(g, w, k as int);
        lemma_edges_push(agenda@, scanned);
        lemma_bucket_bound(g, w, k as int, Seq::empty());
    }
    agenda.push(scanned);
    while agenda.len() > 0
        invariant
            g == rules(grammar@),
            k == chart.len(),
            1 <= k <= w.len(),
            grammar_ok(g),
            indexes(g, index@, g.len() as int),
            chart_inv(g, w, cv),
            cv.len() == chart.len(),
            forall|j: int| 0 <= j < chart.len() ==> mirrors(#[trigger] chart@[j]@, cv[j]),
            mirrors(lcb@, flat),
            sound(g, w, k as int, flat),
            sound(g, w, k as int, edges(agenda@)),
            flat.no_duplicates(),
            flat.len() <= edge_bound(g, k as int),
            closed_at(g, w, cv, k as int, flat, edges(agenda@)),
        decreases edge_bound(g, k as int) - flat.len(), agenda.len(),
    {
        let ghost b0 = flat;
        let ghost av0 = agenda@;
        let ghost ag0 = edges(agenda@);
        let edge = agenda.pop().unwrap();
        let ghost ag1 = edges(agenda@);
        let ghost ev = edge@;
        proof {
            assert(av0 =~= agenda@.push(edge));
            lemma_edges_push(agenda@, edge);
            assert(sound(g, w, k as int, ag1)) by {
                assert forall|j: int| 0 <= j < ag1.len() implies valid(g, w, #[trigger] ag1[j])
                    && ag1[j].end == k by {
                    assert(ag1[j] == ag0[j]);
                }
            }
            assert(valid(g, w, ag0[ag0.len() - 1]));
            lemma_valid_shaped(g, w, ev);
        }
        let key = key_of(&edge);
        let t: usize = match find_sub(&lcb, &key) {
            Some(t) => t,
            None => {
                let ghost l0 = lcb@;
                let ghost kv = key_view(key);
                lcb.push(SubBucket { key, edges: Vec::new() });
                proof {
                    assert(edges(lcb@[l0.len() as int].edges@) =~= Seq::empty());
                    assert forall|x: EdgeModel| #[trigger] holds(lcb@, x) <==> holds(l0, x) by {
                        if holds(lcb@, x) {
                            let u = choose|u: int|
                                0 <= u < lcb@.len() && #[trigger] edges(lcb@[u].edges@).contains(x);
                            if u < l0.len() {
                                assert(lcb@[u] == l0[u]);
                            }
                        }
                        if holds(l0, x) {
                            let u = choose|u: int|
                                0 <= u < l0.len() && #[trigger] edges(l0[u].edges@).contains(x);
                            assert(lcb@[u] == l0[u]);
                        }
                    }
                    assert forall|u: int, v: int|
                        0 <= u < v < lcb@.len() implies key_view((#[trigger] lcb@[u]).key) != key_view(
                        (#[trigger] lcb@[v]).key,
                    ) by {
                        if v < l0.len() {
                            assert(lcb@[u] == l0[u]);
                            assert(lcb@[v] == l0[v]);
                        } else {
                            assert(lcb@[u] == l0[u]);
                        }
                    }
                    assert forall|u: int, m: int|
                        0 <= u < lcb@.len() && 0 <= m < lcb@[u].edges.len() implies corner_key(
                        (#[trigger] lcb@[u].edges@[m])@,
                    ) == key_view(lcb@[u].key) by {
                        assert(lcb@[u] == l0[u]);
                    }
                    assert forall|u: int| 0 <= u < lcb@.len() implies edges(
                        (#[trigger] lcb@[u]).edges@,
                    ).no_duplicates() by {
                        if u < l0.len() {
                            assert(lcb@[u] == l0[u]);
                        }
                    }
                }
                lcb.len() - 1
            },
        };
        if !contains_edge(&lcb[t].edges, &edge) {
            proof {
                if flat.contains(ev) {
                    lemma_holds_unique(lcb@, t as int, ev);
                }
            }
            if edge.is_passive() {
                predict_lc(grammar, index, &edge, &mut agenda, Ghost(w));
                let ghost ag2 = edges(agenda@);
                proof {
                    assert(mirrors(chart@[edge.start as int]@, cv[edge.start as int]));
                    assert(sound(g, w, edge.start as int, cv[edge.start as int]));
                }
                complete_lc(
                    &chart[edge.start],
                    &edge,
                    &mut agenda,
                    Ghost(g),
                    Ghost(w),
                    Ghost(cv[edge.start as int]),
                );
                proof {
                    assert forall|i: int| predicts(g, ev, i) implies #[trigger] edges(
                        agenda@,
                    ).contains(predicted(g[i], ev)) by {
                        assert(ag2.contains(predicted(g[i], ev)));
                    }
                }
            }
            let ghost ag3 = edges(agenda@);
            let ghost l0 = lcb@;
            proof {
                lemma_edges_push(lcb@[t as int].edges@, edge);
            }
            lcb[t].edges.push(edge);
            proof {
                let b2 = b0.push(ev);
                assert(b2.contains(ev)) by {
                    assert(b2[b0.len() as int] == ev);
                }
                assert forall|x: EdgeModel| #[trigger] b2.contains(x) <==> (b0.contains(x) || x == ev) by {
                    if b2.contains(x) {
                        let j = choose|j: int| 0 <= j < b2.len() && b2[j] == x;
                        if j < b0.len() {
                            assert(b0[j] == x);
                        }
                    }
                    if b0.contains(x) {
                        let j = choose|j: int| 0 <= j < b0.len() && b0[j] == x;
                        assert(b2[j] == x);
                    }
                }
                assert(obligations_met(g, cv, k as int, b2, ag3, ev));
                assert forall|y: EdgeModel| held(b0, ag0, y) implies #[trigger] held(b2, ag3, y) by {
                    if ag1.contains(y) {
                        assert(ag3.contains(y));
                    }
                }
                lemma_closed_at_step(g, w, cv, k as int, b0, ag0, b2, ag3, ev);
                assert(b2.no_duplicates()) by {
                    assert forall|i: int, j: int|
                        0 <= i < b2.len() && 0 <= j < b2.len() && i != j implies b2[i] != b2[j] by {
                        if i < b0.len() && j < b0.len() {
                        } else if i < b0.len() {
                            assert(b0.contains(b2[i]));
                        } else if j < b0.len() {
                            assert(b0.contains(b2[j]));
                        }
                    }
                }
                assert forall|j: int| 0 <= j < b2.len() implies shaped(g, w, #[trigger] b2[j])
                    && b2[j].end == k by {
                    if j < b0.len() {
                        lemma_valid_shaped(g, w, b0[j]);
                    }
                }
                lemma_bucket_bound(g, w, k as int, b2);
                assert forall|u: int| 0 <= u < l0.len() && u != t implies lcb@[u] == l0[u] by {}
                lemma_holds_push(l0, lcb@, t as int, ev);
                assert forall|u: int, m: int|
                    0 <= u < lcb@.len() && 0 <= m < lcb@[u].edges.len() implies corner_key(
                    (#[trigger] lcb@[u].edges@[m])@,
                ) == key_view(lcb@[u].key) by {
                    if u != t {
                        assert(lcb@[u] == l0[u]);
                    } else if m < l0[u].edges.len() {
                        assert(lcb@[u].edges@[m] == l0[u].edges@[m]);
                    }
                }
                assert forall|u: int, v: int|
                    0 <= u < v < lcb@.len() implies key_view((#[trigger] lcb@[u]).key) != key_view(
                    (#[trigger] lcb@[v]).key,
                ) by {
                    assert(l0[u].key == lcb@[u].key);
                    assert(l0[v].key == lcb@[v].key);
                }
                assert forall|u: int| 0 <= u < lcb@.len() implies edges(
                    (#[trigger] lcb@[u]).edges@,
                ).no_duplicates() by {
                    if u != t {
                        assert(lcb@[u] == l0[u]);
                    } else {
                        let o = edges(l0[u].edges@);
                        let n = edges(lcb@[u].edges@);
                        assert(n == o.push(ev));
                        assert forall|i: int, j: int|
                            0 <= i < n.len() && 0 <= j < n.len() && i != j implies n[i] != n[j] by {
                            if i < o.len() && j < o.len() {
                            } else if i < o.len() {
                                assert(o.contains(n[i]));
                            } else if j < o.len() {
                                assert(o.contains(n[j]));
                            }
                        }
                    }
                }
                flat = b2;
            }
        } else {
            proof {
                assert(holds(lcb@, ev));
                assert forall|y: EdgeModel| held(b0, ag0, y) implies #[trigger] held(b0, ag1, y) by {}
                lemma_closed_at_step(g, w, cv, k as int, b0, ag0, b0, ag1, ev);
            }
        }
    }
    (lcb, Ghost(flat))
}

/// The published chart: the passive sub-bucket of each final bucket.
fn publish_lc(
    chart: &Vec<Vec<SubBucket>>,
    Ghost(g): Ghost<Seq<RuleModel>>,
    Ghost(w): Ghost<Seq<Seq<char>>>,
    Ghost(cv): Ghost<Seq<Seq<EdgeModel>>>,
) -> (result: Chart)
    requires
        chart_inv(g, w, cv),
        cv.len() == chart.len(),
        chart.len() == w.len() + 1,
        forall|j: int| 0 <= j < chart.len() ==> mirrors(#[trigger] chart@[j]@, cv[j]),
    ensures
        chart_of(g, w, result@),
{
    let mut result = Chart::new();
    let mut j: usize = 0;
    while j < chart.len()
        invariant
            j <= chart.len(),
            chart_inv(g, w, cv),
            cv.len() == chart.len(),
            chart.len() == w.len() + 1,
            forall|m: int| 0 <= m < chart.len() ==> mirrors(#[trigger] chart@[m]@, cv[m]),
            result@.len() == j,
            forall|m: int| 0 <= m < j ==> (#[trigger] result@[m]).no_duplicates(),
            forall|m: int, e: EdgeModel|
                0 <= m < j ==> (#[trigger] result@[m].contains(e) <==> published(g, w, m, e)),
        decreases chart.len() - j,
    {
        let b = &chart[j];
        let ghost bv = b@;
        let none: Option<String> = None;
        let found = find_sub(b, &none);
        let part = match found {
            Some(t) => copy_edges(&b[t].edges),
            None => Vec::new(),
        };
        proof {
            assert(mirrors(bv, cv[j as int]));
            assert(sound(g, w, j as int, cv[j as int]));
            assert forall|e: EdgeModel| #[trigger]
                edges(part@).contains(e) <==> published(g, w, j as int, e) by {
                if edges(part@).contains(e) {
                    let t = found.unwrap() as int;
                    let m = choose|m: int| 0 <= m < edges(part@).len() && edges(part@)[m] == e;
                    assert(corner_key(bv[t].edges@[m]@) == key_view(bv[t].key));
                    assert(holds(bv, e));
                    lemma_sound_contains(g, w, j as int, cv[j as int], e);
                }
                if published(g, w, j as int, e) {
                    lemma_chart_complete(g, w, cv, e);
                    match found {
                        Some(t) => {
                            lemma_holds_unique(bv, t as int, e);
                        },
                        None => {
                            lemma_holds_none(bv, e);
                        },
                    }
                }
            }
            if found.is_none() {
                assert(edges(part@) =~= Seq::empty());
            }
            assert(buckets(result.chart@.push(part)) =~= result@.push(edges(part@)));
        }
        result.chart.push(part);
        j = j + 1;
    }
    result
}

/// Recognizes `input` under `grammar` through the left-corner index: the same
/// chart as the baseline, bucket `k` holding each derivable passive edge
/// ending at `k`, once.
pub fn earley2(grammar: &[Rule], input: &[&str]) -> (result: Chart)
    requires
        grammar_ok(rules(grammar@)),
    ensures
        chart_of(rules(grammar@), words(input@), result@),
{
    let ghost g = rules(grammar@);
    let ghost w = words(input@);
    let index = leftcorners_dict(grammar);
    let mut chart: Vec<Vec<SubBucket>> = Vec::new();
    chart.push(Vec::new());
    let ghost mut cv: Seq<Seq<EdgeModel>> = seq![Seq::empty()];
    let mut i: usize = 0;
    while i < input.len()
        invariant
            g == rules(grammar@),
            w == words(input@),
            grammar_ok(g),
            indexes(g, index@, g.len() as int),
            i <= input.len(),
            chart.len() == i + 1,
            cv.len() == chart.len(),
            chart_inv(g, w, cv),
            forall|m: int| 0 <= m < chart.len() ==> mirrors(#[trigger] chart@[m]@, cv[m]),
        decreases input.len() - i,
    {
        let (bucket, Ghost(flat)) = fill_lc_bucket(
            grammar,
            &index,
            &chart,
            input[i],
            Ghost(w),
            Ghost(cv),
        );
        proof {
            lemma_chart_inv_push(g, w, cv, flat);
        }
        let ghost c0 = chart@;
        chart.push(bucket);
        proof {
            let cv2 = cv.push(flat);
            assert forall|m: int| 0 <= m < chart.len() implies mirrors(
                #[trigger] chart@[m]@,
                cv2[m],
            ) by {
                if m < c0.len() {
                    assert(chart@[m] == c0[m]);
                    assert(cv2[m] == cv[m]);
                }
            }
            cv = cv2;
        }
        i = i + 1;
    }
    publish_lc(&chart, Ghost(g), Ghost(w), Ghost(cv))
}

} // verus!
